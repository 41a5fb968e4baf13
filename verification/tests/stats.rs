use cache_sim::cache::Cache;
use cache_sim::condition::Condition;
use cache_sim::policy::{Outcome, Policy};
use cache_sim::stats::{process_observed, resident_set, Observer};
use cache_sim::trace::Trace;
use std::collections::HashMap;
use std::collections::HashSet;

#[test]
fn observer_records_and_counts() {
    let mut observer = Observer::new(Condition::Always);
    assert!(observer.trace().is_empty());
    assert!(observer.table().is_empty());
    let resident: HashSet<u32> = HashSet::new();
    for item in [0, 0, 1, 0, 3, 1] {
        observer.update(&resident, item, None);
    }
    assert_eq!(observer.trace(), &Trace::from(vec![0, 0, 1, 0, 3, 1]));
    assert_eq!(observer.table(), &HashMap::from([(0, 3), (1, 2), (3, 1)]));
    assert_eq!(observer.table(), &observer.trace().frequency_histogram());
}

#[test]
fn observer_counts_only_where_its_condition_holds() {
    let mut repeats = Observer::new(Condition::EqualsPrevious);
    let mut after = Observer::new(Condition::After(vec![7, 7]));
    let resident: HashSet<u32> = HashSet::new();
    let items = [7, 7, 7, 2, 2, 7, 7, 5];
    for item in items {
        repeats.update(&resident, item, Some(item));
        after.update(&resident, item, None);
    }
    assert_eq!(repeats.table(), &HashMap::from([(7, 3), (2, 1)]));
    assert_eq!(after.table(), &HashMap::from([(7, 1), (2, 1), (5, 1)]));
    assert_eq!(repeats.trace().inner(), &items);
    assert_eq!(
        after.table(),
        &Trace::from(items.to_vec()).conditional_frequency_histogram(&Condition::After(vec![7, 7]))
    );
}

#[test]
fn cache_tells_every_observer_of_every_access() {
    let mut cache = Cache::new(2, Policy::Lru, 0).unwrap();
    let mut observers = vec![
        Observer::new(Condition::Always),
        Observer::new(Condition::EqualsPrevious),
        Observer::new(Condition::After(vec![1])),
    ];
    let mut outcomes = Vec::new();
    for item in [1, 2, 1, 3, 1] {
        outcomes.push(process_observed(&mut cache, item, &mut observers));
    }
    assert_eq!(
        outcomes,
        vec![
            Outcome { hit: false, evicted: None },
            Outcome { hit: false, evicted: None },
            Outcome { hit: true, evicted: None },
            Outcome { hit: false, evicted: Some(2) },
            Outcome { hit: true, evicted: None },
        ]
    );
    assert_eq!(observers.len(), 3);
    for observer in &observers {
        assert_eq!(observer.trace().inner(), &[1, 2, 1, 3, 1]);
    }
    assert_eq!(observers[0].table(), &HashMap::from([(1, 3), (2, 1), (3, 1)]));
    assert_eq!(observers[1].table(), &HashMap::new());
    assert_eq!(observers[2].table(), &HashMap::from([(2, 1), (3, 1)]));
}

#[test]
fn resident_set_holds_the_resident_items() {
    let mut cache = Cache::new(3, Policy::Fifo, 0).unwrap();
    assert_eq!(resident_set(&cache), HashSet::new());
    cache.process_all(&vec![5, 6, 5, 7, 8]);
    assert_eq!(resident_set(&cache), HashSet::from([6, 7, 8]));
}

#[test]
fn simulation_keeps_its_observers_in_step() {
    let cache = Cache::new(2, Policy::Fifo, 0).unwrap();
    let observers = vec![
        Observer::new(Condition::Always),
        Observer::new(Condition::EqualsPrevious),
    ];
    let mut simulation = cache_sim::stats::Simulation::new(cache, observers);
    assert_eq!(
        simulation.process(4),
        Outcome { hit: false, evicted: None }
    );
    assert_eq!(simulation.process_all(&vec![4, 5, 6, 6, 4]), (2, 3));
    assert_eq!(simulation.cache().resident(), vec![6, 4]);
    let observers = simulation.observers();
    assert_eq!(observers.len(), 2);
    assert_eq!(observers[0].trace().inner(), &[4, 4, 5, 6, 6, 4]);
    assert_eq!(observers[1].trace().inner(), &[4, 4, 5, 6, 6, 4]);
    assert_eq!(observers[0].table(), &HashMap::from([(4, 3), (5, 1), (6, 2)]));
    assert_eq!(observers[1].table(), &HashMap::from([(4, 1), (6, 1)]));
}

#[test]
fn simulation_without_observers_is_the_cache() {
    let mut simulation =
        cache_sim::stats::Simulation::new(Cache::new(1, Policy::Lru, 0).unwrap(), Vec::new());
    assert_eq!(simulation.process_all(&vec![1, 1, 2, 1]), (1, 3));
    let mut cache = Cache::new(1, Policy::Lru, 0).unwrap();
    assert_eq!(cache.process_all(&vec![1, 1, 2, 1]), (1, 3));
    assert_eq!(simulation.cache().resident(), cache.resident());
}
