use cache_sim::cache::{Cache, CacheError};
use cache_sim::policy::{Outcome, Policy};

const ALL: [Policy; 6] = [
    Policy::Fifo,
    Policy::Lru,
    Policy::Mru,
    Policy::Lfu,
    Policy::Random,
    Policy::Landlord,
];

fn miss(evicted: Option<u32>) -> Outcome {
    Outcome { hit: false, evicted }
}

fn hit() -> Outcome {
    Outcome { hit: true, evicted: None }
}

fn replay(cache: &mut Cache, items: &[u32]) -> Vec<Outcome> {
    items.iter().map(|&i| cache.process(i)).collect()
}

#[test]
fn negative_capacity_is_refused() {
    assert_eq!(
        Cache::new(-1, Policy::Lru, 0).err(),
        Some(CacheError::InvalidConfiguration)
    );
    assert_eq!(
        Cache::new(i64::MIN, Policy::Fifo, 0).err(),
        Some(CacheError::InvalidConfiguration)
    );
    let cache = Cache::new(0, Policy::Lru, 0).unwrap();
    assert_eq!(cache.capacity(), 0);
    assert_eq!(cache.len(), 0);
    assert_eq!(Cache::new(7, Policy::Mru, 0).unwrap().policy(), Policy::Mru);
}

#[test]
fn lru_capacity_two() {
    let mut cache = Cache::new(2, Policy::Lru, 0).unwrap();
    assert_eq!(
        replay(&mut cache, &[1, 2, 3, 1]),
        vec![miss(None), miss(None), miss(Some(1)), miss(Some(2))]
    );
    assert_eq!(cache.resident(), vec![3, 1]);
}

#[test]
fn lru_hit_refreshes_the_item() {
    let mut cache = Cache::new(2, Policy::Lru, 0).unwrap();
    assert_eq!(
        replay(&mut cache, &[1, 2, 1, 3, 1]),
        vec![miss(None), miss(None), hit(), miss(Some(2)), hit()]
    );
    assert_eq!(cache.resident(), vec![3, 1]);
}

#[test]
fn fifo_hit_changes_nothing() {
    let mut cache = Cache::new(2, Policy::Fifo, 0).unwrap();
    assert_eq!(
        replay(&mut cache, &[1, 2, 1, 3, 1]),
        vec![miss(None), miss(None), hit(), miss(Some(1)), miss(Some(2))]
    );
    assert_eq!(cache.resident(), vec![3, 1]);
}

#[test]
fn mru_evicts_the_most_recent() {
    let mut cache = Cache::new(2, Policy::Mru, 0).unwrap();
    assert_eq!(
        replay(&mut cache, &[1, 2, 3, 1]),
        vec![miss(None), miss(None), miss(Some(2)), hit()]
    );
    assert_eq!(cache.resident(), vec![3, 1]);
}

#[test]
fn lfu_evicts_the_least_used() {
    let mut cache = Cache::new(2, Policy::Lfu, 0).unwrap();
    assert_eq!(
        replay(&mut cache, &[1, 1, 2, 3, 2]),
        vec![miss(None), hit(), miss(None), miss(Some(2)), miss(Some(3))]
    );
    assert_eq!(cache.weight(1), Some(2));
    assert_eq!(cache.weight(2), Some(1));
    assert_eq!(cache.weight(3), None);
}

#[test]
fn lfu_tie_goes_to_the_first_inserted() {
    let mut cache = Cache::new(2, Policy::Lfu, 0).unwrap();
    assert_eq!(
        replay(&mut cache, &[1, 2, 3]),
        vec![miss(None), miss(None), miss(Some(1))]
    );
}

#[test]
fn landlord_charges_the_least_credit() {
    let mut cache = Cache::new(2, Policy::Landlord, 0).unwrap();
    assert_eq!(cache.process_weighted(1, 5), miss(None));
    assert_eq!(cache.process_weighted(2, 3), miss(None));
    assert_eq!(cache.weight(1), Some(5));
    assert_eq!(cache.process_weighted(1, 5), hit());
    assert_eq!(cache.weight(1), Some(5));
    assert_eq!(cache.process_weighted(3, 4), miss(Some(2)));
    assert_eq!(cache.weight(1), Some(2));
    assert_eq!(cache.weight(3), Some(4));
    assert_eq!(cache.process_weighted(4, 1), miss(Some(1)));
    assert_eq!(cache.weight(3), Some(2));
    assert_eq!(cache.weight(4), Some(1));
    assert_eq!(cache.resident(), vec![3, 4]);
}

#[test]
fn landlord_credit_stays_within_cost() {
    let mut cache = Cache::new(3, Policy::Landlord, 0).unwrap();
    let costs = [4u64, 9, 2, 7, 1, 8, 3];
    for round in 0..40u32 {
        let item = (round * 5 + round / 3) % 7;
        cache.process_weighted(item, costs[item as usize]);
        assert!(cache.len() <= 3);
        for resident in cache.resident() {
            assert!(cache.weight(resident).unwrap() <= costs[resident as usize]);
        }
    }
}

#[test]
fn random_repeats_with_the_same_seed() {
    let mut cache = Cache::new(2, Policy::Random, 1).unwrap();
    assert_eq!(
        replay(&mut cache, &[1, 2, 3, 4]),
        vec![miss(None), miss(None), miss(Some(1)), miss(Some(2))]
    );
    let items = [3, 1, 4, 1, 5, 9, 2, 6, 5, 3, 5, 8, 9, 7, 9];
    let mut first = Cache::new(3, Policy::Random, 2024).unwrap();
    let mut second = Cache::new(3, Policy::Random, 2024).unwrap();
    assert_eq!(replay(&mut first, &items), replay(&mut second, &items));
}

#[test]
fn capacity_zero_always_misses() {
    for policy in ALL {
        let mut cache = Cache::new(0, policy, 5).unwrap();
        for item in [1, 1, 2, 1] {
            assert_eq!(cache.process(item), miss(Some(item)));
            assert_eq!(cache.len(), 0);
        }
        assert_eq!(cache.process_all(&vec![4, 4, 4]), (0, 3));
        assert!(!cache.contains(4));
    }
}

#[test]
fn nothing_is_evicted_when_everything_fits() {
    for policy in ALL {
        let mut cache = Cache::new(3, policy, 11).unwrap();
        for outcome in replay(&mut cache, &[1, 2, 3, 1, 2, 3, 3, 2, 1]) {
            assert_eq!(outcome.evicted, None);
        }
        assert_eq!(cache.len(), 3);
        assert!(cache.contains(1) && cache.contains(2) && cache.contains(3));
    }
}

#[test]
fn process_all_counts_hits_and_misses() {
    let mut cache = Cache::new(2, Policy::Lru, 0).unwrap();
    assert_eq!(cache.process_all(&vec![1, 2, 1, 3, 1]), (2, 3));
    assert_eq!(cache.resident(), vec![3, 1]);
    assert_eq!(cache.process_all(&vec![]), (0, 0));
    let mut fifo = Cache::new(2, Policy::Fifo, 0).unwrap();
    assert_eq!(fifo.process_all(&vec![1, 2, 1, 3, 1]), (1, 4));
}

#[test]
fn random_picks_by_the_generator() {
    // from seed 1 the generator gives 60616, then 778523634
    let mut cache = Cache::new(3, Policy::Random, 1).unwrap();
    assert_eq!(
        replay(&mut cache, &[1, 2, 3, 4, 5]),
        vec![miss(None), miss(None), miss(None), miss(Some(2)), miss(Some(1))]
    );
    assert_eq!(cache.resident(), vec![3, 4, 5]);
}

#[test]
fn random_seed_is_taken_below_the_modulus() {
    let mut cache = Cache::new(3, Policy::Random, 2147483648).unwrap();
    assert_eq!(
        replay(&mut cache, &[1, 2, 3, 4, 5]),
        vec![miss(None), miss(None), miss(None), miss(Some(2)), miss(Some(1))]
    );
}

#[test]
fn lfu_counts_hits_of_resident_items_only() {
    let mut cache = Cache::new(1, Policy::Lfu, 0).unwrap();
    assert_eq!(replay(&mut cache, &[1, 1, 1]), vec![miss(None), hit(), hit()]);
    assert_eq!(cache.weight(1), Some(3));
    assert_eq!(cache.process(2), miss(Some(1)));
    assert_eq!(cache.process(1), miss(Some(2)));
    assert_eq!(cache.weight(1), Some(1));
}
