use cache_sim::cache::Cache;
use cache_sim::condition::Condition;
use cache_sim::policy::Policy;
use cache_sim::trace::Trace;
use std::collections::HashMap;

#[test]
fn always_counts_every_access() {
    let trace = Trace::from(vec![1, 1, 2, 1, 1, 1]);
    assert_eq!(
        trace.conditional_frequency_histogram(&Condition::Always),
        trace.frequency_histogram()
    );
    assert_eq!(
        trace.conditional_frequency_histogram(&Condition::Always),
        HashMap::from([(1, 5), (2, 1)])
    );
}

#[test]
fn equals_previous_counts_repeats() {
    let trace = Trace::from(vec![1, 1, 2, 1, 1, 1]);
    assert_eq!(
        trace.conditional_frequency_histogram(&Condition::EqualsPrevious),
        HashMap::from([(1, 3)])
    );
    assert_eq!(
        Trace::from(vec![1, 2, 3]).conditional_frequency_histogram(&Condition::EqualsPrevious),
        HashMap::new()
    );
}

#[test]
fn after_counts_what_follows_the_context() {
    let trace = Trace::from(vec![1, 1, 2, 1, 1, 1]);
    assert_eq!(
        trace.conditional_frequency_histogram(&Condition::After(vec![1])),
        HashMap::from([(1, 3), (2, 1)])
    );
    assert_eq!(
        trace.conditional_frequency_histogram(&Condition::After(vec![2, 1])),
        HashMap::from([(1, 1)])
    );
    assert_eq!(
        trace.conditional_frequency_histogram(&Condition::After(vec![])),
        trace.frequency_histogram()
    );
    assert_eq!(
        trace.conditional_frequency_histogram(&Condition::After(vec![1, 1, 2, 1, 1, 1, 1])),
        HashMap::new()
    );
}

#[test]
fn evaluate_looks_at_the_position_and_before() {
    let trace = Trace::from(vec![4, 4, 5, 4]);
    assert!(Condition::Always.evaluate(&trace, 0));
    assert!(!Condition::EqualsPrevious.evaluate(&trace, 0));
    assert!(Condition::EqualsPrevious.evaluate(&trace, 1));
    assert!(!Condition::EqualsPrevious.evaluate(&trace, 2));
    let context = Condition::After(vec![4, 5]);
    assert!(!context.evaluate(&trace, 0));
    assert!(!context.evaluate(&trace, 1));
    assert!(!context.evaluate(&trace, 2));
    assert!(context.evaluate(&trace, 3));
}

#[test]
fn conditional_counts_sum_to_the_positions_that_hold() {
    let items = vec![2, 2, 7, 2, 2, 2, 7, 7, 1, 2, 2];
    let trace = Trace::from(items.clone());
    let repeats = (1..items.len()).filter(|&i| items[i - 1] == items[i]).count();
    let table = trace.conditional_frequency_histogram(&Condition::EqualsPrevious);
    assert_eq!(table.values().sum::<usize>(), repeats);
    assert_eq!(repeats, 5);
    let after_two = (1..items.len()).filter(|&i| items[i - 1] == 2).count();
    let table = trace.conditional_frequency_histogram(&Condition::After(vec![2]));
    assert_eq!(table.values().sum::<usize>(), after_two);
    assert_eq!(table, HashMap::from([(2, 4), (7, 2)]));
}

#[test]
fn lru_hits_where_the_stack_distance_is_below_the_capacity() {
    let items = vec![3, 1, 4, 1, 5, 9, 2, 6, 5, 3, 5, 8, 9, 7, 9, 3, 2, 3];
    let distances = Trace::from(items.clone()).stack_distances().into_inner();
    for capacity in 0..8usize {
        let mut cache = Cache::new(capacity as i64, Policy::Lru, 0).unwrap();
        for (i, &item) in items.iter().enumerate() {
            let expected = matches!(distances[i], Some(d) if d < capacity);
            assert_eq!(cache.process(item).hit, expected);
        }
    }
}

#[test]
fn contexts_are_the_distinct_windows_in_order() {
    let trace = Trace::from(vec![1, 2, 1, 2, 3, 1, 2]);
    assert_eq!(
        trace.contexts(1),
        vec![vec![1], vec![2], vec![3]]
    );
    assert_eq!(
        trace.contexts(2),
        vec![vec![1, 2], vec![2, 1], vec![2, 3], vec![3, 1]]
    );
    assert_eq!(trace.contexts(0), vec![Vec::<u32>::new()]);
    assert_eq!(trace.contexts(7), Vec::<Vec<u32>>::new());
    assert_eq!(trace.contexts(6), vec![vec![1, 2, 1, 2, 3, 1]]);
    assert_eq!(Trace::from(vec![]).contexts(0), Vec::<Vec<u32>>::new());
}

#[test]
fn contexts_leave_out_a_window_that_nothing_follows() {
    // 9 stands only at the end: no access comes after it
    assert_eq!(Trace::from(vec![4, 4, 9]).contexts(1), vec![vec![4]]);
}

#[test]
fn tables_of_all_contexts_account_for_every_position_after_the_window() {
    let items = vec![1, 2, 1, 2, 3, 1, 2, 2, 2, 1];
    let trace = Trace::from(items.clone());
    for window in 0..4usize {
        let mut counted = 0;
        for context in trace.contexts(window) {
            let table = trace.conditional_frequency_histogram(&Condition::After(context));
            counted += table.values().sum::<usize>();
        }
        assert_eq!(counted, items.len() - window);
    }
}
