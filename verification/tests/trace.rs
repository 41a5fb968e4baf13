use cache_sim::trace::Trace;
use cache_sim::StackDistance;
use std::collections::HashMap;
use std::collections::HashSet;

fn distances_of(items: Vec<u32>) -> Vec<Option<usize>> {
    Trace::from(items).stack_distances().into_inner()
}

fn histogram_of(items: Vec<u32>) -> (Vec<usize>, usize) {
    let distances: StackDistance = Trace::from(items).stack_distances();
    distances.histogram()
}

#[test]
fn stack_distance_basic() {
    assert_eq!(
        Trace::from(vec![1, 2, 3]).stack_distances().inner(),
        vec![None, None, None]
    );
}

#[test]
fn stack_distance_repeated() {
    assert_eq!(
        Trace::from(vec![1, 1, 1]).stack_distances().inner(),
        vec![None, Some(0), Some(0)]
    );
}

#[test]
fn stack_distance_one_two() {
    assert_eq!(
        Trace::from(vec![1, 2, 1, 1, 1]).stack_distances().inner(),
        vec![None, None, Some(1), Some(0), Some(0)]
    );
}

#[test]
fn stack_distance_one_repeated() {
    assert_eq!(
        Trace::from(vec![1, 2, 3, 1]).stack_distances().inner(),
        vec![None, None, None, Some(2)]
    );
}

#[test]
fn stack_distance_empty() {
    assert_eq!(distances_of(vec![]), Vec::<Option<usize>>::new());
}

#[test]
fn stack_distance_documented_example() {
    let distances = Trace::from(vec![0, 0, 1, 0, 3, 0, 1]).stack_distances();
    assert_eq!(
        distances.inner(),
        &[None, Some(0), None, Some(1), None, Some(1), Some(2)]
    );
    let (distance_hist, infinities) = distances.histogram();
    assert_eq!(distance_hist, vec![1, 2, 1]);
    assert_eq!(infinities, 3);
}

#[test]
fn stack_distance_counts_distinct_items_only() {
    // between the two accesses to 7 there are five accesses, to two items
    assert_eq!(
        distances_of(vec![7, 1, 2, 1, 2, 1, 7]),
        vec![None, None, None, Some(1), Some(1), Some(1), Some(2)]
    );
}

#[test]
fn stack_distance_first_occurrences_are_infinite() {
    let items = vec![5, 9, 5, 2, 9, 9, 4, 2, 5];
    let distances = distances_of(items.clone());
    assert_eq!(distances.len(), items.len());
    for i in 0..items.len() {
        let seen_before = items[..i].contains(&items[i]);
        assert_eq!(distances[i].is_none(), !seen_before);
        if i > 0 && items[i] == items[i - 1] {
            assert_eq!(distances[i], Some(0));
        }
        if let Some(d) = distances[i] {
            assert!(d < i);
        }
    }
}

#[test]
fn stack_distance_immediate_repeat() {
    assert_eq!(distances_of(vec![8, 8]), vec![None, Some(0)]);
}

#[test]
fn stack_distance_histogram_basic() {
    let (freqs, infinities) = histogram_of(vec![1, 2, 3]);
    assert_eq!(infinities, 3);
    assert_eq!(freqs, Vec::<usize>::new());
}

#[test]
fn stack_distance_histogram_repeated() {
    let (freqs, infinities) = histogram_of(vec![1, 1, 1]);
    assert_eq!(infinities, 1);
    assert_eq!(freqs, vec![2]);
}

#[test]
fn stack_distance_histogram_one_two() {
    let (freqs, infinities) = histogram_of(vec![1, 2, 1, 1, 1]);
    assert_eq!(infinities, 2);
    assert_eq!(freqs, vec![2, 1]);
}

#[test]
fn stack_distance_histogram_one_repeated() {
    let (freqs, infinities) = histogram_of(vec![1, 2, 3, 1]);
    assert_eq!(infinities, 3);
    assert_eq!(freqs, vec![0, 0, 1]);
}

#[test]
fn stack_distance_histogram_empty() {
    let (freqs, infinities) = histogram_of(vec![]);
    assert_eq!(infinities, 0);
    assert_eq!(freqs, Vec::<usize>::new());
}

#[test]
fn stack_distance_histogram_accounts_for_every_access() {
    let items = vec![3, 1, 3, 3, 2, 1, 0, 2, 3, 1, 1];
    let (freqs, infinities) = histogram_of(items.clone());
    assert_eq!(freqs.iter().sum::<usize>() + infinities, items.len());
    assert_eq!(infinities, 4);
    assert!(*freqs.last().unwrap() > 0);
}

#[test]
fn frequency_basic() {
    assert_eq!(
        Trace::from(vec![1, 2, 3]).frequency_histogram(),
        HashMap::from([(1, 1), (2, 1), (3, 1)])
    );
}

#[test]
fn frequency_repeated() {
    assert_eq!(
        Trace::from(vec![1, 1, 1]).frequency_histogram(),
        HashMap::from([(1, 3)])
    );
}

#[test]
fn frequency_one_two() {
    assert_eq!(
        Trace::from(vec![1, 2, 1, 1, 1]).frequency_histogram(),
        HashMap::from([(1, 4), (2, 1)])
    );
}

#[test]
fn frequency_one_repeated() {
    assert_eq!(
        Trace::from(vec![1, 2, 3, 1]).frequency_histogram(),
        HashMap::from([(1, 2), (2, 1), (3, 1)])
    );
}

#[test]
fn frequency_empty() {
    assert_eq!(Trace::from(vec![]).frequency_histogram(), HashMap::new());
}

#[test]
fn frequency_documented_example() {
    let frequencies = Trace::from(vec![0, 0, 1, 0, 3, 1]).frequency_histogram();
    assert_eq!(frequencies.get(&0), Some(&3));
    assert_eq!(frequencies.get(&1), Some(&2));
    assert_eq!(frequencies.get(&2), None);
    assert_eq!(frequencies.get(&3), Some(&1));
    assert_eq!(frequencies.len(), 3);
}

#[test]
fn frequency_counts_sum_to_length() {
    let trace = Trace::from(vec![4, 4, 9, 1, 4, 9, 0, 0, 7, 4, 1_000_000]);
    let total: usize = trace.frequency_histogram().values().sum();
    assert_eq!(total, trace.len());
    assert_eq!(total, 11);
}

#[test]
fn pretty_print_letters() {
    let trace = Trace::from(vec![0, 0, 2, 3, 1, 14]);
    assert_eq!(&trace.pretty_print(), "A, A, C, D, B, O");
}

#[test]
fn pretty_print_numbers() {
    let trace = Trace::from(vec![1, 2, 26]);
    assert_eq!(&trace.pretty_print(), "1, 2, 26");
}

#[test]
fn pretty_print_last_letter() {
    assert_eq!(&Trace::from(vec![25, 0]).pretty_print(), "Z, A");
}

#[test]
fn pretty_print_single_item_has_no_separator() {
    assert_eq!(&Trace::from(vec![2]).pretty_print(), "C");
    assert_eq!(&Trace::from(vec![260]).pretty_print(), "260");
}

#[test]
fn pretty_print_empty() {
    assert_eq!(&Trace::from(vec![]).pretty_print(), "");
}

#[test]
fn pretty_print_large_numbers() {
    let trace = Trace::from(vec![0, 10, 4294967295, 100, 9]);
    assert_eq!(&trace.pretty_print(), "0, 10, 4294967295, 100, 9");
}

#[test]
fn to_text_follows_each_item_by_a_space() {
    assert_eq!(&Trace::from(vec![1, 20, 0, 305]).to_text(), "1 20 0 305 ");
    assert_eq!(&Trace::from(vec![]).to_text(), "");
}

#[test]
fn update_appends_the_access() {
    let mut trace = Trace::default();
    assert!(trace.is_empty());
    let resident: HashSet<u32> = HashSet::new();
    trace.update(&resident, 3, None);
    trace.update(&resident, 1, Some(3));
    trace.update(&resident, 3, None);
    assert_eq!(trace.inner(), &[3, 1, 3]);
    assert_eq!(trace, Trace::from(vec![3, 1, 3]));
}

#[test]
fn accessors() {
    let trace = Trace::from(vec![6, 5, 6]);
    assert_eq!(trace.len(), 3);
    assert!(!trace.is_empty());
    assert_eq!(trace.inner(), &[6, 5, 6]);
    assert_eq!(trace.into_inner(), vec![6, 5, 6]);
    let empty = Trace::from(vec![]);
    assert_eq!(empty.len(), 0);
    assert!(empty.is_empty());
}
