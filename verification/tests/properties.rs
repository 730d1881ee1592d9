use lazysort::{
    LazySortIterator, LazySortIteratorBy, LazySortIteratorPartialFirst,
    LazySortIteratorPartialLast, Sorted, SortedBy, SortedPartial,
};
use std::cmp::Ordering;

fn samples() -> Vec<Vec<u64>> {
    vec![
        vec![],
        vec![1],
        vec![2, 1],
        vec![1, 2],
        vec![3, 3, 3],
        vec![9, 7, 1, 1, 6, 3, 1, 4, 22],
        vec![1, 2, 3, 4, 5, 6, 7, 8, 9, 10],
        vec![10, 9, 8, 7, 6, 5, 4, 3, 2, 1],
        vec![5, 1, 4, 1, 5, 9, 2, 6, 5, 3, 5, 8, 9, 7, 9, 3, 2, 3, 8, 4, 6],
        vec![0, u64::MAX, 1, u64::MAX - 1, 0],
    ]
}

fn reference(input: &Vec<u64>) -> Vec<u64> {
    let mut sorted = input.clone();
    sorted.sort();
    sorted
}

#[test]
fn full_drain_is_the_sorted_input() {
    for input in samples() {
        let expected = reference(&input);
        assert_eq!(expected, input.clone().sorted().collect());
        assert_eq!(expected, input.clone().sorted_by(|a: &u64, b: &u64| a.cmp(b)).collect());
        assert_eq!(expected, input.clone().sorted_partial_first().collect());
        assert_eq!(expected, input.clone().sorted_partial_last().collect());
    }
}

#[test]
fn drain_by_next_is_the_sorted_input() {
    for input in samples() {
        let expected = reference(&input);
        let mut it = LazySortIterator::new(input);
        let mut out = Vec::new();
        while let Some(x) = it.next() {
            out.push(x);
        }
        assert_eq!(expected, out);
    }
}

#[test]
fn count_is_preserved() {
    for input in samples() {
        let n = input.len();
        let mut it = input.clone().sorted();
        assert_eq!((n, Some(n)), it.size_hint());
        let mut seen = 0;
        while let Some(_) = it.next() {
            seen += 1;
            assert_eq!((n - seen, Some(n - seen)), it.size_hint());
        }
        assert_eq!(n, seen);
        assert_eq!(n, input.sorted().collect().len());
    }
}

#[test]
fn empty_input_is_exhausted_at_once() {
    let mut it = Vec::<u64>::new().sorted();
    assert_eq!((0, Some(0)), it.size_hint());
    assert_eq!(None, it.next());
    assert_eq!(Vec::<u64>::new(), it.collect());
}

#[test]
fn prefix_is_the_front_of_the_full_sort() {
    for input in samples() {
        let expected = reference(&input);
        for k in 0..=input.len() {
            let mut it = input.clone().sorted();
            let front = it.take(k);
            assert_eq!(expected[..k].to_vec(), front);
            assert_eq!((input.len() - k, Some(input.len() - k)), it.size_hint());
            assert_eq!(expected[k..].to_vec(), it.collect());
        }
    }
}

#[test]
fn take_more_than_there_is_gives_all() {
    let mut it = vec![3u64, 1, 2].sorted();
    assert_eq!(vec![1u64, 2, 3], it.take(10));
    assert_eq!(Vec::<u64>::new(), it.take(10));
    assert_eq!(None, it.next());
}

#[test]
fn exhaustion_is_idempotent() {
    let mut it = vec![2u64, 3, 1].sorted();
    assert_eq!(Some(1), it.next());
    assert_eq!(Some(2), it.next());
    assert_eq!(Some(3), it.next());
    for _ in 0..5 {
        assert_eq!(None, it.next());
        assert_eq!((0, Some(0)), it.size_hint());
    }
    let mut by = vec![2u64, 1].sorted_by(|a: &u64, b: &u64| b.cmp(a));
    assert_eq!(Some(2), by.next());
    assert_eq!(Some(1), by.next());
    assert_eq!(None, by.next());
    assert_eq!(None, by.next());
}

#[test]
fn scenario_total_order() {
    let input: Vec<u64> = vec![9, 7, 1, 1, 6, 3, 1, 4, 22];
    assert_eq!(vec![1u64, 1, 1, 3, 4, 6, 7, 9, 22], input.sorted().collect());
    assert_eq!(vec![1u64], vec![1u64].sorted().collect());
    assert_eq!(vec![1u64, 2], vec![2u64, 1].sorted().collect());
}

#[test]
fn scenario_partial_order_without_incomparable_values() {
    let input: Vec<f64> = vec![1.0, 1.1, 0.9, 75.3, 1.0, 75.3];
    let expected: Vec<f64> = vec![0.9, 1.0, 1.0, 1.1, 75.3, 75.3];
    assert_eq!(expected, input.clone().sorted_partial_first().collect());
    assert_eq!(expected, input.sorted_partial_last().collect());
}

#[test]
fn scenario_custom_comparator() {
    let input: Vec<(f64, u64)> = vec![(0.2, 1), (0.9, 2), (0.4, 3), (0.1, 4)];
    let sorted = input
        .sorted_by(|a: &(f64, u64), b: &(f64, u64)| a.0.partial_cmp(&b.0).unwrap())
        .collect();
    let seconds: Vec<u64> = sorted.into_iter().map(|(_, y)| y).collect();
    assert_eq!(vec![4u64, 1, 3, 2], seconds);
}

#[test]
fn reverse_comparator_sorts_descending() {
    let input: Vec<u64> = vec![9, 7, 1, 1, 6, 3, 1, 4, 22];
    let it = LazySortIteratorBy::new(input, |a: &u64, b: &u64| b.cmp(a));
    assert_eq!(vec![22u64, 9, 7, 6, 4, 3, 1, 1, 1], it.collect());
}

fn bits(values: Vec<f64>) -> Vec<u64> {
    values.into_iter().map(|x| x.to_bits()).collect()
}

#[test]
fn partial_policies_are_repeatable_with_incomparable_values() {
    let nan = f64::NAN;
    let input: Vec<f64> = vec![3.0, nan, 1.0, 2.0, nan, 0.5, 7.0, nan, 4.0];
    let first_a = bits(LazySortIteratorPartialFirst::new(input.clone()).collect());
    let first_b = bits(LazySortIteratorPartialFirst::new(input.clone()).collect());
    assert_eq!(first_a, first_b);
    let last_a = bits(LazySortIteratorPartialLast::new(input.clone()).collect());
    let last_b = bits(LazySortIteratorPartialLast::new(input.clone()).collect());
    assert_eq!(last_a, last_b);
    // whatever the order, nothing is lost and nothing is made up
    let mut expected = bits(input);
    expected.sort();
    let mut got = first_a.clone();
    got.sort();
    assert_eq!(expected, got);
    let mut got = last_a.clone();
    got.sort();
    assert_eq!(expected, got);
}

#[test]
fn inconsistent_comparator_still_hands_out_every_element() {
    let input: Vec<u64> = vec![4, 8, 15, 16, 23, 42, 7, 7];
    let it = LazySortIteratorBy::new(input.clone(), |_: &u64, _: &u64| Ordering::Greater);
    let mut out = it.collect();
    out.sort();
    let mut expected = input;
    expected.sort();
    assert_eq!(expected, out);
}
