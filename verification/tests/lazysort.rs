use lazysort::{Sorted, SortedBy, SortedPartial};
use std::cmp::Ordering::Equal;

#[test]
fn single_test() {
    let expected: Vec<u64> = vec![1];
    let before: Vec<u64> = vec![1];
    let after: Vec<u64> = before.sorted().collect();

    assert_eq!(expected, after);
}

#[test]
fn pair_test() {
    let expected: Vec<u64> = vec![1, 2];
    let before_ordered: Vec<u64> = vec![1, 2];
    let before_unordered: Vec<u64> = vec![2, 1];

    let after_ordered: Vec<u64> = before_ordered.sorted().collect();
    assert_eq!(expected, after_ordered);

    let after_unordered: Vec<u64> = before_unordered.sorted().collect();
    assert_eq!(expected, after_unordered);
}

#[test]
fn sorted_test() {
    let expected: Vec<u64> = vec![1u64, 1, 1, 3, 4, 6, 7, 9, 22];
    let before: Vec<u64> = vec![9u64, 7, 1, 1, 6, 3, 1, 4, 22];
    let refs: Vec<&u64> = before.iter().collect();
    let after: Vec<u64> = refs.sorted().collect().into_iter().map(|x| *x).collect();

    assert_eq!(expected, after);
}

#[test]
fn sorted_strings_test() {
    let expected: Vec<&str> = vec!["a", "cat", "mat", "on", "sat", "the"];
    let before: Vec<&str> = vec!["a", "cat", "sat", "on", "the", "mat"];
    let refs: Vec<&&str> = before.iter().collect();
    let after: Vec<&str> = refs.sorted().collect().into_iter().map(|x| *x).collect();

    assert_eq!(expected, after);
}

#[test]
fn sorted_string_length() {
    let expected: Vec<&str> = vec!["a", "on", "cat", "mat", "sat", "the"];
    let before: Vec<&str> = vec!["a", "cat", "sat", "on", "the", "mat"];
    let refs: Vec<&&str> = before.iter().collect();
    let after: Vec<&str> = refs
        .sorted_by(|a, b| match a.len().cmp(&b.len()) {
            Equal => a.cmp(b),
            x => x,
        })
        .collect()
        .into_iter()
        .map(|x| *x)
        .collect();
    assert_eq!(expected, after);
}

#[test]
fn empty_test() {
    let before: Vec<u64> = vec![];
    let refs: Vec<&u64> = before.iter().collect();
    let after: Vec<u64> = refs.sorted().collect().into_iter().map(|x| *x).collect();
    assert_eq!(before, after);
}

#[test]
fn sorted_partial_test() {
    let expected: Vec<f64> = vec![0.9_f64, 1.0, 1.0, 1.1, 75.3, 75.3];
    let before: Vec<f64> = vec![1.0_f64, 1.1, 0.9, 75.3, 1.0, 75.3];
    let refs: Vec<&f64> = before.iter().collect();
    let after: Vec<f64> = refs.sorted_partial_first().collect().into_iter().map(|x| *x).collect();

    assert_eq!(expected, after);
}

#[test]
fn sorted_by_test() {
    let expected: Vec<u64> = vec![4, 1, 3, 2];
    let before: Vec<(f64, u64)> = vec![(0.2, 1), (0.9, 2), (0.4, 3), (0.1, 4)];
    let refs: Vec<&(f64, u64)> = before.iter().collect();

    let after: Vec<u64> = refs
        .sorted_by(|&a, &b| {
            let (ax, _) = *a;
            let (bx, _) = *b;
            ax.partial_cmp(&bx).unwrap()
        })
        .collect()
        .into_iter()
        .map(|&(_, y)| y)
        .collect();

    assert_eq!(expected, after);
}
