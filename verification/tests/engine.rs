use lazysort::{make_work, partial_cmp_first, partial_cmp_last, partition, pivot, qsort};
use std::cmp::Ordering;

fn total(a: &u64, b: &u64) -> Ordering {
    a.cmp(b)
}

#[test]
fn pivot_is_the_midpoint() {
    assert_eq!(5, pivot(10, 0));
    assert_eq!(5, pivot(5, 5));
    assert_eq!(2, pivot(3, 2));
    assert_eq!(5, pivot(9, 2));
    assert_eq!(1, pivot(2, 0));
}

#[test]
fn make_work_covers_the_buffer() {
    assert_eq!(Vec::<(usize, usize)>::new(), make_work(0));
    assert_eq!(vec![(0usize, 0usize)], make_work(1));
    assert_eq!(vec![(4usize, 0usize)], make_work(5));
}

#[test]
fn partition_moves_greater_elements_below_the_pivot() {
    let mut data: Vec<u64> = vec![9, 7, 1, 1, 6, 3, 1, 4, 22];
    let r = partition(&total, &mut data, 8, 0, 4);
    assert_eq!(3, r);
    assert_eq!(vec![9u64, 7, 22, 6, 1, 3, 1, 4, 1], data);
}

#[test]
fn partition_leaves_the_rest_alone() {
    let mut data: Vec<u64> = vec![100, 5, 3, 8, 0];
    let r = partition(&total, &mut data, 3, 1, 2);
    // pivot 3: both others are greater, so the pivot ends on top of the range
    assert_eq!(3, r);
    assert_eq!(vec![100u64, 5, 8, 3, 0], data);
}

#[test]
fn partition_with_the_largest_pivot() {
    let mut data: Vec<u64> = vec![1, 9, 2];
    let r = partition(&total, &mut data, 2, 0, 1);
    assert_eq!(0, r);
    assert_eq!(vec![9u64, 2, 1], data);
}

#[test]
fn qsort_single_pops_the_top() {
    let mut data: Vec<u64> = vec![8, 4];
    let mut work: Vec<(usize, usize)> = vec![(0, 0)];
    let x = qsort(&total, &mut data, &mut work, 1, 1);
    assert_eq!(4, x);
    assert_eq!(vec![8u64], data);
    assert_eq!(vec![(0usize, 0usize)], work);
}

#[test]
fn qsort_pair_in_order() {
    let mut data: Vec<u64> = vec![2, 1];
    let mut work: Vec<(usize, usize)> = vec![];
    let x = qsort(&total, &mut data, &mut work, 1, 0);
    assert_eq!(1, x);
    assert_eq!(vec![2u64], data);
    assert_eq!(vec![(0usize, 0usize)], work);
}

#[test]
fn qsort_pair_swaps() {
    let mut data: Vec<u64> = vec![1, 2];
    let mut work: Vec<(usize, usize)> = vec![];
    let x = qsort(&total, &mut data, &mut work, 1, 0);
    assert_eq!(1, x);
    assert_eq!(vec![2u64], data);
    assert_eq!(vec![(0usize, 0usize)], work);
}

#[test]
fn qsort_defers_the_far_part() {
    let mut data: Vec<u64> = vec![9, 7, 1, 1, 6, 3, 1, 4, 22];
    let mut work: Vec<(usize, usize)> = vec![];
    let x = qsort(&total, &mut data, &mut work, 8, 0);
    assert_eq!(1, x);
    assert_eq!(8, data.len());
    // the first partition is around 6 and leaves it at position 3
    assert_eq!((3usize, 0usize), work[0]);
    assert_eq!(vec![9u64, 7, 22, 6], data[..4].to_vec());
    let (hi, _) = work[work.len() - 1];
    assert_eq!(7, hi);
    let mut rest = data.clone();
    rest.sort();
    assert_eq!(vec![1u64, 1, 3, 4, 6, 7, 9, 22], rest);
}

#[test]
fn partial_policies_on_comparable_values() {
    assert_eq!(Ordering::Less, partial_cmp_first(&1.0f64, &2.0));
    assert_eq!(Ordering::Equal, partial_cmp_first(&2.0f64, &2.0));
    assert_eq!(Ordering::Greater, partial_cmp_first(&3.0f64, &2.0));
    assert_eq!(Ordering::Less, partial_cmp_last(&1.0f64, &2.0));
    assert_eq!(Ordering::Equal, partial_cmp_last(&2.0f64, &2.0));
    assert_eq!(Ordering::Greater, partial_cmp_last(&3.0f64, &2.0));
}

#[test]
fn partial_policies_on_incomparable_values() {
    let nan = f64::NAN;
    assert_eq!(Ordering::Less, partial_cmp_first(&nan, &1.0));
    assert_eq!(Ordering::Less, partial_cmp_first(&1.0, &nan));
    assert_eq!(Ordering::Less, partial_cmp_first(&nan, &nan));
    assert_eq!(Ordering::Greater, partial_cmp_last(&nan, &1.0));
    assert_eq!(Ordering::Greater, partial_cmp_last(&1.0, &nan));
    assert_eq!(Ordering::Greater, partial_cmp_last(&nan, &nan));
}
