//! Ordering strategies: what it means for a three-way comparator to compute a
//! relation, and the two policies that complete a partial order.
use crate::model::{total_preorder, total_preorder_on};
use std::cmp::Ordering;
use vstd::multiset::Multiset;
use vstd::prelude::*;
use vstd::std_specs::cmp::{OrdSpec, PartialOrdSpec};

verus! {

/// The comparator may be called on every pair of elements.
pub open spec fn callable<T, F>(by: F) -> bool where F: Fn(&T, &T) -> Ordering {
    forall|a: &T, b: &T| #[trigger] by.requires((a, b))
}

/// `Greater` is an answer that the comparator can give for `(a, b)`.
pub open spec fn says_greater<T, F>(by: F, a: T, b: T) -> bool where F: Fn(&T, &T) -> Ordering {
    by.ensures((&a, &b), Ordering::Greater)
}

/// An answer other than `Greater` is one that the comparator can give for
/// `(a, b)`.
pub open spec fn says_not_greater<T, F>(by: F, a: T, b: T) -> bool where
    F: Fn(&T, &T) -> Ordering,
 {
    exists|r: Ordering| #[trigger] by.ensures((&a, &b), r) && r != Ordering::Greater
}

/// Every answer the comparator gives agrees with `leq`: it answers `Greater`
/// for `(a, b)` exactly when `leq(a, b)` is false.
pub open spec fn decides<T, F>(by: F, leq: spec_fn(T, T) -> bool) -> bool where
    F: Fn(&T, &T) -> Ordering,
 {
    forall|a: &T, b: &T, r: Ordering| #[trigger]
        by.ensures((a, b), r) ==> (leq(*a, *b) <==> r != Ordering::Greater)
}

/// The comparator computes `leq`, and `leq` is an ordering to sort by.
pub open spec fn orders<T, F>(by: F, leq: spec_fn(T, T) -> bool) -> bool where
    F: Fn(&T, &T) -> Ordering,
 {
    decides(by, leq) && total_preorder(leq)
}

/// The comparator computes `leq`, and `leq` is an ordering to sort the
/// elements of `m` by.
pub open spec fn orders_on<T, F>(by: F, leq: spec_fn(T, T) -> bool, m: Multiset<T>) -> bool where
    F: Fn(&T, &T) -> Ordering,
 {
    decides(by, leq) && total_preorder_on(leq, m)
}

/// The relation "not greater" of a type's built-in total order.
pub open spec fn ord_leq<T: Ord>() -> spec_fn(T, T) -> bool {
    |a: T, b: T| a.cmp_spec(&b) != Ordering::Greater
}

/// A partial comparison with incomparable pairs counted as `Less`.
pub open spec fn first_policy(o: Option<Ordering>) -> Ordering {
    match o {
        Some(order) => order,
        None => Ordering::Less,
    }
}

/// A partial comparison with incomparable pairs counted as `Greater`.
pub open spec fn last_policy(o: Option<Ordering>) -> Ordering {
    match o {
        Some(order) => order,
        None => Ordering::Greater,
    }
}

/// The relation "not greater" under [`first_policy`].
pub open spec fn partial_first_leq<T: PartialOrd>() -> spec_fn(T, T) -> bool {
    |a: T, b: T| first_policy(a.partial_cmp_spec(&b)) != Ordering::Greater
}

/// The relation "not greater" under [`last_policy`].
pub open spec fn partial_last_leq<T: PartialOrd>() -> spec_fn(T, T) -> bool {
    |a: T, b: T| last_policy(a.partial_cmp_spec(&b)) != Ordering::Greater
}

/// Compares by the partial order; an incomparable pair is reported as `Less`.
pub fn partial_cmp_first<T: PartialOrd>(a: &T, b: &T) -> (r: Ordering)
    ensures
        exists|o: Option<Ordering>| #[trigger]
            call_ensures(T::partial_cmp, (a, b), o) && r == first_policy(o),
        T::obeys_partial_cmp_spec() ==> r == first_policy(a.partial_cmp_spec(b)),
{
    match a.partial_cmp(b) {
        Some(order) => order,
        None => Ordering::Less,
    }
}

/// Compares by the partial order; an incomparable pair is reported as `Greater`.
pub fn partial_cmp_last<T: PartialOrd>(a: &T, b: &T) -> (r: Ordering)
    ensures
        exists|o: Option<Ordering>| #[trigger]
            call_ensures(T::partial_cmp, (a, b), o) && r == last_policy(o),
        T::obeys_partial_cmp_spec() ==> r == last_policy(a.partial_cmp_spec(b)),
{
    match a.partial_cmp(b) {
        Some(order) => order,
        None => Ordering::Greater,
    }
}

/// A type whose `cmp` follows its specification has a comparator that
/// computes [`ord_leq`].
pub proof fn lemma_cmp_decides<T: Ord>()
    requires
        T::obeys_cmp_spec(),
    ensures
        callable::<T, _>(T::cmp),
        decides::<T, _>(T::cmp, ord_leq::<T>()),
{
}

/// Under a partial order that follows its specification, `partial_cmp_first`
/// computes [`partial_first_leq`].
pub proof fn lemma_partial_first_decides<T: PartialOrd>()
    requires
        T::obeys_partial_cmp_spec(),
    ensures
        callable::<T, _>(partial_cmp_first::<T>),
        decides::<T, _>(partial_cmp_first::<T>, partial_first_leq::<T>()),
{
}

/// Under a partial order that follows its specification, `partial_cmp_last`
/// computes [`partial_last_leq`].
pub proof fn lemma_partial_last_decides<T: PartialOrd>()
    requires
        T::obeys_partial_cmp_spec(),
    ensures
        callable::<T, _>(partial_cmp_last::<T>),
        decides::<T, _>(partial_cmp_last::<T>, partial_last_leq::<T>()),
{
}

} // verus!
