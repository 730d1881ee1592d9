//! The producers: one for each ordering strategy, and the traits that build
//! them from a vector of elements.
use crate::engine::{make_work, ready, step, take_first};
use crate::lemmas::{lemma_all_taken, lemma_preorder_everywhere};
use crate::model::{
    advance, ascending, gathers, least, sorted_front, taken, total_preorder_on, yields, State,
};
use crate::order::{
    callable, decides, lemma_cmp_decides, lemma_partial_first_decides,
    lemma_partial_last_decides, ord_leq, orders_on, partial_cmp_first, partial_cmp_last,
    partial_first_leq, partial_last_leq,
};
use std::cmp::Ordering;
use vstd::multiset::Multiset;
use vstd::prelude::*;
use vstd::relations::{sorted_by, total_ordering};
use vstd::std_specs::cmp::{OrdSpec, PartialOrdSpec};

verus! {

/// Hands out the elements of a buffer in ascending order of their built-in
/// total order, sorting only as far as each request needs.
pub struct LazySortIterator<T> {
    data: Vec<T>,
    work: Vec<(usize, usize)>,
    supplied: Ghost<Multiset<T>>,
}

impl<T> View for LazySortIterator<T> {
    type V = State<T>;

    closed spec fn view(&self) -> State<T> {
        State::of(self.data@, self.work@)
    }
}

impl<T> LazySortIterator<T> where T: Ord {
    /// The elements that the producer was built over.
    pub closed spec fn supplied(&self) -> Multiset<T> {
        self.supplied@
    }

    /// The worklist and the buffer fit together.
    pub closed spec fn wf(&self) -> bool {
        ready(T::cmp, self@, self.supplied@)
    }

    /// A producer over `data`, with nothing sorted yet.
    pub fn new(data: Vec<T>) -> (it: Self)
        ensures
            it.wf(),
            it@ == State::fresh(data@),
            it.supplied() == data@.to_multiset(),
    {
        let ghost all = data@.to_multiset();
        let work = make_work(data.len());
        LazySortIterator { data: data, work: work, supplied: Ghost(all) }
    }

    /// The next element in ascending order, or `None` once all are out.
    pub fn next(&mut self) -> (r: Option<T>)
        requires
            old(self).wf(),
        ensures
            final(self).wf(),
            final(self).supplied() == old(self).supplied(),
            yields(old(self)@, final(self)@, r),
            T::obeys_cmp_spec() && total_preorder_on(
                ord_leq::<T>(),
                old(self).supplied(),
            ) ==> (r matches Some(x) ==> least(
                ord_leq::<T>(),
                x,
                old(self)@.remaining(),
            )),
            T::obeys_cmp_spec() ==> advance(ord_leq::<T>(), old(self)@) == (
                final(self)@,
                r,
            ),
    {
        proof {
            if T::obeys_cmp_spec() {
                lemma_cmp_decides::<T>();
                assert(total_preorder_on(ord_leq::<T>(), self.supplied@) ==> orders_on(
                    T::cmp,
                    ord_leq::<T>(),
                    self.supplied@,
                ));
            }
        }
        step(&T::cmp, &mut self.data, &mut self.work)
    }

    /// The number of elements still to come, as both bounds.
    pub fn size_hint(&self) -> (r: (usize, Option<usize>))
        ensures
            r.0 == self@.buffer.len(),
            r.1 == Some(r.0),
    {
        let l = self.data.len();
        (l, Some(l))
    }

    /// The next `k` elements in ascending order, or all that are left when
    /// there are fewer.
    pub fn take(&mut self, k: usize) -> (out: Vec<T>)
        requires
            old(self).wf(),
        ensures
            final(self).wf(),
            final(self).supplied() == old(self).supplied(),
            gathers(old(self)@, final(self)@, out@, k),
            T::obeys_cmp_spec() && total_preorder_on(
                ord_leq::<T>(),
                old(self).supplied(),
            ) ==> ascending(ord_leq::<T>(), final(self)@, out@),
            T::obeys_cmp_spec() && total_ordering(
                ord_leq::<T>(),
            ) ==> sorted_front(ord_leq::<T>(), old(self)@.buffer, out@),
            T::obeys_cmp_spec() ==> taken(ord_leq::<T>(), old(self)@, k) == (
                final(self)@,
                out@,
            ),
    {
        proof {
            if T::obeys_cmp_spec() {
                lemma_cmp_decides::<T>();
                assert(total_preorder_on(ord_leq::<T>(), self.supplied@) ==> orders_on(
                    T::cmp,
                    ord_leq::<T>(),
                    self.supplied@,
                ));
                if total_ordering(ord_leq::<T>()) {
                    lemma_preorder_everywhere(ord_leq::<T>(), self.supplied@);
                }
            }
        }
        take_first(&T::cmp, &mut self.data, &mut self.work, k)
    }

    /// All elements that are left, in ascending order.
    pub fn collect(self) -> (out: Vec<T>)
        requires
            self.wf(),
        ensures
            out@.to_multiset() == self@.remaining(),
            out@.len() == self@.buffer.len(),
            T::obeys_cmp_spec() && total_preorder_on(
                ord_leq::<T>(),
                self.supplied(),
            ) ==> sorted_by(out@, ord_leq::<T>()),
            T::obeys_cmp_spec() && total_ordering(
                ord_leq::<T>(),
            ) ==> out@ == self@.buffer.sort_by(ord_leq::<T>()),
            T::obeys_cmp_spec() ==> out@ == taken(
                ord_leq::<T>(),
                self@,
                usize::MAX,
            ).1,
    {
        let mut it = self;
        let out = it.take(usize::MAX);
        proof {
            lemma_all_taken(self@, it@, out@);
        }
        out
    }
}

/// Hands out the elements of a buffer in ascending order of their partial
/// order, with an incomparable pair compared as `Less`, sorting only as far
/// as each request needs.
pub struct LazySortIteratorPartialFirst<T> {
    data: Vec<T>,
    work: Vec<(usize, usize)>,
    supplied: Ghost<Multiset<T>>,
}

impl<T> View for LazySortIteratorPartialFirst<T> {
    type V = State<T>;

    closed spec fn view(&self) -> State<T> {
        State::of(self.data@, self.work@)
    }
}

impl<T> LazySortIteratorPartialFirst<T> where T: PartialOrd {
    /// The elements that the producer was built over.
    pub closed spec fn supplied(&self) -> Multiset<T> {
        self.supplied@
    }

    /// The worklist and the buffer fit together.
    pub closed spec fn wf(&self) -> bool {
        ready(partial_cmp_first::<T>, self@, self.supplied@)
    }

    /// A producer over `data`, with nothing sorted yet.
    pub fn new(data: Vec<T>) -> (it: Self)
        ensures
            it.wf(),
            it@ == State::fresh(data@),
            it.supplied() == data@.to_multiset(),
    {
        let ghost all = data@.to_multiset();
        let work = make_work(data.len());
        LazySortIteratorPartialFirst { data: data, work: work, supplied: Ghost(all) }
    }

    /// The next element in ascending order, or `None` once all are out.
    pub fn next(&mut self) -> (r: Option<T>)
        requires
            old(self).wf(),
        ensures
            final(self).wf(),
            final(self).supplied() == old(self).supplied(),
            yields(old(self)@, final(self)@, r),
            T::obeys_partial_cmp_spec() && total_preorder_on(
                partial_first_leq::<T>(),
                old(self).supplied(),
            ) ==> (r matches Some(x) ==> least(
                partial_first_leq::<T>(),
                x,
                old(self)@.remaining(),
            )),
            T::obeys_partial_cmp_spec() ==> advance(partial_first_leq::<T>(), old(self)@) == (
                final(self)@,
                r,
            ),
    {
        proof {
            if T::obeys_partial_cmp_spec() {
                lemma_partial_first_decides::<T>();
                assert(total_preorder_on(partial_first_leq::<T>(), self.supplied@) ==> orders_on(
                    partial_cmp_first::<T>,
                    partial_first_leq::<T>(),
                    self.supplied@,
                ));
            }
        }
        step(&partial_cmp_first::<T>, &mut self.data, &mut self.work)
    }

    /// The number of elements still to come, as both bounds.
    pub fn size_hint(&self) -> (r: (usize, Option<usize>))
        ensures
            r.0 == self@.buffer.len(),
            r.1 == Some(r.0),
    {
        let l = self.data.len();
        (l, Some(l))
    }

    /// The next `k` elements in ascending order, or all that are left when
    /// there are fewer.
    pub fn take(&mut self, k: usize) -> (out: Vec<T>)
        requires
            old(self).wf(),
        ensures
            final(self).wf(),
            final(self).supplied() == old(self).supplied(),
            gathers(old(self)@, final(self)@, out@, k),
            T::obeys_partial_cmp_spec() && total_preorder_on(
                partial_first_leq::<T>(),
                old(self).supplied(),
            ) ==> ascending(partial_first_leq::<T>(), final(self)@, out@),
            T::obeys_partial_cmp_spec() && total_ordering(
                partial_first_leq::<T>(),
            ) ==> sorted_front(partial_first_leq::<T>(), old(self)@.buffer, out@),
            T::obeys_partial_cmp_spec() ==> taken(partial_first_leq::<T>(), old(self)@, k) == (
                final(self)@,
                out@,
            ),
    {
        proof {
            if T::obeys_partial_cmp_spec() {
                lemma_partial_first_decides::<T>();
                assert(total_preorder_on(partial_first_leq::<T>(), self.supplied@) ==> orders_on(
                    partial_cmp_first::<T>,
                    partial_first_leq::<T>(),
                    self.supplied@,
                ));
                if total_ordering(partial_first_leq::<T>()) {
                    lemma_preorder_everywhere(partial_first_leq::<T>(), self.supplied@);
                }
            }
        }
        take_first(&partial_cmp_first::<T>, &mut self.data, &mut self.work, k)
    }

    /// All elements that are left, in ascending order.
    pub fn collect(self) -> (out: Vec<T>)
        requires
            self.wf(),
        ensures
            out@.to_multiset() == self@.remaining(),
            out@.len() == self@.buffer.len(),
            T::obeys_partial_cmp_spec() && total_preorder_on(
                partial_first_leq::<T>(),
                self.supplied(),
            ) ==> sorted_by(out@, partial_first_leq::<T>()),
            T::obeys_partial_cmp_spec() && total_ordering(
                partial_first_leq::<T>(),
            ) ==> out@ == self@.buffer.sort_by(partial_first_leq::<T>()),
            T::obeys_partial_cmp_spec() ==> out@ == taken(
                partial_first_leq::<T>(),
                self@,
                usize::MAX,
            ).1,
    {
        let mut it = self;
        let out = it.take(usize::MAX);
        proof {
            lemma_all_taken(self@, it@, out@);
        }
        out
    }
}

/// Hands out the elements of a buffer in ascending order of their partial
/// order, with an incomparable pair compared as `Greater`, sorting only as
/// far as each request needs.
pub struct LazySortIteratorPartialLast<T> {
    data: Vec<T>,
    work: Vec<(usize, usize)>,
    supplied: Ghost<Multiset<T>>,
}

impl<T> View for LazySortIteratorPartialLast<T> {
    type V = State<T>;

    closed spec fn view(&self) -> State<T> {
        State::of(self.data@, self.work@)
    }
}

impl<T> LazySortIteratorPartialLast<T> where T: PartialOrd {
    /// The elements that the producer was built over.
    pub closed spec fn supplied(&self) -> Multiset<T> {
        self.supplied@
    }

    /// The worklist and the buffer fit together.
    pub closed spec fn wf(&self) -> bool {
        ready(partial_cmp_last::<T>, self@, self.supplied@)
    }

    /// A producer over `data`, with nothing sorted yet.
    pub fn new(data: Vec<T>) -> (it: Self)
        ensures
            it.wf(),
            it@ == State::fresh(data@),
            it.supplied() == data@.to_multiset(),
    {
        let ghost all = data@.to_multiset();
        let work = make_work(data.len());
        LazySortIteratorPartialLast { data: data, work: work, supplied: Ghost(all) }
    }

    /// The next element in ascending order, or `None` once all are out.
    pub fn next(&mut self) -> (r: Option<T>)
        requires
            old(self).wf(),
        ensures
            final(self).wf(),
            final(self).supplied() == old(self).supplied(),
            yields(old(self)@, final(self)@, r),
            T::obeys_partial_cmp_spec() && total_preorder_on(
                partial_last_leq::<T>(),
                old(self).supplied(),
            ) ==> (r matches Some(x) ==> least(
                partial_last_leq::<T>(),
                x,
                old(self)@.remaining(),
            )),
            T::obeys_partial_cmp_spec() ==> advance(partial_last_leq::<T>(), old(self)@) == (
                final(self)@,
                r,
            ),
    {
        proof {
            if T::obeys_partial_cmp_spec() {
                lemma_partial_last_decides::<T>();
                assert(total_preorder_on(partial_last_leq::<T>(), self.supplied@) ==> orders_on(
                    partial_cmp_last::<T>,
                    partial_last_leq::<T>(),
                    self.supplied@,
                ));
            }
        }
        step(&partial_cmp_last::<T>, &mut self.data, &mut self.work)
    }

    /// The number of elements still to come, as both bounds.
    pub fn size_hint(&self) -> (r: (usize, Option<usize>))
        ensures
            r.0 == self@.buffer.len(),
            r.1 == Some(r.0),
    {
        let l = self.data.len();
        (l, Some(l))
    }

    /// The next `k` elements in ascending order, or all that are left when
    /// there are fewer.
    pub fn take(&mut self, k: usize) -> (out: Vec<T>)
        requires
            old(self).wf(),
        ensures
            final(self).wf(),
            final(self).supplied() == old(self).supplied(),
            gathers(old(self)@, final(self)@, out@, k),
            T::obeys_partial_cmp_spec() && total_preorder_on(
                partial_last_leq::<T>(),
                old(self).supplied(),
            ) ==> ascending(partial_last_leq::<T>(), final(self)@, out@),
            T::obeys_partial_cmp_spec() && total_ordering(
                partial_last_leq::<T>(),
            ) ==> sorted_front(partial_last_leq::<T>(), old(self)@.buffer, out@),
            T::obeys_partial_cmp_spec() ==> taken(partial_last_leq::<T>(), old(self)@, k) == (
                final(self)@,
                out@,
            ),
    {
        proof {
            if T::obeys_partial_cmp_spec() {
                lemma_partial_last_decides::<T>();
                assert(total_preorder_on(partial_last_leq::<T>(), self.supplied@) ==> orders_on(
                    partial_cmp_last::<T>,
                    partial_last_leq::<T>(),
                    self.supplied@,
                ));
                if total_ordering(partial_last_leq::<T>()) {
                    lemma_preorder_everywhere(partial_last_leq::<T>(), self.supplied@);
                }
            }
        }
        take_first(&partial_cmp_last::<T>, &mut self.data, &mut self.work, k)
    }

    /// All elements that are left, in ascending order.
    pub fn collect(self) -> (out: Vec<T>)
        requires
            self.wf(),
        ensures
            out@.to_multiset() == self@.remaining(),
            out@.len() == self@.buffer.len(),
            T::obeys_partial_cmp_spec() && total_preorder_on(
                partial_last_leq::<T>(),
                self.supplied(),
            ) ==> sorted_by(out@, partial_last_leq::<T>()),
            T::obeys_partial_cmp_spec() && total_ordering(
                partial_last_leq::<T>(),
            ) ==> out@ == self@.buffer.sort_by(partial_last_leq::<T>()),
            T::obeys_partial_cmp_spec() ==> out@ == taken(
                partial_last_leq::<T>(),
                self@,
                usize::MAX,
            ).1,
    {
        let mut it = self;
        let out = it.take(usize::MAX);
        proof {
            lemma_all_taken(self@, it@, out@);
        }
        out
    }
}

/// Hands out the elements of a buffer in ascending order of a comparator
/// given by the caller, sorting only as far as each request needs.
pub struct LazySortIteratorBy<T, F> {
    data: Vec<T>,
    work: Vec<(usize, usize)>,
    by: F,
    supplied: Ghost<Multiset<T>>,
}

impl<T, F> View for LazySortIteratorBy<T, F> {
    type V = State<T>;

    closed spec fn view(&self) -> State<T> {
        State::of(self.data@, self.work@)
    }
}

impl<T, F> LazySortIteratorBy<T, F> {
    /// The comparator that this producer sorts by.
    pub closed spec fn comparator(&self) -> F {
        self.by
    }

    /// The elements that the producer was built over.
    pub closed spec fn supplied(&self) -> Multiset<T> {
        self.supplied@
    }

    /// The comparator may be called, and the worklist and the buffer fit
    /// together.
    pub closed spec fn wf(&self) -> bool where F: Fn(&T, &T) -> Ordering {
        ready(self.by, self@, self.supplied@)
    }

    /// A producer over `data` that sorts by `by`, with nothing sorted yet.
    pub fn new(data: Vec<T>, by: F) -> (it: Self) where F: Fn(&T, &T) -> Ordering
        requires
            callable(by),
        ensures
            it.wf(),
            it@ == State::fresh(data@),
            it.supplied() == data@.to_multiset(),
            it.comparator() == by,
    {
        let ghost all = data@.to_multiset();
        let work = make_work(data.len());
        LazySortIteratorBy { data: data, work: work, by: by, supplied: Ghost(all) }
    }

    /// The next element in ascending order, or `None` once all are out.
    pub fn next(&mut self) -> (r: Option<T>) where F: Fn(&T, &T) -> Ordering
        requires
            old(self).wf(),
        ensures
            final(self).wf(),
            final(self).comparator() == old(self).comparator(),
            final(self).supplied() == old(self).supplied(),
            yields(old(self)@, final(self)@, r),
            forall|leq: spec_fn(T, T) -> bool| #[trigger]
                orders_on(old(self).comparator(), leq, old(self).supplied()) ==> (
                r matches Some(x) ==> least(leq, x, old(self)@.remaining())),
            forall|leq: spec_fn(T, T) -> bool| #[trigger]
                decides(old(self).comparator(), leq) ==> advance(leq, old(self)@) == (
                    final(self)@,
                    r,
                ),
    {
        step(&self.by, &mut self.data, &mut self.work)
    }

    /// The number of elements still to come, as both bounds.
    pub fn size_hint(&self) -> (r: (usize, Option<usize>))
        ensures
            r.0 == self@.buffer.len(),
            r.1 == Some(r.0),
    {
        let l = self.data.len();
        (l, Some(l))
    }

    /// The next `k` elements in ascending order, or all that are left when
    /// there are fewer.
    pub fn take(&mut self, k: usize) -> (out: Vec<T>) where F: Fn(&T, &T) -> Ordering
        requires
            old(self).wf(),
        ensures
            final(self).wf(),
            final(self).comparator() == old(self).comparator(),
            final(self).supplied() == old(self).supplied(),
            gathers(old(self)@, final(self)@, out@, k),
            forall|leq: spec_fn(T, T) -> bool| #[trigger]
                orders_on(old(self).comparator(), leq, old(self).supplied()) ==> ascending(
                    leq,
                    final(self)@,
                    out@,
                ),
            forall|leq: spec_fn(T, T) -> bool|
                #[trigger] decides(old(self).comparator(), leq) && total_ordering(leq)
                    ==> sorted_front(leq, old(self)@.buffer, out@),
            forall|leq: spec_fn(T, T) -> bool| #[trigger]
                decides(old(self).comparator(), leq) ==> taken(leq, old(self)@, k) == (
                    final(self)@,
                    out@,
                ),
    {
        proof {
            assert forall|leq: spec_fn(T, T) -> bool|
                #[trigger] decides(self.by, leq) && total_ordering(leq) implies orders_on(
                self.by,
                leq,
                self.supplied@,
            ) by {
                lemma_preorder_everywhere(leq, self.supplied@);
            }
        }
        take_first(&self.by, &mut self.data, &mut self.work, k)
    }

    /// All elements that are left, in ascending order.
    pub fn collect(self) -> (out: Vec<T>) where F: Fn(&T, &T) -> Ordering
        requires
            self.wf(),
        ensures
            out@.to_multiset() == self@.remaining(),
            out@.len() == self@.buffer.len(),
            forall|leq: spec_fn(T, T) -> bool| #[trigger]
                orders_on(self.comparator(), leq, self.supplied()) ==> sorted_by(out@, leq),
            forall|leq: spec_fn(T, T) -> bool|
                #[trigger] decides(self.comparator(), leq) && total_ordering(leq) ==> out@
                    == self@.buffer.sort_by(leq),
            forall|leq: spec_fn(T, T) -> bool| #[trigger]
                decides(self.comparator(), leq) ==> out@ == taken(leq, self@, usize::MAX).1,
    {
        let mut it = self;
        let out = it.take(usize::MAX);
        proof {
            lemma_all_taken(self@, it@, out@);
        }
        out
    }
}

/// Sorting by the built-in total order.
pub trait Sorted: Sized {
    type Item: Ord;

    /// The elements to sort, in the order in which they are supplied.
    spec fn items(&self) -> Seq<Self::Item>;

    /// A producer that hands out the elements of `self` in ascending order.
    fn sorted(self) -> (it: LazySortIterator<Self::Item>)
        ensures
            it.wf(),
            it@ == State::fresh(self.items()),
            it.supplied() == self.items().to_multiset(),
    ;
}

/// Sorting by a partial order, with a policy for incomparable pairs.
pub trait SortedPartial: Sized {
    type Item: PartialOrd;

    /// The elements to sort, in the order in which they are supplied.
    spec fn items(&self) -> Seq<Self::Item>;

    /// A producer that compares an incomparable pair as `Less`.
    fn sorted_partial_first(self) -> (it: LazySortIteratorPartialFirst<Self::Item>)
        ensures
            it.wf(),
            it@ == State::fresh(self.items()),
            it.supplied() == self.items().to_multiset(),
    ;

    /// A producer that compares an incomparable pair as `Greater`.
    fn sorted_partial_last(self) -> (it: LazySortIteratorPartialLast<Self::Item>)
        ensures
            it.wf(),
            it@ == State::fresh(self.items()),
            it.supplied() == self.items().to_multiset(),
    ;
}

/// Sorting by a comparator of the caller's own.
pub trait SortedBy: Sized {
    type Item;

    /// The elements to sort, in the order in which they are supplied.
    spec fn items(&self) -> Seq<Self::Item>;

    /// A producer that hands out the elements of `self` in ascending order
    /// of `by`.
    fn sorted_by<F>(self, by: F) -> (it: LazySortIteratorBy<Self::Item, F>) where
        F: Fn(&Self::Item, &Self::Item) -> Ordering,

        requires
            callable(by),
        ensures
            it.wf(),
            it@ == State::fresh(self.items()),
            it.supplied() == self.items().to_multiset(),
            it.comparator() == by,
    ;
}

impl<T: Ord> Sorted for Vec<T> {
    type Item = T;

    open spec fn items(&self) -> Seq<T> {
        self@
    }

    fn sorted(self) -> (it: LazySortIterator<T>) {
        LazySortIterator::new(self)
    }
}

impl<T: PartialOrd> SortedPartial for Vec<T> {
    type Item = T;

    open spec fn items(&self) -> Seq<T> {
        self@
    }

    fn sorted_partial_first(self) -> (it: LazySortIteratorPartialFirst<T>) {
        LazySortIteratorPartialFirst::new(self)
    }

    fn sorted_partial_last(self) -> (it: LazySortIteratorPartialLast<T>) {
        LazySortIteratorPartialLast::new(self)
    }
}

impl<T> SortedBy for Vec<T> {
    type Item = T;

    open spec fn items(&self) -> Seq<T> {
        self@
    }

    fn sorted_by<F>(self, by: F) -> (it: LazySortIteratorBy<T, F>) where
        F: Fn(&T, &T) -> Ordering,
     {
        LazySortIteratorBy::new(self, by)
    }
}

} // verus!
