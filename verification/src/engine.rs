//! The partition engine and the extraction driver, on a buffer and a worklist
//! handed in by the producer that owns them.
use crate::lemmas::{
    lemma_ascending_push, lemma_drop_last_multiset, lemma_front_of_sorted, lemma_narrowed,
    lemma_pair_settled, lemma_preorder_within, lemma_single_settled, lemma_swap_within,
    lemma_tiles_pop,
};
use crate::model::{
    advance, ascending, extract, gathers, initial_work, least, midpoint, nth, partitioned,
    same_outside, scan, scanned, segregated, sorted_front, span, split, swap, taken, tiles, yields,
    State,
};
use crate::order::{callable, decides, orders_on, says_greater, says_not_greater};
use std::cmp::Ordering;
use vstd::multiset::Multiset;
use vstd::prelude::*;
use vstd::relations::total_ordering;

verus! {

/// Exchanges the elements at `a` and `b` with `<[T]>::swap` of the standard
/// library. This contract is taken on trust from its documentation: the call
/// panics when a position is out of bounds, which `requires` rules out, and
/// otherwise the two elements trade places and every other one stays.
#[verifier::external_body]
fn swap_items<T>(data: &mut Vec<T>, a: usize, b: usize)
    requires
        a < old(data).len(),
        b < old(data).len(),
    ensures
        final(data)@ == swap(old(data)@, a, b),
{
    data.swap(a, b)
}

/// What the comparator has said so far in a scan of `upper..=lower` with the
/// pivot parked at `lower`: `Greater` for everything below `nextp`, something
/// else for everything from `nextp` up to `i`.
pub open spec fn answered<T, F>(
    by: F,
    s: Seq<T>,
    upper: usize,
    nextp: usize,
    i: usize,
    lower: usize,
) -> bool where F: Fn(&T, &T) -> Ordering {
    &&& forall|k: int| upper <= k < nextp ==> says_greater(by, #[trigger] s[k], nth(s, lower))
    &&& forall|k: int| nextp <= k < i ==> says_not_greater(by, #[trigger] s[k], nth(s, lower))
}

/// Position `r` parts the range `upper..=lower` by what the comparator said:
/// `Greater` for everything below `r` against the element at `r`, something
/// else for everything above.
pub open spec fn parted<T, F>(by: F, s: Seq<T>, upper: usize, r: usize, lower: usize) -> bool where
    F: Fn(&T, &T) -> Ordering,
 {
    &&& forall|k: int| upper <= k < r ==> says_greater(by, #[trigger] s[k], nth(s, r))
    &&& forall|k: int| r < k <= lower ==> says_not_greater(by, #[trigger] s[k], nth(s, r))
}

/// The pivot position for the range `upper..=lower`: its midpoint.
pub fn pivot(lower: usize, upper: usize) -> (p: usize)
    requires
        upper <= lower,
    ensures
        p == midpoint(lower, upper),
        upper <= p <= lower,
{
    upper + ((lower - upper) / 2)
}

/// Partitions `upper..=lower` in place around the element at `p`. Elements
/// that compare `Greater` than the pivot end up below the returned position,
/// the pivot on it, and all others above it. This holds of the answers of any
/// comparator; where the comparator computes a relation, the outcome is the
/// one that `partitioned` describes.
pub fn partition<T, F>(by: &F, data: &mut Vec<T>, lower: usize, upper: usize, p: usize) -> (r:
    usize) where F: Fn(&T, &T) -> Ordering
    requires
        callable(*by),
        upper <= p <= lower < old(data).len(),
    ensures
        upper <= r <= lower,
        nth(final(data)@, r) == nth(old(data)@, p),
        same_outside(old(data)@, final(data)@, upper, lower),
        span(final(data)@, upper, lower).to_multiset() == span(
            old(data)@,
            upper,
            lower,
        ).to_multiset(),
        final(data)@.to_multiset() == old(data)@.to_multiset(),
        parted(*by, final(data)@, upper, r, lower),
        forall|leq: spec_fn(T, T) -> bool| #[trigger]
            decides(*by, leq) ==> split(leq, final(data)@, upper, r, lower),
        forall|leq: spec_fn(T, T) -> bool| #[trigger]
            decides(*by, leq) ==> partitioned(leq, old(data)@, lower, upper, p) == (
                final(data)@,
                r,
            ),
{
    let mut i = upper;
    let mut nextp = upper;
    proof {
        lemma_swap_within(data@, lower, p, upper, lower);
    }
    swap_items(data, lower, p);
    let ghost start = data@;

    while i < lower
        invariant
            callable(*by),
            upper <= nextp <= i <= lower < data.len(),
            nth(data@, lower) == nth(old(data)@, p),
            answered(*by, data@, upper, nextp, i, lower),
            same_outside(old(data)@, data@, upper, lower),
            span(data@, upper, lower).to_multiset() == span(old(data)@, upper, lower).to_multiset(),
            data@.to_multiset() == old(data)@.to_multiset(),
            start == swap(old(data)@, lower, p),
            forall|leq: spec_fn(T, T) -> bool| #[trigger]
                decides(*by, leq) ==> {
                    &&& scanned(leq, data@, upper, nextp, i, lower)
                    &&& scan(leq, data@, lower, i, nextp) == scan(leq, start, lower, upper, upper)
                },
        decreases lower - i,
    {
        let ghost before = data@;
        let ghost low = nextp;
        let ghost at = i;
        let o = by(&data[i], &data[lower]);
        let after = matches!(o, Ordering::Greater);
        if after {
            if i != nextp {
                proof {
                    lemma_swap_within(data@, i, nextp, upper, lower);
                }
                swap_items(data, i, nextp);
            }
            nextp += 1;
        }
        i += 1;
        proof {
            assert forall|leq: spec_fn(T, T) -> bool| #[trigger] decides(*by, leq) implies {
                &&& scanned(leq, data@, upper, nextp, i, lower)
                &&& scan(leq, data@, lower, i, nextp) == scan(leq, start, lower, upper, upper)
            } by {
                assert(by.ensures((&nth(before, at), &nth(before, lower)), o));
                assert(leq(nth(before, at), nth(before, lower)) <==> !after);
                assert(scanned(leq, before, upper, low, at, lower));
                if after {
                    assert(data@ =~= swap(before, at, low));
                }
            }
        }
    }

    proof {
        lemma_swap_within(data@, nextp, lower, upper, lower);
    }
    swap_items(data, nextp, lower);
    nextp
}

/// Takes the next element out of the range `upper..=lower`, which is the top
/// of the buffer and has just been popped off the worklist. Ranges of three or
/// more elements are partitioned; the far part is deferred on the worklist and
/// the near part narrowed further, until one or two elements are left and the
/// top one is removed and returned.
pub fn qsort<T, F>(
    by: &F,
    data: &mut Vec<T>,
    work: &mut Vec<(usize, usize)>,
    lower: usize,
    upper: usize,
) -> (x: T) where F: Fn(&T, &T) -> Ordering
    requires
        callable(*by),
        upper <= lower,
        lower + 1 == old(data).len(),
    ensures
        final(data).len() + 1 == old(data).len(),
        old(data)@.to_multiset() == final(data)@.to_multiset().insert(x),
        tiles(old(work)@, upper) ==> tiles(final(work)@, final(data).len()),
        forall|leq: spec_fn(T, T) -> bool|
            #[trigger] orders_on(*by, leq, old(data)@.to_multiset()) && tiles(old(work)@, upper)
                && segregated(old(data)@, old(work)@.push((lower, upper)), leq) ==> segregated(
                final(data)@,
                final(work)@,
                leq,
            ) && least(leq, x, old(data)@.to_multiset()),
        forall|leq: spec_fn(T, T) -> bool| #[trigger]
            decides(*by, leq) ==> extract(leq, State::of(old(data)@, old(work)@), lower, upper) == (
                State::of(final(data)@, final(work)@),
                x,
            ),
{
    let ghost all = data@.to_multiset();
    let mut near = upper;
    loop
        invariant
            callable(*by),
            upper <= near <= lower,
            lower + 1 == data.len(),
            data.len() == old(data).len(),
            tiles(old(work)@, upper) ==> tiles(work@, near),
            all == old(data)@.to_multiset(),
            data@.to_multiset() == all,
            forall|leq: spec_fn(T, T) -> bool|
                #[trigger] orders_on(*by, leq, all) && tiles(old(work)@, upper) && segregated(
                    old(data)@,
                    old(work)@.push((lower, upper)),
                    leq,
                ) ==> segregated(data@, work@.push((lower, near)), leq),
            forall|leq: spec_fn(T, T) -> bool| #[trigger]
                decides(*by, leq) ==> extract(leq, State::of(old(data)@, old(work)@), lower, upper)
                    == extract(leq, State::of(data@, work@), lower, near),
        decreases lower - near,
    {
        let ghost before = data@;
        let ghost pending = work@;
        match lower - near {
            0 => {
                proof {
                    lemma_drop_last_multiset(before);
                    assert forall|leq: spec_fn(T, T) -> bool|
                        #[trigger] orders_on(*by, leq, all) && tiles(old(work)@, upper)
                            && segregated(
                            old(data)@,
                            old(work)@.push((lower, upper)),
                            leq,
                        ) implies segregated(before.drop_last(), pending, leq) && least(
                        leq,
                        before.last(),
                        all,
                    ) by {
                        lemma_single_settled(leq, before, pending, lower);
                    }
                }
                let x = data.pop().expect("Non empty vector");
                assert(data@ == before.drop_last());
                assert(x == before.last());
                return x;
            },
            1 => {
                let o = by(&data[lower], &data[near]);
                if matches!(o, Ordering::Greater) {
                    swap_items(data, lower, near);
                }
                let ghost ordered = data@;
                proof {
                    lemma_swap_within(before, lower, near, near, lower);
                    lemma_drop_last_multiset(ordered);
                    assert(by.ensures((&nth(before, lower), &nth(before, near)), o));
                    assert forall|leq: spec_fn(T, T) -> bool|
                        #[trigger] orders_on(*by, leq, all) && tiles(old(work)@, upper)
                            && segregated(
                            old(data)@,
                            old(work)@.push((lower, upper)),
                            leq,
                        ) implies segregated(
                        ordered.drop_last(),
                        pending.push((near, near)),
                        leq,
                    ) && least(leq, ordered.last(), all) by {
                        lemma_pair_settled(leq, before, ordered, pending, lower, near);
                    }
                }
                work.push((near, near));
                let x = data.pop().expect("Non empty vector");
                assert(data@ == ordered.drop_last());
                assert(x == ordered.last());
                return x;
            },
            _ => {
                let ghost low = near;
                let p = pivot(lower, near);
                let p = partition(by, data, lower, near, p);
                if p == lower {
                    work.push((p - 1, near));
                    near = p;
                } else {
                    work.push((p, near));
                    near = p + 1;
                }
                proof {
                    assert forall|leq: spec_fn(T, T) -> bool|
                        #[trigger] orders_on(*by, leq, all) && tiles(old(work)@, upper)
                            && segregated(
                            old(data)@,
                            old(work)@.push((lower, upper)),
                            leq,
                        ) implies segregated(data@, work@.push((lower, near)), leq) by {
                        lemma_narrowed(leq, before, data@, pending, lower, low, p);
                    }
                }
            },
        }
    }
}

/// The worklist for a fresh buffer of `len` elements.
pub fn make_work(len: usize) -> (work: Vec<(usize, usize)>)
    ensures
        work@ == initial_work(len),
        tiles(work@, len),
{
    let mut work = Vec::with_capacity(len / 4);
    if len > 0 {
        work.push((len - 1, 0));
    }
    work
}

/// A buffer and a worklist fit together under the comparator `by`, for a
/// producer that was built over the elements `supplied`: the comparator may
/// be called, the worklist covers the buffer, the buffer holds supplied
/// elements only, and under every ordering of the supplied elements that `by`
/// computes each pending range holds only elements that leave before
/// everything beneath it.
pub open spec fn ready<T, F>(by: F, st: State<T>, supplied: Multiset<T>) -> bool where
    F: Fn(&T, &T) -> Ordering,
 {
    &&& callable(by)
    &&& st.tiled()
    &&& st.remaining().subset_of(supplied)
    &&& forall|leq: spec_fn(T, T) -> bool| #[trigger]
        orders_on(by, leq, supplied) ==> segregated(st.buffer, st.work, leq)
}

/// One request for the next element: pops the top range and extracts one
/// element from it, or reports that nothing is left.
pub fn step<T, F>(by: &F, data: &mut Vec<T>, work: &mut Vec<(usize, usize)>) -> (r: Option<
    T,
>) where F: Fn(&T, &T) -> Ordering
    requires
        callable(*by),
        State::of(old(data)@, old(work)@).tiled(),
    ensures
        State::of(final(data)@, final(work)@).tiled(),
        yields(State::of(old(data)@, old(work)@), State::of(final(data)@, final(work)@), r),
        forall|supplied: Multiset<T>| #[trigger]
            ready(*by, State::of(old(data)@, old(work)@), supplied) ==> ready(
                *by,
                State::of(final(data)@, final(work)@),
                supplied,
            ),
        forall|leq: spec_fn(T, T) -> bool, supplied: Multiset<T>|
            #[trigger] orders_on(*by, leq, supplied) && ready(
                *by,
                State::of(old(data)@, old(work)@),
                supplied,
            ) ==> (r matches Some(x) ==> least(leq, x, old(data)@.to_multiset())),
        forall|leq: spec_fn(T, T) -> bool| #[trigger]
            decides(*by, leq) ==> advance(leq, State::of(old(data)@, old(work)@)) == (
                State::of(final(data)@, final(work)@),
                r,
            ),
{
    match work.pop() {
        Some((lower, upper)) => {
            proof {
                lemma_tiles_pop(old(work)@, old(data).len());
            }
            let x = qsort(by, data, work, lower, upper);
            proof {
                broadcast use vstd::multiset::group_multiset_axioms;

                assert forall|leq: spec_fn(T, T) -> bool, supplied: Multiset<T>|
                    #[trigger] orders_on(*by, leq, supplied) && ready(
                        *by,
                        State::of(old(data)@, old(work)@),
                        supplied,
                    ) implies segregated(data@, work@, leq) && least(
                    leq,
                    x,
                    old(data)@.to_multiset(),
                ) by {
                    lemma_preorder_within(leq, supplied, old(data)@.to_multiset());
                    assert(orders_on(*by, leq, old(data)@.to_multiset()));
                    assert(old(work)@.drop_last().push((lower, upper)) == old(work)@);
                }
                assert(data@.to_multiset().subset_of(old(data)@.to_multiset()));
            }
            Some(x)
        },
        None => None,
    }
}

/// Up to `k` requests in a row: the next `k` elements in ascending order, or
/// all that are left when there are fewer.
pub fn take_first<T, F>(
    by: &F,
    data: &mut Vec<T>,
    work: &mut Vec<(usize, usize)>,
    k: usize,
) -> (out: Vec<T>) where F: Fn(&T, &T) -> Ordering
    requires
        callable(*by),
        State::of(old(data)@, old(work)@).tiled(),
    ensures
        State::of(final(data)@, final(work)@).tiled(),
        gathers(State::of(old(data)@, old(work)@), State::of(final(data)@, final(work)@), out@, k),
        forall|supplied: Multiset<T>| #[trigger]
            ready(*by, State::of(old(data)@, old(work)@), supplied) ==> ready(
                *by,
                State::of(final(data)@, final(work)@),
                supplied,
            ),
        forall|leq: spec_fn(T, T) -> bool, supplied: Multiset<T>|
            #[trigger] orders_on(*by, leq, supplied) && ready(
                *by,
                State::of(old(data)@, old(work)@),
                supplied,
            ) ==> ascending(leq, State::of(final(data)@, final(work)@), out@),
        forall|leq: spec_fn(T, T) -> bool, supplied: Multiset<T>|
            #[trigger] orders_on(*by, leq, supplied) && ready(
                *by,
                State::of(old(data)@, old(work)@),
                supplied,
            ) && total_ordering(leq) ==> sorted_front(leq, old(data)@, out@),
        forall|leq: spec_fn(T, T) -> bool| #[trigger]
            decides(*by, leq) ==> taken(leq, State::of(old(data)@, old(work)@), k) == (
                State::of(final(data)@, final(work)@),
                out@,
            ),
{
    let ghost pre = State::of(data@, work@);
    let mut out: Vec<T> = Vec::new();
    let mut left = k;
    proof {
        broadcast use vstd::multiset::group_multiset_axioms;

        vstd::seq_lib::to_multiset_len(out@);
        assert(out@.to_multiset() =~= Multiset::empty());
        assert(pre.remaining() =~= pre.remaining().add(out@.to_multiset()));
        assert forall|leq: spec_fn(T, T) -> bool| #[trigger] decides(*by, leq) implies taken(
            leq,
            pre,
            k,
        ) == (taken(leq, pre, left).0, out@ + taken(leq, pre, left).1) by {
            assert(out@ + taken(leq, pre, left).1 =~= taken(leq, pre, left).1);
        }
    }
    while left > 0 && data.len() > 0
        invariant
            callable(*by),
            State::of(data@, work@).tiled(),
            pre.remaining() == data@.to_multiset().add(out@.to_multiset()),
            out@.len() + data@.len() == pre.buffer.len(),
            out@.len() + left == k,
            forall|supplied: Multiset<T>| #[trigger]
                ready(*by, pre, supplied) ==> ready(*by, State::of(data@, work@), supplied),
            forall|leq: spec_fn(T, T) -> bool, supplied: Multiset<T>|
                #[trigger] orders_on(*by, leq, supplied) && ready(*by, pre, supplied) ==> ascending(
                    leq,
                    State::of(data@, work@),
                    out@,
                ),
            forall|leq: spec_fn(T, T) -> bool| #[trigger]
                decides(*by, leq) ==> taken(leq, pre, k) == (
                    taken(leq, State::of(data@, work@), left).0,
                    out@ + taken(leq, State::of(data@, work@), left).1,
                ),
        decreases left,
    {
        let ghost now = State::of(data@, work@);
        let ghost run = out@;
        let ghost count = left;
        let r = step(by, data, work);
        left -= 1;
        match r {
            Some(x) => {
                out.push(x);
                proof {
                    let after = State::of(data@, work@);
                    broadcast use vstd::multiset::group_multiset_axioms;

                    vstd::seq_lib::to_multiset_build(run, x);
                    assert(pre.remaining() =~= after.remaining().add(out@.to_multiset()));
                    assert forall|leq: spec_fn(T, T) -> bool, supplied: Multiset<T>|
                        #[trigger] orders_on(*by, leq, supplied) && ready(
                            *by,
                            pre,
                            supplied,
                        ) implies ascending(leq, after, out@) by {
                        assert(ready(*by, now, supplied));
                        lemma_ascending_push(leq, now, after, run, x);
                    }
                    assert forall|leq: spec_fn(T, T) -> bool| #[trigger]
                        decides(*by, leq) implies taken(leq, pre, k) == (
                        taken(leq, after, left).0,
                        out@ + taken(leq, after, left).1,
                    ) by {
                        assert(advance(leq, now) == (after, r));
                        assert(taken(leq, now, count).1 == seq![x] + taken(leq, after, left).1);
                        assert(run + (seq![x] + taken(leq, after, left).1) =~= out@ + taken(
                            leq,
                            after,
                            left,
                        ).1);
                    }
                }
            },
            None => {},
        }
    }
    proof {
        let last = State::of(data@, work@);
        assert forall|leq: spec_fn(T, T) -> bool| #[trigger] decides(*by, leq) implies taken(
            leq,
            pre,
            k,
        ) == (last, out@) by {
            assert(taken(leq, last, left) == (last, Seq::<T>::empty()));
            assert(out@ + Seq::<T>::empty() =~= out@);
        }
        assert forall|leq: spec_fn(T, T) -> bool, supplied: Multiset<T>|
            #[trigger] orders_on(*by, leq, supplied) && ready(*by, pre, supplied) && total_ordering(
                leq,
            ) implies sorted_front(leq, pre.buffer, out@) by {
            lemma_front_of_sorted(leq, pre, last, out@);
        }
    }
    out
}

} // verus!
