//! The mathematical model of the producer: its state, the invariant that ties
//! the worklist to the buffer, and the extraction algorithm as functions on
//! sequences.
use vstd::multiset::Multiset;
use vstd::prelude::*;
use vstd::relations::{sorted_by, strongly_connected, transitive};

verus! {

/// A producer seen as plain values: the buffer, whose last element leaves
/// first, and the stack of pending ranges `(hi, lo)`, both ends included.
pub struct State<T> {
    pub buffer: Seq<T>,
    pub work: Seq<(usize, usize)>,
}

impl<T> State<T> {
    /// The elements that have not been handed out yet, each as often as it
    /// is still there.
    pub open spec fn remaining(self) -> Multiset<T> {
        self.buffer.to_multiset()
    }

    /// The worklist covers the whole buffer.
    pub open spec fn tiled(self) -> bool {
        self.buffer.len() <= usize::MAX && tiles(self.work, self.buffer.len() as usize)
    }

    /// The state with this buffer and this worklist.
    pub open spec fn of(buffer: Seq<T>, work: Seq<(usize, usize)>) -> State<T> {
        State { buffer, work }
    }

    /// The state of a producer that was just built over `items`.
    pub open spec fn fresh(items: Seq<T>) -> State<T> {
        State { buffer: items, work: initial_work(items.len() as usize) }
    }
}

/// The element of `s` at position `i`.
#[verifier::inline]
pub open spec fn nth<T>(s: Seq<T>, i: usize) -> T {
    s[i as int]
}

/// `s` with `x` at position `i`.
#[verifier::inline]
pub open spec fn put<T>(s: Seq<T>, i: usize, x: T) -> Seq<T> {
    s.update(i as int, x)
}

/// `s` with the elements at `i` and `j` exchanged.
pub open spec fn swap<T>(s: Seq<T>, i: usize, j: usize) -> Seq<T> {
    s.update(i as int, s[j as int]).update(j as int, s[i as int])
}

/// The elements of `s` at the positions `lo..=hi`.
pub open spec fn span<T>(s: Seq<T>, lo: usize, hi: usize) -> Seq<T> {
    s.subrange(lo as int, hi + 1)
}

/// The first `n` elements of `s`.
pub open spec fn front<T>(s: Seq<T>, n: nat) -> Seq<T> {
    s.subrange(0, n as int)
}

/// The midpoint of the range `upper..=lower`.
pub open spec fn midpoint(lower: usize, upper: usize) -> usize {
    (upper + (lower - upper) / 2) as usize
}

/// The worklist for a fresh buffer of `len` elements: one range over all of
/// it, or nothing when it is empty.
pub open spec fn initial_work(len: usize) -> Seq<(usize, usize)> {
    if len > 0 {
        seq![((len - 1) as usize, 0usize)]
    } else {
        Seq::empty()
    }
}

/// `leq` is an ordering to sort by: it compares any two elements and is
/// transitive. Ties are allowed.
pub open spec fn total_preorder<T>(leq: spec_fn(T, T) -> bool) -> bool {
    strongly_connected(leq) && transitive(leq)
}

/// `leq` is an ordering to sort the elements of `m` by: it compares any two
/// of them and is transitive among them. What it says of other values does
/// not matter.
pub open spec fn total_preorder_on<T>(leq: spec_fn(T, T) -> bool, m: Multiset<T>) -> bool {
    &&& forall|x: T, y: T|
        m.count(x) > 0 && m.count(y) > 0 ==> #[trigger] leq(x, y) || #[trigger] leq(y, x)
    &&& forall|x: T, y: T, z: T|
        m.count(x) > 0 && m.count(y) > 0 && m.count(z) > 0 && #[trigger] leq(x, y)
            && #[trigger] leq(y, z) ==> leq(x, z)
}

/// `x` precedes, or ties with, every element of `m`.
pub open spec fn least<T>(leq: spec_fn(T, T) -> bool, x: T, m: Multiset<T>) -> bool {
    forall|y: T| m.count(y) > 0 ==> #[trigger] leq(x, y)
}

/// Every element of `out` precedes, or ties with, every element of `m`.
pub open spec fn precedes_all<T>(leq: spec_fn(T, T) -> bool, out: Seq<T>, m: Multiset<T>) -> bool {
    forall|i: int, y: T| 0 <= i < out.len() && m.count(y) > 0 ==> #[trigger] leq(out[i], y)
}

/// The ranges of `work`, bottom to top, cover the positions `0..len` in
/// ascending order without gap or overlap, and none is empty.
pub open spec fn tiles(work: Seq<(usize, usize)>, len: usize) -> bool {
    &&& work.len() == 0 <==> len == 0
    &&& forall|k: int| 0 <= k < work.len() ==> (#[trigger] work[k]).1 <= work[k].0
    &&& work.len() > 0 ==> work[0].1 == 0 && work.last().0 + 1 == len
    &&& forall|k: int| 0 < k < work.len() ==> work[k - 1].0 + 1 == (#[trigger] work[k]).1
}

/// Every element at or above position `c` precedes, or ties with, every
/// element below `c`.
pub open spec fn cut_at<T>(s: Seq<T>, c: usize, leq: spec_fn(T, T) -> bool) -> bool {
    forall|i: int, j: int| 0 <= j < c <= i < s.len() ==> leq(#[trigger] s[i], #[trigger] s[j])
}

/// The buffer is cut at the low end of every pending range: what a range
/// holds leaves before everything in the ranges beneath it.
pub open spec fn segregated<T>(
    s: Seq<T>,
    work: Seq<(usize, usize)>,
    leq: spec_fn(T, T) -> bool,
) -> bool {
    forall|k: int| 0 <= k < work.len() ==> cut_at(s, (#[trigger] work[k]).1, leq)
}

/// Two buffers of one length agree everywhere outside `upper..=lower`.
pub open spec fn same_outside<T>(s: Seq<T>, t: Seq<T>, upper: usize, lower: usize) -> bool {
    &&& s.len() == t.len()
    &&& forall|k: int| 0 <= k < s.len() && (k < upper || lower < k) ==> s[k] == t[k]
}

/// Position `r` splits the range `upper..=lower`: what lies below `r` is
/// strictly after the element at `r`, what lies above is not.
pub open spec fn split<T>(
    leq: spec_fn(T, T) -> bool,
    s: Seq<T>,
    upper: usize,
    r: usize,
    lower: usize,
) -> bool {
    &&& forall|k: int| upper <= k < r ==> !leq(#[trigger] s[k], s[r as int])
    &&& forall|k: int| r < k <= lower ==> leq(#[trigger] s[k], s[r as int])
}

/// Progress of a scan over `upper..=lower` with the pivot parked at `lower`:
/// what lies below `nextp` is strictly after the pivot, what lies from
/// `nextp` up to `i` is not.
pub open spec fn scanned<T>(
    leq: spec_fn(T, T) -> bool,
    s: Seq<T>,
    upper: usize,
    nextp: usize,
    i: usize,
    lower: usize,
) -> bool {
    &&& forall|k: int| upper <= k < nextp ==> !leq(#[trigger] s[k], s[lower as int])
    &&& forall|k: int| nextp <= k < i ==> leq(#[trigger] s[k], s[lower as int])
}

/// The scan of a partition from position `i` on, with the pivot parked at
/// `lower` and `nextp` the first position not yet known to hold an element
/// after the pivot: the buffer and the boundary it ends with.
pub open spec fn scan<T>(
    leq: spec_fn(T, T) -> bool,
    s: Seq<T>,
    lower: usize,
    i: usize,
    nextp: usize,
) -> (Seq<T>, usize)
    decreases lower - i,
{
    if i >= lower {
        (s, nextp)
    } else if leq(s[i as int], s[lower as int]) {
        scan(leq, s, lower, (i + 1) as usize, nextp)
    } else {
        scan(leq, swap(s, i, nextp), lower, (i + 1) as usize, (nextp + 1) as usize)
    }
}

/// A scan that starts inside `upper..=lower` ends with its boundary inside
/// it too, and keeps the length of the buffer.
pub proof fn lemma_scan_bounds<T>(
    leq: spec_fn(T, T) -> bool,
    s: Seq<T>,
    lower: usize,
    i: usize,
    nextp: usize,
)
    requires
        nextp <= i <= lower,
    ensures
        nextp <= scan(leq, s, lower, i, nextp).1 <= lower,
        lower < s.len() ==> scan(leq, s, lower, i, nextp).0.len() == s.len(),
    decreases lower - i,
{
    if i < lower {
        if leq(s[i as int], s[lower as int]) {
            lemma_scan_bounds(leq, s, lower, (i + 1) as usize, nextp);
        } else {
            lemma_scan_bounds(
                leq,
                swap(s, i, nextp),
                lower,
                (i + 1) as usize,
                (nextp + 1) as usize,
            );
        }
    }
}

/// The partition of `upper..=lower` around the element at `p`: the buffer
/// afterwards and the position where the pivot came to rest.
pub open spec fn partitioned<T>(
    leq: spec_fn(T, T) -> bool,
    s: Seq<T>,
    lower: usize,
    upper: usize,
    p: usize,
) -> (Seq<T>, usize) {
    let (t, r) = scan(leq, swap(s, lower, p), lower, upper, upper);
    (swap(t, r, lower), r)
}

/// The pivot of a partition comes to rest inside the range, and the buffer
/// keeps its length.
pub proof fn lemma_partitioned_bounds<T>(
    leq: spec_fn(T, T) -> bool,
    s: Seq<T>,
    lower: usize,
    upper: usize,
    p: usize,
)
    requires
        upper <= lower,
    ensures
        upper <= partitioned(leq, s, lower, upper, p).1 <= lower,
        p <= lower < s.len() ==> partitioned(leq, s, lower, upper, p).0.len() == s.len(),
{
    lemma_scan_bounds(leq, swap(s, lower, p), lower, upper, upper);
}

/// One extraction from the range `upper..=lower` at the top of the buffer:
/// ranges of three or more elements are partitioned around their midpoint,
/// the far part is pushed onto the worklist, and the near part is narrowed
/// further until one or two elements are left. Gives the state afterwards and
/// the element that was taken out.
pub open spec fn extract<T>(
    leq: spec_fn(T, T) -> bool,
    st: State<T>,
    lower: usize,
    upper: usize,
) -> (State<T>, T)
    decreases lower - upper,
{
    if lower <= upper {
        (State { buffer: st.buffer.drop_last(), work: st.work }, st.buffer.last())
    } else if lower - upper == 1 {
        let b = if leq(st.buffer[lower as int], st.buffer[upper as int]) {
            st.buffer
        } else {
            swap(st.buffer, lower, upper)
        };
        (State { buffer: b.drop_last(), work: st.work.push((upper, upper)) }, b.last())
    } else {
        let (b, r) = partitioned(leq, st.buffer, lower, upper, midpoint(lower, upper));
        proof {
            lemma_partitioned_bounds(leq, st.buffer, lower, upper, midpoint(lower, upper));
        }
        if r == lower {
            extract(
                leq,
                State { buffer: b, work: st.work.push(((r - 1) as usize, upper)) },
                lower,
                r,
            )
        } else {
            extract(
                leq,
                State { buffer: b, work: st.work.push((r, upper)) },
                lower,
                (r + 1) as usize,
            )
        }
    }
}

/// One request for the next element: nothing changes when the worklist is
/// empty; otherwise the top range is popped and one element extracted from it.
pub open spec fn advance<T>(leq: spec_fn(T, T) -> bool, st: State<T>) -> (State<T>, Option<T>) {
    if st.work.len() == 0 {
        (st, None)
    } else {
        let top = st.work.last();
        let (next, x) = extract(
            leq,
            State { buffer: st.buffer, work: st.work.drop_last() },
            top.0,
            top.1,
        );
        (next, Some(x))
    }
}

/// Up to `k` requests in a row: the state afterwards and the elements handed
/// out, in order.
pub open spec fn taken<T>(leq: spec_fn(T, T) -> bool, st: State<T>, k: usize) -> (State<T>, Seq<T>)
    decreases k,
{
    if k == 0 || st.work.len() == 0 {
        (st, Seq::empty())
    } else {
        let (after, x) = advance(leq, st);
        let (last, rest) = taken(leq, after, (k - 1) as usize);
        (last, seq![x->0] + rest)
    }
}

/// What one request does to a producer whatever the ordering: `None` comes
/// exactly when nothing is left and changes nothing; otherwise one copy of
/// the element handed out leaves the buffer.
pub open spec fn yields<T>(pre: State<T>, post: State<T>, r: Option<T>) -> bool {
    &&& r is None <==> pre.buffer.len() == 0
    &&& r is None ==> post == pre
    &&& r matches Some(x) ==> {
        &&& pre.remaining() == post.remaining().insert(x)
        &&& post.buffer.len() + 1 == pre.buffer.len()
    }
}

/// What a run of requests does whatever the ordering: the elements handed
/// out and those still in the buffer are together the ones there were, and
/// `out` holds `k` of them or, when fewer were left, all.
pub open spec fn gathers<T>(pre: State<T>, post: State<T>, out: Seq<T>, k: usize) -> bool {
    &&& pre.remaining() == post.remaining().add(out.to_multiset())
    &&& out.len() + post.buffer.len() == pre.buffer.len()
    &&& k <= pre.buffer.len() ==> out.len() == k
    &&& k > pre.buffer.len() ==> out.len() == pre.buffer.len()
}

/// What a run of requests hands out under an ordering to sort by: `out` is
/// ascending and nothing still in the buffer precedes any of it.
pub open spec fn ascending<T>(leq: spec_fn(T, T) -> bool, post: State<T>, out: Seq<T>) -> bool {
    sorted_by(out, leq) && precedes_all(leq, out, post.remaining())
}

/// `out` is the front of `items` sorted by `leq`.
pub open spec fn sorted_front<T>(leq: spec_fn(T, T) -> bool, items: Seq<T>, out: Seq<T>) -> bool {
    out.len() <= items.len() && out == front(items.sort_by(leq), out.len())
}

} // verus!
