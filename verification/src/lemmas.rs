//! Why the invariant of the model survives every step of the extraction, and
//! what it gives for the elements that come out.
use crate::model::{
    ascending, cut_at, front, gathers, least, same_outside, segregated, sorted_front, span, split,
    swap, tiles, total_preorder, total_preorder_on, State,
};
use vstd::multiset::Multiset;
use vstd::prelude::*;
use vstd::relations::total_ordering;

verus! {

/// Exchanging two elements keeps the elements of a sequence, each as often
/// as before.
pub proof fn lemma_swap_multiset<T>(s: Seq<T>, i: usize, j: usize)
    requires
        i < s.len(),
        j < s.len(),
    ensures
        swap(s, i, j).to_multiset() == s.to_multiset(),
{
    broadcast use vstd::multiset::group_multiset_axioms;

    let m = s.to_multiset();
    let s1 = s.update(i as int, s[j as int]);
    vstd::seq_lib::to_multiset_update(s, i as int, s[j as int]);
    vstd::seq_lib::to_multiset_update(s1, j as int, s[i as int]);
    vstd::seq_lib::to_multiset_contains(s, s[i as int]);
    vstd::seq_lib::to_multiset_contains(s, s[j as int]);
    assert(s.contains(s[i as int]));
    assert(s.contains(s[j as int]));
    assert(s1[j as int] == s[j as int]);
    assert(swap(s, i, j).to_multiset() =~= m);
}

/// Exchanging two elements inside `upper..=lower` permutes that range and
/// leaves the rest of the buffer alone.
pub proof fn lemma_swap_within<T>(s: Seq<T>, i: usize, j: usize, upper: usize, lower: usize)
    requires
        upper <= i <= lower,
        upper <= j <= lower,
        lower < s.len(),
    ensures
        same_outside(s, swap(s, i, j), upper, lower),
        span(swap(s, i, j), upper, lower).to_multiset() == span(s, upper, lower).to_multiset(),
        swap(s, i, j).to_multiset() == s.to_multiset(),
{
    let part = span(s, upper, lower);
    let a = (i - upper) as usize;
    let b = (j - upper) as usize;
    assert(span(swap(s, i, j), upper, lower) =~= swap(part, a, b));
    lemma_swap_multiset(part, a, b);
    lemma_swap_multiset(s, i, j);
}

/// An ordering of all values orders the elements of every multiset.
pub proof fn lemma_preorder_everywhere<T>(leq: spec_fn(T, T) -> bool, m: Multiset<T>)
    requires
        total_preorder(leq),
    ensures
        total_preorder_on(leq, m),
{
}

/// An ordering of the elements of `all` orders the elements of every part
/// of it.
pub proof fn lemma_preorder_within<T>(
    leq: spec_fn(T, T) -> bool,
    all: Multiset<T>,
    part: Multiset<T>,
)
    requires
        total_preorder_on(leq, all),
        part.subset_of(all),
    ensures
        total_preorder_on(leq, part),
{
    assert forall|x: T| part.count(x) > 0 implies all.count(x) > 0 by {
        assert(part.count(x) <= all.count(x));
    }
}

/// Every element of a sequence is among its elements.
pub proof fn lemma_holds<T>(s: Seq<T>, i: int)
    requires
        0 <= i < s.len(),
    ensures
        s.to_multiset().count(s[i]) > 0,
{
    vstd::seq_lib::to_multiset_contains(s, s[i]);
    assert(s.contains(s[i]));
}

/// Every range of a tiling lies inside the positions that it covers.
pub proof fn lemma_tiles_below(work: Seq<(usize, usize)>, len: usize, k: int)
    requires
        tiles(work, len),
        0 <= k < work.len(),
    ensures
        work[k].1 <= work[k].0 < len,
    decreases work.len() - k,
{
    if k < work.len() - 1 {
        lemma_tiles_below(work, len, k + 1);
    }
}

/// Taking the last element off a sequence takes one copy of it out of the
/// elements.
pub proof fn lemma_drop_last_multiset<T>(s: Seq<T>)
    requires
        s.len() > 0,
    ensures
        s.to_multiset() == s.drop_last().to_multiset().insert(s.last()),
{
    vstd::seq_lib::to_multiset_build(s.drop_last(), s.last());
    assert(s =~= s.drop_last().push(s.last()));
}

/// A cut at or below `upper` survives any rearrangement of `upper..=lower`.
pub proof fn lemma_cut_survives<T>(
    s: Seq<T>,
    t: Seq<T>,
    upper: usize,
    lower: usize,
    c: usize,
    leq: spec_fn(T, T) -> bool,
)
    requires
        same_outside(s, t, upper, lower),
        span(t, upper, lower).to_multiset() == span(s, upper, lower).to_multiset(),
        upper <= lower < s.len(),
        c <= upper,
        cut_at(s, c, leq),
    ensures
        cut_at(t, c, leq),
{
    assert forall|i: int, j: int| 0 <= j < c <= i < t.len() implies leq(
        #[trigger] t[i],
        #[trigger] t[j],
    ) by {
        if upper <= i <= lower {
            let x = t[i];
            let old_part = span(s, upper, lower);
            let new_part = span(t, upper, lower);
            assert(new_part[i - upper] == x);
            vstd::seq_lib::to_multiset_contains(new_part, x);
            vstd::seq_lib::to_multiset_contains(old_part, x);
            assert(new_part.contains(x));
            let k = choose|k: int| 0 <= k < old_part.len() && old_part[k] == x;
            assert(s[upper + k] == x);
        }
    }
}

/// After a partition of the top range the buffer is cut at the low end of
/// both parts as well: the far part goes onto the worklist and the near part
/// is the range to go on with.
pub proof fn lemma_narrowed<T>(
    leq: spec_fn(T, T) -> bool,
    s: Seq<T>,
    t: Seq<T>,
    work: Seq<(usize, usize)>,
    lower: usize,
    upper: usize,
    r: usize,
)
    requires
        total_preorder_on(leq, t.to_multiset()),
        tiles(work, upper),
        upper < lower,
        upper <= r <= lower,
        lower + 1 == s.len(),
        segregated(s, work.push((lower, upper)), leq),
        same_outside(s, t, upper, lower),
        span(t, upper, lower).to_multiset() == span(s, upper, lower).to_multiset(),
        split(leq, t, upper, r, lower),
    ensures
        r == lower ==> segregated(t, work.push(((r - 1) as usize, upper)).push((lower, r)), leq),
        r < lower ==> segregated(t, work.push((r, upper)).push((lower, (r + 1) as usize)), leq),
{
    let before = work.push((lower, upper));
    assert(before[work.len() as int] == (lower, upper));
    assert(cut_at(s, upper, leq));
    lemma_cut_survives(s, t, upper, lower, upper, leq);
    assert forall|k: int| 0 <= k < work.len() implies cut_at(t, (#[trigger] work[k]).1, leq) by {
        lemma_tiles_below(work, upper, k);
        assert(before[k] == work[k]);
        lemma_cut_survives(s, t, upper, lower, work[k].1, leq);
    }
    let pivot = t[r as int];
    lemma_holds(t, r as int);
    if r == lower {
        let after = work.push(((r - 1) as usize, upper)).push((lower, r));
        assert(cut_at(t, r, leq)) by {
            assert forall|i: int, j: int| 0 <= j < r <= i < t.len() implies leq(
                #[trigger] t[i],
                #[trigger] t[j],
            ) by {
                if j >= upper {
                    lemma_holds(t, j);
                    assert(!leq(t[j], pivot));
                    assert(leq(t[j], pivot) || leq(pivot, t[j]));
                }
            }
        }
        assert forall|k: int| 0 <= k < after.len() implies cut_at(
            t,
            (#[trigger] after[k]).1,
            leq,
        ) by {
            if k < work.len() {
                assert(after[k] == work[k]);
            }
        }
    } else {
        let c = (r + 1) as usize;
        let after = work.push((r, upper)).push((lower, c));
        assert(cut_at(t, c, leq)) by {
            assert forall|i: int, j: int| 0 <= j < c <= i < t.len() implies leq(
                #[trigger] t[i],
                #[trigger] t[j],
            ) by {
                lemma_holds(t, i);
                lemma_holds(t, j);
                assert(leq(t[i], pivot));
                if upper <= j < r {
                    assert(!leq(t[j], pivot));
                    assert(leq(t[j], pivot) || leq(pivot, t[j]));
                    assert(leq(pivot, t[j]));
                }
            }
        }
        assert forall|k: int| 0 <= k < after.len() implies cut_at(
            t,
            (#[trigger] after[k]).1,
            leq,
        ) by {
            if k < work.len() {
                assert(after[k] == work[k]);
            }
        }
    }
}

/// With two elements left in the top range, exchanged where the top one does
/// not precede the other, the top element is least of all; once it is gone
/// the other one forms a range of its own.
pub proof fn lemma_pair_settled<T>(
    leq: spec_fn(T, T) -> bool,
    s: Seq<T>,
    t: Seq<T>,
    work: Seq<(usize, usize)>,
    lower: usize,
    upper: usize,
)
    requires
        total_preorder_on(leq, s.to_multiset()),
        tiles(work, upper),
        lower == upper + 1,
        lower + 1 == s.len(),
        segregated(s, work.push((lower, upper)), leq),
        leq(s[lower as int], s[upper as int]) ==> t == s,
        !leq(s[lower as int], s[upper as int]) ==> t == swap(s, lower, upper),
    ensures
        segregated(t.drop_last(), work.push((upper, upper)), leq),
        least(leq, t.last(), s.to_multiset()),
        t.to_multiset() == s.to_multiset(),
{
    let before = work.push((lower, upper));
    let after = work.push((upper, upper));
    let rest = t.drop_last();
    lemma_holds(s, lower as int);
    lemma_holds(s, upper as int);
    assert(leq(s[lower as int], s[upper as int]) || leq(s[upper as int], s[lower as int]));
    assert(leq(t[lower as int], t[upper as int]));
    lemma_swap_within(s, lower, upper, upper, lower);
    assert(span(s, upper, lower).to_multiset() == span(t, upper, lower).to_multiset());
    assert(same_outside(s, t, upper, lower));
    assert(before[work.len() as int] == (lower, upper));
    assert(cut_at(s, upper, leq));
    lemma_cut_survives(s, t, upper, lower, upper, leq);
    assert forall|k: int| 0 <= k < after.len() implies cut_at(
        rest,
        (#[trigger] after[k]).1,
        leq,
    ) by {
        if k < work.len() {
            lemma_tiles_below(work, upper, k);
            assert(before[k] == work[k]);
            assert(after[k] == work[k]);
            lemma_cut_survives(s, t, upper, lower, work[k].1, leq);
        }
        let c = after[k].1;
        assert(cut_at(t, c, leq));
        assert forall|i: int, j: int| 0 <= j < c <= i < rest.len() implies leq(
            #[trigger] rest[i],
            #[trigger] rest[j],
        ) by {
            assert(rest[i] == t[i] && rest[j] == t[j]);
        }
    }
    let x = t.last();
    lemma_holds(t, lower as int);
    assert(leq(x, x) || leq(x, x));
    assert forall|y: T| t.to_multiset().count(y) > 0 implies #[trigger] leq(x, y) by {
        vstd::seq_lib::to_multiset_contains(t, y);
        let k = choose|k: int| 0 <= k < t.len() && t[k] == y;
        if k < upper {
            assert(leq(t[lower as int], t[k]));
        }
    }
}

/// With one element left in the top range, that element is least of all;
/// once it is gone the worklist describes the rest.
pub proof fn lemma_single_settled<T>(
    leq: spec_fn(T, T) -> bool,
    s: Seq<T>,
    work: Seq<(usize, usize)>,
    lower: usize,
)
    requires
        total_preorder_on(leq, s.to_multiset()),
        lower + 1 == s.len(),
        segregated(s, work.push((lower, lower)), leq),
    ensures
        segregated(s.drop_last(), work, leq),
        least(leq, s.last(), s.to_multiset()),
{
    let before = work.push((lower, lower));
    let rest = s.drop_last();
    assert(before[work.len() as int] == (lower, lower));
    assert(cut_at(s, lower, leq));
    assert forall|k: int| 0 <= k < work.len() implies cut_at(rest, (#[trigger] work[k]).1, leq) by {
        assert(before[k] == work[k]);
        let c = work[k].1;
        assert(cut_at(s, c, leq));
        assert forall|i: int, j: int| 0 <= j < c <= i < rest.len() implies leq(
            #[trigger] rest[i],
            #[trigger] rest[j],
        ) by {
            assert(rest[i] == s[i] && rest[j] == s[j]);
        }
    }
    let x = s.last();
    lemma_holds(s, lower as int);
    assert(leq(x, x) || leq(x, x));
    assert forall|y: T| s.to_multiset().count(y) > 0 implies #[trigger] leq(x, y) by {
        vstd::seq_lib::to_multiset_contains(s, y);
        let k = choose|k: int| 0 <= k < s.len() && s[k] == y;
        if k < lower {
            assert(leq(s[lower as int], s[k]));
        }
    }
}

/// A worklist that tiles a buffer has the top of the buffer as its last
/// range, and tiles what lies below that range once it is popped.
pub proof fn lemma_tiles_pop(work: Seq<(usize, usize)>, len: usize)
    requires
        tiles(work, len),
        work.len() > 0,
    ensures
        work.last().1 <= work.last().0,
        work.last().0 + 1 == len,
        tiles(work.drop_last(), work.last().1),
        work.drop_last().push(work.last()) == work,
{
    let rest = work.drop_last();
    assert(work.drop_last().push(work.last()) =~= work);
    if rest.len() > 0 {
        assert(rest.last() == work[work.len() - 2]);
        assert(rest[0] == work[0]);
    }
    assert forall|k: int| 0 <= k < rest.len() implies (#[trigger] rest[k]).1 <= rest[k].0 by {
        assert(rest[k] == work[k]);
    }
    assert forall|k: int| 0 < k < rest.len() implies rest[k - 1].0 + 1 == (
    #[trigger] rest[k]).1 by {
        assert(rest[k] == work[k]);
        assert(rest[k - 1] == work[k - 1]);
    }
}

/// Handing out one more element that is least of what was left keeps the run
/// ascending.
pub proof fn lemma_ascending_push<T>(
    leq: spec_fn(T, T) -> bool,
    now: State<T>,
    next: State<T>,
    out: Seq<T>,
    x: T,
)
    requires
        ascending(leq, now, out),
        now.remaining() == next.remaining().insert(x),
        least(leq, x, now.remaining()),
    ensures
        ascending(leq, next, out.push(x)),
{
    broadcast use vstd::multiset::group_multiset_axioms;

    let grown = out.push(x);
    assert(now.remaining().count(x) > 0);
    assert forall|i: int, j: int| 0 <= i < j < grown.len() implies #[trigger] leq(
        grown[i],
        grown[j],
    ) by {
        if j == out.len() {
            assert(leq(out[i], x));
        }
    }
    assert forall|i: int, y: T|
        0 <= i < grown.len() && next.remaining().count(y) > 0 implies #[trigger] leq(
        grown[i],
        y,
    ) by {
        assert(now.remaining().count(y) > 0);
        if i == out.len() {
            assert(leq(x, y));
        } else {
            assert(leq(out[i], y));
        }
    }
}

/// An ascending run over a total order is the front of the fully sorted
/// buffer: nothing that was deferred belongs before any of it.
pub proof fn lemma_front_of_sorted<T>(
    leq: spec_fn(T, T) -> bool,
    pre: State<T>,
    post: State<T>,
    out: Seq<T>,
)
    requires
        total_ordering(leq),
        ascending(leq, post, out),
        pre.remaining() == post.remaining().add(out.to_multiset()),
    ensures
        sorted_front(leq, pre.buffer, out),
{
    broadcast use vstd::multiset::group_multiset_axioms;

    let rest = post.buffer.sort_by(leq);
    let whole = out + rest;
    post.buffer.lemma_sort_by_ensures(leq);
    pre.buffer.lemma_sort_by_ensures(leq);
    vstd::seq_lib::lemma_multiset_commutative(out, rest);
    assert(whole.to_multiset() =~= pre.buffer.to_multiset());
    assert forall|i: int, j: int| 0 <= i < j < whole.len() implies #[trigger] leq(
        whole[i],
        whole[j],
    ) by {
        if i < out.len() && j >= out.len() {
            let y = rest[j - out.len()];
            vstd::seq_lib::to_multiset_contains(rest, y);
            assert(rest.contains(y));
            assert(post.remaining().count(y) > 0);
            assert(leq(out[i], y));
        } else if i >= out.len() {
            assert(leq(rest[i - out.len()], rest[j - out.len()]));
        }
    }
    vstd::seq_lib::lemma_sorted_unique(whole, pre.buffer.sort_by(leq), leq);
    vstd::seq_lib::to_multiset_len(whole);
    vstd::seq_lib::to_multiset_len(pre.buffer);
    assert(front(whole, out.len()) =~= out);
}

/// A run that leaves nothing behind holds every element there was, and over
/// a total order it is the whole buffer sorted.
pub proof fn lemma_all_taken<T>(pre: State<T>, post: State<T>, out: Seq<T>)
    requires
        gathers(pre, post, out, usize::MAX),
        pre.buffer.len() <= usize::MAX,
    ensures
        out.to_multiset() == pre.remaining(),
        out.len() == pre.buffer.len(),
        forall|leq: spec_fn(T, T) -> bool|
            total_ordering(leq) && #[trigger] sorted_front(leq, pre.buffer, out) ==> out
                == pre.buffer.sort_by(leq),
{
    broadcast use vstd::multiset::group_multiset_axioms;

    vstd::seq_lib::to_multiset_len(post.buffer);
    assert(post.remaining() =~= Multiset::empty());
    assert(out.to_multiset() =~= pre.remaining());
    assert forall|leq: spec_fn(T, T) -> bool|
        total_ordering(leq) && #[trigger] sorted_front(leq, pre.buffer, out) implies out
        == pre.buffer.sort_by(leq) by {
        let all = pre.buffer.sort_by(leq);
        pre.buffer.lemma_sort_by_ensures(leq);
        vstd::seq_lib::to_multiset_len(all);
        vstd::seq_lib::to_multiset_len(pre.buffer);
        assert(front(all, out.len()) =~= all);
    }
}

} // verus!
