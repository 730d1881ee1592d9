//! Facts that hold of every producer, stated over the model.
use crate::model::{advance, front, precedes_all, taken, State};
use vstd::multiset::Multiset;
use vstd::relations::sorted_by;
use crate::order::{first_policy, last_policy};
use std::cmp::Ordering;
use vstd::prelude::*;

verus! {

/// Exhaustion is final: a producer with nothing left answers `None` to every
/// further request and stays as it is, however many requests follow.
pub proof fn lemma_exhausted_stays<T>(leq: spec_fn(T, T) -> bool, st: State<T>, k: usize)
    requires
        st.tiled(),
        st.buffer.len() == 0,
    ensures
        advance(leq, st) == (st, None::<T>),
        taken(leq, st, k) == (st, Seq::<T>::empty()),
{
}

/// The two policies for a partial order differ on incomparable pairs only:
/// where the partial order decides, both report what it says.
pub proof fn lemma_policies_agree_where_comparable(o: Option<Ordering>)
    ensures
        o is Some ==> first_policy(o) == o->0 && last_policy(o) == o->0,
        o is None ==> first_policy(o) == Ordering::Less && last_policy(o) == Ordering::Greater,
{
}

/// Among the elements of `m`, two that precede each other are the same.
pub open spec fn antisymmetric_on<T>(leq: spec_fn(T, T) -> bool, m: Multiset<T>) -> bool {
    forall|x: T, y: T|
        m.count(x) > 0 && m.count(y) > 0 && #[trigger] leq(x, y) && #[trigger] leq(y, x) ==> x == y
}

/// The sorted order is unique: where no two different elements tie, two
/// ascending arrangements of the same elements are the same sequence. So what
/// a full drain yields is the one sorted order of what was supplied.
pub proof fn lemma_ascending_unique<T>(leq: spec_fn(T, T) -> bool, a: Seq<T>, b: Seq<T>)
    requires
        a.to_multiset() == b.to_multiset(),
        sorted_by(a, leq),
        sorted_by(b, leq),
        antisymmetric_on(leq, a.to_multiset()),
    ensures
        a == b,
    decreases a.len(),
{
    broadcast use vstd::multiset::group_multiset_axioms;

    vstd::seq_lib::to_multiset_len(a);
    vstd::seq_lib::to_multiset_len(b);
    if a.len() > 0 {
        let x = a[0];
        let y = b[0];
        vstd::seq_lib::to_multiset_contains(a, x);
        vstd::seq_lib::to_multiset_contains(a, y);
        vstd::seq_lib::to_multiset_contains(b, x);
        vstd::seq_lib::to_multiset_contains(b, y);
        assert(a.contains(x));
        assert(b.contains(y));
        let i = choose|i: int| 0 <= i < b.len() && b[i] == x;
        let j = choose|j: int| 0 <= j < a.len() && a[j] == y;
        if i > 0 && j > 0 {
            assert(leq(b[0], b[i]));
            assert(leq(a[0], a[j]));
        }
        assert(x == y);
        let rest_a = a.drop_first();
        let rest_b = b.drop_first();
        assert(a =~= seq![x] + rest_a);
        assert(b =~= seq![y] + rest_b);
        vstd::seq_lib::lemma_multiset_commutative(seq![x], rest_a);
        vstd::seq_lib::lemma_multiset_commutative(seq![y], rest_b);
        assert(rest_a.to_multiset() =~= rest_b.to_multiset()) by {
            assert forall|v: T| rest_a.to_multiset().count(v) == rest_b.to_multiset().count(v) by {
                let with_x = (seq![x] + rest_a).to_multiset();
                let with_y = (seq![y] + rest_b).to_multiset();
                assert(with_x.count(v) == with_y.count(v));
            }
        }
        assert forall|p: int, q: int| 0 <= p < q < rest_a.len() implies #[trigger] leq(
            rest_a[p],
            rest_a[q],
        ) by {
            assert(leq(a[p + 1], a[q + 1]));
        }
        assert forall|p: int, q: int| 0 <= p < q < rest_b.len() implies #[trigger] leq(
            rest_b[p],
            rest_b[q],
        ) by {
            assert(leq(b[p + 1], b[q + 1]));
        }
        assert forall|u: T, v: T|
            rest_a.to_multiset().count(u) > 0 && rest_a.to_multiset().count(v) > 0
                && #[trigger] leq(u, v) && #[trigger] leq(v, u) implies u == v by {
            assert(a.to_multiset().count(u) > 0);
            assert(a.to_multiset().count(v) > 0);
        }
        lemma_ascending_unique(leq, rest_a, rest_b);
    } else {
        assert(a =~= b);
    }
}

/// A prefix is the front of the full sort: where no two different elements
/// tie, an ascending run that nothing of the rest precedes is the beginning
/// of every ascending arrangement of run and rest together. So asking for
/// `k` elements gives the first `k` of a full sort.
pub proof fn lemma_front_unique<T>(
    leq: spec_fn(T, T) -> bool,
    out: Seq<T>,
    rest: Multiset<T>,
    full: Seq<T>,
)
    requires
        full.to_multiset() == rest.add(out.to_multiset()),
        sorted_by(out, leq),
        precedes_all(leq, out, rest),
        sorted_by(full, leq),
        antisymmetric_on(leq, full.to_multiset()),
    ensures
        out.len() <= full.len(),
        out == front(full, out.len()),
    decreases out.len(),
{
    broadcast use vstd::multiset::group_multiset_axioms;

    vstd::seq_lib::to_multiset_len(out);
    vstd::seq_lib::to_multiset_len(full);
    if out.len() == 0 {
        assert(out =~= front(full, out.len()));
    } else {
        let x = out[0];
        let y = full[0];
        vstd::seq_lib::to_multiset_contains(out, x);
        vstd::seq_lib::to_multiset_contains(out, y);
        vstd::seq_lib::to_multiset_contains(full, x);
        vstd::seq_lib::to_multiset_contains(full, y);
        assert(out.contains(x));
        assert(full.contains(y));
        let j = choose|j: int| 0 <= j < full.len() && full[j] == x;
        if j > 0 {
            assert(leq(full[0], full[j]));
            if rest.count(y) > 0 {
                assert(leq(out[0], y));
            } else {
                let i = choose|i: int| 0 <= i < out.len() && out[i] == y;
                if i > 0 {
                    assert(leq(out[0], out[i]));
                }
            }
        }
        assert(x == y);
        let out_rest = out.drop_first();
        let full_rest = full.drop_first();
        assert(out =~= seq![x] + out_rest);
        assert(full =~= seq![y] + full_rest);
        vstd::seq_lib::lemma_multiset_commutative(seq![x], out_rest);
        vstd::seq_lib::lemma_multiset_commutative(seq![y], full_rest);
        assert(full_rest.to_multiset() =~= rest.add(out_rest.to_multiset())) by {
            assert forall|v: T| full_rest.to_multiset().count(v) == rest.add(
                out_rest.to_multiset(),
            ).count(v) by {
                assert((seq![y] + full_rest).to_multiset().count(v) == rest.add(
                    (seq![x] + out_rest).to_multiset(),
                ).count(v));
            }
        }
        assert forall|p: int, q: int| 0 <= p < q < out_rest.len() implies #[trigger] leq(
            out_rest[p],
            out_rest[q],
        ) by {
            assert(leq(out[p + 1], out[q + 1]));
        }
        assert forall|p: int, q: int| 0 <= p < q < full_rest.len() implies #[trigger] leq(
            full_rest[p],
            full_rest[q],
        ) by {
            assert(leq(full[p + 1], full[q + 1]));
        }
        assert forall|p: int, v: T|
            0 <= p < out_rest.len() && rest.count(v) > 0 implies #[trigger] leq(
            out_rest[p],
            v,
        ) by {
            assert(leq(out[p + 1], v));
        }
        assert forall|u: T, v: T|
            full_rest.to_multiset().count(u) > 0 && full_rest.to_multiset().count(v) > 0
                && #[trigger] leq(u, v) && #[trigger] leq(v, u) implies u == v by {
            assert(full.to_multiset().count(u) > 0);
            assert(full.to_multiset().count(v) > 0);
        }
        lemma_front_unique(leq, out_rest, rest, full_rest);
        assert(out =~= front(full, out.len()));
    }
}

} // verus!
