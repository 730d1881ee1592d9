//! A heap of trees: elements are added as single-node trees, and the trees
//! are merged by order, as far as needed, only when the smallest element is
//! asked for.
use crate::model::{least, nth, put, total_preorder};
use crate::order::{callable, decides, orders, says_greater, says_not_greater};
use std::cmp::Ordering;
use std::collections::HashMap;
use vstd::multiset::Multiset;
use vstd::prelude::*;

verus! {

const DEFAULT_HEAP: usize = 16;

const DEFAULT_TREE_CAPACITY: usize = 4;

/// A tree whose root is its smallest element once it has been built by
/// merging.
#[derive(Debug)]
pub struct Tree<T> {
    node: T,
    subtrees: Option<Vec<Tree<T>>>,
}

impl<T> Tree<T> {
    /// The element at the root.
    pub closed spec fn root(self) -> T {
        self.node
    }

    /// The trees directly beneath the root, oldest first.
    pub closed spec fn children(self) -> Seq<Tree<T>> {
        match self.subtrees {
            None => Seq::empty(),
            Some(v) => v@,
        }
    }

    /// The elements of the tree, each as often as it occurs.
    pub open spec fn elements(self) -> Multiset<T>
        decreases self,
    {
        if self.children().len() == 0 {
            Multiset::singleton(self.root())
        } else {
            proof {
                broadcast use vstd::std_specs::vec::axiom_vec_decreases_to_view;
            }
            forest(self.children()).insert(self.root())
        }
    }

    /// No child's root precedes the root strictly, here and in every tree
    /// beneath.
    pub open spec fn heap_ordered(self, leq: spec_fn(T, T) -> bool) -> bool
        decreases self,
    {
        forall|i: int|
            0 <= i < self.children().len() ==> {
                proof {
                    broadcast use vstd::std_specs::vec::axiom_vec_decreases_to_view;
                    broadcast use vstd::seq::axiom_seq_index_decreases;
                }
                &&& leq(self.root(), (#[trigger] self.children()[i]).root())
                &&& self.children()[i].heap_ordered(leq)
            }
    }

    /// The tree of one element.
    pub closed spec fn leaf(data: T) -> Tree<T> {
        Tree { node: data, subtrees: None }
    }

    /// What the tree of one element holds: `data` at the root and nothing
    /// beneath.
    pub proof fn lemma_leaf(data: T)
        ensures
            Tree::leaf(data).root() == data,
            Tree::leaf(data).children() == Seq::<Tree<T>>::empty(),
            Tree::leaf(data).elements() == Multiset::singleton(data),
    {
    }

    /// A tree of one element.
    pub fn new(data: T) -> (t: Self)
        ensures
            t == Tree::leaf(data),
            t.root() == data,
            t.children() == Seq::<Tree<T>>::empty(),
    {
        Tree { node: data, subtrees: None }
    }

    /// The number of trees directly beneath the root.
    pub fn order(&self) -> (n: usize)
        ensures
            n == self.children().len(),
    {
        match self.subtrees {
            None => 0,
            Some(ref subtrees) => subtrees.len(),
        }
    }

    /// Joins two trees into one: the tree whose root compares `Greater`
    /// becomes the newest child of the other, and `self` is the joined tree.
    pub fn merge<F>(&mut self, other_tree: Tree<T>, by: F) where F: Fn(&T, &T) -> Ordering
        requires
            callable(by),
        ensures
            joins(*old(self), other_tree, *final(self)) && says_not_greater(
                by,
                old(self).root(),
                other_tree.root(),
            ) || joins(other_tree, *old(self), *final(self)) && says_greater(
                by,
                old(self).root(),
                other_tree.root(),
            ),
            forall|leq: spec_fn(T, T) -> bool|
                #[trigger] decides(by, leq) && leq(old(self).root(), other_tree.root()) ==> joins(
                    *old(self),
                    other_tree,
                    *final(self),
                ),
            forall|leq: spec_fn(T, T) -> bool|
                #[trigger] decides(by, leq) && !leq(old(self).root(), other_tree.root()) ==> joins(
                    other_tree,
                    *old(self),
                    *final(self),
                ),
    {
        let mut other_tree = other_tree;
        let o = by(&self.node, &other_tree.node);
        if matches!(o, Ordering::Greater) {
            std::mem::swap(self, &mut other_tree);
        }
        if self.subtrees.is_none() {
            self.subtrees = Some(Vec::with_capacity(DEFAULT_TREE_CAPACITY));
        }
        self.subtrees.as_mut().expect("subtrees").push(other_tree);
    }
}

impl<T> From<T> for Tree<T> {
    /// A tree of one element.
    fn from(from: T) -> (t: Tree<T>) {
        Tree::new(from)
    }
}

impl<T> vstd::std_specs::convert::FromSpecImpl<T> for Tree<T> {
    open spec fn obeys_from_spec() -> bool {
        true
    }

    open spec fn from_spec(from: T) -> Tree<T> {
        Tree::leaf(from)
    }
}

/// A heap over a comparator: `add` puts an element in, `take` hands the
/// smallest one out.
pub struct Heap<T, F> {
    /// The trees
    trees: Vec<Tree<T>>,
    /// The position of the minimum value
    min: Option<usize>,
    /// Function for determining lowest value
    by: F,
}

impl<T, F> Heap<T, F> {
    /// The trees of the heap, in the order in which they are stored.
    pub closed spec fn roots(&self) -> Seq<Tree<T>> {
        self.trees@
    }

    /// The position that is remembered as holding the smallest root, if any.
    pub closed spec fn cached(&self) -> Option<usize> {
        self.min
    }

    /// The comparator that this heap orders by.
    pub closed spec fn comparator(&self) -> F {
        self.by
    }

    /// The elements of the heap, each as often as it was added and not yet
    /// taken.
    pub open spec fn elements(&self) -> Multiset<T> {
        forest(self.roots())
    }

    /// The remembered position, if there is one, holds a root that precedes,
    /// or ties with, every other root.
    pub open spec fn settled(&self, leq: spec_fn(T, T) -> bool) -> bool {
        self.cached() matches Some(m) ==> roots_follow(
            leq,
            nth(self.roots(), m).root(),
            self.roots(),
        )
    }

    /// The comparator may be called, a remembered position lies inside the
    /// heap, and under every ordering that the comparator computes each tree
    /// is heap-ordered.
    pub closed spec fn wf(&self) -> bool where F: Fn(&T, &T) -> Ordering {
        &&& callable(self.by)
        &&& self.min matches Some(m) ==> m < self.trees.len()
        &&& forall|leq: spec_fn(T, T) -> bool| #[trigger]
            orders(self.by, leq) ==> all_heap_ordered(self.trees@, leq)
    }

    /// An empty heap that orders by `by`.
    pub fn new(by: F) -> (heap: Self) where F: Fn(&T, &T) -> Ordering
        requires
            callable(by),
        ensures
            heap.wf(),
            heap.roots() == Seq::<Tree<T>>::empty(),
            heap.cached() is None,
            heap.comparator() == by,
    {
        Heap { trees: Vec::with_capacity(DEFAULT_HEAP), min: None, by: by }
    }

    /// The number of trees, which is the number of elements only as long as
    /// nothing has been taken.
    pub fn size(&self) -> (n: usize)
        ensures
            n == self.roots().len(),
    {
        self.trees.len()
    }

    /// Puts `data` into the heap as a tree of its own. A remembered smallest
    /// root is kept up to date; with none remembered, the first tree is
    /// remembered from now on.
    pub fn add(&mut self, data: T) where F: Fn(&T, &T) -> Ordering
        requires
            old(self).wf(),
        ensures
            final(self).wf(),
            final(self).comparator() == old(self).comparator(),
            final(self).roots() == old(self).roots().push(Tree::leaf(data)),
            final(self).elements() == old(self).elements().insert(data),
            final(self).cached() is Some,
            old(self).cached() is None ==> final(self).cached() == Some(0usize),
            old(self).cached() matches Some(m) ==> final(self).cached() == Some(m)
                && says_not_greater(old(self).comparator(), nth(old(self).roots(), m).root(), data)
                || final(self).cached()->0 == old(self).roots().len() && says_greater(
                old(self).comparator(),
                nth(old(self).roots(), m).root(),
                data,
            ),
            forall|leq: spec_fn(T, T) -> bool| #[trigger]
                decides(old(self).comparator(), leq) ==> (old(self).cached() matches Some(m)
                    ==> (final(self).cached() == Some(m) <==> leq(
                    nth(old(self).roots(), m).root(),
                    data,
                ))),
            forall|leq: spec_fn(T, T) -> bool|
                #[trigger] orders(old(self).comparator(), leq) && old(self).settled(leq) && (old(
                    self,
                ).cached() is Some || old(self).roots().len() == 0) ==> final(self).settled(leq),
    {
        let ghost before = self.trees@;
        let ghost greater = false;
        match self.min {
            None => {
                self.min = Some(0);
            },
            Some(min) => {
                let o = (self.by)(&self.trees[min].node, &data);
                if matches!(o, Ordering::Greater) {
                    self.min = Some(self.trees.len());
                    proof {
                        greater = true;
                    }
                }
                assert forall|leq: spec_fn(T, T) -> bool| #[trigger]
                    decides(self.by, leq) implies (leq(nth(before, min).root(), data)
                    <==> !greater) by {
                    assert(self.by.ensures((&nth(before, min).root(), &data), o));
                }
            },
        }
        self.trees.push(data.into());
        proof {
            broadcast use vstd::multiset::group_multiset_axioms;

            lemma_forest_push(before, Tree::leaf(data));
            assert(forest(self.trees@) =~= forest(before).insert(data));
            assert forall|leq: spec_fn(T, T) -> bool|
                #[trigger] orders(self.by, leq) && old(self).settled(leq) && (old(self).cached()
                    is Some || before.len() == 0) implies self.settled(leq) by {
                let top = nth(self.trees@, self.min->0).root();
                assert(leq(data, data));
                if old(self).cached() is Some {
                    let m = old(self).cached()->0;
                    let low = nth(before, m).root();
                    assert(leq(low, data) <==> !greater);
                    assert(leq(top, low));
                    assert(leq(top, data));
                    assert forall|i: int| 0 <= i < self.trees@.len() implies leq(
                        top,
                        (#[trigger] self.trees@[i]).root(),
                    ) by {
                        if i < before.len() {
                            assert(leq(low, before[i].root()));
                        }
                    }
                }
            }
        }
    }

    /// Hands out the element at the root of the remembered tree, or, with
    /// none remembered, of the tree with the smallest root, which is looked
    /// for first. The children of that tree become trees of the heap.
    pub fn take(&mut self) -> (r: Option<T>) where F: Fn(&T, &T) -> Ordering
        requires
            old(self).wf(),
        ensures
            final(self).wf(),
            final(self).comparator() == old(self).comparator(),
            r is None <==> old(self).roots().len() == 0,
            r is None ==> final(self).roots() == old(self).roots() && final(self).cached() == old(
                self,
            ).cached(),
            r matches Some(x) ==> old(self).elements() == final(self).elements().insert(x)
                && final(self).cached() is None,
            old(self).cached() matches Some(m) ==> r == Some(nth(old(self).roots(), m).root())
                && taken_out(old(self).roots(), m, final(self).roots()),
            forall|leq: spec_fn(T, T) -> bool|
                #[trigger] orders(old(self).comparator(), leq) && old(self).settled(leq) ==> (
                r matches Some(x) ==> least(leq, x, old(self).elements())),
    {
        if self.min.is_none() {
            let success = self.find_min();
            if !success {
                return None;
            }
        }
        let ghost before = self.trees@;
        let ghost at = self.min->0;
        let ghost ready = *self;
        let mut lowest_tree = self.trees.swap_remove(self.min.expect("min val"));
        let ghost lowest = lowest_tree;
        match lowest_tree.subtrees {
            None => (),
            Some(ref mut subtrees) => {
                self.trees.append(subtrees);
            },
        }
        self.min = None;
        proof {
            lemma_taken_out(before, at, self.trees@);
            assert forall|leq: spec_fn(T, T) -> bool| #[trigger]
                orders(self.by, leq) implies all_heap_ordered(self.trees@, leq) by {
                lemma_taken_ordered(leq, before, at, self.trees@);
            }
            assert forall|leq: spec_fn(T, T) -> bool|
                #[trigger] orders(self.by, leq) && old(self).settled(leq) implies least(
                leq,
                lowest.root(),
                forest(before),
            ) by {
                assert(ready.settled(leq));
                lemma_settled_least(leq, before, at);
            }
            assert(self.by == old(self).comparator());
        }
        Some(lowest_tree.node)
    }

    /// Looks for the smallest root, merging trees of equal order on the way,
    /// and remembers where it is. Reports whether the heap holds anything.
    fn find_min(&mut self) -> (found: bool) where F: Fn(&T, &T) -> Ordering
        requires
            old(self).wf(),
        ensures
            final(self).wf(),
            final(self).comparator() == old(self).comparator(),
            found == (old(self).roots().len() > 0),
            !found ==> final(self).roots() == old(self).roots() && final(self).cached() == old(
                self,
            ).cached(),
            found ==> final(self).cached() is Some && final(self).roots().len() > 0,
            final(self).elements() == old(self).elements(),
            forall|leq: spec_fn(T, T) -> bool| #[trigger]
                orders(old(self).comparator(), leq) ==> final(self).settled(leq),
    {
        if self.trees.len() == 0 {
            return false;
        }
        let mut prev_pos: HashMap<usize, usize> = HashMap::new();
        let mut idx: usize = 0;
        let mut min: usize = 0;
        loop
            invariant_except_break
                idx < self.trees.len(),
            invariant
                self.by == old(self).by,
                callable(self.by),
                idx <= self.trees.len(),
                0 < self.trees.len(),
                idx == 0 ==> min == 0 && prev_pos@ == Map::<usize, usize>::empty(),
                idx > 0 ==> min < idx,
                forall|o: usize| #[trigger]
                    prev_pos@.contains_key(o) ==> prev_pos@[o] < idx && nth(
                        self.trees@,
                        prev_pos@[o],
                    ).children().len() == o,
                forall|o1: usize, o2: usize|
                    prev_pos@.contains_key(o1) && prev_pos@.contains_key(o2) && o1 != o2
                        ==> #[trigger] prev_pos@[o1] != #[trigger] prev_pos@[o2],
                forest(self.trees@) == forest(old(self).trees@),
                forall|leq: spec_fn(T, T) -> bool| #[trigger]
                    orders(self.by, leq) ==> all_heap_ordered(self.trees@, leq)
                        && first_roots_follow(
                        leq,
                        nth(self.trees@, min).root(),
                        self.trees@,
                        idx,
                    ),
            ensures
                0 < idx,
                idx >= self.trees.len(),
            decreases self.trees.len() - idx,
        {
            broadcast use vstd::std_specs::hash::group_hash_axioms;

            let ghost start = self.trees@;
            let ghost low = min;
            let order = self.trees[idx].order();
            if prev_pos.contains_key(&order) {
                let pos: usize = prev_pos.remove(&order).expect("pos");
                let idx_tree = self.trees.swap_remove(idx);
                let ghost moved = self.trees@;
                self.trees[pos].merge(idx_tree, &self.by);
                proof {
                    lemma_children_bounded(nth(self.trees@, pos));
                }
                prev_pos.insert(order + 1, pos);
                let o = (self.by)(&self.trees[min].node, &self.trees[pos].node);
                if matches!(o, Ordering::Greater) {
                    min = pos;
                }
                proof {
                    lemma_merged_in(start, moved, self.trees@, idx, pos);
                    assert forall|leq: spec_fn(T, T) -> bool| #[trigger]
                        orders(self.by, leq) implies all_heap_ordered(self.trees@, leq)
                        && first_roots_follow(
                        leq,
                        nth(self.trees@, min).root(),
                        self.trees@,
                        idx,
                    ) by {
                        assert(self.by.ensures(
                            (&nth(self.trees@, low).root(), &nth(self.trees@, pos).root()),
                            o,
                        ));
                        assert(decides::<T, &F>(&self.by, leq));
                        assert(nth(moved, pos) == nth(start, pos));
                        lemma_merged_ordered(leq, start, moved, self.trees@, idx, pos, low, min);
                    }
                }
            } else {
                let ghost at = idx;
                prev_pos.insert(order, idx);
                let o = (self.by)(&self.trees[min].node, &self.trees[idx].node);
                if matches!(o, Ordering::Greater) {
                    min = idx;
                }
                idx += 1;
                proof {
                    assert forall|leq: spec_fn(T, T) -> bool| #[trigger]
                        orders(self.by, leq) implies first_roots_follow(
                        leq,
                        nth(self.trees@, min).root(),
                        self.trees@,
                        idx,
                    ) by {
                        assert(self.by.ensures(
                            (&nth(start, low).root(), &nth(start, at).root()),
                            o,
                        ));
                        lemma_visited_one_more(leq, start, at, low, min);
                    }
                }
            }
            if idx >= self.trees.len() {
                break ;
            }
        }
        self.min = Some(min);
        true
    }
}

/// `joined` is `winner` with `loser` as its newest child.
pub open spec fn joins<T>(winner: Tree<T>, loser: Tree<T>, joined: Tree<T>) -> bool {
    joined.root() == winner.root() && joined.children() == winner.children().push(loser)
}

/// The elements of all trees of a forest together.
pub open spec fn forest<T>(ts: Seq<Tree<T>>) -> Multiset<T>
    decreases ts,
{
    if ts.len() == 0 {
        Multiset::empty()
    } else {
        proof {
            broadcast use vstd::seq::axiom_seq_index_decreases;
            broadcast use vstd::seq::axiom_seq_subrange_decreases;
        }
        forest(ts.drop_last()).add(ts.last().elements())
    }
}

/// Every tree of a forest is heap-ordered.
pub open spec fn all_heap_ordered<T>(ts: Seq<Tree<T>>, leq: spec_fn(T, T) -> bool) -> bool {
    forall|i: int| 0 <= i < ts.len() ==> (#[trigger] ts[i]).heap_ordered(leq)
}

/// `x` precedes, or ties with, the root of every tree of a forest.
pub open spec fn roots_follow<T>(leq: spec_fn(T, T) -> bool, x: T, ts: Seq<Tree<T>>) -> bool {
    forall|i: int| 0 <= i < ts.len() ==> leq(x, (#[trigger] ts[i]).root())
}

/// A forest with one more tree holds the elements of that tree as well.
pub proof fn lemma_forest_push<T>(ts: Seq<Tree<T>>, t: Tree<T>)
    ensures
        forest(ts.push(t)) == forest(ts).add(t.elements()),
{
    assert(ts.push(t).drop_last() =~= ts);
}

/// Replacing a tree of a forest replaces its elements.
pub proof fn lemma_forest_update<T>(ts: Seq<Tree<T>>, i: usize, t: Tree<T>)
    requires
        i < ts.len(),
    ensures
        forest(put(ts, i, t)).add(nth(ts, i).elements()) == forest(ts).add(t.elements()),
    decreases ts.len(),
{
    broadcast use vstd::multiset::group_multiset_axioms;

    let changed = put(ts, i, t);
    assert(forest(ts) == forest(ts.drop_last()).add(ts.last().elements()));
    assert(forest(changed) == forest(changed.drop_last()).add(changed.last().elements()));
    if i == ts.len() - 1 {
        assert(changed.drop_last() =~= ts.drop_last());
    } else {
        lemma_forest_update(ts.drop_last(), i, t);
        assert(changed.drop_last() =~= put(ts.drop_last(), i, t));
        assert(nth(ts.drop_last(), i) == nth(ts, i));
        let less = forest(changed.drop_last()).add(nth(ts, i).elements());
        let more = forest(ts.drop_last()).add(t.elements());
        assert forall|v: T| forest(changed).add(nth(ts, i).elements()).count(v) == forest(ts).add(
            t.elements(),
        ).count(v) by {
            assert(less.count(v) == more.count(v));
        }
    }
    assert(forest(changed).add(nth(ts, i).elements()) =~= forest(ts).add(t.elements()));
}

/// Two forests put together hold the elements of both.
pub proof fn lemma_forest_concat<T>(a: Seq<Tree<T>>, b: Seq<Tree<T>>)
    ensures
        forest(a + b) == forest(a).add(forest(b)),
    decreases b.len(),
{
    broadcast use vstd::multiset::group_multiset_axioms;

    if b.len() == 0 {
        assert(a + b =~= a);
    } else {
        lemma_forest_concat(a, b.drop_last());
        assert((a + b).drop_last() =~= a + b.drop_last());
    }
    assert(forest(a + b) =~= forest(a).add(forest(b)));
}

/// Taking the tree at `i` out of a forest, with the last tree moved into its
/// place, takes out the elements of that tree.
pub proof fn lemma_forest_swap_remove<T>(ts: Seq<Tree<T>>, i: usize)
    requires
        i < ts.len(),
    ensures
        forest(put(ts, i, ts.last()).drop_last()).add(nth(ts, i).elements()) == forest(ts),
{
    broadcast use vstd::multiset::group_multiset_axioms;

    let moved = put(ts, i, ts.last());
    lemma_forest_update(ts, i, ts.last());
    assert(moved.last() == ts.last());
    assert(forest(moved) == forest(moved.drop_last()).add(moved.last().elements()));
    let less = forest(moved).add(nth(ts, i).elements());
    let more = forest(ts).add(ts.last().elements());
    assert forall|v: T| forest(moved.drop_last()).add(nth(ts, i).elements()).count(v) == forest(
        ts,
    ).count(v) by {
        assert(less.count(v) == more.count(v));
    }
    assert(forest(moved.drop_last()).add(nth(ts, i).elements()) =~= forest(ts));
}

/// An element of a forest is an element of one of its trees.
pub proof fn lemma_forest_member<T>(ts: Seq<Tree<T>>, y: T) -> (i: int)
    requires
        forest(ts).count(y) > 0,
    ensures
        0 <= i < ts.len(),
        ts[i].elements().count(y) > 0,
    decreases ts.len(),
{
    broadcast use vstd::multiset::group_multiset_axioms;

    if ts.last().elements().count(y) > 0 {
        ts.len() - 1
    } else {
        lemma_forest_member(ts.drop_last(), y)
    }
}

/// The root of a heap-ordered tree is least of its elements.
pub proof fn lemma_root_least<T>(t: Tree<T>, leq: spec_fn(T, T) -> bool)
    requires
        total_preorder(leq),
        t.heap_ordered(leq),
    ensures
        least(leq, t.root(), t.elements()),
    decreases t,
{
    broadcast use vstd::multiset::group_multiset_axioms;

    assert forall|y: T| t.elements().count(y) > 0 implies #[trigger] leq(t.root(), y) by {
        if y != t.root() {
            let i = lemma_forest_member(t.children(), y);
            let child = t.children()[i];
            assert(decreases_to!(t => child)) by {
                broadcast use vstd::std_specs::vec::axiom_vec_decreases_to_view;
                broadcast use vstd::seq::axiom_seq_index_decreases;

            }
            lemma_root_least(child, leq);
            assert(leq(child.root(), y));
        }
    }
}

/// Joining two heap-ordered trees under the root that precedes the other
/// gives a heap-ordered tree with the elements of both.
pub proof fn lemma_joins<T>(
    leq: spec_fn(T, T) -> bool,
    winner: Tree<T>,
    loser: Tree<T>,
    joined: Tree<T>,
)
    requires
        joins(winner, loser, joined),
    ensures
        joined.elements() == winner.elements().add(loser.elements()),
        winner.heap_ordered(leq) && loser.heap_ordered(leq) && leq(winner.root(), loser.root())
            ==> joined.heap_ordered(leq),
{
    broadcast use vstd::multiset::group_multiset_axioms;

    lemma_forest_push(winner.children(), loser);
    assert(joined.elements() =~= winner.elements().add(loser.elements()));
}

/// `x` precedes, or ties with, the root of each of the first `n` trees.
pub open spec fn first_roots_follow<T>(
    leq: spec_fn(T, T) -> bool,
    x: T,
    ts: Seq<Tree<T>>,
    n: usize,
) -> bool {
    forall|i: int| 0 <= i < n && i < ts.len() ==> leq(x, (#[trigger] ts[i]).root())
}

/// The forest after the tree at `idx` was taken out, with the last tree
/// moved into its place, and joined with the tree at `pos`.
pub open spec fn merged_in<T>(
    start: Seq<Tree<T>>,
    moved: Seq<Tree<T>>,
    after: Seq<Tree<T>>,
    idx: usize,
    pos: usize,
) -> bool {
    &&& pos < idx < start.len()
    &&& moved == start.update(idx as int, start.last()).drop_last()
    &&& after == moved.update(pos as int, after[pos as int])
    &&& after.len() == moved.len()
    &&& joins(start[pos as int], start[idx as int], after[pos as int]) || joins(
        start[idx as int],
        start[pos as int],
        after[pos as int],
    )
}

/// Joining one tree of a forest with another keeps the elements.
pub proof fn lemma_merged_in<T>(
    start: Seq<Tree<T>>,
    moved: Seq<Tree<T>>,
    after: Seq<Tree<T>>,
    idx: usize,
    pos: usize,
)
    requires
        merged_in(start, moved, after, idx, pos),
    ensures
        forest(after) == forest(start),
{
    broadcast use vstd::multiset::group_multiset_axioms;

    let joined = nth(after, pos);
    let gone = nth(start, idx);
    let kept = nth(start, pos);
    lemma_forest_swap_remove(start, idx);
    lemma_forest_update(moved, pos, joined);
    assert(nth(moved, pos) == kept);
    if joins(kept, gone, joined) {
        lemma_joins(|a: T, b: T| true, kept, gone, joined);
    } else {
        lemma_joins(|a: T, b: T| true, gone, kept, joined);
    }
    let with_gone = forest(moved).add(gone.elements());
    let with_kept = forest(after).add(kept.elements());
    let with_joined = forest(moved).add(joined.elements());
    assert forall|v: T| forest(after).count(v) == forest(start).count(v) by {
        assert(with_gone.count(v) == forest(start).count(v));
        assert(with_kept.count(v) == with_joined.count(v));
    }
    assert(forest(after) =~= forest(start));
}

/// After a join the forest is still heap-ordered, and the smaller of the
/// old smallest root and the joined root precedes all roots seen so far.
pub proof fn lemma_merged_ordered<T>(
    leq: spec_fn(T, T) -> bool,
    start: Seq<Tree<T>>,
    moved: Seq<Tree<T>>,
    after: Seq<Tree<T>>,
    idx: usize,
    pos: usize,
    low: usize,
    min: usize,
)
    requires
        total_preorder(leq),
        merged_in(start, moved, after, idx, pos),
        all_heap_ordered(start, leq),
        low < idx,
        first_roots_follow(leq, start[low as int].root(), start, idx),
        leq(start[pos as int].root(), start[idx as int].root()) ==> joins(
            start[pos as int],
            start[idx as int],
            after[pos as int],
        ),
        !leq(start[pos as int].root(), start[idx as int].root()) ==> joins(
            start[idx as int],
            start[pos as int],
            after[pos as int],
        ),
        min == low || min == pos,
        min == low <==> leq(after[low as int].root(), after[pos as int].root()),
    ensures
        all_heap_ordered(after, leq),
        first_roots_follow(leq, after[min as int].root(), after, idx),
{
    let joined = after[pos as int];
    let gone = start[idx as int];
    let kept = start[pos as int];
    assert(moved[pos as int] == kept);
    assert(leq(kept.root(), gone.root()) || leq(gone.root(), kept.root()));
    if leq(kept.root(), gone.root()) {
        lemma_joins(leq, kept, gone, joined);
    } else {
        lemma_joins(leq, gone, kept, joined);
    }
    assert forall|i: int| 0 <= i < after.len() implies (#[trigger] after[i]).heap_ordered(leq) by {
        if i != pos {
            assert(after[i] == moved[i]);
            if i == idx {
                assert(moved[i] == start.last());
            } else {
                assert(moved[i] == start[i]);
            }
        }
    }
    let old_low = start[low as int].root();
    let new_low = after[min as int].root();
    assert(leq(joined.root(), kept.root())) by {
        assert(leq(kept.root(), kept.root()));
    }
    assert(leq(old_low, kept.root()));
    assert(leq(new_low, old_low)) by {
        assert(leq(old_low, old_low));
        if low == pos {
            assert(leq(joined.root(), joined.root()));
        } else {
            assert(after[low as int] == start[low as int]);
            assert(leq(old_low, joined.root()) || leq(joined.root(), old_low));
        }
    }
    assert forall|i: int| 0 <= i < idx && i < after.len() implies leq(
        new_low,
        (#[trigger] after[i]).root(),
    ) by {
        if i == pos {
            assert(leq(new_low, joined.root())) by {
                assert(leq(joined.root(), joined.root()));
            }
        } else {
            assert(after[i] == start[i]);
            assert(leq(old_low, start[i].root()));
        }
    }
}

/// With one more root compared against the smallest seen so far, the
/// smaller of the two precedes all roots seen.
pub proof fn lemma_visited_one_more<T>(
    leq: spec_fn(T, T) -> bool,
    ts: Seq<Tree<T>>,
    at: usize,
    low: usize,
    min: usize,
)
    requires
        total_preorder(leq),
        at < ts.len(),
        low <= at,
        first_roots_follow(leq, ts[low as int].root(), ts, at),
        min == low || min == at,
        min == low <==> leq(ts[low as int].root(), ts[at as int].root()),
    ensures
        first_roots_follow(leq, ts[min as int].root(), ts, (at + 1) as usize),
{
    let old_low = ts[low as int].root();
    let new_low = ts[min as int].root();
    assert(leq(old_low, old_low));
    assert(leq(new_low, new_low));
    assert(leq(old_low, ts[at as int].root()) || leq(ts[at as int].root(), old_low));
    assert(leq(new_low, old_low));
    assert forall|i: int| 0 <= i < at + 1 && i < ts.len() implies leq(
        new_low,
        (#[trigger] ts[i]).root(),
    ) by {
        if i < at {
            assert(leq(old_low, ts[i].root()));
        }
    }
}

/// The forest after the tree at `at` was taken out, with the last tree
/// moved into its place, and its children were put at the end.
pub open spec fn taken_out<T>(before: Seq<Tree<T>>, at: usize, after: Seq<Tree<T>>) -> bool {
    at < before.len() && after == put(before, at, before.last()).drop_last() + nth(
        before,
        at,
    ).children()
}

/// Taking a tree out and keeping its children takes out its root only.
pub proof fn lemma_taken_out<T>(before: Seq<Tree<T>>, at: usize, after: Seq<Tree<T>>)
    requires
        taken_out(before, at, after),
    ensures
        forest(before) == forest(after).insert(nth(before, at).root()),
{
    broadcast use vstd::multiset::group_multiset_axioms;

    let lowest = nth(before, at);
    let rest = put(before, at, before.last()).drop_last();
    lemma_forest_swap_remove(before, at);
    lemma_forest_concat(rest, lowest.children());
    let whole = forest(rest).add(lowest.elements());
    assert forall|v: T| forest(before).count(v) == forest(after).insert(lowest.root()).count(
        v,
    ) by {
        assert(whole.count(v) == forest(before).count(v));
    }
    assert(forest(before) =~= forest(after).insert(lowest.root()));
}

/// Taking a tree out of a heap-ordered forest and keeping its children
/// leaves a heap-ordered forest.
pub proof fn lemma_taken_ordered<T>(
    leq: spec_fn(T, T) -> bool,
    before: Seq<Tree<T>>,
    at: usize,
    after: Seq<Tree<T>>,
)
    requires
        taken_out(before, at, after),
        all_heap_ordered(before, leq),
    ensures
        all_heap_ordered(after, leq),
{
    let lowest = nth(before, at);
    let rest = put(before, at, before.last()).drop_last();
    assert(lowest.heap_ordered(leq));
    assert forall|i: int| 0 <= i < after.len() implies (#[trigger] after[i]).heap_ordered(leq) by {
        if i < rest.len() {
            assert(after[i] == rest[i]);
            if i == at {
                assert(rest[i] == before.last());
            } else {
                assert(rest[i] == before[i]);
            }
        } else {
            assert(after[i] == lowest.children()[i - rest.len()]);
        }
    }
}

/// In a heap-ordered forest, a root that precedes all roots is least of all
/// elements.
pub proof fn lemma_settled_least<T>(leq: spec_fn(T, T) -> bool, ts: Seq<Tree<T>>, at: usize)
    requires
        total_preorder(leq),
        at < ts.len(),
        all_heap_ordered(ts, leq),
        roots_follow(leq, nth(ts, at).root(), ts),
    ensures
        least(leq, nth(ts, at).root(), forest(ts)),
{
    let x = nth(ts, at).root();
    assert forall|y: T| forest(ts).count(y) > 0 implies #[trigger] leq(x, y) by {
        let i = lemma_forest_member(ts, y);
        lemma_root_least(ts[i], leq);
        assert(leq(x, ts[i].root()));
        assert(leq(ts[i].root(), y));
    }
}

/// A tree has no more children than a vector can hold.
pub proof fn lemma_children_bounded<T>(t: Tree<T>)
    ensures
        t.children().len() <= usize::MAX,
{
    broadcast use vstd::std_specs::vec::axiom_spec_len;

    match t.subtrees {
        None => {},
        Some(v) => {
            assert(v.len() == v@.len());
        },
    }
}

} // verus!
