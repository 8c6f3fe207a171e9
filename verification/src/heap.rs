//! A binary min-heap in a `Vec`.

use crate::cloning::clones_of;
use crate::order::{lemma_leq_refl, lemma_leq_total, lemma_leq_trans, leq, not_greater, total_order};
use crate::selection::is_least;
use vstd::multiset::Multiset;
use vstd::prelude::*;
use vstd::seq_lib::{to_multiset_build, to_multiset_contains, to_multiset_len, to_multiset_remove, to_multiset_update};

verus! {

/// Position of the parent of position `i` in the tree that a heap lays out in
/// a sequence.
spec fn parent(i: int) -> int {
    (i - 1) / 2
}

/// The item at `i` is not smaller than the item at its parent.
spec fn above_parent<T: Ord>(s: Seq<T>, i: int) -> bool {
    leq(s[parent(i)], s[i])
}

/// Min-heap order: no item is smaller than its parent.
spec fn heap_ordered<T: Ord>(s: Seq<T>) -> bool {
    forall|i: int| 0 < i < s.len() ==> #[trigger] above_parent(s, i)
}

/// The item at `i` is not smaller than the item two levels up.
spec fn above_grandparent<T: Ord>(s: Seq<T>, i: int) -> bool {
    leq(s[parent(parent(i))], s[i])
}

/// Heap order but between `pos` and its parent; the children of `pos` are
/// already in order with that parent.
spec fn ordered_but_above<T: Ord>(s: Seq<T>, pos: int) -> bool {
    &&& forall|i: int| 0 < i < s.len() && i != pos ==> #[trigger] above_parent(s, i)
    &&& forall|i: int|
        0 < i < s.len() && parent(i) == pos && pos > 0 ==> #[trigger] above_grandparent(s, i)
}

/// Heap order but between `pos` and its children; the children of `pos` are
/// already in order with the parent of `pos`.
spec fn ordered_but_below<T: Ord>(s: Seq<T>, pos: int) -> bool {
    &&& forall|i: int| 0 < i < s.len() && parent(i) != pos ==> #[trigger] above_parent(s, i)
    &&& forall|i: int|
        0 < i < s.len() && parent(i) == pos && pos > 0 ==> #[trigger] above_grandparent(s, i)
}

/// `s` with the items at `i` and `j` exchanged.
spec fn exchanged<T>(s: Seq<T>, i: int, j: int) -> Seq<T> {
    s.update(i, s[j]).update(j, s[i])
}

proof fn lemma_exchanged_multiset<T>(s: Seq<T>, i: int, j: int)
    requires
        0 <= i < s.len(),
        0 <= j < s.len(),
        i != j,
    ensures
        exchanged(s, i, j).to_multiset() == s.to_multiset(),
{
    broadcast use vstd::multiset::group_multiset_axioms;

    let t = s.update(i, s[j]);
    to_multiset_update(s, i, s[j]);
    to_multiset_update(t, j, s[i]);
    to_multiset_contains(s, s[i]);
    to_multiset_contains(s, s[j]);
}

/// In heap order the first item is a least one.
proof fn lemma_first_is_least<T: Ord>(s: Seq<T>, i: int)
    requires
        total_order::<T>(),
        heap_ordered(s),
        0 <= i < s.len(),
    ensures
        leq(s[0], s[i]),
    decreases i,
{
    if i == 0 {
        lemma_leq_refl(s[0]);
    } else {
        lemma_first_is_least(s, parent(i));
        assert(above_parent(s, i));
        lemma_leq_trans(s[0], s[parent(i)], s[i]);
    }
}

proof fn lemma_first_is_least_of_all<T: Ord>(s: Seq<T>)
    requires
        total_order::<T>(),
        heap_ordered(s),
        s.len() > 0,
    ensures
        is_least(s[0], s.to_multiset()),
{
    to_multiset_contains(s, s[0]);
    assert forall|y: T| s.to_multiset().contains(y) implies leq(s[0], y) by {
        to_multiset_contains(s, y);
        let i = choose|i: int| 0 <= i < s.len() && s[i] == y;
        lemma_first_is_least(s, i);
    }
}

/// An item out of order with its parent changes places with it; the order is
/// then broken at most one level further up.
proof fn lemma_step_up<T: Ord>(s: Seq<T>, pos: int)
    requires
        total_order::<T>(),
        0 < pos < s.len(),
        ordered_but_above(s, pos),
        !leq(s[parent(pos)], s[pos]),
    ensures
        ordered_but_above(exchanged(s, parent(pos), pos), parent(pos)),
{
    let up = parent(pos);
    let t = exchanged(s, up, pos);
    lemma_leq_total(s[up], s[pos]);
    assert forall|i: int| 0 < i < t.len() && i != up implies #[trigger] above_parent(t, i) by {
        if i == pos {
            // the two items that changed places
        } else if parent(i) == pos {
            // a child of `pos` now sits under what was its grandparent
            assert(above_grandparent(s, i));
        } else if parent(i) == up {
            // the other child of `up` now sits under the smaller item
            assert(above_parent(s, i));
            lemma_leq_trans(s[pos], s[up], s[i]);
        } else {
            assert(above_parent(s, i));
        }
    }
    assert forall|i: int| 0 < i < t.len() && parent(i) == up && up > 0 implies #[trigger] above_grandparent(
        t,
        i,
    ) by {
        assert(above_parent(s, up));
        if i != pos {
            assert(above_parent(s, i));
            lemma_leq_trans(s[parent(up)], s[up], s[i]);
        }
    }
}

proof fn lemma_settled_above<T: Ord>(s: Seq<T>, pos: int)
    requires
        0 <= pos < s.len(),
        ordered_but_above(s, pos),
        pos == 0 || leq(s[parent(pos)], s[pos]),
    ensures
        heap_ordered(s),
{
}

/// An item out of order with its smaller child changes places with it; the
/// order is then broken at most one level further down.
proof fn lemma_step_down<T: Ord>(s: Seq<T>, pos: int, child: int)
    requires
        total_order::<T>(),
        0 <= pos < child < s.len(),
        parent(child) == pos,
        ordered_but_below(s, pos),
        forall|i: int| 0 < i < s.len() && parent(i) == pos ==> leq(s[child], #[trigger] s[i]),
        !leq(s[pos], s[child]),
    ensures
        ordered_but_below(exchanged(s, pos, child), child),
{
    let t = exchanged(s, pos, child);
    lemma_leq_total(s[pos], s[child]);
    assert forall|i: int| 0 < i < t.len() && parent(i) != child implies #[trigger] above_parent(
        t,
        i,
    ) by {
        if i == pos {
            // the smaller child now sits under what was its grandparent
            assert(above_grandparent(s, child));
        } else if i != child && parent(i) != pos {
            assert(above_parent(s, i));
        }
    }
    assert forall|i: int| 0 < i < t.len() && parent(i) == child && child > 0 implies #[trigger] above_grandparent(
        t,
        i,
    ) by {
        assert(above_parent(s, i));
    }
}

proof fn lemma_settled_below<T: Ord>(s: Seq<T>, pos: int)
    requires
        total_order::<T>(),
        0 <= pos < s.len(),
        ordered_but_below(s, pos),
        forall|i: int| 0 < i < s.len() && parent(i) == pos ==> leq(s[pos], #[trigger] s[i]),
    ensures
        heap_ordered(s),
{
}

/// Exchanges the items at `i` and `j`. `Vec` has no contract for an exchange
/// of two of its slots, so the items travel through its last slot.
fn exchange<T>(v: &mut Vec<T>, i: usize, j: usize)
    requires
        i < j < old(v).len(),
    ensures
        final(v)@ == exchanged(old(v)@, i as int, j as int),
        final(v)@.to_multiset() == old(v)@.to_multiset(),
{
    let mut held = v.swap_remove(j);
    v.set_and_swap(i, &mut held);
    v.push(held);
    if j + 1 < v.len() {
        let tail = v.swap_remove(j);
        v.push(tail);
    }
    proof {
        lemma_exchanged_multiset(old(v)@, i as int, j as int);
    }
}

/// Moves the item at `start` up until its parent is not greater.
fn sift_up<T: Ord>(v: &mut Vec<T>, start: usize)
    requires
        start < old(v).len(),
        total_order::<T>() ==> ordered_but_above(old(v)@, start as int),
    ensures
        final(v)@.len() == old(v)@.len(),
        final(v)@.to_multiset() == old(v)@.to_multiset(),
        total_order::<T>() ==> heap_ordered(final(v)@),
{
    let mut pos = start;
    while pos > 0
        invariant
            pos < v.len(),
            v@.len() == old(v)@.len(),
            v@.to_multiset() == old(v)@.to_multiset(),
            total_order::<T>() ==> ordered_but_above(v@, pos as int),
        decreases pos,
    {
        let up = (pos - 1) / 2;
        if not_greater(&v[up], &v[pos]) {
            proof {
                if total_order::<T>() {
                    lemma_settled_above(v@, pos as int);
                }
            }
            return ;
        }
        proof {
            if total_order::<T>() {
                lemma_step_up(v@, pos as int);
            }
        }
        exchange(v, up, pos);
        pos = up;
    }
    proof {
        if total_order::<T>() {
            lemma_settled_above(v@, pos as int);
        }
    }
}

/// Moves the item at `start` down until no child is smaller.
fn sift_down<T: Ord>(v: &mut Vec<T>, start: usize)
    requires
        start < old(v).len(),
        total_order::<T>() ==> ordered_but_below(old(v)@, start as int),
    ensures
        final(v)@.len() == old(v)@.len(),
        final(v)@.to_multiset() == old(v)@.to_multiset(),
        total_order::<T>() ==> heap_ordered(final(v)@),
{
    let n = v.len();
    let mut pos = start;
    while pos < n / 2
        invariant
            pos < n,
            n == v.len(),
            v@.len() == old(v)@.len(),
            v@.to_multiset() == old(v)@.to_multiset(),
            total_order::<T>() ==> ordered_but_below(v@, pos as int),
        decreases n - pos,
    {
        let left = 2 * pos + 1;
        let right = left + 1;
        let child = if right < n && !not_greater(&v[left], &v[right]) {
            right
        } else {
            left
        };
        proof {
            // `child` is a least child of `pos`
            if total_order::<T>() {
                lemma_leq_refl(v@[child as int]);
                if right < n {
                    lemma_leq_total(v@[left as int], v@[right as int]);
                }
                assert forall|i: int| 0 < i < v@.len() && parent(i) == pos implies leq(
                    v@[child as int],
                    #[trigger] v@[i],
                ) by {}
            }
        }
        if not_greater(&v[pos], &v[child]) {
            proof {
                if total_order::<T>() {
                    assert forall|i: int| 0 < i < v@.len() && parent(i) == pos implies leq(
                        v@[pos as int],
                        #[trigger] v@[i],
                    ) by {
                        lemma_leq_trans(v@[pos as int], v@[child as int], v@[i]);
                    }
                    lemma_settled_below(v@, pos as int);
                }
            }
            return ;
        }
        proof {
            if total_order::<T>() {
                lemma_step_down(v@, pos as int, child as int);
            }
        }
        exchange(v, pos, child);
        pos = child;
    }
    proof {
        if total_order::<T>() {
            lemma_settled_below(v@, pos as int);
        }
    }
}

/// A priority queue that hands out its least item first. Items that compare
/// equal are all kept.
pub struct MinHeap<T> {
    items: Vec<T>,
}

impl<T> View for MinHeap<T> {
    type V = Multiset<T>;

    /// The items held, each as often as it was pushed and not yet popped.
    open spec fn view(&self) -> Multiset<T> {
        self.layout().to_multiset()
    }
}

impl<T> MinHeap<T> {
    /// The items in the order in which the heap stores them.
    pub closed spec fn layout(&self) -> Seq<T> {
        self.items@
    }

    /// The number of items held.
    pub fn len(&self) -> (n: usize)
        ensures
            n == self.layout().len(),
            n == self@.len(),
    {
        proof {
            to_multiset_len(self.items@);
        }
        self.items.len()
    }
}

impl<T: Ord> MinHeap<T> {
    /// Under a total order the stored items are in heap order.
    pub closed spec fn wf(&self) -> bool {
        total_order::<T>() ==> heap_ordered(self.items@)
    }

    /// Whether a heap is well formed depends on its layout alone.
    pub proof fn lemma_wf_of_layout(self, other: Self)
        requires
            self.wf(),
            other.layout() == self.layout(),
        ensures
            other.wf(),
    {
    }

    /// An empty heap with room for `capacity` items.
    pub fn with_capacity(capacity: usize) -> (heap: Self)
        ensures
            heap.wf(),
            heap.layout() == Seq::<T>::empty(),
    {
        MinHeap { items: Vec::with_capacity(capacity) }
    }

    /// Adds `item`.
    pub fn push(&mut self, item: T)
        requires
            old(self).wf(),
        ensures
            final(self).wf(),
            final(self)@ == old(self)@.insert(item),
            final(self).layout().len() == old(self).layout().len() + 1,
    {
        self.items.push(item);
        let last = self.items.len() - 1;
        proof {
            to_multiset_build(old(self).items@, item);
            if total_order::<T>() {
                let s = old(self).items@;
                let t = self.items@;
                assert forall|i: int| 0 < i < t.len() && i != last implies #[trigger] above_parent(
                    t,
                    i,
                ) by {
                    assert(above_parent(s, i));
                }
            }
        }
        sift_up(&mut self.items, last);
    }

    /// Removes a least item and returns it; `None` where the heap is empty.
    pub fn pop(&mut self) -> (least: Option<T>)
        requires
            old(self).wf(),
        ensures
            final(self).wf(),
            match least {
                None => old(self).layout().len() == 0 && final(self).layout() == old(self).layout(),
                Some(m) => {
                    &&& old(self)@.contains(m)
                    &&& final(self)@ == old(self)@.remove(m)
                    &&& final(self).layout().len() == old(self).layout().len() - 1
                    &&& total_order::<T>() ==> is_least(m, old(self)@)
                },
            },
    {
        if self.items.len() == 0 {
            return None;
        }
        let least = self.items.swap_remove(0);
        proof {
            broadcast use vstd::multiset::group_multiset_axioms;

            let s = old(self).items@;
            let u = s.update(0, s.last());
            let t = self.items@;
            to_multiset_update(s, 0, s.last());
            to_multiset_remove(u, u.len() - 1);
            to_multiset_contains(s, s[0]);
            to_multiset_contains(s, s.last());
            if total_order::<T>() {
                lemma_first_is_least_of_all(s);
                assert forall|i: int| 0 < i < t.len() && parent(i) != 0 implies #[trigger] above_parent(
                    t,
                    i,
                ) by {
                    assert(above_parent(s, i));
                }
            }
        }
        if self.items.len() > 0 {
            sift_down(&mut self.items, 0);
        }
        Some(least)
    }
}

impl<T: Clone> MinHeap<T> {
    /// Clones of the items, in the order in which the heap stores them.
    pub fn to_vec(&self) -> (out: Vec<T>)
        ensures
            clones_of(out@, self.layout()),
    {
        let n = self.items.len();
        let mut out: Vec<T> = Vec::with_capacity(n);
        let mut i: usize = 0;
        while i < n
            invariant
                n == self.items@.len(),
                i <= n,
                out@.len() == i,
                forall|j: int| 0 <= j < i ==> cloned(self.items@[j], #[trigger] out@[j]),
            decreases n - i,
        {
            out.push(self.items[i].clone());
            i += 1;
        }
        out
    }
}

impl<T: Clone> Clone for MinHeap<T> {
    /// A heap that stores a clone of each item in the place of that item.
    fn clone(&self) -> (copy: Self)
        ensures
            clones_of(copy.layout(), self.layout()),
    {
        MinHeap { items: self.to_vec() }
    }
}

} // verus!
