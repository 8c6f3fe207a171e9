//! The collector of the `k` greatest items.

use crate::cloning::{clones_of, exact_clone, lemma_exact_clones};
use crate::collector::Collector;
use crate::heap::MinHeap;
use crate::order::{antisymmetric, total_order};
use crate::selection::{
    greatest, is_least, is_top_k, keeps, lemma_absorb_when_full_dominates,
    lemma_absorb_when_full_selects, lemma_absorb_with_room, lemma_greatest_is_top_k,
    lemma_subset_same_len, lemma_top_k_unique,
};
use vstd::math::min;
use vstd::multiset::Multiset;
use vstd::prelude::*;
use vstd::seq_lib::{to_multiset_build, to_multiset_len};

verus! {

/// Keeps the `k` greatest items of all that it absorbs.
pub struct TopKCollector<T: Clone + Ord> {
    k: usize,
    heap: MinHeap<T>,
    seen: Ghost<Seq<T>>,
    handed: Ghost<nat>,
}

impl<T: Clone + Ord> View for TopKCollector<T> {
    type V = Multiset<T>;

    /// The items kept, each as often as it is kept.
    open spec fn view(&self) -> Multiset<T> {
        self.store().to_multiset()
    }
}

impl<T: Clone + Ord> TopKCollector<T> {
    /// The number of items that the collector keeps at most.
    pub closed spec fn capacity(&self) -> nat {
        self.k as nat
    }

    /// The items kept, in the order in which `result` lists them.
    pub closed spec fn store(&self) -> Seq<T> {
        self.heap.layout()
    }

    /// The store is in the shape that `collect` relies on.
    pub closed spec fn sound(&self) -> bool {
        self.heap.wf()
    }

    /// A collector of the `k` greatest items that has absorbed nothing yet.
    pub fn new(k: usize) -> (collector: Self)
        ensures
            collector.inv(),
            collector.capacity() == k,
            collector.absorbed() == Seq::<T>::empty(),
            collector.snapshots() == 0,
            collector.store() == Seq::<T>::empty(),
    {
        let collector = TopKCollector {
            k,
            heap: MinHeap::with_capacity(k),
            seen: Ghost(Seq::empty()),
            handed: Ghost(0),
        };
        proof {
            broadcast use vstd::multiset::group_multiset_axioms;

            to_multiset_len(Seq::<T>::empty());
        }
        collector
    }
}

impl<T: Clone + Ord> Clone for TopKCollector<T> {
    /// A collector of the same capacity that has absorbed the same items and
    /// keeps a clone of each item kept.
    fn clone(&self) -> (copy: Self)
        ensures
            copy.capacity() == self.capacity(),
            copy.absorbed() == self.absorbed(),
            copy.snapshots() == self.snapshots(),
            clones_of(copy.store(), self.store()),
            exact_clone::<T>() && self.inv() ==> copy.inv(),
    {
        let copy = TopKCollector {
            k: self.k,
            heap: self.heap.clone(),
            seen: Ghost(self.seen@),
            handed: Ghost(self.handed@),
        };
        proof {
            if exact_clone::<T>() && self.inv() {
                lemma_exact_clones(copy.heap.layout(), self.heap.layout());
                self.heap.lemma_wf_of_layout(copy.heap);
            }
        }
        copy
    }
}

impl<T: Clone + Ord> Collector<T, Vec<T>> for TopKCollector<T> {
    /// The items kept are a choice of `capacity()` of the items absorbed, or
    /// all of them where fewer were absorbed; under a total order no item
    /// left out is greater than one kept.
    open spec fn inv(&self) -> bool {
        &&& self.sound()
        &&& keeps(self@, self.absorbed().to_multiset(), self.capacity())
    }

    closed spec fn absorbed(&self) -> Seq<T> {
        self.seen@
    }

    closed spec fn snapshots(&self) -> nat {
        self.handed@
    }

    /// `out` lists a clone of each of `capacity()` items of `absorbed`, or of
    /// all of them where those are fewer; under a total order no item left
    /// out is greater than one listed.
    open spec fn aggregates(&self, absorbed: Seq<T>, out: Vec<T>) -> bool {
        exists|kept: Seq<T>|
            {
                &&& #[trigger] clones_of(out@, kept)
                &&& keeps(kept.to_multiset(), absorbed.to_multiset(), self.capacity())
            }
    }

    /// Takes `item` in; where that makes one item too many, gives up a least
    /// item of those then held.
    fn collect(&mut self, item: T)
        ensures
            final(self).capacity() == old(self).capacity(),
            old(self)@.len() < old(self).capacity() ==> final(self)@ == old(self)@.insert(item),
            old(self)@.len() >= old(self).capacity() ==> exists|m: T|
                {
                    &&& #[trigger] old(self)@.insert(item).contains(m)
                    &&& final(self)@ == old(self)@.insert(item).remove(m)
                    &&& total_order::<T>() ==> is_least(m, old(self)@.insert(item))
                },
    {
        let ghost x = item;
        let ghost kept = self@;
        let ghost all = self.seen@.to_multiset();
        proof {
            to_multiset_build(self.seen@, x);
            to_multiset_len(self.heap.layout());
        }
        self.heap.push(item);
        self.seen = Ghost(self.seen@.push(x));
        if self.heap.len() > self.k {
            let evicted = self.heap.pop();
            proof {
                let m = evicted->0;
                lemma_absorb_when_full_selects(kept, all, self.k as nat, x, m);
                if total_order::<T>() {
                    lemma_absorb_when_full_dominates(kept, all, x, m);
                }
            }
        } else {
            proof {
                lemma_absorb_with_room(kept, all, self.k as nat, x);
            }
        }
    }

    /// Lists a clone of each item kept, in the order of the store. The
    /// collector keeps what it holds.
    fn result(&mut self) -> (out: Vec<T>)
        ensures
            final(self).capacity() == old(self).capacity(),
            final(self).store() == old(self).store(),
            clones_of(out@, old(self).store()),
            out@.len() == min(old(self).capacity() as int, old(self).absorbed().len() as int),
            old(self).capacity() == 0 ==> out@ == Seq::<T>::empty(),
    {
        self.handed = Ghost(self.handed@ + 1);
        let out = self.heap.to_vec();
        proof {
            lemma_result_len(*self, self.absorbed(), out);
            if self.k == 0 {
                lemma_result_without_capacity(*self, self.absorbed(), out);
            }
        }
        out
    }
}

/// What a collector keeps between calls: never more than `capacity()` items;
/// all that it absorbed, where those are no more than `capacity()`; under a
/// total, antisymmetric order the greatest `capacity()` of the items absorbed.
pub proof fn lemma_keeps_greatest<T: Clone + Ord>(c: TopKCollector<T>)
    requires
        c.inv(),
    ensures
        c.store().len() <= c.capacity(),
        c.absorbed().len() <= c.capacity() ==> c@ == c.absorbed().to_multiset(),
        total_order::<T>() && antisymmetric::<T>() ==> c@ == greatest(c.absorbed(), c.capacity()),
{
    to_multiset_len(c.store());
    to_multiset_len(c.absorbed());
    if c.absorbed().len() <= c.capacity() {
        lemma_subset_same_len(c@, c.absorbed().to_multiset());
    }
    if total_order::<T>() && antisymmetric::<T>() {
        lemma_greatest_is_top_k(c.absorbed(), c.capacity());
        lemma_top_k_unique(
            c@,
            greatest(c.absorbed(), c.capacity()),
            c.absorbed().to_multiset(),
            c.capacity(),
        );
    }
}

/// A result lists `capacity()` items, or as many as were absorbed where those
/// are fewer.
pub proof fn lemma_result_len<T: Clone + Ord>(c: TopKCollector<T>, absorbed: Seq<T>, out: Vec<T>)
    requires
        c.aggregates(absorbed, out),
    ensures
        out@.len() == min(c.capacity() as int, absorbed.len() as int),
{
    let kept = choose|kept: Seq<T>|
        {
            &&& #[trigger] clones_of(out@, kept)
            &&& keeps(kept.to_multiset(), absorbed.to_multiset(), c.capacity())
        };
    to_multiset_len(kept);
    to_multiset_len(absorbed);
}

/// A collector of capacity 0 hands out the empty list, whatever it absorbed.
pub proof fn lemma_result_without_capacity<T: Clone + Ord>(
    c: TopKCollector<T>,
    absorbed: Seq<T>,
    out: Vec<T>,
)
    requires
        c.aggregates(absorbed, out),
        c.capacity() == 0,
    ensures
        out@ == Seq::<T>::empty(),
{
    lemma_result_len(c, absorbed, out);
}

/// Two results handed out with nothing absorbed in between are the same list:
/// the first leaves the store as it was, and each lists the clones of the
/// store it found.
pub proof fn lemma_result_repeats<T: Clone + Ord>(
    before: TopKCollector<T>,
    first: Vec<T>,
    between: TopKCollector<T>,
    second: Vec<T>,
)
    requires
        clones_of(first@, before.store()),
        between.store() == before.store(),
        clones_of(second@, between.store()),
        exact_clone::<T>(),
    ensures
        first@ == second@,
        first@.to_multiset() == second@.to_multiset(),
{
    lemma_exact_clones(first@, before.store());
    lemma_exact_clones(second@, between.store());
}

/// Under a total order a result holds `capacity()` greatest items of those
/// absorbed, each as often as it was chosen among them.
pub proof fn lemma_result_holds_greatest<T: Clone + Ord>(
    c: TopKCollector<T>,
    absorbed: Seq<T>,
    out: Vec<T>,
)
    requires
        c.aggregates(absorbed, out),
        total_order::<T>(),
        exact_clone::<T>(),
    ensures
        is_top_k(out@.to_multiset(), absorbed.to_multiset(), c.capacity()),
{
    let kept = choose|kept: Seq<T>|
        {
            &&& #[trigger] clones_of(out@, kept)
            &&& keeps(kept.to_multiset(), absorbed.to_multiset(), c.capacity())
        };
    lemma_exact_clones(out@, kept);
}

/// Under a total, antisymmetric order a result holds the greatest items
/// absorbed and no others: the first `capacity()` of the items absorbed when
/// those are listed from the greatest down.
pub proof fn lemma_result_is_greatest<T: Clone + Ord>(
    c: TopKCollector<T>,
    absorbed: Seq<T>,
    out: Vec<T>,
)
    requires
        c.aggregates(absorbed, out),
        total_order::<T>(),
        antisymmetric::<T>(),
        exact_clone::<T>(),
    ensures
        out@.to_multiset() == greatest(absorbed, c.capacity()),
{
    lemma_result_holds_greatest(c, absorbed, out);
    lemma_greatest_is_top_k(absorbed, c.capacity());
    lemma_top_k_unique(
        out@.to_multiset(),
        greatest(absorbed, c.capacity()),
        absorbed.to_multiset(),
        c.capacity(),
    );
}

/// The order in which items are absorbed does not matter: where two
/// collectors of one capacity have absorbed the same items, in whatever
/// order, their results hold the same items.
pub proof fn lemma_order_independent<T: Clone + Ord>(
    a: TopKCollector<T>,
    absorbed_a: Seq<T>,
    out_a: Vec<T>,
    b: TopKCollector<T>,
    absorbed_b: Seq<T>,
    out_b: Vec<T>,
)
    requires
        a.capacity() == b.capacity(),
        absorbed_a.to_multiset() == absorbed_b.to_multiset(),
        a.aggregates(absorbed_a, out_a),
        b.aggregates(absorbed_b, out_b),
        total_order::<T>(),
        antisymmetric::<T>(),
        exact_clone::<T>(),
    ensures
        out_a@.to_multiset() == out_b@.to_multiset(),
{
    lemma_result_holds_greatest(a, absorbed_a, out_a);
    lemma_result_holds_greatest(b, absorbed_b, out_b);
    lemma_top_k_unique(
        out_a@.to_multiset(),
        out_b@.to_multiset(),
        absorbed_a.to_multiset(),
        a.capacity(),
    );
}

/// Absorbing a stream in two parts gives what absorbing it in one pass
/// gives: a result of a collector that had absorbed `before`, then `s1` and
/// then `s2`, holds the items that a result holds after `before` and then
/// `s1 + s2`.
pub proof fn lemma_incremental<T: Clone + Ord>(
    c: TopKCollector<T>,
    before: Seq<T>,
    s1: Seq<T>,
    s2: Seq<T>,
    in_parts: Vec<T>,
    in_one: Vec<T>,
)
    requires
        c.aggregates(before + s1 + s2, in_parts),
        c.aggregates(before + (s1 + s2), in_one),
        total_order::<T>(),
        antisymmetric::<T>(),
        exact_clone::<T>(),
    ensures
        in_parts@.to_multiset() == in_one@.to_multiset(),
{
    assert(before + s1 + s2 =~= before + (s1 + s2));
    lemma_order_independent(c, before + s1 + s2, in_parts, c, before + (s1 + s2), in_one);
}

} // verus!
