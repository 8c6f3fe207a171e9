//! The contract of a collector, and the traversal that feeds one from an
//! iterator.

use vstd::prelude::*;
use vstd::std_specs::iter::IteratorSpec;

verus! {

/// An aggregator that absorbs items one at a time and hands out, on demand,
/// a result derived from all that it has absorbed.
///
/// A collector describes itself by four functions of its state. Their
/// defaults describe no collector: `inv` is false of every state, so verified
/// code can drive only a collector that has said, and proved, what it does.
pub trait Collector<T, U> {
    /// The collector is in a state that `collect` and `result` keep up.
    open spec fn inv(&self) -> bool {
        false
    }

    /// The items absorbed so far, oldest first.
    open spec fn absorbed(&self) -> Seq<T> {
        Seq::empty()
    }

    /// How many results the collector has handed out.
    open spec fn snapshots(&self) -> nat {
        0
    }

    /// `out` is a result that this collector may hand out once it has absorbed
    /// the items `absorbed`. Neither `collect` nor `result` changes what a
    /// collector takes for a result of given items, so results handed out
    /// after the same items meet the same condition.
    open spec fn aggregates(&self, absorbed: Seq<T>, out: U) -> bool {
        false
    }

    /// Absorbs `item`.
    fn collect(&mut self, item: T)
        requires
            old(self).inv(),
        ensures
            final(self).inv(),
            final(self).absorbed() == old(self).absorbed().push(item),
            final(self).snapshots() == old(self).snapshots(),
            forall|s: Seq<T>, o: U| #[trigger]
                final(self).aggregates(s, o) == old(self).aggregates(s, o),
    ;

    /// Hands out a result for the items absorbed so far. The collector goes
    /// on from where it was: what it has absorbed stays absorbed.
    fn result(&mut self) -> (out: U)
        requires
            old(self).inv(),
        ensures
            final(self).inv(),
            final(self).absorbed() == old(self).absorbed(),
            final(self).snapshots() == old(self).snapshots() + 1,
            old(self).aggregates(old(self).absorbed(), out),
            forall|s: Seq<T>, o: U| #[trigger]
                final(self).aggregates(s, o) == old(self).aggregates(s, o),
    ;
}

/// Driving a producer of items into a collector.
pub trait CollectWith<T>: Iterator {
    /// Feeds every item of `self` to `collector`, one `collect` for each and
    /// in the order in which `self` yields them, then asks the collector for
    /// its result once and returns that.
    ///
    /// The producer has to end: it follows vstd's model of an iterator, in
    /// which `remaining()` is what it has yet to yield, and comes with a
    /// measure that each item yielded decreases.
    fn collect_with<C>(self, collector: &mut C) -> (out: T) where
        Self: Sized,
        C: Collector<Self::Item, T>,

        requires
            self.obeys_prophetic_iter_laws(),
            self.decrease() is Some,
            old(collector).inv(),
        ensures
            final(collector).inv(),
            final(collector).absorbed() == old(collector).absorbed() + self.remaining(),
            final(collector).snapshots() == old(collector).snapshots() + 1,
            old(collector).aggregates(final(collector).absorbed(), out),
            forall|s: Seq<Self::Item>, o: T| #[trigger]
                final(collector).aggregates(s, o) == old(collector).aggregates(s, o),
    ;
}

impl<I: Iterator, T> CollectWith<T> for I {
    fn collect_with<C>(self, collector: &mut C) -> (out: T) where
        Self: Sized,
        C: Collector<Self::Item, T>,
     {
        let mut producer = self;
        loop
            invariant
                producer.obeys_prophetic_iter_laws(),
                producer.decrease() is Some,
                collector.inv(),
                collector.absorbed() + producer.remaining() == old(collector).absorbed()
                    + self.remaining(),
                collector.snapshots() == old(collector).snapshots(),
                forall|s: Seq<I::Item>, o: T| #[trigger]
                    collector.aggregates(s, o) == old(collector).aggregates(s, o),
            ensures
                producer.remaining().len() == 0,
            decreases producer.decrease()->0,
        {
            match producer.next() {
                Some(item) => {
                    collector.collect(item);
                },
                None => {
                    break ;
                },
            }
        }
        collector.result()
    }
}

} // verus!
