//! What it is for a multiset to hold the `k` greatest items of another.

use crate::order::{antisymmetric, lemma_leq_antisym, lemma_leq_total, lemma_leq_trans, leq, total_order};
use vstd::math::min;
use vstd::multiset::Multiset;
use vstd::prelude::*;
use vstd::relations::total_ordering;
use vstd::seq_lib::{lemma_multiset_commutative, to_multiset_contains, to_multiset_len};

verus! {

/// `kept` is a choice of `k` items out of `all`, or all of them where `all`
/// holds fewer than `k`.
pub open spec fn selects<T>(kept: Multiset<T>, all: Multiset<T>, k: nat) -> bool {
    &&& kept.subset_of(all)
    &&& kept.len() == min(k as int, all.len() as int)
}

/// No item of `all` that `kept` leaves out is greater than an item that it holds.
pub open spec fn dominates<T: Ord>(kept: Multiset<T>, all: Multiset<T>) -> bool {
    forall|x: T, y: T| kept.contains(x) && all.sub(kept).contains(y) ==> #[trigger] leq(y, x)
}

/// `kept` holds `k` greatest items of `all`, each as often as it was chosen,
/// or all of `all` where it holds fewer than `k`.
pub open spec fn is_top_k<T: Ord>(kept: Multiset<T>, all: Multiset<T>, k: nat) -> bool {
    &&& selects(kept, all, k)
    &&& dominates(kept, all)
}

/// What a collector of the `k` greatest items may hold of `all`: a choice of
/// `k` items, which under a total order is a choice of `k` greatest items.
pub open spec fn keeps<T: Ord>(kept: Multiset<T>, all: Multiset<T>, k: nat) -> bool {
    &&& selects(kept, all, k)
    &&& total_order::<T>() ==> dominates(kept, all)
}

/// `m` occurs in `items` and no item of `items` is smaller.
pub open spec fn is_least<T: Ord>(m: T, items: Multiset<T>) -> bool {
    &&& items.contains(m)
    &&& forall|y: T| items.contains(y) ==> #[trigger] leq(m, y)
}

/// A multiset within another of the same size is that other.
pub proof fn lemma_subset_same_len<T>(a: Multiset<T>, b: Multiset<T>)
    requires
        a.subset_of(b),
        a.len() == b.len(),
    ensures
        a == b,
{
    broadcast use vstd::multiset::group_multiset_axioms;

    let rest = b.sub(a);
    vstd::multiset::lemma_multiset_empty_len(rest);
    assert forall|v: T| a.count(v) == b.count(v) by {
        assert(rest.count(v) == 0);
    }
}

/// Under an antisymmetric order the `k` greatest items of a multiset are one multiset.
pub proof fn lemma_top_k_unique<T: Ord>(a: Multiset<T>, b: Multiset<T>, all: Multiset<T>, k: nat)
    requires
        antisymmetric::<T>(),
        is_top_k(a, all, k),
        is_top_k(b, all, k),
    ensures
        a == b,
{
    broadcast use vstd::multiset::group_multiset_axioms;

    if a != b {
        if a.subset_of(b) {
            lemma_subset_same_len(a, b);
        }
        if b.subset_of(a) {
            lemma_subset_same_len(b, a);
        }
        // neither is within the other: `a` holds some `x` more often than `b`
        // does, and `b` some `y` more often than `a`; each leaves out a copy of
        // what the other holds
        let x = choose|x: T| a.count(x) > b.count(x);
        let y = choose|y: T| b.count(y) > a.count(y);
        lemma_leq_antisym(x, y);
    }
}

/// Where fewer than `k` items are held, the next one is held as well.
pub proof fn lemma_absorb_with_room<T: Ord>(kept: Multiset<T>, all: Multiset<T>, k: nat, x: T)
    requires
        selects(kept, all, k),
        kept.len() < k,
    ensures
        kept == all,
        is_top_k(kept.insert(x), all.insert(x), k),
{
    broadcast use vstd::multiset::group_multiset_axioms;

    lemma_subset_same_len(kept, all);
}

/// Where `k` items are held, taking in one more and giving up any item held
/// leaves a choice of `k` items.
pub proof fn lemma_absorb_when_full_selects<T>(
    kept: Multiset<T>,
    all: Multiset<T>,
    k: nat,
    x: T,
    m: T,
)
    requires
        selects(kept, all, k),
        kept.len() >= k,
        kept.insert(x).contains(m),
    ensures
        selects(kept.insert(x).remove(m), all.insert(x), k),
{
    broadcast use vstd::multiset::group_multiset_axioms;

    assert(Multiset::singleton(m).subset_of(kept.insert(x)));
}

/// Taking in an item that is below all that are held, and giving up a least
/// item right after, changes nothing.
pub proof fn lemma_absorb_below_all<T: Ord>(kept: Multiset<T>, x: T, m: T)
    requires
        antisymmetric::<T>(),
        is_least(m, kept.insert(x)),
        forall|y: T| kept.contains(y) ==> #[trigger] leq(x, y),
    ensures
        m == x,
        kept.insert(x).remove(m) == kept,
{
    broadcast use vstd::multiset::group_multiset_axioms;

    if m != x {
        lemma_leq_antisym(m, x);
    }
}

/// Where `k` greatest items are held, taking in one more and giving up a
/// least item held leaves `k` greatest items.
pub proof fn lemma_absorb_when_full_dominates<T: Ord>(
    kept: Multiset<T>,
    all: Multiset<T>,
    x: T,
    m: T,
)
    requires
        total_order::<T>(),
        kept.subset_of(all),
        dominates(kept, all),
        is_least(m, kept.insert(x)),
    ensures
        dominates(kept.insert(x).remove(m), all.insert(x)),
{
    broadcast use vstd::multiset::group_multiset_axioms;

    let left = kept.insert(x).remove(m);
    let seen = all.insert(x);
    assert forall|a: T, b: T| left.contains(a) && seen.sub(left).contains(b) implies leq(b, a) by {
        // What is left out now was left out before, or is `m`, the item given
        // up. What is held now was held before, or is `x`. Only the case of `b`
        // left out before and `a` the new item takes a step: `b` is not above
        // `m`, which was held then, and `m` is not above `a`.
        if all.sub(kept).contains(b) && !kept.contains(a) && kept.contains(m) {
            lemma_leq_trans(b, m, a);
        }
    }
}

/// `s` listed from its greatest item down.
pub open spec fn descending<T: Ord>(s: Seq<T>) -> Seq<T> {
    s.sort_by(|a: T, b: T| leq(b, a))
}

/// The `k` greatest items of `s`, or all of them where `s` holds fewer: the
/// first `k` of `s` listed from its greatest item down.
pub open spec fn greatest<T: Ord>(s: Seq<T>, k: nat) -> Multiset<T> {
    descending(s).take(min(k as int, s.len() as int)).to_multiset()
}

/// Under a total, antisymmetric order `greatest(s, k)` holds `k` greatest items of `s`.
pub proof fn lemma_greatest_is_top_k<T: Ord>(s: Seq<T>, k: nat)
    requires
        total_order::<T>(),
        antisymmetric::<T>(),
    ensures
        is_top_k(greatest(s, k), s.to_multiset(), k),
{
    broadcast use vstd::multiset::group_multiset_axioms;

    let geq = |a: T, b: T| leq(b, a);
    assert(total_ordering(geq)) by {
        assert forall|x: T| #[trigger] geq(x, x) by {
            lemma_leq_total(x, x);
        }
        assert forall|x: T, y: T| #[trigger] geq(x, y) && #[trigger] geq(y, x) implies x == y by {
            lemma_leq_antisym(x, y);
        }
        assert forall|x: T, y: T, z: T| #[trigger] geq(x, y) && #[trigger] geq(y, z) implies geq(
            x,
            z,
        ) by {
            lemma_leq_trans(z, y, x);
        }
        assert forall|x: T, y: T| #[trigger] geq(x, y) || #[trigger] geq(y, x) by {
            lemma_leq_total(x, y);
        }
    }
    let sorted = descending(s);
    s.lemma_sort_by_ensures(geq);
    to_multiset_len(s);
    to_multiset_len(sorted);
    let n = min(k as int, s.len() as int);
    let head = sorted.take(n);
    let tail = sorted.skip(n);
    assert(sorted =~= head + tail);
    lemma_multiset_commutative(head, tail);
    to_multiset_len(head);
    let kept = head.to_multiset();
    let all = s.to_multiset();
    assert forall|x: T, y: T| kept.contains(x) && all.sub(kept).contains(y) implies #[trigger] leq(
        y,
        x,
    ) by {
        to_multiset_contains(head, x);
        to_multiset_contains(tail, y);
        let i = choose|i: int| 0 <= i < head.len() && head[i] == x;
        let j = choose|j: int| 0 <= j < tail.len() && tail[j] == y;
        assert(geq(sorted[i], sorted[n + j]));
    }
}

} // verus!
