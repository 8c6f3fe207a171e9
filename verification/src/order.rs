//! The order of a type with `Ord`, as contracts speak of it.

use std::cmp::Ordering;
use vstd::prelude::*;
use vstd::std_specs::cmp::OrdSpec;

verus! {

/// `a` is not greater than `b` in the order of `T`.
pub open spec fn leq<T: Ord>(a: T, b: T) -> bool {
    a.cmp_spec(&b) != Ordering::Greater
}

/// The order of `T` is total: executable comparisons agree with `leq`, any two
/// values are comparable, and `leq` is transitive.
#[verifier::opaque]
pub open spec fn total_order<T: Ord>() -> bool {
    &&& T::obeys_cmp_spec()
    &&& forall|a: T, b: T| #[trigger] leq(a, b) || leq(b, a)
    &&& forall|a: T, b: T, c: T| #[trigger] leq(a, b) && #[trigger] leq(b, c) ==> leq(a, c)
}

/// Values that the order does not tell apart are the same value.
#[verifier::opaque]
pub open spec fn antisymmetric<T: Ord>() -> bool {
    forall|a: T, b: T| #[trigger] leq(a, b) && leq(b, a) ==> a == b
}

/// Under a total order every value is not greater than itself.
pub proof fn lemma_leq_refl<T: Ord>(a: T)
    requires
        total_order::<T>(),
    ensures
        leq(a, a),
{
    reveal(total_order);
}

/// Under a total order, of two values one is not greater than the other.
pub proof fn lemma_leq_total<T: Ord>(a: T, b: T)
    requires
        total_order::<T>(),
    ensures
        leq(a, b) || leq(b, a),
{
    reveal(total_order);
}

/// Under a total order `leq` carries over a value in between.
pub proof fn lemma_leq_trans<T: Ord>(a: T, b: T, c: T)
    requires
        total_order::<T>(),
        leq(a, b),
        leq(b, c),
    ensures
        leq(a, c),
{
    reveal(total_order);
}

/// Under an antisymmetric order two values that are each not greater than the
/// other are one value.
pub proof fn lemma_leq_antisym<T: Ord>(a: T, b: T)
    requires
        antisymmetric::<T>(),
        leq(a, b),
        leq(b, a),
    ensures
        a == b,
{
    reveal(antisymmetric);
}

/// Whether `a` is not greater than `b`, by `T`'s own comparison. Of a type
/// whose comparison does not follow `cmp_spec` nothing is claimed.
pub fn not_greater<T: Ord>(a: &T, b: &T) -> (r: bool)
    ensures
        T::obeys_cmp_spec() ==> r == leq(*a, *b),
        total_order::<T>() ==> r == leq(*a, *b),
{
    proof {
        reveal(total_order);
    }
    match a.cmp(b) {
        Ordering::Greater => false,
        _ => true,
    }
}

/// A type whose comparisons obey vstd's laws for `Ord` is totally ordered:
/// the integers, and tuples, options and references of such types.
pub proof fn lemma_total_order_from_laws<T: Ord>()
    requires
        vstd::laws_cmp::obeys_cmp::<T>(),
    ensures
        total_order::<T>(),
{
    reveal(total_order);
    reveal(vstd::laws_eq::obeys_eq_spec_properties);
    reveal(vstd::laws_cmp::obeys_partial_cmp_spec_properties);
    reveal(vstd::laws_cmp::obeys_cmp_partial_ord);
    reveal(vstd::laws_cmp::obeys_cmp_ord);
}

/// Where, besides, `==` on `T` is equality of values, the order is antisymmetric.
pub proof fn lemma_antisymmetric_from_laws<T: Ord>()
    requires
        vstd::laws_cmp::obeys_cmp::<T>(),
        vstd::laws_eq::obeys_concrete_eq::<T>(),
    ensures
        antisymmetric::<T>(),
{
    reveal(antisymmetric);
    reveal(vstd::laws_eq::obeys_concrete_eq);
    reveal(vstd::laws_cmp::obeys_partial_cmp_spec_properties);
    reveal(vstd::laws_cmp::obeys_cmp_partial_ord);
    reveal(vstd::laws_cmp::obeys_cmp_ord);
}

} // verus!
