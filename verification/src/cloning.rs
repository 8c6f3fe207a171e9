//! What is known of a clone.

use vstd::prelude::*;

verus! {

/// A clone of a `T` is the value it was cloned from.
pub open spec fn exact_clone<T: Clone>() -> bool {
    forall|a: T, b: T| #[trigger] cloned(a, b) ==> a == b
}

/// `out` lists, slot for slot, a clone of each item of `kept`.
pub open spec fn clones_of<T: Clone>(out: Seq<T>, kept: Seq<T>) -> bool {
    &&& out.len() == kept.len()
    &&& forall|i: int| 0 <= i < out.len() ==> cloned(kept[i], #[trigger] out[i])
}

/// Where clones are exact, a list of clones is the list cloned.
pub proof fn lemma_exact_clones<T: Clone>(out: Seq<T>, kept: Seq<T>)
    requires
        clones_of(out, kept),
        exact_clone::<T>(),
    ensures
        out == kept,
{
}

} // verus!
