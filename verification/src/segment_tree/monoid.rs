//! The algebraic capabilities that the fold-and-apply engine asks of its
//! caller.

use vstd::prelude::*;
pub use crate::algebra::Monoid;

verus! {

/// An action of a monoid `F` on a monoid `S` that respects the operation of
/// `S`: acting on a combination is combining what results from acting on
/// each side.
pub trait Action<S: Monoid>: crate::algebra::Action<S> {
    /// Acting distributes over the operation of `S`.
    proof fn lemma_act_distributes(f: Self, a: S, b: S)
        ensures
            f.act_spec(a.op_spec(b)) == f.act_spec(a).op_spec(f.act_spec(b)),
    ;
}

} // verus!
