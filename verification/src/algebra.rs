//! Algebraic capability contracts that the engines are generic over.

use vstd::prelude::*;

verus! {

/// A set with an associative binary operation and a two-sided identity.
///
/// Commutativity is not required: every engine combines values strictly
/// from left to right.
pub trait Monoid: Clone + Sized {
    /// The identity element.
    spec fn id_spec() -> Self;

    /// The binary operation.
    spec fn op_spec(self, rhs: Self) -> Self;

    /// Returns the identity element of the monoid.
    fn id() -> (res: Self)
        ensures
            res == Self::id_spec(),
    ;

    /// Performs the binary operation of the monoid.
    fn op(&self, rhs: &Self) -> (res: Self)
        ensures
            res == self.op_spec(*rhs),
    ;

    /// The operation is associative.
    proof fn lemma_associative(a: Self, b: Self, c: Self)
        ensures
            a.op_spec(b).op_spec(c) == a.op_spec(b.op_spec(c)),
    ;

    /// The identity is neutral on both sides.
    proof fn lemma_identity(a: Self)
        ensures
            Self::id_spec().op_spec(a) == a,
            a.op_spec(Self::id_spec()) == a,
    ;

    /// Cloning yields an equal value.
    proof fn lemma_clone(a: Self, b: Self)
        requires
            cloned(a, b),
        ensures
            a == b,
    ;
}

/// A set with an associative and idempotent binary operation.
pub trait Band: Clone + Sized {
    /// The binary operation.
    spec fn op_spec(self, rhs: Self) -> Self;

    /// Performs the binary operation of the band.
    fn op(&self, rhs: &Self) -> (res: Self)
        ensures
            res == self.op_spec(*rhs),
    ;

    /// The operation is associative.
    proof fn lemma_associative(a: Self, b: Self, c: Self)
        ensures
            a.op_spec(b).op_spec(c) == a.op_spec(b.op_spec(c)),
    ;

    /// Combining a value with itself changes nothing.
    proof fn lemma_idempotent(a: Self)
        ensures
            a.op_spec(a) == a,
    ;

    /// Cloning yields an equal value.
    proof fn lemma_clone(a: Self, b: Self)
        requires
            cloned(a, b),
        ensures
            a == b,
    ;
}

/// A monoid in which every element has an inverse.
pub trait Group: Monoid {
    /// The inverse of an element.
    spec fn inv_spec(self) -> Self;

    /// Returns the inverse of the element.
    fn inv(&self) -> (res: Self)
        ensures
            res == self.inv_spec(),
    ;

    /// An element and its inverse combine to the identity, in either order.
    proof fn lemma_inverse(a: Self)
        ensures
            a.inv_spec().op_spec(a) == Self::id_spec(),
            a.op_spec(a.inv_spec()) == Self::id_spec(),
    ;
}

/// A group whose operation is commutative.
pub trait AbelianGroup: Group {
    /// The operation is commutative.
    proof fn lemma_commutative(a: Self, b: Self)
        ensures
            a.op_spec(b) == b.op_spec(a),
    ;
}

/// A semiring, also called a rig: addition and multiplication with their
/// neutral elements.
pub trait Rig: Copy + std::ops::Add<Output = Self> + std::ops::Mul<Output = Self> {
    /// The neutral element of addition.
    spec fn zero_spec() -> Self;

    /// The neutral element of multiplication.
    spec fn one_spec() -> Self;

    /// Returns the neutral element of addition.
    fn zero() -> (res: Self)
        ensures
            res == Self::zero_spec(),
    ;

    /// Returns the neutral element of multiplication.
    fn one() -> (res: Self)
        ensures
            res == Self::one_spec(),
    ;
}

/// A ring: a rig with subtraction and negation.
pub trait Ring: Rig + std::ops::Sub<Output = Self> + std::ops::Neg<Output = Self> {

}

impl<T: Rig + std::ops::Sub<Output = Self> + std::ops::Neg<Output = Self>> Ring for T {

}

/// A field: a ring with division.
pub trait Field: Ring + std::ops::Div<Output = Self> {

}

impl<T: Ring + std::ops::Div<Output = Self>> Field for T {

}

/// A monoid whose elements transform values of `S`.
///
/// Composing two actions and then acting equals acting with the right-hand
/// one first and the left-hand one second: in `f.op(g)`, `g` is the earlier
/// action and `f` the later one.
pub trait Action<S>: Monoid {
    /// The value that results from applying `self` to `s`.
    spec fn act_spec(self, s: S) -> S;

    /// Returns self acting on s.
    fn act(&self, s: &S) -> (res: S)
        ensures
            res == self.act_spec(*s),
    ;

    /// The identity action changes nothing.
    proof fn lemma_act_identity(s: S)
        ensures
            Self::id_spec().act_spec(s) == s,
    ;

    /// Acting with a composition is acting in sequence, right operand first.
    proof fn lemma_act_compose(f: Self, g: Self, s: S)
        ensures
            f.op_spec(g).act_spec(s) == f.act_spec(g.act_spec(s)),
    ;
}

/// The left-to-right reduction `s[0] op s[1] op ... op s[len - 1]`, the
/// identity for the empty sequence.
pub open spec fn fold<S: Monoid>(s: Seq<S>) -> S
    decreases s.len(),
{
    if s.len() == 0 {
        S::id_spec()
    } else {
        fold(s.drop_last()).op_spec(s.last())
    }
}

/// The reduction of a one-element sequence is that element.
pub proof fn lemma_fold_single<S: Monoid>(x: S)
    ensures
        fold(seq![x]) == x,
{
    let s = seq![x];
    assert(s.drop_last() =~= Seq::<S>::empty());
    assert(fold(s.drop_last()) == S::id_spec());
    S::lemma_identity(x);
}

/// The reduction of a concatenation is the combination of the reductions.
pub proof fn lemma_fold_concat<S: Monoid>(a: Seq<S>, b: Seq<S>)
    ensures
        fold(a + b) == fold(a).op_spec(fold(b)),
    decreases b.len(),
{
    if b.len() == 0 {
        assert(a + b =~= a);
        S::lemma_identity(fold(a));
    } else {
        assert((a + b).drop_last() =~= a + b.drop_last());
        lemma_fold_concat(a, b.drop_last());
        S::lemma_associative(fold(a), fold(b.drop_last()), b.last());
    }
}

/// Splitting a range at `m` splits its reduction.
pub proof fn lemma_fold_split<S: Monoid>(s: Seq<S>, l: int, m: int, r: int)
    requires
        0 <= l <= m <= r <= s.len(),
    ensures
        fold(s.subrange(l, r)) == fold(s.subrange(l, m)).op_spec(fold(s.subrange(m, r))),
{
    assert(s.subrange(l, r) =~= s.subrange(l, m) + s.subrange(m, r));
    lemma_fold_concat(s.subrange(l, m), s.subrange(m, r));
}

/// Returns a clone of `x`, known to equal `x`.
pub fn duplicate<S: Monoid>(x: &S) -> (res: S)
    ensures
        res == *x,
{
    let res = x.clone();
    proof {
        S::lemma_clone(*x, res);
    }
    res
}

} // verus!
