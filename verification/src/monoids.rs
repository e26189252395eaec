//! A few concrete algebraic structures, with their laws proved: sums
//! modulo `2^64`, minima, assignments, sums that know how many values they
//! cover, and the ring of residues modulo `2^64`.

use vstd::prelude::*;
use vstd::arithmetic::div_mod::{
    lemma_add_mod_noop, lemma_mod_bound, lemma_mul_mod_noop_general, lemma_small_mod,
};
use vstd::arithmetic::mul::lemma_mul_is_distributive_add;
use crate::algebra::{AbelianGroup, Action, Band, Group, Monoid, Rig};

verus! {

/// The number of values of a `u64`.
pub open spec fn range64() -> int {
    0x1_0000_0000_0000_0000
}

/// The residue of `x` modulo `2^64`.
pub open spec fn wrap64(x: int) -> u64 {
    (x % range64()) as u64
}

/// Residues of sums and products may be taken early.
pub proof fn lemma_wrap64(x: int, y: int)
    ensures
        wrap64(wrap64(x) + y) == wrap64(x + y),
        wrap64(x + wrap64(y)) == wrap64(x + y),
        wrap64(wrap64(x) + wrap64(y)) == wrap64(x + y),
        wrap64(wrap64(x) * y) == wrap64(x * y),
        wrap64(x * wrap64(y)) == wrap64(x * y),
        0 <= x < range64() ==> wrap64(x) == x,
{
    let r = range64();
    lemma_mod_bound(x, r);
    lemma_mod_bound(y, r);
    lemma_add_mod_noop(x, y, r);
    lemma_add_mod_noop(x % r, y, r);
    lemma_add_mod_noop(x, y % r, r);
    lemma_small_mod((x % r) as nat, r as nat);
    lemma_small_mod((y % r) as nat, r as nat);
    lemma_mul_mod_noop_general(x, y, r);
    if 0 <= x < r {
        lemma_small_mod(x as nat, r as nat);
    }
}

/// A number under addition modulo `2^64`.
#[derive(Clone, Copy, Debug, PartialEq, Eq)]
pub struct Additive(pub u64);

impl Monoid for Additive {
    open spec fn id_spec() -> Self {
        Additive(0)
    }

    open spec fn op_spec(self, rhs: Self) -> Self {
        Additive(wrap64(self.0 + rhs.0))
    }

    fn id() -> (res: Self) {
        Additive(0)
    }

    fn op(&self, rhs: &Self) -> (res: Self) {
        Additive(self.0.wrapping_add(rhs.0))
    }

    proof fn lemma_associative(a: Self, b: Self, c: Self) {
        lemma_wrap64(a.0 + b.0, c.0 as int);
        lemma_wrap64(a.0 as int, b.0 + c.0);
    }

    proof fn lemma_identity(a: Self) {
    }

    proof fn lemma_clone(a: Self, b: Self) {
    }
}

impl crate::fenwick_tree::Monoid for Additive {
    proof fn lemma_commutative(a: Self, b: Self) {
    }
}

impl Group for Additive {
    open spec fn inv_spec(self) -> Self {
        Additive(wrap64(-(self.0 as int)))
    }

    fn inv(&self) -> (res: Self) {
        Additive(0u64.wrapping_sub(self.0))
    }

    proof fn lemma_inverse(a: Self) {
    }
}

impl AbelianGroup for Additive {
    proof fn lemma_commutative(a: Self, b: Self) {
    }
}

impl crate::fenwick_tree::Group for Additive {

}

/// A number under minimum, with the largest number as identity.
#[derive(Clone, Copy, Debug, PartialEq, Eq)]
pub struct Min(pub u64);

impl Monoid for Min {
    open spec fn id_spec() -> Self {
        Min(u64::MAX)
    }

    open spec fn op_spec(self, rhs: Self) -> Self {
        if self.0 <= rhs.0 {
            self
        } else {
            rhs
        }
    }

    fn id() -> (res: Self) {
        Min(u64::MAX)
    }

    fn op(&self, rhs: &Self) -> (res: Self) {
        if self.0 <= rhs.0 {
            *self
        } else {
            *rhs
        }
    }

    proof fn lemma_associative(a: Self, b: Self, c: Self) {
    }

    proof fn lemma_identity(a: Self) {
    }

    proof fn lemma_clone(a: Self, b: Self) {
    }
}

impl crate::fenwick_tree::Monoid for Min {
    proof fn lemma_commutative(a: Self, b: Self) {
    }
}

impl Band for Min {
    open spec fn op_spec(self, rhs: Self) -> Self {
        if self.0 <= rhs.0 {
            self
        } else {
            rhs
        }
    }

    fn op(&self, rhs: &Self) -> (res: Self) {
        if self.0 <= rhs.0 {
            *self
        } else {
            *rhs
        }
    }

    proof fn lemma_associative(a: Self, b: Self, c: Self) {
    }

    proof fn lemma_idempotent(a: Self) {
    }

    proof fn lemma_clone(a: Self, b: Self) {
    }
}

/// An optional assignment of a value.  Composition keeps the later
/// assignment: in `f.op(g)` the assignment of `f`, if it makes one, wins
/// over that of `g`.  The operation is not commutative.
#[derive(Debug, PartialEq, Eq)]
pub struct Assign<T>(pub Option<T>);

impl<T: Copy> Clone for Assign<T> {
    fn clone(&self) -> (res: Self)
        ensures
            res == *self,
    {
        Assign(self.0)
    }
}

impl<T: Copy> Copy for Assign<T> {

}

impl<T: Copy> Monoid for Assign<T> {
    open spec fn id_spec() -> Self {
        Assign(None)
    }

    open spec fn op_spec(self, rhs: Self) -> Self {
        if self.0.is_some() {
            self
        } else {
            rhs
        }
    }

    fn id() -> (res: Self) {
        Assign(None)
    }

    fn op(&self, rhs: &Self) -> (res: Self) {
        if self.0.is_some() {
            *self
        } else {
            *rhs
        }
    }

    proof fn lemma_associative(a: Self, b: Self, c: Self) {
    }

    proof fn lemma_identity(a: Self) {
    }

    proof fn lemma_clone(a: Self, b: Self) {
    }
}

impl<T: Copy> Action<T> for Assign<T> {
    open spec fn act_spec(self, s: T) -> T {
        match self.0 {
            Some(x) => x,
            None => s,
        }
    }

    fn act(&self, s: &T) -> (res: T) {
        match self.0 {
            Some(x) => x,
            None => *s,
        }
    }

    proof fn lemma_act_identity(s: T) {
    }

    proof fn lemma_act_compose(f: Self, g: Self, s: T) {
    }
}

impl crate::segment_tree::monoid::Action<Min> for Assign<Min> {
    proof fn lemma_act_distributes(f: Self, a: Min, b: Min) {
    }
}

/// A sum modulo `2^64` together with the number of values it covers, also
/// modulo `2^64`.
#[derive(Clone, Copy, Debug, PartialEq, Eq)]
pub struct Total {
    /// The sum of the values covered.
    pub sum: u64,
    /// The number of values covered.
    pub len: u64,
}

impl Monoid for Total {
    open spec fn id_spec() -> Self {
        Total { sum: 0, len: 0 }
    }

    open spec fn op_spec(self, rhs: Self) -> Self {
        Total { sum: wrap64(self.sum + rhs.sum), len: wrap64(self.len + rhs.len) }
    }

    fn id() -> (res: Self) {
        Total { sum: 0, len: 0 }
    }

    fn op(&self, rhs: &Self) -> (res: Self) {
        Total { sum: self.sum.wrapping_add(rhs.sum), len: self.len.wrapping_add(rhs.len) }
    }

    proof fn lemma_associative(a: Self, b: Self, c: Self) {
        lemma_wrap64(a.sum + b.sum, c.sum as int);
        lemma_wrap64(a.sum as int, b.sum + c.sum);
        lemma_wrap64(a.len + b.len, c.len as int);
        lemma_wrap64(a.len as int, b.len + c.len);
    }

    proof fn lemma_identity(a: Self) {
    }

    proof fn lemma_clone(a: Self, b: Self) {
    }
}

/// Adding a number to each of the values that a total covers adds that
/// number as many times as there are values.
impl Action<Total> for Additive {
    open spec fn act_spec(self, s: Total) -> Total {
        Total { sum: wrap64(s.sum + self.0 * s.len), len: s.len }
    }

    fn act(&self, s: &Total) -> (res: Total) {
        proof {
            lemma_wrap64(self.0 * s.len, s.sum as int);
            lemma_wrap64(s.sum as int, self.0 * s.len);
            assert(self.0 as nat * s.len as nat == self.0 * s.len);
        }
        Total { sum: s.sum.wrapping_add(self.0.wrapping_mul(s.len)), len: s.len }
    }

    proof fn lemma_act_identity(s: Total) {
        assert(0 * s.len == 0) by (nonlinear_arith);
    }

    proof fn lemma_act_compose(f: Self, g: Self, s: Total) {
        let l = s.len as int;
        lemma_wrap64(f.0 + g.0, l);
        lemma_wrap64(s.sum as int, wrap64(f.0 + g.0) * l);
        lemma_wrap64(s.sum as int, (f.0 + g.0) * l);
        lemma_wrap64(s.sum + g.0 * l, f.0 * l);
        lemma_mul_is_distributive_add(l, f.0 as int, g.0 as int);
        assert((f.0 + g.0) * l == f.0 * l + g.0 * l) by (nonlinear_arith);
    }
}

impl crate::segment_tree::monoid::Action<Total> for Additive {
    proof fn lemma_act_distributes(f: Self, a: Total, b: Total) {
        let k = f.0 as int;
        let la = a.len as int;
        let lb = b.len as int;
        lemma_wrap64(la + lb, k);
        lemma_wrap64(k, la + lb);
        lemma_wrap64(a.sum + b.sum, k * wrap64(la + lb));
        lemma_wrap64(a.sum + b.sum, k * (la + lb));
        lemma_wrap64(a.sum + k * la, b.sum + k * lb);
        assert(k * (la + lb) == k * la + k * lb) by (nonlinear_arith);
    }
}

/// A residue modulo `2^64`, with the arithmetic of that ring: sums,
/// differences and products wrap around.
#[derive(Clone, Copy, Debug, PartialEq, Eq)]
pub struct Residue(pub u64);

impl vstd::std_specs::ops::AddSpecImpl for Residue {
    open spec fn obeys_add_spec() -> bool {
        true
    }

    open spec fn add_req(self, rhs: Self) -> bool {
        true
    }

    open spec fn add_spec(self, rhs: Self) -> Self {
        Residue(wrap64(self.0 + rhs.0))
    }
}

impl std::ops::Add for Residue {
    type Output = Self;

    fn add(self, rhs: Self) -> (res: Self) {
        proof {
            lemma_wrap64(self.0 + rhs.0, 0);
        }
        Residue(self.0.wrapping_add(rhs.0))
    }
}

impl vstd::std_specs::ops::SubSpecImpl for Residue {
    open spec fn obeys_sub_spec() -> bool {
        true
    }

    open spec fn sub_req(self, rhs: Self) -> bool {
        true
    }

    open spec fn sub_spec(self, rhs: Self) -> Self {
        Residue(wrap64(self.0 - rhs.0))
    }
}

impl std::ops::Sub for Residue {
    type Output = Self;

    fn sub(self, rhs: Self) -> (res: Self) {
        Residue(self.0.wrapping_sub(rhs.0))
    }
}

impl vstd::std_specs::ops::NegSpecImpl for Residue {
    open spec fn obeys_neg_spec() -> bool {
        true
    }

    open spec fn neg_req(self) -> bool {
        true
    }

    open spec fn neg_spec(self) -> Self {
        Residue(wrap64(-(self.0 as int)))
    }
}

impl std::ops::Neg for Residue {
    type Output = Self;

    fn neg(self) -> (res: Self) {
        Residue(0u64.wrapping_sub(self.0))
    }
}

impl vstd::std_specs::ops::MulSpecImpl for Residue {
    open spec fn obeys_mul_spec() -> bool {
        true
    }

    open spec fn mul_req(self, rhs: Self) -> bool {
        true
    }

    open spec fn mul_spec(self, rhs: Self) -> Self {
        Residue(wrap64(self.0 * rhs.0))
    }
}

impl std::ops::Mul for Residue {
    type Output = Self;

    fn mul(self, rhs: Self) -> (res: Self) {
        proof {
            assert(self.0 as nat * rhs.0 as nat == self.0 * rhs.0);
        }
        Residue(self.0.wrapping_mul(rhs.0))
    }
}

impl Rig for Residue {
    open spec fn zero_spec() -> Self {
        Residue(0)
    }

    open spec fn one_spec() -> Self {
        Residue(1)
    }

    fn zero() -> (res: Self) {
        Residue(0)
    }

    fn one() -> (res: Self) {
        Residue(1)
    }
}

} // verus!
