//! A Fenwick tree: prefix folds and point updates over a commutative
//! monoid, range folds and point reads over a commutative group.

use vstd::prelude::*;
use vstd::arithmetic::power2::{lemma_pow2_pos, lemma_pow2_unfold, pow2};
use crate::algebra::{duplicate, fold, lemma_fold_single, lemma_fold_split};

verus! {

/// A monoid whose operation is commutative.
pub trait Monoid: crate::algebra::Monoid {
    /// The operation is commutative.
    proof fn lemma_commutative(a: Self, b: Self)
        ensures
            a.op_spec(b) == b.op_spec(a),
    ;
}

/// A commutative monoid in which every element has an inverse.
pub trait Group: Monoid + crate::algebra::Group {

}

/// The number of trailing zero bits of `i`.
pub open spec fn trailing_zeros(i: nat) -> nat
    decreases i,
{
    if i == 0 || i % 2 == 1 {
        0
    } else {
        1 + trailing_zeros(i / 2)
    }
}

/// The lowest set bit of `i`, as a number: the largest power of two that
/// divides `i`.
pub open spec fn lsb(i: nat) -> nat {
    pow2(trailing_zeros(i))
}

/// The first index of the block that node `j` aggregates; the block ends
/// before index `j`.
pub open spec fn block_start(j: nat) -> int {
    if j == 0 {
        0
    } else {
        j - lsb(j)
    }
}

/// The lowest set bit of an odd number is one, that of a positive even
/// number twice that of its half; it is never more than the number.
pub proof fn lemma_lsb(i: nat)
    requires
        i >= 1,
    ensures
        1 <= lsb(i) <= i,
        i % 2 == 1 ==> lsb(i) == 1,
        i % 2 == 0 ==> lsb(i) == 2 * lsb(i / 2),
    decreases i,
{
    vstd::arithmetic::power2::lemma2_to64();
    if i % 2 == 0 {
        lemma_lsb(i / 2);
        lemma_pow2_unfold(trailing_zeros(i));
    }
}

/// Between `j` and `j + lsb(j)` no block reaches back before `j`.
pub proof fn lemma_lsb_between(j: nat, k: nat)
    requires
        1 <= j < k < j + lsb(j),
    ensures
        lsb(k) <= k - j,
    decreases j,
{
    lemma_lsb(j);
    lemma_lsb(k);
    if j % 2 == 0 && k % 2 == 0 {
        lemma_lsb_between(j / 2, k / 2);
    }
}

/// The block of `j + lsb(j)` contains the block of `j`.
pub proof fn lemma_lsb_next(j: nat)
    requires
        j >= 1,
    ensures
        lsb(j + lsb(j)) >= 2 * lsb(j),
    decreases j,
{
    lemma_lsb(j);
    lemma_lsb(j + lsb(j));
    if j % 2 == 0 {
        lemma_lsb_next(j / 2);
        lemma_lsb(j / 2);
    } else {
        lemma_lsb((j + 1) / 2);
    }
}

/// Below its lowest set bit every power of two, subtracted from `j`, is the
/// lowest set bit of the difference.
pub proof fn lemma_lsb_child(j: nat, e: nat)
    requires
        j >= 1,
        e < trailing_zeros(j),
    ensures
        pow2(e) < lsb(j),
        2 * pow2(e) <= lsb(j),
        lsb((j - pow2(e)) as nat) == pow2(e),
    decreases e,
{
    vstd::arithmetic::power2::lemma2_to64();
    lemma_lsb(j);
    lemma_pow2_pos(e);
    if e == 0 {
        lemma_lsb(j / 2);
        lemma_lsb((j - 1) as nat);
    } else {
        lemma_pow2_unfold(e);
        lemma_lsb_child(j / 2, (e - 1) as nat);
        let c = (j - pow2(e)) as nat;
        assert(c == 2 * (j / 2 - pow2((e - 1) as nat)));
        lemma_lsb(c);
    }
}

/// Clearing the lowest set bit subtracts it.
pub proof fn lemma_clear_lowest(x: u64)
    requires
        x >= 1,
    ensures
        x & ((x - 1) as u64) == x - lsb(x as nat),
    decreases x,
{
    lemma_lsb(x as nat);
    if x % 2 == 1 {
        assert(x & ((x - 1) as u64) == x - 1) by (bit_vector)
            requires
                x % 2 == 1,
        ;
    } else {
        let h = x / 2;
        lemma_clear_lowest(h);
        assert(x & ((x - 1) as u64) == 2 * (h & ((h - 1) as u64))) by (bit_vector)
            requires
                x % 2 == 0,
                x >= 2,
                h == x / 2,
        ;
    }
}

/// Returns the lowest set bit of `j`.
pub fn lowest_bit(j: usize) -> (res: usize)
    requires
        j >= 1,
    ensures
        res == lsb(j as nat),
{
    let x = j as u64;
    proof {
        lemma_clear_lowest(x);
        lemma_lsb(j as nat);
    }
    (x - (x & (x - 1))) as usize
}

/// Combining `x` into one element of a range combines it into the fold of
/// the range.
pub proof fn lemma_fold_update<S: Monoid>(a: Seq<S>, l: int, r: int, i: int, x: S)
    requires
        0 <= l <= i < r <= a.len(),
    ensures
        fold(a.update(i, a[i].op_spec(x)).subrange(l, r)) == fold(a.subrange(l, r)).op_spec(x),
{
    let b = a.update(i, a[i].op_spec(x));
    lemma_fold_split(a, l, i, r);
    lemma_fold_split(a, i, i + 1, r);
    lemma_fold_split(b, l, i, r);
    lemma_fold_split(b, i, i + 1, r);
    assert(b.subrange(l, i) =~= a.subrange(l, i));
    assert(b.subrange(i + 1, r) =~= a.subrange(i + 1, r));
    assert(a.subrange(i, i + 1) =~= seq![a[i]]);
    assert(b.subrange(i, i + 1) =~= seq![a[i].op_spec(x)]);
    lemma_fold_single(a[i]);
    lemma_fold_single(a[i].op_spec(x));
    let p = fold(a.subrange(l, i));
    let s = fold(a.subrange(i + 1, r));
    S::lemma_associative(a[i], x, s);
    S::lemma_commutative(x, s);
    S::lemma_associative(a[i], s, x);
    S::lemma_associative(p, a[i].op_spec(s), x);
}

/// Gathering the next lower block into an aggregate that already covers
/// `j - 2^e .. j - 1` extends it to cover `j - 2^(e + 1) .. j - 1`.
pub proof fn lemma_gather_step<S: Monoid>(a: Seq<S>, j: nat, e: nat, x: S, acc: S, child: S)
    requires
        1 <= j <= a.len() + 1,
        pow2(e) < lsb(j),
        acc == x.op_spec(fold(a.subrange(j - pow2(e), j - 1))),
        child == fold(
            a.subrange(block_start((j - pow2(e)) as nat), j - pow2(e)),
        ),
    ensures
        e < trailing_zeros(j),
        pow2(e + 1) == 2 * pow2(e),
        0 <= j - 2 * pow2(e),
        2 * pow2(e) <= lsb(j) <= j,
        acc.op_spec(child) == x.op_spec(fold(a.subrange(j - 2 * pow2(e), j - 1))),
{
    let t = pow2(e) as int;
    lemma_lsb(j);
    lemma_pow2_pos(e);
    if e >= trailing_zeros(j) {
        if e > trailing_zeros(j) {
            vstd::arithmetic::power2::lemma_pow2_strictly_increases(trailing_zeros(j), e);
        }
    }
    lemma_lsb_child(j, e);
    lemma_pow2_unfold(e + 1);
    let f = fold(a.subrange(j - t, j - 1));
    lemma_fold_split(a, j - 2 * t, j - t, j - 1);
    S::lemma_associative(x, f, child);
    S::lemma_commutative(f, child);
}

/// An aggregate that covers the whole block of `j` but for its last value
/// `x`, combined with `x` in either order, is the fold of the block.
pub proof fn lemma_gather_done<S: Monoid>(a: Seq<S>, j: nat, x: S)
    requires
        1 <= j <= a.len(),
        a[j - 1] == x,
    ensures
        x.op_spec(fold(a.subrange(j - lsb(j), j - 1))) == fold(
            a.subrange(block_start(j), j as int),
        ),
{
    lemma_lsb(j);
    let f = fold(a.subrange(j - lsb(j), j - 1));
    assert(a.subrange(j - 1, j as int) =~= seq![x]);
    lemma_fold_single(x);
    lemma_fold_split(a, j - lsb(j), j - 1, j as int);
    S::lemma_commutative(x, f);
}

/// A fold over a range only depends on the values within the range.
pub proof fn lemma_fold_agree<S: Monoid>(a: Seq<S>, b: Seq<S>, l: int, r: int)
    requires
        0 <= l <= r <= a.len(),
        r <= b.len(),
        forall|k: int| l <= k < r ==> a[k] == b[k],
    ensures
        fold(a.subrange(l, r)) == fold(b.subrange(l, r)),
{
    assert(a.subrange(l, r) =~= b.subrange(l, r));
}

/// Every node `j` from `1` to `a.len()` holds the fold of its block, and
/// node `0` the identity.
pub open spec fn blocks_ok<S: Monoid>(data: Seq<S>, a: Seq<S>) -> bool {
    &&& data.len() == a.len() + 1
    &&& forall|j: int|
        0 <= j <= a.len() ==> #[trigger] data[j] == fold(a.subrange(block_start(j as nat), j))
}

/// A Fenwick tree over a sequence of values of a commutative monoid.
pub struct FenwickTree<S: Monoid> {
    data: Vec<S>,
    vals: Ghost<Seq<S>>,
}

impl<S: Monoid> View for FenwickTree<S> {
    type V = Seq<S>;

    /// The sequence of values held by the tree.
    closed spec fn view(&self) -> Seq<S> {
        self.vals@
    }
}

impl<S: Monoid> FenwickTree<S> {
    /// Every node holds the fold of its block of values.
    pub closed spec fn wf(&self) -> bool {
        blocks_ok(self.data@, self.vals@)
    }

    /// Creates a new Fenwick tree with `n` elements, all equal to the
    /// identity.
    pub fn new(n: usize) -> (res: Self)
        requires
            n < usize::MAX,
        ensures
            res.wf(),
            res@.len() == n,
            forall|i: int| 0 <= i < n ==> res@[i] == S::id_spec(),
    {
        let data = vec![S::id(); n + 1];
        let ghost vals = Seq::new(n as nat, |i: int| S::id_spec());
        proof {
            assert forall|j: int| 0 <= j <= n implies #[trigger] data@[j] == fold(
                vals.subrange(block_start(j as nat), j),
            ) by {
                S::lemma_clone(S::id_spec(), data@[j]);
                if j >= 1 {
                    lemma_lsb(j as nat);
                }
                Self::lemma_fold_ids(vals.subrange(block_start(j as nat), j));
            }
        }
        FenwickTree { data, vals: Ghost(vals) }
    }

    /// A sequence of identities folds to the identity.
    proof fn lemma_fold_ids(s: Seq<S>)
        requires
            forall|i: int| 0 <= i < s.len() ==> s[i] == S::id_spec(),
        ensures
            fold(s) == S::id_spec(),
        decreases s.len(),
    {
        if s.len() > 0 {
            Self::lemma_fold_ids(s.drop_last());
            S::lemma_identity(S::id_spec());
        }
    }

    /// Turns a store that holds the identity followed by the values into
    /// one whose every node holds the fold of its block.
    fn build(data: &mut Vec<S>)
        requires
            old(data)@.len() >= 1,
            old(data)@[0] == S::id_spec(),
        ensures
            blocks_ok(final(data)@, old(data)@.subrange(1, old(data)@.len() as int)),
    {
        let n = data.len() - 1;
        let ghost a = data@.subrange(1, n + 1);
        let mut j: usize = 1;
        proof {
            assert(a.subrange(0, 0) =~= Seq::<S>::empty());
        }
        while j <= n
            invariant
                1 <= j <= n + 1,
                n + 1 <= usize::MAX,
                data@.len() == n + 1,
                a.len() == n,
                forall|k: int|
                    0 <= k < j ==> #[trigger] data@[k] == fold(
                        a.subrange(block_start(k as nat), k),
                    ),
                forall|k: int| j <= k <= n ==> #[trigger] data@[k] == a[k - 1],
            decreases n + 1 - j,
        {
            let low = lowest_bit(j);
            let mut t: usize = 1;
            let ghost e: nat = 0;
            let ghost x = a[j - 1];
            proof {
                vstd::arithmetic::power2::lemma2_to64();
                lemma_lsb(j as nat);
                assert(a.subrange(j - 1, j - 1) =~= Seq::<S>::empty());
                S::lemma_identity(x);
            }
            while t < low
                invariant
                    1 <= j <= n,
                    data@.len() == n + 1,
                    a.len() == n,
                    low == lsb(j as nat),
                    t == pow2(e),
                    1 <= t <= low <= j,
                    x == a[j - 1],
                    data@[j as int] == x.op_spec(fold(a.subrange(j - t, j - 1))),
                    forall|k: int|
                        0 <= k < j ==> #[trigger] data@[k] == fold(
                            a.subrange(block_start(k as nat), k),
                        ),
                    forall|k: int| j < k <= n ==> #[trigger] data@[k] == a[k - 1],
                decreases low - t,
            {
                proof {
                    assert(data@[j - t] == fold(
                        a.subrange(block_start((j - t) as nat), j - t),
                    ));
                    lemma_gather_step(
                        a,
                        j as nat,
                        e,
                        x,
                        data@[j as int],
                        data@[j - t],
                    );
                    e = e + 1;
                }
                let y = data[j].op(&data[j - t]);
                data[j] = y;
                t = t * 2;
            }
            proof {
                lemma_gather_done(a, j as nat, x);
            }
            j += 1;
        }
    }

    /// Creates a Fenwick tree holding the values of `v`, in order.
    pub fn from_vec(v: Vec<S>) -> (res: Self)
        requires
            v@.len() < usize::MAX,
        ensures
            res.wf(),
            res@ == v@,
    {
        let ghost given = v@;
        let mut v = v;
        let mut data = vec![S::id(); 1];
        proof {
            S::lemma_clone(S::id_spec(), data@[0]);
        }
        data.append(&mut v);
        let ghost a = data@.subrange(1, data@.len() as int);
        proof {
            assert(a =~= given);
        }
        Self::build(&mut data);
        FenwickTree { data, vals: Ghost(a) }
    }

    /// Creates a Fenwick tree holding clones of the values of `v`, in
    /// order.
    pub fn from_slice(v: &[S]) -> (res: Self)
        requires
            v@.len() < usize::MAX,
        ensures
            res.wf(),
            res@ == v@,
    {
        let n = v.len();
        let mut data = vec![S::id(); 1];
        proof {
            S::lemma_clone(S::id_spec(), data@[0]);
        }
        let mut i: usize = 0;
        while i < n
            invariant
                i <= n,
                n == v@.len(),
                data@.len() == i + 1,
                data@[0] == S::id_spec(),
                data@.subrange(1, i + 1) == v@.subrange(0, i as int),
            decreases n - i,
        {
            let ghost prev = data@;
            data.push(duplicate(&v[i]));
            proof {
                assert(data@.subrange(1, i + 2) =~= prev.subrange(1, i + 1).push(v@[i as int]));
                assert(v@.subrange(0, i + 1) =~= v@.subrange(0, i as int).push(v@[i as int]));
            }
            i += 1;
        }
        let ghost a = data@.subrange(1, n + 1);
        proof {
            assert(v@.subrange(0, n as int) =~= v@);
        }
        Self::build(&mut data);
        FenwickTree { data, vals: Ghost(a) }
    }

    /// Appends `x` to the sequence.
    pub fn push(&mut self, x: S)
        requires
            old(self).wf(),
            old(self)@.len() + 1 < usize::MAX,
        ensures
            final(self).wf(),
            final(self)@ == old(self)@.push(x),
    {
        let j = self.data.len();
        let low = lowest_bit(j);
        let ghost a = self.vals@;
        let ghost a2 = a.push(x);
        let mut acc = x;
        let mut t: usize = 1;
        let ghost e: nat = 0;
        proof {
            vstd::arithmetic::power2::lemma2_to64();
            lemma_lsb(j as nat);
            assert(a.subrange(j - 1, j - 1) =~= Seq::<S>::empty());
            S::lemma_identity(x);
        }
        while t < low
            invariant
                self.data@ == old(self).data@,
                blocks_ok(self.data@, a),
                j == a.len() + 1,
                low == lsb(j as nat),
                t == pow2(e),
                1 <= t <= low <= j,
                acc == x.op_spec(fold(a.subrange(j - t, j - 1))),
            decreases low - t,
        {
            proof {
                assert(self.data@[j - t] == fold(
                    a.subrange(block_start((j - t) as nat), j - t),
                ));
                lemma_gather_step(a, j as nat, e, x, acc, self.data@[j - t]);
                e = e + 1;
            }
            acc = acc.op(&self.data[j - t]);
            t = t * 2;
        }
        self.data.push(acc);
        proof {
            self.vals = Ghost(a2);
            lemma_fold_agree(a, a2, j - t, j - 1);
            lemma_gather_done(a2, j as nat, x);
            assert forall|k: int| 0 <= k <= a2.len() implies #[trigger] self.data@[k] == fold(
                a2.subrange(block_start(k as nat), k),
            ) by {
                if k < j {
                    if k >= 1 {
                        lemma_lsb(k as nat);
                    }
                    assert(old(self).data@[k] == fold(a.subrange(block_start(k as nat), k)));
                    lemma_fold_agree(a, a2, block_start(k as nat), k);
                }
            }
        }
    }

    /// Removes the last value of the sequence, if there is one.
    pub fn pop(&mut self)
        requires
            old(self).wf(),
        ensures
            final(self).wf(),
            final(self)@ == if old(self)@.len() == 0 {
                old(self)@
            } else {
                old(self)@.drop_last()
            },
    {
        if !self.is_empty() {
            let ghost a = self.vals@;
            let ghost a2 = a.drop_last();
            let ghost prev = self.data@;
            self.data.pop();
            proof {
                self.vals = Ghost(a2);
                assert forall|k: int| 0 <= k <= a2.len() implies #[trigger] self.data@[k] == fold(
                    a2.subrange(block_start(k as nat), k),
                ) by {
                    if k >= 1 {
                        lemma_lsb(k as nat);
                    }
                    assert(prev[k] == fold(a.subrange(block_start(k as nat), k)));
                    lemma_fold_agree(a, a2, block_start(k as nat), k);
                }
            }
        }
    }

    /// Sets the value at index `i` to `op(a[i], x)`.
    pub fn operate(&mut self, i: usize, x: S)
        requires
            old(self).wf(),
            i < old(self)@.len(),
        ensures
            final(self).wf(),
            final(self)@ == old(self)@.update(i as int, old(self)@[i as int].op_spec(x)),
    {
        let n = self.data.len() - 1;
        let ghost a = self.vals@;
        let ghost a2 = a.update(i as int, a[i as int].op_spec(x));
        let mut j: usize = i + 1;
        proof {
            lemma_lsb(j as nat);
            assert forall|k: int| 0 <= k < j implies #[trigger] self.data@[k] == fold(
                a2.subrange(block_start(k as nat), k),
            ) by {
                if k >= 1 {
                    lemma_lsb(k as nat);
                }
                assert(self.data@[k] == fold(a.subrange(block_start(k as nat), k)));
                lemma_fold_agree(a, a2, block_start(k as nat), k);
            }
        }
        while j <= n
            invariant
                self.data@.len() == n + 1,
                n + 1 <= usize::MAX,
                a.len() == n,
                a2 == a.update(i as int, a[i as int].op_spec(x)),
                i < n,
                1 <= j <= n + 1,
                j <= n ==> block_start(j as nat) <= i < j,
                forall|k: int|
                    0 <= k < j ==> #[trigger] self.data@[k] == fold(
                        a2.subrange(block_start(k as nat), k),
                    ),
                forall|k: int|
                    j <= k <= n ==> #[trigger] self.data@[k] == fold(
                        a.subrange(block_start(k as nat), k),
                    ),
            decreases n + 1 - j,
        {
            let ghost prev = self.data@;
            let y = self.data[j].op(&x);
            self.data[j] = y;
            let step = lowest_bit(j);
            proof {
                lemma_lsb(j as nat);
                lemma_lsb_next(j as nat);
                lemma_fold_update(a, block_start(j as nat), j as int, i as int, x);
                assert(prev[j as int] == fold(a.subrange(block_start(j as nat), j as int)));
                assert forall|k: int| j < k < j + step && k <= n implies #[trigger] self.data@[k]
                    == fold(a2.subrange(block_start(k as nat), k)) by {
                    lemma_lsb(k as nat);
                    lemma_lsb_between(j as nat, k as nat);
                    assert(prev[k] == fold(a.subrange(block_start(k as nat), k)));
                    lemma_fold_agree(a, a2, block_start(k as nat), k);
                }
            }
            if step > n - j {
                j = n + 1;
            } else {
                j = j + step;
                proof {
                    lemma_lsb(j as nat);
                }
            }
        }
        proof {
            self.vals = Ghost(a2);
        }
    }

    /// Returns `op(a[0], ..., a[r - 1])`.
    pub fn prefix_fold(&self, r: usize) -> (res: S)
        requires
            self.wf(),
            r <= self@.len(),
        ensures
            res == fold(self@.subrange(0, r as int)),
    {
        let ghost a = self.vals@;
        let mut res = duplicate(&self.data[r]);
        let mut k: usize = r;
        proof {
            if r >= 1 {
                lemma_lsb(r as nat);
            }
        }
        while k > 0
            invariant
                blocks_ok(self.data@, a),
                k <= r <= a.len(),
                0 <= block_start(k as nat) <= k,
                res == fold(a.subrange(block_start(k as nat), r as int)),
            decreases k,
        {
            let low = lowest_bit(k);
            let ghost mid = block_start(k as nat);
            k = k - low;
            proof {
                if k >= 1 {
                    lemma_lsb(k as nat);
                }
                assert(self.data@[k as int] == fold(a.subrange(block_start(k as nat), k as int)));
                lemma_fold_split(a, block_start(k as nat), mid, r as int);
            }
            res = self.data[k].op(&res);
        }
        res
    }

    /// Returns `op(a[0], ..., a[n - 1])`.
    pub fn all_fold(&self) -> (res: S)
        requires
            self.wf(),
        ensures
            res == fold(self@),
    {
        proof {
            assert(self@.subrange(0, self@.len() as int) =~= self@);
        }
        self.prefix_fold(self.len())
    }

    /// Returns the number of elements.
    pub fn len(&self) -> (res: usize)
        requires
            self.wf(),
        ensures
            res == self@.len(),
    {
        self.data.len() - 1
    }

    /// Returns whether the Fenwick tree is empty.
    pub fn is_empty(&self) -> (res: bool)
        requires
            self.wf(),
        ensures
            res == (self@.len() == 0),
    {
        self.data.len() == 1
    }
}

/// In a group, the inverse of a prefix cancels it from a longer prefix.
pub proof fn lemma_cancel_prefix<S: Group>(a: Seq<S>, l: int, r: int)
    requires
        0 <= l <= r <= a.len(),
    ensures
        fold(a.subrange(0, l)).inv_spec().op_spec(fold(a.subrange(0, r))) == fold(
            a.subrange(l, r),
        ),
{
    let p = fold(a.subrange(0, l));
    let m = fold(a.subrange(l, r));
    lemma_fold_split(a, 0, l, r);
    S::lemma_associative(p.inv_spec(), p, m);
    S::lemma_inverse(p);
    S::lemma_identity(m);
}

impl<S: Group> FenwickTree<S> {
    /// Sets the value at index `i` to `x`.
    pub fn set(&mut self, i: usize, x: S)
        requires
            old(self).wf(),
            i < old(self)@.len(),
        ensures
            final(self).wf(),
            final(self)@ == old(self)@.update(i as int, x),
    {
        let cur = self.get(i);
        let diff = cur.inv().op(&x);
        proof {
            S::lemma_associative(cur, cur.inv_spec(), x);
            S::lemma_inverse(cur);
            S::lemma_identity(x);
        }
        self.operate(i, diff);
    }

    /// Returns the value at index `i`.
    pub fn get(&self, i: usize) -> (res: S)
        requires
            self.wf(),
            i < self@.len(),
        ensures
            res == self@[i as int],
    {
        proof {
            lemma_cancel_prefix(self@, i as int, i + 1);
            assert(self@.subrange(i as int, i + 1) =~= seq![self@[i as int]]);
            lemma_fold_single(self@[i as int]);
        }
        proof {
            assert(self.data.len() == self.data@.len());
        }
        self.prefix_fold(i).inv().op(&self.prefix_fold(i + 1))
    }

    /// Returns `op(a[l], ..., a[r - 1])`, the identity when the range is
    /// empty.
    pub fn range_fold(&self, l: usize, r: usize) -> (res: S)
        requires
            self.wf(),
            l <= r <= self@.len(),
        ensures
            res == fold(self@.subrange(l as int, r as int)),
    {
        proof {
            lemma_cancel_prefix(self@, l as int, r as int);
        }
        self.prefix_fold(l).inv().op(&self.prefix_fold(r))
    }
}

} // verus!
