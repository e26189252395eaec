//! A sparse table: range folds over a band in constant time after an
//! `O(n log n)` construction.

use vstd::prelude::*;
use vstd::arithmetic::power2::{lemma_pow2_pos, lemma_pow2_unfold, pow2};
use crate::algebra::Band;

verus! {

/// The left-to-right combination `s[0] op s[1] op ... op s[len - 1]` of a
/// sequence that is not empty.
pub open spec fn band_fold<S: Band>(s: Seq<S>) -> S
    decreases s.len(),
{
    if s.len() <= 1 {
        s[0]
    } else {
        band_fold(s.drop_last()).op_spec(s.last())
    }
}

/// The largest `k` with `2^k <= n`, zero for `n == 0`.
pub open spec fn floor_log2(n: nat) -> nat
    decreases n,
{
    if n <= 1 {
        0
    } else {
        1 + floor_log2(n / 2)
    }
}

/// `2^floor_log2(n)` is the largest power of two that is at most `n`.
pub proof fn lemma_floor_log2(n: nat)
    requires
        n >= 1,
    ensures
        pow2(floor_log2(n)) <= n < 2 * pow2(floor_log2(n)),
    decreases n,
{
    vstd::arithmetic::power2::lemma2_to64();
    if n > 1 {
        lemma_floor_log2(n / 2);
        lemma_pow2_unfold(floor_log2(n));
    }
}

/// The logarithm does not decrease when its argument grows.
pub proof fn lemma_floor_log2_monotone(m: nat, n: nat)
    requires
        m <= n,
    ensures
        floor_log2(m) <= floor_log2(n),
    decreases n,
{
    if m > 1 {
        lemma_floor_log2_monotone(m / 2, n / 2);
    }
}

/// The combination of a concatenation is the combination of the
/// combinations.
pub proof fn lemma_band_fold_concat<S: Band>(a: Seq<S>, b: Seq<S>)
    requires
        a.len() >= 1,
        b.len() >= 1,
    ensures
        band_fold(a + b) == band_fold(a).op_spec(band_fold(b)),
    decreases b.len(),
{
    assert((a + b).drop_last() =~= a + b.drop_last());
    if b.len() > 1 {
        lemma_band_fold_concat(a, b.drop_last());
        S::lemma_associative(band_fold(a), band_fold(b.drop_last()), b.last());
    } else {
        assert(a + b.drop_last() =~= a);
    }
}

/// Two ranges that overlap or touch combine to the combination of their
/// union.
pub proof fn lemma_band_fold_overlap<S: Band>(s: Seq<S>, l: int, m: int, k: int, r: int)
    requires
        0 <= l <= m < k <= r <= s.len(),
    ensures
        band_fold(s.subrange(l, k)).op_spec(band_fold(s.subrange(m, r))) == band_fold(
            s.subrange(l, r),
        ),
{
    let b = band_fold(s.subrange(m, k));
    S::lemma_idempotent(b);
    if l < m {
        assert(s.subrange(l, k) =~= s.subrange(l, m) + s.subrange(m, k));
        lemma_band_fold_concat(s.subrange(l, m), s.subrange(m, k));
    }
    if k < r {
        assert(s.subrange(m, r) =~= s.subrange(m, k) + s.subrange(k, r));
        lemma_band_fold_concat(s.subrange(m, k), s.subrange(k, r));
        assert(s.subrange(l, r) =~= s.subrange(l, k) + s.subrange(k, r));
        lemma_band_fold_concat(s.subrange(l, k), s.subrange(k, r));
    }
    let x = band_fold(s.subrange(l, k));
    if l < m && k < r {
        let a = band_fold(s.subrange(l, m));
        let c = band_fold(s.subrange(k, r));
        S::lemma_associative(a.op_spec(b), b, c);
        S::lemma_associative(a, b, b);
    } else if l < m {
        let a = band_fold(s.subrange(l, m));
        S::lemma_associative(a, b, b);
    } else if k < r {
        let c = band_fold(s.subrange(k, r));
        S::lemma_associative(b, b, c);
    }
}

/// Returns the largest `k` with `2^k <= n`, together with `2^k`.
pub(crate) fn log2(n: usize) -> (res: (usize, usize))
    requires
        n >= 1,
    ensures
        res.0 == floor_log2(n as nat),
        res.1 == pow2(res.0 as nat),
        res.0 < usize::BITS,
{
    let mut k: usize = 0;
    let mut p: usize = 1;
    let mut m: usize = n;
    proof {
        vstd::arithmetic::power2::lemma2_to64();
    }
    while m > 1
        invariant
            1 <= m <= n,
            p == pow2(k as nat),
            p >= 1,
            p * m <= n,
            floor_log2(n as nat) == k + floor_log2(m as nat),
            k < usize::BITS,
        decreases m,
    {
        proof {
            lemma_pow2_unfold((k + 1) as nat);
            assert(2 * p * (m / 2) <= p * m) by (nonlinear_arith)
                requires
                    p >= 0,
                    m >= 0,
            ;
            assert(2 * p <= p * m) by (nonlinear_arith)
                requires
                    p >= 1,
                    m >= 2,
            ;
            lemma_bits(k as nat, p as nat);
        }
        m = m / 2;
        p = p * 2;
        k = k + 1;
    }
    (k, p)
}

/// A power of two that fits in twice a `usize` has an exponent below
/// the number of bits.
proof fn lemma_bits(k: nat, p: nat)
    requires
        p == pow2(k),
        2 * p <= usize::MAX,
    ensures
        k + 1 < usize::BITS,
{
    vstd::arithmetic::power2::lemma2_to64();
    vstd::arithmetic::power2::lemma2_to64_rest();
    if k + 1 >= usize::BITS {
        if usize::BITS == 32 {
            if k > 31 {
                vstd::arithmetic::power2::lemma_pow2_strictly_increases(31, k);
            }
        } else {
            if k > 63 {
                vstd::arithmetic::power2::lemma_pow2_strictly_increases(63, k);
            }
        }
    }
}

/// Position `i` of level `k` lies within a store of `levels` levels of `n`
/// cells each.
pub proof fn lemma_cell_index(n: int, levels: int, k: int, i: int)
    requires
        0 <= k < levels,
        0 <= i < n,
    ensures
        0 <= k * n + i < levels * n,
        k * n >= 0,
        (k + 1) * n == k * n + n,
        (k + 1) * n <= levels * n,
        levels * n == n * levels,
{
    assert(levels * n == n * levels) by (nonlinear_arith);
    assert((k + 1) * n <= levels * n) by (nonlinear_arith)
        requires
            k + 1 <= levels,
            n >= 0,
    ;
    assert(k * n >= 0) by (nonlinear_arith)
        requires
            k >= 0,
            n >= 0,
    ;
    assert((k + 1) * n == k * n + n) by (nonlinear_arith);
}

/// Level `k` of the store holds, at every position `i` with
/// `i + 2^k <= n`, the combination of the `2^k` values from `i` on.
pub open spec fn level_ok<S: Band>(data: Seq<S>, n: int, k: nat) -> bool {
    forall|i: int|
        0 <= i && i + pow2(k) <= n ==> #[trigger] data[k * n + i] == band_fold(
            data.subrange(i, i + pow2(k)),
        )
}

/// A sparse table over a sequence of values of a band.
pub struct SparseTable<S: Band> {
    data: Vec<S>,
    n: usize,
}

impl<S: Band> View for SparseTable<S> {
    type V = Seq<S>;

    /// The sequence of values that the table was built from.
    closed spec fn view(&self) -> Seq<S> {
        self.data@.subrange(0, self.n as int)
    }
}

impl<S: Band> SparseTable<S> {
    /// The table holds at least one value and every level up to the
    /// logarithm of their number.
    pub closed spec fn wf(&self) -> bool {
        let n = self.n as int;
        let levels = floor_log2(self.n as nat) + 1;
        &&& n >= 1
        &&& self.data@.len() == levels * n
        &&& self.data@.len() >= n
        &&& forall|k: nat| k < levels ==> #[trigger] level_ok(self.data@, n, k)
    }

    /// Fills in every level above the values themselves.
    fn build(data: Vec<S>) -> (res: Self)
        requires
            data@.len() >= 1,
            data@.len() * (floor_log2(data@.len()) + 1) <= usize::MAX,
        ensures
            res.wf(),
            res@ == data@,
    {
        let n = data.len();
        let ghost a = data@;
        let (log, _) = log2(n);
        let mut data = data;
        let mut k: usize = 1;
        let mut half: usize = 1;
        proof {
            vstd::arithmetic::power2::lemma2_to64();
            assert forall|i: int| 0 <= i && i + pow2(0) <= n implies #[trigger] data@[0 * n + i]
                == band_fold(data@.subrange(i, i + pow2(0))) by {
                assert(data@.subrange(i, i + 1).len() == 1);
            }
            assert(1 * n == n) by (nonlinear_arith);
        }
        while k <= log
            invariant
                n >= 1,
                n == a.len(),
                log == floor_log2(n as nat),
                n * (log + 1) <= usize::MAX,
                1 <= k <= log + 1,
                log < usize::BITS,
                half == pow2((k - 1) as nat),
                1 <= half <= n,
                data@.len() == k * n,
                data@.subrange(0, n as int) == a,
                forall|j: nat| j < k ==> #[trigger] level_ok(data@, n as int, j),
            decreases log + 1 - k,
        {
            let ghost below = data@;
            let mut i: usize = 0;
            proof {
                lemma_cell_index(n as int, log + 1, k as int, 0);
                lemma_cell_index(n as int, log + 1, k - 1, 0);
                lemma_floor_log2(n as nat);
                lemma_pow2_unfold(k as nat);
                if k < log {
                    vstd::arithmetic::power2::lemma_pow2_strictly_increases(k as nat, log as nat);
                }
            }
            while i < n
                invariant
                    n >= 1,
                    n == a.len(),
                    1 <= k <= log,
                    n * (log + 1) <= usize::MAX,
                    half == pow2((k - 1) as nat),
                    2 * half == pow2(k as nat),
                    1 <= half,
                    2 * half <= n,
                    i <= n,
                    below.len() == k * n,
                    (k - 1) * n + n == k * n,
                    (k - 1) * n >= 0,
                    k * n + n <= usize::MAX,
                    data@.len() == k * n + i,
                    data@.subrange(0, k * n) == below,
                    level_ok(below, n as int, (k - 1) as nat),
                    forall|c: int|
                        0 <= c < i && c + 2 * half <= n ==> #[trigger] data@[k * n + c]
                            == band_fold(below.subrange(c, c + 2 * half)),
                decreases n - i,
            {
                let ghost prev = data@;
                let base = (k - 1) * n;
                proof {
                    assert(prev.subrange(0, k * n)[base + i] == prev[base + i]);
                }
                let cell = if i + 2 * half <= n {
                    proof {
                        assert(prev.subrange(0, k * n)[base + i + half] == prev[base + i + half]);
                        assert(below[(k - 1) * n + i] == band_fold(below.subrange(i as int, i + half)));
                        assert(below[(k - 1) * n + (i + half)] == band_fold(
                            below.subrange(i + half, i + half + half),
                        ));
                        assert(below.subrange(i as int, i + 2 * half) =~= below.subrange(
                            i as int,
                            i + half,
                        ) + below.subrange(i + half, i + 2 * half));
                        lemma_band_fold_concat(
                            below.subrange(i as int, i + half),
                            below.subrange(i + half, i + 2 * half),
                        );
                    }
                    data[base + i].op(&data[base + i + half])
                } else {
                    data[base + i].clone()
                };
                data.push(cell);
                proof {
                    assert(data@.subrange(0, k * n) =~= prev.subrange(0, k * n));
                }
                i += 1;
            }
            proof {
                let after = data@;
                assert((k + 1) * n == k * n + n) by (nonlinear_arith);
                assert(after.subrange(0, n as int) =~= below.subrange(0, n as int));
                assert forall|j: nat| j < k + 1 implies #[trigger] level_ok(after, n as int, j) by {
                    assert forall|c: int| 0 <= c && c + pow2(j) <= n implies #[trigger] after[j * n
                        + c] == band_fold(after.subrange(c, c + pow2(j))) by {
                        lemma_pow2_pos(j);
                        if j < k {
                            lemma_cell_index(n as int, k as int, j as int, c);
                            assert(level_ok(below, n as int, j));
                            assert(below[j * n + c] == band_fold(below.subrange(c, c + pow2(j))));
                            assert(after.subrange(0, k * n)[j * n + c] == after[j * n + c]);
                            assert(after.subrange(c, c + pow2(j)) =~= below.subrange(
                                c,
                                c + pow2(j),
                            ));
                        } else {
                            assert(after.subrange(c, c + pow2(j)) =~= below.subrange(
                                c,
                                c + 2 * half,
                            ));
                        }
                    }
                }
            }
            half = half * 2;
            k += 1;
        }
        proof {
            assert((log + 1) * n == n * (log + 1)) by (nonlinear_arith);
            assert((log + 1) * n >= n) by (nonlinear_arith)
                requires
                    log >= 0,
                    n >= 0,
            ;
        }
        SparseTable { data, n }
    }

    /// Creates a sparse table over the values of `v`, in order.
    pub fn from_vec(v: Vec<S>) -> (res: Self)
        requires
            v@.len() >= 1,
            v@.len() * (floor_log2(v@.len()) + 1) <= usize::MAX,
        ensures
            res.wf(),
            res@ == v@,
    {
        Self::build(v)
    }

    /// Creates a sparse table over clones of the values of `v`, in order.
    pub fn from_slice(v: &[S]) -> (res: Self)
        requires
            v@.len() >= 1,
            v@.len() * (floor_log2(v@.len()) + 1) <= usize::MAX,
        ensures
            res.wf(),
            res@ == v@,
    {
        let n = v.len();
        let mut data: Vec<S> = Vec::with_capacity(n);
        let mut i: usize = 0;
        while i < n
            invariant
                n == v@.len(),
                i <= n,
                data@ == v@.subrange(0, i as int),
            decreases n - i,
        {
            let x = v[i].clone();
            proof {
                S::lemma_clone(v@[i as int], x);
            }
            data.push(x);
            proof {
                assert(data@ =~= v@.subrange(0, i + 1));
            }
            i += 1;
        }
        proof {
            assert(v@.subrange(0, n as int) =~= v@);
        }
        Self::build(data)
    }

    /// Returns `op(a[l], ..., a[r - 1])` for a range that is not empty.
    pub fn range_fold(&self, l: usize, r: usize) -> (res: S)
        requires
            self.wf(),
            l < r <= self@.len(),
        ensures
            res == band_fold(self@.subrange(l as int, r as int)),
    {
        let n = self.n;
        proof {
            assert(self.data.len() == self.data@.len());
        }
        let (log, p) = log2(r - l);
        proof {
            let levels = floor_log2(n as nat) + 1;
            lemma_floor_log2((r - l) as nat);
            lemma_floor_log2_monotone((r - l) as nat, n as nat);
            lemma_cell_index(n as int, levels as int, log as int, l as int);
            lemma_cell_index(n as int, levels as int, log as int, r - p);
            assert(level_ok(self.data@, n as int, log as nat));
            assert(self.data@[log * n + l] == band_fold(self.data@.subrange(l as int, l + p)));
            assert(self.data@[log * n + (r - p)] == band_fold(
                self.data@.subrange(r - p, r as int),
            ));
            assert(self.data@.subrange(l as int, l + p) =~= self@.subrange(l as int, l + p));
            assert(self.data@.subrange(r - p, r as int) =~= self@.subrange(r - p, r as int));
            if p < r - l {
                lemma_band_fold_overlap(self@, l as int, r - p, l + p, r as int);
            } else {
                S::lemma_idempotent(band_fold(self@.subrange(l as int, r as int)));
            }
        }
        self.data[log * n + l].op(&self.data[log * n + r - p])
    }

    /// Returns the number of elements.
    pub fn len(&self) -> (res: usize)
        requires
            self.wf(),
        ensures
            res == self@.len(),
    {
        self.n
    }
}

} // verus!
