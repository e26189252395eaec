//! The fold-only engine: point update and range fold over a monoid.

use vstd::prelude::*;
use crate::algebra::{duplicate, fold, lemma_fold_single, lemma_fold_split, Monoid};
use crate::segment_tree::layout::{
    lemma_ceil_log2, lemma_internal, lemma_span_children, lemma_span_monotone, lemma_span_zero,
    ceil_log2, root_offset, span_hi, span_lo, spans_within,
};
use vstd::arithmetic::power2::{lemma_pow2_unfold, pow2};

verus! {

/// The cached aggregate of node `v` is the combination of its children's.
pub open spec fn node_ok<S: Monoid>(data: Seq<S>, v: int) -> bool {
    data[v] == data[2 * v].op_spec(data[2 * v + 1])
}

/// Every internal node of the backing store caches the combination of its
/// children.
pub open spec fn tree_ok<S: Monoid>(data: Seq<S>) -> bool {
    &&& data.len() >= 2
    &&& data.len() % 2 == 0
    &&& forall|v: int| 1 <= v < data.len() / 2 ==> #[trigger] node_ok(data, v)
}

/// A node whose span lies within a row `b .. 2b` at or above the leaves
/// caches the reduction of exactly the positions it spans.
pub proof fn lemma_row_fold<S: Monoid>(data: Seq<S>, b: int, v: int, h: nat)
    requires
        tree_ok(data),
        1 <= b <= data.len() / 2,
        spans_within(b, v, h),
    ensures
        1 <= v < data.len(),
        0 <= span_lo(v, h) < span_hi(v, h) <= data.len(),
        data[v] == fold(data.subrange(span_lo(v, h), span_hi(v, h))),
    decreases h,
{
    if h == 0 {
        lemma_span_zero(v);
        assert(data.subrange(v, v + 1) =~= seq![data[v]]);
        lemma_fold_single(data[v]);
    } else {
        let g = (h - 1) as nat;
        lemma_internal(b, v, h);
        lemma_span_children(v, g);
        lemma_row_fold(data, b, 2 * v, g);
        lemma_row_fold(data, b, 2 * v + 1, g);
        assert(node_ok(data, v));
        lemma_fold_split(data, span_lo(v, h), span_lo(2 * v + 1, g), span_hi(v, h));
    }
}

/// A node that spans leaves only caches the reduction of exactly those leaves.
pub proof fn lemma_node_fold<S: Monoid>(data: Seq<S>, v: int, h: nat)
    requires
        tree_ok(data),
        spans_within(data.len() as int / 2, v, h),
    ensures
        1 <= v < data.len(),
        0 <= span_lo(v, h) < span_hi(v, h) <= data.len(),
        data[v] == fold(data.subrange(span_lo(v, h), span_hi(v, h))),
{
    lemma_row_fold(data, data.len() as int / 2, v, h);
}

/// A run of internal nodes reduces to the same value as the run of their
/// children.
pub proof fn lemma_children_fold<S: Monoid>(data: Seq<S>, lo: int, hi: int)
    requires
        tree_ok(data),
        1 <= lo <= hi <= data.len() / 2,
    ensures
        fold(data.subrange(lo, hi)) == fold(data.subrange(2 * lo, 2 * hi)),
    decreases hi - lo,
{
    if lo == hi {
        assert(data.subrange(lo, hi) =~= Seq::<S>::empty());
        assert(data.subrange(2 * lo, 2 * hi) =~= Seq::<S>::empty());
    } else {
        let u = hi - 1;
        lemma_children_fold(data, lo, u);
        assert(node_ok(data, u));
        lemma_fold_split(data, lo, u, hi);
        assert(data.subrange(u, hi) =~= seq![data[u]]);
        lemma_fold_single(data[u]);
        lemma_fold_split(data, 2 * lo, 2 * u, 2 * hi);
        lemma_fold_split(data, 2 * u, 2 * u + 1, 2 * hi);
        assert(data.subrange(2 * u, 2 * u + 1) =~= seq![data[2 * u]]);
        lemma_fold_single(data[2 * u]);
        assert(data.subrange(2 * u + 1, 2 * hi) =~= seq![data[2 * u + 1]]);
        lemma_fold_single(data[2 * u + 1]);
    }
}

/// The aggregate that the root of a tree over `a` caches: the values from
/// index `root_offset(a.len())` on, followed by those before it.
pub open spec fn root_fold<S: Monoid>(a: Seq<S>) -> S {
    let k = root_offset(a.len()) as int;
    fold(a.subrange(k, a.len() as int)).op_spec(fold(a.subrange(0, k)))
}

/// The root caches the reduction of the deeper leaf level followed by the
/// shallower one.
pub proof fn lemma_root_fold<S: Monoid>(data: Seq<S>)
    requires
        tree_ok(data),
    ensures
        ({
            let n = data.len() as int / 2;
            let k = root_offset(n as nat) as int;
            &&& 0 <= k < n
            &&& data[1] == fold(data.subrange(n + k, 2 * n)).op_spec(
                fold(data.subrange(n, n + k)),
            )
        }),
{
    let n = data.len() as int / 2;
    let m = ceil_log2(n as nat);
    let k = root_offset(n as nat) as int;
    lemma_ceil_log2(n as nat);
    if n == 1 {
        vstd::arithmetic::power2::lemma2_to64();
        assert(data.subrange(1, 2) =~= seq![data[1]]);
        lemma_fold_single(data[1]);
        assert(data.subrange(1, 1) =~= Seq::<S>::empty());
        S::lemma_identity(data[1]);
    } else {
        let g = (m - 1) as nat;
        let b = pow2(g) as int;
        lemma_pow2_unfold(m);
        assert(span_lo(1, g) == b && span_hi(1, g) == 2 * b) by (nonlinear_arith)
            requires
                span_lo(1, g) == 1 * b,
                span_hi(1, g) == (1 + 1) * b,
        ;
        lemma_row_fold(data, b, 1, g);
        lemma_fold_split(data, b, n, 2 * b);
        lemma_children_fold(data, b, n);
    }
}

/// Fills in every internal node bottom-up from the leaves.
pub(crate) fn build_tree<S: Monoid>(data: &mut Vec<S>)
    requires
        old(data)@.len() >= 2,
        old(data)@.len() % 2 == 0,
    ensures
        tree_ok(final(data)@),
        final(data)@.len() == old(data)@.len(),
        final(data)@.subrange(old(data)@.len() as int / 2, old(data)@.len() as int) == old(
            data,
        )@.subrange(old(data)@.len() as int / 2, old(data)@.len() as int),
{
    let n = data.len() / 2;
    let ghost leaves = data@.subrange(n as int, 2 * n);
    let mut i: usize = n;
    while i > 1
        invariant
            data@.len() == 2 * n,
            2 * n <= usize::MAX,
            1 <= i <= n,
            data@.subrange(n as int, 2 * n) == leaves,
            forall|v: int| i <= v < n ==> #[trigger] node_ok(data@, v),
        decreases i,
    {
        i -= 1;
        let x = data[2 * i].op(&data[2 * i + 1]);
        let ghost prev = data@;
        data[i] = x;
        proof {
            assert(data@.subrange(n as int, 2 * n) =~= prev.subrange(n as int, 2 * n));
            assert forall|v: int| i <= v < n implies #[trigger] node_ok(data@, v) by {
                if v != i as int {
                    assert(node_ok(prev, v));
                }
            }
        }
    }
}

/// A segment tree: a sequence of monoid values with point update and range
/// fold in logarithmic time.
pub struct SegmentTree<S: Monoid>(Vec<S>);

impl<S: Monoid> View for SegmentTree<S> {
    type V = Seq<S>;

    /// The sequence of values held by the tree.
    closed spec fn view(&self) -> Seq<S> {
        self.0@.subrange(self.0@.len() as int / 2, self.0@.len() as int)
    }
}

impl<S: Monoid> SegmentTree<S> {
    /// The backing store is well formed: it holds at least one value and
    /// every internal node caches the combination of its children.
    pub closed spec fn wf(&self) -> bool {
        tree_ok(self.0@)
    }

    /// A well-formed tree holds at least one value.
    pub proof fn lemma_wf_nonempty(&self)
        requires
            self.wf(),
        ensures
            self@.len() >= 1,
    {
    }

    /// Recomputes every strict ancestor of position `p`, leaf to root.
    fn rebuild_path(data: &mut Vec<S>, p: usize)
        requires
            old(data)@.len() >= 2,
            old(data)@.len() % 2 == 0,
            1 <= p < old(data)@.len(),
            forall|v: int|
                1 <= v < old(data)@.len() / 2 && v != p as int / 2 ==> #[trigger] node_ok(
                    old(data)@,
                    v,
                ),
        ensures
            tree_ok(final(data)@),
            final(data)@.len() == old(data)@.len(),
            final(data)@.subrange(old(data)@.len() as int / 2, old(data)@.len() as int) == old(
                data,
            )@.subrange(old(data)@.len() as int / 2, old(data)@.len() as int),
    {
        let ghost n = data@.len() as int / 2;
        let ghost leaves = data@.subrange(n, 2 * n);
        let mut i: usize = p;
        while i > 1
            invariant
                data@.len() == 2 * n,
                n >= 1,
                1 <= i < data@.len(),
                data@.subrange(n, 2 * n) == leaves,
                forall|v: int| 1 <= v < n && v != i as int / 2 ==> #[trigger] node_ok(data@, v),
            decreases i,
        {
            i = i / 2;
            let x = data[2 * i].op(&data[2 * i + 1]);
            let ghost prev = data@;
            data[i] = x;
            proof {
                assert(data@.subrange(n, 2 * n) =~= prev.subrange(n, 2 * n));
                assert forall|v: int| 1 <= v < n && v != i as int / 2 implies #[trigger] node_ok(
                    data@,
                    v,
                ) by {
                    if v != i as int {
                        assert(node_ok(prev, v));
                    }
                }
            }
        }
    }

    /// Creates a new segment tree with `n` elements, all equal to the
    /// identity.
    pub fn new(n: usize) -> (res: Self)
        requires
            0 < n,
            2 * n <= usize::MAX,
        ensures
            res.wf(),
            res@.len() == n,
            forall|i: int| 0 <= i < n ==> res@[i] == S::id_spec(),
    {
        let data = vec![S::id(); 2 * n];
        proof {
            assert forall|i: int| 0 <= i < 2 * n implies data@[i] == S::id_spec() by {
                S::lemma_clone(S::id_spec(), data@[i]);
            }
            S::lemma_identity(S::id_spec());
            assert forall|v: int| 1 <= v < data@.len() / 2 implies #[trigger] node_ok(
                data@,
                v,
            ) by {}
        }
        SegmentTree(data)
    }

    /// Creates a segment tree holding the values of `v`, in order.
    pub fn from_vec(v: Vec<S>) -> (res: Self)
        requires
            0 < v@.len(),
            2 * v@.len() <= usize::MAX,
        ensures
            res.wf(),
            res@ == v@,
    {
        let n = v.len();
        let mut v = v;
        let ghost leaves = v@;
        let mut data = vec![S::id(); n];
        data.append(&mut v);
        proof {
            assert(data@.subrange(n as int, 2 * n) =~= leaves);
        }
        build_tree(&mut data);
        SegmentTree(data)
    }

    /// Creates a segment tree holding clones of the values of `v`, in order.
    pub fn from_slice(v: &[S]) -> (res: Self)
        requires
            0 < v@.len(),
            2 * v@.len() <= usize::MAX,
        ensures
            res.wf(),
            res@ == v@,
    {
        let n = v.len();
        let mut data = vec![S::id(); n];
        let mut i: usize = 0;
        while i < n
            invariant
                n == v@.len(),
                i <= n,
                data@.len() == n + i,
                data@.subrange(n as int, n + i) == v@.subrange(0, i as int),
            decreases n - i,
        {
            let ghost prev = data@;
            data.push(duplicate(&v[i]));
            proof {
                assert(data@.subrange(n as int, n + i + 1) =~= prev.subrange(n as int, n + i).push(
                    v@[i as int],
                ));
                assert(v@.subrange(0, i + 1) =~= v@.subrange(0, i as int).push(v@[i as int]));
            }
            i += 1;
        }
        proof {
            assert(v@.subrange(0, n as int) =~= v@);
        }
        build_tree(&mut data);
        SegmentTree(data)
    }

    /// Sets the value at index `i` to `x`.
    pub fn set(&mut self, i: usize, x: S)
        requires
            old(self).wf(),
            i < old(self)@.len(),
        ensures
            final(self).wf(),
            final(self)@ == old(self)@.update(i as int, x),
    {
        let n = self.0.len() / 2;
        let ghost prev = self.0@;
        self.0[i + n] = x;
        proof {
            assert forall|v: int|
                1 <= v < n && v != (i + n) as int / 2 implies #[trigger] node_ok(self.0@, v) by {
                assert(node_ok(prev, v));
            }
            assert(self.0@.subrange(n as int, 2 * n) =~= prev.subrange(n as int, 2 * n).update(
                i as int,
                x,
            ));
        }
        Self::rebuild_path(&mut self.0, i + n);
    }

    /// Sets the value at index `i` to `op(a[i], x)`.
    pub fn operate(&mut self, i: usize, x: S)
        requires
            old(self).wf(),
            i < old(self)@.len(),
        ensures
            final(self).wf(),
            final(self)@ == old(self)@.update(i as int, old(self)@[i as int].op_spec(x)),
    {
        let n = self.0.len() / 2;
        let ghost prev = self.0@;
        let y = self.0[i + n].op(&x);
        self.0[i + n] = y;
        proof {
            assert forall|v: int|
                1 <= v < n && v != (i + n) as int / 2 implies #[trigger] node_ok(self.0@, v) by {
                assert(node_ok(prev, v));
            }
            assert(self.0@.subrange(n as int, 2 * n) =~= prev.subrange(n as int, 2 * n).update(
                i as int,
                y,
            ));
        }
        Self::rebuild_path(&mut self.0, i + n);
    }

    /// Returns the value at index `i`.
    pub fn get(&self, i: usize) -> (res: S)
        requires
            self.wf(),
            i < self@.len(),
        ensures
            res == self@[i as int],
    {
        duplicate(&self.0[self.0.len() / 2 + i])
    }

    /// Returns `op(a[l], ..., a[r - 1])`, the identity when the range is
    /// empty.
    ///
    /// Both ends of the range climb towards the root; a node that lies
    /// wholly within the range is combined on the side it is met on, and
    /// the left side is combined with the right only at the end, so that
    /// the order of the values is kept.
    pub fn range_fold(&self, l: usize, r: usize) -> (res: S)
        requires
            self.wf(),
            l <= r <= self@.len(),
        ensures
            res == fold(self@.subrange(l as int, r as int)),
    {
        if l == r {
            proof {
                assert(self@.subrange(l as int, r as int) =~= Seq::<S>::empty());
            }
            return S::id();
        }
        let n = self.0.len() / 2;
        let mut lo: usize = l + n;
        let mut hi: usize = r + n;
        let mut left = S::id();
        let mut right = S::id();
        let ghost data = self.0@;
        let ghost h: nat = 0;
        proof {
            lemma_span_zero(lo as int);
            lemma_span_zero(hi as int);
            assert(data.subrange(n + l, n + l) =~= Seq::<S>::empty());
            assert(data.subrange(n + r, n + r) =~= Seq::<S>::empty());
        }
        while lo < hi
            invariant
                tree_ok(data),
                data == self.0@,
                data.len() == 2 * n,
                l <= r <= n,
                lo <= hi,
                n + l <= span_lo(lo as int, h) <= span_lo(hi as int, h) <= n + r,
                left == fold(data.subrange(n + l, span_lo(lo as int, h))),
                right == fold(data.subrange(span_lo(hi as int, h), n + r)),
            decreases hi,
        {
            proof {
                lemma_span_monotone(lo as int, hi as int - 1, h);
                lemma_span_monotone(lo as int + 1, hi as int, h);
                if lo + 1 < hi {
                    lemma_span_monotone(lo as int + 1, hi as int - 1, h);
                }
                lemma_span_children(lo as int, h);
                lemma_span_children(hi as int - 1, h);
            }
            if lo % 2 == 1 {
                proof {
                    lemma_node_fold(data, lo as int, h);
                    lemma_fold_split(
                        data,
                        n + l,
                        span_lo(lo as int, h),
                        span_hi(lo as int, h),
                    );
                }
                left = left.op(&self.0[lo]);
                lo += 1;
            }
            if hi % 2 == 1 {
                hi -= 1;
                proof {
                    lemma_node_fold(data, hi as int, h);
                    lemma_fold_split(
                        data,
                        span_lo(hi as int, h),
                        span_hi(hi as int, h),
                        n + r,
                    );
                }
                right = self.0[hi].op(&right);
            }
            proof {
                lemma_span_children(lo as int / 2, h);
                lemma_span_children(hi as int / 2, h);
                h = h + 1;
            }
            lo = lo / 2;
            hi = hi / 2;
        }
        proof {
            lemma_fold_split(data, n + l, span_lo(lo as int, h), n + r);
            assert(self@.subrange(l as int, r as int) =~= data.subrange(n + l, n + r));
        }
        left.op(&right)
    }

    /// Returns the aggregate cached at the root: the values from index
    /// `root_offset(n)` on, followed by those before it.  This is
    /// `op(a[0], ..., a[n - 1])` whenever `n` is a power of two or the two
    /// parts commute.
    pub fn all_fold(&self) -> (res: S)
        requires
            self.wf(),
        ensures
            res == root_fold(self@),
    {
        proof {
            let n = self.0@.len() as int / 2;
            let k = root_offset(n as nat) as int;
            lemma_root_fold(self.0@);
            assert(self@.subrange(k, n) =~= self.0@.subrange(n + k, 2 * n));
            assert(self@.subrange(0, k) =~= self.0@.subrange(n, n + k));
        }
        duplicate(&self.0[1])
    }

    /// Returns the number of elements.
    pub fn len(&self) -> (res: usize)
        requires
            self.wf(),
        ensures
            res == self@.len(),
    {
        self.0.len() / 2
    }

    /// Returns whether the segment tree is empty.
    pub fn is_empty(&self) -> (res: bool)
        requires
            self.wf(),
        ensures
            res == (self@.len() == 0),
    {
        self.len() == 0
    }
}

} // verus!
