//! The fold-and-apply engine: range apply and range fold together, with
//! pending actions deferred at internal nodes.

use vstd::prelude::*;
use vstd::arithmetic::power2::{lemma_pow2_pos, lemma_pow2_unfold, pow2};
use vstd::arithmetic::div_mod::lemma_div_denominator;
use crate::algebra::{duplicate, fold, lemma_fold_single, lemma_fold_split, Monoid};
use crate::segment_tree::base::{build_tree, node_ok, tree_ok};
use crate::segment_tree::layout::{
    lemma_internal, lemma_node_bounds, lemma_span_children, lemma_span_monotone,
    lemma_span_zero, span_hi, span_lo, spans_within,
};
use crate::segment_tree::frontier::{
    apply_inv, covered, lemma_ascend, lemma_take_left, lemma_take_right, taken_data, taken_lazy,
    Frontier,
};
use crate::segment_tree::monoid::Action;
use crate::segment_tree::tags::{
    acted, all_id_path, lemma_fresh_id_path, lemma_push_above, lemma_push_effect,
    lemma_push_keeps_id_path, lemma_resolve_frame, lemma_resolve_id_path, on_path, pushed,
    resolve,
};

verus! {

/// The cached aggregate of node `v` is the combination of its children's
/// with the node's own pending action already applied.
pub open spec fn cached_ok<S: Monoid, F: Action<S>>(data: Seq<S>, lazy: Seq<F>, v: int) -> bool {
    data[v] == lazy[v].act_spec(data[2 * v].op_spec(data[2 * v + 1]))
}

/// Every internal node caches a correct aggregate, except possibly the
/// nodes on the paths from `a` and from `b` to the root.
pub open spec fn ok_except<S: Monoid, F: Action<S>>(
    data: Seq<S>,
    lazy: Seq<F>,
    a: int,
    b: int,
) -> bool {
    forall|v: int|
        1 <= v < lazy.len() ==> #[trigger] cached_ok(data, lazy, v) || on_path(v, a) || on_path(
            v,
            b,
        )
}

/// The backing arrays have matching sizes for a tree over at least one
/// value.
pub open spec fn shape_ok<S, F>(data: Seq<S>, lazy: Seq<F>) -> bool {
    &&& lazy.len() >= 1
    &&& data.len() == 2 * lazy.len()
    &&& data.len() <= usize::MAX
}

/// The sequence of values that the arrays stand for: every leaf with the
/// pending actions of its ancestors resolved, nearest first.
pub open spec fn values<S: Monoid, F: Action<S>>(data: Seq<S>, lazy: Seq<F>) -> Seq<S> {
    Seq::new(
        lazy.len(),
        |i: int| resolve(lazy, (lazy.len() + i) / 2, data[lazy.len() + i]),
    )
}

/// Resolution distributes over the operation of `S`.
pub proof fn lemma_resolve_distributes<S: Monoid, F: Action<S>>(lazy: Seq<F>, u: int, a: S, b: S)
    ensures
        resolve(lazy, u, a.op_spec(b)) == resolve(lazy, u, a).op_spec(resolve(lazy, u, b)),
    decreases u,
{
    if u >= 1 {
        F::lemma_act_distributes(lazy[u], a, b);
        lemma_resolve_distributes(lazy, u / 2, lazy[u].act_spec(a), lazy[u].act_spec(b));
    }
}

/// A node that spans leaves only caches, up to the pending actions of its
/// ancestors, the reduction of exactly the values it spans.
pub proof fn lemma_lazy_node_fold<S: Monoid, F: Action<S>>(
    data: Seq<S>,
    lazy: Seq<F>,
    v: int,
    h: nat,
)
    requires
        shape_ok(data, lazy),
        ok_except(data, lazy, 0, 0),
        spans_within(lazy.len() as int, v, h),
    ensures
        1 <= v < data.len(),
        lazy.len() <= span_lo(v, h) < span_hi(v, h) <= data.len(),
        resolve(lazy, v / 2, data[v]) == fold(
            values(data, lazy).subrange(span_lo(v, h) - lazy.len(), span_hi(v, h) - lazy.len()),
        ),
    decreases h,
{
    let n = lazy.len() as int;
    let a = values(data, lazy);
    if h == 0 {
        lemma_span_zero(v);
        assert(a.subrange(v - n, v + 1 - n) =~= seq![a[v - n]]);
        lemma_fold_single(a[v - n]);
    } else {
        let g = (h - 1) as nat;
        lemma_internal(n, v, h);
        lemma_span_children(v, g);
        lemma_lazy_node_fold(data, lazy, 2 * v, g);
        lemma_lazy_node_fold(data, lazy, 2 * v + 1, g);
        assert(cached_ok(data, lazy, v));
        assert(!on_path(v, 0));
        lemma_resolve_distributes(lazy, v, data[2 * v], data[2 * v + 1]);
        lemma_fold_split(a, span_lo(v, h) - n, span_lo(2 * v + 1, g) - n, span_hi(v, h) - n);
        assert((2 * v) / 2 == v && (2 * v + 1) / 2 == v);
    }
}

/// The effect of pushing the pending action of node `k` to its children:
/// cached aggregates stay correct and the values stay the same.
pub proof fn lemma_push_node<S: Monoid, F: Action<S>>(data: Seq<S>, lazy: Seq<F>, k: int)
    requires
        shape_ok(data, lazy),
        ok_except(data, lazy, 0, 0),
        1 <= k < lazy.len(),
    ensures
        ({
            let f = lazy[k];
            let data2 = data.update(2 * k, f.act_spec(data[2 * k])).update(
                2 * k + 1,
                f.act_spec(data[2 * k + 1]),
            );
            let lazy2 = pushed(lazy, k);
            &&& shape_ok(data2, lazy2)
            &&& ok_except(data2, lazy2, 0, 0)
            &&& values(data2, lazy2) == values(data, lazy)
        }),
{
    let n = lazy.len() as int;
    let f = lazy[k];
    let data2 = data.update(2 * k, f.act_spec(data[2 * k])).update(
        2 * k + 1,
        f.act_spec(data[2 * k + 1]),
    );
    let lazy2 = pushed(lazy, k);
    assert forall|v: int| 1 <= v < n implies #[trigger] cached_ok(data2, lazy2, v) by {
        assert(cached_ok(data, lazy, v));
        assert(!on_path(v, 0));
        if v == k {
            F::lemma_act_distributes(f, data[2 * k], data[2 * k + 1]);
            F::lemma_act_identity(data2[2 * k].op_spec(data2[2 * k + 1]));
        } else if v == 2 * k || v == 2 * k + 1 {
            F::lemma_act_compose(f, lazy[v], data[2 * v].op_spec(data[2 * v + 1]));
        } else {
        }
    }
    assert forall|i: int| 0 <= i < n implies values(data2, lazy2)[i] == values(data, lazy)[i] by {
        let q = n + i;
        let u = q / 2;
        if u == k {
            lemma_push_above(lazy, k, data[q]);
        } else if u > k {
            lemma_push_effect(lazy, k, u, data[q]);
        } else {
            lemma_resolve_frame(lazy2, lazy, u, data[q]);
        }
    }
    assert(values(data2, lazy2) =~= values(data, lazy));
}

/// A lazy segment tree: a sequence of monoid values with range apply and
/// range fold in logarithmic time.
pub struct LazySegmentTree<S: Monoid, F: Action<S>> {
    data: Vec<S>,
    lazy: Vec<F>,
}

impl<S: Monoid, F: Action<S>> View for LazySegmentTree<S, F> {
    type V = Seq<S>;

    /// The sequence of values held by the tree.
    closed spec fn view(&self) -> Seq<S> {
        values(self.data@, self.lazy@)
    }
}

impl<S: Monoid, F: Action<S>> LazySegmentTree<S, F> {
    /// The tree holds at least one value, and every internal node's cached
    /// aggregate reflects its children and its own pending action.
    pub closed spec fn wf(&self) -> bool {
        &&& shape_ok(self.data@, self.lazy@)
        &&& ok_except(self.data@, self.lazy@, 0, 0)
    }

    /// A well-formed tree holds at least one value.
    pub proof fn lemma_wf_nonempty(&self)
        requires
            self.wf(),
        ensures
            self@.len() >= 1,
    {
    }

    /// Wraps a built backing store with no pending actions.
    fn with_data(data: Vec<S>) -> (res: Self)
        requires
            tree_ok(data@),
            data@.len() <= usize::MAX,
        ensures
            res.wf(),
            res@ == data@.subrange(data@.len() as int / 2, data@.len() as int),
    {
        let n = data.len() / 2;
        let lazy = vec![F::id(); n];
        let res = LazySegmentTree { data, lazy };
        proof {
            assert forall|w: int| 1 <= w < res.lazy@.len() implies res.lazy@[w]
                == F::id_spec() by {
                F::lemma_clone(F::id_spec(), res.lazy@[w]);
            }
            assert forall|v: int| 1 <= v < n implies #[trigger] cached_ok(
                res.data@,
                res.lazy@,
                v,
            ) by {
                assert(node_ok(res.data@, v));
                F::lemma_act_identity(res.data@[2 * v].op_spec(res.data@[2 * v + 1]));
            }
            assert forall|i: int| 0 <= i < n implies res@[i] == res.data@[n + i] by {
                lemma_fresh_id_path(res.lazy@, (n + i) / 2);
                lemma_resolve_id_path(res.lazy@, (n + i) / 2, res.data@[n + i]);
            }
            assert(res@ =~= res.data@.subrange(n as int, 2 * n));
        }
        res
    }

    /// Creates a new lazy segment tree with `n` elements, all equal to the
    /// identity.
    pub fn new(n: usize) -> (res: Self)
        requires
            0 < n,
            2 * n <= usize::MAX,
        ensures
            res.wf(),
            res@.len() == n,
            forall|i: int| 0 <= i < n ==> res@[i] == S::id_spec(),
    {
        let data = vec![S::id(); 2 * n];
        proof {
            assert forall|i: int| 0 <= i < 2 * n implies data@[i] == S::id_spec() by {
                S::lemma_clone(S::id_spec(), data@[i]);
            }
            S::lemma_identity(S::id_spec());
            assert forall|v: int| 1 <= v < data@.len() / 2 implies #[trigger] node_ok(
                data@,
                v,
            ) by {}
        }
        Self::with_data(data)
    }

    /// Creates a lazy segment tree holding the values of `v`, in order.
    pub fn from_vec(v: Vec<S>) -> (res: Self)
        requires
            0 < v@.len(),
            2 * v@.len() <= usize::MAX,
        ensures
            res.wf(),
            res@ == v@,
    {
        let n = v.len();
        let mut v = v;
        let ghost leaves = v@;
        let mut data = vec![S::id(); n];
        data.append(&mut v);
        proof {
            assert(data@.subrange(n as int, 2 * n) =~= leaves);
        }
        build_tree(&mut data);
        Self::with_data(data)
    }

    /// Creates a lazy segment tree holding clones of the values of `v`, in
    /// order.
    pub fn from_slice(v: &[S]) -> (res: Self)
        requires
            0 < v@.len(),
            2 * v@.len() <= usize::MAX,
        ensures
            res.wf(),
            res@ == v@,
    {
        let n = v.len();
        let mut data = vec![S::id(); n];
        let mut i: usize = 0;
        while i < n
            invariant
                n == v@.len(),
                i <= n,
                data@.len() == n + i,
                data@.subrange(n as int, n + i) == v@.subrange(0, i as int),
            decreases n - i,
        {
            let ghost prev = data@;
            data.push(duplicate(&v[i]));
            proof {
                assert(data@.subrange(n as int, n + i + 1) =~= prev.subrange(n as int, n + i).push(
                    v@[i as int],
                ));
                assert(v@.subrange(0, i + 1) =~= v@.subrange(0, i as int).push(v@[i as int]));
            }
            i += 1;
        }
        proof {
            assert(v@.subrange(0, n as int) =~= v@);
        }
        build_tree(&mut data);
        Self::with_data(data)
    }

    /// Pushes the pending action of node `k` to both of its children and
    /// clears it.
    fn push_node(&mut self, k: usize)
        requires
            old(self).wf(),
            1 <= k < old(self).lazy@.len(),
        ensures
            final(self).wf(),
            final(self)@ == old(self)@,
            final(self).lazy@ == pushed(old(self).lazy@, k as int),
    {
        let n = self.lazy.len();
        let ghost data0 = self.data@;
        let ghost lazy0 = self.lazy@;
        let a = self.lazy[k].act(&self.data[2 * k]);
        let b = self.lazy[k].act(&self.data[2 * k + 1]);
        self.data[2 * k] = a;
        self.data[2 * k + 1] = b;
        if 2 * k < n {
            let c = self.lazy[k].op(&self.lazy[2 * k]);
            self.lazy[2 * k] = c;
        }
        if 2 * k + 1 < n {
            let c = self.lazy[k].op(&self.lazy[2 * k + 1]);
            self.lazy[2 * k + 1] = c;
        }
        self.lazy[k] = F::id();
        proof {
            lemma_push_node(data0, lazy0, k as int);
            assert(self.lazy@ =~= pushed(lazy0, k as int));
            assert(self.data@ =~= data0.update(2 * k, lazy0[k as int].act_spec(data0[2 * k])).update(
                2 * k + 1,
                lazy0[k as int].act_spec(data0[2 * k + 1]),
            ));
        }
    }

    /// Pushes the pending action of every strict ancestor of position `p`
    /// down, root first.
    fn propagate(&mut self, p: usize)
        requires
            old(self).wf(),
            1 <= p < old(self).data@.len(),
        ensures
            final(self).wf(),
            final(self)@ == old(self)@,
            all_id_path(final(self).lazy@, p as int / 2),
            forall|u: int|
                u < old(self).lazy@.len() && all_id_path(old(self).lazy@, u)
                    ==> #[trigger] all_id_path(final(self).lazy@, u),
    {
        let ghost before = self.lazy@;
        let ghost n = self.lazy@.len() as int;
        let mut d: usize = 1;
        let ghost t: nat = 0;
        proof {
            vstd::arithmetic::power2::lemma2_to64();
        }
        while d <= p / 2
            invariant
                1 <= d <= p,
                d == pow2(t),
            decreases p - d,
        {
            proof {
                lemma_pow2_unfold(t + 1);
                t = t + 1;
            }
            d = d * 2;
        }
        proof {
            assert(p as int / d as int == 1) by (nonlinear_arith)
                requires
                    1 <= d <= p < 2 * d,
            ;
        }
        while d > 1
            invariant
                1 <= d <= p < 2 * n,
                d == pow2(t),
                self.wf(),
                self.lazy@.len() == n,
                before.len() == n,
                self@ == old(self)@,
                all_id_path(self.lazy@, (p as int / d as int) / 2),
                forall|u: int|
                    u < n && all_id_path(before, u) ==> #[trigger] all_id_path(self.lazy@, u),
            decreases d,
        {
            let k = p / d;
            let ghost prev = self.lazy@;
            proof {
                assert(1 <= p as int / d as int <= p as int / 2) by (nonlinear_arith)
                    requires
                        2 <= d <= p,
                ;
                assert(t >= 1) by {
                    if t == 0 {
                        vstd::arithmetic::power2::lemma2_to64();
                    }
                }
                lemma_pow2_unfold(t);
                lemma_pow2_pos((t - 1) as nat);
            }
            self.push_node(k);
            d = d / 2;
            proof {
                t = (t - 1) as nat;
                lemma_div_denominator(p as int, d as int, 2);
                assert((p as int / d as int) / 2 == k);
                lemma_push_keeps_id_path(prev, k as int, k as int / 2);
                assert(all_id_path(self.lazy@, k as int));
                assert forall|u: int| u < n && all_id_path(before, u) implies #[trigger] all_id_path(
                    self.lazy@,
                    u,
                ) by {
                    assert(all_id_path(prev, u));
                    lemma_push_keeps_id_path(prev, k as int, u);
                }
            }
        }
        proof {
            assert(p as int / d as int == p as int) by (nonlinear_arith)
                requires
                    d == 1,
            ;
        }
    }

    /// Recomputes the cached aggregate of every strict ancestor of position
    /// `p` from its children, leaf to root.
    fn update(&mut self, p: usize, Ghost(b): Ghost<int>)
        requires
            shape_ok(old(self).data@, old(self).lazy@),
            p < old(self).data@.len(),
            all_id_path(old(self).lazy@, p as int / 2),
            ok_except(old(self).data@, old(self).lazy@, p as int / 2, b),
        ensures
            shape_ok(final(self).data@, final(self).lazy@),
            final(self).lazy@ == old(self).lazy@,
            final(self).data@.subrange(
                old(self).lazy@.len() as int,
                old(self).data@.len() as int,
            ) == old(self).data@.subrange(
                old(self).lazy@.len() as int,
                old(self).data@.len() as int,
            ),
            ok_except(final(self).data@, final(self).lazy@, 0, b),
    {
        let ghost n = self.lazy@.len() as int;
        let ghost leaves = self.data@.subrange(n, 2 * n);
        let ghost lazy = self.lazy@;
        let mut i: usize = p;
        while i > 1
            invariant
                shape_ok(self.data@, self.lazy@),
                self.lazy@ == lazy,
                lazy.len() == n,
                i < 2 * n,
                self.data@.subrange(n, 2 * n) == leaves,
                all_id_path(lazy, i as int / 2),
                ok_except(self.data@, lazy, i as int / 2, b),
            decreases i,
        {
            i = i / 2;
            let x = self.data[2 * i].op(&self.data[2 * i + 1]);
            let ghost prev = self.data@;
            self.data[i] = x;
            proof {
                assert(self.data@.subrange(n, 2 * n) =~= prev.subrange(n, 2 * n));
                F::lemma_act_identity(x);
                assert forall|v: int| 1 <= v < n implies #[trigger] cached_ok(self.data@, lazy, v)
                    || on_path(v, i as int / 2) || on_path(v, b) by {
                    if v == i as int {
                    } else if v == i as int / 2 {
                    } else {
                        assert(cached_ok(prev, lazy, v) || on_path(v, i as int) || on_path(v, b));
                    }
                }
            }
        }
        proof {
            assert forall|v: int| 1 <= v < n implies #[trigger] cached_ok(self.data@, lazy, v)
                || on_path(v, 0) || on_path(v, b) by {
                assert(cached_ok(self.data@, lazy, v) || on_path(v, i as int / 2) || on_path(v, b));
            }
        }
    }

    /// Replaces the value of leaf `i` by `x` once the path above it carries
    /// no pending action, and repairs the cached aggregates above it.
    fn write_leaf(&mut self, i: usize, x: S)
        requires
            old(self).wf(),
            i < old(self)@.len(),
            all_id_path(old(self).lazy@, (old(self).lazy@.len() + i) / 2),
        ensures
            final(self).wf(),
            final(self)@ == old(self)@.update(i as int, x),
    {
        let n = self.lazy.len();
        let p = i + n;
        let ghost data0 = self.data@;
        let ghost lazy0 = self.lazy@;
        self.data[p] = x;
        proof {
            assert forall|v: int| 1 <= v < n implies #[trigger] cached_ok(self.data@, lazy0, v)
                || on_path(v, p as int / 2) || on_path(v, 0) by {
                assert(cached_ok(data0, lazy0, v));
                assert(!on_path(v, 0));
                if v == p as int / 2 {
                }
            }
        }
        let ghost data1 = self.data@;
        self.update(p, Ghost(0));
        proof {
            assert forall|j: int| 0 <= j < n implies self@[j] == old(self)@.update(i as int, x)[j] by {
                assert(self.data@[n + j] == self.data@.subrange(n as int, 2 * n)[j]);
                assert(data1[n + j] == data1.subrange(n as int, 2 * n)[j]);
                if j == i as int {
                    lemma_resolve_id_path(lazy0, p as int / 2, x);
                }
            }
            assert(self@ =~= old(self)@.update(i as int, x));
        }
    }

    /// Sets the value at index `i` to `x`: pushes the pending actions
    /// above the leaf down, writes the leaf and recomputes the aggregates
    /// above it.
    pub fn set(&mut self, i: usize, x: S)
        requires
            old(self).wf(),
            i < old(self)@.len(),
        ensures
            final(self).wf(),
            final(self)@ == old(self)@.update(i as int, x),
    {
        let n = self.lazy.len();
        self.propagate(i + n);
        self.write_leaf(i, x);
    }

    /// Sets the value at index `i` to `op(a[i], x)`.
    pub fn operate(&mut self, i: usize, x: S)
        requires
            old(self).wf(),
            i < old(self)@.len(),
        ensures
            final(self).wf(),
            final(self)@ == old(self)@.update(i as int, old(self)@[i as int].op_spec(x)),
    {
        let n = self.lazy.len();
        self.propagate(i + n);
        proof {
            lemma_resolve_id_path(self.lazy@, (i + n) as int / 2, self.data@[(i + n) as int]);
        }
        let y = self.data[i + n].op(&x);
        self.write_leaf(i, y);
    }

    /// Sets the value at index `i` to `f(a[i])`.
    pub fn apply(&mut self, i: usize, f: F)
        requires
            old(self).wf(),
            i < old(self)@.len(),
        ensures
            final(self).wf(),
            final(self)@ == old(self)@.update(i as int, f.act_spec(old(self)@[i as int])),
    {
        let n = self.lazy.len();
        self.propagate(i + n);
        proof {
            lemma_resolve_id_path(self.lazy@, (i + n) as int / 2, self.data@[(i + n) as int]);
        }
        let y = f.act(&self.data[i + n]);
        self.write_leaf(i, y);
    }

    /// Returns the value at index `i`.
    pub fn get(&mut self, i: usize) -> (res: S)
        requires
            old(self).wf(),
            i < old(self)@.len(),
        ensures
            final(self).wf(),
            final(self)@ == old(self)@,
            res == old(self)@[i as int],
    {
        let n = self.lazy.len();
        self.propagate(i + n);
        proof {
            lemma_resolve_id_path(self.lazy@, (i + n) as int / 2, self.data@[(i + n) as int]);
        }
        duplicate(&self.data[i + n])
    }

    /// Applies `f` to the cached aggregate of node `w` and, if `w` is
    /// internal, composes it into the pending action of `w`.
    fn take(&mut self, w: usize, f: &F)
        requires
            shape_ok(old(self).data@, old(self).lazy@),
            1 <= w < old(self).data@.len(),
        ensures
            final(self).data@ == taken_data(old(self).data@, w as int, *f),
            final(self).lazy@ == taken_lazy(old(self).lazy@, w as int, *f),
    {
        let x = f.act(&self.data[w]);
        self.data[w] = x;
        if w < self.lazy.len() {
            let g = f.op(&self.lazy[w]);
            self.lazy[w] = g;
        }
    }

    /// Applies action `f` to all elements with index in `l .. r`.
    ///
    /// The pending actions above both boundary leaves are pushed down
    /// first.  Then `f` is applied to the cached aggregate of every node of
    /// the cover of the range and, at internal nodes, deferred as pending
    /// action.  Last, the aggregates above the first node taken on either
    /// side are recomputed.
    pub fn range_apply(&mut self, l: usize, r: usize, f: F)
        requires
            old(self).wf(),
            l <= r <= old(self)@.len(),
        ensures
            final(self).wf(),
            final(self)@ == acted(old(self)@, l as int, r as int, f),
    {
        if l == r {
            proof {
                assert(self@ =~= acted(self@, l as int, r as int, f));
            }
            return ;
        }
        let n = self.lazy.len();
        let ghost before = self@;
        self.propagate(l + n);
        self.propagate(r - 1 + n);
        let mut lo: usize = l + n;
        let mut hi: usize = r + n;
        let mut left_start: usize = 0;
        let mut right_start: usize = 0;
        let ghost st = Frontier {
            lo: l + n,
            hi: r + n,
            h: 0,
            lb: l + n,
            rb: r + n - 1,
            ls: 0,
            hl: 0,
            rs: 0,
            hr: 0,
        };
        proof {
            lemma_span_zero(st.lo);
            lemma_span_zero(st.hi);
            lemma_span_zero(st.rb);
            assert(!on_path(0, 0));
            assert forall|v: int| 1 <= v < n implies #[trigger] cached_ok(
                self.data@,
                self.lazy@,
                v,
            ) || on_path(v, st.ls / 2) || on_path(v, st.rs / 2) by {
                assert(cached_ok(self.data@, self.lazy@, v) || on_path(v, 0) || on_path(v, 0));
            }
            assert forall|i: int| 0 <= i < n implies #[trigger] values(self.data@, self.lazy@)[i]
                == if covered(n as int, l as int, r as int, st, n + i) {
                f.act_spec(before[i])
            } else {
                before[i]
            } by {}
        }
        while lo < hi
            invariant
                apply_inv(self.data@, self.lazy@, before, l as int, r as int, f, st),
                self.lazy@.len() == n,
                st.lo == lo,
                st.hi == hi,
                st.ls == left_start,
                st.rs == right_start,
            decreases hi,
        {
            if lo % 2 == 1 {
                proof {
                    lemma_take_left(self.data@, self.lazy@, before, l as int, r as int, f, st);
                }
                self.take(lo, &f);
                if left_start == 0 {
                    left_start = lo;
                }
                lo += 1;
                proof {
                    st = Frontier {
                        lo: st.lo + 1,
                        ls: if st.ls == 0 {
                            st.lo
                        } else {
                            st.ls
                        },
                        hl: if st.ls == 0 {
                            st.h
                        } else {
                            st.hl
                        },
                        ..st
                    };
                }
            }
            if hi % 2 == 1 {
                proof {
                    lemma_take_right(self.data@, self.lazy@, before, l as int, r as int, f, st);
                }
                hi -= 1;
                self.take(hi, &f);
                if right_start == 0 {
                    right_start = hi;
                }
                proof {
                    st = Frontier {
                        hi: st.hi - 1,
                        rs: if st.rs == 0 {
                            st.hi - 1
                        } else {
                            st.rs
                        },
                        hr: if st.rs == 0 {
                            st.h
                        } else {
                            st.hr
                        },
                        ..st
                    };
                }
            }
            proof {
                lemma_ascend(self.data@, self.lazy@, before, l as int, r as int, f, st);
                st = Frontier {
                    lo: st.lo / 2,
                    hi: st.hi / 2,
                    h: st.h + 1,
                    lb: st.lb / 2,
                    rb: st.rb / 2,
                    ..st
                };
            }
            lo = lo / 2;
            hi = hi / 2;
        }
        let ghost data1 = self.data@;
        let ghost lazy1 = self.lazy@;
        proof {
            assert forall|i: int| 0 <= i < n implies values(data1, lazy1)[i] == acted(
                before,
                l as int,
                r as int,
                f,
            )[i] by {
                assert(values(data1, lazy1)[i] == if covered(
                    n as int,
                    l as int,
                    r as int,
                    st,
                    n + i,
                ) {
                    f.act_spec(before[i])
                } else {
                    before[i]
                });
            }
            assert(values(data1, lazy1) =~= acted(before, l as int, r as int, f));
            if left_start != 0 {
                lemma_node_bounds(n as int, st.ls, st.hl);
            }
            if right_start != 0 {
                lemma_node_bounds(n as int, st.rs, st.hr);
            }
        }
        self.update(left_start, Ghost(right_start as int / 2));
        let ghost data2 = self.data@;
        proof {
            assert forall|v: int| 1 <= v < n implies #[trigger] cached_ok(data2, lazy1, v)
                || on_path(v, right_start as int / 2) || on_path(v, 0) by {
                assert(cached_ok(data2, lazy1, v) || on_path(v, 0) || on_path(
                    v,
                    right_start as int / 2,
                ));
            }
        }
        self.update(right_start, Ghost(0));
        proof {
            assert forall|i: int| 0 <= i < n implies self@[i] == values(data1, lazy1)[i] by {
                assert(self.data@[n + i] == self.data@.subrange(n as int, 2 * n)[i]);
                assert(data2[n + i] == data2.subrange(n as int, 2 * n)[i]);
                assert(data1[n + i] == data1.subrange(n as int, 2 * n)[i]);
            }
            assert(self@ =~= values(data1, lazy1));
        }
    }

    /// Applies to `x` the pending actions of `u`, of its parent and so on
    /// up to the root.
    fn lift(&self, u: usize, x: S) -> (res: S)
        requires
            u < self.lazy@.len(),
        ensures
            res == resolve(self.lazy@, u as int, x),
    {
        let mut res = x;
        let mut v: usize = u;
        while v > 0
            invariant
                v < self.lazy@.len(),
                resolve(self.lazy@, v as int, res) == resolve(self.lazy@, u as int, x),
            decreases v,
        {
            res = self.lazy[v].act(&res);
            v = v / 2;
        }
        res
    }

    /// Folds the nodes that exactly cover `l .. r`, advancing each partial
    /// aggregate through the pending action of every ancestor it passes.
    fn fold_nodes(&self, l: usize, r: usize) -> (res: S)
        requires
            self.wf(),
            l < r <= self@.len(),
        ensures
            res == fold(self@.subrange(l as int, r as int)),
    {
        let n = self.lazy.len();
        let ghost data = self.data@;
        let ghost lazy = self.lazy@;
        let ghost a = self@;
        let mut lo: usize = l + n;
        let mut hi: usize = r + n;
        let mut left = S::id();
        let mut right = S::id();
        let mut has_left = false;
        let mut has_right = false;
        let ghost h: nat = 0;
        proof {
            lemma_span_zero(lo as int);
            lemma_span_zero(hi as int);
        }
        while lo < hi
            invariant
                shape_ok(data, lazy),
                ok_except(data, lazy, 0, 0),
                data == self.data@,
                lazy == self.lazy@,
                a == values(data, lazy),
                lazy.len() == n,
                l < r <= n,
                1 <= lo <= hi <= 2 * n,
                n + l <= span_lo(lo as int, h) <= span_lo(hi as int, h) <= n + r,
                has_left ==> resolve(lazy, (lo - 1) / 2, left) == fold(
                    a.subrange(l as int, span_lo(lo as int, h) - n),
                ),
                !has_left ==> span_lo(lo as int, h) == n + l && left == S::id_spec(),
                has_right ==> hi < 2 * n && resolve(lazy, hi as int / 2, right) == fold(
                    a.subrange(span_lo(hi as int, h) - n, r as int),
                ),
                !has_right ==> span_lo(hi as int, h) == n + r && right == S::id_spec(),
            decreases hi,
        {
            proof {
                lemma_span_monotone(lo as int, hi as int - 1, h);
                lemma_span_monotone(lo as int + 1, hi as int, h);
                if lo + 1 < hi {
                    lemma_span_monotone(lo as int + 1, hi as int - 1, h);
                }
                lemma_span_children(lo as int, h);
                lemma_span_children(hi as int - 1, h);
            }
            if lo % 2 == 1 {
                proof {
                    lemma_lazy_node_fold(data, lazy, lo as int, h);
                    lemma_resolve_distributes(lazy, lo as int / 2, left, data[lo as int]);
                    lemma_fold_split(
                        a,
                        l as int,
                        span_lo(lo as int, h) - n,
                        span_hi(lo as int, h) - n,
                    );
                    S::lemma_identity(data[lo as int]);
                    if !has_left {
                        assert(a.subrange(l as int, l as int) =~= Seq::<S>::empty());
                    }
                }
                left = left.op(&self.data[lo]);
                has_left = true;
                lo += 1;
            }
            if hi % 2 == 1 {
                hi -= 1;
                proof {
                    lemma_lazy_node_fold(data, lazy, hi as int, h);
                    lemma_resolve_distributes(lazy, hi as int / 2, data[hi as int], right);
                    lemma_fold_split(
                        a,
                        span_lo(hi as int, h) - n,
                        span_hi(hi as int, h) - n,
                        r as int,
                    );
                    S::lemma_identity(data[hi as int]);
                    if !has_right {
                        assert(a.subrange(r as int, r as int) =~= Seq::<S>::empty());
                    }
                }
                right = self.data[hi].op(&right);
                has_right = true;
            }
            proof {
                lemma_span_children(lo as int / 2, h);
                lemma_span_children(hi as int / 2, h);
                h = h + 1;
            }
            lo = lo / 2;
            hi = hi / 2;
            if has_left && lo >= 2 {
                left = self.lazy[lo - 1].act(&left);
            }
            if has_right {
                right = self.lazy[hi].act(&right);
            }
        }
        if has_left {
            left = self.lift((lo - 1) / 2, left);
        }
        if has_right {
            right = self.lift(hi / 2, right);
        }
        proof {
            let m = span_lo(lo as int, h) - n;
            if !has_left {
                assert(a.subrange(l as int, m) =~= Seq::<S>::empty());
            }
            if !has_right {
                assert(a.subrange(m, r as int) =~= Seq::<S>::empty());
            }
            lemma_fold_split(a, l as int, m, r as int);
        }
        left.op(&right)
    }

    /// Returns `op(a[l], ..., a[r - 1])`, the identity when the range is
    /// empty.
    ///
    /// The pending actions above both boundary leaves are pushed down
    /// first.  The aggregates of the nodes of the cover are then combined,
    /// left and right of the meeting point apart, and each partial
    /// aggregate passes through the pending action of every ancestor that
    /// it rises past.
    pub fn range_fold(&mut self, l: usize, r: usize) -> (res: S)
        requires
            old(self).wf(),
            l <= r <= old(self)@.len(),
        ensures
            final(self).wf(),
            final(self)@ == old(self)@,
            res == fold(old(self)@.subrange(l as int, r as int)),
    {
        if l == r {
            proof {
                assert(self@.subrange(l as int, r as int) =~= Seq::<S>::empty());
            }
            return S::id();
        }
        let n = self.lazy.len();
        self.propagate(l + n);
        self.propagate(r - 1 + n);
        self.fold_nodes(l, r)
    }

    /// Returns `op(a[0], ..., a[n - 1])`, the fold over the whole domain.
    pub fn all_fold(&mut self) -> (res: S)
        requires
            old(self).wf(),
        ensures
            final(self).wf(),
            final(self)@ == old(self)@,
            res == fold(old(self)@),
    {
        let n = self.lazy.len();
        proof {
            assert(self@.subrange(0, n as int) =~= self@);
        }
        self.range_fold(0, n)
    }

    /// Returns the number of elements.
    pub fn len(&self) -> (res: usize)
        requires
            self.wf(),
        ensures
            res == self@.len(),
    {
        self.lazy.len()
    }

    /// Returns whether the segment tree is empty.
    pub fn is_empty(&self) -> (res: bool)
        requires
            self.wf(),
        ensures
            res == (self@.len() == 0),
    {
        self.len() == 0
    }
}

} // verus!
