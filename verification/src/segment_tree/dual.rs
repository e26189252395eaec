//! The apply-only engine: range apply and point read over values acted on
//! by an action monoid.

use vstd::prelude::*;
use vstd::arithmetic::power2::{lemma_pow2_pos, lemma_pow2_unfold, pow2};
use vstd::arithmetic::div_mod::lemma_div_denominator;
use crate::algebra::{Action, Monoid};
use crate::segment_tree::layout::{
    lemma_span_children, lemma_span_monotone, lemma_span_zero, span_lo,
};
use crate::segment_tree::tags::{
    acted, all_id_path, lemma_compose_keeps_boundaries, lemma_compose_span, lemma_fresh_id_path,
    lemma_push_effect, lemma_push_keeps_id_path, lemma_resolve_id_path, pushed, resolve,
};

verus! {

/// Pushes the tag of `k` into both of its children and clears it.
fn push_tag<F: Monoid>(tags: &mut Vec<F>, k: usize)
    requires
        1 <= k,
        2 * k + 1 < old(tags)@.len(),
    ensures
        final(tags)@ == pushed(old(tags)@, k as int),
{
    proof {
        assert(tags.len() == tags@.len());
    }
    let a = tags[k].op(&tags[2 * k]);
    let b = tags[k].op(&tags[2 * k + 1]);
    tags[2 * k] = a;
    tags[2 * k + 1] = b;
    tags[k] = F::id();
    proof {
        assert(tags@ =~= pushed(old(tags)@, k as int));
    }
}

/// Pushes the tag of every strict ancestor of `p` down, root first.
fn propagate_tags<S, F: Action<S>>(tags: &mut Vec<F>, p: usize)
    requires
        old(tags)@.len() % 2 == 0,
        1 <= p < old(tags)@.len(),
    ensures
        final(tags)@.len() == old(tags)@.len(),
        all_id_path(final(tags)@, p as int / 2),
        forall|u: int, x: S|
            old(tags)@.len() / 2 <= u < old(tags)@.len() ==> #[trigger] resolve(
                final(tags)@,
                u,
                x,
            ) == resolve(old(tags)@, u, x),
        forall|u: int|
            u < old(tags)@.len() && all_id_path(old(tags)@, u) ==> #[trigger] all_id_path(
                final(tags)@,
                u,
            ),
{
    let ghost before = tags@;
    let ghost n = tags@.len() as int / 2;
    let mut d: usize = 1;
    let ghost t: nat = 0;
    proof {
        vstd::arithmetic::power2::lemma2_to64();
    }
    while d <= p / 2
        invariant
            1 <= d <= p,
            d == pow2(t),
        decreases p - d,
    {
        proof {
            lemma_pow2_unfold(t + 1);
            t = t + 1;
        }
        d = d * 2;
    }
    proof {
        assert(p as int / d as int == 1) by (nonlinear_arith)
            requires
                1 <= d <= p < 2 * d,
        ;
    }
    while d > 1
        invariant
            1 <= d <= p < 2 * n,
            d == pow2(t),
            tags@.len() == 2 * n,
            before.len() == 2 * n,
            all_id_path(tags@, (p as int / d as int) / 2),
            forall|u: int, x: S|
                n <= u < 2 * n ==> #[trigger] resolve(tags@, u, x) == resolve(before, u, x),
            forall|u: int|
                u < 2 * n && all_id_path(before, u) ==> #[trigger] all_id_path(tags@, u),
        decreases d,
    {
        let k = p / d;
        let ghost prev = tags@;
        proof {
            assert(1 <= p as int / d as int <= p as int / 2) by (nonlinear_arith)
                requires
                    2 <= d <= p,
            ;
            assert(t >= 1) by {
                if t == 0 {
                    vstd::arithmetic::power2::lemma2_to64();
                }
            }
            lemma_pow2_unfold(t);
            lemma_pow2_pos((t - 1) as nat);
        }
        push_tag(tags, k);
        d = d / 2;
        proof {
            t = (t - 1) as nat;
            lemma_div_denominator(p as int, d as int, 2);
            assert((p as int / d as int) / 2 == k);
            lemma_push_keeps_id_path(prev, k as int, k as int / 2);
            assert(all_id_path(tags@, k as int));
            assert forall|u: int, x: S| n <= u < 2 * n implies #[trigger] resolve(tags@, u, x)
                == resolve(before, u, x) by {
                lemma_push_effect(prev, k as int, u, x);
            }
            assert forall|u: int| u < 2 * n && all_id_path(before, u) implies #[trigger] all_id_path(
                tags@,
                u,
            ) by {
                assert(all_id_path(prev, u));
                lemma_push_keeps_id_path(prev, k as int, u);
            }
        }
    }
    proof {
        assert(p as int / d as int == p as int) by (nonlinear_arith)
            requires
                d == 1,
        ;
    }
}

/// A dual segment tree: a sequence of values with range apply and point
/// read in logarithmic time.
pub struct DualSegmentTree<S: Clone, F: Action<S>> {
    data: Vec<S>,
    func: Vec<F>,
}

impl<S: Clone, F: Action<S>> View for DualSegmentTree<S, F> {
    type V = Seq<S>;

    /// The sequence of values held by the tree: every raw value with the
    /// pending actions above it resolved, leaf to root.
    closed spec fn view(&self) -> Seq<S> {
        Seq::new(
            self.data@.len(),
            |i: int| resolve(self.func@, self.data@.len() + i, self.data@[i]),
        )
    }
}

impl<S: Clone, F: Action<S>> DualSegmentTree<S, F> {
    /// The tree holds at least one value and one tag for every node.
    pub closed spec fn wf(&self) -> bool {
        &&& self.data@.len() >= 1
        &&& self.func@.len() == 2 * self.data@.len()
        &&& self.func@.len() <= usize::MAX
    }

    /// A well-formed tree holds at least one value.
    pub proof fn lemma_wf_nonempty(&self)
        requires
            self.wf(),
        ensures
            self@.len() >= 1,
    {
    }

    /// Creates a new dual segment tree holding the values of `v`, in order.
    pub fn from_vec(v: Vec<S>) -> (res: Self)
        requires
            0 < v@.len(),
            2 * v@.len() <= usize::MAX,
        ensures
            res.wf(),
            res@ == v@,
    {
        let n = v.len();
        let func = vec![F::id(); 2 * n];
        let res = DualSegmentTree { data: v, func };
        proof {
            assert forall|w: int| 1 <= w < res.func@.len() implies res.func@[w]
                == F::id_spec() by {
                F::lemma_clone(F::id_spec(), res.func@[w]);
            }
            assert forall|i: int| 0 <= i < n implies res@[i] == v@[i] by {
                lemma_fresh_id_path(res.func@, n + i);
                lemma_resolve_id_path(res.func@, n + i, v@[i]);
            }
            assert(res@ =~= v@);
        }
        res
    }

    /// Creates a new dual segment tree holding clones of the values of `v`,
    /// in order.
    pub fn from_slice(v: &[S]) -> (res: Self)
        requires
            0 < v@.len(),
            2 * v@.len() <= usize::MAX,
        ensures
            res.wf(),
            res@.len() == v@.len(),
            forall|i: int| 0 <= i < v@.len() ==> cloned(v@[i], #[trigger] res@[i]),
    {
        let n = v.len();
        let mut data: Vec<S> = Vec::with_capacity(n);
        let mut i: usize = 0;
        while i < n
            invariant
                n == v@.len(),
                i <= n,
                data@.len() == i,
                forall|j: int| 0 <= j < i ==> cloned(v@[j], #[trigger] data@[j]),
            decreases n - i,
        {
            data.push(v[i].clone());
            i += 1;
        }
        let func = vec![F::id(); 2 * n];
        let res = DualSegmentTree { data, func };
        proof {
            assert forall|w: int| 1 <= w < res.func@.len() implies res.func@[w]
                == F::id_spec() by {
                F::lemma_clone(F::id_spec(), res.func@[w]);
            }
            assert forall|i: int| 0 <= i < n implies res@[i] == res.data@[i] by {
                lemma_fresh_id_path(res.func@, n + i);
                lemma_resolve_id_path(res.func@, n + i, res.data@[i]);
            }
        }
        res
    }

    /// Pushes the tag of every strict ancestor of position `p` down, root
    /// first, so that none of them holds a pending action any more.
    fn propagate(&mut self, p: usize)
        requires
            old(self).wf(),
            1 <= p < old(self).func@.len(),
        ensures
            final(self).wf(),
            final(self)@ == old(self)@,
            final(self).data@ == old(self).data@,
            all_id_path(final(self).func@, p as int / 2),
            forall|u: int|
                u < old(self).func@.len() && all_id_path(old(self).func@, u)
                    ==> #[trigger] all_id_path(final(self).func@, u),
    {
        propagate_tags::<S, F>(&mut self.func, p);
        proof {
            assert(self@ =~= old(self)@);
        }
    }

    /// Sets the value at index `i` to `f(a[i])`.
    ///
    /// The tags above the leaf are pushed down first, so that `f` is
    /// composed behind every action that was applied before it.
    pub fn apply(&mut self, i: usize, f: F)
        requires
            old(self).wf(),
            i < old(self)@.len(),
        ensures
            final(self).wf(),
            final(self)@ == old(self)@.update(i as int, f.act_spec(old(self)@[i as int])),
    {
        let n = self.data.len();
        let p = i + n;
        self.propagate(p);
        let ghost tags = self.func@;
        let g = f.op(&self.func[p]);
        self.func[p] = g;
        proof {
            lemma_span_zero(p as int);
            assert forall|j: int| 0 <= j < n implies self@[j] == old(self)@.update(
                i as int,
                f.act_spec(old(self)@[i as int]),
            )[j] by {
                lemma_compose_span(tags, n as int, p as int, 0, f, n + j, self.data@[j]);
            }
            assert(self@ =~= old(self)@.update(i as int, f.act_spec(old(self)@[i as int])));
        }
    }

    /// Applies action `f` to all elements with index in `l .. r`.
    ///
    /// The tags above both boundary leaves are pushed down first; `f` is
    /// then composed into the tag of every node of the cover of the range.
    pub fn range_apply(&mut self, l: usize, r: usize, f: F)
        requires
            old(self).wf(),
            l <= r <= old(self)@.len(),
        ensures
            final(self).wf(),
            final(self)@ == acted(old(self)@, l as int, r as int, f),
    {
        if l == r {
            proof {
                assert(self@ =~= acted(self@, l as int, r as int, f));
            }
            return ;
        }
        let n = self.data.len();
        let ghost before = self@;
        let ghost data = self.data@;
        self.propagate(l + n);
        self.propagate(r - 1 + n);
        let mut lo: usize = l + n;
        let mut hi: usize = r + n;
        let ghost h: nat = 0;
        let ghost lb: int = l + n;
        let ghost rb: int = r + n - 1;
        proof {
            lemma_span_zero(lo as int);
            lemma_span_zero(hi as int);
            lemma_span_zero(rb);
            assert(all_id_path(self.func@, lb / 2));
            assert(all_id_path(self.func@, rb / 2));
        }
        while lo < hi
            invariant
                n >= 1,
                self.data@ == data,
                data.len() == n,
                before.len() == n,
                self.func@.len() == 2 * n,
                l < r <= n,
                lo <= hi <= 2 * n,
                n + l <= span_lo(lo as int, h) <= span_lo(hi as int, h) <= n + r,
                0 <= lb <= lo <= lb + 1,
                0 <= rb <= hi <= rb + 1,
                span_lo(rb, h) < n + r,
                all_id_path(self.func@, lb / 2),
                all_id_path(self.func@, rb / 2),
                forall|i: int|
                    0 <= i < n ==> #[trigger] resolve(self.func@, n + i, data[i]) == if n + l <= n
                        + i < span_lo(lo as int, h) || span_lo(hi as int, h) <= n + i < n + r {
                        f.act_spec(before[i])
                    } else {
                        before[i]
                    },
            decreases hi,
        {
            proof {
                lemma_span_monotone(lo as int, hi as int - 1, h);
                lemma_span_monotone(lo as int + 1, hi as int, h);
                if lo + 1 < hi {
                    lemma_span_monotone(lo as int + 1, hi as int - 1, h);
                }
                lemma_span_children(lo as int, h);
                lemma_span_children(hi as int - 1, h);
                lemma_pow2_pos(h);
            }
            if lo % 2 == 1 {
                let ghost tags = self.func@;
                let g = f.op(&self.func[lo]);
                self.func[lo] = g;
                proof {
                    lemma_compose_keeps_boundaries(
                        tags,
                        n as int,
                        lo as int,
                        h,
                        f.op_spec(tags[lo as int]),
                        lb,
                        rb,
                        n + r,
                    );
                    assert forall|i: int| 0 <= i < n implies #[trigger] resolve(
                        self.func@,
                        n + i,
                        data[i],
                    ) == if n + l <= n + i < span_lo(lo as int + 1, h) || span_lo(hi as int, h)
                        <= n + i < n + r {
                        f.act_spec(before[i])
                    } else {
                        before[i]
                    } by {
                        assert(resolve(tags, n + i, data[i]) == if n + l <= n + i < span_lo(
                            lo as int,
                            h,
                        ) || span_lo(hi as int, h) <= n + i < n + r {
                            f.act_spec(before[i])
                        } else {
                            before[i]
                        });
                        lemma_compose_span(tags, n as int, lo as int, h, f, n + i, data[i]);
                    }
                }
                lo += 1;
            }
            if hi % 2 == 1 {
                hi -= 1;
                let ghost tags = self.func@;
                let g = f.op(&self.func[hi]);
                self.func[hi] = g;
                proof {
                    lemma_compose_keeps_boundaries(
                        tags,
                        n as int,
                        hi as int,
                        h,
                        f.op_spec(tags[hi as int]),
                        lb,
                        rb,
                        n + r,
                    );
                    assert forall|i: int| 0 <= i < n implies #[trigger] resolve(
                        self.func@,
                        n + i,
                        data[i],
                    ) == if n + l <= n + i < span_lo(lo as int, h) || span_lo(hi as int, h) <= n
                        + i < n + r {
                        f.act_spec(before[i])
                    } else {
                        before[i]
                    } by {
                        assert(resolve(tags, n + i, data[i]) == if n + l <= n + i < span_lo(
                            lo as int,
                            h,
                        ) || span_lo(hi as int + 1, h) <= n + i < n + r {
                            f.act_spec(before[i])
                        } else {
                            before[i]
                        });
                        lemma_compose_span(tags, n as int, hi as int, h, f, n + i, data[i]);
                    }
                }
            }
            proof {
                lemma_span_children(lo as int / 2, h);
                lemma_span_children(hi as int / 2, h);
                lemma_span_children(rb / 2, h);
                lemma_span_children(2 * (rb / 2) + 1, h);
                lemma_span_children(2 * (rb / 2), h);
                lemma_span_monotone(2 * (rb / 2), rb, h);
                h = h + 1;
                lb = lb / 2;
                rb = rb / 2;
            }
            lo = lo / 2;
            hi = hi / 2;
        }
        proof {
            assert(self@ =~= acted(before, l as int, r as int, f));
        }
    }

    /// Returns the value at index `i`: the raw value with the tags of the
    /// leaf and of all its ancestors applied, leaf to root.
    pub fn get(&mut self, i: usize) -> (res: S)
        requires
            old(self).wf(),
            i < old(self)@.len(),
        ensures
            *final(self) == *old(self),
            res == old(self)@[i as int],
    {
        let n = self.data.len();
        let mut res = self.func[i + n].act(&self.data[i]);
        let mut v: usize = (i + n) / 2;
        while v > 0
            invariant
                v < self.func@.len(),
                i < old(self)@.len(),
                *self == *old(self),
                resolve(self.func@, v as int, res) == old(self)@[i as int],
            decreases v,
        {
            res = self.func[v].act(&res);
            v = v / 2;
        }
        res
    }

    /// Returns the number of elements.
    pub fn len(&self) -> (res: usize)
        ensures
            res == self@.len(),
    {
        self.data.len()
    }

    /// Returns whether the segment tree is empty.
    pub fn is_empty(&self) -> (res: bool)
        ensures
            res == (self@.len() == 0),
    {
        self.len() == 0
    }
}

} // verus!
