//! The state of a range apply on the fold-and-apply engine while its two
//! pointers converge, and the facts that each of its steps preserves.

use vstd::prelude::*;
use crate::algebra::Monoid;
use crate::segment_tree::layout::{
    lemma_node_bounds, lemma_span_children, lemma_span_monotone, lemma_span_parent,
    lemma_span_zero, span_hi, span_lo, spans_within,
};
use crate::segment_tree::lazy::{cached_ok, ok_except, shape_ok, values};
use crate::segment_tree::monoid::Action;
use crate::segment_tree::tags::{
    all_id_path, lemma_compose_effect, lemma_compose_keeps_boundaries, lemma_id_path_frame,
    lemma_id_path_off_path, lemma_on_path_parent, lemma_on_path_span, lemma_resolve_id_path,
    on_path,
};

verus! {

/// The two converging pointers of a range apply, with what the proof
/// remembers about them.
pub struct Frontier {
    /// The left pointer: everything before its span is covered.
    pub lo: int,
    /// The right pointer: everything from its span on is covered.
    pub hi: int,
    /// The height both pointers are at.
    pub h: nat,
    /// The ancestor of the first leaf of the range at height `h`.
    pub lb: int,
    /// The ancestor of the last leaf of the range at height `h`.
    pub rb: int,
    /// The first node taken on the left, zero if none was.
    pub ls: int,
    /// The height of `ls`.
    pub hl: nat,
    /// The first node taken on the right, zero if none was.
    pub rs: int,
    /// The height of `rs`.
    pub hr: nat,
}

/// Leaf `q` is already covered by a node taken on either side.
pub open spec fn covered(n: int, l: int, r: int, st: Frontier, q: int) -> bool {
    (n + l <= q < span_lo(st.lo, st.h)) || (span_lo(st.hi, st.h) <= q < n + r)
}

/// What holds of the arrays between the steps of applying `f` to `l .. r`,
/// where `before` is the sequence of values at the start.
pub open spec fn apply_inv<S: Monoid, F: Action<S>>(
    data: Seq<S>,
    lazy: Seq<F>,
    before: Seq<S>,
    l: int,
    r: int,
    f: F,
    st: Frontier,
) -> bool {
    let n = lazy.len() as int;
    &&& shape_ok(data, lazy)
    &&& before.len() == n
    &&& 0 <= l < r <= n
    &&& 1 <= st.lo <= st.hi <= 2 * n
    &&& n + l <= span_lo(st.lo, st.h) <= span_lo(st.hi, st.h) <= n + r
    &&& 0 <= st.lb
    &&& 0 <= st.rb
    &&& span_lo(st.rb, st.h) < n + r
    &&& all_id_path(lazy, st.lb / 2)
    &&& all_id_path(lazy, st.rb / 2)
    &&& if st.ls == 0 {
        &&& st.lo == st.lb
        &&& span_lo(st.lo, st.h) == n + l
    } else {
        &&& st.lo == st.lb + 1 || (st.lo == st.lb + 2 && st.lo % 2 == 0)
        &&& st.lb >= 1 ==> on_path(st.lb, st.ls)
        &&& st.ls % 2 == 1
        &&& spans_within(n, st.ls, st.hl)
        &&& span_lo(st.ls, st.hl) == n + l
        &&& n + l < span_lo(st.lo, st.h)
        &&& all_id_path(lazy, st.ls / 2)
    }
    &&& if st.rs == 0 {
        &&& st.hi == st.rb + 1
        &&& span_lo(st.hi, st.h) == n + r
    } else {
        &&& st.hi == st.rb || (st.hi == st.rb - 1 && st.hi % 2 == 0)
        &&& st.rb >= 1 ==> on_path(st.rb, st.rs)
        &&& st.rs % 2 == 0
        &&& st.rs >= 1
        &&& spans_within(n, st.rs, st.hr)
        &&& span_hi(st.rs, st.hr) == n + r
        &&& span_lo(st.hi, st.h) < n + r
        &&& all_id_path(lazy, st.rs / 2)
    }
    &&& ok_except(data, lazy, st.ls / 2, st.rs / 2)
    &&& forall|i: int|
        0 <= i < n ==> #[trigger] values(data, lazy)[i] == if covered(n, l, r, st, n + i) {
            f.act_spec(before[i])
        } else {
            before[i]
        }
}

/// The arrays after `f` has been applied to node `w`: to its cached
/// aggregate and, if it is internal, composed into its pending action.
pub open spec fn taken_data<S: Monoid, F: Action<S>>(data: Seq<S>, w: int, f: F) -> Seq<S> {
    data.update(w, f.act_spec(data[w]))
}

/// See [`taken_data`].
pub open spec fn taken_lazy<F: Monoid>(lazy: Seq<F>, w: int, f: F) -> Seq<F> {
    if w < lazy.len() {
        lazy.update(w, f.op_spec(lazy[w]))
    } else {
        lazy
    }
}

/// Applying `f` to a node that spans leaves only, whose ancestors carry no
/// pending action, makes `f` act last on the values that the node spans,
/// changes no other value, and keeps every cached aggregate correct but
/// that of the node's parent.
pub proof fn lemma_take_effect<S: Monoid, F: Action<S>>(
    data: Seq<S>,
    lazy: Seq<F>,
    w: int,
    h: nat,
    f: F,
)
    requires
        shape_ok(data, lazy),
        spans_within(lazy.len() as int, w, h),
        all_id_path(lazy, w / 2),
        w < lazy.len() ==> cached_ok(data, lazy, w),
    ensures
        1 <= w < data.len(),
        shape_ok(taken_data(data, w, f), taken_lazy(lazy, w, f)),
        forall|i: int|
            0 <= i < lazy.len() ==> #[trigger] values(
                taken_data(data, w, f),
                taken_lazy(lazy, w, f),
            )[i] == if span_lo(w, h) <= lazy.len() + i < span_hi(w, h) {
                f.act_spec(values(data, lazy)[i])
            } else {
                values(data, lazy)[i]
            },
        forall|v: int|
            1 <= v < lazy.len() && v != w / 2 && cached_ok(data, lazy, v) ==> #[trigger] cached_ok(
                taken_data(data, w, f),
                taken_lazy(lazy, w, f),
                v,
            ),
{
    let n = lazy.len() as int;
    let data2 = taken_data(data, w, f);
    let lazy2 = taken_lazy(lazy, w, f);
    lemma_node_bounds(n, w, h);
    assert forall|i: int| 0 <= i < n implies #[trigger] values(data2, lazy2)[i] == if span_lo(w, h)
        <= n + i < span_hi(w, h) {
        f.act_spec(values(data, lazy)[i])
    } else {
        values(data, lazy)[i]
    } by {
        let q = n + i;
        if w >= n {
            lemma_span_zero(w);
            if q == w {
                lemma_resolve_id_path(lazy, w / 2, data[w]);
                lemma_resolve_id_path(lazy, w / 2, f.act_spec(data[w]));
            }
        } else {
            lemma_compose_effect(lazy, w, f, q / 2, data[q]);
            lemma_span_zero(q);
            lemma_span_parent(q, 0);
            lemma_on_path_span(n, w, h, q, q / 2, 1);
        }
    }
    assert forall|v: int|
        1 <= v < n && v != w / 2 && cached_ok(data, lazy, v) implies #[trigger] cached_ok(
        data2,
        lazy2,
        v,
    ) by {
        if v == w {
            F::lemma_act_compose(f, lazy[w], data[2 * w].op_spec(data[2 * w + 1]));
        }
    }
}

/// A node taken at the current height is not on the path above the first
/// node taken on either side.
pub proof fn lemma_taken_off_paths<S: Monoid, F: Action<S>>(
    data: Seq<S>,
    lazy: Seq<F>,
    before: Seq<S>,
    l: int,
    r: int,
    f: F,
    st: Frontier,
    w: int,
)
    requires
        apply_inv(data, lazy, before, l, r, f, st),
        st.lo <= w < st.hi,
    ensures
        spans_within(lazy.len() as int, w, st.h),
        1 <= w < 2 * lazy.len(),
        !on_path(w, st.ls / 2),
        !on_path(w, st.rs / 2),
{
    let n = lazy.len() as int;
    lemma_span_monotone(st.lo, w, st.h);
    lemma_span_monotone(w, st.hi - 1, st.h);
    lemma_span_monotone(w + 1, st.hi, st.h);
    lemma_span_children(w, st.h);
    lemma_span_children(st.hi - 1, st.h);
    lemma_node_bounds(n, w, st.h);
    if st.ls != 0 {
        lemma_node_bounds(n, st.ls, st.hl);
        lemma_span_parent(st.ls, st.hl);
        lemma_span_children(st.ls, st.hl);
        lemma_on_path_span(n, w, st.h, n + l, st.ls / 2, st.hl + 1);
    }
    if st.rs != 0 {
        lemma_node_bounds(n, st.rs, st.hr);
        lemma_span_parent(st.rs, st.hr);
        lemma_span_children(st.rs, st.hr);
        lemma_on_path_span(n, w, st.h, n + r - 1, st.rs / 2, st.hr + 1);
    }
}

/// Taking the node under the left pointer keeps the invariant.
pub proof fn lemma_take_left<S: Monoid, F: Action<S>>(
    data: Seq<S>,
    lazy: Seq<F>,
    before: Seq<S>,
    l: int,
    r: int,
    f: F,
    st: Frontier,
)
    requires
        apply_inv(data, lazy, before, l, r, f, st),
        st.lo < st.hi,
        st.lo % 2 == 1,
    ensures
        1 <= st.lo < data.len(),
        apply_inv(
            taken_data(data, st.lo, f),
            taken_lazy(lazy, st.lo, f),
            before,
            l,
            r,
            f,
            Frontier {
                lo: st.lo + 1,
                ls: if st.ls == 0 {
                    st.lo
                } else {
                    st.ls
                },
                hl: if st.ls == 0 {
                    st.h
                } else {
                    st.hl
                },
                ..st
            },
        ),
{
    let n = lazy.len() as int;
    let w = st.lo;
    let data2 = taken_data(data, w, f);
    let lazy2 = taken_lazy(lazy, w, f);
    let st2 = Frontier {
        lo: st.lo + 1,
        ls: if st.ls == 0 {
            st.lo
        } else {
            st.ls
        },
        hl: if st.ls == 0 {
            st.h
        } else {
            st.hl
        },
        ..st
    };
    lemma_taken_off_paths(data, lazy, before, l, r, f, st, w);
    lemma_span_children(w, st.h);
    lemma_span_monotone(w + 1, st.hi, st.h);
    assert(w / 2 == st.lb / 2);
    assert(cached_ok(data, lazy, w) || on_path(w, st.ls / 2) || on_path(w, st.rs / 2)
        || w >= n);
    lemma_take_effect(data, lazy, w, st.h, f);
    lemma_take_tags(data, lazy, before, l, r, f, st, w);
    if st.ls == 0 {
        assert(on_path(w, w));
        assert(w / 2 >= 1 ==> on_path(w / 2, w / 2));
    } else {
        if w / 2 >= 1 {
            assert(st.lb >= 1);
            assert(on_path(st.lb, st.ls / 2));
            lemma_on_path_parent(st.lb, st.ls / 2);
        }
    }
    assert forall|v: int| 1 <= v < n implies #[trigger] cached_ok(data2, lazy2, v) || on_path(
        v,
        st2.ls / 2,
    ) || on_path(v, st2.rs / 2) by {
        assert(cached_ok(data, lazy, v) || on_path(v, st.ls / 2) || on_path(v, st.rs / 2));
    }
    assert forall|i: int| 0 <= i < n implies #[trigger] values(data2, lazy2)[i] == if covered(
        n,
        l,
        r,
        st2,
        n + i,
    ) {
        f.act_spec(before[i])
    } else {
        before[i]
    } by {
        assert(values(data, lazy)[i] == if covered(n, l, r, st, n + i) {
            f.act_spec(before[i])
        } else {
            before[i]
        });
    }
}

/// Taking the node before the right pointer keeps the invariant.
pub proof fn lemma_take_right<S: Monoid, F: Action<S>>(
    data: Seq<S>,
    lazy: Seq<F>,
    before: Seq<S>,
    l: int,
    r: int,
    f: F,
    st: Frontier,
)
    requires
        apply_inv(data, lazy, before, l, r, f, st),
        st.lo < st.hi,
        st.hi % 2 == 1,
    ensures
        1 <= st.hi - 1 < data.len(),
        apply_inv(
            taken_data(data, st.hi - 1, f),
            taken_lazy(lazy, st.hi - 1, f),
            before,
            l,
            r,
            f,
            Frontier {
                hi: st.hi - 1,
                rs: if st.rs == 0 {
                    st.hi - 1
                } else {
                    st.rs
                },
                hr: if st.rs == 0 {
                    st.h
                } else {
                    st.hr
                },
                ..st
            },
        ),
{
    let n = lazy.len() as int;
    let w = st.hi - 1;
    let data2 = taken_data(data, w, f);
    let lazy2 = taken_lazy(lazy, w, f);
    let st2 = Frontier {
        hi: st.hi - 1,
        rs: if st.rs == 0 {
            st.hi - 1
        } else {
            st.rs
        },
        hr: if st.rs == 0 {
            st.h
        } else {
            st.hr
        },
        ..st
    };
    lemma_taken_off_paths(data, lazy, before, l, r, f, st, w);
    lemma_span_children(w, st.h);
    lemma_span_monotone(st.lo, w, st.h);
    assert(w / 2 == st.rb / 2);
    assert(cached_ok(data, lazy, w) || on_path(w, st.ls / 2) || on_path(w, st.rs / 2)
        || w >= n);
    lemma_take_effect(data, lazy, w, st.h, f);
    lemma_take_tags(data, lazy, before, l, r, f, st, w);
    if st.rs == 0 {
        assert(on_path(w, w));
        assert(w / 2 >= 1 ==> on_path(w / 2, w / 2));
    } else {
        if w / 2 >= 1 {
            assert(st.rb >= 1);
            assert(on_path(st.rb, st.rs / 2));
            lemma_on_path_parent(st.rb, st.rs / 2);
        }
    }
    assert forall|v: int| 1 <= v < n implies #[trigger] cached_ok(data2, lazy2, v) || on_path(
        v,
        st2.ls / 2,
    ) || on_path(v, st2.rs / 2) by {
        assert(cached_ok(data, lazy, v) || on_path(v, st.ls / 2) || on_path(v, st.rs / 2));
    }
    assert forall|i: int| 0 <= i < n implies #[trigger] values(data2, lazy2)[i] == if covered(
        n,
        l,
        r,
        st2,
        n + i,
    ) {
        f.act_spec(before[i])
    } else {
        before[i]
    } by {
        assert(values(data, lazy)[i] == if covered(n, l, r, st, n + i) {
            f.act_spec(before[i])
        } else {
            before[i]
        });
    }
}

/// Taking a node keeps the paths that the invariant needs free of pending
/// actions.
pub proof fn lemma_take_tags<S: Monoid, F: Action<S>>(
    data: Seq<S>,
    lazy: Seq<F>,
    before: Seq<S>,
    l: int,
    r: int,
    f: F,
    st: Frontier,
    w: int,
)
    requires
        apply_inv(data, lazy, before, l, r, f, st),
        st.lo <= w < st.hi,
    ensures
        all_id_path(taken_lazy(lazy, w, f), st.lb / 2),
        all_id_path(taken_lazy(lazy, w, f), st.rb / 2),
        all_id_path(taken_lazy(lazy, w, f), st.ls / 2),
        all_id_path(taken_lazy(lazy, w, f), st.rs / 2),
        all_id_path(taken_lazy(lazy, w, f), w / 2) == all_id_path(lazy, w / 2),
{
    let n = lazy.len() as int;
    lemma_taken_off_paths(data, lazy, before, l, r, f, st, w);
    if w < n {
        let x = f.op_spec(lazy[w]);
        lemma_compose_keeps_boundaries(lazy, n, w, st.h, x, st.lb, st.rb, n + r);
        if st.ls != 0 {
            lemma_node_bounds(n, st.ls, st.hl);
        }
        if st.rs != 0 {
            lemma_node_bounds(n, st.rs, st.hr);
        }
        lemma_id_path_off_path(lazy, w, x, st.ls / 2);
        lemma_id_path_off_path(lazy, w, x, st.rs / 2);
        lemma_id_path_frame(lazy.update(w, x), lazy, w / 2);
    }
}

/// Moving both pointers up one level keeps the invariant.
pub proof fn lemma_ascend<S: Monoid, F: Action<S>>(
    data: Seq<S>,
    lazy: Seq<F>,
    before: Seq<S>,
    l: int,
    r: int,
    f: F,
    st: Frontier,
)
    requires
        apply_inv(data, lazy, before, l, r, f, st),
        st.lo % 2 == 0,
        st.hi % 2 == 0,
    ensures
        apply_inv(
            data,
            lazy,
            before,
            l,
            r,
            f,
            Frontier {
                lo: st.lo / 2,
                hi: st.hi / 2,
                h: st.h + 1,
                lb: st.lb / 2,
                rb: st.rb / 2,
                ..st
            },
        ),
{
    let n = lazy.len() as int;
    let st2 = Frontier {
        lo: st.lo / 2,
        hi: st.hi / 2,
        h: st.h + 1,
        lb: st.lb / 2,
        rb: st.rb / 2,
        ..st
    };
    lemma_span_children(st.lo / 2, st.h);
    lemma_span_children(st.hi / 2, st.h);
    lemma_span_parent(st.rb, st.h);
    if st.ls != 0 && st.lb / 2 >= 1 {
        lemma_on_path_parent(st.lb, st.ls);
    }
    if st.rs != 0 && st.rb / 2 >= 1 {
        lemma_on_path_parent(st.rb, st.rs);
    }
    assert forall|i: int| 0 <= i < n implies #[trigger] values(data, lazy)[i] == if covered(
        n,
        l,
        r,
        st2,
        n + i,
    ) {
        f.act_spec(before[i])
    } else {
        before[i]
    } by {
        assert(values(data, lazy)[i] == if covered(n, l, r, st, n + i) {
            f.act_spec(before[i])
        } else {
            before[i]
        });
    }
}

} // verus!
