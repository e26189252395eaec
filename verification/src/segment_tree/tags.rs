//! Pending actions stored along root-to-leaf paths, and what it means to
//! resolve, compose and push them.

use vstd::prelude::*;
use vstd::arithmetic::power2::{
    lemma_pow2_pos, lemma_pow2_strictly_increases, lemma_pow2_unfold, pow2,
};
use crate::algebra::{Action, Monoid};
use crate::segment_tree::layout::{
    lemma_span_children, lemma_span_monotone, span_hi, span_lo, spans_within,
};

verus! {

/// The value `x` after the tags of `v`, of its parent, and so on up to the
/// root have acted on it, in that order.
pub open spec fn resolve<S, F: Action<S>>(tags: Seq<F>, v: int, x: S) -> S
    decreases v,
{
    if v < 1 {
        x
    } else {
        resolve(tags, v / 2, tags[v].act_spec(x))
    }
}

/// The tags of `u` and of all its ancestors are the identity.
pub open spec fn all_id_path<F: Monoid>(tags: Seq<F>, u: int) -> bool
    decreases u,
{
    u < 1 || (tags[u] == F::id_spec() && all_id_path(tags, u / 2))
}

/// Node `v` is `q` or one of its ancestors.
pub open spec fn on_path(v: int, q: int) -> bool
    decreases q,
{
    q >= 1 && (q == v || on_path(v, q / 2))
}

/// The tags after the tag of `k` has been composed into those of its
/// children that carry one, and reset to the identity.
pub open spec fn pushed<F: Monoid>(tags: Seq<F>, k: int) -> Seq<F> {
    let f = tags[k];
    let a = tags.update(k, F::id_spec());
    let b = if 2 * k < tags.len() {
        a.update(2 * k, f.op_spec(tags[2 * k]))
    } else {
        a
    };
    if 2 * k + 1 < tags.len() {
        b.update(2 * k + 1, f.op_spec(tags[2 * k + 1]))
    } else {
        b
    }
}

/// The sequence `a` after `f` has acted on every element of `l .. r`.
pub open spec fn acted<S, F: Action<S>>(a: Seq<S>, l: int, r: int, f: F) -> Seq<S> {
    Seq::new(
        a.len(),
        |i: int|
            if l <= i < r {
                f.act_spec(a[i])
            } else {
                a[i]
            },
    )
}

/// A path through tags that are all the identity carries no pending tag.
pub proof fn lemma_fresh_id_path<F: Monoid>(tags: Seq<F>, u: int)
    requires
        u < tags.len(),
        forall|w: int| 1 <= w < tags.len() ==> tags[w] == F::id_spec(),
    ensures
        all_id_path(tags, u),
    decreases u,
{
    if u >= 1 {
        lemma_fresh_id_path(tags, u / 2);
    }
}

/// Composing `f` into the tag of a node `v` that spans leaves only, and
/// whose ancestors carry no pending tag, makes `f` act last on the leaves
/// that `v` spans and leaves every other leaf unchanged.
pub proof fn lemma_compose_span<S, F: Action<S>>(
    tags: Seq<F>,
    n: int,
    v: int,
    h: nat,
    f: F,
    q: int,
    x: S,
)
    requires
        n >= 1,
        tags.len() == 2 * n,
        spans_within(n, v, h),
        1 <= v < 2 * n,
        all_id_path(tags, v / 2),
        n <= q < 2 * n,
    ensures
        resolve(tags.update(v, f.op_spec(tags[v])), q, x) == if span_lo(v, h) <= q < span_hi(
            v,
            h,
        ) {
            f.act_spec(resolve(tags, q, x))
        } else {
            resolve(tags, q, x)
        },
{
    lemma_compose_effect(tags, v, f, q, x);
    vstd::arithmetic::power2::lemma2_to64();
    assert(span_lo(q, 0) == q && span_hi(q, 0) == q + 1);
    lemma_on_path_span(n, v, h, q, q, 0);
}

/// Resolution from `v` only reads the tags at positions up to `v`.
pub proof fn lemma_resolve_frame<S, F: Action<S>>(a: Seq<F>, b: Seq<F>, v: int, x: S)
    requires
        forall|w: int| 1 <= w <= v ==> a[w] == b[w],
    ensures
        resolve(a, v, x) == resolve(b, v, x),
    decreases v,
{
    if v >= 1 {
        lemma_resolve_frame(a, b, v / 2, a[v].act_spec(x));
    }
}

/// Whether a path is free of pending tags only depends on the tags at
/// positions up to its start.
pub proof fn lemma_id_path_frame<F: Monoid>(a: Seq<F>, b: Seq<F>, u: int)
    requires
        forall|w: int| 1 <= w <= u ==> a[w] == b[w],
    ensures
        all_id_path(a, u) == all_id_path(b, u),
    decreases u,
{
    if u >= 1 {
        lemma_id_path_frame(a, b, u / 2);
    }
}

/// Resolution along a path without pending tags changes nothing.
pub proof fn lemma_resolve_id_path<S, F: Action<S>>(tags: Seq<F>, u: int, x: S)
    requires
        all_id_path(tags, u),
    ensures
        resolve(tags, u, x) == x,
    decreases u,
{
    if u >= 1 {
        F::lemma_act_identity(x);
        lemma_resolve_id_path(tags, u / 2, x);
    }
}

/// Composing `f` into the tag of `v`, whose ancestors carry no pending tag,
/// makes `f` act last on everything that resolves through `v` and leaves
/// every other resolution unchanged.
pub proof fn lemma_compose_effect<S, F: Action<S>>(tags: Seq<F>, v: int, f: F, q: int, x: S)
    requires
        1 <= v < tags.len(),
        q < tags.len(),
        all_id_path(tags, v / 2),
    ensures
        resolve(tags.update(v, f.op_spec(tags[v])), q, x) == if on_path(v, q) {
            f.act_spec(resolve(tags, q, x))
        } else {
            resolve(tags, q, x)
        },
    decreases q,
{
    let after = tags.update(v, f.op_spec(tags[v]));
    if q < 1 {
    } else if q == v {
        let y = after[v].act_spec(x);
        lemma_resolve_frame(after, tags, v / 2, y);
        lemma_resolve_id_path(tags, v / 2, y);
        lemma_resolve_id_path(tags, v / 2, tags[v].act_spec(x));
        F::lemma_act_compose(f, tags[v], x);
    } else {
        lemma_compose_effect(tags, v, f, q / 2, tags[q].act_spec(x));
    }
}

/// Pushing the tag of `k` down leaves every resolution that starts below
/// `k` unchanged.
pub proof fn lemma_push_effect<S, F: Action<S>>(tags: Seq<F>, k: int, u: int, x: S)
    requires
        1 <= k < u < tags.len(),
    ensures
        resolve(pushed(tags, k), u, x) == resolve(tags, u, x),
    decreases u,
{
    let after = pushed(tags, k);
    if u / 2 == k {
        assert(u == 2 * k || u == 2 * k + 1);
        assert(after[u] == tags[k].op_spec(tags[u]));
        assert(after[k] == F::id_spec());
        let y = after[u].act_spec(x);
        F::lemma_act_compose(tags[k], tags[u], x);
        F::lemma_act_identity(y);
        lemma_resolve_frame(after, tags, k / 2, y);
        assert(resolve(after, u, x) == resolve(after, k, y));
        assert(resolve(after, k, y) == resolve(after, k / 2, after[k].act_spec(y)));
        assert(resolve(tags, u, x) == resolve(tags, k, tags[u].act_spec(x)));
        assert(resolve(tags, k, tags[u].act_spec(x)) == resolve(
            tags,
            k / 2,
            tags[k].act_spec(tags[u].act_spec(x)),
        ));
    } else if u / 2 > k {
        assert(after[u] == tags[u]);
        lemma_push_effect(tags, k, u / 2, tags[u].act_spec(x));
    } else {
        assert(after[u] == tags[u]);
        lemma_resolve_frame(after, tags, u / 2, tags[u].act_spec(x));
    }
}

/// Pushing the tag of `k` down leaves resolutions that start above `k`
/// unchanged, and makes a resolution from `k` skip the old tag of `k`.
pub proof fn lemma_push_above<S, F: Action<S>>(tags: Seq<F>, k: int, x: S)
    requires
        1 <= k < tags.len(),
    ensures
        resolve(pushed(tags, k), k, tags[k].act_spec(x)) == resolve(tags, k, x),
{
    let after = pushed(tags, k);
    let y = tags[k].act_spec(x);
    F::lemma_act_identity(y);
    lemma_resolve_frame(after, tags, k / 2, y);
}

/// Pushing the tag of `k` down keeps paths without pending tags free of
/// them, and clears `k` itself.
pub proof fn lemma_push_keeps_id_path<F: Monoid>(tags: Seq<F>, k: int, u: int)
    requires
        1 <= k < tags.len(),
        u < tags.len(),
        all_id_path(tags, u),
    ensures
        all_id_path(pushed(tags, k), u),
        pushed(tags, k)[k] == F::id_spec(),
        pushed(tags, k).len() == tags.len(),
    decreases u,
{
    if u >= 1 {
        F::lemma_identity(F::id_spec());
        lemma_push_keeps_id_path(tags, k, u / 2);
    }
}

/// The parent of a node on a path is on that path too.
pub proof fn lemma_on_path_parent(v: int, q: int)
    requires
        on_path(v, q),
        v / 2 >= 1,
    ensures
        on_path(v / 2, q),
    decreases q,
{
    if q == v {
        assert(on_path(v / 2, v / 2));
    } else {
        lemma_on_path_parent(v, q / 2);
    }
}

/// Changing the tag of a node that is not on the path from `u` does not
/// change whether that path is free of pending tags.
pub proof fn lemma_id_path_off_path<F: Monoid>(tags: Seq<F>, w: int, x: F, u: int)
    requires
        0 <= w < tags.len(),
        u < tags.len(),
        !on_path(w, u),
    ensures
        all_id_path(tags.update(w, x), u) == all_id_path(tags, u),
    decreases u,
{
    if u >= 1 {
        lemma_id_path_off_path(tags, w, x, u / 2);
    }
}

/// Changing the tag of a node `w` that spans leaves of `n .. end` only
/// keeps the paths above two boundary nodes free of pending tags: one at
/// or before `w`, the other starting before `end`.
pub proof fn lemma_compose_keeps_boundaries<F: Monoid>(
    tags: Seq<F>,
    n: int,
    w: int,
    h: nat,
    x: F,
    lb: int,
    rb: int,
    end: int,
)
    requires
        n >= 1,
        spans_within(n, w, h),
        w < tags.len(),
        0 <= lb <= w,
        0 <= rb,
        span_lo(rb, h) < end <= 2 * n,
        all_id_path(tags, lb / 2),
        all_id_path(tags, rb / 2),
    ensures
        1 <= w < 2 * n,
        all_id_path(tags.update(w, x), lb / 2),
        all_id_path(tags.update(w, x), rb / 2),
{
    lemma_pow2_pos(h);
    let p = pow2(h) as int;
    assert(1 <= w < 2 * n) by (nonlinear_arith)
        requires
            n >= 1,
            p >= 1,
            n <= w * p,
            (w + 1) * p <= 2 * n,
    ;
    assert(rb < 2 * w) by (nonlinear_arith)
        requires
            rb * p < 2 * n,
            n <= w * p,
            p >= 1,
    ;
    let after = tags.update(w, x);
    lemma_id_path_frame(after, tags, lb / 2);
    lemma_id_path_frame(after, tags, rb / 2);
}

/// On the way up from a leaf `q`, the node `u` reached after `g` steps is
/// `v` or lies below `v` exactly if `v` is at least that high and spans `q`.
pub proof fn lemma_on_path_span(n: int, v: int, h: nat, q: int, u: int, g: nat)
    requires
        n >= 1,
        n <= q < 2 * n,
        spans_within(n, v, h),
        0 <= u,
        span_lo(u, g) <= q < span_hi(u, g),
    ensures
        on_path(v, u) <==> (g <= h && span_lo(v, h) <= q < span_hi(v, h)),
    decreases u,
{
    lemma_pow2_pos(g);
    lemma_pow2_pos(h);
    let pg = pow2(g) as int;
    let ph = pow2(h) as int;
    assert(v >= 1) by {
        if v <= 0 {
            assert(v * ph <= 0) by (nonlinear_arith)
                requires
                    v <= 0,
                    ph > 0,
            ;
        }
    }
    if u < 1 {
        if g <= h {
            if g < h {
                lemma_pow2_strictly_increases(g, h);
            }
            assert(v * ph >= ph) by (nonlinear_arith)
                requires
                    v >= 1,
                    ph > 0,
            ;
            assert((0 + 1) * pg == pg) by (nonlinear_arith);
        }
    } else {
        lemma_span_children(u / 2, g);
        lemma_span_children(2 * (u / 2), g);
        lemma_span_children(2 * (u / 2) + 1, g);
        assert(u == 2 * (u / 2) || u == 2 * (u / 2) + 1);
        lemma_on_path_span(n, v, h, q, u / 2, g + 1);
        if g < h {
            if u == v {
                lemma_pow2_unfold(g + 1);
                if g + 1 < h {
                    lemma_pow2_strictly_increases(g + 1, h);
                }
                assert((v + 1) * pg * 2 <= (v + 1) * ph) by (nonlinear_arith)
                    requires
                        2 * pg <= ph,
                        v >= 1,
                ;
            }
        } else if g == h {
            if u < v {
                lemma_span_monotone(u, v, h);
            } else if v < u {
                lemma_span_monotone(v, u, h);
            }
        } else {
            if u == v {
                lemma_pow2_unfold(h + 1);
                if h + 1 < g {
                    lemma_pow2_strictly_increases(h + 1, g);
                }
                assert(v * pg >= v * ph * 2) by (nonlinear_arith)
                    requires
                        2 * ph <= pg,
                        v >= 1,
                ;
            }
        }
    }
}

} // verus!
