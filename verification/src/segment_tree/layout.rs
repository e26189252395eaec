//! Arithmetic of the implicit binary-tree layout shared by the engines.
//!
//! Node `v` has children `2v` and `2v + 1`; for a tree over `n` values the
//! leaves occupy positions `n .. 2n`.  A node `v` of height `h` spans the
//! positions `v * 2^h .. (v + 1) * 2^h`.

use vstd::prelude::*;
use vstd::arithmetic::power2::{pow2, lemma_pow2_pos, lemma_pow2_unfold};

verus! {

/// First position spanned by node `v` at height `h`.
pub open spec fn span_lo(v: int, h: nat) -> int {
    v * pow2(h)
}

/// One past the last position spanned by node `v` at height `h`.
pub open spec fn span_hi(v: int, h: nat) -> int {
    (v + 1) * pow2(h)
}

/// Node `v` at height `h` spans positions of the row `b .. 2b` only.  With
/// `b == n` that row is the leaves.
pub open spec fn spans_within(b: int, v: int, h: nat) -> bool {
    b <= span_lo(v, h) && span_hi(v, h) <= 2 * b
}

/// The least `m` with `2^m >= n`.
pub open spec fn ceil_log2(n: nat) -> nat
    decreases n,
{
    if n <= 1 {
        0
    } else {
        1 + ceil_log2((n + 1) / 2)
    }
}

/// The number of leaves on the shallower of the two leaf levels of a tree
/// over `n` values: `2^ceil_log2(n) - n`.  Zero when `n` is a power of two.
pub open spec fn root_offset(n: nat) -> nat {
    (pow2(ceil_log2(n)) - n) as nat
}

/// `2^ceil_log2(n)` is the least power of two that is at least `n`.
pub proof fn lemma_ceil_log2(n: nat)
    requires
        n >= 1,
    ensures
        n <= pow2(ceil_log2(n)) < 2 * n,
        n >= 2 ==> ceil_log2(n) >= 1 && pow2(ceil_log2(n)) <= 2 * n - 2,
    decreases n,
{
    if n <= 1 {
        vstd::arithmetic::power2::lemma2_to64();
    } else {
        let half = ((n + 1) / 2) as nat;
        lemma_ceil_log2(half);
        lemma_pow2_unfold(ceil_log2(n));
        vstd::arithmetic::power2::lemma2_to64();
    }
}

/// At height zero a node spans itself.
pub proof fn lemma_span_zero(v: int)
    ensures
        span_lo(v, 0) == v,
        span_hi(v, 0) == v + 1,
{
    vstd::arithmetic::power2::lemma2_to64();
}

/// The span of a node is the span of its left child followed by the span
/// of its right child.
pub proof fn lemma_span_children(v: int, h: nat)
    ensures
        span_lo(2 * v, h) == span_lo(v, h + 1),
        span_hi(2 * v, h) == span_lo(2 * v + 1, h),
        span_hi(2 * v + 1, h) == span_hi(v, h + 1),
        span_lo(v, h) < span_hi(v, h),
{
    lemma_pow2_unfold(h + 1);
    lemma_pow2_pos(h);
    let p = pow2(h) as int;
    assert(pow2(h + 1) == 2 * p);
    assert((2 * v) * p == v * (2 * p)) by (nonlinear_arith);
    assert((2 * v + 1) * p == (2 * v) * p + p) by (nonlinear_arith);
    assert((2 * v + 1 + 1) * p == (v + 1) * (2 * p)) by (nonlinear_arith);
    assert(v * p < (v + 1) * p) by (nonlinear_arith)
        requires
            p > 0,
    ;
}

/// The span of a node lies within the span of its parent.
pub proof fn lemma_span_parent(u: int, g: nat)
    requires
        0 <= u,
    ensures
        span_lo(u / 2, g + 1) <= span_lo(u, g),
        span_hi(u, g) <= span_hi(u / 2, g + 1),
{
    lemma_span_children(u / 2, g);
    lemma_span_children(2 * (u / 2), g);
    lemma_span_children(2 * (u / 2) + 1, g);
    assert(u == 2 * (u / 2) || u == 2 * (u / 2) + 1);
}

/// A node whose span lies within the row `n .. 2n` lies at or above it.
pub proof fn lemma_node_bounds(n: int, v: int, h: nat)
    requires
        n >= 1,
        spans_within(n, v, h),
    ensures
        1 <= v < 2 * n,
        h >= 1 <==> v < n,
{
    lemma_pow2_pos(h);
    let p = pow2(h) as int;
    assert(1 <= v < 2 * n) by (nonlinear_arith)
        requires
            n >= 1,
            p >= 1,
            n <= v * p,
            (v + 1) * p <= 2 * n,
    ;
    if h >= 1 {
        lemma_internal(n, v, h);
    } else {
        lemma_span_zero(v);
    }
}

/// Spans are ordered as their nodes are.
pub proof fn lemma_span_monotone(u: int, v: int, h: nat)
    requires
        u <= v,
    ensures
        span_lo(u, h) <= span_lo(v, h),
        span_hi(u, h) <= span_hi(v, h),
        u < v ==> span_hi(u, h) <= span_lo(v, h),
{
    lemma_pow2_pos(h);
    let p = pow2(h) as int;
    assert(u * p <= v * p) by (nonlinear_arith)
        requires
            u <= v,
            p > 0,
    ;
    assert((u + 1) * p <= (v + 1) * p) by (nonlinear_arith)
        requires
            u <= v,
            p > 0,
    ;
    if u < v {
        assert((u + 1) * p <= v * p) by (nonlinear_arith)
            requires
                u + 1 <= v,
                p > 0,
        ;
    }
}

/// A node of positive height that spans positions of the row `n .. 2n`
/// only lies above that row, and so do the spans of its children.
pub proof fn lemma_internal(n: int, v: int, h: nat)
    requires
        n >= 1,
        h >= 1,
        spans_within(n, v, h),
    ensures
        1 <= v < n,
        spans_within(n, 2 * v, (h - 1) as nat),
        spans_within(n, 2 * v + 1, (h - 1) as nat),
{
    let g = (h - 1) as nat;
    lemma_span_children(v, g);
    lemma_span_children(2 * v, g);
    lemma_span_children(2 * v + 1, g);
    lemma_pow2_pos(h);
    let p = pow2(h) as int;
    assert(p >= 2) by {
        lemma_pow2_unfold(h);
        lemma_pow2_pos(g);
    }
    if v <= 0 {
        assert(v * p <= 0) by (nonlinear_arith)
            requires
                v <= 0,
                p > 0,
        ;
    }
    if v >= n {
        assert((v + 1) * p >= (n + 1) * 2) by (nonlinear_arith)
            requires
                v >= n,
                p >= 2,
                n >= 1,
        ;
    }
}

} // verus!
