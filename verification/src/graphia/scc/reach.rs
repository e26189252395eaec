//! Paths in a directed graph, and what can be reached along them.

use vstd::prelude::*;

verus! {

/// The graph has an arc from `u` to `v`.
pub open spec fn arc<W>(g: Seq<Seq<(usize, W)>>, u: int, v: int) -> bool {
    0 <= u < g.len() && 0 <= v < g.len() && exists|j: int|
        0 <= j < g[u].len() && (#[trigger] g[u][j]).0 == v
}

/// `p` is a path of the graph: a sequence of at least one vertex in which
/// an arc leads from each vertex to the next.
pub open spec fn is_path<W>(g: Seq<Seq<(usize, W)>>, p: Seq<int>) -> bool {
    &&& p.len() >= 1
    &&& 0 <= p[0] < g.len()
    &&& forall|i: int| 0 < i < p.len() ==> arc(g, p[i - 1], #[trigger] p[i])
}

/// `p` is a path from `u` to `v`.
pub open spec fn joins<W>(g: Seq<Seq<(usize, W)>>, p: Seq<int>, u: int, v: int) -> bool {
    is_path(g, p) && p[0] == u && p.last() == v
}

/// A path leads from `u` to `v`.
pub open spec fn reach<W>(g: Seq<Seq<(usize, W)>>, u: int, v: int) -> bool {
    exists|p: Seq<int>| #[trigger] joins(g, p, u, v)
}

/// `u` and `v` lie in one strongly connected component: each can be
/// reached from the other.
pub open spec fn scc<W>(g: Seq<Seq<(usize, W)>>, u: int, v: int) -> bool {
    reach(g, u, v) && reach(g, v, u)
}

/// Every vertex of a path is a vertex of the graph.
pub proof fn lemma_path_vertices<W>(g: Seq<Seq<(usize, W)>>, p: Seq<int>, i: int)
    requires
        is_path(g, p),
        0 <= i < p.len(),
    ensures
        0 <= p[i] < g.len(),
{
    if i > 0 {
        assert(arc(g, p[i - 1], p[i]));
    }
}

/// What can be reached, and what it can be reached from, is a vertex.
pub proof fn lemma_reach_vertices<W>(g: Seq<Seq<(usize, W)>>, u: int, v: int)
    requires
        reach(g, u, v),
    ensures
        0 <= u < g.len(),
        0 <= v < g.len(),
{
    let p = choose|p: Seq<int>| #[trigger] joins(g, p, u, v);
    lemma_path_vertices(g, p, p.len() - 1);
}

/// Every vertex can be reached from itself.
pub proof fn lemma_reach_self<W>(g: Seq<Seq<(usize, W)>>, u: int)
    requires
        0 <= u < g.len(),
    ensures
        reach(g, u, u),
        scc(g, u, u),
{
    assert(joins(g, seq![u], u, u));
}

/// An arc reaches.
pub proof fn lemma_reach_arc<W>(g: Seq<Seq<(usize, W)>>, u: int, v: int)
    requires
        arc(g, u, v),
    ensures
        reach(g, u, v),
{
    let p = seq![u, v];
    assert forall|i: int| 0 < i < p.len() implies arc(g, p[i - 1], #[trigger] p[i]) by {}
    assert(joins(g, p, u, v));
}

/// Two paths of which the second begins where the first ends make one.
pub proof fn lemma_path_concat<W>(
    g: Seq<Seq<(usize, W)>>,
    p: Seq<int>,
    q: Seq<int>,
    u: int,
    v: int,
    w: int,
)
    requires
        joins(g, p, u, v),
        joins(g, q, v, w),
    ensures
        joins(g, p + q.drop_first(), u, w),
{
    let r = p + q.drop_first();
    assert forall|i: int| 0 < i < r.len() implies arc(g, r[i - 1], #[trigger] r[i]) by {
        if i < p.len() {
            assert(arc(g, p[i - 1], p[i]));
        } else {
            let k = i - p.len() + 1;
            assert(arc(g, q[k - 1], q[k]));
            assert(r[i] == q[k]);
            if i == p.len() {
                assert(r[i - 1] == p.last());
            } else {
                assert(r[i - 1] == q[k - 1]);
            }
        }
    }
    if q.len() == 1 {
        assert(r =~= p);
    } else {
        assert(r.last() == q.last());
    }
}

/// What can be reached from what can be reached can be reached.
pub proof fn lemma_reach_trans<W>(g: Seq<Seq<(usize, W)>>, u: int, v: int, w: int)
    requires
        reach(g, u, v),
        reach(g, v, w),
    ensures
        reach(g, u, w),
{
    let p = choose|p: Seq<int>| #[trigger] joins(g, p, u, v);
    let q = choose|q: Seq<int>| #[trigger] joins(g, q, v, w);
    lemma_path_concat(g, p, q, u, v, w);
    assert(joins(g, p + q.drop_first(), u, w));
}

/// Lying in one component is transitive.
pub proof fn lemma_scc_trans<W>(g: Seq<Seq<(usize, W)>>, u: int, v: int, w: int)
    requires
        scc(g, u, v),
        scc(g, v, w),
    ensures
        scc(g, u, w),
{
    lemma_reach_trans(g, u, v, w);
    lemma_reach_trans(g, w, v, u);
}

/// The beginning of a path is a path to the vertex that it ends at, and
/// the rest a path from there.
pub proof fn lemma_path_split<W>(g: Seq<Seq<(usize, W)>>, p: Seq<int>, i: int)
    requires
        is_path(g, p),
        0 <= i < p.len(),
    ensures
        joins(g, p.take(i + 1), p[0], p[i]),
        joins(g, p.skip(i), p[i], p.last()),
        reach(g, p[0], p[i]),
        reach(g, p[i], p.last()),
{
    let a = p.take(i + 1);
    let b = p.skip(i);
    lemma_path_vertices(g, p, i);
    assert forall|k: int| 0 < k < a.len() implies arc(g, a[k - 1], #[trigger] a[k]) by {
        assert(arc(g, p[k - 1], p[k]));
    }
    assert forall|k: int| 0 < k < b.len() implies arc(g, b[k - 1], #[trigger] b[k]) by {
        assert(arc(g, p[i + k - 1], p[i + k]));
    }
    assert(joins(g, a, p[0], p[i]));
    assert(joins(g, b, p[i], p.last()));
}

/// The number of entries of `s` that are true.
pub open spec fn count_true(s: Seq<bool>) -> nat
    decreases s.len(),
{
    if s.len() == 0 {
        0
    } else {
        count_true(s.drop_last()) + if s.last() {
            1nat
        } else {
            0nat
        }
    }
}

/// Changing one entry changes the count by one, or not at all.
pub proof fn lemma_count_update(s: Seq<bool>, i: int, b: bool)
    requires
        0 <= i < s.len(),
    ensures
        count_true(s) <= s.len(),
        s[i] == b ==> count_true(s.update(i, b)) == count_true(s),
        !s[i] && b ==> count_true(s.update(i, b)) == count_true(s) + 1,
        s[i] && !b ==> count_true(s.update(i, b)) + 1 == count_true(s),
    decreases s.len(),
{
    let t = s.update(i, b);
    if i == s.len() - 1 {
        assert(t.drop_last() =~= s.drop_last());
        lemma_count_bound(s.drop_last());
    } else {
        lemma_count_update(s.drop_last(), i, b);
        assert(t.drop_last() =~= s.drop_last().update(i, b));
    }
}

/// There are no more true entries than entries.
pub proof fn lemma_count_bound(s: Seq<bool>)
    ensures
        count_true(s) <= s.len(),
    decreases s.len(),
{
    if s.len() > 0 {
        lemma_count_bound(s.drop_last());
    }
}

} // verus!
