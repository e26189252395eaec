//! Strongly connected components by two depth-first traversals: the
//! first, of the graph, puts the vertices in the order in which it leaves
//! them; the second, of the graph with its arcs turned around, takes the
//! vertices from the last left to the first and gathers, from each that
//! has no component yet, what reaches it.

use vstd::prelude::*;
use crate::graphia::csr::{
    bucket, lemma_bucket_from, lemma_bucket_has, lemma_turned_from, lemma_turned_has, turned_arcs,
    Csr,
};
use crate::graphia::scc::reach::{
    arc, count_true, is_path, joins, lemma_count_bound, lemma_count_update, lemma_path_split,
    lemma_path_vertices, lemma_reach_arc, lemma_reach_self, lemma_reach_trans,
    lemma_reach_vertices, lemma_scc_trans, reach, scc,
};

verus! {

/// The first traversal has entered `v` and not left it.
pub open spec fn gray(flag: Seq<bool>, fin: Seq<int>, v: int) -> bool {
    flag[v] && fin[v] < 0
}

/// The stack holds an entry that waits for `v` to be left.
pub open spec fn marked(stack: Seq<(usize, bool)>, v: int) -> bool {
    exists|k: int| 0 <= k < stack.len() && (#[trigger] stack[k]).1 && stack[k].0 == v
}

/// The stack holds, above place `k`, an entry that waits for `y` to be
/// entered.
pub open spec fn waiting(stack: Seq<(usize, bool)>, k: int, y: int) -> bool {
    exists|i: int| k < i < stack.len() && !(#[trigger] stack[i]).1 && stack[i].0 == y
}

/// Each of the first `upto` neighbours of the vertex at place `k` of the
/// stack has been entered, or an entry above `k` waits for it.
pub open spec fn served<W>(
    g: Seq<Seq<(usize, W)>>,
    flag: Seq<bool>,
    stack: Seq<(usize, bool)>,
    k: int,
    upto: int,
) -> bool {
    forall|j: int|
        0 <= j < upto && j < g[stack[k].0 as int].len() ==> flag[(
        #[trigger] g[stack[k].0 as int][j]).0 as int] || waiting(
            stack,
            k,
            g[stack[k].0 as int][j].0 as int,
        )
}

/// The state of the first traversal: `fin` tells for every vertex that
/// has been left its place in `order`, and is negative for the others;
/// the entries of the stack that wait for a vertex to be left are those
/// of the vertices entered and not left, each once, and each reaches
/// what lies above it on the stack; the neighbours of a vertex that has
/// been left have all been entered, and those of a vertex that has been
/// entered have been entered or wait on the stack above it: all of them,
/// but for the vertex at place `open`, of which the first `upto` have.
pub open spec fn pass_one<W>(
    g: Seq<Seq<(usize, W)>>,
    flag: Seq<bool>,
    fin: Seq<int>,
    order: Seq<usize>,
    stack: Seq<(usize, bool)>,
    open: int,
    upto: int,
) -> bool {
    let n = g.len();
    &&& flag.len() == n
    &&& fin.len() == n
    &&& forall|v: int, j: int| 0 <= v < n && 0 <= j < g[v].len() ==> (#[trigger] g[v][j]).0 < n
    &&& forall|k: int|
        0 <= k < order.len() ==> (#[trigger] order[k]) < n && fin[order[k] as int] == k
    &&& forall|v: int|
        0 <= v < n && (#[trigger] fin[v]) >= 0 ==> fin[v] < order.len() && order[fin[v]] == v
            && flag[v]
    &&& forall|k: int| 0 <= k < stack.len() ==> (#[trigger] stack[k]).0 < n
    &&& forall|k: int|
        0 <= k < stack.len() && (#[trigger] stack[k]).1 ==> gray(flag, fin, stack[k].0 as int)
    &&& forall|v: int| 0 <= v < n && #[trigger] gray(flag, fin, v) ==> marked(stack, v)
    &&& forall|k: int, i: int|
        0 <= k < i < stack.len() && (#[trigger] stack[k]).1 && (#[trigger] stack[i]).1
            ==> stack[k].0 != stack[i].0
    &&& forall|k: int, i: int|
        0 <= k < i < stack.len() && (#[trigger] stack[k]).1 ==> reach(
            g,
            stack[k].0 as int,
            (#[trigger] stack[i]).0 as int,
        )
    &&& forall|k: int|
        0 <= k < stack.len() && (#[trigger] stack[k]).1 ==> served(
            g,
            flag,
            stack,
            k,
            if k == open {
                upto
            } else {
                g[stack[k].0 as int].len() as int
            },
        )
    &&& forall|v: int, j: int|
        0 <= v < n && fin[v] >= 0 && 0 <= j < g[v].len() ==> flag[(#[trigger] g[v][j]).0 as int]
}

/// Everything that can be reached from `a` has been left.
pub open spec fn closed<W>(g: Seq<Seq<(usize, W)>>, fin: Seq<int>, a: int) -> bool {
    forall|z: int| #[trigger] reach(g, a, z) ==> fin[z] >= 0
}

/// A vertex in the component of `a` has been entered and not left.
pub open spec fn has_gray_mate<W>(
    g: Seq<Seq<(usize, W)>>,
    flag: Seq<bool>,
    fin: Seq<int>,
    a: int,
) -> bool {
    exists|w: int| 0 <= w < g.len() && gray(flag, fin, w) && #[trigger] scc(g, a, w)
}

/// For every vertex that has been left, everything that it reaches has
/// been left, or a vertex of its component has been entered and not
/// left.
pub open spec fn settled<W>(g: Seq<Seq<(usize, W)>>, flag: Seq<bool>, fin: Seq<int>) -> bool {
    forall|a: int|
        0 <= a < g.len() && (#[trigger] fin[a]) >= 0 ==> closed(g, fin, a) || has_gray_mate(
            g,
            flag,
            fin,
            a,
        )
}

/// A vertex in the component of `a` has not been left, or was left after
/// `b`.
pub open spec fn later_mate<W>(g: Seq<Seq<(usize, W)>>, fin: Seq<int>, a: int, b: int) -> bool {
    exists|m: int| 0 <= m < g.len() && #[trigger] scc(g, a, m) && (fin[m] < 0 || fin[m] > fin[b])
}

/// Whenever `a` reaches a vertex `b` that has been left and that does not
/// reach `a`, a vertex in the component of `a` has not been left, or was
/// left after `b`.
pub open spec fn ahead<W>(g: Seq<Seq<(usize, W)>>, fin: Seq<int>) -> bool {
    forall|a: int, b: int|
        0 <= b < g.len() && fin[b] >= 0 && #[trigger] reach(g, a, b) && !reach(g, b, a)
            ==> later_mate(g, fin, a, b)
}

/// On a path from a vertex `x` that has been left, every vertex has been
/// left, unless a vertex of the component of `x` has been entered and
/// not left.
pub proof fn lemma_leaves<W>(
    g: Seq<Seq<(usize, W)>>,
    flag: Seq<bool>,
    fin: Seq<int>,
    x: int,
    p: Seq<int>,
    i: int,
)
    requires
        flag.len() == g.len(),
        fin.len() == g.len(),
        is_path(g, p),
        p[0] == x,
        0 <= i < p.len(),
        fin[x] >= 0,
        forall|v: int, j: int|
            0 <= v < g.len() && fin[v] >= 0 && 0 <= j < g[v].len() ==> flag[(
            #[trigger] g[v][j]).0 as int],
        forall|w: int| 0 <= w < g.len() && #[trigger] gray(flag, fin, w) ==> reach(g, w, x),
    ensures
        fin[p[i]] >= 0 || has_gray_mate(g, flag, fin, x),
    decreases i,
{
    if i > 0 {
        lemma_leaves(g, flag, fin, x, p, i - 1);
        if !has_gray_mate(g, flag, fin, x) {
            let v = p[i - 1];
            let w = p[i];
            assert(arc(g, v, w));
            let j = choose|j: int| 0 <= j < g[v].len() && (#[trigger] g[v][j]).0 == w;
            assert(flag[g[v][j].0 as int]);
            if fin[w] < 0 {
                assert(gray(flag, fin, w));
                lemma_path_split(g, p, i);
                assert(scc(g, x, w));
            }
        }
    }
}

/// When a vertex `x` has been left, everything that it reaches has been
/// left, or a vertex of its component has been entered and not left.
pub proof fn lemma_left_settled<W>(
    g: Seq<Seq<(usize, W)>>,
    flag: Seq<bool>,
    fin: Seq<int>,
    x: int,
)
    requires
        flag.len() == g.len(),
        fin.len() == g.len(),
        0 <= x < g.len(),
        fin[x] >= 0,
        forall|v: int, j: int|
            0 <= v < g.len() && fin[v] >= 0 && 0 <= j < g[v].len() ==> flag[(
            #[trigger] g[v][j]).0 as int],
        forall|w: int| 0 <= w < g.len() && #[trigger] gray(flag, fin, w) ==> reach(g, w, x),
    ensures
        closed(g, fin, x) || has_gray_mate(g, flag, fin, x),
{
    if !has_gray_mate(g, flag, fin, x) {
        assert forall|z: int| #[trigger] reach(g, x, z) implies fin[z] >= 0 by {
            let p = choose|p: Seq<int>| #[trigger] joins(g, p, x, z);
            lemma_leaves(g, flag, fin, x, p, p.len() - 1);
        }
    }
}

/// The step that takes from the stack an entry for a vertex that has
/// been entered already.
pub proof fn lemma_one_skip<W>(
    g: Seq<Seq<(usize, W)>>,
    flag: Seq<bool>,
    fin: Seq<int>,
    order: Seq<usize>,
    stack: Seq<(usize, bool)>,
)
    requires
        pass_one(g, flag, fin, order, stack, -1, 0),
        stack.len() > 0,
        !stack.last().1,
        flag[stack.last().0 as int],
    ensures
        pass_one(g, flag, fin, order, stack.drop_last(), -1, 0),
{
    let rest = stack.drop_last();
    let top = stack.len() - 1;
    assert forall|v: int| 0 <= v < g.len() && #[trigger] gray(flag, fin, v) implies marked(
        rest,
        v,
    ) by {
        assert(marked(stack, v));
        let k = choose|k: int| 0 <= k < stack.len() && (#[trigger] stack[k]).1 && stack[k].0 == v;
        assert(rest[k] == stack[k]);
    }
    assert forall|k: int| 0 <= k < rest.len() && (#[trigger] rest[k]).1 implies served(
        g,
        flag,
        rest,
        k,
        g[rest[k].0 as int].len() as int,
    ) by {
        assert(stack[k] == rest[k]);
        assert(served(g, flag, stack, k, g[stack[k].0 as int].len() as int));
        let u = rest[k].0 as int;
        assert forall|j: int| 0 <= j < g[u].len() implies flag[(#[trigger] g[u][j]).0 as int]
            || waiting(rest, k, g[u][j].0 as int) by {
            let y = g[u][j].0 as int;
            if !flag[y] {
                assert(waiting(stack, k, y));
                let i = choose|i: int|
                    k < i < stack.len() && !(#[trigger] stack[i]).1 && stack[i].0 == y;
                assert(rest[i] == stack[i]);
            }
        }
    }
    assert forall|k: int, i: int| 0 <= k < i < rest.len() && (#[trigger] rest[k]).1 implies reach(
        g,
        rest[k].0 as int,
        (#[trigger] rest[i]).0 as int,
    ) by {
        assert(stack[k] == rest[k] && stack[i] == rest[i]);
    }
    assert forall|k: int, i: int|
        0 <= k < i < rest.len() && (#[trigger] rest[k]).1 && (
        #[trigger] rest[i]).1 implies rest[k].0 != rest[i].0 by {
        assert(stack[k] == rest[k] && stack[i] == rest[i]);
    }
    assert forall|k: int| 0 <= k < rest.len() implies (#[trigger] rest[k]).0 < g.len() && (
    rest[k].1 ==> gray(flag, fin, rest[k].0 as int)) by {
        assert(stack[k] == rest[k]);
    }
}

/// The step that enters the vertex on top of the stack, and puts there
/// the entry that waits for the vertex to be left.
pub proof fn lemma_one_enter<W>(
    g: Seq<Seq<(usize, W)>>,
    flag: Seq<bool>,
    fin: Seq<int>,
    order: Seq<usize>,
    stack: Seq<(usize, bool)>,
)
    requires
        pass_one(g, flag, fin, order, stack, -1, 0),
        settled(g, flag, fin),
        stack.len() > 0,
        !stack.last().1,
        !flag[stack.last().0 as int],
    ensures
        pass_one(
            g,
            flag.update(stack.last().0 as int, true),
            fin,
            order,
            stack.drop_last().push((stack.last().0, true)),
            stack.len() - 1,
            0,
        ),
        settled(g, flag.update(stack.last().0 as int, true), fin),
        fin[stack.last().0 as int] < 0,
{
    let top = stack.len() - 1;
    let x = stack[top].0 as int;
    let flag2 = flag.update(x, true);
    let next = stack.drop_last().push((stack[top].0, true));
    assert(fin[x] < 0);
    assert forall|k: int| 0 <= k < next.len() implies (#[trigger] next[k]).0 < g.len() && (
    next[k].1 ==> gray(flag2, fin, next[k].0 as int)) by {
        if k < top {
            assert(stack[k] == next[k]);
        }
    }
    assert forall|v: int| 0 <= v < g.len() && #[trigger] gray(flag2, fin, v) implies marked(
        next,
        v,
    ) by {
        if v == x {
            assert(next[top].1 && next[top].0 == v);
        } else {
            assert(gray(flag, fin, v));
            assert(marked(stack, v));
            let k = choose|k: int|
                0 <= k < stack.len() && (#[trigger] stack[k]).1 && stack[k].0 == v;
            assert(next[k] == stack[k]);
        }
    }
    assert forall|k: int, i: int|
        0 <= k < i < next.len() && (#[trigger] next[k]).1 && (
        #[trigger] next[i]).1 implies next[k].0 != next[i].0 by {
        assert(stack[k] == next[k]);
        if i < top {
            assert(stack[i] == next[i]);
        } else {
            assert(gray(flag, fin, stack[k].0 as int));
        }
    }
    assert forall|k: int, i: int| 0 <= k < i < next.len() && (#[trigger] next[k]).1 implies reach(
        g,
        next[k].0 as int,
        (#[trigger] next[i]).0 as int,
    ) by {
        assert(stack[k] == next[k]);
        assert(stack[i].0 == next[i].0);
    }
    assert forall|k: int| 0 <= k < next.len() && (#[trigger] next[k]).1 implies served(
        g,
        flag2,
        next,
        k,
        if k == top {
            0
        } else {
            g[next[k].0 as int].len() as int
        },
    ) by {
        if k < top {
            assert(stack[k] == next[k]);
            assert(served(g, flag, stack, k, g[stack[k].0 as int].len() as int));
            let u = next[k].0 as int;
            assert forall|j: int| 0 <= j < g[u].len() implies flag2[(
            #[trigger] g[u][j]).0 as int] || waiting(next, k, g[u][j].0 as int) by {
                let y = g[u][j].0 as int;
                assert(0 <= y < g.len());
                if !flag2[y] {
                    assert(waiting(stack, k, y));
                    let i = choose|i: int|
                        k < i < stack.len() && !(#[trigger] stack[i]).1 && stack[i].0 == y;
                    assert(next[i] == stack[i]);
                }
            }
        }
    }
    assert forall|a: int| 0 <= a < g.len() && (#[trigger] fin[a]) >= 0 implies closed(g, fin, a)
        || has_gray_mate(g, flag2, fin, a) by {
        if !closed(g, fin, a) {
            assert(has_gray_mate(g, flag, fin, a));
            let w = choose|w: int| 0 <= w < g.len() && gray(flag, fin, w) && #[trigger] scc(g, a, w);
            assert(gray(flag2, fin, w) && scc(g, a, w));
        }
    }
}

/// The step that puts on the stack a neighbour, not entered yet, of the
/// vertex at place `open`.
pub proof fn lemma_one_push<W>(
    g: Seq<Seq<(usize, W)>>,
    flag: Seq<bool>,
    fin: Seq<int>,
    order: Seq<usize>,
    stack: Seq<(usize, bool)>,
    open: int,
    j: int,
)
    requires
        pass_one(g, flag, fin, order, stack, open, j),
        0 <= open < stack.len(),
        stack[open].1,
        forall|i: int| open < i < stack.len() ==> !(#[trigger] stack[i]).1,
        0 <= j < g[stack[open].0 as int].len(),
        g[stack[open].0 as int][j].0 < g.len(),
    ensures
        pass_one(
            g,
            flag,
            fin,
            order,
            stack.push((g[stack[open].0 as int][j].0, false)),
            open,
            j + 1,
        ),
{
    let x = stack[open].0 as int;
    let y = g[x][j].0;
    let next = stack.push((y, false));
    assert(arc(g, x, y as int));
    lemma_reach_arc(g, x, y as int);
    assert forall|v: int| 0 <= v < g.len() && #[trigger] gray(flag, fin, v) implies marked(
        next,
        v,
    ) by {
        assert(marked(stack, v));
        let k = choose|k: int| 0 <= k < stack.len() && (#[trigger] stack[k]).1 && stack[k].0 == v;
        assert(next[k] == stack[k]);
    }
    assert forall|k: int| 0 <= k < next.len() implies (#[trigger] next[k]).0 < g.len() && (
    next[k].1 ==> gray(flag, fin, next[k].0 as int)) by {
        if k < stack.len() {
            assert(stack[k] == next[k]);
        }
    }
    assert forall|k: int, i: int|
        0 <= k < i < next.len() && (#[trigger] next[k]).1 && (
        #[trigger] next[i]).1 implies next[k].0 != next[i].0 by {
        assert(stack[k] == next[k] && stack[i] == next[i]);
    }
    assert forall|k: int, i: int| 0 <= k < i < next.len() && (#[trigger] next[k]).1 implies reach(
        g,
        next[k].0 as int,
        (#[trigger] next[i]).0 as int,
    ) by {
        assert(stack[k] == next[k]);
        if i < stack.len() {
            assert(stack[i] == next[i]);
        } else {
            assert(k <= open);
            if k < open {
                assert(reach(g, stack[k].0 as int, stack[open].0 as int));
                lemma_reach_trans(g, stack[k].0 as int, x, y as int);
            }
        }
    }
    assert forall|k: int| 0 <= k < next.len() && (#[trigger] next[k]).1 implies served(
        g,
        flag,
        next,
        k,
        if k == open {
            j + 1
        } else {
            g[next[k].0 as int].len() as int
        },
    ) by {
        assert(stack[k] == next[k]);
        let u = next[k].0 as int;
        let upto = if k == open {
            j
        } else {
            g[u].len() as int
        };
        assert(served(g, flag, stack, k, upto));
        assert forall|c: int|
            0 <= c < (if k == open {
                j + 1
            } else {
                g[u].len() as int
            }) && c < g[u].len() implies flag[(#[trigger] g[u][c]).0 as int] || waiting(
            next,
            k,
            g[u][c].0 as int,
        ) by {
            let z = g[u][c].0 as int;
            if k == open && c == j {
                assert(!next[stack.len() as int].1 && next[stack.len() as int].0 == z);
            } else if !flag[z] {
                assert(waiting(stack, k, z));
                let i = choose|i: int|
                    k < i < stack.len() && !(#[trigger] stack[i]).1 && stack[i].0 == z;
                assert(next[i] == stack[i]);
            }
        }
    }
}

/// The step that passes over a neighbour that has been entered.
pub proof fn lemma_one_pass<W>(
    g: Seq<Seq<(usize, W)>>,
    flag: Seq<bool>,
    fin: Seq<int>,
    order: Seq<usize>,
    stack: Seq<(usize, bool)>,
    open: int,
    j: int,
)
    requires
        pass_one(g, flag, fin, order, stack, open, j),
        0 <= open < stack.len(),
        stack[open].1,
        0 <= j < g[stack[open].0 as int].len(),
        flag[g[stack[open].0 as int][j].0 as int],
    ensures
        pass_one(g, flag, fin, order, stack, open, j + 1),
{
    assert forall|k: int| 0 <= k < stack.len() && (#[trigger] stack[k]).1 implies served(
        g,
        flag,
        stack,
        k,
        if k == open {
            j + 1
        } else {
            g[stack[k].0 as int].len() as int
        },
    ) by {
        let u = stack[k].0 as int;
        assert(served(g, flag, stack, k, if k == open {
            j
        } else {
            g[u].len() as int
        }));
    }
}

/// When all neighbours of the vertex at place `open` have been looked
/// at, the vertex is like the others on the stack.
pub proof fn lemma_one_close<W>(
    g: Seq<Seq<(usize, W)>>,
    flag: Seq<bool>,
    fin: Seq<int>,
    order: Seq<usize>,
    stack: Seq<(usize, bool)>,
    open: int,
)
    requires
        0 <= open < stack.len(),
        pass_one(g, flag, fin, order, stack, open, g[stack[open].0 as int].len() as int),
    ensures
        pass_one(g, flag, fin, order, stack, -1, 0),
{
    assert forall|k: int| 0 <= k < stack.len() && (#[trigger] stack[k]).1 implies served(
        g,
        flag,
        stack,
        k,
        g[stack[k].0 as int].len() as int,
    ) by {
        let u = stack[k].0 as int;
        assert(served(g, flag, stack, k, if k == open {
            g[stack[open].0 as int].len() as int
        } else {
            g[u].len() as int
        }));
    }
}

/// The step that leaves the vertex on top of the stack: the state after
/// it, and that every vertex entered and not left reaches the vertex.
pub proof fn lemma_one_leave<W>(
    g: Seq<Seq<(usize, W)>>,
    flag: Seq<bool>,
    fin: Seq<int>,
    order: Seq<usize>,
    stack: Seq<(usize, bool)>,
)
    requires
        pass_one(g, flag, fin, order, stack, -1, 0),
        stack.len() > 0,
        stack.last().1,
    ensures
        gray(flag, fin, stack.last().0 as int),
        pass_one(
            g,
            flag,
            fin.update(stack.last().0 as int, order.len() as int),
            order.push(stack.last().0),
            stack.drop_last(),
            -1,
            0,
        ),
        forall|w: int|
            0 <= w < g.len() && #[trigger] gray(
                flag,
                fin.update(stack.last().0 as int, order.len() as int),
                w,
            ) ==> reach(g, w, stack.last().0 as int),
{
    let top = stack.len() - 1;
    let x = stack[top].0 as int;
    let fin2 = fin.update(x, order.len() as int);
    let order2 = order.push(stack[top].0);
    let rest = stack.drop_last();
    assert(gray(flag, fin, x));
    assert forall|k: int| 0 <= k < order2.len() implies (#[trigger] order2[k]) < g.len()
        && fin2[order2[k] as int] == k by {
        if k < order.len() {
            assert(order[k] == order2[k]);
            assert(fin[order[k] as int] == k);
        }
    }
    assert forall|v: int| 0 <= v < g.len() && (#[trigger] fin2[v]) >= 0 implies fin2[v]
        < order2.len() && order2[fin2[v]] == v && flag[v] by {
        if v != x {
            assert(fin[v] >= 0);
            assert(order2[fin[v]] == order[fin[v]]);
        }
    }
    assert forall|k: int| 0 <= k < rest.len() implies (#[trigger] rest[k]).0 < g.len() && (
    rest[k].1 ==> gray(flag, fin2, rest[k].0 as int)) by {
        assert(stack[k] == rest[k]);
        if rest[k].1 {
            assert(stack[top].1);
            assert(stack[k].0 != stack[top].0);
        }
    }
    assert forall|w: int| 0 <= w < g.len() && #[trigger] gray(flag, fin2, w) implies marked(
        rest,
        w,
    ) && reach(g, w, x) by {
        assert(w != x);
        assert(gray(flag, fin, w));
        assert(marked(stack, w));
        let k = choose|k: int| 0 <= k < stack.len() && (#[trigger] stack[k]).1 && stack[k].0 == w;
        assert(rest[k] == stack[k]);
        assert(reach(g, stack[k].0 as int, stack[top].0 as int));
    }
    assert forall|k: int, i: int|
        0 <= k < i < rest.len() && (#[trigger] rest[k]).1 && (
        #[trigger] rest[i]).1 implies rest[k].0 != rest[i].0 by {
        assert(stack[k] == rest[k] && stack[i] == rest[i]);
    }
    assert forall|k: int, i: int| 0 <= k < i < rest.len() && (#[trigger] rest[k]).1 implies reach(
        g,
        rest[k].0 as int,
        (#[trigger] rest[i]).0 as int,
    ) by {
        assert(stack[k] == rest[k] && stack[i] == rest[i]);
    }
    assert forall|k: int| 0 <= k < rest.len() && (#[trigger] rest[k]).1 implies served(
        g,
        flag,
        rest,
        k,
        g[rest[k].0 as int].len() as int,
    ) by {
        assert(stack[k] == rest[k]);
        assert(served(g, flag, stack, k, g[stack[k].0 as int].len() as int));
        let u = rest[k].0 as int;
        assert forall|j: int| 0 <= j < g[u].len() implies flag[(#[trigger] g[u][j]).0 as int]
            || waiting(rest, k, g[u][j].0 as int) by {
            let y = g[u][j].0 as int;
            if !flag[y] {
                assert(waiting(stack, k, y));
                let i = choose|i: int|
                    k < i < stack.len() && !(#[trigger] stack[i]).1 && stack[i].0 == y;
                assert(rest[i] == stack[i]);
            }
        }
    }
    assert forall|v: int, j: int|
        0 <= v < g.len() && fin2[v] >= 0 && 0 <= j < g[v].len() implies flag[(
    #[trigger] g[v][j]).0 as int] by {
        if v == x {
            assert(served(g, flag, stack, top, g[x].len() as int));
            assert(!waiting(stack, top, g[v][j].0 as int));
        }
    }
}

/// After the step that leaves `x`, every vertex that has been left is
/// settled.
pub proof fn lemma_one_leave_settled<W>(
    g: Seq<Seq<(usize, W)>>,
    flag: Seq<bool>,
    fin: Seq<int>,
    x: int,
    at: int,
)
    requires
        flag.len() == g.len(),
        fin.len() == g.len(),
        0 <= x < g.len(),
        0 <= at,
        gray(flag, fin, x),
        settled(g, flag, fin),
        forall|v: int, j: int|
            0 <= v < g.len() && fin.update(x, at)[v] >= 0 && 0 <= j < g[v].len() ==> flag[(
            #[trigger] g[v][j]).0 as int],
        forall|w: int|
            0 <= w < g.len() && #[trigger] gray(flag, fin.update(x, at), w) ==> reach(g, w, x),
    ensures
        settled(g, flag, fin.update(x, at)),
{
    let fin2 = fin.update(x, at);
    lemma_left_settled(g, flag, fin2, x);
    assert forall|a: int| 0 <= a < g.len() && (#[trigger] fin2[a]) >= 0 implies closed(
        g,
        fin2,
        a,
    ) || has_gray_mate(g, flag, fin2, a) by {
        if a != x {
            assert(fin[a] >= 0);
            if closed(g, fin, a) {
                assert forall|z: int| #[trigger] reach(g, a, z) implies fin2[z] >= 0 by {
                    lemma_reach_vertices(g, a, z);
                }
            } else {
                assert(has_gray_mate(g, flag, fin, a));
                let w = choose|w: int|
                    0 <= w < g.len() && gray(flag, fin, w) && #[trigger] scc(g, a, w);
                if w != x {
                    assert(gray(flag, fin2, w) && scc(g, a, w));
                } else if closed(g, fin2, x) {
                    assert forall|z: int| #[trigger] reach(g, a, z) implies fin2[z] >= 0 by {
                        lemma_reach_trans(g, x, a, z);
                    }
                } else {
                    let m = choose|m: int|
                        0 <= m < g.len() && gray(flag, fin2, m) && #[trigger] scc(g, x, m);
                    lemma_scc_trans(g, a, x, m);
                    assert(gray(flag, fin2, m) && scc(g, a, m));
                }
            }
        }
    }
}

/// After the step that leaves `x`, later than every vertex left before,
/// the vertices that have been left are still ahead of what reaches
/// them from other components.
pub proof fn lemma_one_leave_ahead<W>(
    g: Seq<Seq<(usize, W)>>,
    flag: Seq<bool>,
    fin: Seq<int>,
    x: int,
    at: int,
)
    requires
        flag.len() == g.len(),
        fin.len() == g.len(),
        0 <= x < g.len(),
        gray(flag, fin, x),
        forall|v: int| 0 <= v < g.len() ==> (#[trigger] fin[v]) < at,
        settled(g, flag, fin),
        ahead(g, fin),
    ensures
        ahead(g, fin.update(x, at)),
{
    let fin2 = fin.update(x, at);
    assert forall|a: int, b: int|
        0 <= b < g.len() && fin2[b] >= 0 && #[trigger] reach(g, a, b) && !reach(
            g,
            b,
            a,
        ) implies later_mate(g, fin2, a, b) by {
        lemma_reach_vertices(g, a, b);
        lemma_reach_self(g, a);
        if b == x {
            if fin2[a] < 0 {
                assert(scc(g, a, a) && fin2[a] < 0);
            } else {
                assert(a != x);
                assert(fin[a] >= 0);
                if closed(g, fin, a) {
                    assert(fin[x] >= 0);
                }
                assert(has_gray_mate(g, flag, fin, a));
                let w = choose|w: int|
                    0 <= w < g.len() && gray(flag, fin, w) && #[trigger] scc(g, a, w);
                assert(w != x);
                assert(scc(g, a, w) && fin2[w] < 0);
            }
        } else {
            assert(fin[b] >= 0);
            assert(later_mate(g, fin, a, b));
            let m = choose|m: int|
                0 <= m < g.len() && #[trigger] scc(g, a, m) && (fin[m] < 0 || fin[m] > fin[b]);
            assert(scc(g, a, m) && (fin2[m] < 0 || fin2[m] > fin2[b]));
        }
    }
}

/// With nothing on the stack, the traversal may start from any vertex.
pub proof fn lemma_one_start<W>(
    g: Seq<Seq<(usize, W)>>,
    flag: Seq<bool>,
    fin: Seq<int>,
    order: Seq<usize>,
    s: usize,
)
    requires
        pass_one(g, flag, fin, order, Seq::empty(), -1, 0),
        s < g.len(),
    ensures
        pass_one(g, flag, fin, order, seq![(s, false)], -1, 0),
{
    let stack = seq![(s, false)];
    assert forall|v: int| 0 <= v < g.len() && #[trigger] gray(flag, fin, v) implies marked(
        stack,
        v,
    ) by {
        assert(marked(Seq::<(usize, bool)>::empty(), v));
    }
}

/// What the first traversal has found when it is over: `fin` tells for
/// every vertex its place in `order`, and whenever `a` reaches a vertex
/// `b` that does not reach `a`, a vertex in the component of `a` was left
/// after `b`.
pub open spec fn finished<W>(g: Seq<Seq<(usize, W)>>, fin: Seq<int>, order: Seq<usize>) -> bool {
    &&& fin.len() == g.len()
    &&& forall|k: int|
        0 <= k < order.len() ==> (#[trigger] order[k]) < g.len() && fin[order[k] as int] == k
    &&& forall|v: int|
        0 <= v < g.len() ==> 0 <= (#[trigger] fin[v]) < order.len() && order[fin[v]] == v
    &&& ahead(g, fin)
}

/// Walks the graph depth first from every vertex not entered before, and
/// returns the vertices in the order in which it leaves them.
fn finishing_order(graph: &Csr<()>) -> (res: (Vec<usize>, Vec<bool>, Ghost<Seq<int>>))
    requires
        graph.wf(),
    ensures
        finished(graph@, res.2@, res.0@),
        res.1@.len() == graph@.len(),
        forall|v: int| 0 <= v < graph@.len() ==> #[trigger] res.1@[v],
{
    let n = graph.num_vertices();
    let ghost g = graph@;
    let mut order: Vec<usize> = Vec::new();
    let mut flag: Vec<bool> = vec![false; n];
    let mut stack: Vec<(usize, bool)> = Vec::new();
    let ghost mut fin: Seq<int> = Seq::new(n as nat, |v: int| -1int);
    let mut s: usize = 0;
    proof {
        assert forall|v: int, j: int| 0 <= v < n && 0 <= j < g[v].len() implies (
        #[trigger] g[v][j]).0 < n by {
            graph.lemma_neighbours(v, j);
        }
        assert(stack@ =~= Seq::<(usize, bool)>::empty());
        assert(pass_one(g, flag@, fin, order@, stack@, -1, 0));
        assert(settled(g, flag@, fin));
        assert(ahead(g, fin));
    }
    while s < n
        invariant
            graph.wf(),
            g == graph@,
            n == g.len(),
            s <= n,
            stack@.len() == 0,
            pass_one(g, flag@, fin, order@, stack@, -1, 0),
            settled(g, flag@, fin),
            ahead(g, fin),
            forall|v: int| 0 <= v < s ==> #[trigger] flag@[v],
        decreases n - s,
    {
        if !flag[s] {
            proof {
                assert(stack@ =~= Seq::<(usize, bool)>::empty());
                lemma_one_start(g, flag@, fin, order@, s);
            }
            stack.push((s, false));
            assert(stack@ =~= seq![(s, false)]);
            while stack.len() > 0
                invariant
                    graph.wf(),
                    g == graph@,
                    n == g.len(),
                    s < n,
                    flag@.len() == n,
                    pass_one(g, flag@, fin, order@, stack@, -1, 0),
                    settled(g, flag@, fin),
                    ahead(g, fin),
                    forall|v: int| 0 <= v < s ==> #[trigger] flag@[v],
                    stack@.len() > 0 ==> stack@[0].0 == s,
                    stack@.len() > 0 || flag@[s as int],
                decreases n - count_true(flag@), stack@.len(),
            {
                let ghost full = stack@;
                let ghost marks = flag@;
                let (x, done) = stack[stack.len() - 1];
                stack.pop();
                proof {
                    assert(stack@ =~= full.drop_last());
                    lemma_count_bound(flag@);
                }
                if done {
                    proof {
                        lemma_one_leave(g, flag@, fin, order@, full);
                        assert(flag@[x as int]);
                        lemma_one_leave_settled(g, flag@, fin, x as int, order@.len() as int);
                        lemma_one_leave_ahead(g, flag@, fin, x as int, order@.len() as int);
                        fin = fin.update(x as int, order@.len() as int);
                    }
                    order.push(x);
                } else if flag[x] {
                    proof {
                        lemma_one_skip(g, flag@, fin, order@, full);
                    }
                } else {
                    proof {
                        lemma_one_enter(g, flag@, fin, order@, full);
                        lemma_count_update(flag@, x as int, true);
                    }
                    flag[x] = true;
                    stack.push((x, true));
                    let ghost open = stack@.len() - 1;
                    let list = graph.adj(x);
                    let mut j: usize = 0;
                    proof {
                        assert(stack@ =~= full.drop_last().push((x, true)));
                    }
                    while j < list.len()
                        invariant
                            graph.wf(),
                            g == graph@,
                            n == g.len(),
                            x < n,
                            s < n,
                            flag@.len() == n,
                            flag@ == marks.update(x as int, true),
                            list@ == g[x as int],
                            j <= list@.len(),
                            0 <= open < stack@.len(),
                            stack@[open] == (x, true),
                            forall|i: int| open < i < stack@.len() ==> !(#[trigger] stack@[i]).1,
                            stack@[0].0 == s,
                            count_true(flag@) == count_true(marks) + 1,
                            pass_one(g, flag@, fin, order@, stack@, open, j as int),
                            settled(g, flag@, fin),
                            ahead(g, fin),
                            forall|v: int| 0 <= v < s ==> #[trigger] flag@[v],
                        decreases list@.len() - j,
                    {
                        let y = list[j].0;
                        proof {
                            graph.lemma_neighbours(x as int, j as int);
                        }
                        if !flag[y] {
                            proof {
                                lemma_one_push(g, flag@, fin, order@, stack@, open, j as int);
                            }
                            stack.push((y, false));
                        } else {
                            proof {
                                lemma_one_pass(g, flag@, fin, order@, stack@, open, j as int);
                            }
                        }
                        j += 1;
                    }
                    proof {
                        lemma_one_close(g, flag@, fin, order@, stack@, open);
                    }
                }
                proof {
                    lemma_count_bound(flag@);
                    if stack@.len() == 0 {
                        // The entry at the bottom of the stack was for
                        // the vertex that the traversal started from.
                        assert(full.len() == 1);
                        assert(x == s);
                    }
                }
            }
        }
        s += 1;
    }
    proof {
        assert forall|v: int| 0 <= v < n implies 0 <= (#[trigger] fin[v]) < order@.len()
            && order@[fin[v]] == v by {
            assert(flag@[v]);
            if fin[v] < 0 {
                assert(gray(flag@, fin, v));
                assert(marked(stack@, v));
            }
        }
    }
    (order, flag, Ghost(fin))
}

/// The list of `x` in `rev` names `u`.
pub open spec fn listed<W>(rev: Seq<Seq<(usize, W)>>, x: int, u: int) -> bool {
    exists|i: int| 0 <= i < rev[x].len() && (#[trigger] rev[x][i]).0 == u
}

/// `rev` is `g` with every arc turned around.
pub open spec fn turned<W>(g: Seq<Seq<(usize, W)>>, rev: Seq<Seq<(usize, W)>>) -> bool {
    &&& rev.len() == g.len()
    &&& forall|x: int, i: int|
        0 <= x < rev.len() && 0 <= i < rev[x].len() ==> arc(g, (#[trigger] rev[x][i]).0 as int, x)
    &&& forall|u: int, j: int|
        0 <= u < g.len() && 0 <= j < g[u].len() ==> listed(rev, (#[trigger] g[u][j]).0 as int, u)
}

/// A graph whose lists are the buckets of the turned arcs of `g` is `g`
/// with every arc turned around.
pub proof fn lemma_turned<W>(g: Seq<Seq<(usize, W)>>, rev: Seq<Seq<(usize, W)>>)
    requires
        g.len() <= usize::MAX,
        rev.len() == g.len(),
        forall|v: int, j: int| 0 <= v < g.len() && 0 <= j < g[v].len() ==> (#[trigger] g[v][j]).0
            < g.len(),
        forall|v: int| 0 <= v < g.len() ==> #[trigger] rev[v] == bucket(turned_arcs(g, g.len()), v),
    ensures
        turned(g, rev),
{
    let arcs = turned_arcs(g, g.len());
    assert forall|x: int, i: int| 0 <= x < rev.len() && 0 <= i < rev[x].len() implies arc(
        g,
        (#[trigger] rev[x][i]).0 as int,
        x,
    ) by {
        assert(rev[x] == bucket(arcs, x));
        let k = lemma_bucket_from(arcs, x, i);
        let (u, j) = lemma_turned_from(g, g.len(), k);
        assert(g[u][j].0 == x);
    }
    assert forall|u: int, j: int| 0 <= u < g.len() && 0 <= j < g[u].len() implies listed(
        rev,
        (#[trigger] g[u][j]).0 as int,
        u,
    ) by {
        let x = g[u][j].0 as int;
        let k = lemma_turned_has(g, g.len(), u, j);
        let i = lemma_bucket_has(arcs, k);
        assert(rev[x] == bucket(arcs, x));
        assert(rev[x][i].0 == u);
    }
}

/// The state of the second traversal between two rounds.  A vertex whose
/// flag is down has its component.  The vertices with a component are
/// whole components, numbered below `num` with no number left out, each
/// component by one number; they are the vertices left at `t` or later by
/// the first traversal and what reaches them, and what reaches a vertex
/// has no larger number than the vertex.
pub open spec fn pass_two<W>(
    g: Seq<Seq<(usize, W)>>,
    fin: Seq<int>,
    flag: Seq<bool>,
    comp: Seq<usize>,
    num: int,
    t: int,
) -> bool {
    let n = g.len();
    &&& flag.len() == n
    &&& comp.len() == n
    &&& forall|u: int, v: int| #[trigger] scc(g, u, v) ==> flag[u] == flag[v]
    &&& forall|u: int, v: int| !flag[u] && !flag[v] && #[trigger] scc(g, u, v) ==> comp[u] == comp[v]
    &&& forall|u: int, v: int|
        0 <= u < n && 0 <= v < n && !flag[u] && !flag[v] && (#[trigger] comp[u]) == (
        #[trigger] comp[v]) ==> scc(g, u, v)
    &&& forall|v: int| 0 <= v < n && !(#[trigger] flag[v]) ==> comp[v] < num
    &&& forall|v: int| 0 <= v < n && (#[trigger] fin[v]) >= t ==> !flag[v]
    &&& forall|u: int, v: int|
        !flag[v] && #[trigger] reach(g, u, v) ==> !flag[u] && comp[u] <= comp[v]
    &&& forall|c: int| 0 <= c < num ==> #[trigger] numbered(flag, comp, c)
}

/// A vertex has the number `c`.
pub open spec fn numbered(flag: Seq<bool>, comp: Seq<usize>, c: int) -> bool {
    exists|v: int| 0 <= v < flag.len() && !(#[trigger] flag[v]) && comp[v] == c
}

/// The stack holds `x`.
pub open spec fn on_stack(stack: Seq<(usize, bool)>, x: int) -> bool {
    exists|k: int| 0 <= k < stack.len() && (#[trigger] stack[k]).0 == x
}

/// The flags of the first `upto` vertices in the list of `x` are down.
pub open spec fn done_with<W>(rev: Seq<Seq<(usize, W)>>, flag: Seq<bool>, x: int, upto: int) -> bool {
    forall|i: int| 0 <= i < upto && i < rev[x].len() ==> !flag[(#[trigger] rev[x][i]).0 as int]
}

/// The state of a round of the second traversal, which gathers the
/// component of `s` under the number `num`: the vertices that had a
/// component before have kept it; those that the round has gathered
/// reach `s`; and each of them is on the stack, or the round has
/// gathered every vertex with an arc to it: for the vertex `cur`, every
/// one among the first `upto` of its list.
pub open spec fn round<W>(
    g: Seq<Seq<(usize, W)>>,
    rev: Seq<Seq<(usize, W)>>,
    before: Seq<bool>,
    flag: Seq<bool>,
    comp0: Seq<usize>,
    comp: Seq<usize>,
    stack: Seq<(usize, bool)>,
    s: int,
    num: int,
    cur: int,
    upto: int,
) -> bool {
    let n = g.len();
    &&& before.len() == n
    &&& flag.len() == n
    &&& comp0.len() == n
    &&& comp.len() == n
    &&& 0 <= s < n
    &&& !flag[s]
    &&& before[s]
    &&& forall|v: int| 0 <= v < n && !(#[trigger] before[v]) ==> !flag[v] && comp[v] == comp0[v]
    &&& forall|v: int|
        0 <= v < n && before[v] && !(#[trigger] flag[v]) ==> comp[v] == num && reach(g, v, s)
    &&& forall|k: int|
        0 <= k < stack.len() ==> (#[trigger] stack[k]).0 < n && !flag[stack[k].0 as int]
            && before[stack[k].0 as int]
    &&& forall|x: int|
        0 <= x < n && before[x] && !(#[trigger] flag[x]) ==> on_stack(stack, x) || done_with(
            rev,
            flag,
            x,
            if x == cur {
                upto
            } else {
                rev[x].len() as int
            },
        )
}

/// When a round is over, every vertex on a path to `s` has its flag
/// down.
pub proof fn lemma_gathered<W>(
    g: Seq<Seq<(usize, W)>>,
    rev: Seq<Seq<(usize, W)>>,
    fin: Seq<int>,
    before: Seq<bool>,
    flag: Seq<bool>,
    comp0: Seq<usize>,
    comp: Seq<usize>,
    s: int,
    num: int,
    t: int,
    p: Seq<int>,
    i: int,
)
    requires
        turned(g, rev),
        pass_two(g, fin, before, comp0, num, t),
        round(g, rev, before, flag, comp0, comp, Seq::empty(), s, num, -1, 0),
        is_path(g, p),
        p.last() == s,
        0 <= i < p.len(),
    ensures
        !flag[p[i]],
    decreases p.len() - i,
{
    if i < p.len() - 1 {
        lemma_gathered(g, rev, fin, before, flag, comp0, comp, s, num, t, p, i + 1);
        let u = p[i];
        let x = p[i + 1];
        lemma_path_vertices(g, p, i);
        lemma_path_vertices(g, p, i + 1);
        assert(arc(g, p[i + 1 - 1], p[i + 1]));
        if !before[x] {
            lemma_reach_arc(g, u, x);
        } else {
            assert(!on_stack(Seq::<(usize, bool)>::empty(), x));
            assert(done_with(rev, flag, x, rev[x].len() as int));
            let j = choose|j: int| 0 <= j < g[u].len() && (#[trigger] g[u][j]).0 == x;
            assert(listed(rev, g[u][j].0 as int, u));
            let k = choose|k: int| 0 <= k < rev[x].len() && (#[trigger] rev[x][k]).0 == u;
            assert(!flag[rev[x][k].0 as int]);
        }
    }
}

/// The beginning of a round: `s`, which has no component yet, gets the
/// number `num` and goes on the stack.
pub proof fn lemma_round_start<W>(
    g: Seq<Seq<(usize, W)>>,
    rev: Seq<Seq<(usize, W)>>,
    fin: Seq<int>,
    before: Seq<bool>,
    comp0: Seq<usize>,
    s: usize,
    num: usize,
    t: int,
)
    requires
        pass_two(g, fin, before, comp0, num as int, t),
        s < g.len(),
        before[s as int],
    ensures
        round(
            g,
            rev,
            before,
            before.update(s as int, false),
            comp0,
            comp0.update(s as int, num),
            seq![(s, false)],
            s as int,
            num as int,
            -1,
            0,
        ),
{
    let flag = before.update(s as int, false);
    let stack = seq![(s, false)];
    lemma_reach_self(g, s as int);
    assert forall|x: int| 0 <= x < g.len() && before[x] && !(#[trigger] flag[x]) implies on_stack(
        stack,
        x,
    ) by {
        assert(stack[0].0 == x);
    }
}

/// The step of a round that takes a vertex from the stack.
pub proof fn lemma_round_pop<W>(
    g: Seq<Seq<(usize, W)>>,
    rev: Seq<Seq<(usize, W)>>,
    before: Seq<bool>,
    flag: Seq<bool>,
    comp0: Seq<usize>,
    comp: Seq<usize>,
    stack: Seq<(usize, bool)>,
    s: int,
    num: int,
)
    requires
        round(g, rev, before, flag, comp0, comp, stack, s, num, -1, 0),
        stack.len() > 0,
    ensures
        round(
            g,
            rev,
            before,
            flag,
            comp0,
            comp,
            stack.drop_last(),
            s,
            num,
            stack.last().0 as int,
            0,
        ),
        stack.last().0 < g.len(),
        before[stack.last().0 as int],
        !flag[stack.last().0 as int],
{
    let rest = stack.drop_last();
    let top = stack.len() - 1;
    let cur = stack[top].0 as int;
    assert forall|k: int| 0 <= k < rest.len() implies (#[trigger] rest[k]).0 < g.len()
        && !flag[rest[k].0 as int] && before[rest[k].0 as int] by {
        assert(stack[k] == rest[k]);
    }
    assert forall|x: int| 0 <= x < g.len() && before[x] && !(#[trigger] flag[x]) implies on_stack(
        rest,
        x,
    ) || done_with(rev, flag, x, if x == cur {
        0
    } else {
        rev[x].len() as int
    }) by {
        if x != cur && on_stack(stack, x) {
            let k = choose|k: int| 0 <= k < stack.len() && (#[trigger] stack[k]).0 == x;
            assert(rest[k] == stack[k]);
        }
    }
}

/// The step of a round that gathers a vertex with an arc to the vertex
/// `cur`.
pub proof fn lemma_round_take<W>(
    g: Seq<Seq<(usize, W)>>,
    rev: Seq<Seq<(usize, W)>>,
    before: Seq<bool>,
    flag: Seq<bool>,
    comp0: Seq<usize>,
    comp: Seq<usize>,
    stack: Seq<(usize, bool)>,
    s: int,
    num: usize,
    cur: int,
    i: int,
)
    requires
        turned(g, rev),
        round(g, rev, before, flag, comp0, comp, stack, s, num as int, cur, i),
        0 <= cur < g.len(),
        before[cur],
        !flag[cur],
        0 <= i < rev[cur].len(),
        flag[rev[cur][i].0 as int],
    ensures
        round(
            g,
            rev,
            before,
            flag.update(rev[cur][i].0 as int, false),
            comp0,
            comp.update(rev[cur][i].0 as int, num),
            stack.push((rev[cur][i].0, false)),
            s,
            num as int,
            cur,
            i + 1,
        ),
{
    let y = rev[cur][i].0;
    let flag2 = flag.update(y as int, false);
    let comp2 = comp.update(y as int, num);
    let next = stack.push((y, false));
    assert(arc(g, y as int, cur));
    lemma_reach_arc(g, y as int, cur);
    lemma_reach_trans(g, y as int, cur, s);
    assert forall|k: int| 0 <= k < next.len() implies (#[trigger] next[k]).0 < g.len()
        && !flag2[next[k].0 as int] && before[next[k].0 as int] by {
        if k < stack.len() {
            assert(stack[k] == next[k]);
        }
    }
    assert forall|x: int| 0 <= x < g.len() && before[x] && !(
    #[trigger] flag2[x]) implies on_stack(next, x) || done_with(rev, flag2, x, if x == cur {
        i + 1
    } else {
        rev[x].len() as int
    }) by {
        if x == y as int {
            assert(next[stack.len() as int].0 == x);
        } else {
            assert(!flag[x]);
            if on_stack(stack, x) {
                let k = choose|k: int| 0 <= k < stack.len() && (#[trigger] stack[k]).0 == x;
                assert(next[k] == stack[k]);
            } else {
                assert(done_with(rev, flag, x, if x == cur {
                    i
                } else {
                    rev[x].len() as int
                }));
                assert forall|c: int|
                    0 <= c < (if x == cur {
                        i + 1
                    } else {
                        rev[x].len() as int
                    }) && c < rev[x].len() implies !flag2[(#[trigger] rev[x][c]).0 as int] by {
                    assert(arc(g, rev[x][c].0 as int, x));
                }
            }
        }
    }
}

/// The step of a round that passes over a vertex gathered before.
pub proof fn lemma_round_keep<W>(
    g: Seq<Seq<(usize, W)>>,
    rev: Seq<Seq<(usize, W)>>,
    before: Seq<bool>,
    flag: Seq<bool>,
    comp0: Seq<usize>,
    comp: Seq<usize>,
    stack: Seq<(usize, bool)>,
    s: int,
    num: int,
    cur: int,
    i: int,
)
    requires
        round(g, rev, before, flag, comp0, comp, stack, s, num, cur, i),
        0 <= cur < g.len(),
        0 <= i < rev[cur].len(),
        !flag[rev[cur][i].0 as int],
    ensures
        round(g, rev, before, flag, comp0, comp, stack, s, num, cur, i + 1),
{
    assert forall|x: int| 0 <= x < g.len() && before[x] && !(#[trigger] flag[x]) implies on_stack(
        stack,
        x,
    ) || done_with(rev, flag, x, if x == cur {
        i + 1
    } else {
        rev[x].len() as int
    }) by {
        if !on_stack(stack, x) {
            assert(done_with(rev, flag, x, if x == cur {
                i
            } else {
                rev[x].len() as int
            }));
        }
    }
}

/// When the whole list of `cur` has been looked at, `cur` is like the
/// other vertices that the round has gathered.
pub proof fn lemma_round_close<W>(
    g: Seq<Seq<(usize, W)>>,
    rev: Seq<Seq<(usize, W)>>,
    before: Seq<bool>,
    flag: Seq<bool>,
    comp0: Seq<usize>,
    comp: Seq<usize>,
    stack: Seq<(usize, bool)>,
    s: int,
    num: int,
    cur: int,
)
    requires
        0 <= cur < g.len(),
        round(g, rev, before, flag, comp0, comp, stack, s, num, cur, rev[cur].len() as int),
    ensures
        round(g, rev, before, flag, comp0, comp, stack, s, num, -1, 0),
{
    assert forall|x: int| 0 <= x < g.len() && before[x] && !(#[trigger] flag[x]) implies on_stack(
        stack,
        x,
    ) || done_with(rev, flag, x, rev[x].len() as int) by {
        if !on_stack(stack, x) {
            assert(done_with(rev, flag, x, if x == cur {
                rev[cur].len() as int
            } else {
                rev[x].len() as int
            }));
        }
    }
}

/// What a finished round has gathered is the component of `s`.
pub proof fn lemma_round_component<W>(
    g: Seq<Seq<(usize, W)>>,
    rev: Seq<Seq<(usize, W)>>,
    fin: Seq<int>,
    order: Seq<usize>,
    before: Seq<bool>,
    flag: Seq<bool>,
    comp0: Seq<usize>,
    comp: Seq<usize>,
    s: int,
    num: int,
    t: int,
    y: int,
)
    requires
        turned(g, rev),
        finished(g, fin, order),
        pass_two(g, fin, before, comp0, num, t + 1),
        round(g, rev, before, flag, comp0, comp, Seq::empty(), s, num, -1, 0),
        fin[s] == t,
        0 <= y < g.len(),
    ensures
        before[y] && !flag[y] <==> scc(g, y, s),
        reach(g, y, s) ==> !flag[y],
{
    if before[y] && !flag[y] {
        assert(reach(g, y, s));
        if !reach(g, s, y) {
            assert(later_mate(g, fin, y, s));
            let m = choose|m: int|
                0 <= m < g.len() && #[trigger] scc(g, y, m) && (fin[m] < 0 || fin[m] > fin[s]);
            assert(fin[m] >= t + 1);
            assert(!before[m]);
            assert(before[y] == before[m]);
        }
    }
    if reach(g, y, s) {
        let p = choose|p: Seq<int>| #[trigger] joins(g, p, y, s);
        lemma_gathered(g, rev, fin, before, flag, comp0, comp, s, num, t + 1, p, 0);
    }
    if scc(g, y, s) {
        assert(before[y] == before[s]);
    }
}

/// The end of a round: the vertices with a component are again whole
/// components, one more than before.
pub proof fn lemma_round_end<W>(
    g: Seq<Seq<(usize, W)>>,
    rev: Seq<Seq<(usize, W)>>,
    fin: Seq<int>,
    order: Seq<usize>,
    before: Seq<bool>,
    flag: Seq<bool>,
    comp0: Seq<usize>,
    comp: Seq<usize>,
    s: int,
    num: int,
    t: int,
)
    requires
        turned(g, rev),
        finished(g, fin, order),
        pass_two(g, fin, before, comp0, num, t + 1),
        round(g, rev, before, flag, comp0, comp, Seq::empty(), s, num, -1, 0),
        fin[s] == t,
        0 <= num < usize::MAX,
    ensures
        pass_two(g, fin, flag, comp, num + 1, t),
{
    let n = g.len();
    assert forall|u: int, v: int| #[trigger] scc(g, u, v) implies flag[u] == flag[v] by {
        lemma_reach_vertices(g, u, v);
        lemma_round_component(g, rev, fin, order, before, flag, comp0, comp, s, num, t, u);
        lemma_round_component(g, rev, fin, order, before, flag, comp0, comp, s, num, t, v);
        assert(before[u] == before[v]);
        if scc(g, u, s) {
            lemma_scc_trans(g, v, u, s);
        }
        if scc(g, v, s) {
            lemma_scc_trans(g, u, v, s);
        }
    }
    assert forall|u: int, v: int| !flag[u] && !flag[v] && #[trigger] scc(
        g,
        u,
        v,
    ) implies comp[u] == comp[v] by {
        lemma_reach_vertices(g, u, v);
        assert(before[u] == before[v]);
    }
    assert forall|u: int, v: int|
        0 <= u < n && 0 <= v < n && !flag[u] && !flag[v] && (#[trigger] comp[u]) == (
        #[trigger] comp[v]) implies scc(g, u, v) by {
        lemma_round_component(g, rev, fin, order, before, flag, comp0, comp, s, num, t, u);
        lemma_round_component(g, rev, fin, order, before, flag, comp0, comp, s, num, t, v);
        if before[u] && before[v] {
            lemma_scc_trans(g, u, s, v);
        } else if !before[u] && !before[v] {
            assert(comp0[u] == comp0[v]);
        } else if before[u] {
            assert(comp0[v] < num);
        } else {
            assert(comp0[u] < num);
        }
    }
    assert forall|v: int| 0 <= v < n && !(#[trigger] flag[v]) implies comp[v] < num + 1 by {
        if !before[v] {
            assert(comp0[v] < num);
        }
    }
    assert forall|v: int| 0 <= v < n && (#[trigger] fin[v]) >= t implies !flag[v] by {
        if fin[v] == t {
            assert(order[fin[v]] == v);
            assert(order[fin[s]] == s);
        }
    }
    assert forall|u: int, v: int| !flag[v] && #[trigger] reach(g, u, v) implies !flag[u]
        && comp[u] <= comp[v] by {
        lemma_reach_vertices(g, u, v);
        if !before[v] {
            assert(!before[u] && comp0[u] <= comp0[v]);
        } else {
            lemma_reach_trans(g, u, v, s);
            lemma_round_component(g, rev, fin, order, before, flag, comp0, comp, s, num, t, u);
            if !before[u] {
                assert(comp0[u] < num);
            }
        }
    }
    assert forall|c: int| 0 <= c < num + 1 implies #[trigger] numbered(flag, comp, c) by {
        if c < num {
            assert(numbered(before, comp0, c));
            let v = choose|v: int| 0 <= v < before.len() && !(#[trigger] before[v]) && comp0[v] == c;
            assert(!flag[v] && comp[v] == c);
        } else {
            assert(!flag[s] && comp[s] == c);
        }
    }
}

/// A vertex that has its component needs no round.
pub proof fn lemma_round_none<W>(
    g: Seq<Seq<(usize, W)>>,
    fin: Seq<int>,
    order: Seq<usize>,
    flag: Seq<bool>,
    comp: Seq<usize>,
    num: int,
    t: int,
)
    requires
        finished(g, fin, order),
        pass_two(g, fin, flag, comp, num, t + 1),
        0 <= t < order.len(),
        !flag[order[t] as int],
    ensures
        pass_two(g, fin, flag, comp, num, t),
{
    assert forall|v: int| 0 <= v < g.len() && (#[trigger] fin[v]) >= t implies !flag[v] by {
        if fin[v] == t {
            assert(order[fin[v]] == v);
        }
    }
}

/// A vertex has the component number `c`.
pub open spec fn used(comp: Seq<usize>, c: int) -> bool {
    exists|w: int| 0 <= w < comp.len() && #[trigger] comp[w] == c
}

/// Returns for every vertex the number of its strongly connected
/// component.  Two vertices have one number exactly if each can be
/// reached from the other; what reaches a vertex has no larger number
/// than the vertex, so that the numbers follow the arcs; and the numbers
/// are the first natural numbers, none left out.  Takes time linear in
/// the size of the graph.
pub fn kosaraju(graph: &Csr<()>) -> (comp: Vec<usize>)
    requires
        graph.wf(),
    ensures
        comp@.len() == graph@.len(),
        forall|u: int, v: int|
            0 <= u < graph@.len() && 0 <= v < graph@.len() ==> ((#[trigger] comp@[u]) == (
            #[trigger] comp@[v]) <==> scc(graph@, u, v)),
        forall|u: int, v: int| #[trigger] reach(graph@, u, v) ==> comp@[u] <= comp@[v],
        forall|v: int, c: int|
            0 <= v < graph@.len() && 0 <= c < (#[trigger] comp@[v]) ==> #[trigger] used(comp@, c),
{
    let n = graph.num_vertices();
    let ghost g = graph@;
    let (order, mut flag, Ghost(fin)) = finishing_order(graph);
    let mut comp: Vec<usize> = vec![0usize; n];
    let mut num: usize = 0;
    let rev = graph.reverse();
    let mut stack: Vec<(usize, bool)> = Vec::new();
    let mut t: usize = order.len();
    proof {
        assert forall|v: int, j: int| 0 <= v < n && 0 <= j < g[v].len() implies (
        #[trigger] g[v][j]).0 < n by {
            graph.lemma_neighbours(v, j);
        }
        lemma_turned(g, rev@);
        lemma_count_bound(flag@);
        assert forall|u: int, v: int| #[trigger] scc(g, u, v) implies flag@[u] == flag@[v] by {
            lemma_reach_vertices(g, u, v);
        }
        assert forall|u: int, v: int| !flag@[v] && #[trigger] reach(g, u, v) implies !flag@[u]
            && comp@[u] <= comp@[v] by {
            lemma_reach_vertices(g, u, v);
        }
        assert(pass_two(g, fin, flag@, comp@, 0, t as int));
    }
    while t > 0
        invariant
            graph.wf(),
            rev.wf(),
            g == graph@,
            n == g.len(),
            t <= order@.len(),
            stack@.len() == 0,
            turned(g, rev@),
            finished(g, fin, order@),
            pass_two(g, fin, flag@, comp@, num as int, t as int),
            num + count_true(flag@) <= n,
        decreases t,
    {
        t -= 1;
        let s = order[t];
        if flag[s] {
            let ghost before = flag@;
            let ghost comp0 = comp@;
            proof {
                lemma_round_start(g, rev@, fin, before, comp0, s, num, t + 1);
                lemma_count_update(flag@, s as int, false);
                assert(stack@ =~= Seq::<(usize, bool)>::empty());
            }
            flag[s] = false;
            comp[s] = num;
            stack.push((s, false));
            assert(stack@ =~= seq![(s, false)]);
            while stack.len() > 0
                invariant
                    rev.wf(),
                    n == g.len(),
                    rev@.len() == n,
                    s < n,
                    turned(g, rev@),
                    round(g, rev@, before, flag@, comp0, comp@, stack@, s as int, num as int, -1, 0),
                    count_true(flag@) < count_true(before),
                decreases count_true(flag@), stack@.len(),
            {
                let ghost full = stack@;
                let ghost c0 = count_true(flag@);
                let (x, _) = stack[stack.len() - 1];
                stack.pop();
                proof {
                    assert(stack@ =~= full.drop_last());
                    lemma_round_pop(g, rev@, before, flag@, comp0, comp@, full, s as int, num as int);
                }
                let list = rev.adj(x);
                let mut i: usize = 0;
                while i < list.len()
                    invariant
                        rev.wf(),
                        n == g.len(),
                        rev@.len() == n,
                        x < n,
                        s < n,
                        turned(g, rev@),
                        list@ == rev@[x as int],
                        i <= list@.len(),
                        before[x as int],
                        !flag@[x as int],
                        round(
                            g,
                            rev@,
                            before,
                            flag@,
                            comp0,
                            comp@,
                            stack@,
                            s as int,
                            num as int,
                            x as int,
                            i as int,
                        ),
                        count_true(flag@) < count_true(before),
                        (count_true(flag@) == c0 && stack@.len() == full.len() - 1) || count_true(
                            flag@,
                        ) < c0,
                    decreases list@.len() - i,
                {
                    let y = list[i].0;
                    proof {
                        rev.lemma_neighbours(x as int, i as int);
                    }
                    if flag[y] {
                        proof {
                            lemma_round_take(
                                g,
                                rev@,
                                before,
                                flag@,
                                comp0,
                                comp@,
                                stack@,
                                s as int,
                                num,
                                x as int,
                                i as int,
                            );
                            lemma_count_update(flag@, y as int, false);
                        }
                        flag[y] = false;
                        comp[y] = num;
                        stack.push((y, false));
                    } else {
                        proof {
                            lemma_round_keep(
                                g,
                                rev@,
                                before,
                                flag@,
                                comp0,
                                comp@,
                                stack@,
                                s as int,
                                num as int,
                                x as int,
                                i as int,
                            );
                        }
                    }
                    i += 1;
                }
                proof {
                    lemma_round_close(
                        g,
                        rev@,
                        before,
                        flag@,
                        comp0,
                        comp@,
                        stack@,
                        s as int,
                        num as int,
                        x as int,
                    );
                }
            }
            proof {
                assert(stack@ =~= Seq::<(usize, bool)>::empty());
                lemma_count_bound(before);
                lemma_round_end(
                    g,
                    rev@,
                    fin,
                    order@,
                    before,
                    flag@,
                    comp0,
                    comp@,
                    s as int,
                    num as int,
                    t as int,
                );
            }
            num += 1;
        } else {
            proof {
                lemma_round_none(g, fin, order@, flag@, comp@, num as int, t as int);
            }
        }
    }
    proof {
        assert forall|v: int| 0 <= v < n implies !(#[trigger] flag@[v]) by {
            assert(fin[v] >= 0);
        }
        assert forall|u: int, v: int| 0 <= u < n && 0 <= v < n implies ((#[trigger] comp@[u]) == (
        #[trigger] comp@[v]) <==> scc(g, u, v)) by {
            assert(!flag@[u] && !flag@[v]);
        }
        assert forall|u: int, v: int| #[trigger] reach(g, u, v) implies comp@[u] <= comp@[v] by {
            lemma_reach_vertices(g, u, v);
            assert(!flag@[v]);
        }
        assert forall|v: int, c: int|
            0 <= v < n && 0 <= c < (#[trigger] comp@[v]) implies #[trigger] used(comp@, c) by {
            assert(!flag@[v]);
            assert(comp@[v] < num);
            assert(numbered(flag@, comp@, c));
            let w = choose|w: int| 0 <= w < flag@.len() && !(#[trigger] flag@[w]) && comp@[w] == c;
            assert(comp@[w] == c);
        }
    }
    comp
}

} // verus!
