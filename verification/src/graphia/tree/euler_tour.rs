//! The Euler tour of a rooted tree: for every vertex the time at which a
//! depth-first traversal enters it and the time at which it has left its
//! subtree.

use vstd::prelude::*;
use crate::graphia::csr::Csr;

verus! {

/// The vertices that a depth-first traversal visits from `u` on, in the
/// order of the visits, when it has come to `u` from `p` and may go `fuel`
/// levels deep.  The neighbours of a vertex are taken from the last of
/// its list to the first, and the one the traversal came from is left out.
pub open spec fn tour<W>(g: Seq<Seq<(usize, W)>>, u: int, p: int, fuel: nat) -> Seq<int>
    decreases fuel, g[u].len() + 1,
{
    if fuel == 0 {
        Seq::empty()
    } else {
        seq![u] + children_tour(g, u, p, g[u].len(), fuel)
    }
}

/// The part of `tour` for the first `j` neighbours of `u`.
pub open spec fn children_tour<W>(
    g: Seq<Seq<(usize, W)>>,
    u: int,
    p: int,
    j: nat,
    fuel: nat,
) -> Seq<int>
    decreases fuel, j,
{
    if j == 0 || fuel == 0 {
        Seq::empty()
    } else {
        child_tour(g, u, p, (j - 1) as nat, fuel) + children_tour(g, u, p, (j - 1) as nat, fuel)
    }
}

/// The part of `tour` for neighbour `j` of `u`.
pub open spec fn child_tour<W>(
    g: Seq<Seq<(usize, W)>>,
    u: int,
    p: int,
    j: nat,
    fuel: nat,
) -> Seq<int>
    decreases fuel, j, 0nat,
{
    if fuel == 0 || g[u][j as int].0 == p {
        Seq::empty()
    } else {
        tour(g, g[u][j as int].0 as int, u, (fuel - 1) as nat)
    }
}

/// The number of vertices that the traversal from `u` visits from `v` on
/// until it has left the subtree of `v`, or zero if it does not come to
/// `v`.
pub open spec fn len_in<W>(g: Seq<Seq<(usize, W)>>, u: int, p: int, fuel: nat, v: int) -> nat
    decreases fuel, g[u].len() + 1,
{
    if fuel == 0 {
        0
    } else if u == v {
        tour(g, u, p, fuel).len()
    } else {
        children_len_in(g, u, p, g[u].len(), fuel, v)
    }
}

/// The part of `len_in` for the first `j` neighbours of `u`.
pub open spec fn children_len_in<W>(
    g: Seq<Seq<(usize, W)>>,
    u: int,
    p: int,
    j: nat,
    fuel: nat,
    v: int,
) -> nat
    decreases fuel, j,
{
    if j == 0 || fuel == 0 {
        0
    } else {
        let c = g[u][j - 1].0 as int;
        let found = if c == p {
            0
        } else {
            len_in(g, c, u, (fuel - 1) as nat, v)
        };
        if found != 0 {
            found
        } else {
            children_len_in(g, u, p, (j - 1) as nat, fuel, v)
        }
    }
}

/// The order in which the traversal from `root` visits the vertices.
pub open spec fn walk<W>(g: Seq<Seq<(usize, W)>>, root: int) -> Seq<int> {
    tour(g, root, g.len() as int, g.len())
}

/// The number of vertices in the subtree of `v` of the tree rooted at
/// `root`.
pub open spec fn subtree_len<W>(g: Seq<Seq<(usize, W)>>, root: int, v: int) -> nat {
    len_in(g, root, g.len() as int, g.len(), v)
}

/// No value occurs twice in `t`.
pub open spec fn distinct(t: Seq<int>) -> bool {
    forall|k: int, l: int| 0 <= k < l < t.len() ==> (#[trigger] t[k]) != (#[trigger] t[l])
}

/// `v` occurs in `t`.
pub open spec fn occurs_in(t: Seq<int>, v: int) -> bool {
    exists|k: int| 0 <= k < t.len() && #[trigger] t[k] == v
}

/// The traversal from `root` visits every vertex exactly once: the graph
/// is a tree that hangs from `root`.
pub open spec fn is_tree_from<W>(g: Seq<Seq<(usize, W)>>, root: int) -> bool {
    let n = g.len() as int;
    let t = walk(g, root);
    &&& 0 <= root < n
    &&& t.len() == n
    &&& forall|k: int| 0 <= k < n ==> 0 <= (#[trigger] t[k]) < n
    &&& distinct(t)
    &&& forall|v: int| 0 <= v < n ==> #[trigger] occurs_in(t, v)
}

/// `route` leads from `u`, which the traversal came to from `pu`, down the
/// tree: each of its entries is the place, in the list of the vertex
/// reached so far, of a neighbour other than the one the traversal came
/// from.
pub open spec fn route_ok<W>(g: Seq<Seq<(usize, W)>>, u: int, pu: int, route: Seq<int>) -> bool
    decreases route.len(),
{
    route.len() == 0 || (0 <= route[0] < g[u].len() && g[u][route[0]].0 != pu && route_ok(
        g,
        g[u][route[0]].0 as int,
        u,
        route.drop_first(),
    ))
}

/// The vertex that `route` leads to from `u`, and the one before it.
pub open spec fn route_end<W>(g: Seq<Seq<(usize, W)>>, u: int, pu: int, route: Seq<int>) -> (
    int,
    int,
)
    decreases route.len(),
{
    if route.len() == 0 {
        (u, pu)
    } else {
        route_end(g, g[u][route[0]].0 as int, u, route.drop_first())
    }
}

/// A route goes on to a neighbour of its end other than the vertex before
/// the end.
pub proof fn lemma_route_push<W>(g: Seq<Seq<(usize, W)>>, u: int, pu: int, route: Seq<int>, j: int)
    requires
        route_ok(g, u, pu, route),
        0 <= j < g[route_end(g, u, pu, route).0].len(),
        g[route_end(g, u, pu, route).0][j].0 != route_end(g, u, pu, route).1,
    ensures
        route_ok(g, u, pu, route.push(j)),
        route_end(g, u, pu, route.push(j)) == (
            g[route_end(g, u, pu, route).0][j].0 as int,
            route_end(g, u, pu, route).0,
        ),
    decreases route.len(),
{
    let longer = route.push(j);
    if route.len() == 0 {
        assert(longer.drop_first() =~= Seq::<int>::empty());
        assert(route_ok(g, g[u][j].0 as int, u, longer.drop_first()));
        assert(route_end(g, g[u][j].0 as int, u, longer.drop_first()) == (g[u][j].0 as int, u));
    } else {
        let c = g[u][route[0]].0 as int;
        lemma_route_push(g, c, u, route.drop_first(), j);
        assert(longer.drop_first() =~= route.drop_first().push(j));
        assert(longer[0] == route[0]);
    }
}

/// What the traversal that starts at `u` with `fu` levels to go visits
/// from the end of `route` on.
pub open spec fn end_tour<W>(
    g: Seq<Seq<(usize, W)>>,
    u: int,
    pu: int,
    fu: nat,
    route: Seq<int>,
) -> Seq<int> {
    tour(
        g,
        route_end(g, u, pu, route).0,
        route_end(g, u, pu, route).1,
        (fu - route.len()) as nat,
    )
}

/// What the traversal visits from the end of a route on begins with that
/// end.
pub proof fn lemma_end_tour_head<W>(
    g: Seq<Seq<(usize, W)>>,
    u: int,
    pu: int,
    fu: nat,
    route: Seq<int>,
)
    requires
        fu >= route.len() + 1,
    ensures
        end_tour(g, u, pu, fu, route).len() >= 1,
        end_tour(g, u, pu, fu, route)[0] == route_end(g, u, pu, route).0,
{
    lemma_tour_head(
        g,
        route_end(g, u, pu, route).0,
        route_end(g, u, pu, route).1,
        (fu - route.len()) as nat,
    );
}

/// A traversal that may go at least one level deep begins with the vertex
/// it starts from.
pub proof fn lemma_tour_head<W>(g: Seq<Seq<(usize, W)>>, u: int, p: int, fuel: nat)
    requires
        fuel >= 1,
    ensures
        tour(g, u, p, fuel).len() == 1 + children_tour(g, u, p, g[u].len(), fuel).len(),
        tour(g, u, p, fuel)[0] == u,
        tour(g, u, p, fuel).subrange(1, tour(g, u, p, fuel).len() as int) == children_tour(
            g,
            u,
            p,
            g[u].len(),
            fuel,
        ),
{
    let rest = children_tour(g, u, p, g[u].len(), fuel);
    assert((seq![u] + rest).subrange(1, rest.len() as int + 1) =~= rest);
}

/// What the traversal visits below the first `j` neighbours ends what it
/// visits below the first `k >= j`, and the part for neighbour `j` lies
/// right before.
pub proof fn lemma_children_suffix<W>(
    g: Seq<Seq<(usize, W)>>,
    u: int,
    p: int,
    j: nat,
    k: nat,
    fuel: nat,
)
    requires
        j <= k,
        fuel >= 1,
    ensures
        children_tour(g, u, p, j, fuel).len() <= children_tour(g, u, p, k, fuel).len(),
        children_tour(g, u, p, k, fuel).subrange(
            children_tour(g, u, p, k, fuel).len() - children_tour(g, u, p, j, fuel).len(),
            children_tour(g, u, p, k, fuel).len() as int,
        ) == children_tour(g, u, p, j, fuel),
        children_tour(g, u, p, j + 1, fuel) == child_tour(g, u, p, j, fuel) + children_tour(
            g,
            u,
            p,
            j,
            fuel,
        ),
    decreases k - j,
{
    let all = children_tour(g, u, p, k, fuel);
    let part = children_tour(g, u, p, j, fuel);
    if j == k {
        assert(all.subrange(0, all.len() as int) =~= all);
    } else {
        lemma_children_suffix(g, u, p, j, (k - 1) as nat, fuel);
        let less = children_tour(g, u, p, (k - 1) as nat, fuel);
        let first = child_tour(g, u, p, (k - 1) as nat, fuel);
        assert(all == first + less);
        assert(all.subrange(all.len() - part.len(), all.len() as int) =~= less.subrange(
            less.len() - part.len(),
            less.len() as int,
        ));
    }
}

/// A part of a part of a sequence is a part of the sequence.
pub proof fn lemma_nested_part<A>(t: Seq<A>, a: int, mid: Seq<A>, b: int, part: Seq<A>)
    requires
        0 <= a,
        a + mid.len() <= t.len(),
        t.subrange(a, a + mid.len()) == mid,
        0 <= b,
        b + part.len() <= mid.len(),
        mid.subrange(b, b + part.len()) == part,
    ensures
        t.subrange(a + b, a + b + part.len()) == part,
{
    assert forall|i: int| 0 <= i < part.len() implies t.subrange(a + b, a + b + part.len())[i]
        == part[i] by {
        assert(t[a + b + i] == t.subrange(a, a + mid.len())[b + i]);
        assert(mid[b + i] == mid.subrange(b, b + part.len())[i]);
    }
    assert(t.subrange(a + b, a + b + part.len()) =~= part);
}

/// Where the part for neighbour `j` of `u` lies in what the traversal
/// visits from `u` on.
pub proof fn lemma_child_block<W>(g: Seq<Seq<(usize, W)>>, u: int, p: int, j: nat, fuel: nat) -> (at:
    int)
    requires
        fuel >= 1,
        j < g[u].len(),
    ensures
        at == 1 + children_tour(g, u, p, g[u].len(), fuel).len() - children_tour(
            g,
            u,
            p,
            j + 1,
            fuel,
        ).len(),
        1 <= at,
        at + child_tour(g, u, p, j, fuel).len() <= tour(g, u, p, fuel).len(),
        tour(g, u, p, fuel).subrange(at, at + child_tour(g, u, p, j, fuel).len()) == child_tour(
            g,
            u,
            p,
            j,
            fuel,
        ),
{
    let whole = tour(g, u, p, fuel);
    let kids = children_tour(g, u, p, g[u].len(), fuel);
    let upto = children_tour(g, u, p, j + 1, fuel);
    let part = child_tour(g, u, p, j, fuel);
    lemma_tour_head(g, u, p, fuel);
    lemma_children_suffix(g, u, p, j + 1, g[u].len(), fuel);
    lemma_children_suffix(g, u, p, j, j + 1, fuel);
    assert(upto == part + children_tour(g, u, p, j, fuel));
    assert(upto.subrange(0, 0 + part.len() as int) =~= part);
    let inner = kids.len() - upto.len();
    lemma_nested_part(kids, inner, upto, 0, part);
    lemma_nested_part(whole, 1, kids, inner, part);
    1 + inner
}

/// What the traversal visits from the end of a route on is a part of what
/// it visits from the start of the route on, and not the beginning of it
/// unless the route is empty.
pub proof fn lemma_route_block<W>(
    g: Seq<Seq<(usize, W)>>,
    u: int,
    pu: int,
    fu: nat,
    route: Seq<int>,
) -> (at: int)
    requires
        route_ok(g, u, pu, route),
        fu >= route.len() + 1,
    ensures
        0 <= at,
        route.len() >= 1 ==> at >= 1,
        at + end_tour(g, u, pu, fu, route).len() <= tour(g, u, pu, fu).len(),
        tour(g, u, pu, fu).subrange(at, at + end_tour(g, u, pu, fu, route).len()) == end_tour(
            g,
            u,
            pu,
            fu,
            route,
        ),
    decreases route.len(),
{
    let whole = tour(g, u, pu, fu);
    let part = end_tour(g, u, pu, fu, route);
    if route.len() == 0 {
        assert(whole.subrange(0, 0 + part.len() as int) =~= part);
        0
    } else {
        let j = route[0] as nat;
        let c = g[u][route[0]].0 as int;
        let below = lemma_route_block(g, c, u, (fu - 1) as nat, route.drop_first());
        let mid = tour(g, c, u, (fu - 1) as nat);
        assert(child_tour(g, u, pu, j, fu) == mid);
        let first = lemma_child_block(g, u, pu, j, fu);
        assert(end_tour(g, c, u, (fu - 1) as nat, route.drop_first()) == part);
        lemma_nested_part(whole, first, mid, below, part);
        first + below
    }
}

/// `len_in` is zero exactly for the vertices that the traversal does not
/// visit.
pub proof fn lemma_len_in_found<W>(g: Seq<Seq<(usize, W)>>, u: int, p: int, fuel: nat, v: int)
    ensures
        len_in(g, u, p, fuel, v) != 0 <==> occurs_in(tour(g, u, p, fuel), v),
    decreases fuel, g[u].len() + 1,
{
    let t = tour(g, u, p, fuel);
    if fuel == 0 {
        if occurs_in(t, v) {
            let k = choose|k: int| 0 <= k < t.len() && #[trigger] t[k] == v;
        }
    } else {
        lemma_tour_head(g, u, p, fuel);
        let kids = children_tour(g, u, p, g[u].len(), fuel);
        if u == v {
            assert(t[0] == v);
        } else {
            lemma_children_len_in_found(g, u, p, g[u].len(), fuel, v);
            if occurs_in(t, v) {
                let k = choose|k: int| 0 <= k < t.len() && #[trigger] t[k] == v;
                assert(k >= 1);
                assert(kids[k - 1] == t.subrange(1, t.len() as int)[k - 1]);
                assert(kids[k - 1] == v);
            }
            if occurs_in(kids, v) {
                let k = choose|k: int| 0 <= k < kids.len() && #[trigger] kids[k] == v;
                assert(t.subrange(1, t.len() as int)[k] == t[k + 1]);
                assert(t[k + 1] == v);
            }
        }
    }
}

/// `children_len_in` is zero exactly for the vertices that the traversal
/// does not visit below the first `j` neighbours.
pub proof fn lemma_children_len_in_found<W>(
    g: Seq<Seq<(usize, W)>>,
    u: int,
    p: int,
    j: nat,
    fuel: nat,
    v: int,
)
    ensures
        children_len_in(g, u, p, j, fuel, v) != 0 <==> occurs_in(
            children_tour(g, u, p, j, fuel),
            v,
        ),
    decreases fuel, j,
{
    let all = children_tour(g, u, p, j, fuel);
    if j == 0 || fuel == 0 {
        if occurs_in(all, v) {
            let k = choose|k: int| 0 <= k < all.len() && #[trigger] all[k] == v;
        }
    } else {
        let c = g[u][j - 1].0 as int;
        let first = child_tour(g, u, p, (j - 1) as nat, fuel);
        let rest = children_tour(g, u, p, (j - 1) as nat, fuel);
        assert(all == first + rest);
        if c != p {
            lemma_len_in_found(g, c, u, (fuel - 1) as nat, v);
        }
        lemma_children_len_in_found(g, u, p, (j - 1) as nat, fuel, v);
        if occurs_in(all, v) {
            let k = choose|k: int| 0 <= k < all.len() && #[trigger] all[k] == v;
            if k < first.len() {
                assert(first[k] == v);
            } else {
                assert(rest[k - first.len()] == v);
            }
        }
        if occurs_in(first, v) {
            let k = choose|k: int| 0 <= k < first.len() && #[trigger] first[k] == v;
            assert(all[k] == v);
        }
        if occurs_in(rest, v) {
            let k = choose|k: int| 0 <= k < rest.len() && #[trigger] rest[k] == v;
            assert(all[first.len() + k] == v);
        }
    }
}

/// A part of a sequence without repetitions has none.
pub proof fn lemma_distinct_part(t: Seq<int>, a: int, b: int)
    requires
        distinct(t),
        0 <= a <= b <= t.len(),
    ensures
        distinct(t.subrange(a, b)),
{
    assert forall|k: int, l: int| 0 <= k < l < b - a implies (#[trigger] t.subrange(a, b)[k]) != (
    #[trigger] t.subrange(a, b)[l]) by {
        assert(t[a + k] != t[a + l]);
    }
}

/// In a traversal that visits no vertex twice, `len_in` tells for the end of
/// every route how many vertices the traversal visits from there on.
pub proof fn lemma_len_in_route<W>(
    g: Seq<Seq<(usize, W)>>,
    u: int,
    pu: int,
    fu: nat,
    route: Seq<int>,
)
    requires
        route_ok(g, u, pu, route),
        fu >= route.len() + 1,
        distinct(tour(g, u, pu, fu)),
    ensures
        len_in(g, u, pu, fu, route_end(g, u, pu, route).0) == end_tour(g, u, pu, fu, route).len(),
    decreases 2 * route.len() + 1, 0nat,
{
    let whole = tour(g, u, pu, fu);
    let part = end_tour(g, u, pu, fu, route);
    let v = route_end(g, u, pu, route).0;
    if route.len() > 0 {
        let at = lemma_route_block(g, u, pu, fu, route);
        lemma_end_tour_head(g, u, pu, fu, route);
        lemma_tour_head(g, u, pu, fu);
        assert(whole[at] == whole.subrange(at, at + part.len())[0]);
        assert(whole[0] != whole[at]);
        lemma_distinct_part(whole, 1, whole.len() as int);
        lemma_children_search(g, u, pu, g[u].len(), fu, route);
    }
}

/// The search among the first `k` neighbours of `u` finds the end of a
/// route that goes on from one of them.
pub proof fn lemma_children_search<W>(
    g: Seq<Seq<(usize, W)>>,
    u: int,
    pu: int,
    k: nat,
    fu: nat,
    route: Seq<int>,
)
    requires
        route.len() >= 1,
        route_ok(g, u, pu, route),
        fu >= route.len() + 1,
        route[0] < k <= g[u].len(),
        distinct(children_tour(g, u, pu, k, fu)),
    ensures
        children_len_in(g, u, pu, k, fu, route_end(g, u, pu, route).0) == end_tour(
            g,
            u,
            pu,
            fu,
            route,
        ).len(),
        end_tour(g, u, pu, fu, route).len() >= 1,
    decreases 2 * route.len(), k,
{
    let v = route_end(g, u, pu, route).0;
    let all = children_tour(g, u, pu, k, fu);
    let c = g[u][k - 1].0 as int;
    let first = child_tour(g, u, pu, (k - 1) as nat, fu);
    let rest = children_tour(g, u, pu, (k - 1) as nat, fu);
    assert(all == first + rest);
    lemma_distinct_part(all, 0, first.len() as int);
    lemma_distinct_part(all, first.len() as int, all.len() as int);
    assert(all.subrange(0, first.len() as int) =~= first);
    assert(all.subrange(first.len() as int, all.len() as int) =~= rest);
    lemma_end_tour_head(g, u, pu, fu, route);
    if route[0] == k - 1 {
        lemma_len_in_route(g, c, u, (fu - 1) as nat, route.drop_first());
    } else {
        // The end of the route is visited below an earlier neighbour, so
        // not below this one.
        lemma_children_search(g, u, pu, (k - 1) as nat, fu, route);
        lemma_children_len_in_found(g, u, pu, (k - 1) as nat, fu, v);
        if c != pu {
            lemma_len_in_found(g, c, u, (fu - 1) as nat, v);
            if occurs_in(first, v) {
                let a = choose|a: int| 0 <= a < first.len() && #[trigger] first[a] == v;
                let b = choose|b: int| 0 <= b < rest.len() && #[trigger] rest[b] == v;
                assert(all[a] == v);
                assert(all[first.len() + b] == v);
            }
        }
    }
}

/// An entry of the stack of the traversal: a vertex with the route that
/// leads to it and the place in the walk that the entry stands for.  An
/// entry that waits for its vertex to be entered stands for what the
/// traversal visits from the vertex on, which begins at `at`; an entry
/// that waits for the subtree of its vertex to be left stands for nothing
/// more, and `at` is where that subtree ends.
pub ghost struct Frame {
    pub v: int,
    pub route: Seq<int>,
    pub marker: bool,
    pub at: int,
}

/// What the traversal visits from the vertex of `fr` on.
pub open spec fn block<W>(g: Seq<Seq<(usize, W)>>, root: int, fr: Frame) -> Seq<int> {
    end_tour(g, root, g.len() as int, g.len(), fr.route)
}

/// The part of the walk that `fr` stands for.
pub open spec fn share<W>(g: Seq<Seq<(usize, W)>>, root: int, fr: Frame) -> Seq<int> {
    if fr.marker {
        Seq::empty()
    } else {
        block(g, root, fr)
    }
}

/// What holds of every entry of the stack.
pub open spec fn frame_ok<W>(g: Seq<Seq<(usize, W)>>, root: int, tin: Seq<usize>, fr: Frame) -> bool {
    let n = g.len() as int;
    let e = route_end(g, root, n, fr.route);
    &&& route_ok(g, root, n, fr.route)
    &&& e.0 == fr.v
    &&& 0 <= fr.v < n
    &&& fr.route.len() < n
    &&& (e.1 == n || (0 <= e.1 < n && tin[e.1] != usize::MAX))
    &&& 0 <= fr.at
    &&& fr.at + share(g, root, fr).len() <= n
    &&& if fr.marker {
        tin[fr.v] != usize::MAX && tin[fr.v] + block(g, root, fr).len() == fr.at
    } else {
        tin[fr.v] == usize::MAX && fr.route.len() <= fr.at && walk(g, root).subrange(
            fr.at,
            fr.at + share(g, root, fr).len(),
        ) == share(g, root, fr)
    }
}

/// The stack holds the vertices of `frames`, whose shares make up the walk
/// from `top_at` on, the share of the topmost entry first.
pub open spec fn stack_ok<W>(
    g: Seq<Seq<(usize, W)>>,
    root: int,
    tin: Seq<usize>,
    stack: Seq<usize>,
    frames: Seq<Frame>,
    top_at: int,
) -> bool {
    &&& stack.len() == frames.len()
    &&& forall|k: int|
        0 <= k < frames.len() ==> stack[k] == (#[trigger] frames[k]).v && frame_ok(
            g,
            root,
            tin,
            frames[k],
        )
    &&& forall|k: int|
        1 <= k < frames.len() ==> frames[k - 1].at == (#[trigger] frames[k]).at + share(
            g,
            root,
            frames[k],
        ).len()
    &&& frames.len() > 0 ==> frames[0].at + share(g, root, frames[0]).len() == g.len()
        && frames.last().at == top_at
    &&& frames.len() == 0 ==> top_at == g.len()
}

/// The vertices entered so far are the first `t` of the walk, each
/// entered at its place in the walk.
pub open spec fn visited_ok<W>(g: Seq<Seq<(usize, W)>>, root: int, tin: Seq<usize>, t: int) -> bool {
    &&& tin.len() == g.len()
    &&& 0 <= t <= g.len()
    &&& forall|k: int| 0 <= k < t ==> tin[#[trigger] walk(g, root)[k]] == k
    &&& forall|v: int|
        0 <= v < g.len() && (#[trigger] tin[v]) != usize::MAX ==> tin[v] < t && walk(
            g,
            root,
        )[tin[v] as int] == v
}

/// An entry of `frames` waits for the subtree of `v` to be left.
pub open spec fn has_marker(frames: Seq<Frame>, v: int) -> bool {
    exists|k: int| 0 <= k < frames.len() && (#[trigger] frames[k]).marker && frames[k].v == v
}

/// Every vertex entered so far has its leaving time, or an entry of the
/// stack waits for its subtree to be left.
pub open spec fn closed_ok<W>(
    g: Seq<Seq<(usize, W)>>,
    root: int,
    tin: Seq<usize>,
    tout: Seq<usize>,
    frames: Seq<Frame>,
) -> bool {
    &&& tout.len() == g.len()
    &&& forall|v: int|
        0 <= v < g.len() && (#[trigger] tin[v]) != usize::MAX ==> (tout[v] == tin[v] + subtree_len(
            g,
            root,
            v,
        ) && tout[v] <= g.len()) || has_marker(frames, v)
}

/// Before the first step the stack holds the root, which stands for the
/// whole walk.
pub proof fn lemma_start<W>(g: Seq<Seq<(usize, W)>>, root: usize, tin: Seq<usize>)
    requires
        is_tree_from(g, root as int),
        tin.len() == g.len(),
        forall|v: int| 0 <= v < g.len() ==> tin[v] == usize::MAX,
    ensures
        stack_ok(
            g,
            root as int,
            tin,
            seq![root],
            seq![Frame { v: root as int, route: Seq::empty(), marker: false, at: 0 }],
            0,
        ),
        visited_ok(g, root as int, tin, 0),
{
    let fr = Frame { v: root as int, route: Seq::empty(), marker: false, at: 0 };
    let t = walk(g, root as int);
    assert(share(g, root as int, fr) == t);
    assert(t.subrange(0, 0 + t.len() as int) =~= t);
    assert(frame_ok(g, root as int, tin, fr));
}

/// The entries below the top of the stack stand for parts of the walk
/// that begin after the share of the top.
pub proof fn lemma_layout<W>(
    g: Seq<Seq<(usize, W)>>,
    root: int,
    tin: Seq<usize>,
    stack: Seq<usize>,
    frames: Seq<Frame>,
    top_at: int,
    k: int,
)
    requires
        stack_ok(g, root, tin, stack, frames, top_at),
        0 <= k < frames.len() - 1,
    ensures
        frames[k].at >= top_at + share(g, root, frames.last()).len(),
    decreases frames.len() - k,
{
    let next = frames[k + 1];
    if k + 1 < frames.len() - 1 {
        lemma_layout(g, root, tin, stack, frames, top_at, k + 1);
    }
}

/// The step that enters the vertex on top of the stack: the vertex is the
/// next of the walk, and its entry now waits for its subtree to be left.
pub proof fn lemma_enter<W>(
    g: Seq<Seq<(usize, W)>>,
    root: int,
    tin: Seq<usize>,
    tout: Seq<usize>,
    stack: Seq<usize>,
    frames: Seq<Frame>,
    t: int,
)
    requires
        is_tree_from(g, root),
        g.len() <= usize::MAX,
        visited_ok(g, root, tin, t),
        stack_ok(g, root, tin, stack, frames, t),
        closed_ok(g, root, tin, tout, frames),
        frames.len() > 0,
        tin[frames.last().v] == usize::MAX,
    ensures
        ({
            let fr = frames.last();
            let end = t + block(g, root, fr).len();
            let tin2 = tin.update(fr.v, t as usize);
            let frames2 = frames.drop_last().push(
                Frame { v: fr.v, route: fr.route, marker: true, at: end },
            );
            &&& t < g.len()
            &&& end <= g.len()
            &&& fr.route.len() <= t
            &&& frame_ok(g, root, tin, fr)
            &&& walk(g, root).subrange(t, end) == block(g, root, fr)
            &&& visited_ok(g, root, tin2, t + 1)
            &&& stack_ok(g, root, tin2, stack, frames2, end)
            &&& closed_ok(g, root, tin2, tout, frames2)
        }),
{
    let n = g.len() as int;
    let all = walk(g, root);
    let top = frames.len() - 1;
    let fr = frames[top];
    let u = fr.v;
    let end = t + block(g, root, fr).len();
    let tin2 = tin.update(u, t as usize);
    let mark = Frame { v: fr.v, route: fr.route, marker: true, at: end };
    let frames2 = frames.drop_last().push(mark);
    assert(frame_ok(g, root, tin, fr));
    lemma_end_tour_head(g, root, n, g.len(), fr.route);
    assert(all[t] == all.subrange(t, end)[0]);
    assert(all[t] == u);
    assert forall|k: int| 0 <= k < t + 1 implies tin2[#[trigger] all[k]] == k by {
        if k < t {
            assert(tin[all[k]] == k);
        }
    }
    assert forall|k: int| 0 <= k < frames2.len() implies stack[k] == (#[trigger] frames2[k]).v
        && frame_ok(g, root, tin2, frames2[k]) by {
        if k < top {
            let other = frames[k];
            assert(frames2[k] == other);
            assert(frame_ok(g, root, tin, other));
            if !other.marker {
                lemma_layout(g, root, tin, stack, frames, t, k);
                lemma_end_tour_head(g, root, n, g.len(), other.route);
                assert(all[other.at] == all.subrange(
                    other.at,
                    other.at + share(g, root, other).len(),
                )[0]);
                assert(all[t] != all[other.at]);
            }
        } else {
            assert(frames[k] == fr);
        }
    }
    assert forall|k: int| 1 <= k < frames2.len() implies frames2[k - 1].at == (
    #[trigger] frames2[k]).at + share(g, root, frames2[k]).len() by {
        assert(frames[k - 1].at == frames[k].at + share(g, root, frames[k]).len());
    }
    assert forall|v: int| 0 <= v < g.len() && (#[trigger] tin2[v]) != usize::MAX implies (tout[v]
        == tin2[v] + subtree_len(g, root, v) && tout[v] <= g.len()) || has_marker(frames2, v) by {
        if v == u {
            assert(frames2[top].marker && frames2[top].v == v);
        } else {
            assert(tin[v] != usize::MAX);
            if has_marker(frames, v) {
                let k = choose|k: int|
                    0 <= k < frames.len() && (#[trigger] frames[k]).marker && frames[k].v == v;
                assert(frames2[k].marker && frames2[k].v == v);
            }
        }
    }
}

/// What the traversal visits below the first `j` neighbours of the end
/// of `route`.
pub open spec fn kids<W>(g: Seq<Seq<(usize, W)>>, root: int, route: Seq<int>, j: nat) -> Seq<int> {
    let e = route_end(g, root, g.len() as int, route);
    children_tour(g, e.0, e.1, j, (g.len() - route.len()) as nat)
}

/// What the step that pushes the neighbours of a vertex knows of the
/// vertex it has just entered at time `t - 1`.
pub open spec fn entered<W>(
    g: Seq<Seq<(usize, W)>>,
    root: int,
    tin: Seq<usize>,
    t: int,
    route: Seq<int>,
    end: int,
) -> bool {
    let n = g.len() as int;
    let e = route_end(g, root, n, route);
    &&& route_ok(g, root, n, route)
    &&& route.len() < t
    &&& 0 <= e.0 < n
    &&& tin[e.0] != usize::MAX
    &&& (e.1 == n || (0 <= e.1 < n && tin[e.1] != usize::MAX))
    &&& end == t - 1 + end_tour(g, root, n, g.len(), route).len()
    &&& end <= n
    &&& walk(g, root).subrange(t - 1, end) == end_tour(g, root, n, g.len(), route)
}

/// A neighbour that has not been entered is not the vertex that the
/// traversal came from: the walk goes on below it, at the place that its
/// entry of the stack will stand for.
pub proof fn lemma_child_open<W>(
    g: Seq<Seq<(usize, W)>>,
    root: int,
    tin: Seq<usize>,
    t: int,
    route: Seq<int>,
    end: int,
    j: nat,
)
    requires
        is_tree_from(g, root),
        g.len() <= usize::MAX,
        visited_ok(g, root, tin, t),
        entered(g, root, tin, t, route, end),
        j < g[route_end(g, root, g.len() as int, route).0].len(),
        g[route_end(g, root, g.len() as int, route).0][j as int].0 < g.len(),
        tin[g[route_end(g, root, g.len() as int, route).0][j as int].0 as int] == usize::MAX,
    ensures
        ({
            let e = route_end(g, root, g.len() as int, route);
            let c = g[e.0][j as int].0;
            let at = end - kids(g, root, route, j + 1).len();
            let child = Frame { v: c as int, route: route.push(j as int), marker: false, at };
            &&& c != e.1
            &&& route.len() + 1 < g.len()
            &&& route_end(g, root, g.len() as int, route.push(j as int)) == (c as int, e.0)
            &&& frame_ok(g, root, tin, child)
            &&& at >= t
            &&& kids(g, root, route, j + 1) == block(g, root, child) + kids(g, root, route, j)
            &&& block(g, root, child).len() >= 1
        }),
{
    let n = g.len() as int;
    let all = walk(g, root);
    let e = route_end(g, root, n, route);
    let u = e.0;
    let p = e.1;
    let f = (n - route.len()) as nat;
    let c = g[u][j as int].0;
    let at = end - kids(g, root, route, j + 1).len();
    let child = Frame { v: c as int, route: route.push(j as int), marker: false, at };
    let whole = tour(g, u, p, f);
    let part = child_tour(g, u, p, j, f);
    // The neighbour is still to come in the walk.
    assert(occurs_in(all, c as int));
    let k0 = choose|k: int| 0 <= k < all.len() && #[trigger] all[k] == c as int;
    assert(k0 >= t) by {
        if k0 < t {
            assert(tin[all[k0]] == k0);
        }
    }
    lemma_route_push(g, root, n, route, j as int);
    assert(part == tour(g, c as int, u, (f - 1) as nat));
    assert(block(g, root, child) == part);
    lemma_tour_head(g, u, p, f);
    lemma_tour_head(g, c as int, u, (f - 1) as nat);
    let inner = lemma_child_block(g, u, p, j, f);
    lemma_nested_part(all, t - 1, whole, inner, part);
    lemma_children_suffix(g, u, p, j, j + 1, f);
    assert(frame_ok(g, root, tin, child));
}

/// The step that pushes a neighbour that has not been entered: its entry
/// stands for what the traversal visits below it.
pub proof fn lemma_child_push<W>(
    g: Seq<Seq<(usize, W)>>,
    root: int,
    tin: Seq<usize>,
    stack: Seq<usize>,
    frames: Seq<Frame>,
    t: int,
    route: Seq<int>,
    end: int,
    j: nat,
)
    requires
        is_tree_from(g, root),
        g.len() <= usize::MAX,
        visited_ok(g, root, tin, t),
        entered(g, root, tin, t, route, end),
        j < g[route_end(g, root, g.len() as int, route).0].len(),
        g[route_end(g, root, g.len() as int, route).0][j as int].0 < g.len(),
        tin[g[route_end(g, root, g.len() as int, route).0][j as int].0 as int] == usize::MAX,
        frames.len() > 0,
        stack_ok(g, root, tin, stack, frames, end - kids(g, root, route, j).len()),
    ensures
        ({
            let c = g[route_end(g, root, g.len() as int, route).0][j as int].0;
            let at = end - kids(g, root, route, j + 1).len();
            let frames2 = frames.push(
                Frame { v: c as int, route: route.push(j as int), marker: false, at },
            );
            &&& stack_ok(g, root, tin, stack.push(c), frames2, at)
            &&& forall|v: int| has_marker(frames, v) ==> has_marker(frames2, v)
        }),
{
    let c = g[route_end(g, root, g.len() as int, route).0][j as int].0;
    let at = end - kids(g, root, route, j + 1).len();
    let child = Frame { v: c as int, route: route.push(j as int), marker: false, at };
    let frames2 = frames.push(child);
    lemma_child_open(g, root, tin, t, route, end, j);
    assert forall|k: int| 0 <= k < frames2.len() implies stack.push(c)[k] == (
    #[trigger] frames2[k]).v && frame_ok(g, root, tin, frames2[k]) by {
        if k < frames.len() {
            assert(frames2[k] == frames[k]);
        }
    }
    assert forall|k: int| 1 <= k < frames2.len() implies frames2[k - 1].at == (
    #[trigger] frames2[k]).at + share(g, root, frames2[k]).len() by {
        if k < frames.len() {
            assert(frames[k - 1].at == frames[k].at + share(g, root, frames[k]).len());
        }
    }
    assert(frames2[0] == frames[0]);
    assert forall|v: int| has_marker(frames, v) implies has_marker(frames2, v) by {
        let k = choose|k: int|
            0 <= k < frames.len() && (#[trigger] frames[k]).marker && frames[k].v == v;
        assert(frames2[k].marker && frames2[k].v == v);
    }
}

/// The traversal visits nothing below a neighbour that has been entered
/// before: such a neighbour is the one it came from.
pub proof fn lemma_child_skip<W>(
    g: Seq<Seq<(usize, W)>>,
    root: int,
    tin: Seq<usize>,
    t: int,
    route: Seq<int>,
    end: int,
    j: nat,
)
    requires
        is_tree_from(g, root),
        visited_ok(g, root, tin, t),
        entered(g, root, tin, t, route, end),
        j < g[route_end(g, root, g.len() as int, route).0].len(),
        g[route_end(g, root, g.len() as int, route).0][j as int].0 < g.len(),
        tin[g[route_end(g, root, g.len() as int, route).0][j as int].0 as int] != usize::MAX,
    ensures
        kids(g, root, route, j + 1) == kids(g, root, route, j),
{
    let n = g.len() as int;
    let all = walk(g, root);
    let e = route_end(g, root, n, route);
    let u = e.0;
    let p = e.1;
    let f = (n - route.len()) as nat;
    let c = g[u][j as int].0;
    let whole = tour(g, u, p, f);
    let part = child_tour(g, u, p, j, f);
    lemma_children_suffix(g, u, p, j, j + 1, f);
    if part.len() > 0 {
        assert(part == tour(g, c as int, u, (f - 1) as nat));
        lemma_tour_head(g, c as int, u, (f - 1) as nat);
        let inner = lemma_child_block(g, u, p, j, f);
        lemma_nested_part(all, t - 1, whole, inner, part);
        let a = t - 1 + inner;
        assert(all[a] == all.subrange(a, a + part.len())[0]);
        assert(all[tin[c as int] as int] == c);
        assert(all[tin[c as int] as int] != all[a]);
    }
    assert(kids(g, root, route, j + 1) =~= kids(g, root, route, j));
}

/// The step that leaves the subtree of the vertex on top of the stack:
/// the time is the time at which the vertex was entered plus the number
/// of vertices of its subtree.
pub proof fn lemma_leave<W>(
    g: Seq<Seq<(usize, W)>>,
    root: int,
    tin: Seq<usize>,
    tout: Seq<usize>,
    stack: Seq<usize>,
    frames: Seq<Frame>,
    t: int,
)
    requires
        is_tree_from(g, root),
        g.len() <= usize::MAX,
        visited_ok(g, root, tin, t),
        stack_ok(g, root, tin, stack, frames, t),
        closed_ok(g, root, tin, tout, frames),
        frames.len() > 0,
        tin[frames.last().v] != usize::MAX,
    ensures
        t == tin[frames.last().v] + subtree_len(g, root, frames.last().v),
        stack_ok(g, root, tin, stack.drop_last(), frames.drop_last(), t),
        closed_ok(g, root, tin, tout.update(frames.last().v, t as usize), frames.drop_last()),
{
    let n = g.len() as int;
    let top = frames.len() - 1;
    let fr = frames[top];
    let u = fr.v;
    let frames2 = frames.drop_last();
    let tout2 = tout.update(u, t as usize);
    assert(frame_ok(g, root, tin, fr));
    lemma_len_in_route(g, root, n, g.len(), fr.route);
    assert(fr.marker);
    assert(fr.at == t);
    assert(t == tin[u] + subtree_len(g, root, u));
    assert forall|k: int| 0 <= k < frames2.len() implies stack.drop_last()[k] == (
    #[trigger] frames2[k]).v && frame_ok(g, root, tin, frames2[k]) by {
        assert(frames2[k] == frames[k]);
    }
    assert forall|k: int| 1 <= k < frames2.len() implies frames2[k - 1].at == (
    #[trigger] frames2[k]).at + share(g, root, frames2[k]).len() by {
        assert(frames[k - 1].at == frames[k].at + share(g, root, frames[k]).len());
    }
    if top > 0 {
        assert(frames[top - 1].at == frames[top].at + share(g, root, frames[top]).len());
        assert(frames2[0] == frames[0]);
    }
    assert forall|v: int| 0 <= v < g.len() && (#[trigger] tin[v]) != usize::MAX implies (tout2[v]
        == tin[v] + subtree_len(g, root, v) && tout2[v] <= g.len()) || has_marker(frames2, v) by {
        if v == u {
            assert(tout2[v] == t);
        } else {
            assert(tout2[v] == tout[v]);
            if has_marker(frames, v) {
                let k = choose|k: int|
                    0 <= k < frames.len() && (#[trigger] frames[k]).marker && frames[k].v == v;
                assert(frames2[k].marker && frames2[k].v == v);
            }
        }
    }
}

/// The entering and leaving times of the vertices of a rooted tree.
pub struct EulerTour {
    tin: Vec<usize>,
    tout: Vec<usize>,
}

impl EulerTour {
    /// For every vertex the time at which the traversal enters it.
    pub closed spec fn tins(&self) -> Seq<usize> {
        self.tin@
    }

    /// For every vertex the time at which the traversal has left its
    /// subtree.
    pub closed spec fn touts(&self) -> Seq<usize> {
        self.tout@
    }

    /// The entering times are the numbers below the number of vertices,
    /// each once, and no vertex is left before it is entered.
    pub open spec fn wf(&self) -> bool {
        &&& self.tins().len() == self.touts().len()
        &&& forall|v: int|
            0 <= v < self.tins().len() ==> (#[trigger] self.tins()[v]) < self.tins().len()
                && self.tins()[v] <= self.touts()[v] <= self.tins().len()
        &&& forall|v: int, w: int|
            0 <= v < w < self.tins().len() ==> (#[trigger] self.tins()[v]) != (
            #[trigger] self.tins()[w])
    }

    /// Traverses the tree from `root`, depth first, the neighbours of
    /// every vertex from the last of its list to the first.  A vertex is
    /// entered at its place in the walk, and left as many steps later as
    /// its subtree has vertices.  Takes time linear in the size of the
    /// tree.
    pub fn from_csr<W: Copy>(root: usize, tree: &Csr<W>) -> (res: Self)
        requires
            tree.wf(),
            is_tree_from(tree@, root as int),
        ensures
            res.wf(),
            res.tins().len() == tree@.len(),
            forall|k: int|
                0 <= k < tree@.len() ==> res.tins()[#[trigger] walk(tree@, root as int)[k]] == k,
            forall|v: int|
                0 <= v < tree@.len() ==> (#[trigger] res.touts()[v]) == res.tins()[v]
                    + subtree_len(tree@, root as int, v),
    {
        let n = tree.num_vertices();
        let mut tin: Vec<usize> = vec![usize::MAX; n];
        let mut tout: Vec<usize> = vec![usize::MAX; n];
        let mut t: usize = 0;
        let mut stack: Vec<usize> = Vec::new();
        stack.push(root);
        let ghost g = tree@;
        let ghost mut frames: Seq<Frame> = seq![
            Frame { v: root as int, route: Seq::empty(), marker: false, at: 0 },
        ];
        proof {
            lemma_start(g, root, tin@);
            assert(stack@ =~= seq![root]);
        }
        while stack.len() > 0
            invariant
                tree.wf(),
                g == tree@,
                n == g.len(),
                is_tree_from(g, root as int),
                visited_ok(g, root as int, tin@, t as int),
                stack_ok(g, root as int, tin@, stack@, frames, t as int),
                closed_ok(g, root as int, tin@, tout@, frames),
            decreases n - t, stack.len(),
        {
            let ghost fr = frames.last();
            let ghost below = stack@.drop_last();
            let u = stack[stack.len() - 1];
            stack.pop();
            assert(u == fr.v && frame_ok(g, root as int, tin@, fr));
            if tin[u] == usize::MAX {
                proof {
                    lemma_enter(g, root as int, tin@, tout@, below.push(u), frames, t as int);
                }
                let ghost end = t + block(g, root as int, fr).len();
                tin[u] = t;
                t += 1;
                stack.push(u);
                proof {
                    frames = frames.drop_last().push(
                        Frame { v: fr.v, route: fr.route, marker: true, at: end },
                    );
                    assert(stack@ =~= below.push(u));
                    lemma_tour_head(
                        g,
                        fr.v,
                        route_end(g, root as int, n as int, fr.route).1,
                        (n - fr.route.len()) as nat,
                    );
                }
                let list = tree.adj(u);
                let mut j: usize = 0;
                while j < list.len()
                    invariant
                        tree.wf(),
                        g == tree@,
                        n == g.len(),
                        u < n,
                        list@ == g[u as int],
                        j <= list@.len(),
                        is_tree_from(g, root as int),
                        visited_ok(g, root as int, tin@, t as int),
                        entered(g, root as int, tin@, t as int, fr.route, end),
                        route_end(g, root as int, n as int, fr.route).0 == u,
                        frames.len() > 0,
                        stack_ok(
                            g,
                            root as int,
                            tin@,
                            stack@,
                            frames,
                            end - kids(g, root as int, fr.route, j as nat).len(),
                        ),
                        closed_ok(g, root as int, tin@, tout@, frames),
                    decreases list@.len() - j,
                {
                    let c = list[j].0;
                    proof {
                        tree.lemma_neighbours(u as int, j as int);
                    }
                    if tin[c] == usize::MAX {
                        proof {
                            lemma_child_push(
                                g,
                                root as int,
                                tin@,
                                stack@,
                                frames,
                                t as int,
                                fr.route,
                                end,
                                j as nat,
                            );
                            frames = frames.push(
                                Frame {
                                    v: c as int,
                                    route: fr.route.push(j as int),
                                    marker: false,
                                    at: end - kids(g, root as int, fr.route, (j + 1) as nat).len(),
                                },
                            );
                        }
                        stack.push(c);
                    } else {
                        proof {
                            lemma_child_skip(
                                g,
                                root as int,
                                tin@,
                                t as int,
                                fr.route,
                                end,
                                j as nat,
                            );
                        }
                    }
                    j += 1;
                }
            } else {
                proof {
                    lemma_leave(g, root as int, tin@, tout@, below.push(u), frames, t as int);
                    assert(below.push(u).drop_last() =~= below);
                    frames = frames.drop_last();
                }
                tout[u] = t;
            }
        }
        proof {
            let all = walk(g, root as int);
            assert forall|v: int| 0 <= v < n implies (#[trigger] tin@[v]) < n && tin@[v] <= tout@[v]
                <= n && tout@[v] == tin@[v] + subtree_len(g, root as int, v) by {
                assert(occurs_in(all, v));
                let k = choose|k: int| 0 <= k < all.len() && #[trigger] all[k] == v;
                assert(tin@[all[k]] == k);
                assert(!has_marker(frames, v));
            }
            assert forall|v: int, w: int| 0 <= v < w < n implies (#[trigger] tin@[v]) != (
            #[trigger] tin@[w]) by {
                assert(all[tin@[v] as int] == v);
                assert(all[tin@[w] as int] == w);
            }
        }
        EulerTour { tin, tout }
    }

    /// Returns the time at which vertex `i` is entered.
    pub fn tin(&self, i: usize) -> (res: usize)
        requires
            i < self.tins().len(),
        ensures
            res == self.tins()[i as int],
    {
        self.tin[i]
    }

    /// Returns the time at which the subtree of vertex `i` has been left.
    pub fn tout(&self, i: usize) -> (res: usize)
        requires
            i < self.touts().len(),
        ensures
            res == self.touts()[i as int],
    {
        self.tout[i]
    }

    /// Returns the times at which the vertices of the subtree of vertex
    /// `i` are entered: the entering time of `i` and its leaving time.
    pub fn subtree(&self, i: usize) -> (res: std::ops::Range<usize>)
        requires
            self.wf(),
            i < self.tins().len(),
        ensures
            res.start == self.tins()[i as int],
            res.end == self.touts()[i as int],
    {
        self.tin[i]..self.tout[i]
    }

    /// Returns the number of vertices of the subtree of vertex `i`.
    pub fn subtree_size(&self, i: usize) -> (res: usize)
        requires
            self.wf(),
            i < self.tins().len(),
        ensures
            res == self.touts()[i as int] - self.tins()[i as int],
    {
        self.tout[i] - self.tin[i]
    }

    /// Tells whether vertex `j` is entered while the traversal is in the
    /// subtree of vertex `i`: whether `i` is `j` or an ancestor of `j`.
    pub fn is_ancestor(&self, i: usize, j: usize) -> (res: bool)
        requires
            self.wf(),
            i < self.tins().len(),
            j < self.tins().len(),
        ensures
            res == (self.tins()[i as int] <= self.tins()[j as int] < self.touts()[i as int]),
    {
        self.tin[i] <= self.tin[j] && self.tin[j] < self.tout[i]
    }

    /// Returns the vertices in the order in which they are entered.
    pub fn order(&self) -> (res: Vec<usize>)
        requires
            self.wf(),
        ensures
            res@.len() == self.tins().len(),
            forall|i: int| 0 <= i < self.tins().len() ==> res@[(#[trigger] self.tins()[i]) as int] == i,
    {
        let n = self.tin.len();
        let mut order: Vec<usize> = vec![0; n];
        let mut i: usize = 0;
        while i < n
            invariant
                self.wf(),
                n == self.tin@.len(),
                order@.len() == n,
                i <= n,
                forall|v: int| 0 <= v < i ==> order@[(#[trigger] self.tin@[v]) as int] == v,
            decreases n - i,
        {
            let at = self.tin[i];
            order[at] = i;
            i += 1;
        }
        order
    }

    /// Returns the number of vertices.
    pub fn len(&self) -> (res: usize)
        ensures
            res == self.tins().len(),
    {
        self.tin.len()
    }
}

} // verus!
