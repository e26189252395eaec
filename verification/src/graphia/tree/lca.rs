//! Lowest common ancestors in a rooted tree, found in constant time from
//! the long Euler walk of the tree: the walk that records a vertex when
//! it enters it and again each time it comes back to it from a child.

use vstd::prelude::*;
use vstd::arithmetic::power2::{lemma_pow2_pos, lemma_pow2_unfold, pow2};
use crate::graphia::csr::Csr;
use crate::sparse_table::{
    floor_log2, lemma_cell_index, lemma_floor_log2, lemma_floor_log2_monotone, log2,
};
use crate::graphia::tree::euler_tour::{
    child_tour, children_tour, end_tour, entered, frame_ok, is_tree_from, kids, lemma_child_open,
    lemma_child_skip, lemma_children_suffix, lemma_end_tour_head, lemma_nested_part,
    lemma_tour_head, occurs_in, route_end, route_ok, tour, visited_ok, walk, Frame,
};

verus! {

/// The long walk from `u` on, which the traversal has come to from `p`
/// at depth `d` with `fuel` levels to go: each entry is a vertex with its
/// depth.
pub open spec fn euler<W>(g: Seq<Seq<(usize, W)>>, u: int, p: int, fuel: nat, d: nat) -> Seq<
    (int, nat),
>
    decreases fuel, g[u].len() + 1,
{
    if fuel == 0 {
        Seq::empty()
    } else {
        seq![(u, d)] + children_euler(g, u, p, g[u].len(), fuel, d)
    }
}

/// The part of `euler` for the first `j` neighbours of `u`.
pub open spec fn children_euler<W>(
    g: Seq<Seq<(usize, W)>>,
    u: int,
    p: int,
    j: nat,
    fuel: nat,
    d: nat,
) -> Seq<(int, nat)>
    decreases fuel, j,
{
    if j == 0 || fuel == 0 {
        Seq::empty()
    } else {
        child_euler(g, u, p, (j - 1) as nat, fuel, d) + children_euler(
            g,
            u,
            p,
            (j - 1) as nat,
            fuel,
            d,
        )
    }
}

/// The part of `euler` for neighbour `j` of `u`: the long walk below the
/// neighbour, and `u` again.
pub open spec fn child_euler<W>(
    g: Seq<Seq<(usize, W)>>,
    u: int,
    p: int,
    j: nat,
    fuel: nat,
    d: nat,
) -> Seq<(int, nat)>
    decreases fuel, j, 0nat,
{
    if fuel <= 1 || g[u][j as int].0 == p {
        Seq::empty()
    } else {
        euler(g, g[u][j as int].0 as int, u, (fuel - 1) as nat, d + 1).push((u, d))
    }
}

/// The long walk from `root`.
pub open spec fn long_walk<W>(g: Seq<Seq<(usize, W)>>, root: int) -> Seq<(int, nat)> {
    euler(g, root, g.len() as int, g.len(), 0)
}

/// Where in the long walk from `u` the long walk from the end of `route`
/// begins.
pub open spec fn route_pos<W>(
    g: Seq<Seq<(usize, W)>>,
    u: int,
    pu: int,
    fu: nat,
    d: nat,
    route: Seq<int>,
) -> int
    decreases route.len(),
{
    if route.len() == 0 {
        0
    } else {
        1 + children_euler(g, u, pu, g[u].len(), fu, d).len() - children_euler(
            g,
            u,
            pu,
            (route[0] + 1) as nat,
            fu,
            d,
        ).len() + route_pos(
            g,
            g[u][route[0]].0 as int,
            u,
            (fu - 1) as nat,
            d + 1,
            route.drop_first(),
        )
    }
}

/// The long walk from the end of `route` on.
pub open spec fn end_euler<W>(
    g: Seq<Seq<(usize, W)>>,
    u: int,
    pu: int,
    fu: nat,
    d: nat,
    route: Seq<int>,
) -> Seq<(int, nat)> {
    euler(
        g,
        route_end(g, u, pu, route).0,
        route_end(g, u, pu, route).1,
        (fu - route.len()) as nat,
        d + route.len(),
    )
}

/// A long walk that may go at least one level deep begins with the vertex
/// it starts from.
pub proof fn lemma_euler_head<W>(g: Seq<Seq<(usize, W)>>, u: int, p: int, fuel: nat, d: nat)
    requires
        fuel >= 1,
    ensures
        euler(g, u, p, fuel, d).len() == 1 + children_euler(g, u, p, g[u].len(), fuel, d).len(),
        euler(g, u, p, fuel, d)[0] == (u, d),
        euler(g, u, p, fuel, d).subrange(1, euler(g, u, p, fuel, d).len() as int)
            == children_euler(g, u, p, g[u].len(), fuel, d),
{
    let rest = children_euler(g, u, p, g[u].len(), fuel, d);
    assert((seq![(u, d)] + rest).subrange(1, rest.len() as int + 1) =~= rest);
}

/// The long walk has two entries for every vertex but the first.
pub proof fn lemma_euler_len<W>(g: Seq<Seq<(usize, W)>>, u: int, p: int, fuel: nat, d: nat)
    requires
        fuel >= 1,
    ensures
        euler(g, u, p, fuel, d).len() + 1 == 2 * tour(g, u, p, fuel).len(),
    decreases fuel, g[u].len() + 1,
{
    lemma_children_euler_len(g, u, p, g[u].len(), fuel, d);
}

/// The part of the long walk for the first `j` neighbours has two entries
/// for every vertex.
pub proof fn lemma_children_euler_len<W>(
    g: Seq<Seq<(usize, W)>>,
    u: int,
    p: int,
    j: nat,
    fuel: nat,
    d: nat,
)
    requires
        fuel >= 1,
    ensures
        children_euler(g, u, p, j, fuel, d).len() == 2 * children_tour(g, u, p, j, fuel).len(),
        j >= 1 ==> child_euler(g, u, p, (j - 1) as nat, fuel, d).len() == 2 * child_tour(
            g,
            u,
            p,
            (j - 1) as nat,
            fuel,
        ).len(),
    decreases fuel, j,
{
    if j > 0 {
        lemma_children_euler_len(g, u, p, (j - 1) as nat, fuel, d);
        let c = g[u][j - 1].0 as int;
        let walked = child_tour(g, u, p, (j - 1) as nat, fuel);
        let recorded = child_euler(g, u, p, (j - 1) as nat, fuel, d);
        if fuel > 1 && c != p {
            lemma_euler_len(g, c, u, (fuel - 1) as nat, d + 1);
            assert(walked == tour(g, c, u, (fuel - 1) as nat));
            assert(recorded.len() == euler(g, c, u, (fuel - 1) as nat, d + 1).len() + 1);
        } else if c != p {
            assert(walked == tour(g, c, u, 0));
            assert(walked.len() == 0);
        }
        assert(recorded.len() == 2 * walked.len());
        assert(children_euler(g, u, p, j, fuel, d) == recorded + children_euler(
            g,
            u,
            p,
            (j - 1) as nat,
            fuel,
            d,
        ));
        assert(children_tour(g, u, p, j, fuel) == walked + children_tour(
            g,
            u,
            p,
            (j - 1) as nat,
            fuel,
        ));
    }
}

/// What the long walk records below the first `j` neighbours ends what it
/// records below the first `k >= j`, and the part for neighbour `j` lies
/// right before.
pub proof fn lemma_children_euler_suffix<W>(
    g: Seq<Seq<(usize, W)>>,
    u: int,
    p: int,
    j: nat,
    k: nat,
    fuel: nat,
    d: nat,
)
    requires
        j <= k,
        fuel >= 1,
    ensures
        children_euler(g, u, p, j, fuel, d).len() <= children_euler(g, u, p, k, fuel, d).len(),
        children_euler(g, u, p, k, fuel, d).subrange(
            children_euler(g, u, p, k, fuel, d).len() - children_euler(g, u, p, j, fuel, d).len(),
            children_euler(g, u, p, k, fuel, d).len() as int,
        ) == children_euler(g, u, p, j, fuel, d),
        children_euler(g, u, p, j + 1, fuel, d) == child_euler(g, u, p, j, fuel, d)
            + children_euler(g, u, p, j, fuel, d),
    decreases k - j,
{
    let all = children_euler(g, u, p, k, fuel, d);
    let part = children_euler(g, u, p, j, fuel, d);
    if j == k {
        assert(all.subrange(0, all.len() as int) =~= all);
    } else {
        lemma_children_euler_suffix(g, u, p, j, (k - 1) as nat, fuel, d);
        let less = children_euler(g, u, p, (k - 1) as nat, fuel, d);
        let first = child_euler(g, u, p, (k - 1) as nat, fuel, d);
        assert(all == first + less);
        assert(all.subrange(all.len() - part.len(), all.len() as int) =~= less.subrange(
            less.len() - part.len(),
            less.len() as int,
        ));
    }
}

/// Where the part for neighbour `j` of `u` lies in the long walk from `u`
/// on, and that the entry before it is `u`.
pub proof fn lemma_child_euler_block<W>(
    g: Seq<Seq<(usize, W)>>,
    u: int,
    p: int,
    j: nat,
    fuel: nat,
    d: nat,
) -> (at: int)
    requires
        fuel >= 1,
        j < g[u].len(),
    ensures
        at == 1 + children_euler(g, u, p, g[u].len(), fuel, d).len() - children_euler(
            g,
            u,
            p,
            j + 1,
            fuel,
            d,
        ).len(),
        1 <= at,
        at + child_euler(g, u, p, j, fuel, d).len() <= euler(g, u, p, fuel, d).len(),
        euler(g, u, p, fuel, d).subrange(at, at + child_euler(g, u, p, j, fuel, d).len())
            == child_euler(g, u, p, j, fuel, d),
        euler(g, u, p, fuel, d)[at - 1] == (u, d),
{
    let whole = euler(g, u, p, fuel, d);
    let all = children_euler(g, u, p, g[u].len(), fuel, d);
    let upto = children_euler(g, u, p, j + 1, fuel, d);
    let part = child_euler(g, u, p, j, fuel, d);
    lemma_euler_head(g, u, p, fuel, d);
    lemma_children_euler_suffix(g, u, p, j + 1, g[u].len(), fuel, d);
    lemma_children_euler_suffix(g, u, p, j, j + 1, fuel, d);
    assert(upto == part + children_euler(g, u, p, j, fuel, d));
    assert(upto.subrange(0, 0 + part.len() as int) =~= part);
    let inner = all.len() - upto.len();
    lemma_nested_part(all, inner, upto, 0, part);
    lemma_nested_part(whole, 1, all, inner, part);
    lemma_before_children(g, u, p, j + 1, fuel, d);
    if inner > 0 {
        assert(whole[inner] == whole.subrange(1, whole.len() as int)[inner - 1]);
    }
    1 + inner
}

/// The entry of the long walk before what it records below the first `j`
/// neighbours of `u` is `u`.
pub proof fn lemma_before_children<W>(
    g: Seq<Seq<(usize, W)>>,
    u: int,
    p: int,
    j: nat,
    fuel: nat,
    d: nat,
)
    requires
        fuel >= 1,
        j <= g[u].len(),
    ensures
        ({
            let all = children_euler(g, u, p, g[u].len(), fuel, d);
            let inner = all.len() - children_euler(g, u, p, j, fuel, d).len();
            0 <= inner && (inner > 0 ==> all[inner - 1] == (u, d))
        }),
    decreases g[u].len() - j,
{
    let all = children_euler(g, u, p, g[u].len(), fuel, d);
    lemma_children_euler_suffix(g, u, p, j, g[u].len(), fuel, d);
    if j < g[u].len() {
        lemma_before_children(g, u, p, j + 1, fuel, d);
        lemma_children_euler_suffix(g, u, p, j + 1, g[u].len(), fuel, d);
        lemma_children_euler_suffix(g, u, p, j, j + 1, fuel, d);
        let more = children_euler(g, u, p, j + 1, fuel, d);
        let part = child_euler(g, u, p, j, fuel, d);
        let outer = all.len() - more.len();
        if part.len() > 0 {
            let last = outer + part.len() - 1;
            assert(all[last] == all.subrange(outer, all.len() as int)[part.len() - 1]);
            assert(more[part.len() - 1] == part[part.len() - 1]);
        }
    }
}

/// The long walk from the end of a route on is a part of the long walk
/// from the start of the route on, and begins at `route_pos`.
pub proof fn lemma_route_pos_block<W>(
    g: Seq<Seq<(usize, W)>>,
    u: int,
    pu: int,
    fu: nat,
    d: nat,
    route: Seq<int>,
)
    requires
        route_ok(g, u, pu, route),
        fu >= route.len() + 1,
    ensures
        0 <= route_pos(g, u, pu, fu, d, route),
        route.len() >= 1 ==> route_pos(g, u, pu, fu, d, route) >= 1,
        end_euler(g, u, pu, fu, d, route).len() >= 1,
        end_euler(g, u, pu, fu, d, route)[0] == (
            route_end(g, u, pu, route).0,
            d + route.len(),
        ),
        route_pos(g, u, pu, fu, d, route) + end_euler(g, u, pu, fu, d, route).len() <= euler(
            g,
            u,
            pu,
            fu,
            d,
        ).len(),
        euler(g, u, pu, fu, d).subrange(
            route_pos(g, u, pu, fu, d, route),
            route_pos(g, u, pu, fu, d, route) + end_euler(g, u, pu, fu, d, route).len(),
        ) == end_euler(g, u, pu, fu, d, route),
    decreases route.len(),
{
    let whole = euler(g, u, pu, fu, d);
    let part = end_euler(g, u, pu, fu, d, route);
    lemma_euler_head(
        g,
        route_end(g, u, pu, route).0,
        route_end(g, u, pu, route).1,
        (fu - route.len()) as nat,
        d + route.len(),
    );
    if route.len() == 0 {
        assert(whole.subrange(0, 0 + part.len() as int) =~= part);
    } else {
        let j = route[0] as nat;
        let c = g[u][route[0]].0 as int;
        let rest = route.drop_first();
        lemma_route_pos_block(g, c, u, (fu - 1) as nat, d + 1, rest);
        let mid = euler(g, c, u, (fu - 1) as nat, d + 1);
        let both = child_euler(g, u, pu, j, fu, d);
        assert(both == mid.push((u, d)));
        let first = lemma_child_euler_block(g, u, pu, j, fu, d);
        assert(both.subrange(0, 0 + mid.len() as int) =~= mid);
        lemma_nested_part(whole, first, both, 0, mid);
        assert(end_euler(g, c, u, (fu - 1) as nat, d + 1, rest) == part);
        lemma_nested_part(whole, first, mid, route_pos(g, c, u, (fu - 1) as nat, d + 1, rest), part);
    }
}

/// Where the long walk below a neighbour of the end of a route begins.
pub proof fn lemma_route_pos_push<W>(
    g: Seq<Seq<(usize, W)>>,
    u: int,
    pu: int,
    fu: nat,
    d: nat,
    route: Seq<int>,
    j: int,
)
    requires
        route_ok(g, u, pu, route),
        fu >= route.len() + 1,
        0 <= j,
    ensures
        ({
            let e = route_end(g, u, pu, route);
            let f = (fu - route.len()) as nat;
            let depth = d + route.len();
            route_pos(g, u, pu, fu, d, route.push(j)) == route_pos(g, u, pu, fu, d, route) + 1
                + children_euler(g, e.0, e.1, g[e.0].len(), f, depth).len() - children_euler(
                g,
                e.0,
                e.1,
                (j + 1) as nat,
                f,
                depth,
            ).len()
        }),
    decreases route.len(),
{
    let longer = route.push(j);
    if route.len() == 0 {
        assert(longer.drop_first() =~= Seq::<int>::empty());
        assert(route_pos(g, g[u][j].0 as int, u, (fu - 1) as nat, d + 1, longer.drop_first()) == 0);
    } else {
        let c = g[u][route[0]].0 as int;
        lemma_route_pos_push(g, c, u, (fu - 1) as nat, d + 1, route.drop_first(), j);
        assert(longer.drop_first() =~= route.drop_first().push(j));
        assert(longer[0] == route[0]);
    }
}

/// No entry of the long walk from `u` on is less deep than `u`, and the
/// entries as deep as `u` are `u`.
pub proof fn lemma_depths<W>(g: Seq<Seq<(usize, W)>>, u: int, p: int, fuel: nat, d: nat, x: int)
    requires
        0 <= x < euler(g, u, p, fuel, d).len(),
    ensures
        euler(g, u, p, fuel, d)[x].1 >= d,
        euler(g, u, p, fuel, d)[x].1 == d ==> euler(g, u, p, fuel, d)[x].0 == u,
    decreases fuel, g[u].len() + 1,
{
    if x > 0 {
        lemma_children_depths(g, u, p, g[u].len(), fuel, d, x - 1);
    }
}

/// The same of the part for the first `j` neighbours of `u`.
pub proof fn lemma_children_depths<W>(
    g: Seq<Seq<(usize, W)>>,
    u: int,
    p: int,
    j: nat,
    fuel: nat,
    d: nat,
    x: int,
)
    requires
        0 <= x < children_euler(g, u, p, j, fuel, d).len(),
    ensures
        children_euler(g, u, p, j, fuel, d)[x].1 >= d,
        children_euler(g, u, p, j, fuel, d)[x].1 == d ==> children_euler(g, u, p, j, fuel, d)[x].0
            == u,
    decreases fuel, j,
{
    let first = child_euler(g, u, p, (j - 1) as nat, fuel, d);
    let rest = children_euler(g, u, p, (j - 1) as nat, fuel, d);
    assert(children_euler(g, u, p, j, fuel, d) == first + rest);
    if x < first.len() {
        let c = g[u][j - 1].0 as int;
        let below = euler(g, c, u, (fuel - 1) as nat, d + 1);
        assert(first == below.push((u, d)));
        if x < below.len() {
            lemma_depths(g, c, u, (fuel - 1) as nat, d + 1, x);
        }
    } else {
        lemma_children_depths(g, u, p, (j - 1) as nat, fuel, d, x - first.len());
    }
}

/// The longest sequence that both `a` and `b` begin with.
pub open spec fn common_prefix(a: Seq<int>, b: Seq<int>) -> Seq<int>
    decreases a.len(),
{
    if a.len() == 0 || b.len() == 0 || a[0] != b[0] {
        Seq::empty()
    } else {
        seq![a[0]] + common_prefix(a.drop_first(), b.drop_first())
    }
}

/// The common prefix does not depend on the order of the two sequences,
/// and both begin with it.
pub proof fn lemma_common_prefix(a: Seq<int>, b: Seq<int>)
    ensures
        common_prefix(a, b) == common_prefix(b, a),
        common_prefix(a, b).len() <= a.len(),
        common_prefix(a, b) == a.take(common_prefix(a, b).len() as int),
    decreases a.len(),
{
    let c = common_prefix(a, b);
    if a.len() == 0 || b.len() == 0 || a[0] != b[0] {
        assert(a.take(0) =~= Seq::<int>::empty());
    } else {
        lemma_common_prefix(a.drop_first(), b.drop_first());
        let rest = common_prefix(a.drop_first(), b.drop_first());
        assert(a.take(c.len() as int) =~= seq![a[0]] + a.drop_first().take(rest.len() as int));
    }
}

/// Between the places at which the long walk enters the ends of two
/// routes it is nowhere less deep than the end of their common prefix,
/// it is as deep only at that end, and it comes to that end: at the place
/// that the lemma returns.
pub proof fn lemma_between<W>(
    g: Seq<Seq<(usize, W)>>,
    u: int,
    pu: int,
    fu: nat,
    d: nat,
    ri: Seq<int>,
    rj: Seq<int>,
) -> (at: int)
    requires
        route_ok(g, u, pu, ri),
        route_ok(g, u, pu, rj),
        fu >= ri.len() + 1,
        fu >= rj.len() + 1,
        route_pos(g, u, pu, fu, d, ri) <= route_pos(g, u, pu, fu, d, rj),
    ensures
        ({
            let all = euler(g, u, pu, fu, d);
            let lo = route_pos(g, u, pu, fu, d, ri);
            let hi = route_pos(g, u, pu, fu, d, rj);
            let c = common_prefix(ri, rj);
            &&& 0 <= lo <= at <= hi < all.len()
            &&& all[at].1 == d + c.len()
            &&& forall|x: int|
                lo <= x <= hi ==> (#[trigger] all[x]).1 >= d + c.len() && (all[x].1 == d + c.len()
                    ==> all[x].0 == route_end(g, u, pu, c).0)
        }),
    decreases ri.len(),
{
    let all = euler(g, u, pu, fu, d);
    let lo = route_pos(g, u, pu, fu, d, ri);
    let hi = route_pos(g, u, pu, fu, d, rj);
    let c = common_prefix(ri, rj);
    lemma_route_pos_block(g, u, pu, fu, d, ri);
    lemma_route_pos_block(g, u, pu, fu, d, rj);
    lemma_euler_head(g, u, pu, fu, d);
    if ri.len() == 0 || rj.len() == 0 || ri[0] != rj[0] {
        assert forall|x: int| lo <= x <= hi implies (#[trigger] all[x]).1 >= d + c.len() && (
        all[x].1 == d + c.len() ==> all[x].0 == route_end(g, u, pu, c).0) by {
            lemma_depths(g, u, pu, fu, d, x);
        }
        if ri.len() == 0 {
            0
        } else {
            // The two routes part at `u`: below different neighbours.
            let ji = ri[0] as nat;
            let jj = rj[0] as nat;
            let ci = g[u][ri[0]].0 as int;
            let cj = g[u][rj[0]].0 as int;
            let base_i = lemma_child_euler_block(g, u, pu, ji, fu, d);
            let base_j = lemma_child_euler_block(g, u, pu, jj, fu, d);
            let below_i = euler(g, ci, u, (fu - 1) as nat, d + 1);
            let below_j = euler(g, cj, u, (fu - 1) as nat, d + 1);
            lemma_route_pos_block(g, ci, u, (fu - 1) as nat, d + 1, ri.drop_first());
            lemma_route_pos_block(g, cj, u, (fu - 1) as nat, d + 1, rj.drop_first());
            let part = child_euler(g, u, pu, ji, fu, d);
            assert(part == below_i.push((u, d)));
            assert(child_euler(g, u, pu, jj, fu, d) == below_j.push((u, d)));
            if ji < jj {
                lemma_children_euler_suffix(g, u, pu, ji + 1, jj, fu, d);
                lemma_children_euler_suffix(g, u, pu, jj, jj + 1, fu, d);
            } else {
                lemma_children_euler_suffix(g, u, pu, jj + 1, ji, fu, d);
                lemma_children_euler_suffix(g, u, pu, ji, ji + 1, fu, d);
            }
            let back = base_i + below_i.len();
            assert(all[back] == all.subrange(base_i, base_i + part.len())[below_i.len() as int]);
            back
        }
    } else {
        let j = ri[0] as nat;
        let cc = g[u][ri[0]].0 as int;
        let below = euler(g, cc, u, (fu - 1) as nat, d + 1);
        let both = child_euler(g, u, pu, j, fu, d);
        let base = lemma_child_euler_block(g, u, pu, j, fu, d);
        let inner = lemma_between(g, cc, u, (fu - 1) as nat, d + 1, ri.drop_first(), rj.drop_first());
        assert(both == below.push((u, d)));
        assert(both.subrange(0, 0 + below.len() as int) =~= below);
        lemma_nested_part(all, base, both, 0, below);
        let rest = common_prefix(ri.drop_first(), rj.drop_first());
        assert(c.drop_first() =~= rest);
        assert(route_end(g, u, pu, c) == route_end(g, cc, u, rest));
        assert forall|x: int| lo <= x <= hi implies (#[trigger] all[x]).1 >= d + c.len() && (
        all[x].1 == d + c.len() ==> all[x].0 == route_end(g, u, pu, c).0) by {
            assert(all[x] == all.subrange(base, base + below.len())[x - base]);
            assert(below[x - base].1 >= d + 1 + rest.len());
        }
        assert(all[base + inner] == all.subrange(base, base + below.len())[inner]);
        base + inner
    }
}

/// An entry of the stack of the traversal.  One that waits for its vertex
/// to be entered stands for the walk and the long walk from the vertex
/// on, which begin at `at` and at `pos`; one that waits for the traversal
/// to come back to its vertex stands for one entry of the long walk, at
/// `pos`.
pub ghost struct Stop {
    pub v: int,
    pub route: Seq<int>,
    pub back: bool,
    pub at: int,
    pub pos: int,
}

/// The length of the part of the walk that `s` stands for.
pub open spec fn walk_share<W>(g: Seq<Seq<(usize, W)>>, root: int, s: Stop) -> nat {
    if s.back {
        0
    } else {
        end_tour(g, root, g.len() as int, g.len(), s.route).len()
    }
}

/// The length of the part of the long walk that `s` stands for.
pub open spec fn long_share<W>(g: Seq<Seq<(usize, W)>>, root: int, s: Stop) -> nat {
    if s.back {
        1
    } else {
        end_euler(g, root, g.len() as int, g.len(), 0, s.route).len()
    }
}

/// What the long walk records below the first `j` neighbours of the end
/// of `route`.
pub open spec fn long_kids<W>(g: Seq<Seq<(usize, W)>>, root: int, route: Seq<int>, j: nat) -> Seq<
    (int, nat),
> {
    let e = route_end(g, root, g.len() as int, route);
    children_euler(g, e.0, e.1, j, (g.len() - route.len()) as nat, route.len())
}

/// What holds of every entry of the stack; `pre` tells when each vertex
/// was entered, counting vertices, and `routes` by which route.
pub open spec fn stop_ok<W>(
    g: Seq<Seq<(usize, W)>>,
    root: int,
    pre: Seq<usize>,
    routes: Seq<Seq<int>>,
    s: Stop,
) -> bool {
    let n = g.len() as int;
    let all = long_walk(g, root);
    let e = route_end(g, root, n, s.route);
    if s.back {
        &&& 0 <= s.v < n
        &&& pre[s.v] != usize::MAX
        &&& routes[s.v] == s.route
        &&& 0 <= s.at <= n
        &&& 0 <= s.pos < all.len()
        &&& all[s.pos] == (s.v, s.route.len())
    } else {
        &&& frame_ok(g, root, pre, Frame { v: s.v, route: s.route, marker: false, at: s.at })
        &&& s.pos == route_pos(g, root, n, g.len(), 0, s.route)
        &&& s.route.len() > 0 ==> {
            &&& s.pos >= 1
            &&& all[s.pos - 1].1 + 1 == s.route.len()
            &&& 0 <= e.1 < n
            &&& pre[e.1] != usize::MAX
            &&& routes[e.1] == s.route.drop_last()
        }
    }
}

/// The stack holds the vertices of `stops`, whose shares make up the walk
/// from `t` on and the long walk from `p` on, the share of the topmost
/// entry first.
#[verifier::opaque]
pub open spec fn stops_ok<W>(
    g: Seq<Seq<(usize, W)>>,
    root: int,
    pre: Seq<usize>,
    routes: Seq<Seq<int>>,
    stack: Seq<(usize, bool)>,
    stops: Seq<Stop>,
    t: int,
    p: int,
) -> bool {
    &&& stack.len() == stops.len()
    &&& forall|k: int|
        0 <= k < stops.len() ==> stack[k] == ((#[trigger] stops[k]).v as usize, stops[k].back)
            && stop_ok(g, root, pre, routes, stops[k])
    &&& forall|k: int|
        1 <= k < stops.len() ==> stops[k - 1].at == (#[trigger] stops[k]).at + walk_share(
            g,
            root,
            stops[k],
        ) && stops[k - 1].pos == stops[k].pos + long_share(g, root, stops[k])
    &&& stops.len() > 0 ==> {
        &&& stops[0].at + walk_share(g, root, stops[0]) == g.len()
        &&& stops[0].pos + long_share(g, root, stops[0]) == long_walk(g, root).len()
        &&& stops.last().at == t
        &&& stops.last().pos == p
    }
    &&& stops.len() == 0 ==> t == g.len() && p == long_walk(g, root).len()
}

/// What is known of a vertex that has been entered: the route by which
/// the traversal came to it, the place of the long walk at which it
/// entered it, and that the vertex before it on the route was entered by
/// the route without its last step.
pub open spec fn known<W>(
    g: Seq<Seq<(usize, W)>>,
    root: int,
    pre: Seq<usize>,
    routes: Seq<Seq<int>>,
    tin: Seq<usize>,
    p: int,
    v: int,
) -> bool {
    let n = g.len() as int;
    let e = route_end(g, root, n, routes[v]);
    &&& tin[v] < p
    &&& tin[v] == route_pos(g, root, n, g.len(), 0, routes[v])
    &&& route_ok(g, root, n, routes[v])
    &&& e.0 == v
    &&& routes[v].len() < n
    &&& routes[v].len() > 0 ==> 0 <= e.1 < n && pre[e.1] != usize::MAX && routes[e.1]
        == routes[v].drop_last()
}

/// The arrays hold the long walk as far as the traversal has come, and
/// what is known of the vertices entered so far.
#[verifier::opaque]
pub open spec fn recorded<W>(
    g: Seq<Seq<(usize, W)>>,
    root: int,
    pre: Seq<usize>,
    routes: Seq<Seq<int>>,
    tin: Seq<usize>,
    tour: Seq<usize>,
    depth: Seq<usize>,
) -> bool {
    let n = g.len() as int;
    let all = long_walk(g, root);
    &&& pre.len() == n
    &&& routes.len() == n
    &&& tin.len() == n
    &&& tour.len() == depth.len()
    &&& tour.len() <= all.len()
    &&& forall|x: int| 0 <= x < tour.len() ==> (#[trigger] tour[x]) == all[x].0
    &&& forall|x: int| 0 <= x < tour.len() ==> (#[trigger] depth[x]) == all[x].1
    &&& forall|v: int| 0 <= v < n ==> ((#[trigger] tin[v]) == usize::MAX <==> pre[v] == usize::MAX)
    &&& forall|v: int|
        0 <= v < n && (#[trigger] pre[v]) != usize::MAX ==> known(
            g,
            root,
            pre,
            routes,
            tin,
            tour.len() as int,
            v,
        )
}

/// The long walk from the root has one entry less than twice the number
/// of vertices.
pub proof fn lemma_long_walk_len<W>(g: Seq<Seq<(usize, W)>>, root: int)
    requires
        is_tree_from(g, root),
    ensures
        long_walk(g, root).len() + 1 == 2 * g.len(),
{
    lemma_euler_len(g, root, g.len() as int, g.len(), 0);
}

/// Before the first step the stack holds the root, which stands for the
/// whole of both walks.
pub proof fn lemma_long_start<W>(
    g: Seq<Seq<(usize, W)>>,
    root: usize,
    pre: Seq<usize>,
    routes: Seq<Seq<int>>,
)
    requires
        is_tree_from(g, root as int),
        pre.len() == g.len(),
        routes.len() == g.len(),
        forall|v: int| 0 <= v < g.len() ==> pre[v] == usize::MAX,
    ensures
        stops_ok(
            g,
            root as int,
            pre,
            routes,
            seq![(root, false)],
            seq![Stop { v: root as int, route: Seq::empty(), back: false, at: 0, pos: 0 }],
            0,
            0,
        ),
        visited_ok(g, root as int, pre, 0),
        recorded(g, root as int, pre, routes, pre, Seq::empty(), Seq::empty()),
{
    reveal(stops_ok);
    reveal(recorded);
    let s = Stop { v: root as int, route: Seq::empty(), back: false, at: 0, pos: 0 };
    let fr = Frame { v: root as int, route: Seq::empty(), marker: false, at: 0 };
    let t = walk(g, root as int);
    assert(end_tour(g, root as int, g.len() as int, g.len(), fr.route) == t);
    assert(t.subrange(0, 0 + t.len() as int) =~= t);
    assert(frame_ok(g, root as int, pre, fr));
    assert(stop_ok(g, root as int, pre, routes, s));
}

/// The entries below the top of the stack stand for parts of the walk
/// that begin after the share of the top.
pub proof fn lemma_stops_layout<W>(
    g: Seq<Seq<(usize, W)>>,
    root: int,
    pre: Seq<usize>,
    routes: Seq<Seq<int>>,
    stack: Seq<(usize, bool)>,
    stops: Seq<Stop>,
    t: int,
    p: int,
    k: int,
)
    requires
        stops_ok(g, root, pre, routes, stack, stops, t, p),
        0 <= k < stops.len() - 1,
    ensures
        stops[k].at >= t + walk_share(g, root, stops.last()),
    decreases stops.len() - k,
{
    reveal(stops_ok);
    reveal(recorded);
    let next = stops[k + 1];
    if k + 1 < stops.len() - 1 {
        lemma_stops_layout(g, root, pre, routes, stack, stops, t, p, k + 1);
    }
}

/// The step that enters the vertex on top of the stack: the vertex is the
/// next of the walk and of the long walk, one level below the entry
/// before it.
pub proof fn lemma_long_enter<W>(
    g: Seq<Seq<(usize, W)>>,
    root: int,
    pre: Seq<usize>,
    routes: Seq<Seq<int>>,
    tin: Seq<usize>,
    tour: Seq<usize>,
    depth: Seq<usize>,
    stack: Seq<(usize, bool)>,
    stops: Seq<Stop>,
    t: int,
)
    requires
        is_tree_from(g, root),
        2 * g.len() <= usize::MAX,
        visited_ok(g, root, pre, t),
        recorded(g, root, pre, routes, tin, tour, depth),
        stops_ok(g, root, pre, routes, stack, stops, t, tour.len() as int),
        stops.len() > 0,
        !stops.last().back,
    ensures
        ({
            let s = stops.last();
            let p = tour.len() as int;
            let pre2 = pre.update(s.v, t as usize);
            let wend = t + walk_share(g, root, s);
            let eend = p + long_share(g, root, s);
            &&& stop_ok(g, root, pre, routes, s)
            &&& t < g.len()
            &&& 0 <= s.v < g.len()
            &&& pre[s.v] == usize::MAX
            &&& walk(g, root)[t] == s.v
            &&& p < long_walk(g, root).len()
            &&& long_walk(g, root)[p] == (s.v, s.route.len())
            &&& s.route.len() < g.len()
            &&& s.route.len() > 0 ==> p >= 1 && depth[p - 1] + 1 == s.route.len()
            &&& s.route.len() == 0 ==> p == 0
            &&& route_end(g, root, g.len() as int, s.route).0 == s.v
            &&& visited_ok(g, root, pre2, t + 1)
            &&& entered(g, root, pre2, t + 1, s.route, wend)
            &&& eend == route_pos(g, root, g.len() as int, g.len(), 0, s.route) + end_euler(
                g,
                root,
                g.len() as int,
                g.len(),
                0,
                s.route,
            ).len()
            &&& eend <= long_walk(g, root).len()
        }),
{
    reveal(stops_ok);
    reveal(recorded);
    let n = g.len() as int;
    let flat = walk(g, root);
    let all = long_walk(g, root);
    let top = stops.len() - 1;
    let s = stops[top];
    let u = s.v;
    let p = tour.len() as int;
    let pre2 = pre.update(u, t as usize);
    let wend = t + walk_share(g, root, s);
    let eend = p + long_share(g, root, s);
    assert(stop_ok(g, root, pre, routes, s));
    lemma_long_walk_len(g, root);
    lemma_end_tour_head(g, root, n, g.len(), s.route);
    lemma_route_pos_block(g, root, n, g.len(), 0, s.route);
    assert(flat[t] == flat.subrange(t, wend)[0]);
    assert(flat[t] == u);
    assert(all[p] == all.subrange(p, eend)[0]);
    assert forall|k: int| 0 <= k < t + 1 implies pre2[#[trigger] flat[k]] == k by {
        if k < t {
            assert(pre[flat[k]] == k);
        }
    }
    if s.route.len() > 0 {
        assert(depth[p - 1] == all[p - 1].1);
    }
}

/// After the step that enters the vertex on top of the stack, the rest of
/// the stack stands for what follows the walks below that vertex.
pub proof fn lemma_long_enter_stops<W>(
    g: Seq<Seq<(usize, W)>>,
    root: int,
    pre: Seq<usize>,
    routes: Seq<Seq<int>>,
    stack: Seq<(usize, bool)>,
    stops: Seq<Stop>,
    t: int,
    p: int,
)
    requires
        is_tree_from(g, root),
        visited_ok(g, root, pre, t),
        routes.len() == g.len(),
        stops_ok(g, root, pre, routes, stack, stops, t, p),
        stops.len() > 0,
        !stops.last().back,
        t < g.len(),
        walk(g, root)[t] == stops.last().v,
    ensures
        stops_ok(
            g,
            root,
            pre.update(stops.last().v, t as usize),
            routes.update(stops.last().v, stops.last().route),
            stack.drop_last(),
            stops.drop_last(),
            t + walk_share(g, root, stops.last()),
            p + long_share(g, root, stops.last()),
        ),
{
    reveal(stops_ok);
    reveal(recorded);
    let n = g.len() as int;
    let flat = walk(g, root);
    let top = stops.len() - 1;
    let s = stops[top];
    let u = s.v;
    let pre2 = pre.update(u, t as usize);
    let routes2 = routes.update(u, s.route);
    let stops2 = stops.drop_last();
    assert(stop_ok(g, root, pre, routes, s));
    assert forall|k: int| 0 <= k < stops2.len() implies stack.drop_last()[k] == (
        (#[trigger] stops2[k]).v as usize,
        stops2[k].back,
    ) && stop_ok(g, root, pre2, routes2, stops2[k]) by {
        let other = stops[k];
        assert(stops2[k] == other);
        assert(stop_ok(g, root, pre, routes, other));
        if !other.back {
            lemma_stops_layout(g, root, pre, routes, stack, stops, t, p, k);
            lemma_end_tour_head(g, root, n, g.len(), other.route);
            assert(flat[other.at] == flat.subrange(
                other.at,
                other.at + walk_share(g, root, other),
            )[0]);
            assert(flat[t] != flat[other.at]);
            assert(other.v != u);
            let fr = Frame { v: other.v, route: other.route, marker: false, at: other.at };
            assert(frame_ok(g, root, pre, fr));
            assert(frame_ok(g, root, pre2, fr));
        }
    }
    assert forall|k: int| 1 <= k < stops2.len() implies stops2[k - 1].at == (
    #[trigger] stops2[k]).at + walk_share(g, root, stops2[k]) && stops2[k - 1].pos
        == stops2[k].pos + long_share(g, root, stops2[k]) by {
        assert(stops[k - 1].at == stops[k].at + walk_share(g, root, stops[k]));
    }
    if top > 0 {
        assert(stops[top - 1].at == stops[top].at + walk_share(g, root, stops[top]));
        assert(stops2[0] == stops[0]);
    }
}

/// After the step that enters the vertex on top of the stack, the arrays
/// hold one more entry of the long walk, and the vertex is known.
pub proof fn lemma_long_enter_recorded<W>(
    g: Seq<Seq<(usize, W)>>,
    root: int,
    pre: Seq<usize>,
    routes: Seq<Seq<int>>,
    tin: Seq<usize>,
    tour: Seq<usize>,
    depth: Seq<usize>,
    s: Stop,
    t: int,
)
    requires
        2 * g.len() <= usize::MAX,
        0 <= t < g.len(),
        recorded(g, root, pre, routes, tin, tour, depth),
        stop_ok(g, root, pre, routes, s),
        !s.back,
        s.pos == tour.len(),
        tour.len() < long_walk(g, root).len(),
        long_walk(g, root)[tour.len() as int] == (s.v, s.route.len()),
        long_walk(g, root).len() + 1 == 2 * g.len(),
    ensures
        recorded(
            g,
            root,
            pre.update(s.v, t as usize),
            routes.update(s.v, s.route),
            tin.update(s.v, tour.len() as usize),
            tour.push(s.v as usize),
            depth.push(s.route.len() as usize),
        ),
{
    reveal(stops_ok);
    reveal(recorded);
    let n = g.len() as int;
    let all = long_walk(g, root);
    let u = s.v;
    let p = tour.len() as int;
    let pre2 = pre.update(u, t as usize);
    let routes2 = routes.update(u, s.route);
    let tin2 = tin.update(u, p as usize);
    let tour2 = tour.push(u as usize);
    let depth2 = depth.push(s.route.len() as usize);
    let fr = Frame { v: s.v, route: s.route, marker: false, at: s.at };
    assert(frame_ok(g, root, pre, fr));
    assert forall|x: int| 0 <= x < tour2.len() implies (#[trigger] tour2[x]) == all[x].0 by {
        if x < p {
            assert(tour[x] == all[x].0);
        }
    }
    assert forall|x: int| 0 <= x < tour2.len() implies (#[trigger] depth2[x]) == all[x].1 by {
        if x < p {
            assert(depth[x] == all[x].1);
        }
    }
    assert forall|v: int| 0 <= v < n && (#[trigger] pre2[v]) != usize::MAX implies known(
        g,
        root,
        pre2,
        routes2,
        tin2,
        p + 1,
        v,
    ) by {
        if v != u {
            assert(pre[v] != usize::MAX);
            assert(known(g, root, pre, routes, tin, p, v));
        }
    }
    assert forall|v: int| 0 <= v < n implies ((#[trigger] tin2[v]) == usize::MAX <==> pre2[v]
        == usize::MAX) by {
        if v != u {
            assert(tin[v] == usize::MAX <==> pre[v] == usize::MAX);
        }
    }
}

/// The step that pushes a neighbour that has not been entered, below an
/// entry for the vertex that the traversal will come back to.
pub proof fn lemma_long_push<W>(
    g: Seq<Seq<(usize, W)>>,
    root: int,
    pre: Seq<usize>,
    routes: Seq<Seq<int>>,
    stack: Seq<(usize, bool)>,
    stops: Seq<Stop>,
    t: int,
    route: Seq<int>,
    wend: int,
    eend: int,
    j: nat,
)
    requires
        is_tree_from(g, root),
        2 * g.len() <= usize::MAX,
        visited_ok(g, root, pre, t),
        entered(g, root, pre, t, route, wend),
        routes.len() == g.len(),
        routes[route_end(g, root, g.len() as int, route).0] == route,
        eend == route_pos(g, root, g.len() as int, g.len(), 0, route) + end_euler(
            g,
            root,
            g.len() as int,
            g.len(),
            0,
            route,
        ).len(),
        j < g[route_end(g, root, g.len() as int, route).0].len(),
        g[route_end(g, root, g.len() as int, route).0][j as int].0 < g.len(),
        pre[g[route_end(g, root, g.len() as int, route).0][j as int].0 as int] == usize::MAX,
        stops_ok(
            g,
            root,
            pre,
            routes,
            stack,
            stops,
            wend - kids(g, root, route, j).len(),
            eend - long_kids(g, root, route, j).len(),
        ),
    ensures
        ({
            let u = route_end(g, root, g.len() as int, route).0;
            let c = g[u][j as int].0;
            let back = Stop {
                v: u,
                route,
                back: true,
                at: wend - kids(g, root, route, j).len(),
                pos: eend - long_kids(g, root, route, j).len() - 1,
            };
            let child = Stop {
                v: c as int,
                route: route.push(j as int),
                back: false,
                at: wend - kids(g, root, route, j + 1).len(),
                pos: eend - long_kids(g, root, route, j + 1).len(),
            };
            stops_ok(
                g,
                root,
                pre,
                routes,
                stack.push((u as usize, true)).push((c, false)),
                stops.push(back).push(child),
                child.at,
                child.pos,
            )
        }),
{
    reveal(stops_ok);
    reveal(recorded);
    let n = g.len() as int;
    let all = long_walk(g, root);
    let e = route_end(g, root, n, route);
    let u = e.0;
    let p = e.1;
    let f = (n - route.len()) as nat;
    let d = route.len();
    let c = g[u][j as int].0;
    let back = Stop {
        v: u,
        route,
        back: true,
        at: wend - kids(g, root, route, j).len(),
        pos: eend - long_kids(g, root, route, j).len() - 1,
    };
    let child = Stop {
        v: c as int,
        route: route.push(j as int),
        back: false,
        at: wend - kids(g, root, route, j + 1).len(),
        pos: eend - long_kids(g, root, route, j + 1).len(),
    };
    let stack2 = stack.push((u as usize, true)).push((c, false));
    let stops2 = stops.push(back).push(child);
    lemma_child_open(g, root, pre, t, route, wend, j);
    let here = euler(g, u, p, f, d);
    let below = euler(g, c as int, u, (f - 1) as nat, d + 1);
    let part = child_euler(g, u, p, j, f, d);
    assert(part == below.push((u, d as nat)));
    lemma_children_euler_suffix(g, u, p, j, j + 1, f, d);
    lemma_route_pos_block(g, root, n, g.len(), 0, route);
    lemma_euler_head(g, u, p, f, d);
    let rp = route_pos(g, root, n, g.len(), 0, route);
    let base = lemma_child_euler_block(g, u, p, j, f, d);
    lemma_route_pos_push(g, root, n, g.len(), 0, route, j as int);
    assert(child.pos == rp + base);
    assert(all[rp + base - 1] == all.subrange(rp, rp + here.len())[base - 1]);
    assert(all[back.pos] == all.subrange(rp, rp + here.len())[base + below.len()]);
    assert(here[base + below.len()] == here.subrange(base, base + part.len())[below.len() as int]);
    assert(route.push(j as int).drop_last() =~= route);
    assert(stop_ok(g, root, pre, routes, back));
    assert(stop_ok(g, root, pre, routes, child));
    assert(walk_share(g, root, child) + kids(g, root, route, j).len() == kids(
        g,
        root,
        route,
        j + 1,
    ).len());
    assert(long_share(g, root, child) == below.len());
    assert forall|k: int| 0 <= k < stops2.len() implies stack2[k] == (
        (#[trigger] stops2[k]).v as usize,
        stops2[k].back,
    ) && stop_ok(g, root, pre, routes, stops2[k]) by {
        if k < stops.len() {
            assert(stops2[k] == stops[k]);
        }
    }
    assert forall|k: int| 1 <= k < stops2.len() implies stops2[k - 1].at == (
    #[trigger] stops2[k]).at + walk_share(g, root, stops2[k]) && stops2[k - 1].pos
        == stops2[k].pos + long_share(g, root, stops2[k]) by {
        if k < stops.len() {
            assert(stops[k - 1].at == stops[k].at + walk_share(g, root, stops[k]));
        }
    }
    if stops.len() > 0 {
        assert(stops2[0] == stops[0]);
    }
}

/// The traversal records nothing below a neighbour that has been entered
/// before.
pub proof fn lemma_long_skip<W>(
    g: Seq<Seq<(usize, W)>>,
    root: int,
    pre: Seq<usize>,
    t: int,
    route: Seq<int>,
    wend: int,
    j: nat,
)
    requires
        is_tree_from(g, root),
        visited_ok(g, root, pre, t),
        entered(g, root, pre, t, route, wend),
        j < g[route_end(g, root, g.len() as int, route).0].len(),
        g[route_end(g, root, g.len() as int, route).0][j as int].0 < g.len(),
        pre[g[route_end(g, root, g.len() as int, route).0][j as int].0 as int] != usize::MAX,
    ensures
        kids(g, root, route, j + 1) == kids(g, root, route, j),
        long_kids(g, root, route, j + 1) == long_kids(g, root, route, j),
{
    let n = g.len() as int;
    let e = route_end(g, root, n, route);
    let f = (n - route.len()) as nat;
    lemma_child_skip(g, root, pre, t, route, wend, j);
    lemma_children_suffix(g, e.0, e.1, j, j + 1, f);
    lemma_children_euler_suffix(g, e.0, e.1, j, j + 1, f, route.len());
    lemma_children_euler_len(g, e.0, e.1, j + 1, f, route.len());
    assert(long_kids(g, root, route, j + 1) =~= long_kids(g, root, route, j));
}

/// The step that comes back to a vertex: the long walk records the
/// vertex again, at the depth at which it entered it.
pub proof fn lemma_long_back<W>(
    g: Seq<Seq<(usize, W)>>,
    root: int,
    pre: Seq<usize>,
    routes: Seq<Seq<int>>,
    tin: Seq<usize>,
    tour: Seq<usize>,
    depth: Seq<usize>,
    stack: Seq<(usize, bool)>,
    stops: Seq<Stop>,
    t: int,
)
    requires
        2 * g.len() <= usize::MAX,
        long_walk(g, root).len() + 1 == 2 * g.len(),
        recorded(g, root, pre, routes, tin, tour, depth),
        stops_ok(g, root, pre, routes, stack, stops, t, tour.len() as int),
        stops.len() > 0,
        stops.last().back,
    ensures
        ({
            let u = stops.last().v;
            &&& 0 <= u < g.len()
            &&& tour.len() < long_walk(g, root).len()
            &&& tin[u] < tour.len()
            &&& recorded(
                g,
                root,
                pre,
                routes,
                tin,
                tour.push(u as usize),
                depth.push(depth[tin[u] as int]),
            )
            &&& stops_ok(
                g,
                root,
                pre,
                routes,
                stack.drop_last(),
                stops.drop_last(),
                t,
                tour.len() as int + 1,
            )
        }),
{
    reveal(stops_ok);
    reveal(recorded);
    let n = g.len() as int;
    let all = long_walk(g, root);
    let top = stops.len() - 1;
    let s = stops[top];
    let u = s.v;
    let p = tour.len() as int;
    let stops2 = stops.drop_last();
    let tour2 = tour.push(u as usize);
    let depth2 = depth.push(depth[tin[u] as int]);
    assert(stop_ok(g, root, pre, routes, s));
    assert(known(g, root, pre, routes, tin, p, u));
    lemma_route_pos_block(g, root, n, g.len(), 0, routes[u]);
    let first = tin[u] as int;
    assert(all[first] == all.subrange(
        first,
        first + end_euler(g, root, n, g.len(), 0, routes[u]).len(),
    )[0]);
    assert(depth[first] == all[first].1);
    assert forall|x: int| 0 <= x < tour2.len() implies (#[trigger] tour2[x]) == all[x].0 by {
        if x < p {
            assert(tour[x] == all[x].0);
        }
    }
    assert forall|x: int| 0 <= x < tour2.len() implies (#[trigger] depth2[x]) == all[x].1 by {
        if x < p {
            assert(depth[x] == all[x].1);
        }
    }
    assert forall|v: int| 0 <= v < n && (#[trigger] pre[v]) != usize::MAX implies known(
        g,
        root,
        pre,
        routes,
        tin,
        p + 1,
        v,
    ) by {
        assert(known(g, root, pre, routes, tin, p, v));
    }
    assert forall|k: int| 0 <= k < stops2.len() implies stack.drop_last()[k] == (
        (#[trigger] stops2[k]).v as usize,
        stops2[k].back,
    ) && stop_ok(g, root, pre, routes, stops2[k]) by {
        assert(stops2[k] == stops[k]);
    }
    assert forall|k: int| 1 <= k < stops2.len() implies stops2[k - 1].at == (
    #[trigger] stops2[k]).at + walk_share(g, root, stops2[k]) && stops2[k - 1].pos
        == stops2[k].pos + long_share(g, root, stops2[k]) by {
        assert(stops[k - 1].at == stops[k].at + walk_share(g, root, stops[k]));
    }
    if top > 0 {
        assert(stops[top - 1].at == stops[top].at + walk_share(g, root, stops[top]));
        assert(stops2[0] == stops[0]);
    }
}

/// The stack is as long as the sequence of its entries, and holds the
/// vertex of the last of them on top.
pub proof fn lemma_stops_top<W>(
    g: Seq<Seq<(usize, W)>>,
    root: int,
    pre: Seq<usize>,
    routes: Seq<Seq<int>>,
    stack: Seq<(usize, bool)>,
    stops: Seq<Stop>,
    t: int,
    p: int,
)
    requires
        stops_ok(g, root, pre, routes, stack, stops, t, p),
    ensures
        stack.len() == stops.len(),
        stops.len() > 0 ==> stack.last() == (stops.last().v as usize, stops.last().back),
        stops.len() == 0 ==> p == long_walk(g, root).len() && t == g.len(),
{
    reveal(stops_ok);
    if stops.len() > 0 {
        let top = stops[stops.len() - 1];
    }
}

/// The arrays are as long as they should be, and mark the vertices that
/// have not been entered.
pub proof fn lemma_recorded_shape<W>(
    g: Seq<Seq<(usize, W)>>,
    root: int,
    pre: Seq<usize>,
    routes: Seq<Seq<int>>,
    tin: Seq<usize>,
    tour: Seq<usize>,
    depth: Seq<usize>,
)
    requires
        recorded(g, root, pre, routes, tin, tour, depth),
    ensures
        pre.len() == g.len(),
        routes.len() == g.len(),
        tin.len() == g.len(),
        tour.len() == depth.len(),
        tour.len() <= long_walk(g, root).len(),
        forall|v: int|
            0 <= v < g.len() ==> ((#[trigger] tin[v]) == usize::MAX <==> pre[v] == usize::MAX),
{
    reveal(recorded);
}

/// Walks the tree from `root` and returns, for every vertex, the place
/// of the long walk at which it is entered, and the vertices and the
/// depths of the long walk.
fn traverse<W: Copy>(root: usize, tree: &Csr<W>) -> (res: (
    Vec<usize>,
    Vec<usize>,
    Vec<usize>,
    Ghost<Seq<usize>>,
    Ghost<Seq<Seq<int>>>,
))
    requires
        tree.wf(),
        is_tree_from(tree@, root as int),
        2 * tree@.len() <= usize::MAX,
    ensures
        recorded(tree@, root as int, res.3@, res.4@, res.0@, res.1@, res.2@),
        res.1@.len() == long_walk(tree@, root as int).len(),
        forall|v: int| 0 <= v < tree@.len() ==> (#[trigger] res.3@[v]) != usize::MAX,
{
    let n = tree.num_vertices();
    let mut tin: Vec<usize> = vec![usize::MAX; n];
    let mut tour: Vec<usize> = Vec::new();
    let mut depth: Vec<usize> = Vec::new();
    let mut stack: Vec<(usize, bool)> = Vec::new();
    stack.push((root, false));
    let ghost g = tree@;
    let ghost mut pre: Seq<usize> = tin@;
    let ghost mut routes: Seq<Seq<int>> = Seq::new(n as nat, |v: int| Seq::empty());
    let ghost mut t: int = 0;
    let ghost mut stops: Seq<Stop> = seq![
        Stop { v: root as int, route: Seq::empty(), back: false, at: 0, pos: 0 },
    ];
    proof {
        lemma_long_start(g, root, pre, routes);
        lemma_long_walk_len(g, root as int);
        assert(stack@ =~= seq![(root, false)]);
        assert(tour@ =~= Seq::<usize>::empty());
        assert(depth@ =~= Seq::<usize>::empty());
    }
    while stack.len() > 0
        invariant
            tree.wf(),
            g == tree@,
            n == g.len(),
            2 * n <= usize::MAX,
            is_tree_from(g, root as int),
            long_walk(g, root as int).len() + 1 == 2 * n,
            visited_ok(g, root as int, pre, t),
            recorded(g, root as int, pre, routes, tin@, tour@, depth@),
            stops_ok(g, root as int, pre, routes, stack@, stops, t, tour@.len() as int),
        decreases long_walk(g, root as int).len() - tour@.len(),
    {
        let ghost s = stops.last();
        let ghost full = stack@;
        let ghost below = stack@.drop_last();
        proof {
            lemma_stops_top(g, root as int, pre, routes, stack@, stops, t, tour@.len() as int);
            lemma_recorded_shape(g, root as int, pre, routes, tin@, tour@, depth@);
        }
        let (u, back) = stack[stack.len() - 1];
        stack.pop();
        assert(stack@ =~= below);
        if !back {
            let p = tour.len();
            proof {
                lemma_long_enter(
                    g,
                    root as int,
                    pre,
                    routes,
                    tin@,
                    tour@,
                    depth@,
                    full,
                    stops,
                    t,
                );
                lemma_long_enter_stops(
                    g,
                    root as int,
                    pre,
                    routes,
                    full,
                    stops,
                    t,
                    p as int,
                );
                lemma_long_enter_recorded(
                    g,
                    root as int,
                    pre,
                    routes,
                    tin@,
                    tour@,
                    depth@,
                    s,
                    t,
                );
                assert(full.drop_last() =~= below);
            }
            let d = if p == 0 {
                0
            } else {
                depth[p - 1] + 1
            };
            let ghost wend = t + walk_share(g, root as int, s);
            let ghost eend = p + long_share(g, root as int, s);
            tin[u] = p;
            tour.push(u);
            depth.push(d);
            proof {
                pre = pre.update(u as int, t as usize);
                routes = routes.update(u as int, s.route);
                t = t + 1;
                stops = stops.drop_last();
                lemma_recorded_shape(g, root as int, pre, routes, tin@, tour@, depth@);
                lemma_tour_head(
                    g,
                    u as int,
                    route_end(g, root as int, n as int, s.route).1,
                    (n - s.route.len()) as nat,
                );
                lemma_euler_head(
                    g,
                    u as int,
                    route_end(g, root as int, n as int, s.route).1,
                    (n - s.route.len()) as nat,
                    s.route.len(),
                );
            }
            let list = tree.adj(u);
            let mut j: usize = 0;
            while j < list.len()
                invariant
                    tree.wf(),
                    g == tree@,
                    n == g.len(),
                    2 * n <= usize::MAX,
                    u < n,
                    list@ == g[u as int],
                    j <= list@.len(),
                    is_tree_from(g, root as int),
                    long_walk(g, root as int).len() + 1 == 2 * n,
                    visited_ok(g, root as int, pre, t),
                    recorded(g, root as int, pre, routes, tin@, tour@, depth@),
                    entered(g, root as int, pre, t, s.route, wend),
                    route_end(g, root as int, n as int, s.route).0 == u,
                    routes[u as int] == s.route,
                    eend == route_pos(g, root as int, n as int, g.len(), 0, s.route) + end_euler(
                        g,
                        root as int,
                        n as int,
                        g.len(),
                        0,
                        s.route,
                    ).len(),
                    tour@.len() == p + 1,
                    stops_ok(
                        g,
                        root as int,
                        pre,
                        routes,
                        stack@,
                        stops,
                        wend - kids(g, root as int, s.route, j as nat).len(),
                        eend - long_kids(g, root as int, s.route, j as nat).len(),
                    ),
                decreases list@.len() - j,
            {
                let c = list[j].0;
                proof {
                    tree.lemma_neighbours(u as int, j as int);
                    lemma_recorded_shape(g, root as int, pre, routes, tin@, tour@, depth@);
                }
                if tin[c] == usize::MAX {
                    proof {
                        lemma_long_push(
                            g,
                            root as int,
                            pre,
                            routes,
                            stack@,
                            stops,
                            t,
                            s.route,
                            wend,
                            eend,
                            j as nat,
                        );
                        stops = stops.push(
                            Stop {
                                v: u as int,
                                route: s.route,
                                back: true,
                                at: wend - kids(g, root as int, s.route, j as nat).len(),
                                pos: eend - long_kids(g, root as int, s.route, j as nat).len() - 1,
                            },
                        ).push(
                            Stop {
                                v: c as int,
                                route: s.route.push(j as int),
                                back: false,
                                at: wend - kids(g, root as int, s.route, (j + 1) as nat).len(),
                                pos: eend - long_kids(
                                    g,
                                    root as int,
                                    s.route,
                                    (j + 1) as nat,
                                ).len(),
                            },
                        );
                    }
                    stack.push((u, true));
                    stack.push((c, false));
                } else {
                    proof {
                        lemma_long_skip(g, root as int, pre, t, s.route, wend, j as nat);
                    }
                }
                j += 1;
            }
        } else {
            proof {
                lemma_long_back(
                    g,
                    root as int,
                    pre,
                    routes,
                    tin@,
                    tour@,
                    depth@,
                    full,
                    stops,
                    t,
                );
                assert(full.drop_last() =~= below);
                stops = stops.drop_last();
            }
            let first = tin[u];
            let d = depth[first];
            tour.push(u);
            depth.push(d);
        }
    }
    proof {
        let flat = walk(g, root as int);
        lemma_stops_top(g, root as int, pre, routes, stack@, stops, t, tour@.len() as int);
        lemma_recorded_shape(g, root as int, pre, routes, tin@, tour@, depth@);
        assert forall|v: int| 0 <= v < n implies (#[trigger] pre[v]) != usize::MAX by {
            assert(occurs_in(flat, v));
            let k = choose|k: int| 0 <= k < flat.len() && #[trigger] flat[k] == v;
            assert(pre[flat[k]] == k);
        }
    }
    (tin, tour, depth, Ghost(pre), Ghost(routes))
}

/// A route without its last step is a route, and ends where the route
/// came from.
pub proof fn lemma_route_pop<W>(g: Seq<Seq<(usize, W)>>, u: int, pu: int, route: Seq<int>)
    requires
        route_ok(g, u, pu, route),
        route.len() > 0,
    ensures
        route_ok(g, u, pu, route.drop_last()),
        route_end(g, u, pu, route).1 == route_end(g, u, pu, route.drop_last()).0,
    decreases route.len(),
{
    let shorter = route.drop_last();
    let c = g[u][route[0]].0 as int;
    if route.len() == 1 {
        assert(route.drop_first().len() == 0);
        assert(shorter.len() == 0);
        assert(route_end(g, c, u, route.drop_first()) == (c, u));
        assert(route_end(g, u, pu, shorter) == (u, pu));
    } else {
        lemma_route_pop(g, c, u, route.drop_first());
        assert(shorter.drop_first() =~= route.drop_first().drop_last());
        assert(shorter[0] == route[0]);
    }
}

/// Every vertex has been entered, and is known.
pub open spec fn all_known<W>(
    g: Seq<Seq<(usize, W)>>,
    root: int,
    pre: Seq<usize>,
    routes: Seq<Seq<int>>,
    tin: Seq<usize>,
    p: int,
) -> bool {
    forall|v: int|
        0 <= v < g.len() ==> (#[trigger] pre[v]) != usize::MAX && known(
            g,
            root,
            pre,
            routes,
            tin,
            p,
            v,
        )
}

/// Every beginning of the route of a vertex is the route of the vertex
/// that it ends at.
pub proof fn lemma_prefix_known<W>(
    g: Seq<Seq<(usize, W)>>,
    root: int,
    pre: Seq<usize>,
    routes: Seq<Seq<int>>,
    tin: Seq<usize>,
    p: int,
    v: int,
    k: int,
)
    requires
        all_known(g, root, pre, routes, tin, p),
        0 <= v < g.len(),
        0 <= k <= routes[v].len(),
    ensures
        route_ok(g, root, g.len() as int, routes[v].take(k)),
        0 <= route_end(g, root, g.len() as int, routes[v].take(k)).0 < g.len(),
        routes[route_end(g, root, g.len() as int, routes[v].take(k)).0] == routes[v].take(k),
    decreases routes[v].len() - k,
{
    let n = g.len() as int;
    let r = routes[v];
    assert(pre[v] != usize::MAX && known(g, root, pre, routes, tin, p, v));
    if k == r.len() {
        assert(r.take(k) =~= r);
    } else {
        lemma_prefix_known(g, root, pre, routes, tin, p, v, k + 1);
        let longer = r.take(k + 1);
        let w = route_end(g, root, n, longer).0;
        assert(pre[w] != usize::MAX && known(g, root, pre, routes, tin, p, w));
        lemma_route_pop(g, root, n, longer);
        assert(longer.drop_last() =~= r.take(k));
    }
}

/// Between the places at which the long walk enters `i` and `j` it is
/// nowhere less deep than the common prefix of their routes is long, it
/// is as deep only at the vertex with that route, and it is as deep
/// somewhere.
pub open spec fn span_ok(
    routes: Seq<Seq<int>>,
    tin: Seq<usize>,
    tour: Seq<usize>,
    depth: Seq<usize>,
    i: int,
    j: int,
) -> bool {
    let c = common_prefix(routes[i], routes[j]);
    &&& tin[j] < depth.len()
    &&& forall|x: int|
        tin[i] <= x <= tin[j] ==> (#[trigger] depth[x]) >= c.len() && (depth[x] == c.len() ==> 0
            <= tour[x] < routes.len() && routes[tour[x] as int] == c)
    &&& exists|x: int| tin[i] <= x <= tin[j] && #[trigger] depth[x] == c.len()
}

/// The arrays of a finished traversal have the property `span_ok`.
pub proof fn lemma_span<W>(
    g: Seq<Seq<(usize, W)>>,
    root: int,
    pre: Seq<usize>,
    routes: Seq<Seq<int>>,
    tin: Seq<usize>,
    tour: Seq<usize>,
    depth: Seq<usize>,
    i: int,
    j: int,
)
    requires
        recorded(g, root, pre, routes, tin, tour, depth),
        tour.len() == long_walk(g, root).len(),
        forall|v: int| 0 <= v < g.len() ==> (#[trigger] pre[v]) != usize::MAX,
        0 <= i < g.len(),
        0 <= j < g.len(),
        tin[i] <= tin[j],
    ensures
        span_ok(routes, tin, tour, depth, i, j),
{
    reveal(recorded);
    let n = g.len() as int;
    let all = long_walk(g, root);
    let p = tour.len() as int;
    let c = common_prefix(routes[i], routes[j]);
    assert(pre[i] != usize::MAX && known(g, root, pre, routes, tin, p, i));
    assert(pre[j] != usize::MAX && known(g, root, pre, routes, tin, p, j));
    let at = lemma_between(g, root, n, g.len(), 0, routes[i], routes[j]);
    lemma_common_prefix(routes[i], routes[j]);
    lemma_prefix_known(g, root, pre, routes, tin, p, i, c.len() as int);
    assert forall|x: int| tin[i] <= x <= tin[j] implies (#[trigger] depth[x]) >= c.len() && (
    depth[x] == c.len() ==> 0 <= tour[x] < routes.len() && routes[tour[x] as int] == c) by {
        assert(depth[x] == all[x].1);
        assert(tour[x] == all[x].0);
    }
    assert(depth[at] == all[at].1);
}

/// `x` is a place between `lo` and `hi` at which `depth` is least.
pub open spec fn lowest_in(depth: Seq<usize>, x: int, lo: int, hi: int) -> bool {
    lo <= x < hi && forall|y: int| lo <= y < hi ==> depth[x] <= #[trigger] depth[y]
}

/// Row `k` of the table holds, at every place `i` with `i + 2^k <= m`, a
/// place among the `2^k` from `i` on at which `depth` is least.
pub open spec fn row_ok(depth: Seq<usize>, table: Seq<usize>, m: int, k: nat) -> bool {
    forall|i: int|
        0 <= i && i + pow2(k) <= m ==> lowest_in(
            depth,
            (#[trigger] table[k * m + i]) as int,
            i,
            i + pow2(k),
        )
}

/// The table has a row for every power of two up to the length of
/// `depth`.
pub open spec fn table_ok(depth: Seq<usize>, table: Seq<usize>) -> bool {
    let m = depth.len() as int;
    let levels = floor_log2(depth.len()) + 1;
    &&& table.len() == levels * m
    &&& forall|c: int| 0 <= c < table.len() ==> (#[trigger] table[c]) < m
    &&& forall|k: nat| k < levels ==> #[trigger] row_ok(depth, table, m, k)
}

/// Builds the table of the places of least depth.
fn build_table(depth: &Vec<usize>) -> (table: Vec<usize>)
    requires
        depth@.len() >= 1,
        depth@.len() * (floor_log2(depth@.len()) + 1) <= usize::MAX,
    ensures
        table_ok(depth@, table@),
{
    let m = depth.len();
    let (log, _) = log2(m);
    let mut table: Vec<usize> = Vec::new();
    let mut i: usize = 0;
    proof {
        vstd::arithmetic::power2::lemma2_to64();
    }
    while i < m
        invariant
            m == depth@.len(),
            i <= m,
            table@.len() == i,
            forall|c: int| 0 <= c < i ==> (#[trigger] table@[c]) == c,
        decreases m - i,
    {
        table.push(i);
        i += 1;
    }
    let mut k: usize = 1;
    let mut half: usize = 1;
    proof {
        assert forall|c: int| 0 <= c && c + pow2(0) <= m implies lowest_in(
            depth@,
            (#[trigger] table@[0 * m + c]) as int,
            c,
            c + pow2(0),
        ) by {}
        assert(1 * m == m) by (nonlinear_arith);
    }
    while k <= log
        invariant
            m >= 1,
            m == depth@.len(),
            log == floor_log2(m as nat),
            m * (log + 1) <= usize::MAX,
            1 <= k <= log + 1,
            log < usize::BITS,
            half == pow2((k - 1) as nat),
            1 <= half <= m,
            table@.len() == k * m,
            forall|c: int| 0 <= c < table@.len() ==> (#[trigger] table@[c]) < m,
            forall|j: nat| j < k ==> #[trigger] row_ok(depth@, table@, m as int, j),
        decreases log + 1 - k,
    {
        let ghost below = table@;
        let mut i: usize = 0;
        proof {
            lemma_cell_index(m as int, log + 1, k as int, 0);
            lemma_cell_index(m as int, log + 1, k - 1, 0);
            lemma_floor_log2(m as nat);
            lemma_pow2_unfold(k as nat);
            if k < log {
                vstd::arithmetic::power2::lemma_pow2_strictly_increases(k as nat, log as nat);
            }
        }
        while i < m
            invariant
                m >= 1,
                m == depth@.len(),
                1 <= k <= log,
                m * (log + 1) <= usize::MAX,
                half == pow2((k - 1) as nat),
                2 * half == pow2(k as nat),
                1 <= half,
                2 * half <= m,
                i <= m,
                below.len() == k * m,
                (k - 1) * m + m == k * m,
                (k - 1) * m >= 0,
                k * m + m <= usize::MAX,
                table@.len() == k * m + i,
                table@.subrange(0, k * m) == below,
                forall|c: int| 0 <= c < below.len() ==> (#[trigger] below[c]) < m,
                forall|c: int| 0 <= c < table@.len() ==> (#[trigger] table@[c]) < m,
                row_ok(depth@, below, m as int, (k - 1) as nat),
                forall|c: int|
                    0 <= c < i && c + 2 * half <= m ==> lowest_in(
                        depth@,
                        (#[trigger] table@[k * m + c]) as int,
                        c,
                        c + 2 * half,
                    ),
            decreases m - i,
        {
            let ghost prev = table@;
            let base = (k - 1) * m;
            proof {
                assert(prev.subrange(0, k * m)[base + i] == prev[base + i]);
            }
            let a = table[base + i];
            let cell = if i + 2 * half <= m {
                proof {
                    assert(prev.subrange(0, k * m)[base + i + half] == prev[base + i + half]);
                    assert(lowest_in(depth@, below[(k - 1) * m + i] as int, i as int, i + half));
                    assert(lowest_in(
                        depth@,
                        below[(k - 1) * m + (i + half)] as int,
                        i + half,
                        i + half + half,
                    ));
                }
                let b = table[base + i + half];
                if depth[a] <= depth[b] {
                    a
                } else {
                    b
                }
            } else {
                a
            };
            table.push(cell);
            proof {
                assert(table@.subrange(0, k * m) =~= prev.subrange(0, k * m));
                assert forall|c: int| 0 <= c < table@.len() implies (#[trigger] table@[c]) < m by {
                    if c < prev.len() {
                        assert(table@[c] == prev[c]);
                    }
                }
                assert forall|c: int| 0 <= c < i + 1 && c + 2 * half <= m implies lowest_in(
                    depth@,
                    (#[trigger] table@[k * m + c]) as int,
                    c,
                    c + 2 * half,
                ) by {
                    if c < i {
                        assert(table@[k * m + c] == prev[k * m + c]);
                    }
                }
            }
            i += 1;
        }
        proof {
            let after = table@;
            assert((k + 1) * m == k * m + m) by (nonlinear_arith);
            assert forall|j: nat| j < k + 1 implies #[trigger] row_ok(depth@, after, m as int, j) by {
                assert forall|c: int| 0 <= c && c + pow2(j) <= m implies lowest_in(
                    depth@,
                    (#[trigger] after[j * m + c]) as int,
                    c,
                    c + pow2(j),
                ) by {
                    lemma_pow2_pos(j);
                    if j < k {
                        lemma_cell_index(m as int, k as int, j as int, c);
                        assert(row_ok(depth@, below, m as int, j));
                        assert(lowest_in(depth@, below[j * m + c] as int, c, c + pow2(j)));
                        assert(after.subrange(0, k * m)[j * m + c] == after[j * m + c]);
                    }
                }
            }
        }
        half = half * 2;
        k += 1;
    }
    proof {
        assert((log + 1) * m == m * (log + 1)) by (nonlinear_arith);
    }
    table
}

/// A rooted tree prepared for questions about lowest common ancestors.
pub struct Lca {
    depth: Vec<usize>,
    tour: Vec<usize>,
    table: Vec<usize>,
    tin: Vec<usize>,
    routes: Ghost<Seq<Seq<int>>>,
}

impl Lca {
    /// For every vertex the route that leads to it from the root: for
    /// each step the place of the next vertex in the adjacency list of the
    /// vertex before.
    pub closed spec fn routes(&self) -> Seq<Seq<int>> {
        self.routes@
    }

    /// The arrays hold the long walk of the tree with the routes
    /// `routes()`, and the table the places of least depth.
    pub closed spec fn wf(&self) -> bool {
        let n = self.tin@.len();
        &&& n >= 1
        &&& 2 * n <= usize::MAX
        &&& self.routes@.len() == n
        &&& self.tour@.len() == 2 * n - 1
        &&& self.depth@.len() == 2 * n - 1
        &&& table_ok(self.depth@, self.table@)
        &&& forall|v: int|
            0 <= v < n ==> (#[trigger] self.tin@[v]) < 2 * n - 1
                && self.depth@[self.tin@[v] as int] == self.routes@[v].len()
                && self.routes@[v].len() < n
        &&& forall|i: int, j: int|
            0 <= i < n && 0 <= j < n && self.tin@[i] <= self.tin@[j] ==> #[trigger] span_ok(
                self.routes@,
                self.tin@,
                self.tour@,
                self.depth@,
                i,
                j,
            )
    }

    /// Prepares the tree that hangs from `root`: afterwards every vertex
    /// has a route that leads to it from the root.  Takes time
    /// proportional to `n log n` for `n` vertices.
    pub fn from_csr<W: Copy>(root: usize, tree: &Csr<W>) -> (res: Self)
        requires
            tree.wf(),
            is_tree_from(tree@, root as int),
            2 * tree@.len() * (floor_log2(2 * tree@.len()) + 1) <= usize::MAX,
        ensures
            res.wf(),
            res.routes().len() == tree@.len(),
            forall|v: int|
                0 <= v < tree@.len() ==> route_ok(
                    tree@,
                    root as int,
                    tree@.len() as int,
                    #[trigger] res.routes()[v],
                ) && route_end(tree@, root as int, tree@.len() as int, res.routes()[v]).0 == v,
    {
        let ghost g = tree@;
        let ghost n = g.len();
        proof {
            lemma_long_walk_len(g, root as int);
            lemma_floor_log2_monotone((2 * n - 1) as nat, 2 * n);
            let small = floor_log2((2 * n - 1) as nat) + 1;
            let large = floor_log2(2 * n) + 1;
            assert((2 * n - 1) * small <= 2 * n * large) by (nonlinear_arith)
                requires
                    1 <= small <= large,
                    n >= 1,
            ;
            assert(2 * n <= 2 * n * large) by (nonlinear_arith)
                requires
                    1 <= large,
            ;
        }
        let (tin, tour, depth, Ghost(pre), Ghost(routes)) = traverse(root, tree);
        proof {
            lemma_recorded_shape(g, root as int, pre, routes, tin@, tour@, depth@);
        }
        let table = build_table(&depth);
        proof {
            let all = long_walk(g, root as int);
            assert forall|v: int| 0 <= v < n implies (#[trigger] tin@[v]) < 2 * n - 1
                && depth@[tin@[v] as int] == routes[v].len() && routes[v].len() < n && route_ok(
                g,
                root as int,
                n as int,
                routes[v],
            ) && route_end(g, root as int, n as int, routes[v]).0 == v by {
                reveal(recorded);
                assert(pre[v] != usize::MAX);
                assert(known(g, root as int, pre, routes, tin@, tour@.len() as int, v));
                lemma_route_pos_block(g, root as int, n as int, n, 0, routes[v]);
                let first = tin@[v] as int;
                assert(all[first] == all.subrange(
                    first,
                    first + end_euler(g, root as int, n as int, n, 0, routes[v]).len(),
                )[0]);
                assert(depth@[first] == all[first].1);
            }
            assert forall|v: int| 0 <= v < n implies route_ok(
                g,
                root as int,
                n as int,
                #[trigger] routes[v],
            ) && route_end(g, root as int, n as int, routes[v]).0 == v by {
                assert(tin@[v] < 2 * n - 1);
            }
            assert forall|i: int, j: int|
                0 <= i < n && 0 <= j < n && tin@[i] <= tin@[j] implies #[trigger] span_ok(
                routes,
                tin@,
                tour@,
                depth@,
                i,
                j,
            ) by {
                lemma_span(g, root as int, pre, routes, tin@, tour@, depth@, i, j);
            }
        }
        Lca { depth, tour, table, tin, routes: Ghost(routes) }
    }

    /// Returns the lowest common ancestor of `i` and `j`: the vertex
    /// whose route is what the routes of `i` and `j` have in common at
    /// their beginning.
    pub fn lca(&self, i: usize, j: usize) -> (res: usize)
        requires
            self.wf(),
            i < self.routes().len(),
            j < self.routes().len(),
        ensures
            res < self.routes().len(),
            self.routes()[res as int] == common_prefix(
                self.routes()[i as int],
                self.routes()[j as int],
            ),
    {
        let m = self.tour.len();
        let first = self.tin[i];
        let second = self.tin[j];
        let (l, r) = if first <= second {
            (first, second)
        } else {
            (second, first)
        };
        let ghost (lo, hi) = if first <= second {
            (i as int, j as int)
        } else {
            (j as int, i as int)
        };
        let (log, p) = log2(r + 1 - l);
        proof {
            let levels = floor_log2(m as nat) + 1;
            assert(span_ok(self.routes@, self.tin@, self.tour@, self.depth@, lo, hi));
            lemma_floor_log2((r + 1 - l) as nat);
            lemma_floor_log2_monotone((r + 1 - l) as nat, m as nat);
            lemma_cell_index(m as int, levels as int, log as int, l as int);
            lemma_cell_index(m as int, levels as int, log as int, r + 1 - p);
            assert(row_ok(self.depth@, self.table@, m as int, log as nat));
            assert(lowest_in(
                self.depth@,
                self.table@[log * m + l] as int,
                l as int,
                l + p,
            ));
            assert(lowest_in(
                self.depth@,
                self.table@[log * m + (r + 1 - p)] as int,
                r + 1 - p,
                r + 1,
            ));
            lemma_common_prefix(self.routes@[i as int], self.routes@[j as int]);
            assert(self.table.len() == self.table@.len());
            assert(log * m + m <= levels * m) by (nonlinear_arith)
                requires
                    log + 1 <= levels,
                    m >= 0,
            ;
            assert(log * m >= 0) by (nonlinear_arith)
                requires
                    log >= 0,
                    m >= 0,
            ;
        }
        let a = self.table[log * m + l];
        let b = self.table[log * m + r + 1 - p];
        let x = if self.depth[a] <= self.depth[b] {
            a
        } else {
            b
        };
        proof {
            let c = common_prefix(self.routes@[lo], self.routes@[hi]);
            let at = choose|at: int| l <= at <= r && #[trigger] self.depth@[at] == c.len();
            assert(self.depth@[x as int] <= self.depth@[at]);
            assert(self.depth@[x as int] >= c.len());
        }
        self.tour[x]
    }

    /// Returns the number of steps from the root to vertex `i`.
    pub fn depth(&self, i: usize) -> (res: usize)
        requires
            self.wf(),
            i < self.routes().len(),
        ensures
            res == self.routes()[i as int].len(),
    {
        self.depth[self.tin[i]]
    }

    /// Returns the number of steps from `i` to `j`: those from both up to
    /// their lowest common ancestor.
    pub fn dist(&self, i: usize, j: usize) -> (res: usize)
        requires
            self.wf(),
            i < self.routes().len(),
            j < self.routes().len(),
        ensures
            res == self.routes()[i as int].len() + self.routes()[j as int].len() - 2
                * common_prefix(self.routes()[i as int], self.routes()[j as int]).len(),
    {
        proof {
            lemma_common_prefix(self.routes@[i as int], self.routes@[j as int]);
            lemma_common_prefix(self.routes@[j as int], self.routes@[i as int]);
            assert(self.tin@[i as int] < 2 * self.tin@.len() - 1);
            assert(self.tin@[j as int] < 2 * self.tin@.len() - 1);
        }
        let top = self.lca(i, j);
        self.depth(i) + self.depth(j) - 2 * self.depth(top)
    }

    /// Returns the number of vertices.
    pub fn len(&self) -> (res: usize)
        requires
            self.wf(),
        ensures
            res == self.routes().len(),
    {
        self.tin.len()
    }
}

} // verus!
