//! Graphs in compressed sparse row form: the adjacency lists of all
//! vertices in one array, with the offset at which each list begins.

use vstd::prelude::*;

verus! {

/// The payloads of the arcs that leave `u`, in the order of the arcs.
pub open spec fn bucket<A>(arcs: Seq<(usize, A)>, u: int) -> Seq<A>
    decreases arcs.len(),
{
    if arcs.len() == 0 {
        Seq::empty()
    } else if arcs.last().0 == u {
        bucket(arcs.drop_last(), u).push(arcs.last().1)
    } else {
        bucket(arcs.drop_last(), u)
    }
}

/// The number of arcs that leave a vertex below `u`.
pub open spec fn below<A>(arcs: Seq<(usize, A)>, u: int) -> nat
    decreases arcs.len(),
{
    if arcs.len() == 0 {
        0
    } else if arcs.last().0 < u {
        below(arcs.drop_last(), u) + 1
    } else {
        below(arcs.drop_last(), u)
    }
}

/// One arc per edge, from its first to its second vertex.
pub open spec fn directed_arcs<W>(edges: Seq<(usize, usize, W)>) -> Seq<(usize, (usize, W))> {
    Seq::new(edges.len(), |i: int| (edges[i].0, (edges[i].1, edges[i].2)))
}

/// Two arcs per edge: first the one from its first to its second vertex,
/// then the one back.
pub open spec fn undirected_arcs<W>(edges: Seq<(usize, usize, W)>) -> Seq<(usize, (usize, W))> {
    Seq::new(
        2 * edges.len(),
        |i: int|
            if i % 2 == 0 {
                (edges[i / 2].0, (edges[i / 2].1, edges[i / 2].2))
            } else {
                (edges[i / 2].1, (edges[i / 2].0, edges[i / 2].2))
            },
    )
}

/// The weighted edges that stand for unweighted ones.
pub open spec fn unit_edges(edges: Seq<(usize, usize)>) -> Seq<(usize, usize, ())> {
    Seq::new(edges.len(), |i: int| (edges[i].0, edges[i].1, ()))
}

/// The arcs of the adjacency lists of the vertices below `n`, each turned
/// around, vertex by vertex and list by list.
pub open spec fn turned_arcs<W>(lists: Seq<Seq<(usize, W)>>, n: nat) -> Seq<(usize, (usize, W))>
    decreases n,
{
    if n == 0 {
        Seq::empty()
    } else {
        let u = (n - 1) as usize;
        turned_arcs(lists, (n - 1) as nat) + Seq::new(
            lists[n - 1].len(),
            |j: int| (lists[n - 1][j].0, (u, lists[n - 1][j].1)),
        )
    }
}

/// Appending an arc extends the bucket of its source and no other.
pub proof fn lemma_bucket_push<A>(arcs: Seq<(usize, A)>, arc: (usize, A), u: int)
    ensures
        bucket(arcs.push(arc), u) == if arc.0 == u {
            bucket(arcs, u).push(arc.1)
        } else {
            bucket(arcs, u)
        },
        below(arcs.push(arc), u) == if arc.0 < u {
            below(arcs, u) + 1
        } else {
            below(arcs, u)
        },
{
    assert(arcs.push(arc).drop_last() =~= arcs);
}

/// The arcs below `u + 1` are those below `u` and those that leave `u`;
/// no bucket is longer than the buckets of a longer sequence of arcs.
pub proof fn lemma_below_step<A>(arcs: Seq<(usize, A)>, u: int)
    ensures
        below(arcs, u + 1) == below(arcs, u) + bucket(arcs, u).len(),
        below(arcs, u) <= arcs.len(),
        u <= 0 ==> below(arcs, u) == 0,
    decreases arcs.len(),
{
    if arcs.len() > 0 {
        lemma_below_step(arcs.drop_last(), u);
    }
}

/// When every arc leaves a vertex below `n`, all arcs are below `n`.
pub proof fn lemma_below_all<A>(arcs: Seq<(usize, A)>, n: int)
    requires
        forall|k: int| 0 <= k < arcs.len() ==> (#[trigger] arcs[k]).0 < n,
    ensures
        below(arcs, n) == arcs.len(),
    decreases arcs.len(),
{
    if arcs.len() > 0 {
        lemma_below_all(arcs.drop_last(), n);
    }
}

/// The bucket of a prefix is a prefix of the bucket.
pub proof fn lemma_bucket_prefix<A>(arcs: Seq<(usize, A)>, k: int, u: int)
    requires
        0 <= k <= arcs.len(),
    ensures
        bucket(arcs.subrange(0, k), u).len() <= bucket(arcs, u).len(),
        k < arcs.len() && arcs[k].0 == u ==> bucket(arcs.subrange(0, k), u).len() < bucket(
            arcs,
            u,
        ).len(),
    decreases arcs.len() - k,
{
    if k < arcs.len() {
        lemma_bucket_prefix(arcs, k + 1, u);
        assert(arcs.subrange(0, k + 1) =~= arcs.subrange(0, k).push(arcs[k]));
        lemma_bucket_push(arcs.subrange(0, k), arcs[k], u);
    } else {
        assert(arcs.subrange(0, k) =~= arcs);
    }
}

/// Every entry of a bucket is the payload of an arc that leaves the
/// vertex of the bucket.
pub proof fn lemma_bucket_from<A>(arcs: Seq<(usize, A)>, u: int, i: int) -> (k: int)
    requires
        0 <= i < bucket(arcs, u).len(),
    ensures
        0 <= k < arcs.len(),
        arcs[k].0 == u,
        arcs[k].1 == bucket(arcs, u)[i],
    decreases arcs.len(),
{
    if arcs.last().0 == u && i == bucket(arcs.drop_last(), u).len() {
        arcs.len() - 1
    } else {
        lemma_bucket_from(arcs.drop_last(), u, i)
    }
}

/// The payload of every arc is an entry of the bucket of the vertex that
/// the arc leaves.
pub proof fn lemma_bucket_has<A>(arcs: Seq<(usize, A)>, k: int) -> (i: int)
    requires
        0 <= k < arcs.len(),
    ensures
        0 <= i < bucket(arcs, arcs[k].0 as int).len(),
        bucket(arcs, arcs[k].0 as int)[i] == arcs[k].1,
    decreases arcs.len(),
{
    let u = arcs[k].0 as int;
    if k == arcs.len() - 1 {
        bucket(arcs.drop_last(), u).len() as int
    } else {
        lemma_bucket_has(arcs.drop_last(), k)
    }
}

/// Every turned arc is an arc of one of the lists, turned around.
pub proof fn lemma_turned_from<W>(lists: Seq<Seq<(usize, W)>>, n: nat, k: int) -> (res: (int, int))
    requires
        n <= usize::MAX,
        0 <= k < turned_arcs(lists, n).len(),
    ensures
        0 <= res.0 < n,
        0 <= res.1 < lists[res.0].len(),
        turned_arcs(lists, n)[k] == (
            lists[res.0][res.1].0,
            (res.0 as usize, lists[res.0][res.1].1),
        ),
    decreases n,
{
    let before = turned_arcs(lists, (n - 1) as nat);
    if k < before.len() {
        lemma_turned_from(lists, (n - 1) as nat, k)
    } else {
        (n - 1, k - before.len())
    }
}

/// Every arc of the lists is, turned around, one of the turned arcs.
pub proof fn lemma_turned_has<W>(lists: Seq<Seq<(usize, W)>>, n: nat, u: int, j: int) -> (k: int)
    requires
        n <= usize::MAX,
        0 <= u < n,
        0 <= j < lists[u].len(),
    ensures
        0 <= k < turned_arcs(lists, n).len(),
        turned_arcs(lists, n)[k] == (lists[u][j].0, (u as usize, lists[u][j].1)),
    decreases n,
{
    let before = turned_arcs(lists, (n - 1) as nat);
    if u == n - 1 {
        before.len() + j
    } else {
        lemma_turned_has(lists, (n - 1) as nat, u, j)
    }
}

/// Every entry of `edge` is the payload of one of the arcs.
pub open spec fn drawn_from<A>(edge: Seq<A>, arcs: Seq<(usize, A)>) -> bool {
    forall|j: int|
        0 <= j < edge.len() ==> exists|k: int|
            0 <= k < arcs.len() && #[trigger] edge[j] == (#[trigger] arcs[k]).1
}

/// The adjacency lists that offsets and one array of arcs stand for.
pub open spec fn lists_of<A>(offset: Seq<usize>, edge: Seq<A>) -> Seq<Seq<A>> {
    Seq::new(
        (offset.len() - 1) as nat,
        |u: int| edge.subrange(offset[u] as int, offset[u + 1] as int),
    )
}

/// A graph in compressed sparse row form, with edge weights of type `W`.
pub struct Csr<W: Copy> {
    offset: Vec<usize>,
    edge: Vec<(usize, W)>,
}

impl<W: Copy> View for Csr<W> {
    type V = Seq<Seq<(usize, W)>>;

    /// For every vertex, the list of its neighbours with the weights of
    /// the edges that lead to them.
    closed spec fn view(&self) -> Seq<Seq<(usize, W)>> {
        lists_of(self.offset@, self.edge@)
    }
}

impl<W: Copy> Csr<W> {
    /// The offsets begin at zero, do not decrease and end at the number of
    /// arcs.
    pub closed spec fn wf(&self) -> bool {
        &&& self.offset@.len() >= 1
        &&& self.offset@[0] == 0
        &&& self.offset@[self.offset@.len() - 1] == self.edge@.len()
        &&& forall|u: int, v: int|
            0 <= u <= v < self.offset@.len() ==> self.offset@[u] <= self.offset@[v]
        &&& forall|j: int|
            0 <= j < self.edge@.len() ==> (#[trigger] self.edge@[j]).0 < self.offset@.len() - 1
    }

    /// Every neighbour in a well-formed graph is one of its vertices.
    pub proof fn lemma_neighbours(&self, u: int, j: int)
        requires
            self.wf(),
            0 <= u < self@.len(),
            0 <= j < self@[u].len(),
        ensures
            self@[u][j].0 < self@.len(),
    {
        assert(self.offset@[u] <= self.offset@[u + 1] <= self.offset@[self.offset@.len() - 1]);
        assert(self@[u][j] == self.edge@[self.offset@[u] + j]);
    }

    /// The total number of entries of all adjacency lists.
    pub closed spec fn arc_count(&self) -> nat {
        self.edge@.len()
    }

    /// Sorts arcs by their source, keeping the order of the arcs that
    /// leave one vertex.
    fn build<A: Copy>(n: usize, arcs: &Vec<(usize, A)>) -> (res: (Vec<usize>, Vec<A>))
        requires
            n < usize::MAX,
            forall|k: int| 0 <= k < arcs@.len() ==> (#[trigger] arcs@[k]).0 < n,
        ensures
            res.0@.len() == n + 1,
            res.1@.len() == arcs@.len(),
            res.0@[0] == 0,
            res.0@[n as int] == arcs@.len(),
            forall|u: int, v: int| 0 <= u <= v <= n ==> res.0@[u] <= res.0@[v],
            forall|u: int|
                0 <= u < n ==> #[trigger] lists_of(res.0@, res.1@)[u] == bucket(arcs@, u),
            drawn_from(res.1@, arcs@),
    {
        let m = arcs.len();
        let ghost all = arcs@;
        // How many arcs leave each vertex, one place further to the right.
        let mut offset: Vec<usize> = vec![0; n + 1];
        let mut k: usize = 0;
        while k < m
            invariant
                k <= m,
                m == all.len(),
                all == arcs@,
                offset@.len() == n + 1,
                forall|j: int| 0 <= j < all.len() ==> (#[trigger] all[j]).0 < n,
                offset@[0] == 0,
                forall|u: int|
                    1 <= u <= n ==> #[trigger] offset@[u] == bucket(
                        all.subrange(0, k as int),
                        u - 1,
                    ).len(),
            decreases m - k,
        {
            let u = arcs[k].0;
            proof {
                assert(all[k as int].0 < n);
                lemma_bucket_prefix(all, k as int, u as int);
                Self::lemma_bucket_bound(all, u as int);
                assert forall|t: int| 0 <= t < n implies bucket(all.subrange(0, k + 1), t)
                    == if t == u {
                    bucket(all.subrange(0, k as int), t).push(all[k as int].1)
                } else {
                    bucket(all.subrange(0, k as int), t)
                } by {
                    assert(all.subrange(0, k + 1) =~= all.subrange(0, k as int).push(all[k as int]));
                    lemma_bucket_push(all.subrange(0, k as int), all[k as int], t);
                }
            }
            let c = offset[u + 1];
            offset[u + 1] = c + 1;
            k += 1;
        }
        proof {
            assert(all.subrange(0, m as int) =~= all);
            lemma_below_step(all, 0);
        }
        // Where the list of each vertex begins.
        let mut i: usize = 1;
        while i <= n
            invariant
                1 <= i <= n + 1,
                n < usize::MAX,
                m == all.len(),
                offset@.len() == n + 1,
                offset@[0] == 0,
                forall|u: int| 0 <= u < i ==> #[trigger] offset@[u] == below(all, u),
                forall|u: int| i <= u <= n ==> #[trigger] offset@[u] == bucket(all, u - 1).len(),
            decreases n + 1 - i,
        {
            proof {
                lemma_below_step(all, i - 1);
                lemma_below_step(all, i as int);
            }
            let s = offset[i] + offset[i - 1];
            offset[i] = s;
            i += 1;
        }
        proof {
            lemma_below_all(all, n as int);
            lemma_below_step(all, 0);
        }
        if m == 0 {
            let edge: Vec<A> = Vec::new();
            proof {
                assert forall|u: int, v: int| 0 <= u <= v <= n implies offset@[u] <= offset@[v] by {
                    lemma_below_step(all, u);
                    lemma_below_step(all, v);
                }
                assert forall|u: int| 0 <= u < n implies #[trigger] lists_of(offset@, edge@)[u]
                    == bucket(all, u) by {
                    lemma_below_step(all, u);
                    lemma_below_step(all, u + 1);
                    assert(lists_of(offset@, edge@)[u] =~= bucket(all, u));
                }
            }
            return (offset, edge);
        }
        // Every arc goes to the first free place of the list of its source.
        let mut cursor: Vec<usize> = Vec::with_capacity(n);
        let mut c: usize = 0;
        while c < n
            invariant
                c <= n,
                offset@.len() == n + 1,
                cursor@.len() == c,
                forall|u: int| 0 <= u < c ==> cursor@[u] == offset@[u],
            decreases n - c,
        {
            cursor.push(offset[c]);
            c += 1;
        }
        let first = arcs[0].1;
        let mut edge: Vec<A> = Vec::with_capacity(m);
        let mut f: usize = 0;
        while f < m
            invariant
                f <= m,
                edge@.len() == f,
                forall|j: int| 0 <= j < f ==> edge@[j] == first,
            decreases m - f,
        {
            edge.push(first);
            f += 1;
        }
        let mut k: usize = 0;
        proof {
            assert forall|j: int| 0 <= j < edge@.len() implies exists|i: int|
                0 <= i < all.len() && #[trigger] edge@[j] == (#[trigger] all[i]).1 by {
                assert(edge@[j] == all[0].1);
            }
            assert forall|u: int| 0 <= u < n implies #[trigger] cursor@[u] == below(all, u) + bucket(
                all.subrange(0, 0),
                u,
            ).len() by {}
            assert forall|u: int| 0 <= u < n implies #[trigger] edge@.subrange(
                below(all, u) as int,
                cursor@[u] as int,
            ) == bucket(all.subrange(0, 0), u) by {
                lemma_below_step(all, u);
                assert(cursor@[u] == below(all, u));
                assert(edge@.subrange(below(all, u) as int, cursor@[u] as int) =~= bucket(
                    all.subrange(0, 0),
                    u,
                ));
            }
        }
        while k < m
            invariant
                k <= m,
                m == all.len(),
                all == arcs@,
                m > 0,
                offset@.len() == n + 1,
                cursor@.len() == n,
                edge@.len() == m,
                drawn_from(edge@, all),
                forall|j: int| 0 <= j < all.len() ==> (#[trigger] all[j]).0 < n,
                forall|u: int| 0 <= u <= n ==> #[trigger] offset@[u] == below(all, u),
                forall|u: int|
                    0 <= u < n ==> #[trigger] cursor@[u] == below(all, u) + bucket(
                        all.subrange(0, k as int),
                        u,
                    ).len(),
                forall|u: int|
                    0 <= u < n ==> #[trigger] edge@.subrange(
                        below(all, u) as int,
                        cursor@[u] as int,
                    ) == bucket(all.subrange(0, k as int), u),
            decreases m - k,
        {
            let u = arcs[k].0;
            let ghost before = edge@;
            let ghost marks = cursor@;
            proof {
                assert(all[k as int].0 < n);
                lemma_bucket_prefix(all, k as int, u as int);
                lemma_below_step(all, u as int);
                lemma_below_step(all, u + 1);
                lemma_below_all(all, n as int);
                Self::lemma_below_monotone(all, u + 1, n as int);
            }
            let pos = cursor[u];
            edge[pos] = arcs[k].1;
            cursor[u] = pos + 1;
            proof {
                assert forall|j: int| 0 <= j < edge@.len() implies exists|i: int|
                    0 <= i < all.len() && #[trigger] edge@[j] == (#[trigger] all[i]).1 by {
                    if j == pos {
                        assert(edge@[j] == all[k as int].1);
                    } else {
                        assert(edge@[j] == before[j]);
                    }
                }
                assert(all.subrange(0, k + 1) =~= all.subrange(0, k as int).push(all[k as int]));
                assert forall|t: int| 0 <= t < n implies #[trigger] cursor@[t] == below(all, t)
                    + bucket(all.subrange(0, k + 1), t).len() by {
                    lemma_bucket_push(all.subrange(0, k as int), all[k as int], t);
                    assert(marks[t] == below(all, t) + bucket(all.subrange(0, k as int), t).len());
                }
                assert forall|t: int| 0 <= t < n implies #[trigger] edge@.subrange(
                    below(all, t) as int,
                    cursor@[t] as int,
                ) == bucket(all.subrange(0, k + 1), t) by {
                    lemma_bucket_push(all.subrange(0, k as int), all[k as int], t);
                    lemma_bucket_prefix(all, k as int, t);
                    lemma_below_step(all, t);
                    assert(marks[t] == below(all, t) + bucket(all.subrange(0, k as int), t).len());
                    assert(before.subrange(below(all, t) as int, marks[t] as int) == bucket(
                        all.subrange(0, k as int),
                        t,
                    ));
                    lemma_below_step(all, u as int);
                    lemma_below_step(all, t + 1);
                    lemma_bucket_prefix(all, k as int, u as int);
                    assert(marks[t] <= below(all, t + 1) <= m);
                    assert(marks[u as int] == below(all, u as int) + bucket(
                        all.subrange(0, k as int),
                        u as int,
                    ).len());
                    assert(pos == marks[u as int]);
                    if t < u {
                        Self::lemma_below_monotone(all, t + 1, u as int);
                        assert(marks[t] <= pos);
                    } else if t > u {
                        Self::lemma_below_monotone(all, u + 1, t);
                        assert(pos < below(all, t));
                    }
                    if t == u {
                        assert(edge@.subrange(below(all, t) as int, cursor@[t] as int)
                            =~= before.subrange(below(all, t) as int, marks[t] as int).push(
                            all[k as int].1,
                        ));
                    } else {
                        assert(edge@.subrange(below(all, t) as int, cursor@[t] as int)
                            =~= before.subrange(below(all, t) as int, marks[t] as int));
                    }
                }
            }
            k += 1;
        }
        proof {
            assert(all.subrange(0, m as int) =~= all);
            assert forall|u: int, v: int| 0 <= u <= v <= n implies offset@[u] <= offset@[v] by {
                Self::lemma_below_monotone(all, u, v);
            }
            assert forall|u: int| 0 <= u < n implies #[trigger] lists_of(offset@, edge@)[u]
                == bucket(all, u) by {
                lemma_below_step(all, u);
                assert(cursor@[u] == offset@[u + 1]);
            }
        }
        (offset, edge)
    }

    /// The arcs below `u` are among the arcs below `v` when `u <= v`.
    proof fn lemma_below_monotone<A>(arcs: Seq<(usize, A)>, u: int, v: int)
        requires
            u <= v,
        ensures
            below(arcs, u) <= below(arcs, v),
        decreases arcs.len(),
    {
        if arcs.len() > 0 {
            Self::lemma_below_monotone(arcs.drop_last(), u, v);
        }
    }

    /// No bucket holds more arcs than there are.
    proof fn lemma_bucket_bound<A>(arcs: Seq<(usize, A)>, u: int)
        ensures
            bucket(arcs, u).len() <= arcs.len(),
        decreases arcs.len(),
    {
        if arcs.len() > 0 {
            Self::lemma_bucket_bound(arcs.drop_last(), u);
        }
    }

    /// Wraps offsets and arcs that stand for the buckets of `arcs`.
    fn assemble(
        n: usize,
        offset: Vec<usize>,
        edge: Vec<(usize, W)>,
        Ghost(arcs): Ghost<Seq<(usize, (usize, W))>>,
    ) -> (res: Self)
        requires
            offset@.len() == n + 1,
            edge@.len() == arcs.len(),
            offset@[0] == 0,
            offset@[n as int] == arcs.len(),
            forall|u: int, v: int| 0 <= u <= v <= n ==> offset@[u] <= offset@[v],
            forall|u: int| 0 <= u < n ==> #[trigger] lists_of(offset@, edge@)[u] == bucket(arcs, u),
            drawn_from(edge@, arcs),
            forall|k: int| 0 <= k < arcs.len() ==> (#[trigger] arcs[k]).1.0 < n,
        ensures
            res.wf(),
            res@.len() == n,
            res.arc_count() == arcs.len(),
            forall|u: int| 0 <= u < n ==> #[trigger] res@[u] == bucket(arcs, u),
    {
        Csr { offset, edge }
    }

    /// Creates the directed graph with `n` vertices and an arc for every
    /// edge, from its first to its second vertex.
    pub fn from_directed_weighted(n: usize, edges: &[(usize, usize, W)]) -> (res: Self)
        requires
            n < usize::MAX,
            forall|k: int|
                0 <= k < edges@.len() ==> (#[trigger] edges@[k]).0 < n && edges@[k].1 < n,
        ensures
            res.wf(),
            res@.len() == n,
            res.arc_count() == edges@.len(),
            forall|u: int|
                0 <= u < n ==> #[trigger] res@[u] == bucket(directed_arcs(edges@), u),
    {
        let m = edges.len();
        let mut arcs: Vec<(usize, (usize, W))> = Vec::with_capacity(m);
        let mut k: usize = 0;
        while k < m
            invariant
                k <= m,
                m == edges@.len(),
                arcs@ == directed_arcs(edges@).subrange(0, k as int),
            decreases m - k,
        {
            let e = edges[k];
            arcs.push((e.0, (e.1, e.2)));
            proof {
                assert(arcs@ =~= directed_arcs(edges@).subrange(0, k + 1));
            }
            k += 1;
        }
        proof {
            assert(arcs@ =~= directed_arcs(edges@));
        }
        let (offset, edge) = Self::build(n, &arcs);
        Self::assemble(n, offset, edge, Ghost(arcs@))
    }

    /// Creates the undirected graph with `n` vertices: every edge appears
    /// in the list of its first vertex and then in that of its second.
    pub fn from_undirected_weighted(n: usize, edges: &[(usize, usize, W)]) -> (res: Self)
        requires
            n < usize::MAX,
            2 * edges@.len() <= usize::MAX,
            forall|k: int|
                0 <= k < edges@.len() ==> (#[trigger] edges@[k]).0 < n && edges@[k].1 < n,
        ensures
            res.wf(),
            res@.len() == n,
            res.arc_count() == 2 * edges@.len(),
            forall|u: int|
                0 <= u < n ==> #[trigger] res@[u] == bucket(undirected_arcs(edges@), u),
    {
        let m = edges.len();
        let mut arcs: Vec<(usize, (usize, W))> = Vec::with_capacity(2 * m);
        let mut k: usize = 0;
        while k < m
            invariant
                k <= m,
                m == edges@.len(),
                2 * m <= usize::MAX,
                arcs@ == undirected_arcs(edges@).subrange(0, 2 * k),
            decreases m - k,
        {
            let e = edges[k];
            arcs.push((e.0, (e.1, e.2)));
            arcs.push((e.1, (e.0, e.2)));
            proof {
                assert(arcs@ =~= undirected_arcs(edges@).subrange(0, 2 * k + 2));
            }
            k += 1;
        }
        proof {
            assert(arcs@ =~= undirected_arcs(edges@));
            assert forall|j: int| 0 <= j < arcs@.len() implies (#[trigger] arcs@[j]).0 < n by {
                assert(edges@[j / 2].0 < n && edges@[j / 2].1 < n);
            }
        }
        let (offset, edge) = Self::build(n, &arcs);
        Self::assemble(n, offset, edge, Ghost(arcs@))
    }

    /// Returns the number of entries of the adjacency list of `v`.
    pub fn deg(&self, v: usize) -> (res: usize)
        requires
            self.wf(),
            v < self@.len(),
        ensures
            res == self@[v as int].len(),
    {
        proof {
            assert(self.offset.len() == self.offset@.len());
        }
        self.offset[v + 1] - self.offset[v]
    }

    /// Returns the adjacency list of `v`.
    pub fn adj(&self, v: usize) -> (res: &[(usize, W)])
        requires
            self.wf(),
            v < self@.len(),
        ensures
            res@ == self@[v as int],
    {
        proof {
            assert(self.offset.len() == self.offset@.len());
        }
        vstd::slice::slice_subrange(self.edge.as_slice(), self.offset[v], self.offset[v + 1])
    }

    /// Returns the graph with every arc turned around; the arcs that
    /// enter a vertex keep the order of their sources, and arcs from one
    /// source the order of its list.
    pub fn reverse(&self) -> (res: Self)
        requires
            self.wf(),
        ensures
            res.wf(),
            res@.len() == self@.len(),
            res.arc_count() == self.arc_count(),
            forall|v: int|
                0 <= v < self@.len() ==> #[trigger] res@[v] == bucket(
                    turned_arcs(self@, self@.len()),
                    v,
                ),
    {
        let n = self.num_vertices();
        let mut arcs: Vec<(usize, (usize, W))> = Vec::new();
        let mut u: usize = 0;
        proof {
            assert(self.offset@.len() == self.offset.len());
        }
        while u < n
            invariant
                self.wf(),
                n == self@.len(),
                n + 1 == self.offset@.len(),
                u <= n,
                arcs@ == turned_arcs(self@, u as nat),
                arcs@.len() == self.offset@[u as int],
                forall|k: int|
                    0 <= k < arcs@.len() ==> (#[trigger] arcs@[k]).0 < n && arcs@[k].1.0 < n,
            decreases n - u,
        {
            let list = self.adj(u);
            let ghost done = arcs@;
            let mut j: usize = 0;
            proof {
                assert forall|t: int| 0 <= t < list@.len() implies (#[trigger] list@[t]).0 < n by {
                    self.lemma_neighbours(u as int, t);
                }
            }
            while j < list.len()
                invariant
                    u < n,
                    list@ == self@[u as int],
                    j <= list@.len(),
                    arcs@ == done + Seq::new(j as nat, |t: int| (list@[t].0, (u, list@[t].1))),
                    forall|k: int|
                        0 <= k < done.len() ==> (#[trigger] done[k]).0 < n && done[k].1.0 < n,
                    forall|t: int| 0 <= t < list@.len() ==> (#[trigger] list@[t]).0 < n,
                decreases list@.len() - j,
            {
                let (v, w) = list[j];
                arcs.push((v, (u, w)));
                proof {
                    assert(arcs@ =~= done + Seq::new(
                        (j + 1) as nat,
                        |t: int| (list@[t].0, (u, list@[t].1)),
                    ));
                }
                j += 1;
            }
            u += 1;
        }
        let (offset, edge) = Self::build(n, &arcs);
        Self::assemble(n, offset, edge, Ghost(arcs@))
    }

    /// Returns the number of vertices.
    pub fn num_vertices(&self) -> (res: usize)
        requires
            self.wf(),
        ensures
            res == self@.len(),
    {
        self.offset.len() - 1
    }

    /// Returns the total number of entries of all adjacency lists: one
    /// for every edge of a directed graph, two for every edge of an
    /// undirected one.
    pub fn num_edges(&self) -> (res: usize)
        ensures
            res == self.arc_count(),
    {
        self.edge.len()
    }
}

impl Csr<()> {
    /// Creates the directed graph with `n` vertices and an arc for every
    /// edge, from its first to its second vertex.
    pub fn from_directed_unweighted(n: usize, edges: &[(usize, usize)]) -> (res: Self)
        requires
            n < usize::MAX,
            forall|k: int|
                0 <= k < edges@.len() ==> (#[trigger] edges@[k]).0 < n && edges@[k].1 < n,
        ensures
            res.wf(),
            res@.len() == n,
            res.arc_count() == edges@.len(),
            forall|u: int|
                0 <= u < n ==> #[trigger] res@[u] == bucket(
                    directed_arcs(unit_edges(edges@)),
                    u,
                ),
    {
        let m = edges.len();
        let mut arcs: Vec<(usize, (usize, ()))> = Vec::with_capacity(m);
        let mut k: usize = 0;
        while k < m
            invariant
                k <= m,
                m == edges@.len(),
                arcs@ == directed_arcs(unit_edges(edges@)).subrange(0, k as int),
            decreases m - k,
        {
            let e = edges[k];
            arcs.push((e.0, (e.1, ())));
            proof {
                assert(arcs@ =~= directed_arcs(unit_edges(edges@)).subrange(0, k + 1));
            }
            k += 1;
        }
        proof {
            assert(arcs@ =~= directed_arcs(unit_edges(edges@)));
        }
        let (offset, edge) = Self::build(n, &arcs);
        Self::assemble(n, offset, edge, Ghost(arcs@))
    }

    /// Creates the undirected graph with `n` vertices: every edge appears
    /// in the list of its first vertex and then in that of its second.
    pub fn from_undirected_unweighted(n: usize, edges: &[(usize, usize)]) -> (res: Self)
        requires
            n < usize::MAX,
            2 * edges@.len() <= usize::MAX,
            forall|k: int|
                0 <= k < edges@.len() ==> (#[trigger] edges@[k]).0 < n && edges@[k].1 < n,
        ensures
            res.wf(),
            res@.len() == n,
            res.arc_count() == 2 * edges@.len(),
            forall|u: int|
                0 <= u < n ==> #[trigger] res@[u] == bucket(
                    undirected_arcs(unit_edges(edges@)),
                    u,
                ),
    {
        let m = edges.len();
        let mut arcs: Vec<(usize, (usize, ()))> = Vec::with_capacity(2 * m);
        let mut k: usize = 0;
        while k < m
            invariant
                k <= m,
                m == edges@.len(),
                2 * m <= usize::MAX,
                arcs@ == undirected_arcs(unit_edges(edges@)).subrange(0, 2 * k),
            decreases m - k,
        {
            let e = edges[k];
            arcs.push((e.0, (e.1, ())));
            arcs.push((e.1, (e.0, ())));
            proof {
                assert(arcs@ =~= undirected_arcs(unit_edges(edges@)).subrange(0, 2 * k + 2));
            }
            k += 1;
        }
        proof {
            assert(arcs@ =~= undirected_arcs(unit_edges(edges@)));
            assert forall|j: int| 0 <= j < arcs@.len() implies (#[trigger] arcs@[j]).0 < n by {
                assert(edges@[j / 2].0 < n && edges@[j / 2].1 < n);
            }
        }
        let (offset, edge) = Self::build(n, &arcs);
        Self::assemble(n, offset, edge, Ghost(arcs@))
    }
}

} // verus!
