//! A disjoint-set forest with union by size and path halving.

use vstd::prelude::*;

verus! {

/// The number of indices of `reps` whose representative is `r`.
pub open spec fn class_size(reps: Seq<int>, r: int) -> nat
    decreases reps.len(),
{
    if reps.len() == 0 {
        0
    } else {
        class_size(reps.drop_last(), r) + if reps.last() == r {
            1nat
        } else {
            0nat
        }
    }
}

/// The number of indices below `k` that are their own representative.
pub open spec fn root_count(reps: Seq<int>, k: int) -> nat
    decreases k,
{
    if k <= 0 {
        0
    } else {
        root_count(reps, k - 1) + if reps[k - 1] == k - 1 {
            1nat
        } else {
            0nat
        }
    }
}

/// The number of classes of the partition that `reps` describes.
pub open spec fn class_count(reps: Seq<int>) -> nat {
    root_count(reps, reps.len() as int)
}

/// The representatives after the class of `loser` has been merged into the
/// class of `winner`.
pub open spec fn merged(reps: Seq<int>, winner: int, loser: int) -> Seq<int> {
    Seq::new(
        reps.len(),
        |i: int|
            if reps[i] == loser {
                winner
            } else {
                reps[i]
            },
    )
}

/// Two different classes together hold no more indices than there are.
pub proof fn lemma_class_sizes(reps: Seq<int>, a: int, b: int)
    requires
        a != b,
    ensures
        class_size(reps, a) + class_size(reps, b) <= reps.len(),
    decreases reps.len(),
{
    if reps.len() > 0 {
        lemma_class_sizes(reps.drop_last(), a, b);
    }
}

/// A class that holds an index is not empty.
pub proof fn lemma_class_nonempty(reps: Seq<int>, i: int)
    requires
        0 <= i < reps.len(),
    ensures
        class_size(reps, reps[i]) >= 1,
    decreases reps.len(),
{
    if i < reps.len() - 1 {
        lemma_class_nonempty(reps.drop_last(), i);
    }
}

/// Merging adds the size of the losing class to the winning one, empties
/// the losing one and leaves the size of every other class unchanged.
pub proof fn lemma_merged_sizes(reps: Seq<int>, winner: int, loser: int, r: int)
    requires
        winner != loser,
    ensures
        class_size(merged(reps, winner, loser), r) == if r == winner {
            class_size(reps, winner) + class_size(reps, loser)
        } else if r == loser {
            0
        } else {
            class_size(reps, r)
        },
    decreases reps.len(),
{
    if reps.len() > 0 {
        lemma_merged_sizes(reps.drop_last(), winner, loser, r);
        assert(merged(reps, winner, loser).drop_last() =~= merged(
            reps.drop_last(),
            winner,
            loser,
        ));
    }
}

/// The number of roots below `k` only depends on the representatives
/// below `k`.
proof fn lemma_root_count_merged(reps: Seq<int>, winner: int, loser: int, k: int)
    requires
        winner != loser,
        0 <= k <= reps.len(),
        0 <= winner < reps.len(),
        0 <= loser < reps.len(),
        reps[winner] == winner,
        reps[loser] == loser,
    ensures
        root_count(merged(reps, winner, loser), k) + (if loser < k {
            1nat
        } else {
            0nat
        }) == root_count(reps, k),
    decreases k,
{
    if k > 0 {
        lemma_root_count_merged(reps, winner, loser, k - 1);
    }
}

/// Merging two different classes leaves one class less.
pub proof fn lemma_merged_count(reps: Seq<int>, winner: int, loser: int)
    requires
        winner != loser,
        0 <= winner < reps.len(),
        0 <= loser < reps.len(),
        reps[winner] == winner,
        reps[loser] == loser,
    ensures
        class_count(merged(reps, winner, loser)) + 1 == class_count(reps),
{
    lemma_root_count_merged(reps, winner, loser, reps.len() as int);
}

/// When every index is its own representative, every class holds one index
/// and there are as many classes as indices.
pub proof fn lemma_singletons(reps: Seq<int>, k: int, r: int)
    requires
        0 <= k <= reps.len(),
        forall|i: int| 0 <= i < reps.len() ==> reps[i] == i,
    ensures
        root_count(reps, k) == k,
        class_size(reps.subrange(0, k), r) == if 0 <= r < k {
            1nat
        } else {
            0nat
        },
    decreases k,
{
    if k > 0 {
        lemma_singletons(reps, k - 1, r);
        assert(reps.subrange(0, k).drop_last() =~= reps.subrange(0, k - 1));
    }
}

/// A disjoint-set forest over the indices `0 .. n`.
pub struct Dsu {
    parent: Vec<i32>,
    count: usize,
    reps: Ghost<Seq<int>>,
    rank: Ghost<Seq<nat>>,
}

impl View for Dsu {
    type V = Seq<int>;

    /// For every index, the representative of its class.
    closed spec fn view(&self) -> Seq<int> {
        self.reps@
    }
}

impl Dsu {
    /// The parent links form a forest whose roots are the representatives
    /// and carry the sizes of their classes.
    pub closed spec fn wf(&self) -> bool {
        let n = self.parent@.len() as int;
        let reps = self.reps@;
        let rank = self.rank@;
        &&& n < 0x8000_0000
        &&& reps.len() == n
        &&& rank.len() == n
        &&& self.count == class_count(reps)
        &&& forall|i: int|
            0 <= i < n ==> 0 <= #[trigger] reps[i] < n && self.parent@[reps[i]] < 0 && rank[i]
                <= rank[reps[i]]
        &&& forall|i: int|
            0 <= i < n && #[trigger] self.parent@[i] < 0 ==> reps[i] == i && -self.parent@[i]
                == class_size(reps, i)
        &&& forall|i: int|
            0 <= i < n && #[trigger] self.parent@[i] >= 0 ==> self.parent@[i] < n
                && reps[self.parent@[i] as int] == reps[i] && rank[self.parent@[i] as int]
                > rank[i]
    }

    /// In a well-formed forest every representative is an index that
    /// represents itself.
    pub proof fn lemma_representatives(&self, i: int)
        requires
            self.wf(),
            0 <= i < self@.len(),
        ensures
            0 <= self@[i] < self@.len(),
            self@[self@[i]] == self@[i],
    {
        assert(self.parent@[self.reps@[i]] < 0);
    }

    /// Creates a new forest of `n` singleton classes.
    pub fn new(n: usize) -> (res: Self)
        requires
            n < 0x8000_0000,
        ensures
            res.wf(),
            res@.len() == n,
            forall|i: int| 0 <= i < n ==> res@[i] == i,
    {
        let parent = vec![-1i32; n];
        let ghost reps = Seq::new(n as nat, |i: int| i);
        let ghost rank = Seq::new(n as nat, |i: int| 0nat);
        let res = Dsu { parent, count: n, reps: Ghost(reps), rank: Ghost(rank) };
        proof {
            lemma_singletons(reps, n as int, 0);
            assert forall|i: int| 0 <= i < n && #[trigger] res.parent@[i] < 0 implies reps[i] == i
                && -res.parent@[i] == class_size(reps, i) by {
                lemma_singletons(reps, n as int, i);
                assert(reps.subrange(0, n as int) =~= reps);
            }
        }
        res
    }

    /// Returns the representative of the class of `x`.
    pub fn root(&mut self, x: usize) -> (res: usize)
        requires
            old(self).wf(),
            x < old(self)@.len(),
        ensures
            final(self).wf(),
            final(self)@ == old(self)@,
            res == old(self)@[x as int],
    {
        let ghost start = x as int;
        let mut x = x;
        let ghost reps = self.reps@;
        let ghost rank = self.rank@;
        let ghost top = rank[reps[x as int]];
        while self.parent[x] >= 0
            invariant
                self.wf(),
                self.reps@ == reps,
                self.rank@ == rank,
                reps == old(self)@,
                x < reps.len(),
                reps[x as int] == old(self)@[start],
                top == rank[reps[x as int]],
            decreases top - rank[x as int],
        {
            let px = self.parent[x] as usize;
            if self.parent[px] >= 0 {
                let g = self.parent[px];
                let ghost prev = self.parent@;
                self.parent[x] = g;
                proof {
                    assert(prev[x as int] >= 0);
                    assert(prev[px as int] >= 0);
                    assert forall|i: int|
                        0 <= i < reps.len() implies 0 <= #[trigger] reps[i] < reps.len()
                        && self.parent@[reps[i]] < 0 && rank[i] <= rank[reps[i]] by {
                        assert(prev[reps[i]] < 0);
                    }
                    assert forall|i: int|
                        0 <= i < reps.len() && #[trigger] self.parent@[i] < 0 implies reps[i] == i
                        && -self.parent@[i] == class_size(reps, i) by {
                        assert(prev[i] < 0);
                    }
                    assert forall|i: int|
                        0 <= i < reps.len() && #[trigger] self.parent@[i] >= 0 implies self.parent@[i]
                        < reps.len() && reps[self.parent@[i] as int] == reps[i]
                        && rank[self.parent@[i] as int] > rank[i] by {
                        assert(prev[i] >= 0);
                    }
                }
            }
            proof {
                assert(self.parent@[x as int] >= 0);
                assert(rank[px as int] <= rank[reps[px as int]]);
            }
            x = px;
        }
        x
    }

    /// Merges the classes of `x` and `y`.  Returns whether they were
    /// different; the representative of the larger class, and that of `x`
    /// when both are equally large, represents the merged class.
    pub fn unite(&mut self, x: usize, y: usize) -> (res: bool)
        requires
            old(self).wf(),
            x < old(self)@.len(),
            y < old(self)@.len(),
        ensures
            final(self).wf(),
            res == (old(self)@[x as int] != old(self)@[y as int]),
            !res ==> final(self)@ == old(self)@,
            res ==> final(self)@ == if class_size(old(self)@, old(self)@[x as int]) >= class_size(
                old(self)@,
                old(self)@[y as int],
            ) {
                merged(old(self)@, old(self)@[x as int], old(self)@[y as int])
            } else {
                merged(old(self)@, old(self)@[y as int], old(self)@[x as int])
            },
    {
        let mut rx = self.root(x);
        let mut ry = self.root(y);
        if rx == ry {
            return false;
        }
        let ghost reps = self.reps@;
        let ghost rank = self.rank@;
        let ghost prev = self.parent@;
        proof {
            assert(prev[reps[x as int]] < 0);
            assert(prev[reps[y as int]] < 0);
            lemma_class_sizes(reps, rx as int, ry as int);
            lemma_class_nonempty(reps, rx as int);
            lemma_class_nonempty(reps, ry as int);
        }
        if self.parent[rx] > self.parent[ry] {
            let t = rx;
            rx = ry;
            ry = t;
        }
        let total = self.parent[rx] + self.parent[ry];
        self.parent[rx] = total;
        self.parent[ry] = rx as i32;
        proof {
            let winner = rx as int;
            let loser = ry as int;
            let reps2 = merged(reps, winner, loser);
            let lifted = if rank[winner] > rank[loser] {
                rank[winner]
            } else {
                rank[loser] + 1
            };
            let rank2 = rank.update(winner, lifted);
            lemma_merged_count(reps, winner, loser);
            self.reps = Ghost(reps2);
            self.rank = Ghost(rank2);
            assert forall|i: int|
                0 <= i < reps.len() implies 0 <= #[trigger] reps2[i] < reps.len()
                && self.parent@[reps2[i]] < 0 && rank2[i] <= rank2[reps2[i]] by {
                assert(prev[reps[i]] < 0);
            }
            assert forall|i: int|
                0 <= i < reps.len() && #[trigger] self.parent@[i] < 0 implies reps2[i] == i
                && -self.parent@[i] == class_size(reps2, i) by {
                assert(prev[i] < 0);
                lemma_merged_sizes(reps, winner, loser, i);
            }
            assert forall|i: int|
                0 <= i < reps.len() && #[trigger] self.parent@[i] >= 0 implies self.parent@[i]
                < reps.len() && reps2[self.parent@[i] as int] == reps2[i]
                && rank2[self.parent@[i] as int] > rank2[i] by {
                if i != loser {
                    assert(prev[i] >= 0);
                    assert(rank[prev[i] as int] <= rank[reps[prev[i] as int]]);
                }
            }
        }
        self.count -= 1;
        true
    }

    /// Returns whether `x` and `y` belong to the same class.
    pub fn same(&mut self, x: usize, y: usize) -> (res: bool)
        requires
            old(self).wf(),
            x < old(self)@.len(),
            y < old(self)@.len(),
        ensures
            final(self).wf(),
            final(self)@ == old(self)@,
            res == (old(self)@[x as int] == old(self)@[y as int]),
    {
        let rx = self.root(x);
        let ry = self.root(y);
        rx == ry
    }

    /// Returns the number of indices in the class of `x`.
    pub fn set_size(&mut self, x: usize) -> (res: usize)
        requires
            old(self).wf(),
            x < old(self)@.len(),
        ensures
            final(self).wf(),
            final(self)@ == old(self)@,
            res == class_size(old(self)@, old(self)@[x as int]),
    {
        let root = self.root(x);
        proof {
            assert(self.parent@[self.reps@[x as int]] < 0);
            lemma_class_sizes(self.reps@, root as int, -1);
        }
        (-self.parent[root]) as usize
    }

    /// Returns the number of classes.
    pub fn num_sets(&self) -> (res: usize)
        requires
            self.wf(),
        ensures
            res == class_count(self@),
    {
        self.count
    }

    /// Returns the number of indices.
    pub fn len(&self) -> (res: usize)
        requires
            self.wf(),
        ensures
            res == self@.len(),
    {
        self.parent.len()
    }

    /// Returns whether there is no index at all.
    pub fn is_empty(&self) -> (res: bool)
        requires
            self.wf(),
        ensures
            res == (self@.len() == 0),
    {
        self.parent.len() == 0
    }
}

} // verus!
