//! A disjoint-set forest whose indices carry potentials in a group: for two
//! indices of one class it knows the difference of their potentials.

use vstd::prelude::*;
use vstd::std_specs::cmp::PartialEqSpec;
use crate::algebra::Group;
use crate::disjoint_set::plain::{
    class_count, class_size, lemma_class_nonempty, lemma_class_sizes, lemma_merged_count,
    lemma_merged_sizes, lemma_singletons, merged,
};

verus! {

/// What a forest with potentials stands for.
pub struct Potentials<S> {
    /// For every index, the representative of its class.
    pub reps: Seq<int>,
    /// For every index, its potential relative to its representative.
    pub offsets: Seq<S>,
}

/// The offsets after the class of `loser` has been moved by `link`, the
/// potential of `loser` relative to the representative it joins.
pub open spec fn rebased<S: Group>(reps: Seq<int>, offsets: Seq<S>, loser: int, link: S) -> Seq<S> {
    Seq::new(
        offsets.len(),
        |i: int|
            if reps[i] == loser {
                link.op_spec(offsets[i])
            } else {
                offsets[i]
            },
    )
}

/// A disjoint-set forest over the indices `0 .. n` with potentials in `S`.
pub struct PotentialDsu<S: PartialEq + Group> {
    parent: Vec<i32>,
    potential: Vec<S>,
    count: usize,
    reps: Ghost<Seq<int>>,
    rank: Ghost<Seq<nat>>,
    offsets: Ghost<Seq<S>>,
}

impl<S: PartialEq + Group> View for PotentialDsu<S> {
    type V = Potentials<S>;

    /// The classes and the potentials within them.
    closed spec fn view(&self) -> Potentials<S> {
        Potentials { reps: self.reps@, offsets: self.offsets@ }
    }
}

impl<S: PartialEq + Group> PotentialDsu<S> {
    /// The parent links form a forest whose roots are the representatives
    /// and carry the sizes of their classes, and every stored potential is
    /// that of an index relative to its parent.
    pub closed spec fn wf(&self) -> bool {
        let n = self.parent@.len() as int;
        let reps = self.reps@;
        let rank = self.rank@;
        let offsets = self.offsets@;
        &&& n < 0x8000_0000
        &&& reps.len() == n
        &&& rank.len() == n
        &&& offsets.len() == n
        &&& self.potential@.len() == n
        &&& self.count == class_count(reps)
        &&& forall|i: int|
            0 <= i < n ==> 0 <= #[trigger] reps[i] < n && self.parent@[reps[i]] < 0 && rank[i]
                <= rank[reps[i]]
        &&& forall|i: int|
            0 <= i < n && #[trigger] self.parent@[i] < 0 ==> reps[i] == i && -self.parent@[i]
                == class_size(reps, i) && offsets[i] == S::id_spec()
        &&& forall|i: int|
            0 <= i < n && #[trigger] self.parent@[i] >= 0 ==> self.parent@[i] < n
                && reps[self.parent@[i] as int] == reps[i] && rank[self.parent@[i] as int]
                > rank[i] && offsets[i] == offsets[self.parent@[i] as int].op_spec(
                self.potential@[i],
            )
    }

    /// In a well-formed forest the view has one representative and one
    /// offset for every index, and a representative represents itself at
    /// offset zero.
    pub proof fn lemma_view(&self, i: int)
        requires
            self.wf(),
            0 <= i < self@.reps.len(),
        ensures
            self@.offsets.len() == self@.reps.len(),
            0 <= self@.reps[i] < self@.reps.len(),
            self@.reps[self@.reps[i]] == self@.reps[i],
            self@.offsets[self@.reps[i]] == S::id_spec(),
    {
        assert(self.parent@[self.reps@[i]] < 0);
    }

    /// Creates a new forest of `n` singleton classes.
    pub fn new(n: usize) -> (res: Self)
        requires
            n < 0x8000_0000,
        ensures
            res.wf(),
            res@.reps.len() == n,
            res@.offsets.len() == n,
            forall|i: int| 0 <= i < n ==> res@.reps[i] == i && res@.offsets[i] == S::id_spec(),
    {
        let parent = vec![-1i32; n];
        let potential = vec![S::id(); n];
        let ghost reps = Seq::new(n as nat, |i: int| i);
        let ghost rank = Seq::new(n as nat, |i: int| 0nat);
        let ghost offsets = Seq::new(n as nat, |i: int| S::id_spec());
        let res = PotentialDsu {
            parent,
            potential,
            count: n,
            reps: Ghost(reps),
            rank: Ghost(rank),
            offsets: Ghost(offsets),
        };
        proof {
            lemma_singletons(reps, n as int, 0);
            assert forall|i: int| 0 <= i < n && #[trigger] res.parent@[i] < 0 implies reps[i] == i
                && -res.parent@[i] == class_size(reps, i) && offsets[i] == S::id_spec() by {
                lemma_singletons(reps, n as int, i);
                assert(reps.subrange(0, n as int) =~= reps);
            }
        }
        res
    }

    /// Returns the representative of the class of `x` and the potential of
    /// `x` relative to it.
    pub fn root(&mut self, x: usize) -> (res: (usize, S))
        requires
            old(self).wf(),
            x < old(self)@.reps.len(),
        ensures
            final(self).wf(),
            final(self)@ == old(self)@,
            res.0 == old(self)@.reps[x as int],
            res.1 == old(self)@.offsets[x as int],
    {
        let ghost start = x as int;
        let mut x = x;
        let mut acc = S::id();
        let ghost reps = self.reps@;
        let ghost rank = self.rank@;
        let ghost offsets = self.offsets@;
        let ghost top = rank[reps[x as int]];
        proof {
            S::lemma_identity(offsets[start]);
        }
        while self.parent[x] >= 0
            invariant
                self.wf(),
                self.reps@ == reps,
                self.rank@ == rank,
                self.offsets@ == offsets,
                self@ == old(self)@,
                x < reps.len(),
                0 <= start < reps.len(),
                reps[x as int] == reps[start],
                top == rank[reps[x as int]],
                offsets[start] == offsets[x as int].op_spec(acc),
            decreases top - rank[x as int],
        {
            let px = self.parent[x] as usize;
            if self.parent[px] >= 0 {
                let g = self.parent[px];
                let np = self.potential[px].op(&self.potential[x]);
                let ghost prev = self.parent@;
                let ghost prev_pot = self.potential@;
                self.potential[x] = np;
                self.parent[x] = g;
                proof {
                    assert(prev[x as int] >= 0);
                    assert(prev[px as int] >= 0);
                    S::lemma_associative(offsets[g as int], prev_pot[px as int], prev_pot[x as int]);
                    assert forall|i: int|
                        0 <= i < reps.len() implies 0 <= #[trigger] reps[i] < reps.len()
                        && self.parent@[reps[i]] < 0 && rank[i] <= rank[reps[i]] by {
                        assert(prev[reps[i]] < 0);
                    }
                    assert forall|i: int|
                        0 <= i < reps.len() && #[trigger] self.parent@[i] < 0 implies reps[i] == i
                        && -self.parent@[i] == class_size(reps, i) && offsets[i]
                        == S::id_spec() by {
                        assert(prev[i] < 0);
                    }
                    assert forall|i: int|
                        0 <= i < reps.len() && #[trigger] self.parent@[i] >= 0 implies self.parent@[i]
                        < reps.len() && reps[self.parent@[i] as int] == reps[i]
                        && rank[self.parent@[i] as int] > rank[i] && offsets[i]
                        == offsets[self.parent@[i] as int].op_spec(self.potential@[i]) by {
                        assert(prev[i] >= 0);
                    }
                }
            }
            proof {
                assert(self.parent@[x as int] >= 0);
                let up = self.parent@[x as int] as int;
                assert(rank[up] <= rank[reps[up]]);
                S::lemma_associative(offsets[up], self.potential@[x as int], acc);
            }
            acc = self.potential[x].op(&acc);
            x = self.parent[x] as usize;
        }
        proof {
            S::lemma_identity(acc);
        }
        (x, acc)
    }

    /// Declares that the potential of `y` is that of `x` combined with `p`.
    ///
    /// If `x` and `y` already belong to one class, nothing changes and the
    /// result says whether the declaration agrees with what is known.
    /// Otherwise their classes are merged as the declaration demands, the
    /// representative of the larger class (that of `x` when both are
    /// equally large) represents the merged class, and the result is
    /// `true`.
    pub fn unite(&mut self, x: usize, y: usize, p: S) -> (res: bool)
        requires
            old(self).wf(),
            x < old(self)@.reps.len(),
            y < old(self)@.reps.len(),
        ensures
            final(self).wf(),
            old(self)@.reps[x as int] == old(self)@.reps[y as int] ==> final(self)@ == old(self)@
                && (S::obeys_eq_spec() ==> res == old(self)@.offsets[x as int].op_spec(p).eq_spec(
                &old(self)@.offsets[y as int],
            )),
            old(self)@.reps[x as int] != old(self)@.reps[y as int] ==> res && ({
                let reps = old(self)@.reps;
                let offsets = old(self)@.offsets;
                let rx = reps[x as int];
                let ry = reps[y as int];
                let link = offsets[x as int].op_spec(p).op_spec(offsets[y as int].inv_spec());
                if class_size(reps, rx) >= class_size(reps, ry) {
                    final(self)@ == (Potentials {
                        reps: merged(reps, rx, ry),
                        offsets: rebased(reps, offsets, ry, link),
                    })
                } else {
                    final(self)@ == (Potentials {
                        reps: merged(reps, ry, rx),
                        offsets: rebased(reps, offsets, rx, link.inv_spec()),
                    })
                }
            }),
    {
        let (rx0, px) = self.root(x);
        let (ry0, py) = self.root(y);
        if rx0 == ry0 {
            return px.op(&p) == py;
        }
        let mut rx = rx0;
        let mut ry = ry0;
        let ghost reps = self.reps@;
        let ghost rank = self.rank@;
        let ghost offsets = self.offsets@;
        let ghost prev = self.parent@;
        let ghost prev_pot = self.potential@;
        proof {
            assert(prev[reps[x as int]] < 0);
            assert(prev[reps[y as int]] < 0);
            lemma_class_sizes(reps, rx as int, ry as int);
            lemma_class_nonempty(reps, rx as int);
            lemma_class_nonempty(reps, ry as int);
        }
        let mut d = px.op(&p).op(&py.inv());
        if self.parent[rx] > self.parent[ry] {
            let t = rx;
            rx = ry;
            ry = t;
            d = d.inv();
        }
        let total = self.parent[rx] + self.parent[ry];
        self.parent[rx] = total;
        self.parent[ry] = rx as i32;
        self.potential[ry] = d;
        proof {
            let winner = rx as int;
            let loser = ry as int;
            let reps2 = merged(reps, winner, loser);
            let offsets2 = rebased(reps, offsets, loser, d);
            let lifted = if rank[winner] > rank[loser] {
                rank[winner]
            } else {
                rank[loser] + 1
            };
            let rank2 = rank.update(winner, lifted);
            lemma_merged_count(reps, winner, loser);
            self.reps = Ghost(reps2);
            self.rank = Ghost(rank2);
            self.offsets = Ghost(offsets2);
            S::lemma_identity(d);
            assert forall|i: int|
                0 <= i < reps.len() implies 0 <= #[trigger] reps2[i] < reps.len()
                && self.parent@[reps2[i]] < 0 && rank2[i] <= rank2[reps2[i]] by {
                assert(prev[reps[i]] < 0);
            }
            assert forall|i: int|
                0 <= i < reps.len() && #[trigger] self.parent@[i] < 0 implies reps2[i] == i
                && -self.parent@[i] == class_size(reps2, i) && offsets2[i] == S::id_spec() by {
                assert(prev[i] < 0);
                lemma_merged_sizes(reps, winner, loser, i);
            }
            assert forall|i: int|
                0 <= i < reps.len() && #[trigger] self.parent@[i] >= 0 implies self.parent@[i]
                < reps.len() && reps2[self.parent@[i] as int] == reps2[i]
                && rank2[self.parent@[i] as int] > rank2[i] && offsets2[i]
                == offsets2[self.parent@[i] as int].op_spec(self.potential@[i]) by {
                if i != loser {
                    assert(prev[i] >= 0);
                    let up = prev[i] as int;
                    assert(rank[up] <= rank[reps[up]]);
                    S::lemma_associative(d, offsets[up], prev_pot[i]);
                } else {
                    assert(prev[winner] < 0);
                }
            }
        }
        self.count -= 1;
        true
    }

    /// Returns the potential of `y` relative to `x`, that is the inverse of
    /// the offset of `x` combined with the offset of `y`, if both belong to
    /// one class.
    pub fn potential(&mut self, x: usize, y: usize) -> (res: Option<S>)
        requires
            old(self).wf(),
            x < old(self)@.reps.len(),
            y < old(self)@.reps.len(),
        ensures
            final(self).wf(),
            final(self)@ == old(self)@,
            res == if old(self)@.reps[x as int] == old(self)@.reps[y as int] {
                Some(old(self)@.offsets[x as int].inv_spec().op_spec(old(self)@.offsets[y as int]))
            } else {
                None
            },
    {
        let (rx, px) = self.root(x);
        let (ry, py) = self.root(y);
        if rx == ry {
            Some(px.inv().op(&py))
        } else {
            None
        }
    }

    /// Returns the number of indices in the class of `x`.
    pub fn set_size(&mut self, x: usize) -> (res: usize)
        requires
            old(self).wf(),
            x < old(self)@.reps.len(),
        ensures
            final(self).wf(),
            final(self)@ == old(self)@,
            res == class_size(old(self)@.reps, old(self)@.reps[x as int]),
    {
        let (root, _) = self.root(x);
        proof {
            assert(self.parent@[self.reps@[x as int]] < 0);
            lemma_class_sizes(self.reps@, root as int, -1);
        }
        (-self.parent[root]) as usize
    }

    /// Returns the number of classes.
    pub fn num_sets(&self) -> (res: usize)
        requires
            self.wf(),
        ensures
            res == class_count(self@.reps),
    {
        self.count
    }

    /// Returns the number of indices.
    pub fn len(&self) -> (res: usize)
        requires
            self.wf(),
        ensures
            res == self@.reps.len(),
    {
        self.parent.len()
    }

    /// Returns whether there is no index at all.
    pub fn is_empty(&self) -> (res: bool)
        requires
            self.wf(),
        ensures
            res == (self@.reps.len() == 0),
    {
        self.parent.len() == 0
    }
}

} // verus!
