//! Union-find over dense class ids.
//!
//! The representative of a set is the smallest id that has ever been a root
//! of it: joining two sets points the larger root at the smaller one, so
//! every parent pointer is at most its own index and chains terminate.

use vstd::prelude::*;

verus! {

pub struct UnionFind {
    pub parent: Vec<usize>,
}

impl UnionFind {
    /// Number of ids the structure knows.
    pub open spec fn n(self) -> int {
        self.parent@.len() as int
    }

    pub open spec fn wf(self) -> bool {
        forall|i: int| 0 <= i < self.n() ==> #[trigger] self.parent@[i] as int <= i
    }

    /// The representative of `i`: follow parent pointers until a fixpoint.
    pub open spec fn rootof(self, i: int) -> int
        decreases i,
    {
        if 0 <= i < self.n() && (self.parent@[i] as int) < i {
            self.rootof(self.parent@[i] as int)
        } else {
            i
        }
    }

    pub open spec fn is_root(self, i: int) -> bool {
        self.rootof(i) == i
    }

    pub open spec fn same(self, a: int, b: int) -> bool {
        self.rootof(a) == self.rootof(b)
    }

    /// Number of roots among the ids below `k`.
    pub open spec fn nroots(self, k: int) -> nat
        decreases k,
    {
        if k <= 0 {
            0
        } else {
            self.nroots(k - 1) + if self.is_root(k - 1) { 1nat } else { 0nat }
        }
    }

    pub proof fn lemma_rootof_le(self, i: int)
        ensures
            self.rootof(i) <= i,
            0 <= i ==> 0 <= self.rootof(i),
        decreases i,
    {
        if 0 <= i < self.n() && (self.parent@[i] as int) < i {
            self.lemma_rootof_le(self.parent@[i] as int);
        }
    }

    /// A representative is a fixpoint of `rootof`.
    pub proof fn lemma_rootof_idem(self, i: int)
        ensures
            self.rootof(self.rootof(i)) == self.rootof(i),
        decreases i,
    {
        if 0 <= i < self.n() && (self.parent@[i] as int) < i {
            self.lemma_rootof_idem(self.parent@[i] as int);
        }
    }

    /// `rootof` only reads parent entries at or below its argument, so two
    /// structures that agree below `k` give every id below `k` the same root.
    pub proof fn lemma_rootof_prefix(self, other: UnionFind, k: int, i: int)
        requires
            k <= self.n(),
            k <= other.n(),
            forall|j: int| 0 <= j < k ==> self.parent@[j] == other.parent@[j],
            i < k,
        ensures
            self.rootof(i) == other.rootof(i),
        decreases i,
    {
        if 0 <= i && (self.parent@[i] as int) < i {
            self.lemma_rootof_prefix(other, k, self.parent@[i] as int);
        }
    }

    /// Two structures that agree below `k` count the same roots there.
    pub proof fn lemma_nroots_prefix(self, other: UnionFind, k: int)
        requires
            k <= self.n(),
            k <= other.n(),
            forall|j: int| 0 <= j < k ==> self.parent@[j] == other.parent@[j],
        ensures
            self.nroots(k) == other.nroots(k),
        decreases k,
    {
        if k > 0 {
            self.lemma_nroots_prefix(other, k - 1);
            self.lemma_rootof_prefix(other, k, k - 1);
        }
    }

    /// Root counts grow with the range counted.
    pub proof fn lemma_nroots_mono(self, j: int, k: int)
        requires
            j <= k,
        ensures
            self.nroots(j) <= self.nroots(k),
        decreases k - j,
    {
        if j < k {
            self.lemma_nroots_mono(j, k - 1);
        }
    }

    /// Id 0 is always its own representative, so a non-empty structure has a
    /// root.
    pub proof fn lemma_nroots_pos(self, k: int)
        requires
            self.wf(),
            1 <= k <= self.n(),
        ensures
            self.nroots(k) >= 1,
    {
        assert(self.parent@[0] as int <= 0);
        assert(self.is_root(0));
        assert(self.nroots(1) == self.nroots(0) + 1);
        self.lemma_nroots_mono(1, k);
    }

    /// There are at most `k` roots below `k`.
    pub proof fn lemma_nroots_le(self, k: int)
        ensures
            self.nroots(k) <= if k <= 0 {
                0int
            } else {
                k
            },
        decreases k,
    {
        if k > 0 {
            self.lemma_nroots_le(k - 1);
        }
    }

    pub fn new() -> (r: UnionFind)
        ensures
            r.wf(),
            r.n() == 0,
    {
        UnionFind { parent: Vec::new() }
    }

    pub fn len(&self) -> (r: usize)
        ensures
            r as int == self.n(),
    {
        self.parent.len()
    }

    /// Add a fresh id, in its own singleton set.
    pub fn push(&mut self) -> (r: usize)
        requires
            old(self).wf(),
        ensures
            final(self).wf(),
            r as int == old(self).n(),
            final(self).n() == old(self).n() + 1,
            final(self).is_root(r as int),
            forall|i: int| 0 <= i < old(self).n() ==> final(self).rootof(i) == old(self).rootof(i),
            final(self).nroots(final(self).n()) == old(self).nroots(old(self).n()) + 1,
    {
        let r = self.parent.len();
        self.parent.push(r);
        proof {
            assert forall|i: int| 0 <= i < old(self).n() implies self.rootof(i) == old(self).rootof(
                i,
            ) by {
                old(self).lemma_rootof_prefix(*self, old(self).n(), i);
            }
            old(self).lemma_nroots_prefix(*self, old(self).n());
            assert(self.is_root(r as int));
            assert(self.nroots(self.n()) == self.nroots(old(self).n()) + 1);
        }
        r
    }

    pub fn find(&self, i: usize) -> (r: usize)
        requires
            self.wf(),
            i < self.n(),
        ensures
            r as int == self.rootof(i as int),
            self.is_root(r as int),
            r <= i,
    {
        let mut cur = i;
        loop
            invariant
                self.wf(),
                cur < self.n(),
                self.rootof(cur as int) == self.rootof(i as int),
                cur <= i,
            decreases cur,
        {
            let p = self.parent[cur];
            if p == cur {
                proof {
                    self.lemma_rootof_idem(i as int);
                }
                return cur;
            }
            cur = p;
        }
    }

    /// Merge the sets of two distinct roots; the smaller id wins.
    /// Returns the surviving root and the absorbed one.
    pub fn join_roots(&mut self, a: usize, b: usize) -> (r: (usize, usize))
        requires
            old(self).wf(),
            a < old(self).n(),
            b < old(self).n(),
            old(self).is_root(a as int),
            old(self).is_root(b as int),
            a != b,
        ensures
            final(self).wf(),
            final(self).n() == old(self).n(),
            r.0 == if a <= b {
                a
            } else {
                b
            },
            r.1 == if a <= b {
                b
            } else {
                a
            },
            forall|i: int|
                final(self).rootof(i) == if old(self).rootof(i) == r.1 as int {
                    r.0 as int
                } else {
                    old(self).rootof(i)
                },
            final(self).nroots(final(self).n()) == old(self).nroots(old(self).n()) - 1,
    {
        let winner: usize = if a <= b { a } else { b };
        let loser: usize = if a <= b { b } else { a };
        proof {
            // a root has a self parent pointer
            assert(old(self).parent@[a as int] == a) by {
                if (old(self).parent@[a as int] as int) < a as int {
                    old(self).lemma_rootof_le(old(self).parent@[a as int] as int);
                }
            }
            assert(old(self).parent@[b as int] == b) by {
                if (old(self).parent@[b as int] as int) < b as int {
                    old(self).lemma_rootof_le(old(self).parent@[b as int] as int);
                }
            }
        }
        self.parent[loser] = winner;
        proof {
            assert forall|i: int|
                self.rootof(i) == if old(self).rootof(i) == loser as int {
                    winner as int
                } else {
                    old(self).rootof(i)
                } by {
                old(self).lemma_join_rootof(*self, winner as int, loser as int, i);
            }
            old(self).lemma_nroots_join(*self, winner as int, loser as int, old(self).n());
        }
        (winner, loser)
    }

    /// After pointing `loser` (a root) at `winner` (a smaller root), every id
    /// whose root was `loser` now has root `winner`, and no other root moves.
    proof fn lemma_join_rootof(self, after: UnionFind, winner: int, loser: int, i: int)
        requires
            self.wf(),
            0 <= winner < self.n(),
            0 <= loser < self.n(),
            winner < loser,
            self.parent@[winner] as int == winner,
            self.parent@[loser] as int == loser,
            after.parent@ == self.parent@.update(loser, winner as usize),
        ensures
            after.rootof(i) == if self.rootof(i) == loser {
                winner
            } else {
                self.rootof(i)
            },
        decreases i,
    {
        if 0 <= i < self.n() {
            if i == loser {
                assert(after.parent@[i] as int == winner);
                assert(after.rootof(winner) == winner);
            } else {
                if (self.parent@[i] as int) < i {
                    self.lemma_join_rootof(after, winner, loser, self.parent@[i] as int);
                }
            }
        }
    }

    /// Joining removes exactly one root (the loser) among the ids below `k`.
    proof fn lemma_nroots_join(self, after: UnionFind, winner: int, loser: int, k: int)
        requires
            self.wf(),
            0 <= winner < self.n(),
            0 <= loser < self.n(),
            winner < loser,
            self.parent@[winner] as int == winner,
            self.parent@[loser] as int == loser,
            after.parent@ == self.parent@.update(loser, winner as usize),
            k <= self.n(),
        ensures
            after.nroots(k) == self.nroots(k) - if loser < k {
                1int
            } else {
                0int
            },
        decreases k,
    {
        if k > 0 {
            self.lemma_nroots_join(after, winner, loser, k - 1);
            self.lemma_join_rootof(after, winner, loser, k - 1);
            if k - 1 == loser {
                assert(!after.is_root(k - 1));
                assert(self.is_root(k - 1));
            }
        }
    }
}

} // verus!
