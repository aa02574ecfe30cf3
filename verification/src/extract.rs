//! Cost-based extraction.
//!
//! For every class a cheapest member node is computed by iterative
//! relaxation to a fixpoint; classes may sit in cycles of equivalent nodes,
//! so a single bottom-up pass would be unsound.  The cost of a term is its
//! size: every node counts one, children are summed.  `find_best` then walks
//! the recorded choices and materializes the minimum-size concrete term of a
//! class; ties are broken towards the first member seen.

use vstd::prelude::*;

use crate::graph::{EGraph, ENode, EngineError, Head};
use crate::term::{Expr, Id, TermNode};

verus! {

/// The cost table: for each class, the chosen member node and its cost.
pub type BestTable = Vec<Option<(usize, u64)>>;

/// The recorded cost of class `c`, or nothing.
pub open spec fn cost_of(best: Seq<Option<(usize, u64)>>, c: int) -> Option<u64> {
    match best[c] {
        Some(kw) => Some(kw.1),
        None => None,
    }
}

/// Every child among `ch[j..]` has a recorded cost.
pub open spec fn all_some(best: Seq<Option<(usize, u64)>>, ch: Seq<usize>) -> bool {
    forall|j: int| 0 <= j < ch.len() ==> (#[trigger] ch[j] as int) < best.len() && best[ch[j] as int] is Some
}

/// Sum of the recorded costs of the children from position `j` on; an
/// unrecorded child contributes nothing.
pub open spec fn costs_sum_from(best: Seq<Option<(usize, u64)>>, ch: Seq<usize>, j: int) -> int
    decreases ch.len() - j,
{
    if j < 0 || j >= ch.len() {
        0
    } else {
        (match best[ch[j] as int] {
            Some(kw) => kw.1 as int,
            None => 0,
        }) + costs_sum_from(best, ch, j + 1)
    }
}

pub open spec fn costs_sum(best: Seq<Option<(usize, u64)>>, ch: Seq<usize>) -> int {
    costs_sum_from(best, ch, 0)
}

pub proof fn lemma_costs_sum_nonneg(best: Seq<Option<(usize, u64)>>, ch: Seq<usize>, j: int)
    ensures
        costs_sum_from(best, ch, j) >= 0,
    decreases ch.len() - j,
{
    if 0 <= j < ch.len() {
        lemma_costs_sum_nonneg(best, ch, j + 1);
    }
}

/// The partial sums only grow as more children are counted.
pub proof fn lemma_costs_sum_split(best: Seq<Option<(usize, u64)>>, ch: Seq<usize>, j: int)
    requires
        0 <= j < ch.len(),
    ensures
        costs_sum_from(best, ch, j) == (match best[ch[j] as int] {
            Some(kw) => kw.1 as int,
            None => 0,
        }) + costs_sum_from(best, ch, j + 1),
{
}

/// `b2` improves on `b1`: recorded costs only appear or shrink.
pub open spec fn improves(b2: Seq<Option<(usize, u64)>>, b1: Seq<Option<(usize, u64)>>) -> bool {
    &&& b2.len() == b1.len()
    &&& forall|c: int|
        0 <= c < b1.len() && b1[c] is Some ==> (#[trigger] b2[c]) is Some
            && b2[c].unwrap().1 <= b1[c].unwrap().1
}

pub proof fn lemma_costs_sum_improves(
    b2: Seq<Option<(usize, u64)>>,
    b1: Seq<Option<(usize, u64)>>,
    ch: Seq<usize>,
    j: int,
)
    requires
        improves(b2, b1),
        all_some(b1, ch),
    ensures
        costs_sum_from(b2, ch, j) <= costs_sum_from(b1, ch, j),
    decreases ch.len() - j,
{
    if 0 <= j < ch.len() {
        lemma_costs_sum_improves(b2, b1, ch, j + 1);
    }
}

/// Each child's recorded cost is no more than the whole sum.
pub proof fn lemma_costs_sum_elem(
    best: Seq<Option<(usize, u64)>>,
    ch: Seq<usize>,
    j: int,
    a: int,
)
    requires
        0 <= a <= j < ch.len(),
    ensures
        costs_sum_from(best, ch, a) >= (match best[ch[j] as int] {
            Some(kw) => kw.1 as int,
            None => 0,
        }),
    decreases j - a,
{
    if a < j {
        lemma_costs_sum_elem(best, ch, j, a + 1);
    } else {
        lemma_costs_sum_nonneg(best, ch, a + 1);
    }
}

/// The termination measure of relaxation: unknown costs weigh the most, and
/// every improvement shrinks the total.
pub open spec fn pot_from(best: Seq<Option<(usize, u64)>>, c: int) -> int
    decreases best.len() - c,
{
    if c < 0 || c >= best.len() {
        0
    } else {
        (match best[c] {
            Some(kw) => kw.1 as int,
            None => u64::MAX as int + 1,
        }) + pot_from(best, c + 1)
    }
}

pub open spec fn pot(best: Seq<Option<(usize, u64)>>) -> int {
    pot_from(best, 0)
}

pub proof fn lemma_pot_nonneg(best: Seq<Option<(usize, u64)>>, c: int)
    ensures
        pot_from(best, c) >= 0,
    decreases best.len() - c,
{
    if 0 <= c < best.len() {
        lemma_pot_nonneg(best, c + 1);
    }
}

/// The recorded member indices, summed: the secondary measure that a
/// tie-break towards a smaller index lowers while the cost measure is flat.
pub open spec fn ksum_from(best: Seq<Option<(usize, u64)>>, c: int) -> int
    decreases best.len() - c,
{
    if c < 0 || c >= best.len() {
        0
    } else {
        (match best[c] {
            Some(kw) => kw.0 as int,
            None => 0,
        }) + ksum_from(best, c + 1)
    }
}

pub open spec fn ksum(best: Seq<Option<(usize, u64)>>) -> int {
    ksum_from(best, 0)
}

pub proof fn lemma_ksum_nonneg(best: Seq<Option<(usize, u64)>>, c: int)
    ensures
        ksum_from(best, c) >= 0,
    decreases best.len() - c,
{
    if 0 <= c < best.len() {
        lemma_ksum_nonneg(best, c + 1);
    }
}

/// Equal costs everywhere keep the cost measure flat, and a pointwise drop
/// of the recorded indices with one strict drop lowers the index measure.
pub proof fn lemma_tie_update(
    b2: Seq<Option<(usize, u64)>>,
    b1: Seq<Option<(usize, u64)>>,
    c: int,
)
    requires
        b2.len() == b1.len(),
        forall|cc: int| 0 <= cc < b1.len() ==> cost_of(b2, cc) == cost_of(b1, cc),
        forall|cc: int|
            0 <= cc < b1.len() ==> (match (#[trigger] b2[cc], b1[cc]) {
                (Some(kw2), Some(kw1)) => kw2.0 <= kw1.0,
                (None, None) => true,
                _ => false,
            }),
        exists|cc: int|
            0 <= cc < b1.len() && (match (#[trigger] b2[cc], b1[cc]) {
                (Some(kw2), Some(kw1)) => kw2.0 < kw1.0,
                _ => false,
            }),
        0 <= c,
    ensures
        pot_from(b2, c) == pot_from(b1, c),
        ksum_from(b2, 0) < ksum_from(b1, 0),
{
    lemma_tie_pot(b2, b1, c);
    let cc = choose|cc: int|
        0 <= cc < b1.len() && (match (#[trigger] b2[cc], b1[cc]) {
            (Some(kw2), Some(kw1)) => kw2.0 < kw1.0,
            _ => false,
        });
    lemma_tie_ksum(b2, b1, 0, cc);
}

proof fn lemma_tie_pot(b2: Seq<Option<(usize, u64)>>, b1: Seq<Option<(usize, u64)>>, c: int)
    requires
        b2.len() == b1.len(),
        forall|cc: int| 0 <= cc < b1.len() ==> cost_of(b2, cc) == cost_of(b1, cc),
        0 <= c,
    ensures
        pot_from(b2, c) == pot_from(b1, c),
    decreases b1.len() - c,
{
    if 0 <= c < b1.len() {
        assert(cost_of(b2, c) == cost_of(b1, c));
        lemma_tie_pot(b2, b1, c + 1);
    }
}

proof fn lemma_tie_ksum(
    b2: Seq<Option<(usize, u64)>>,
    b1: Seq<Option<(usize, u64)>>,
    c: int,
    j: int,
)
    requires
        b2.len() == b1.len(),
        forall|cc: int|
            0 <= cc < b1.len() ==> (match (#[trigger] b2[cc], b1[cc]) {
                (Some(kw2), Some(kw1)) => kw2.0 <= kw1.0,
                (None, None) => true,
                _ => false,
            }),
        0 <= c <= j < b1.len(),
        (match (b2[j], b1[j]) {
            (Some(kw2), Some(kw1)) => kw2.0 < kw1.0,
            _ => false,
        }),
    ensures
        ksum_from(b2, c) < ksum_from(b1, c),
    decreases b1.len() - c,
{
    if c == j {
        lemma_tie_ksum_le(b2, b1, c + 1);
    } else {
        lemma_tie_ksum(b2, b1, c + 1, j);
    }
}

proof fn lemma_tie_ksum_le(b2: Seq<Option<(usize, u64)>>, b1: Seq<Option<(usize, u64)>>, c: int)
    requires
        b2.len() == b1.len(),
        forall|cc: int|
            0 <= cc < b1.len() ==> (match (#[trigger] b2[cc], b1[cc]) {
                (Some(kw2), Some(kw1)) => kw2.0 <= kw1.0,
                (None, None) => true,
                _ => false,
            }),
    ensures
        ksum_from(b2, c) <= ksum_from(b1, c),
    decreases b1.len() - c,
{
    if 0 <= c < b1.len() {
        lemma_tie_ksum_le(b2, b1, c + 1);
    }
}

/// Pointwise improvement never raises the measure, and a strict improvement
/// anywhere lowers it.
pub proof fn lemma_pot_improves(
    b2: Seq<Option<(usize, u64)>>,
    b1: Seq<Option<(usize, u64)>>,
    c: int,
)
    requires
        improves(b2, b1),
        0 <= c,
    ensures
        pot_from(b2, c) <= pot_from(b1, c),
        forall|cc: int|
            c <= cc < b1.len() && (((#[trigger] b1[cc]) is None && b2[cc] is Some) || (b1[cc] is Some
                && b2[cc].unwrap().1 < b1[cc].unwrap().1)) ==> pot_from(b2, c) < pot_from(b1, c),
    decreases b1.len() - c,
{
    if 0 <= c < b1.len() {
        lemma_pot_improves(b2, b1, c + 1);
    }
}


impl<A: crate::graph::Analysis> EGraph<A> {
    /// The recorded choice for class `c` is consistent: a real member node,
    /// all of whose children have recorded costs, and the recorded cost pays
    /// for the node itself plus its children.
    pub open spec fn best_entry_ok(self, best: Seq<Option<(usize, u64)>>, c: int) -> bool {
        match best[c] {
            Some(kw) => {
                &&& 0 <= kw.0 < self.classes@[c].nodes@.len()
                &&& all_some(best, self.classes@[c].nodes@[kw.0 as int].children@)
                &&& kw.1 >= 1
                &&& kw.1 as int >= 1 + costs_sum(
                    best,
                    self.classes@[c].nodes@[kw.0 as int].children@,
                )
            },
            None => true,
        }
    }

    pub open spec fn best_ok(self, best: Seq<Option<(usize, u64)>>) -> bool {
        &&& best.len() == self.n()
        &&& forall|c: int| 0 <= c < self.n() ==> #[trigger] self.best_entry_ok(best, c)
    }

    /// No member node of class `c` can beat the recorded cost: whenever its
    /// children are all costed and the total fits, the class is costed at
    /// most that total.
    pub open spec fn node_relaxed(self, best: Seq<Option<(usize, u64)>>, c: int, k: int) -> bool {
        (all_some(best, self.classes@[c].nodes@[k].children@) && 1 + costs_sum(
            best,
            self.classes@[c].nodes@[k].children@,
        ) <= u64::MAX as int) ==> match cost_of(best, c) {
            Some(w) => w as int <= 1 + costs_sum(best, self.classes@[c].nodes@[k].children@),
            None => false,
        }
    }

    pub open spec fn best_fixpoint(self, best: Seq<Option<(usize, u64)>>) -> bool {
        forall|c: int, k: int|
            0 <= c < self.n() && self.uf.is_root(c) && 0 <= k < self.classes@[c].nodes@.len()
                ==> #[trigger] self.node_relaxed(best, c, k)
    }

    /// The recorded member is the first one achieving the recorded cost:
    /// ties are broken by insertion order, the least member index wins.
    pub open spec fn node_least(self, best: Seq<Option<(usize, u64)>>, c: int, k: int) -> bool {
        match best[c] {
            Some(kw) => (all_some(best, self.classes@[c].nodes@[k].children@) && kw.1 as int == 1
                + costs_sum(best, self.classes@[c].nodes@[k].children@)) ==> kw.0 <= k,
            None => true,
        }
    }

    pub open spec fn best_least(self, best: Seq<Option<(usize, u64)>>) -> bool {
        forall|c: int, k: int|
            0 <= c < self.n() && self.uf.is_root(c) && 0 <= k < self.classes@[c].nodes@.len()
                ==> #[trigger] self.node_least(best, c, k)
    }

    /// The cost of member node `k` of class `c` under the current table:
    /// one plus the children's recorded costs, if they are all recorded and
    /// the sum fits.
    fn node_cost(&self, best: &BestTable, c: usize, k: usize) -> (r: Option<u64>)
        requires
            self.wf(),
            (c as int) < self.n(),
            (k as int) < self.classes@[c as int].nodes@.len(),
            best@.len() == self.n(),
        ensures
            r == (if all_some(best@, self.classes@[c as int].nodes@[k as int].children@) && 1
                + costs_sum(best@, self.classes@[c as int].nodes@[k as int].children@)
                <= u64::MAX as int {
                Some((1 + costs_sum(
                    best@,
                    self.classes@[c as int].nodes@[k as int].children@,
                )) as u64)
            } else {
                None::<u64>
            }),
    {
        let ghost ch = self.classes@[c as int].nodes@[k as int].children@;
        let m = self.classes[c].nodes[k].children.len();
        let mut sum: u64 = 1;
        let mut j: usize = 0;
        while j < m
            invariant
                self.wf(),
                (c as int) < self.n(),
                (k as int) < self.classes@[c as int].nodes@.len(),
                best@.len() == self.n(),
                ch == self.classes@[c as int].nodes@[k as int].children@,
                m == ch.len(),
                j <= m,
                forall|jj: int|
                    0 <= jj < j as int ==> (#[trigger] ch[jj] as int) < best@.len()
                        && best@[ch[jj] as int] is Some,
                sum as int == 1 + costs_sum_from(best@, ch, 0) - costs_sum_from(best@, ch, j as int),
            decreases m - j,
        {
            proof {
                assert(self.node_wf(self.classes@[c as int].nodes@[k as int]));
                assert((ch[j as int] as int) < self.n()) by {
                    match self.classes@[c as int].nodes@[k as int].head {
                        Head::Leaf(_) => {
                            assert(false);
                        },
                        Head::Op(_) => {},
                    }
                }
                lemma_costs_sum_split(best@, ch, j as int);
                lemma_costs_sum_nonneg(best@, ch, j as int + 1);
            }
            let child = self.classes[c].nodes[k].children[j];
            match best[child] {
                Some(kw) => {
                    match sum.checked_add(kw.1) {
                        Some(s2) => {
                            sum = s2;
                        },
                        None => {
                            proof {
                                lemma_costs_sum_nonneg(best@, ch, 0);
                                assert(costs_sum_from(best@, ch, 0) >= costs_sum_from(
                                    best@,
                                    ch,
                                    0,
                                ) - costs_sum_from(best@, ch, j as int + 1)) by {
                                    lemma_costs_sum_nonneg(best@, ch, j as int + 1);
                                }
                                assert(1 + costs_sum(best@, ch) > u64::MAX as int);
                            }
                            return None;
                        },
                    }
                },
                None => {
                    return None;
                },
            }
            j = j + 1;
        }
        proof {
            assert(costs_sum_from(best@, ch, m as int) == 0);
            assert(sum as int == 1 + costs_sum(best@, ch));
            lemma_costs_sum_nonneg(best@, ch, 0);
        }
        Some(sum)
    }
}


impl<A: crate::graph::Analysis> EGraph<A> {
    /// One relaxation pass: try to improve every class's recorded cost from
    /// every member node.  Reports whether anything improved; a pass that
    /// improves nothing witnesses the fixpoint.
    #[verifier::rlimit(60)]
    fn relax_pass(&self, best: &mut BestTable) -> (changed: bool)
        requires
            self.wf(),
            self.best_ok(old(best)@),
        ensures
            self.best_ok(final(best)@),
            improves(final(best)@, old(best)@),
            !changed ==> final(best)@ == old(best)@ && self.best_fixpoint(final(best)@)
                && self.best_least(final(best)@),
            changed ==> pot(final(best)@) < pot(old(best)@) || (pot(final(best)@) == pot(old(best)@) && ksum(final(best)@) < ksum(old(best)@)),
    {
        let ghost snap = old(best)@;
        let n = self.classes.len();
        let mut changed = false;
        let mut c: usize = 0;
        while c < n
            invariant
                self.wf(),
                n == self.n(),
                c <= n,
                self.best_ok(best@),
                self.best_ok(snap),
                improves(best@, snap),
                !changed ==> best@ == snap,
                changed ==> pot(best@) < pot(snap) || (pot(best@) == pot(snap) && ksum(best@)
                    < ksum(snap)),
                !changed ==> forall|cc: int, k: int|
                    0 <= cc < c as int && self.uf.is_root(cc) && 0 <= k
                        < self.classes@[cc].nodes@.len() ==> #[trigger] self.node_relaxed(
                        best@,
                        cc,
                        k,
                    ),
                !changed ==> forall|cc: int, k: int|
                    0 <= cc < c as int && self.uf.is_root(cc) && 0 <= k
                        < self.classes@[cc].nodes@.len() ==> #[trigger] self.node_least(
                        best@,
                        cc,
                        k,
                    ),
            decreases n - c,
        {
            let rc = self.uf.find(c);
            if rc == c {
                let klen = self.classes[c].nodes.len();
                let mut k: usize = 0;
                while k < klen
                    invariant
                        self.wf(),
                        n == self.n(),
                        c < n,
                        self.uf.is_root(c as int),
                        klen == self.classes@[c as int].nodes@.len(),
                        k <= klen,
                        self.best_ok(best@),
                        self.best_ok(snap),
                        improves(best@, snap),
                        !changed ==> best@ == snap,
                        changed ==> pot(best@) < pot(snap) || (pot(best@) == pot(snap) && ksum(
                            best@,
                        ) < ksum(snap)),
                        !changed ==> forall|cc: int, kk: int|
                            0 <= cc < c as int && self.uf.is_root(cc) && 0 <= kk
                                < self.classes@[cc].nodes@.len() ==> #[trigger] self.node_relaxed(
                                best@,
                                cc,
                                kk,
                            ),
                        !changed ==> forall|cc: int, kk: int|
                            0 <= cc < c as int && self.uf.is_root(cc) && 0 <= kk
                                < self.classes@[cc].nodes@.len() ==> #[trigger] self.node_least(
                                best@,
                                cc,
                                kk,
                            ),
                        !changed ==> forall|kk: int|
                            0 <= kk < k as int ==> #[trigger] self.node_relaxed(
                                best@,
                                c as int,
                                kk,
                            ),
                        !changed ==> forall|kk: int|
                            0 <= kk < k as int ==> #[trigger] self.node_least(
                                best@,
                                c as int,
                                kk,
                            ),
                    decreases klen - k,
                {
                    let cand = self.node_cost(best, c, k);
                    match cand {
                        Some(w) => {
                            let better = match best[c] {
                                Some(kw) => w < kw.1,
                                None => true,
                            };
                            let tie = match best[c] {
                                Some(kw) => w == kw.1 && k < kw.0,
                                None => false,
                            };
                            if tie {
                                // same cost through an earlier member: the
                                // first-seen node wins the tie
                                let ghost bpre = best@;
                                best[c] = Some((k, w));
                                proof {
                                    assert(best@ == bpre.update(c as int, Some((k, w))));
                                    assert(improves(best@, bpre));
                                    assert forall|cc: int|
                                        0 <= cc < bpre.len() implies cost_of(best@, cc) == cost_of(
                                        bpre,
                                        cc,
                                    ) by {}
                                    lemma_tie_update(best@, bpre, 0);
                                    lemma_pot_improves(bpre, snap, 0);
                                    if !changed {
                                        assert(bpre == snap);
                                    } else {
                                        if pot(bpre) == pot(snap) {
                                            lemma_ksum_nonneg(best@, 0);
                                        }
                                    }
                                    assert(self.best_ok(best@)) by {
                                        assert forall|cc: int|
                                            0 <= cc < self.n() implies #[trigger] self.best_entry_ok(
                                            best@,
                                            cc,
                                        ) by {
                                            assert(self.best_entry_ok(bpre, cc));
                                            if cc == c as int {
                                                lemma_costs_sum_improves(
                                                    best@,
                                                    bpre,
                                                    self.classes@[cc].nodes@[k as int].children@,
                                                    0,
                                                );
                                                lemma_costs_sum_nonneg(
                                                    bpre,
                                                    self.classes@[cc].nodes@[k as int].children@,
                                                    0,
                                                );
                                            } else {
                                                match bpre[cc] {
                                                    Some(kw) => {
                                                        lemma_costs_sum_improves(
                                                            best@,
                                                            bpre,
                                                            self.classes@[cc].nodes@[kw.0 as int].children@,
                                                            0,
                                                        );
                                                    },
                                                    None => {},
                                                }
                                            }
                                        }
                                    }
                                }
                                changed = true;
                            } else if better {
                                let ghost bpre = best@;
                                best[c] = Some((k, w));
                                proof {
                                    assert(best@ == bpre.update(c as int, Some((k, w))));
                                    assert(improves(best@, bpre));
                                    lemma_pot_improves(best@, bpre, 0);
                                    assert(pot(best@) < pot(bpre));
                                    lemma_pot_improves(bpre, snap, 0);
                                    // the fresh entry is consistent
                                    assert(self.best_ok(best@)) by {
                                        assert forall|cc: int|
                                            0 <= cc < self.n() implies #[trigger] self.best_entry_ok(
                                            best@,
                                            cc,
                                        ) by {
                                            assert(self.best_entry_ok(bpre, cc));
                                            if cc == c as int {
                                                lemma_costs_sum_improves(
                                                    best@,
                                                    bpre,
                                                    self.classes@[cc].nodes@[k as int].children@,
                                                    0,
                                                );
                                                lemma_costs_sum_nonneg(
                                                    bpre,
                                                    self.classes@[cc].nodes@[k as int].children@,
                                                    0,
                                                );
                                            } else {
                                                match bpre[cc] {
                                                    Some(kw) => {
                                                        lemma_costs_sum_improves(
                                                            best@,
                                                            bpre,
                                                            self.classes@[cc].nodes@[kw.0 as int].children@,
                                                            0,
                                                        );
                                                    },
                                                    None => {},
                                                }
                                            }
                                        }
                                    }
                                }
                                changed = true;
                            }
                        },
                        None => {},
                    }
                    proof {
                        if !changed {
                            lemma_costs_sum_nonneg(
                                best@,
                                self.classes@[c as int].nodes@[k as int].children@,
                                0,
                            );
                            assert(self.node_relaxed(best@, c as int, k as int));
                            assert(self.node_least(best@, c as int, k as int));
                        }
                    }
                    k = k + 1;
                }
            } else {
                proof {
                    assert(!self.uf.is_root(c as int));
                    assert(self.classes@[c as int].nodes@.len() == 0);
                }
            }
            c = c + 1;
        }
        changed
    }

    /// Compute the cost table: relax until no class improves.
    fn best_costs(&self) -> (best: BestTable)
        requires
            self.wf(),
        ensures
            self.best_ok(best@),
            self.best_fixpoint(best@),
            self.best_least(best@),
    {
        let n = self.classes.len();
        let mut best: BestTable = Vec::new();
        let mut i: usize = 0;
        while i < n
            invariant
                i <= n,
                best@.len() == i as int,
                forall|c: int| 0 <= c < i as int ==> (#[trigger] best@[c]) is None,
            decreases n - i,
        {
            best.push(None);
            i = i + 1;
        }
        proof {
            assert forall|c: int| 0 <= c < self.n() implies #[trigger] self.best_entry_ok(
                best@,
                c,
            ) by {}
        }
        loop
            invariant
                self.wf(),
                self.best_ok(best@),
            decreases pot(best@), ksum(best@),
        {
            let ghost bpre = best@;
            let changed = self.relax_pass(&mut best);
            if !changed {
                return best;
            }
            proof {
                lemma_pot_nonneg(best@, 0);
                lemma_ksum_nonneg(best@, 0);
            }
        }
    }
}


impl<A: crate::graph::Analysis> EGraph<A> {
    /// Materialize the recorded minimum-cost term of class `c`, appending
    /// its nodes to `out` and returning the root's index.
    #[verifier::rlimit(100)]
    fn build_best(&self, best: &BestTable, c: Id, out: &mut Vec<TermNode>) -> (idx: usize)
        requires
            self.wf(),
            self.clean(),
            self.best_ok(best@),
            (c as int) < self.n(),
            self.uf.is_root(c as int),
            best@[c as int] is Some,
        ensures
            old(out)@.len() < final(out)@.len(),
            forall|jj: int| 0 <= jj < old(out)@.len() ==> final(out)@[jj] == old(out)@[jj],
            idx as int == final(out)@.len() - 1,
            forall|jj: int|
                old(out)@.len() <= jj < final(out)@.len() ==> !((#[trigger] final(out)@[jj]) is Ref)
                    && !(final(out)@[jj] is Var) && crate::term::node_wf_at(final(out)@, jj),
            self.node_represents(final(out)@, idx as int, c as int),
            self.follows_best(best@, final(out)@, idx as int, c as int),
            crate::term::term_size(final(out)@, idx as int) <= best@[c as int].unwrap().1,
        decreases best@[c as int].unwrap().1,
    {
        let kw = match best[c] {
            Some(kw) => kw,
            None => {
                proof {
                    assert(false);
                }
                (0, 0)
            },
        };
        let k = kw.0;
        let ghost w = kw.1;
        let ghost nd = self.classes@[c as int].nodes@[k as int];
        proof {
            assert(self.best_entry_ok(best@, c as int));
            assert(self.member_ok(c as int, k as int));
            assert(self.rootof(c as int) == c as int);
        }
        let is_leaf = match self.classes[c].nodes[k].head {
            Head::Leaf(_) => true,
            Head::Op(_) => false,
        };
        if is_leaf {
            let h = match self.classes[c].nodes[k].head {
                Head::Leaf(h) => h,
                Head::Op(_) => 0,
            };
            let v = self.interner.value(h);
            out.push(TermNode::Leaf(v));
            let idx = out.len() - 1;
            proof {
                assert(self.node_wf(nd));
                assert(self.has_leaf_at(c as int, v, k as int));
                assert(self.node_represents(out@, idx as int, c as int));
                assert(crate::term::term_size(out@, idx as int) == 1);
                assert(self.rootof(c as int) == c as int);
                assert(self.follows_best(best@, out@, idx as int, c as int));
            }
            return idx;
        }
        let op = match self.classes[c].nodes[k].head {
            Head::Op(op) => op,
            Head::Leaf(_) => 0,
        };
        let ghost ch = nd.children@;
        let m = self.classes[c].nodes[k].children.len();
        let mut idxs: Vec<usize> = Vec::new();
        let ghost base = out@;
        let mut j: usize = 0;
        while j < m
            invariant
                self.wf(),
                self.clean(),
                self.best_ok(best@),
                (c as int) < self.n(),
                self.uf.is_root(c as int),
                (k as int) < self.classes@[c as int].nodes@.len(),
                nd == self.classes@[c as int].nodes@[k as int],
                ch == nd.children@,
                nd.head == Head::Op(op),
                best@[c as int] == Some((k, w)),
                self.best_entry_ok(best@, c as int),
                self.member_ok(c as int, k as int),
                self.rootof(c as int) == c as int,
                m == ch.len(),
                j <= m,
                idxs@.len() == j as int,
                base.len() <= out@.len(),
                forall|jj: int| 0 <= jj < base.len() ==> out@[jj] == base[jj],
                forall|jj: int|
                    base.len() <= jj < out@.len() ==> !((#[trigger] out@[jj]) is Ref) && !(
                    out@[jj] is Var) && crate::term::node_wf_at(out@, jj),
                forall|jj: int|
                    0 <= jj < j as int ==> (#[trigger] idxs@[jj] as int) < out@.len()
                        && self.node_represents(out@, idxs@[jj] as int, ch[jj] as int)
                        && self.follows_best(best@, out@, idxs@[jj] as int, ch[jj] as int)
                        && base.len() <= idxs@[jj] as int,
                crate::term::term_size_list(out@, idxs@, out@.len() as int)
                    <= costs_sum_from(best@, ch, 0) - costs_sum_from(best@, ch, j as int),
            decreases m - j,
        {
            proof {
                assert(self.node_wf(nd));
                assert((ch[j as int] as int) < self.n());
                assert(all_some(best@, ch));
                assert(best@[ch[j as int] as int] is Some);
                assert(self.node_canon(nd));
                assert(self.uf.is_root(ch[j as int] as int));
                // the child's cost is below this node's
                lemma_costs_sum_elem(best@, ch, j as int, 0);
                lemma_costs_sum_nonneg(best@, ch, 0);
                assert(best@[ch[j as int] as int].unwrap().1 < w);
            }
            let child = self.classes[c].nodes[k].children[j];
            let ghost opre = out@;
            let idxj = self.build_best(best, child, out);
            proof {
                // earlier children keep their meaning in the longer list
                assert forall|jj: int| 0 <= jj < j as int implies (
                #[trigger] idxs@[jj] as int) < out@.len() && self.node_represents(
                    out@,
                    idxs@[jj] as int,
                    ch[jj] as int,
                ) && self.follows_best(best@, out@, idxs@[jj] as int, ch[jj] as int) && base.len()
                    <= idxs@[jj] as int by {
                    self.lemma_represents_grow(opre, out@, idxs@[jj] as int, ch[jj] as int);
                    self.lemma_follows_grow(best@, opre, out@, idxs@[jj] as int, ch[jj] as int);
                }
                // sizes of earlier roots are stable too
                assert(crate::term::term_size_list(out@, idxs@, out@.len() as int)
                    == crate::term::term_size_list(opre, idxs@, opre.len() as int)) by {
                    assert forall|jj: int|
                        0 <= jj < idxs@.len() implies (#[trigger] idxs@[jj] as int) < opre.len()
                        && (idxs@[jj] as int) < out@.len() && crate::term::term_size(
                        out@,
                        idxs@[jj] as int,
                    ) == crate::term::term_size(opre, idxs@[jj] as int) by {
                        crate::term::lemma_term_size_prefix(opre, out@, idxs@[jj] as int);
                    }
                    crate::term::lemma_term_size_list_bound(
                        out@,
                        idxs@,
                        out@.len() as int,
                        opre.len() as int,
                    );
                    crate::term::lemma_term_size_list_prefix(opre, out@, idxs@, opre.len() as int);
                }
                crate::term::lemma_term_size_list_push(
                    out@,
                    idxs@,
                    idxj,
                    out@.len() as int,
                );
                lemma_costs_sum_split(best@, ch, j as int);
            }
            idxs.push(idxj);
            j = j + 1;
        }
        let ghost idxseq = idxs@;
        let ghost opre2 = out@;
        out.push(TermNode::Op(op, idxs));
        let idx = out.len() - 1;
        proof {
            let s2 = out@;
            assert(s2 == opre2.push(TermNode::Op(op, idxs)));
            assert(forall|jj: int| 0 <= jj < opre2.len() ==> s2[jj] == opre2[jj]);
            // every child index points backwards
            assert(crate::term::node_wf_at(s2, idx as int));
            // the new root realizes this class through member `k`
            assert forall|jj: int| 0 <= jj < idxseq.len() implies (
            #[trigger] idxseq[jj] as int) < idx as int && self.node_represents(
                s2,
                idxseq[jj] as int,
                ch[jj] as int,
            ) by {
                self.lemma_represents_grow(opre2, s2, idxseq[jj] as int, ch[jj] as int);
            }
            assert(self.op_shape_at(c as int, op, idxseq.len() as int, k as int));
            assert(self.op_children_rep(s2, idx as int, c as int, idxseq, k as int));
            assert(self.has_op_node(s2, idx as int, c as int, op, idxseq));
            assert(self.node_represents(s2, idx as int, c as int));
            assert(self.rootof(c as int) == c as int);
            assert(self.follows_best(best@, s2, idx as int, c as int)) by {
                assert forall|jj: int| 0 <= jj < idxseq.len() implies (
                #[trigger] idxseq[jj] as int) < idx as int && self.follows_best(
                    best@,
                    s2,
                    idxseq[jj] as int,
                    ch[jj] as int,
                ) by {
                    self.lemma_follows_grow(best@, opre2, s2, idxseq[jj] as int, ch[jj] as int);
                }
            }
            // and its size is within the recorded cost
            assert(crate::term::term_size_list(s2, idxseq, idx as int)
                == crate::term::term_size_list(opre2, idxseq, opre2.len() as int)) by {
                assert forall|jj: int|
                    0 <= jj < idxseq.len() implies (#[trigger] idxseq[jj] as int) < opre2.len()
                    && crate::term::term_size(s2, idxseq[jj] as int) == crate::term::term_size(
                    opre2,
                    idxseq[jj] as int,
                ) by {
                    assert(opre2[idxseq[jj] as int] == s2[idxseq[jj] as int]);
                    crate::term::lemma_term_size_prefix(opre2, s2, idxseq[jj] as int);
                }
                crate::term::lemma_term_size_list_bound(
                    s2,
                    idxseq,
                    idx as int,
                    opre2.len() as int,
                );
                crate::term::lemma_term_size_list_prefix(opre2, s2, idxseq, opre2.len() as int);
            }
            assert(costs_sum_from(best@, ch, m as int) == 0);
            assert(crate::term::term_size(s2, idx as int) <= w);
        }
        idx
    }
}


impl<A: crate::graph::Analysis> EGraph<A> {
    /// Paired sums: when every child's recorded cost is below the size of
    /// the subterm it realizes, the cost total is below the size total.
    proof fn lemma_sum_pair(
        self,
        best: Seq<Option<(usize, u64)>>,
        s: Seq<crate::term::TermNode>,
        i: int,
        cs: Seq<usize>,
        nch: Seq<usize>,
        j: int,
    )
        requires
            cs.len() == nch.len(),
            forall|jj: int|
                0 <= jj < cs.len() ==> (#[trigger] cs[jj] as int) < i && (nch[jj] as int)
                    < best.len() && (match best[nch[jj] as int] {
                    Some(kw) => kw.1 as int <= crate::term::term_size(s, cs[jj] as int),
                    None => false,
                }),
            0 <= j,
        ensures
            costs_sum_from(best, nch, j) <= crate::term::term_size_list(
                s,
                cs.subrange(j, cs.len() as int),
                i,
            ),
        decreases cs.len() - j,
    {
        if j < cs.len() {
            assert forall|jj: int|
                0 <= jj < cs.len() implies (#[trigger] cs[jj] as int) < i && (nch[jj] as int)
                    < best.len() && (match best[nch[jj] as int] {
                    Some(kw) => kw.1 as int <= crate::term::term_size(s, cs[jj] as int),
                    None => false,
                }) by {}
            self.lemma_sum_pair(best, s, i, cs, nch, j + 1);
            assert(cs.subrange(j, cs.len() as int)[0] == cs[j]);
            assert(cs.subrange(j, cs.len() as int).subrange(
                1,
                cs.len() as int - j,
            ) =~= cs.subrange(j + 1, cs.len() as int));
        } else {
            assert(cs.subrange(j, cs.len() as int).len() == 0 || j > cs.len());
            if j <= cs.len() {
                assert(cs.subrange(j, cs.len() as int) =~= Seq::<usize>::empty());
            }
        }
    }

    /// Extraction optimality, lower bound: the recorded cost of a class is
    /// at most the size of any concrete term the class realizes, and
    /// whenever such a term of representable size exists, a cost is
    /// recorded.
    #[verifier::rlimit(60)]
    pub proof fn lemma_cost_lower(
        self,
        best: Seq<Option<(usize, u64)>>,
        s: Seq<crate::term::TermNode>,
        i: int,
        c: int,
    )
        requires
            self.wf(),
            self.clean(),
            self.best_ok(best),
            self.best_fixpoint(best),
            self.node_represents(s, i, c),
            crate::term::expr_no_refs(s),
        ensures
            cost_of(best, self.rootof(c)) matches Some(w) ==> w as int <= crate::term::term_size(
                s,
                i,
            ),
            crate::term::term_size(s, i) <= u64::MAX ==> cost_of(best, self.rootof(c)) is Some,
        decreases i,
    {
        let rc = self.rootof(c);
        self.uf.lemma_rootof_le(c);
        self.uf.lemma_rootof_idem(c);
        crate::term::lemma_term_size_pos(s, i);
        match s[i] {
            crate::term::TermNode::Leaf(v) => {
                let k = choose|k: int| self.has_leaf_at(c, v, k);
                assert(self.member_ok(rc, k));
                let nd = self.classes@[rc].nodes@[k];
                assert(nd.children@.len() == 0) by {
                    assert(self.node_wf(nd));
                    match nd.head {
                        Head::Leaf(_) => {},
                        Head::Op(_) => {
                            assert(false);
                        },
                    }
                }
                assert(costs_sum(best, nd.children@) == 0);
                assert(all_some(best, nd.children@));
                assert(self.node_relaxed(best, rc, k));
                assert(crate::term::term_size(s, i) == 1);
            },
            crate::term::TermNode::Op(op, cs) => {
                let k = choose|k: int|
                    #[trigger] self.op_shape_at(c, op, cs@.len() as int, k)
                        && self.op_children_rep(s, i, c, cs@, k);
                assert(self.member_ok(rc, k));
                let nd = self.classes@[rc].nodes@[k];
                assert(self.node_canon(nd));
                assert(self.node_wf(nd));
                if exists|jj: int|
                    0 <= jj < nd.children@.len() && best[#[trigger] nd.children@[jj] as int]
                        is None {
                    // some child has no recorded cost, so by induction its
                    // subterm, and this term, are too large to measure
                    let jj = choose|jj: int|
                        0 <= jj < nd.children@.len() && best[
                            #[trigger] nd.children@[jj] as int
                        ] is None;
                    assert(self.node_represents(s, cs@[jj] as int, nd.children@[jj] as int));
                    self.lemma_cost_lower(best, s, cs@[jj] as int, nd.children@[jj] as int);
                    assert(self.rootof(nd.children@[jj] as int) == nd.children@[jj] as int) by {
                        assert(self.uf.is_root(nd.children@[jj] as int));
                    }
                    assert(crate::term::term_size(s, cs@[jj] as int) > u64::MAX);
                    assert(crate::term::term_size(s, i) > u64::MAX) by {
                        crate::term::lemma_term_size_list_elem(s, cs@, i, jj);
                    }
                } else {
                    assert(all_some(best, nd.children@)) by {
                        assert forall|jj: int|
                            0 <= jj < nd.children@.len() implies (
                        #[trigger] nd.children@[jj] as int) < best.len() && best[nd.children@[jj] as int] is Some by {
                            assert(self.node_wf(nd));
                            match nd.head {
                                Head::Leaf(_) => {
                                    assert(false);
                                },
                                Head::Op(_) => {},
                            }
                        }
                    }
                    assert forall|jj: int| 0 <= jj < cs@.len() implies (
                    #[trigger] cs@[jj] as int) < i && (nd.children@[jj] as int) < best.len() && (
                    match best[nd.children@[jj] as int] {
                        Some(kw) => kw.1 as int <= crate::term::term_size(s, cs@[jj] as int),
                        None => false,
                    }) by {
                        assert(self.node_represents(s, cs@[jj] as int, nd.children@[jj] as int));
                        self.lemma_cost_lower(best, s, cs@[jj] as int, nd.children@[jj] as int);
                        assert(self.rootof(nd.children@[jj] as int) == nd.children@[jj] as int) by {
                            assert(self.uf.is_root(nd.children@[jj] as int));
                        }
                        crate::term::lemma_term_size_pos(s, cs@[jj] as int);
                    }
                    self.lemma_sum_pair(best, s, i, cs@, nd.children@, 0);
                    assert(cs@.subrange(0, cs@.len() as int) =~= cs@);
                    assert(costs_sum(best, nd.children@) <= crate::term::term_size_list(
                        s,
                        cs@,
                        i,
                    ));
                    assert(crate::term::term_size(s, i) == 1 + crate::term::term_size_list(
                        s,
                        cs@,
                        i,
                    ));
                    lemma_costs_sum_nonneg(best, nd.children@, 0);
                    if 1 + costs_sum(best, nd.children@) <= u64::MAX as int {
                        assert(self.node_relaxed(best, rc, k));
                    } else {
                        assert(crate::term::term_size(s, i) > u64::MAX);
                    }
                }
            },
            _ => {},
        }
    }
}


impl<A: crate::graph::Analysis> EGraph<A> {
    /// `output` is a minimal concrete realization of the class that also
    /// realizes `input`.
    pub open spec fn extract_ok_at(self, input: Expr, output: Expr, c: int) -> bool {
        &&& self.represents(input, c)
        &&& self.represents(output, c)
        &&& output.nodes@.len() > 0
        &&& crate::term::expr_wf(output.nodes@)
        &&& crate::term::expr_concrete(output.nodes@)
        &&& forall|s: Seq<TermNode>, i: int|
            self.node_represents(s, i, c) && crate::term::expr_no_refs(s)
                ==> #[trigger] crate::term::term_size(s, i) >= crate::term::term_size(
                output.nodes@,
                output.nodes@.len() - 1,
            )
    }

    pub open spec fn extract_ok(self, input: Expr, output: Expr) -> bool {
        exists|c: int| #[trigger] self.extract_ok_at(input, output, c)
    }

    /// The minimum-size concrete term realized by the class of `c`.
    /// Fails only when every member of the class loops back into it, so no
    /// finite term exists (or none of measurable size).
    pub fn find_best(&self, c: Id) -> (r: Result<Expr, EngineError>)
        requires
            self.wf(),
            self.clean(),
            (c as int) < self.n(),
        ensures
            r matches Ok(out) ==> {
                &&& out.nodes@.len() > 0
                &&& crate::term::expr_wf(out.nodes@)
                &&& crate::term::expr_concrete(out.nodes@)
                &&& self.represents(out, c as int)
                &&& forall|s: Seq<TermNode>, i: int|
                    self.node_represents(s, i, c as int) && crate::term::expr_no_refs(s)
                        ==> #[trigger] crate::term::term_size(s, i) >= crate::term::term_size(
                        out.nodes@,
                        out.nodes@.len() - 1,
                    )
                // the term follows a consistent, relaxed cost table whose tie
                // breaks pick the first achieving member: the spec's
                // first-seen rule, pinning the choice on equal-cost members
                &&& exists|best: Seq<Option<(usize, u64)>>|
                    self.best_ok(best) && self.best_fixpoint(best) && self.best_least(best)
                        && #[trigger] self.follows_best(
                        best,
                        out.nodes@,
                        out.nodes@.len() - 1,
                        c as int,
                    )
            },
            r matches Err(e) ==> e == EngineError::NoFiniteTerm && (forall|
                s: Seq<TermNode>,
                i: int,
            |
                self.node_represents(s, i, c as int) && crate::term::expr_no_refs(s)
                    ==> #[trigger] crate::term::term_size(s, i) > u64::MAX),
    {
        let best = self.best_costs();
        let rc = self.uf.find(c);
        let has = match best[rc] {
            Some(_) => true,
            None => false,
        };
        if has == false {
            proof {
                assert forall|s: Seq<TermNode>, i: int|
                    self.node_represents(s, i, c as int) && crate::term::expr_no_refs(s)
                        implies #[trigger] crate::term::term_size(s, i) > u64::MAX by {
                    self.lemma_cost_lower(best@, s, i, c as int);
                    assert(cost_of(best@, self.rootof(c as int)) is None);
                }
            }
            return Err(EngineError::NoFiniteTerm);
        }
        let mut out: Vec<TermNode> = Vec::new();
        proof {
            self.uf.lemma_rootof_idem(c as int);
        }
        let idx = self.build_best(&best, rc, &mut out);
        let ghost w = best@[rc as int].unwrap().1;
        proof {
            assert(idx as int == out@.len() - 1);
            assert(self.node_represents(out@, idx as int, rc as int));
            self.lemma_represents_same(out@, idx as int, rc as int, c as int);
            assert(self.follows_best(best@, out@, idx as int, c as int)) by {
                assert(self.rootof(c as int) == self.rootof(rc as int)) by {
                    self.uf.lemma_rootof_idem(c as int);
                }
                assert(self.follows_best(best@, out@, idx as int, rc as int));
            }
            assert forall|jj: int|
                0 <= jj < out@.len() implies crate::term::node_wf_at(out@, jj) && !(
            (#[trigger] out@[jj]) is Ref) && !(out@[jj] is Var) by {}
            assert forall|s: Seq<TermNode>, i: int|
                self.node_represents(s, i, c as int) && crate::term::expr_no_refs(s)
                    implies #[trigger] crate::term::term_size(s, i) >= crate::term::term_size(
                out@,
                out@.len() - 1,
            ) by {
                self.lemma_cost_lower(best@, s, i, c as int);
                assert(cost_of(best@, self.rootof(c as int)) == Some(w));
            }
        }
        Ok(Expr { nodes: out })
    }

    /// Add every expression and return, in order, the minimum-size concrete
    /// representative of each one's class, after restoring the invariants.
    pub fn extract(&mut self, exprs: &Vec<Expr>) -> (r: Result<Vec<Expr>, EngineError>)
        requires
            old(self).wf(),
        ensures
            final(self).wf(),
            final(self).extends(*old(self)),
            final(self).analysis == old(self).analysis,
            r matches Ok(outs) ==> outs@.len() == exprs@.len() && final(self).clean() && (forall|
                j: int,
            |
                0 <= j < exprs@.len() ==> final(self).extract_ok(
                    exprs@[j],
                    #[trigger] outs@[j],
                )),
            old(self).inert() && old(self).datafree() && old(self).clean() && old(self).unmerged()
                ==> final(self).unmerged(),
            // extraction fails only when some operand's class realizes no
            // concrete term of measurable size
            r == Err::<Vec<Expr>, EngineError>(EngineError::NoFiniteTerm) ==> exists|
                j: int,
                c: int,
            |
                0 <= j < exprs@.len() && (#[trigger] final(self).represents(exprs@[j], c)) && (
                forall|s2: Seq<TermNode>, i2: int|
                    final(self).node_represents(s2, i2, c) && crate::term::expr_no_refs(s2)
                        ==> #[trigger] crate::term::term_size(s2, i2) > u64::MAX),
            r matches Err(err) && err != EngineError::MergeConflict && err
                != EngineError::NoFiniteTerm ==> exists|j: int|
                0 <= j < exprs@.len() && !crate::graph::expr_ok(
                    (#[trigger] exprs@[j]).nodes@,
                    old(self).n(),
                ),
            old(self).inert() && old(self).datafree() && (forall|j: int|
                0 <= j < exprs@.len() ==> crate::graph::expr_ok(
                    (#[trigger] exprs@[j]).nodes@,
                    old(self).n(),
                ) && crate::term::expr_no_refs(exprs@[j].nodes@) && crate::term::term_size(
                    exprs@[j].nodes@,
                    exprs@[j].nodes@.len() - 1,
                ) <= u64::MAX) ==> r is Ok,
    {
        let ghost g0 = *old(self);
        let m = exprs.len();
        let mut ids: Vec<Id> = Vec::new();
        let mut j: usize = 0;
        proof {
            self.lemma_extends_refl();
        }
        while j < m
            invariant
                g0 == *old(self),
                g0.wf(),
                self.wf(),
                self.extends(g0),
                self.analysis == g0.analysis,
                m == exprs@.len(),
                j <= m,
                ids@.len() == j as int,
                forall|jj: int|
                    0 <= jj < j as int ==> (#[trigger] ids@[jj] as int) < self.n()
                        && self.represents(exprs@[jj], ids@[jj] as int),
                g0.inert() && g0.datafree() ==> self.datafree(),
                g0.inert() && g0.datafree() && g0.clean() && g0.unmerged() ==> self.unmerged()
                    && self.datafree() && self.clean(),
            decreases m - j,
        {
            let ghost gpre = *self;
            let idj = match self.add(&exprs[j]) {
                Ok(id) => id,
                Err(e) => {
                    proof {
                        self.lemma_extends_trans(gpre, g0);
                        if e != EngineError::MergeConflict {
                            // the offending operand was inadmissible at entry
                            assert(!crate::graph::expr_ok(exprs@[j as int].nodes@, gpre.n()));
                            if crate::graph::expr_ok(exprs@[j as int].nodes@, g0.n()) {
                                crate::graph::lemma_expr_ok_mono(
                                    exprs@[j as int].nodes@,
                                    g0.n(),
                                    gpre.n(),
                                );
                                assert(false);
                            }
                        }
                        if g0.inert() && g0.datafree() && crate::graph::expr_ok(
                            exprs@[j as int].nodes@,
                            g0.n(),
                        ) {
                            crate::graph::lemma_expr_ok_mono(
                                exprs@[j as int].nodes@,
                                g0.n(),
                                gpre.n(),
                            );
                            assert(false);
                        }
                    }
                    return Err(e);
                },
            };
            ids.push(idj);
            proof {
                self.lemma_extends_trans(gpre, g0);
                assert forall|jj: int| 0 <= jj < j as int + 1 implies (
                #[trigger] ids@[jj] as int) < self.n() && self.represents(
                    exprs@[jj],
                    ids@[jj] as int,
                ) by {
                    if jj < j as int {
                        self.lemma_represents_extends(
                            gpre,
                            exprs@[jj].nodes@,
                            exprs@[jj].nodes@.len() - 1,
                            ids@[jj] as int,
                        );
                    }
                }
            }
            j = j + 1;
        }
        let ghost gadd = *self;
        match self.rebuild() {
            Ok(_) => {},
            Err(e) => {
                proof {
                    self.lemma_extends_trans(gadd, g0);
                    if g0.inert() && g0.datafree() {
                        assert(false);
                    }
                }
                return Err(e);
            },
        }
        proof {
            self.lemma_extends_trans(gadd, g0);
            if g0.inert() && g0.datafree() && g0.clean() && g0.unmerged() {
                // the adds kept the graph clean, so the rebuild was a no-op
                assert(self.unchanged(gadd));
                assert forall|x: int| self.uf.rootof(x) == gadd.uf.rootof(x) by {
                    if 0 <= x < gadd.uf.n() {
                        gadd.uf.lemma_rootof_prefix(self.uf, gadd.uf.n(), x);
                    }
                }
                assert forall|cc: int|
                    0 <= cc < self.n() implies self.uf.is_root(cc) && (
                #[trigger] self.classes@[cc].nodes@.len()) == 1 by {
                    assert(gadd.uf.is_root(cc));
                    assert(gadd.classes@[cc].nodes@.len() == 1);
                    assert(self.classes@[cc] == gadd.classes@[cc]);
                }
                assert(self.unmerged());
            }
            assert forall|jj: int| 0 <= jj < m implies (#[trigger] ids@[jj] as int) < self.n()
                && self.represents(exprs@[jj], ids@[jj] as int) by {
                self.lemma_represents_extends(
                    gadd,
                    exprs@[jj].nodes@,
                    exprs@[jj].nodes@.len() - 1,
                    ids@[jj] as int,
                );
            }
        }
        let mut outs: Vec<Expr> = Vec::new();
        let mut j2: usize = 0;
        while j2 < m
            invariant
                g0 == *old(self),
                g0.wf(),
                self.extends(g0),
                self.analysis == g0.analysis,
                self.wf(),
                self.clean(),
                g0.inert() && g0.datafree() && g0.clean() && g0.unmerged() ==> self.unmerged(),
                m == exprs@.len(),
                j2 <= m,
                ids@.len() == m as int,
                outs@.len() == j2 as int,
                forall|jj: int|
                    0 <= jj < m ==> (#[trigger] ids@[jj] as int) < self.n() && self.represents(
                        exprs@[jj],
                        ids@[jj] as int,
                    ),
                forall|jj: int|
                    0 <= jj < j2 as int ==> self.extract_ok(exprs@[jj], #[trigger] outs@[jj]),
            decreases m - j2,
        {
            let out = match self.find_best(ids[j2]) {
                Ok(out) => out,
                Err(e) => {
                    proof {
                        assert(self.represents(exprs@[j2 as int], ids@[j2 as int] as int));
                        if g0.inert() && g0.datafree() && crate::term::expr_no_refs(
                            exprs@[j2 as int].nodes@,
                        ) && crate::term::term_size(
                            exprs@[j2 as int].nodes@,
                            exprs@[j2 as int].nodes@.len() - 1,
                        ) <= u64::MAX {
                            assert(false);
                        }
                    }
                    return Err(e);
                },
            };
            proof {
                assert(self.extract_ok_at(exprs@[j2 as int], out, ids@[j2 as int] as int));
            }
            outs.push(out);
            j2 = j2 + 1;
        }
        Ok(outs)
    }

    /// Round trip: in a graph where nothing was ever unioned, extraction
    /// returns a term structurally equal to the ingested one, shape and leaf
    /// values alike.
    pub proof fn lemma_extract_round_trip(self, input: Expr, output: Expr, c: int)
        requires
            self.wf(),
            self.unmerged(),
            self.extract_ok_at(input, output, c),
            crate::term::expr_no_refs(input.nodes@),
            input.nodes@.len() > 0,
        ensures
            crate::term::term_eq(
                output.nodes@,
                output.nodes@.len() - 1,
                input.nodes@,
                input.nodes@.len() - 1,
            ),
    {
        self.lemma_represents_unique_unmerged(
            output.nodes@,
            output.nodes@.len() - 1,
            input.nodes@,
            input.nodes@.len() - 1,
            c,
        );
    }
}


impl<A: crate::graph::Analysis> EGraph<A> {
    /// The term at `i` is exactly the recorded choice for `c`'s class,
    /// recursively: the chosen member node's head, over the chosen
    /// representatives of its children.
    pub open spec fn follows_best(
        self,
        best: Seq<Option<(usize, u64)>>,
        s: Seq<TermNode>,
        i: int,
        c: int,
    ) -> bool
        decreases i,
    {
        &&& 0 <= i < s.len()
        &&& 0 <= c < self.n()
        &&& match best[self.rootof(c)] {
            Some(kw) => {
                &&& 0 <= kw.0 < self.classes@[self.rootof(c)].nodes@.len()
                &&& match self.classes@[self.rootof(c)].nodes@[kw.0 as int].head {
                    Head::Leaf(h) => (h as int) < self.interner.n() && s[i] == TermNode::Leaf(
                        self.interner.vals@[h as int],
                    ),
                    Head::Op(op) => s[i] matches TermNode::Op(op2, cs) && op2 == op && cs@.len()
                        == self.classes@[self.rootof(c)].nodes@[kw.0 as int].children@.len()
                        && forall|j: int|
                        0 <= j < cs@.len() ==> (#[trigger] cs@[j] as int) < i
                            && self.follows_best(
                            best,
                            s,
                            cs@[j] as int,
                            self.classes@[self.rootof(c)].nodes@[kw.0 as int].children@[j] as int,
                        ),
                }
            },
            None => false,
        }
    }

    /// Following the recorded choices only reads nodes up to the root, so
    /// extending the node list preserves it.
    pub proof fn lemma_follows_grow(
        self,
        best: Seq<Option<(usize, u64)>>,
        s1: Seq<TermNode>,
        s2: Seq<TermNode>,
        i: int,
        c: int,
    )
        requires
            s1.len() <= s2.len(),
            forall|jj: int| 0 <= jj < s1.len() ==> s2[jj] == s1[jj],
            self.follows_best(best, s1, i, c),
        ensures
            self.follows_best(best, s2, i, c),
        decreases i,
    {
        match best[self.rootof(c)] {
            Some(kw) => {
                match self.classes@[self.rootof(c)].nodes@[kw.0 as int].head {
                    Head::Leaf(_) => {},
                    Head::Op(op) => {
                        match s1[i] {
                            TermNode::Op(op2, cs) => {
                                assert forall|j: int| 0 <= j < cs@.len() implies (
                                #[trigger] cs@[j] as int) < i && self.follows_best(
                                    best,
                                    s2,
                                    cs@[j] as int,
                                    self.classes@[self.rootof(
                                        c,
                                    )].nodes@[kw.0 as int].children@[j] as int,
                                ) by {
                                    assert(self.follows_best(
                                        best,
                                        s1,
                                        cs@[j] as int,
                                        self.classes@[self.rootof(
                                            c,
                                        )].nodes@[kw.0 as int].children@[j] as int,
                                    ));
                                    self.lemma_follows_grow(
                                        best,
                                        s1,
                                        s2,
                                        cs@[j] as int,
                                        self.classes@[self.rootof(
                                            c,
                                        )].nodes@[kw.0 as int].children@[j] as int,
                                    );
                                }
                            },
                            _ => {
                                assert(false);
                            },
                        }
                    },
                }
            },
            None => {
                assert(false);
            },
        }
    }
}

} // verus!
