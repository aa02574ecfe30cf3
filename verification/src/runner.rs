//! The saturation scheduler.
//!
//! Each round first checks the iteration, wall-clock and node budgets, then
//! runs every rule's searcher against the current graph, applies every match
//! in discovery order, and rebuilds.  A round whose searches find nothing,
//! or whose applications and rebuild change nothing, ends in saturation; an
//! exceeded budget ends in the corresponding stop.  Either way the graph is
//! left in its last rebuilt, congruence-consistent state.

use vstd::prelude::*;

use crate::graph::{Analysis, EGraph, EngineError};
use crate::pattern::Subst;
use crate::rewrite::{DynamicApplier, Rewrite};
use crate::term::Id;

verus! {

/// Why a run ended.
#[derive(Clone, Copy, PartialEq, Eq, Structural, Debug)]
pub enum StopReason {
    /// A fixpoint: either no rule found any match (the searchers are
    /// provably complete, so none exists), or a full round applied every
    /// match without creating an equivalence or changing the analysis.
    Saturated,
    /// The configured number of rounds was reached.
    IterLimit,
    /// The configured wall-clock budget was exceeded.
    TimeLimit,
    /// The graph grew past the configured node budget.
    NodeLimit,
}

/// Relies on std::time::SystemTime::now for a wall-clock reading in
/// milliseconds since the epoch, zero when the clock fails.  Nothing is
/// assumed of the value: time is outside the verified state.
#[verifier::external_body]
fn clock_millis() -> u64 {
    match std::time::SystemTime::now().duration_since(std::time::UNIX_EPOCH) {
        Ok(d) => d.as_millis() as u64,
        Err(_) => 0,
    }
}

impl<A: Analysis> EGraph<A> {
    /// Total member nodes of the classes up to `c`.
    pub open spec fn nodes_upto(self, c: int) -> int
        decreases c,
    {
        if c <= 0 {
            0
        } else {
            self.nodes_upto(c - 1) + self.classes@[c - 1].nodes@.len()
        }
    }

    /// The total number of member nodes, saturating at the machine limit.
    pub fn node_count(&self) -> (r: usize)
        requires
            self.wf(),
        ensures
            r as int == if self.nodes_upto(self.n()) <= usize::MAX as int {
                self.nodes_upto(self.n())
            } else {
                usize::MAX as int
            },
    {
        let n = self.classes.len();
        let mut acc: usize = 0;
        let mut c: usize = 0;
        while c < n
            invariant
                self.wf(),
                n == self.n(),
                c <= n,
                acc as int == if self.nodes_upto(c as int) <= usize::MAX as int {
                    self.nodes_upto(c as int)
                } else {
                    usize::MAX as int
                },
            decreases n - c,
        {
            proof {
                self.lemma_nodes_upto_nonneg(c as int);
            }
            let k = self.classes[c].nodes.len();
            acc = match acc.checked_add(k) {
                Some(a) => a,
                None => usize::MAX,
            };
            c = c + 1;
        }
        acc
    }

    pub proof fn lemma_nodes_upto_nonneg(self, c: int)
        ensures
            self.nodes_upto(c) >= 0,
        decreases c,
    {
        if c > 0 {
            self.lemma_nodes_upto_nonneg(c - 1);
        }
    }

    /// No rule's searcher has any match anywhere in the graph.
    pub open spec fn no_match<D>(self, rules: Seq<Rewrite<D>>) -> bool {
        forall|r: int, c: int, binds: Seq<(crate::term::Var, Id)>|
            0 <= r < rules.len() && 0 <= c < self.n() ==> !#[trigger] self.pat_matches(
                rules[r].searcher.nodes@,
                rules[r].searcher.nodes@.len() - 1,
                c,
                binds,
            )
    }

    /// Some returned triple names rule `ri` and class `c` with bindings
    /// agreeing with `sigma`.
    pub open spec fn found_entry(
        self,
        res: Seq<(usize, Id, Subst)>,
        ri: int,
        c: int,
        sigma: Seq<(crate::term::Var, Id)>,
    ) -> bool {
        exists|e: int|
            0 <= e < res.len() && ((#[trigger] res[e]).0 as int) == ri && (res[e].1 as int) == c
                && self.agrees(res[e].2.binds@, sigma)
    }

    pub proof fn lemma_found_entry_push(
        self,
        res: Seq<(usize, Id, Subst)>,
        x: (usize, Id, Subst),
        ri: int,
        c: int,
        sigma: Seq<(crate::term::Var, Id)>,
    )
        requires
            self.found_entry(res, ri, c, sigma),
        ensures
            self.found_entry(res.push(x), ri, c, sigma),
    {
        let e = choose|e: int|
            0 <= e < res.len() && ((#[trigger] res[e]).0 as int) == ri && (res[e].1 as int) == c
                && self.agrees(res[e].2.binds@, sigma);
        assert(res.push(x)[e] == res[e]);
    }

    /// Run every rule's searcher once over the current graph.  Every
    /// returned triple is a sound match of the named rule, and every match
    /// of every rule is represented by a returned, agreeing triple.
    fn search_all<D: DynamicApplier>(&self, rules: &Vec<Rewrite<D>>) -> (res: Vec<(
        usize,
        Id,
        Subst,
    )>)
        requires
            self.wf(),
            forall|r: int| 0 <= r < rules@.len() ==> (#[trigger] rules@[r]).wf(),
        ensures
            forall|e: int|
                0 <= e < res@.len() ==> {
                    let (r, c, sub) = #[trigger] res@[e];
                    &&& (r as int) < rules@.len()
                    &&& (c as int) < self.n()
                    &&& sub.ok_for(self.n())
                    &&& self.pat_matches(
                        rules@[r as int].searcher.nodes@,
                        rules@[r as int].searcher.nodes@.len() - 1,
                        c as int,
                        sub.binds@,
                    )
                },
            res@.len() == 0 ==> self.no_match(rules@),
            forall|ri: int, c: int, sigma: Seq<(crate::term::Var, Id)>|
                0 <= ri < rules@.len() && 0 <= c < self.n() && self.uf.is_root(c)
                    && #[trigger] self.pat_matches(
                    rules@[ri].searcher.nodes@,
                    rules@[ri].searcher.nodes@.len() - 1,
                    c,
                    sigma,
                ) ==> self.found_entry(res@, ri, c, sigma),
    {
        let m = rules.len();
        let mut res: Vec<(usize, Id, Subst)> = Vec::new();
        let mut r: usize = 0;
        while r < m
            invariant
                self.wf(),
                forall|rr: int| 0 <= rr < rules@.len() ==> (#[trigger] rules@[rr]).wf(),
                m == rules@.len(),
                r <= m,
                forall|e: int|
                    0 <= e < res@.len() ==> {
                        let (rr, c, sub) = #[trigger] res@[e];
                        &&& (rr as int) < rules@.len()
                        &&& (c as int) < self.n()
                        &&& sub.ok_for(self.n())
                        &&& self.pat_matches(
                            rules@[rr as int].searcher.nodes@,
                            rules@[rr as int].searcher.nodes@.len() - 1,
                            c as int,
                            sub.binds@,
                        )
                    },
                res@.len() == 0 ==> forall|rr: int, cc: int, binds: Seq<(crate::term::Var, Id)>|
                    0 <= rr < r as int && 0 <= cc < self.n() ==> !#[trigger] self.pat_matches(
                        rules@[rr].searcher.nodes@,
                        rules@[rr].searcher.nodes@.len() - 1,
                        cc,
                        binds,
                    ),
                forall|rr: int, cc: int, sigma: Seq<(crate::term::Var, Id)>|
                    0 <= rr < r as int && 0 <= cc < self.n() && self.uf.is_root(cc)
                        && #[trigger] self.pat_matches(
                        rules@[rr].searcher.nodes@,
                        rules@[rr].searcher.nodes@.len() - 1,
                        cc,
                        sigma,
                    ) ==> self.found_entry(res@, rr, cc, sigma),
            decreases m - r,
        {
            let found = self.search(&rules[r].searcher);
            let ghost found0 = found@;
            let fl = found.len();
            let mut e: usize = 0;
            let mut found = found;
            let ghost respre = res@;
            proof {
                assert(rules@[r as int].wf());
            }
            while e < fl
                invariant
                    self.wf(),
                    forall|rr: int| 0 <= rr < rules@.len() ==> (#[trigger] rules@[rr]).wf(),
                    m == rules@.len(),
                    r < m,
                    e <= fl,
                    found@.len() + e == fl,
                    fl == found0.len(),
                    forall|ee: int|
                        0 <= ee < found@.len() ==> #[trigger] found@[ee] == found0[ee + e as int],
                    res@.len() == respre.len() + e as int,
                    respre.len() == 0 || res@.len() > 0,
                    forall|ff: int|
                        0 <= ff < e as int ==> ((#[trigger] res@[respre.len() + ff]).0 as int)
                            == r as int && (res@[respre.len() + ff].1 as int)
                            == found0[ff].0 as int && res@[respre.len() + ff].2.binds@
                            == found0[ff].1.binds@,
                    forall|rr: int, cc: int, sigma: Seq<(crate::term::Var, Id)>|
                        0 <= rr < r as int && 0 <= cc < self.n() && self.uf.is_root(cc)
                            && #[trigger] self.pat_matches(
                            rules@[rr].searcher.nodes@,
                            rules@[rr].searcher.nodes@.len() - 1,
                            cc,
                            sigma,
                        ) ==> self.found_entry(res@, rr, cc, sigma),
                    forall|e2: int|
                        0 <= e2 < found@.len() ==> ((#[trigger] found@[e2]).0 as int) < self.n()
                            && found@[e2].1.ok_for(self.n()) && self.pat_matches(
                            rules@[r as int].searcher.nodes@,
                            rules@[r as int].searcher.nodes@.len() - 1,
                            found@[e2].0 as int,
                            found@[e2].1.binds@,
                        ),
                    forall|e2: int|
                        0 <= e2 < res@.len() ==> {
                            let (rr, c, sub) = #[trigger] res@[e2];
                            &&& (rr as int) < rules@.len()
                            &&& (c as int) < self.n()
                            &&& sub.ok_for(self.n())
                            &&& self.pat_matches(
                                rules@[rr as int].searcher.nodes@,
                                rules@[rr as int].searcher.nodes@.len() - 1,
                                c as int,
                                sub.binds@,
                            )
                        },
                decreases fl - e,
            {
                let ghost rpre2 = res@;
                let pair = found.remove(0);
                res.push((r, pair.0, pair.1));
                proof {
                    assert(res@[res@.len() - 1].1 as int == found0[e as int].0 as int);
                    assert(res@[res@.len() - 1].2.binds@ == found0[e as int].1.binds@);
                    assert forall|ff: int|
                        0 <= ff < e as int + 1 implies ((#[trigger] res@[respre.len()
                        + ff]).0 as int) == r as int && (res@[respre.len() + ff].1 as int)
                        == found0[ff].0 as int && res@[respre.len() + ff].2.binds@
                        == found0[ff].1.binds@ by {
                        if ff < e as int {
                            assert(res@[respre.len() + ff] == rpre2[respre.len() + ff]);
                        }
                    }
                    assert forall|rr: int, cc: int, sigma: Seq<(crate::term::Var, Id)>|
                        0 <= rr < r as int && 0 <= cc < self.n() && self.uf.is_root(cc)
                            && #[trigger] self.pat_matches(
                            rules@[rr].searcher.nodes@,
                            rules@[rr].searcher.nodes@.len() - 1,
                            cc,
                            sigma,
                        ) implies self.found_entry(res@, rr, cc, sigma) by {
                        self.lemma_found_entry_push(rpre2, (r, pair.0, pair.1), rr, cc, sigma);
                    }
                }
                e = e + 1;
            }
            proof {
                assert forall|cc: int, sigma: Seq<(crate::term::Var, Id)>|
                    0 <= cc < self.n() && self.uf.is_root(cc) && #[trigger] self.pat_matches(
                        rules@[r as int].searcher.nodes@,
                        rules@[r as int].searcher.nodes@.len() - 1,
                        cc,
                        sigma,
                    ) implies self.found_entry(res@, r as int, cc, sigma) by {
                    assert(self.found_for(found0, cc, sigma));
                    let w = choose|w: int|
                        0 <= w < found0.len() && ((#[trigger] found0[w]).0 as int) == cc
                            && self.agrees(found0[w].1.binds@, sigma);
                    assert((res@[respre.len() + w].0 as int) == r as int);
                    assert((res@[respre.len() + w].1 as int) == cc);
                    assert(self.agrees(res@[respre.len() + w].2.binds@, sigma));
                }
                if res@.len() == 0 {
                    // nothing was copied, so this rule's search was empty and
                    // its completeness rules out any match anywhere
                    assert(fl == 0);
                    assert(found0.len() == 0);
                    assert forall|rr: int, cc: int, binds: Seq<(crate::term::Var, Id)>|
                        0 <= rr < r as int + 1 && 0 <= cc < self.n() implies !#[trigger] self.pat_matches(
                        rules@[rr].searcher.nodes@,
                        rules@[rr].searcher.nodes@.len() - 1,
                        cc,
                        binds,
                    ) by {
                        if rr == r as int && self.pat_matches(
                            rules@[rr].searcher.nodes@,
                            rules@[rr].searcher.nodes@.len() - 1,
                            cc,
                            binds,
                        ) {
                            self.uf.lemma_rootof_le(cc);
                            self.uf.lemma_rootof_idem(cc);
                            self.lemma_pat_matches_same(
                                rules@[rr].searcher.nodes@,
                                rules@[rr].searcher.nodes@.len() - 1,
                                cc,
                                self.rootof(cc),
                                binds,
                            );
                            assert(self.pat_matches(
                                rules@[rr].searcher.nodes@,
                                rules@[rr].searcher.nodes@.len() - 1,
                                self.rootof(cc),
                                binds,
                            ));
                            assert(false);
                        }
                    }
                }
            }
            r = r + 1;
        }
        res
    }
}


impl<A: Analysis> EGraph<A> {
    /// The node count only reads the class store.
    pub proof fn lemma_nodes_upto_transfer(self, prev: EGraph<A>, c: int)
        requires
            prev.classes@ == self.classes@,
        ensures
            prev.nodes_upto(c) == self.nodes_upto(c),
        decreases c,
    {
        if c > 0 {
            self.lemma_nodes_upto_transfer(prev, c - 1);
        }
    }

    /// Run the rule set until saturation or a budget is exhausted.  Every
    /// terminal state leaves the graph rebuilt and congruence-consistent.
    /// On a graph where no rule matches, nothing changes and the run stops
    /// at once — with saturation, unless a budget was already exceeded.
    #[verifier::rlimit(60)]
    pub fn run<D: DynamicApplier>(
        &mut self,
        rules: &Vec<Rewrite<D>>,
        iter_limit: usize,
        time_limit_ms: u64,
        node_limit: usize,
    ) -> (r: Result<StopReason, EngineError>)
        requires
            old(self).wf(),
            forall|rr: int| 0 <= rr < rules@.len() ==> (#[trigger] rules@[rr]).wf(),
        ensures
            final(self).wf(),
            final(self).extends(*old(self)),
            final(self).analysis == old(self).analysis,
            r is Ok ==> final(self).clean(),
            r matches Err(e) ==> e != EngineError::NoFiniteTerm && e != EngineError::TooFewOperands,
            old(self).clean() && old(self).no_match(rules@) ==> final(self).unchanged(*old(self)) && r is Ok,
            old(self).clean() && old(self).no_match(rules@) && iter_limit >= 1 && old(self).nodes_upto(old(self).n()) <= node_limit as int ==> (r == Ok::<StopReason, EngineError>(StopReason::Saturated) || r == Ok::<StopReason, EngineError>(StopReason::TimeLimit)),
            r == Ok::<StopReason, EngineError>(StopReason::NodeLimit) ==> final(self).nodes_upto(final(self).n()) > node_limit as int,
            // saturation is the rule-set fixpoint: every match of every
            // fixed-applier rule in the final graph is already discharged
            r == Ok::<StopReason, EngineError>(StopReason::Saturated) ==> final(self).rules_done(rules@),
    {
        let ghost g0 = *old(self);
        match self.rebuild() {
            Ok(_) => {},
            Err(e) => {
                return Err(e);
            },
        }
        let start = clock_millis();
        let mut iters: usize = 0;
        loop
            invariant
                g0 == *old(self),
                g0.wf(),
                forall|rr: int| 0 <= rr < rules@.len() ==> (#[trigger] rules@[rr]).wf(),
                self.wf(),
                self.clean(),
                self.extends(g0),
                self.analysis == g0.analysis,
                iters <= iter_limit,
                g0.clean() && g0.no_match(rules@) ==> self.unchanged(g0) && iters == 0,
            decreases iter_limit - iters,
        {
            // budget checks
            if iters >= iter_limit {
                return Ok(StopReason::IterLimit);
            }
            let nodes = self.node_count();
            if nodes > node_limit {
                proof {
                    if g0.clean() && g0.no_match(rules@) {
                        self.lemma_nodes_upto_transfer(g0, g0.n());
                        g0.lemma_nodes_upto_nonneg(g0.n());
                    }
                }
                return Ok(StopReason::NodeLimit);
            }
            let now = clock_millis();
            let elapsed = if now > start {
                now - start
            } else {
                0
            };
            if elapsed >= time_limit_ms {
                return Ok(StopReason::TimeLimit);
            }
            // search against the round's snapshot
            let ms = self.search_all(rules);
            let mlen = ms.len();
            if mlen == 0 {
                proof {
                    assert(self.no_match(rules@));
                    assert forall|ri: int, c: int, sigma: Seq<(crate::term::Var, Id)>|
                        0 <= ri < rules@.len() && 0 <= c < self.n() && #[trigger] self.pat_matches(
                            rules@[ri].searcher.nodes@,
                            rules@[ri].searcher.nodes@.len() - 1,
                            c,
                            sigma,
                        ) implies match rules@[ri].applier {
                        crate::rewrite::Applier::Fixed(ap) => self.applier_done(
                            rules@[ri].searcher.nodes@,
                            ap.nodes@,
                            c,
                            sigma,
                        ),
                        crate::rewrite::Applier::Dynamic(_) => true,
                    } by {
                        assert(false);
                    }
                    assert(self.rules_done(rules@));
                }
                return Ok(StopReason::Saturated);
            }
            proof {
                // a graph with no matches cannot reach this point
                if g0.clean() && g0.no_match(rules@) {
                    let (ri, c, sub) = ms@[0];
                    assert(self.pat_matches(
                        rules@[ri as int].searcher.nodes@,
                        rules@[ri as int].searcher.nodes@.len() - 1,
                        c as int,
                        sub.binds@,
                    ));
                    self.lemma_pat_matches_transfer(
                        g0,
                        rules@[ri as int].searcher.nodes@,
                        rules@[ri as int].searcher.nodes@.len() - 1,
                        c as int,
                        sub.binds@,
                    );
                    assert(false);
                }
            }
            // apply every match, in discovery order
            let ghost gsearch = *self;
            proof {
                self.lemma_extends_refl();
            }
            let mut any = false;
            let mut e: usize = 0;
            while e < mlen
                invariant
                    !(g0.clean() && g0.no_match(rules@)),
                    g0 == *old(self),
                    g0.wf(),
                    gsearch.wf(),
                    forall|rr: int| 0 <= rr < rules@.len() ==> (#[trigger] rules@[rr]).wf(),
                    self.wf(),
                    self.extends(g0),
                    self.extends(gsearch),
                    self.analysis == g0.analysis,
                    gsearch.n() <= self.n(),
                    mlen == ms@.len(),
                    e <= mlen,
                    forall|e2: int|
                        0 <= e2 < ms@.len() ==> {
                            let (rr, c, sub) = #[trigger] ms@[e2];
                            &&& (rr as int) < rules@.len()
                            &&& (c as int) < gsearch.n()
                            &&& sub.ok_for(gsearch.n())
                        },
                decreases mlen - e,
            {
                let ghost gpre = *self;
                let ri = ms[e].0;
                let c = ms[e].1;
                let res = self.apply_one(&rules[ri], c, &ms[e].2);
                proof {
                    self.lemma_extends_trans(gpre, g0);
                    self.lemma_extends_trans(gpre, gsearch);
                }
                match res {
                    Ok(ch) => {
                        any = any || ch;
                    },
                    Err(err) => {
                        return Err(err);
                    },
                }
                e = e + 1;
            }
            // restore the invariants for the next round
            let ghost gapplied = *self;
            let unions = match self.rebuild() {
                Ok(u) => u,
                Err(err) => {
                    proof {
                        self.lemma_extends_trans(gapplied, g0);
                    }
                    return Err(err);
                },
            };
            proof {
                self.lemma_extends_trans(gapplied, g0);
            }
            if !any && unions == 0 {
                let done = self.all_rules_done(rules);
                if done {
                    return Ok(StopReason::Saturated);
                }
            }
            iters = iters + 1;
        }
    }
}


impl<A: Analysis> EGraph<A> {
    /// Search once more and check that every found match of a fixed-applier
    /// rule already carries its right-hand side.  A true answer certifies
    /// the rule-set fixpoint over the whole graph.
    #[verifier::rlimit(60)]
    fn all_rules_done<D: DynamicApplier>(&self, rules: &Vec<Rewrite<D>>) -> (r: bool)
        requires
            self.wf(),
            forall|rr: int| 0 <= rr < rules@.len() ==> (#[trigger] rules@[rr]).wf(),
        ensures
            r ==> self.rules_done(rules@),
    {
        let ms = self.search_all(rules);
        let ghost msg = ms@;
        let mlen = ms.len();
        let mut e: usize = 0;
        while e < mlen
            invariant
                self.wf(),
                forall|rr: int| 0 <= rr < rules@.len() ==> (#[trigger] rules@[rr]).wf(),
                mlen == msg.len(),
                ms@ == msg,
                e <= mlen,
                forall|ee: int|
                    0 <= ee < msg.len() ==> {
                        let (rr, c, sub) = #[trigger] msg[ee];
                        &&& (rr as int) < rules@.len()
                        &&& (c as int) < self.n()
                        &&& sub.ok_for(self.n())
                        &&& self.pat_matches(
                            rules@[rr as int].searcher.nodes@,
                            rules@[rr as int].searcher.nodes@.len() - 1,
                            c as int,
                            sub.binds@,
                        )
                    },
                forall|ri: int, cc: int, sigma: Seq<(crate::term::Var, Id)>|
                    0 <= ri < rules@.len() && 0 <= cc < self.n() && self.uf.is_root(cc)
                        && #[trigger] self.pat_matches(
                        rules@[ri].searcher.nodes@,
                        rules@[ri].searcher.nodes@.len() - 1,
                        cc,
                        sigma,
                    ) ==> self.found_entry(msg, ri, cc, sigma),
                forall|ee: int|
                    0 <= ee < e as int ==> match rules@[(#[trigger] msg[ee]).0 as int].applier {
                        crate::rewrite::Applier::Fixed(ap) => self.rhs_carried(
                            ap.nodes@,
                            msg[ee].1 as int,
                            msg[ee].2.binds@,
                        ),
                        crate::rewrite::Applier::Dynamic(_) => true,
                    },
            decreases mlen - e,
        {
            let ri = ms[e].0;
            let c = ms[e].1;
            let ok = self.applier_satisfied(&rules[ri], c, &ms[e].2);
            if !ok {
                return false;
            }
            e = e + 1;
        }
        proof {
            assert forall|ri: int, c: int, sigma: Seq<(crate::term::Var, Id)>|
                0 <= ri < rules@.len() && 0 <= c < self.n() && #[trigger] self.pat_matches(
                    rules@[ri].searcher.nodes@,
                    rules@[ri].searcher.nodes@.len() - 1,
                    c,
                    sigma,
                ) implies match rules@[ri].applier {
                crate::rewrite::Applier::Fixed(ap) => self.applier_done(
                    rules@[ri].searcher.nodes@,
                    ap.nodes@,
                    c,
                    sigma,
                ),
                crate::rewrite::Applier::Dynamic(_) => true,
            } by {
                match rules@[ri].applier {
                    crate::rewrite::Applier::Fixed(ap) => {
                        // move to the representative, where the search is
                        // complete, then carry the witnesses back
                        self.uf.lemma_rootof_le(c);
                        self.uf.lemma_rootof_idem(c);
                        let rc = self.rootof(c);
                        self.lemma_pat_matches_same(
                            rules@[ri].searcher.nodes@,
                            rules@[ri].searcher.nodes@.len() - 1,
                            c,
                            rc,
                            sigma,
                        );
                        assert(self.found_entry(msg, ri, rc, sigma));
                        let ee = choose|ee: int|
                            0 <= ee < msg.len() && ((#[trigger] msg[ee]).0 as int) == ri && (
                            msg[ee].1 as int) == rc && self.agrees(msg[ee].2.binds@, sigma);
                        assert(self.rhs_carried(ap.nodes@, rc, msg[ee].2.binds@));
                        let s2 = choose|s2: Seq<(crate::term::Var, Id)>|
                            #[trigger] crate::pattern::keeps(msg[ee].2.binds@, s2)
                                && self.pat_matches(ap.nodes@, ap.nodes@.len() - 1, rc, s2);
                        self.lemma_pat_matches_same(
                            rules@[ri].searcher.nodes@,
                            rules@[ri].searcher.nodes@.len() - 1,
                            rc,
                            c,
                            msg[ee].2.binds@,
                        );
                        self.lemma_pat_matches_same(ap.nodes@, ap.nodes@.len() - 1, rc, c, s2);
                        assert(self.applier_done_at(
                            rules@[ri].searcher.nodes@,
                            ap.nodes@,
                            c,
                            sigma,
                            msg[ee].2.binds@,
                            s2,
                        ));
                    },
                    crate::rewrite::Applier::Dynamic(_) => {},
                }
            }
        }
        true
    }
}

} // verus!
