//! Rewrite rules.
//!
//! A rule pairs a searcher pattern with an applier: either a fixed pattern,
//! instantiated under each match's bindings, or a dynamic procedure that is
//! handed every bound variable together with its class's current analysis
//! value and must produce the pattern to instantiate.  Either way the
//! instantiated term is unioned with the matched class.

use vstd::prelude::*;

use crate::graph::{Analysis, EGraph, EngineError};
use crate::pattern::{pat_wf, Pattern, Subst};
use crate::term::{Expr, Id, TermNode, Var};

verus! {

/// A host-supplied procedure computing a rule's right-hand side from the
/// bound variables and their analysis values.  Nothing is assumed of it:
/// whatever pattern it returns is validated when instantiated.
pub trait DynamicApplier: Sized {
    fn build(&self, binds: &Vec<(Var, Option<i64>)>) -> Pattern;
}

/// Stands in for rule sets that use no dynamic appliers.
pub struct NoDynamic;

impl DynamicApplier for NoDynamic {
    fn build(&self, binds: &Vec<(Var, Option<i64>)>) -> Pattern {
        let mut nodes: Vec<TermNode> = Vec::new();
        nodes.push(TermNode::Leaf(0));
        Pattern { nodes }
    }
}

/// A rule's right-hand side.
pub enum Applier<D> {
    Fixed(Pattern),
    Dynamic(D),
}

/// A rewrite rule: a name, a searcher pattern and an applier.
pub struct Rewrite<D> {
    pub name: String,
    pub searcher: Pattern,
    pub applier: Applier<D>,
}

impl<D: DynamicApplier> Rewrite<D> {
    pub open spec fn wf(self) -> bool {
        &&& pat_wf(self.searcher.nodes@)
        &&& match self.applier {
            Applier::Fixed(p) => pat_wf(p.nodes@),
            Applier::Dynamic(_) => true,
        }
    }

    /// A rule whose right-hand side is a fixed pattern.  Succeeds exactly
    /// when both expressions compile as patterns, and the rule then holds
    /// exactly the given name, searcher and applier.
    pub fn from_patterns(name: String, searcher: Expr, applier: Expr) -> (r: Result<
        Rewrite<D>,
        EngineError,
    >)
        ensures
            r matches Ok(rw) ==> rw.wf() && rw.name@ == name@ && rw.searcher.nodes@
                == searcher.nodes@ && (rw.applier matches Applier::Fixed(ap) && ap.nodes@
                == applier.nodes@),
            r is Ok <==> pat_wf(searcher.nodes@) && pat_wf(applier.nodes@),
    {
        let s = match Pattern::compile(searcher) {
            Ok(p) => p,
            Err(e) => {
                return Err(e);
            },
        };
        let a = match Pattern::compile(applier) {
            Ok(p) => p,
            Err(e) => {
                return Err(e);
            },
        };
        Ok(Rewrite { name, searcher: s, applier: Applier::Fixed(a) })
    }

    /// A rule whose right-hand side is computed by the host per match.
    /// Succeeds exactly when the searcher compiles as a pattern.
    pub fn dynamic(name: String, searcher: Expr, proc: D) -> (r: Result<Rewrite<D>, EngineError>)
        ensures
            r matches Ok(rw) ==> rw.wf() && rw.name@ == name@ && rw.searcher.nodes@
                == searcher.nodes@ && rw.applier is Dynamic,
            r is Ok <==> pat_wf(searcher.nodes@),
    {
        let s = match Pattern::compile(searcher) {
            Ok(p) => p,
            Err(e) => {
                return Err(e);
            },
        };
        Ok(Rewrite { name, searcher: s, applier: Applier::Dynamic(proc) })
    }
}

impl<A: Analysis> EGraph<A> {
    /// The bound variables with the analysis values of their classes, as the
    /// dynamic applier sees them: entry `i` pairs the `i`-th binding's bare
    /// name (the leading `?` marker stripped) with the current analysis
    /// value of the bound class.
    fn resolve_binds(&self, sub: &Subst) -> (r: Vec<(Var, Option<i64>)>)
        requires
            self.wf(),
            sub.ok_for(self.n()),
        ensures
            r@.len() == sub.binds@.len(),
            forall|i: int|
                0 <= i < sub.binds@.len() ==> {
                    let (v, data) = #[trigger] r@[i];
                    &&& v.text@ == if sub.binds@[i].0.text@.len() >= 1 {
                        sub.binds@[i].0.text@.subrange(1, sub.binds@[i].0.text@.len() as int)
                    } else {
                        sub.binds@[i].0.text@
                    }
                    &&& data == self.classes@[self.rootof(sub.binds@[i].1 as int)].data
                },
    {
        let m = sub.binds.len();
        let mut out: Vec<(Var, Option<i64>)> = Vec::new();
        let mut i: usize = 0;
        while i < m
            invariant
                self.wf(),
                sub.ok_for(self.n()),
                m == sub.binds@.len(),
                i <= m,
                out@.len() == i as int,
                forall|ii: int|
                    0 <= ii < i as int ==> {
                        let (v, data) = #[trigger] out@[ii];
                        &&& v.text@ == if sub.binds@[ii].0.text@.len() >= 1 {
                            sub.binds@[ii].0.text@.subrange(
                                1,
                                sub.binds@[ii].0.text@.len() as int,
                            )
                        } else {
                            sub.binds@[ii].0.text@
                        }
                        &&& data == self.classes@[self.rootof(sub.binds@[ii].1 as int)].data
                    },
            decreases m - i,
        {
            let d = sub.binds[i].1;
            let rd = self.uf.find(d);
            let data = self.classes[rd].data;
            let text = &sub.binds[i].0.text;
            let tlen = text.as_str().unicode_len();
            let bare = if tlen >= 1 {
                String::from_str(text.as_str().substring_char(1, tlen))
            } else {
                text.clone()
            };
            out.push((Var { text: bare }, data));
            i = i + 1;
        }
        out
    }

    /// Apply one match of a rule: instantiate the right-hand side under the
    /// match's bindings and union it with the matched class.  Returns
    /// whether a new equivalence was created.  On success with a fixed
    /// applier, the matched class matches the applier pattern under the
    /// match's own bindings: the rewrite's right-hand side now lives in it.
    pub fn apply_one<D: DynamicApplier>(&mut self, rw: &Rewrite<D>, c: Id, sub: &Subst) -> (r:
        Result<bool, EngineError>)
        requires
            old(self).wf(),
            (c as int) < old(self).n(),
            sub.ok_for(old(self).n()),
        ensures
            final(self).wf(),
            final(self).extends(*old(self)),
            final(self).analysis == old(self).analysis,
            r matches Err(e) ==> e != EngineError::NoFiniteTerm && e != EngineError::TooFewOperands,
            rw.applier matches Applier::Fixed(ap) ==> (r is Ok ==> final(self).pat_matches(
                ap.nodes@,
                ap.nodes@.len() - 1,
                c as int,
                sub.binds@,
            )),
            old(self).inert() && old(self).datafree() ==> final(self).datafree() && (r matches Ok(
                ch,
            ) ==> (ch <==> final(self).merged_count() > old(self).merged_count())),
    {
        let ghost g0 = *old(self);
        let inst = match &rw.applier {
            Applier::Fixed(p) => self.instantiate(p, sub),
            Applier::Dynamic(d) => {
                let binds = self.resolve_binds(sub);
                let p = d.build(&binds);
                self.instantiate(&p, sub)
            },
        };
        let id = match inst {
            Ok(id) => id,
            Err(e) => {
                return Err(e);
            },
        };
        let ghost g1 = *self;
        let res = self.union_ids(c, id);
        proof {
            self.lemma_extends_trans(g1, g0);
            match res {
                Ok(ch) => {
                    match &rw.applier {
                        Applier::Fixed(ap) => {
                            assert(g1.pat_matches(
                                ap.nodes@,
                                ap.nodes@.len() - 1,
                                id as int,
                                sub.binds@,
                            ));
                            self.lemma_pat_matches_extends(
                                g1,
                                ap.nodes@,
                                ap.nodes@.len() - 1,
                                id as int,
                                sub.binds@,
                            );
                            assert(self.same(c as int, id as int));
                            self.lemma_pat_matches_same(
                                ap.nodes@,
                                ap.nodes@.len() - 1,
                                id as int,
                                c as int,
                                sub.binds@,
                            );
                        },
                        Applier::Dynamic(_) => {},
                    }
                    if g0.inert() && g0.datafree() {
                        assert(g1.merged_count() == g0.merged_count());
                        if !ch {
                            assert(self.unchanged(g1));
                            g1.uf.lemma_nroots_prefix(self.uf, g1.uf.n());
                        }
                    }
                },
                Err(_) => {},
            }
        }
        match res {
            Ok(ch) => Ok(ch),
            Err(e) => Err(e),
        }
    }
}


impl<A: Analysis> EGraph<A> {
    /// The four pieces of a discharged match: a recorded match of the
    /// searcher at `c` agreeing with `sigma`, whose bindings extend to a
    /// match of the applier pattern at `c`.
    pub open spec fn applier_done_at(
        self,
        lhs: Seq<TermNode>,
        ap: Seq<TermNode>,
        c: int,
        sigma: Seq<(Var, Id)>,
        s1: Seq<(Var, Id)>,
        s2: Seq<(Var, Id)>,
    ) -> bool {
        &&& self.agrees(s1, sigma)
        &&& self.pat_matches(lhs, lhs.len() - 1, c, s1)
        &&& crate::pattern::keeps(s1, s2)
        &&& self.pat_matches(ap, ap.len() - 1, c, s2)
    }

    /// The rewrite from `lhs` to `ap` has nothing left to do for the match
    /// of `lhs` at `c` under `sigma`: a consistent match already carries the
    /// applier's shape in the same class.
    pub open spec fn applier_done(
        self,
        lhs: Seq<TermNode>,
        ap: Seq<TermNode>,
        c: int,
        sigma: Seq<(Var, Id)>,
    ) -> bool {
        exists|s1: Seq<(Var, Id)>, s2: Seq<(Var, Id)>|
            #[trigger] self.applier_done_at(lhs, ap, c, sigma, s1, s2)
    }

    /// The rule set is at its fixpoint: every match of every fixed-applier
    /// rule's searcher, anywhere in the graph, is already discharged.
    pub open spec fn rules_done<D>(self, rules: Seq<Rewrite<D>>) -> bool {
        forall|ri: int, c: int, sigma: Seq<(Var, Id)>|
            0 <= ri < rules.len() && 0 <= c < self.n() && #[trigger] self.pat_matches(
                rules[ri].searcher.nodes@,
                rules[ri].searcher.nodes@.len() - 1,
                c,
                sigma,
            ) ==> match rules[ri].applier {
                Applier::Fixed(ap) => self.applier_done(
                    rules[ri].searcher.nodes@,
                    ap.nodes@,
                    c,
                    sigma,
                ),
                Applier::Dynamic(_) => true,
            }
    }

    /// The bindings `base` extend to a match of the pattern `ap` at `c`.
    pub open spec fn rhs_carried(
        self,
        ap: Seq<TermNode>,
        c: int,
        base: Seq<(Var, Id)>,
    ) -> bool {
        exists|s2: Seq<(Var, Id)>|
            #[trigger] crate::pattern::keeps(base, s2) && self.pat_matches(
                ap,
                ap.len() - 1,
                c,
                s2,
            )
    }

    /// Whether this match's right-hand side is already realized in the
    /// matched class: true means, for a fixed applier, the match's bindings
    /// extend to a match of the applier pattern at `c`.  Dynamic appliers
    /// are not checked.
    pub fn applier_satisfied<D: DynamicApplier>(&self, rw: &Rewrite<D>, c: Id, sub: &Subst) -> (r:
        bool)
        requires
            self.wf(),
            rw.wf(),
            (c as int) < self.n(),
            sub.ok_for(self.n()),
        ensures
            r ==> match rw.applier {
                Applier::Fixed(ap) => self.rhs_carried(ap.nodes@, c as int, sub.binds@),
                Applier::Dynamic(_) => true,
            },
    {
        match &rw.applier {
            Applier::Dynamic(_) => true,
            Applier::Fixed(ap) => {
                let mut seeds: Vec<Subst> = Vec::new();
                seeds.push(sub.duplicate());
                let ghost seedsg = seeds@;
                let root = ap.nodes.len() - 1;
                let out = self.match_all(ap, root, c, seeds);
                let nonempty = out.len() > 0;
                proof {
                    if nonempty {
                        assert(crate::pattern::kept_from(seedsg, out@[0].binds@));
                        let e2 = choose|e2: int|
                            0 <= e2 < seedsg.len() && #[trigger] crate::pattern::keeps(
                                seedsg[e2].binds@,
                                out@[0].binds@,
                            );
                        assert(seedsg[e2].binds@ == sub.binds@);
                        assert(crate::pattern::keeps(sub.binds@, out@[0].binds@));
                    }
                }
                nonempty
            },
        }
    }
}

} // verus!
