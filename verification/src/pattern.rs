//! Patterns and substitutions.
//!
//! A pattern is a surface expression whose variables stand for classes;
//! compiling checks the shape (class-id references are rejected — ids denote
//! graph positions, not sub-templates).  Searching a pattern over the graph
//! yields matches: a class id and a substitution binding every variable of
//! the pattern.  Instantiation replaces variables by their bound classes and
//! adds the resulting term.

use vstd::prelude::*;

use crate::graph::{Analysis, EGraph, EngineError};
use crate::term::{Expr, Id, TermNode, Var};

verus! {

/// A compiled match template.
pub struct Pattern {
    pub nodes: Vec<TermNode>,
}

/// Well-formed pattern shape: non-empty, children pointing backwards, and no
/// class-id references.
pub open spec fn pat_wf(s: Seq<TermNode>) -> bool {
    &&& s.len() > 0
    &&& crate::term::expr_wf(s)
    &&& crate::term::expr_no_refs(s)
}

/// A substitution: bindings from variable text to class id, first wins.
pub struct Subst {
    pub binds: Vec<(Var, Id)>,
}

/// What a binding list means: lookup by variable text, earliest entry wins.
pub open spec fn subst_find(binds: Seq<(Var, Id)>, name: Seq<char>, i: int) -> Option<Id>
    decreases binds.len() - i,
{
    if i < 0 || i >= binds.len() {
        None
    } else if binds[i].0.text@ == name {
        Some(binds[i].1)
    } else {
        subst_find(binds, name, i + 1)
    }
}

pub open spec fn subst_lookup(binds: Seq<(Var, Id)>, name: Seq<char>) -> Option<Id> {
    subst_find(binds, name, 0)
}

/// Appending bindings never disturbs an existing one.
pub proof fn lemma_subst_push(binds: Seq<(Var, Id)>, x: (Var, Id), name: Seq<char>, i: int)
    requires
        0 <= i <= binds.len(),
    ensures
        subst_find(binds.push(x), name, i) == match subst_find(binds, name, i) {
            Some(d) => Some(d),
            None => if x.0.text@ == name {
                Some(x.1)
            } else {
                None
            },
        },
    decreases binds.len() - i,
{
    if i < binds.len() {
        assert(binds.push(x)[i] == binds[i]);
        lemma_subst_push(binds, x, name, i + 1);
    } else {
        assert(binds.push(x)[i] == x);
        assert(subst_find(binds.push(x), name, i + 1) is None);
    }
}

/// A found binding names the id of some entry.
pub proof fn lemma_subst_find_some(binds: Seq<(Var, Id)>, name: Seq<char>, i: int) -> (e: int)
    requires
        0 <= i,
        subst_find(binds, name, i) is Some,
    ensures
        i <= e < binds.len(),
        subst_find(binds, name, i) == Some(binds[e].1),
    decreases binds.len() - i,
{
    if binds[i].0.text@ == name {
        i
    } else {
        lemma_subst_find_some(binds, name, i + 1)
    }
}

/// Some input substitution's bindings are all kept in `b`.
pub open spec fn kept_from(subs: Seq<Subst>, b: Seq<(Var, Id)>) -> bool {
    exists|e2: int| 0 <= e2 < subs.len() && #[trigger] keeps(subs[e2].binds@, b)
}

/// Every binding of `b1` is present, unchanged, in `b2`.
pub open spec fn keeps(b1: Seq<(Var, Id)>, b2: Seq<(Var, Id)>) -> bool {
    forall|name: Seq<char>|
        (#[trigger] subst_lookup(b1, name)) is Some ==> subst_lookup(b2, name) == subst_lookup(
            b1,
            name,
        )
}

impl Subst {
    pub fn new() -> (r: Subst)
        ensures
            r.binds@.len() == 0,
    {
        Subst { binds: Vec::new() }
    }

    /// The class bound to a variable, if any.
    pub fn get(&self, v: &Var) -> (r: Option<Id>)
        ensures
            r == subst_lookup(self.binds@, v.text@),
    {
        let m = self.binds.len();
        let mut i: usize = 0;
        while i < m
            invariant
                m == self.binds@.len(),
                i <= m,
                subst_lookup(self.binds@, v.text@) == subst_find(self.binds@, v.text@, i as int),
            decreases m - i,
        {
            if self.binds[i].0.text == v.text {
                return Some(self.binds[i].1);
            }
            i = i + 1;
        }
        None
    }
}

impl Pattern {
    /// Compile a surface expression into a pattern.  Class-id references are
    /// a usage error; so is an empty expression or a forward child index.
    pub fn compile(e: Expr) -> (r: Result<Pattern, EngineError>)
        ensures
            r matches Ok(p) ==> pat_wf(p.nodes@) && p.nodes@ == e.nodes@,
            r is Err <==> !pat_wf(e.nodes@),
            r matches Err(err) ==> (err == EngineError::EmptyExpr || err
                == EngineError::RefInPattern || err == EngineError::MalformedExpr),
            r == Err::<Pattern, EngineError>(EngineError::EmptyExpr) <==> e.nodes@.len() == 0,
            r == Err::<Pattern, EngineError>(EngineError::RefInPattern) ==> exists|i: int|
                0 <= i < e.nodes@.len() && (#[trigger] e.nodes@[i]) is Ref,
            r == Err::<Pattern, EngineError>(EngineError::MalformedExpr) ==> exists|i: int|
                0 <= i < e.nodes@.len() && !(#[trigger] crate::term::node_wf_at(e.nodes@, i))
                && e.nodes@[i] is Op,
    {
        let m = e.nodes.len();
        if m == 0 {
            return Err(EngineError::EmptyExpr);
        }
        let mut i: usize = 0;
        while i < m
            invariant
                m == e.nodes@.len(),
                i <= m,
                forall|ii: int|
                    0 <= ii < i as int ==> !((#[trigger] e.nodes@[ii]) is Ref)
                        && crate::term::node_wf_at(e.nodes@, ii),
            decreases m - i,
        {
            match &e.nodes[i] {
                TermNode::Ref(_) => {
                    return Err(EngineError::RefInPattern);
                },
                TermNode::Var(_) => {},
                TermNode::Leaf(_) => {},
                TermNode::Op(_, cs) => {
                    let ghost gnode = e.nodes@[i as int];
                    proof {
                        assert(gnode matches TermNode::Op(o2, cs2) && cs2@ == cs@);
                    }
                    let mc = cs.len();
                    let mut j: usize = 0;
                    while j < mc
                        invariant
                            0 <= (i as int) && (i as int) < e.nodes@.len(),
                            e.nodes@[i as int] matches TermNode::Op(o2, cs2) && cs2@ == cs@,
                            mc == cs@.len(),
                            j <= mc,
                            forall|jj: int|
                                0 <= jj < j as int ==> (#[trigger] cs@[jj] as int) < i as int,
                        decreases mc - j,
                    {
                        if !(cs[j] < i) {
                            proof {
                                assert(!((cs@[j as int] as int) < i as int));
                                assert(!crate::term::node_wf_at(e.nodes@, i as int));
                                assert(e.nodes@[i as int] is Op);
                            }
                            return Err(EngineError::MalformedExpr);
                        }
                        j = j + 1;
                    }
                },
            }
            proof {
                assert(crate::term::node_wf_at(e.nodes@, i as int));
            }
            i = i + 1;
        }
        Ok(Pattern { nodes: e.nodes })
    }
}

impl<A: Analysis> EGraph<A> {
    /// Member node `k`'s children match the pattern children `cs` under the
    /// substitution.
    pub open spec fn pm_children(
        self,
        p: Seq<TermNode>,
        i: int,
        c: int,
        cs: Seq<usize>,
        binds: Seq<(Var, Id)>,
        k: int,
    ) -> bool
        decreases i, 0int,
    {
        forall|j: int|
            0 <= j < cs.len() ==> (#[trigger] cs[j] as int) < i && self.pat_matches(
                p,
                cs[j] as int,
                self.classes@[self.rootof(c)].nodes@[k].children@[j] as int,
                binds,
            )
    }

    /// Some member node of `c`'s class matches the operator pattern node.
    pub open spec fn pm_has_node(
        self,
        p: Seq<TermNode>,
        i: int,
        c: int,
        op: u64,
        cs: Seq<usize>,
        binds: Seq<(Var, Id)>,
    ) -> bool
        decreases i, 1int,
    {
        exists|k: int|
            #[trigger] self.op_shape_at(c, op, cs.len() as int, k) && self.pm_children(
                p,
                i,
                c,
                cs,
                binds,
                k,
            )
    }

    /// The class `c` matches the pattern node at `i` under the bindings:
    /// a variable matches the class it is bound to, a leaf matches a class
    /// containing that leaf, an operator node matches through some member
    /// node whose children match recursively.
    pub open spec fn pat_matches(
        self,
        p: Seq<TermNode>,
        i: int,
        c: int,
        binds: Seq<(Var, Id)>,
    ) -> bool
        decreases i, 2int,
    {
        &&& 0 <= i < p.len()
        &&& 0 <= c < self.n()
        &&& match p[i] {
            TermNode::Ref(_) => false,
            TermNode::Var(v) => match subst_lookup(binds, v.text@) {
                Some(d) => (d as int) < self.n() && self.same(d as int, c),
                None => false,
            },
            TermNode::Leaf(v) => self.has_leaf(c, v),
            TermNode::Op(op, cs) => self.pm_has_node(p, i, c, op, cs@, binds),
        }
    }

    /// A match is stable under adding bindings for other variables.
    pub proof fn lemma_pat_matches_extend(
        self,
        p: Seq<TermNode>,
        i: int,
        c: int,
        b1: Seq<(Var, Id)>,
        b2: Seq<(Var, Id)>,
    )
        requires
            self.pat_matches(p, i, c, b1),
            forall|name: Seq<char>|
                (#[trigger] subst_lookup(b1, name)) is Some ==> subst_lookup(b2, name)
                    == subst_lookup(b1, name),
        ensures
            self.pat_matches(p, i, c, b2),
        decreases i,
    {
        match p[i] {
            TermNode::Op(op, cs) => {
                assert(self.pm_has_node(p, i, c, op, cs@, b1));
                let k = choose|k: int|
                    #[trigger] self.op_shape_at(c, op, cs@.len() as int, k) && self.pm_children(
                        p,
                        i,
                        c,
                        cs@,
                        b1,
                        k,
                    );
                assert forall|j: int| 0 <= j < cs@.len() implies (#[trigger] cs@[j] as int) < i
                    && self.pat_matches(
                    p,
                    cs@[j] as int,
                    self.classes@[self.rootof(c)].nodes@[k].children@[j] as int,
                    b2,
                ) by {
                    assert(self.pat_matches(
                        p,
                        cs@[j] as int,
                        self.classes@[self.rootof(c)].nodes@[k].children@[j] as int,
                        b1,
                    ));
                    self.lemma_pat_matches_extend(
                        p,
                        cs@[j] as int,
                        self.classes@[self.rootof(c)].nodes@[k].children@[j] as int,
                        b1,
                        b2,
                    );
                }
                assert(self.pm_children(p, i, c, cs@, b2, k));
                assert(self.pm_has_node(p, i, c, op, cs@, b2));
            },
            _ => {},
        }
    }
}


impl Subst {
    /// All bound classes are in range for a graph of `n` classes.
    pub open spec fn ok_for(self, n: int) -> bool {
        forall|e: int| 0 <= e < self.binds@.len() ==> ((#[trigger] self.binds@[e]).1 as int) < n
    }

    /// An exact copy of the bindings.
    pub fn duplicate(&self) -> (r: Subst)
        ensures
            r.binds@ == self.binds@,
    {
        let m = self.binds.len();
        let mut out: Vec<(Var, Id)> = Vec::new();
        let mut i: usize = 0;
        while i < m
            invariant
                m == self.binds@.len(),
                i <= m,
                out@.len() == i as int,
                forall|e: int| 0 <= e < i as int ==> #[trigger] out@[e] == self.binds@[e],
            decreases m - i,
        {
            let v = Var { text: self.binds[i].0.text.clone() };
            out.push((v, self.binds[i].1));
            i = i + 1;
        }
        proof {
            assert(out@ =~= self.binds@);
        }
        Subst { binds: out }
    }
}

impl<A: Analysis> EGraph<A> {
    /// Binding lookup as a method so the matcher can call it by reference.
    fn get_binding(&self, sub: &Subst, v: &Var) -> (r: Option<Id>)
        ensures
            r == subst_lookup(sub.binds@, v.text@),
    {
        sub.get(v)
    }

    /// An exact copy of every substitution in the list.
    fn duplicate_all(subs: &Vec<Subst>) -> (r: Vec<Subst>)
        ensures
            r@.len() == subs@.len(),
            forall|e: int| 0 <= e < subs@.len() ==> (#[trigger] r@[e]).binds@ == subs@[e].binds@,
    {
        let m = subs.len();
        let mut out: Vec<Subst> = Vec::new();
        let mut e: usize = 0;
        while e < m
            invariant
                m == subs@.len(),
                e <= m,
                out@.len() == e as int,
                forall|ee: int|
                    0 <= ee < e as int ==> (#[trigger] out@[ee]).binds@ == subs@[ee].binds@,
            decreases m - e,
        {
            out.push(subs[e].duplicate());
            e = e + 1;
        }
        out
    }

    /// Refinement `ce` binds classes in range, matches the first `j`
    /// children of member node `k`, and keeps some input's bindings.
    pub open spec fn refined_at(
        self,
        p: Seq<TermNode>,
        rc: int,
        k: int,
        cs: Seq<usize>,
        subs: Seq<Subst>,
        cur: Seq<Subst>,
        j: int,
        ce: int,
    ) -> bool {
        &&& cur[ce].ok_for(self.n())
        &&& forall|jj: int|
            0 <= jj < j ==> self.pat_matches(
                p,
                #[trigger] cs[jj] as int,
                self.classes@[rc].nodes@[k].children@[jj] as int,
                cur[ce].binds@,
            )
        &&& kept_from(subs, cur[ce].binds@)
    }

    /// Every refinement in `cur` is sound so far.
    pub open spec fn refine_sound(
        self,
        p: Seq<TermNode>,
        rc: int,
        k: int,
        cs: Seq<usize>,
        subs: Seq<Subst>,
        cur: Seq<Subst>,
        j: int,
    ) -> bool {
        forall|ce: int|
            0 <= ce < cur.len() ==> #[trigger] self.refined_at(p, rc, k, cs, subs, cur, j, ce)
    }

    /// Every assignment matching all children of member node `k` that agrees
    /// with some input agrees with some refinement in `cur`.
    pub open spec fn refine_complete(
        self,
        p: Seq<TermNode>,
        rc: int,
        k: int,
        cs: Seq<usize>,
        subs: Seq<Subst>,
        cur: Seq<Subst>,
        mc: int,
    ) -> bool {
        forall|sigma: Seq<(Var, Id)>, e2: int|
            0 <= e2 < subs.len() && #[trigger] self.agrees(subs[e2].binds@, sigma) && (forall|
                jj: int,
            |
                0 <= jj < mc ==> self.pat_matches(
                    p,
                    #[trigger] cs[jj] as int,
                    self.classes@[rc].nodes@[k].children@[jj] as int,
                    sigma,
                )) ==> self.has_agreeing(cur, sigma)
    }

    /// Refine every given substitution against the pattern node at `i` and
    /// the class of `c`, in every possible way.  Sound: each result is a
    /// match that keeps the bindings of one of the inputs.  Complete: every
    /// full assignment that matches here and agrees with some input agrees
    /// with some result.
    #[verifier::spinoff_prover]
    #[verifier::rlimit(100)]
    pub(crate) fn match_all(&self, p: &Pattern, i: usize, c: Id, subs: Vec<Subst>) -> (out: Vec<
        Subst,
    >)
        requires
            self.wf(),
            pat_wf(p.nodes@),
            (i as int) < p.nodes@.len(),
            (c as int) < self.n(),
            forall|e: int| 0 <= e < subs@.len() ==> (#[trigger] subs@[e]).ok_for(self.n()),
        ensures
            forall|e: int|
                0 <= e < out@.len() ==> (#[trigger] out@[e]).ok_for(self.n())
                    && self.pat_matches(p.nodes@, i as int, c as int, out@[e].binds@) && (kept_from(subs@, out@[e].binds@)),
            forall|sigma: Seq<(Var, Id)>, e2: int|
                0 <= e2 < subs@.len() && self.pat_matches(p.nodes@, i as int, c as int, sigma)
                    && #[trigger] self.agrees(subs@[e2].binds@, sigma) ==> self.has_agreeing(out@, sigma),
        decreases i,
    {
        let rc = self.uf.find(c);
        match &p.nodes[i] {
            TermNode::Ref(_) => {
                proof {
                    assert(!(p.nodes@[i as int] is Ref));
                    assert(false);
                }
                Vec::new()
            },
            TermNode::Var(v) => {
                let m = subs.len();
                let mut out: Vec<Subst> = Vec::new();
                let mut e: usize = 0;
                while e < m
                    invariant
                        self.wf(),
                        pat_wf(p.nodes@),
                        0 <= (i as int) && (i as int) < p.nodes@.len(),
                        (c as int) < self.n(),
                        rc as int == self.rootof(c as int),
                        (rc as int) < self.n(),
                        p.nodes@[i as int] matches TermNode::Var(v2) && v2.text@ == v.text@,
                        m == subs@.len(),
                        e <= m,
                        forall|ee: int|
                            0 <= ee < subs@.len() ==> (#[trigger] subs@[ee]).ok_for(self.n()),
                        forall|oe: int|
                            0 <= oe < out@.len() ==> (#[trigger] out@[oe]).ok_for(self.n())
                                && self.pat_matches(
                                p.nodes@,
                                i as int,
                                c as int,
                                out@[oe].binds@,
                            ) && kept_from(subs@, out@[oe].binds@),
                        forall|sigma: Seq<(Var, Id)>, e2: int|
                            0 <= e2 < e as int && self.pat_matches(
                                p.nodes@,
                                i as int,
                                c as int,
                                sigma,
                            ) && #[trigger] self.agrees(subs@[e2].binds@, sigma) ==> self.has_agreeing(out@, sigma),
                    decreases m - e,
                {
                    let st = subs[e].duplicate();
                    let ghost spre = st.binds@;
                    let ghost opre = out@;
                    let ghost mut pushed: Seq<(Var, Id)> = spre;
                    let ghost mut did_push = false;
                    match self.get_binding(&st, v) {
                        Some(d) => {
                            proof {
                                let w = lemma_subst_find_some(st.binds@, v.text@, 0);
                            }
                            let rd = self.uf.find(d);
                            if rd == rc {
                                proof {
                                    assert(self.same(d as int, c as int));
                                    assert(self.pat_matches(
                                        p.nodes@,
                                        i as int,
                                        c as int,
                                        st.binds@,
                                    ));
                                    assert(keeps(subs@[e as int].binds@, st.binds@));
                                    did_push = true;
                                    pushed = st.binds@;
                                }
                                out.push(st);
                            }
                        },
                        None => {
                            let nv = Var { text: v.text.clone() };
                            let mut st2 = st;
                            st2.binds.push((nv, rc));
                            proof {
                                assert forall|name: Seq<char>|
                                    #![trigger subst_lookup(st2.binds@, name)]
                                    true implies subst_lookup(st2.binds@, name) == (
                                match subst_lookup(spre, name) {
                                    Some(dd) => Some(dd),
                                    None => if v.text@ == name {
                                        Some(rc)
                                    } else {
                                        None
                                    },
                                }) by {
                                    lemma_subst_push(spre, (nv, rc), name, 0);
                                }
                                self.uf.lemma_rootof_idem(c as int);
                                assert(subst_lookup(st2.binds@, v.text@) == Some(rc));
                                assert(self.same(rc as int, c as int));
                                assert(self.pat_matches(p.nodes@, i as int, c as int, st2.binds@));
                                assert(keeps(subs@[e as int].binds@, st2.binds@));
                                did_push = true;
                                pushed = st2.binds@;
                            }
                            out.push(st2);
                        },
                    }
                    proof {
                        // soundness carries over the optional push
                        assert forall|oe: int|
                            0 <= oe < out@.len() implies (#[trigger] out@[oe]).ok_for(self.n())
                            && self.pat_matches(
                            p.nodes@,
                            i as int,
                            c as int,
                            out@[oe].binds@,
                        ) && kept_from(subs@, out@[oe].binds@) by {
                            if oe < opre.len() {
                                assert(out@[oe] == opre[oe]);
                            } else {
                                assert(did_push && out@[oe].binds@ == pushed);
                            }
                        }
                        // completeness: assignments agreeing with this input
                        // now have a representative, older ones keep theirs
                        assert forall|sigma: Seq<(Var, Id)>, e2: int|
                            0 <= e2 < e as int + 1 && self.pat_matches(
                                p.nodes@,
                                i as int,
                                c as int,
                                sigma,
                            ) && #[trigger] self.agrees(subs@[e2].binds@, sigma) implies self.has_agreeing(
                            out@,
                            sigma,
                        ) by {
                            if e2 < e as int {
                                assert(self.has_agreeing(opre, sigma));
                                let oe = choose|oe: int|
                                    0 <= oe < opre.len() && #[trigger] self.agrees(
                                        opre[oe].binds@,
                                        sigma,
                                    );
                                assert(out@[oe] == opre[oe]);
                                assert(self.agrees(out@[oe].binds@, sigma));
                            } else {
                                assert(self.agrees(spre, sigma));
                                assert(subst_lookup(sigma, v.text@) matches Some(ds)
                                    && self.same(ds as int, c as int));
                                match subst_lookup(spre, v.text@) {
                                    Some(d) => {
                                        assert(subst_lookup(sigma, v.text@) matches Some(d2)
                                            && self.same(d as int, d2 as int));
                                        assert(self.same(d as int, c as int));
                                        assert(did_push && pushed == spre);
                                        assert(out@[out@.len() - 1].binds@ == pushed);
                                        assert(self.agrees(pushed, sigma));
                                    },
                                    None => {
                                        assert(did_push);
                                        assert(self.agrees(pushed, sigma)) by {
                                            self.uf.lemma_rootof_idem(c as int);
                                            assert forall|name: Seq<char>|
                                                ((#[trigger] subst_lookup(pushed, name))
                                                    matches Some(dd) ==> (subst_lookup(sigma, name)
                                                    matches Some(dd2) && self.same(
                                                    dd as int,
                                                    dd2 as int,
                                                ))) by {
                                                if name != v.text@ {
                                                    assert(subst_lookup(pushed, name)
                                                        == subst_lookup(spre, name));
                                                } else {
                                                    assert(subst_lookup(pushed, name) == Some(
                                                        rc,
                                                    ));
                                                }
                                            }
                                        }
                                        assert(out@[out@.len() - 1].binds@ == pushed);
                                    },
                                }
                            }
                        }
                    }
                    e = e + 1;
                }
                out
            },
            TermNode::Leaf(v) => {
                let klen = self.classes[rc].nodes.len();
                let mut k: usize = 0;
                let mut found = false;
                while k < klen
                    invariant
                        self.wf(),
                        (c as int) < self.n(),
                        rc as int == self.rootof(c as int),
                        (rc as int) < self.n(),
                        klen == self.classes@[rc as int].nodes@.len(),
                        k <= klen,
                        0 <= (i as int) && (i as int) < p.nodes@.len(),
                        p.nodes@[i as int] matches TermNode::Leaf(v2) && v2 == *v,
                        found ==> self.has_leaf(c as int, *v),
                        !found ==> forall|kk: int|
                            0 <= kk < k as int ==> !self.has_leaf_at(c as int, *v, kk),
                    decreases klen - k,
                {
                    if !found {
                        let hit = match self.classes[rc].nodes[k].head {
                            crate::graph::Head::Leaf(h) => {
                                proof {
                                    assert(self.node_wf(
                                        self.classes@[rc as int].nodes@[k as int],
                                    ));
                                }
                                self.interner.value(h) == *v
                            },
                            crate::graph::Head::Op(_) => false,
                        };
                        if hit {
                            proof {
                                assert(self.has_leaf_at(c as int, *v, k as int));
                            }
                            found = true;
                        } else {
                            proof {
                                assert(!self.has_leaf_at(c as int, *v, k as int));
                            }
                        }
                    }
                    k = k + 1;
                }
                if found {
                    proof {
                        assert forall|e: int|
                            0 <= e < subs@.len() implies (#[trigger] subs@[e]).ok_for(self.n())
                            && self.pat_matches(p.nodes@, i as int, c as int, subs@[e].binds@)
                            && kept_from(subs@, subs@[e].binds@) by {
                            assert(keeps(subs@[e].binds@, subs@[e].binds@));
                        }
                    }
                    subs
                } else {
                    proof {
                        assert(!self.has_leaf(c as int, *v)) by {
                            if self.has_leaf(c as int, *v) {
                                let kk = choose|kk: int| self.has_leaf_at(c as int, *v, kk);
                                assert(false);
                            }
                        }
                    }
                    Vec::new()
                }
            },
            TermNode::Op(op, cs) => {
                let ghost gnode = p.nodes@[i as int];
                proof {
                    assert(gnode matches TermNode::Op(o2, cs2) && cs2@ == cs@ && o2 == *op);
                    assert(crate::term::node_wf_at(p.nodes@, i as int));
                }
                let klen = self.classes[rc].nodes.len();
                let mc = cs.len();
                let mut out_all: Vec<Subst> = Vec::new();
                let mut k: usize = 0;
                while k < klen
                    invariant
                        self.wf(),
                        pat_wf(p.nodes@),
                        0 <= (i as int) && (i as int) < p.nodes@.len(),
                        (c as int) < self.n(),
                        rc as int == self.rootof(c as int),
                        (rc as int) < self.n(),
                        klen == self.classes@[rc as int].nodes@.len(),
                        k <= klen,
                        mc == cs@.len(),
                        p.nodes@[i as int] matches TermNode::Op(o2, cs2) && cs2@ == cs@ && o2
                            == *op,
                        forall|jj: int| 0 <= jj < mc ==> (#[trigger] cs@[jj] as int) < i as int,
                        forall|ee: int|
                            0 <= ee < subs@.len() ==> (#[trigger] subs@[ee]).ok_for(self.n()),
                        forall|oe: int|
                            0 <= oe < out_all@.len() ==> (#[trigger] out_all@[oe]).ok_for(
                                self.n(),
                            ) && self.pat_matches(
                                p.nodes@,
                                i as int,
                                c as int,
                                out_all@[oe].binds@,
                            ) && kept_from(subs@, out_all@[oe].binds@),
                        forall|sigma: Seq<(Var, Id)>, e2: int, kk: int|
                            0 <= e2 < subs@.len() && 0 <= kk < k as int && #[trigger] self.agrees(
                                subs@[e2].binds@,
                                sigma,
                            ) && #[trigger] self.op_shape_at(c as int, *op, mc as int, kk)
                                && self.pm_children(
                                p.nodes@,
                                i as int,
                                c as int,
                                cs@,
                                sigma,
                                kk,
                            ) ==> self.has_agreeing(out_all@, sigma),
                    decreases klen - k,
                {
                    let shape_ok = match self.classes[rc].nodes[k].head {
                        crate::graph::Head::Op(o) => o == *op,
                        crate::graph::Head::Leaf(_) => false,
                    } && self.classes[rc].nodes[k].children.len() == mc;
                    if shape_ok {
                        let mut cur = Self::duplicate_all(&subs);
                        proof {
                            assert forall|ce: int|
                                0 <= ce < cur@.len() implies #[trigger] self.refined_at(
                                p.nodes@,
                                rc as int,
                                k as int,
                                cs@,
                                subs@,
                                cur@,
                                0,
                                ce,
                            ) by {
                                assert(cur@[ce].binds@ == subs@[ce].binds@);
                                assert(keeps(subs@[ce].binds@, cur@[ce].binds@));
                                assert(cur@[ce].ok_for(self.n()));
                            }
                            assert(self.refine_sound(
                                p.nodes@,
                                rc as int,
                                k as int,
                                cs@,
                                subs@,
                                cur@,
                                0,
                            ));
                            assert(self.refine_complete(
                                p.nodes@,
                                rc as int,
                                k as int,
                                cs@,
                                subs@,
                                cur@,
                                mc as int,
                            )) by {
                                assert forall|sigma: Seq<(Var, Id)>, e2: int|
                                    0 <= e2 < subs@.len() && #[trigger] self.agrees(
                                        subs@[e2].binds@,
                                        sigma,
                                    ) implies self.has_agreeing(cur@, sigma) by {
                                    assert(cur@[e2].binds@ == subs@[e2].binds@);
                                    assert(self.agrees(cur@[e2].binds@, sigma));
                                }
                            }
                        }
                        let mut j: usize = 0;
                        while j < mc
                            invariant
                                self.wf(),
                                pat_wf(p.nodes@),
                                0 <= (i as int) && (i as int) < p.nodes@.len(),
                                (c as int) < self.n(),
                                rc as int == self.rootof(c as int),
                                (rc as int) < self.n(),
                                (k as int) < self.classes@[rc as int].nodes@.len(),
                                mc == cs@.len(),
                                j <= mc,
                                p.nodes@[i as int] matches TermNode::Op(o2, cs2) && cs2@ == cs@
                                    && o2 == *op,
                                self.classes@[rc as int].nodes@[k as int].head
                                    == crate::graph::Head::Op(*op),
                                self.classes@[rc as int].nodes@[k as int].children@.len()
                                    == mc as int,
                                forall|jj: int|
                                    0 <= jj < mc ==> (#[trigger] cs@[jj] as int) < i as int,
                                forall|ee: int|
                                    0 <= ee < subs@.len() ==> (#[trigger] subs@[ee]).ok_for(
                                        self.n(),
                                    ),
                                self.refine_sound(
                                    p.nodes@,
                                    rc as int,
                                    k as int,
                                    cs@,
                                    subs@,
                                    cur@,
                                    j as int,
                                ),
                                self.refine_complete(
                                    p.nodes@,
                                    rc as int,
                                    k as int,
                                    cs@,
                                    subs@,
                                    cur@,
                                    mc as int,
                                ),
                            decreases mc - j,
                        {
                            proof {
                                assert(self.node_wf(self.classes@[rc as int].nodes@[k as int]));
                            }
                            let child = self.classes[rc].nodes[k].children[j];
                            let ghost curpre = cur@;
                            proof {
                                assert forall|ce: int|
                                    0 <= ce < cur@.len() implies (#[trigger] cur@[ce]).ok_for(
                                    self.n(),
                                ) by {
                                    assert(self.refined_at(
                                        p.nodes@,
                                        rc as int,
                                        k as int,
                                        cs@,
                                        subs@,
                                        cur@,
                                        j as int,
                                        ce,
                                    ));
                                }
                            }
                            cur = self.match_all(p, cs[j], child, cur);
                            proof {
                                assert forall|ce: int|
                                    0 <= ce < cur@.len() implies #[trigger] self.refined_at(
                                    p.nodes@,
                                    rc as int,
                                    k as int,
                                    cs@,
                                    subs@,
                                    cur@,
                                    j as int + 1,
                                    ce,
                                ) by {
                                    assert(self.refine_sound(
                                        p.nodes@,
                                        rc as int,
                                        k as int,
                                        cs@,
                                        subs@,
                                        curpre,
                                        j as int,
                                    ));
                                    let mid = choose|mid: int|
                                        0 <= mid < curpre.len() && #[trigger] keeps(
                                            curpre[mid].binds@,
                                            cur@[ce].binds@,
                                        );
                                    assert(self.refined_at(
                                        p.nodes@,
                                        rc as int,
                                        k as int,
                                        cs@,
                                        subs@,
                                        curpre,
                                        j as int,
                                        mid,
                                    ));
                                    assert forall|jj: int|
                                        0 <= jj < j as int + 1 implies self.pat_matches(
                                        p.nodes@,
                                        #[trigger] cs@[jj] as int,
                                        self.classes@[rc as int].nodes@[k as int].children@[jj] as int,
                                        cur@[ce].binds@,
                                    ) by {
                                        if jj < j as int {
                                            self.lemma_pat_matches_extend(
                                                p.nodes@,
                                                cs@[jj] as int,
                                                self.classes@[rc as int].nodes@[k as int].children@[jj] as int,
                                                curpre[mid].binds@,
                                                cur@[ce].binds@,
                                            );
                                        }
                                    }
                                    let e2w = choose|e2: int|
                                        0 <= e2 < subs@.len() && #[trigger] keeps(
                                            subs@[e2].binds@,
                                            curpre[mid].binds@,
                                        );
                                    assert(keeps(subs@[e2w].binds@, cur@[ce].binds@)) by {
                                        assert forall|name: Seq<char>|
                                            (#[trigger] subst_lookup(
                                                subs@[e2w].binds@,
                                                name,
                                            )) is Some implies subst_lookup(
                                            cur@[ce].binds@,
                                            name,
                                        ) == subst_lookup(subs@[e2w].binds@, name) by {
                                            assert(subst_lookup(curpre[mid].binds@, name)
                                                == subst_lookup(subs@[e2w].binds@, name));
                                        }
                                    }
                                }
                                assert(self.refine_complete(
                                    p.nodes@,
                                    rc as int,
                                    k as int,
                                    cs@,
                                    subs@,
                                    cur@,
                                    mc as int,
                                )) by {
                                    assert forall|sigma: Seq<(Var, Id)>, e2: int|
                                        0 <= e2 < subs@.len() && #[trigger] self.agrees(
                                            subs@[e2].binds@,
                                            sigma,
                                        ) && (forall|jj: int|
                                            0 <= jj < mc ==> self.pat_matches(
                                                p.nodes@,
                                                #[trigger] cs@[jj] as int,
                                                self.classes@[rc as int].nodes@[k as int].children@[jj] as int,
                                                sigma,
                                            )) implies self.has_agreeing(cur@, sigma) by {
                                        assert(self.refine_complete(
                                            p.nodes@,
                                            rc as int,
                                            k as int,
                                            cs@,
                                            subs@,
                                            curpre,
                                            mc as int,
                                        ));
                                        let cw = choose|cw: int|
                                            0 <= cw < curpre.len() && #[trigger] self.agrees(
                                                curpre[cw].binds@,
                                                sigma,
                                            );
                                        assert(self.pat_matches(
                                            p.nodes@,
                                            cs@[j as int] as int,
                                            self.classes@[rc as int].nodes@[k as int].children@[j as int] as int,
                                            sigma,
                                        ));
                                    }
                                }
                            }
                            j = j + 1;
                        }
                        proof {
                            // each surviving refinement matches this member node
                            assert forall|ce: int|
                                0 <= ce < cur@.len() implies (#[trigger] cur@[ce]).ok_for(
                                self.n(),
                            ) && self.pat_matches(
                                p.nodes@,
                                i as int,
                                c as int,
                                cur@[ce].binds@,
                            ) && kept_from(subs@, cur@[ce].binds@) by {
                                assert(self.refined_at(
                                    p.nodes@,
                                    rc as int,
                                    k as int,
                                    cs@,
                                    subs@,
                                    cur@,
                                    mc as int,
                                    ce,
                                ));
                                assert(self.op_shape_at(c as int, *op, mc as int, k as int));
                                assert(self.pm_children(
                                    p.nodes@,
                                    i as int,
                                    c as int,
                                    cs@,
                                    cur@[ce].binds@,
                                    k as int,
                                ));
                                assert(self.pm_has_node(
                                    p.nodes@,
                                    i as int,
                                    c as int,
                                    *op,
                                    cs@,
                                    cur@[ce].binds@,
                                ));
                            }
                        }
                        let ghost outpre = out_all@;
                        let ghost curfin = cur@;
                        out_all.append(&mut cur);
                        proof {
                            assert(out_all@ == outpre + curfin);
                            assert forall|sigma: Seq<(Var, Id)>, e2: int, kk: int|
                                0 <= e2 < subs@.len() && 0 <= kk < k as int + 1
                                    && #[trigger] self.agrees(subs@[e2].binds@, sigma)
                                    && #[trigger] self.op_shape_at(c as int, *op, mc as int, kk)
                                    && self.pm_children(
                                    p.nodes@,
                                    i as int,
                                    c as int,
                                    cs@,
                                    sigma,
                                    kk,
                                ) implies self.has_agreeing(out_all@, sigma) by {
                                if kk < k as int {
                                    assert(self.has_agreeing(outpre, sigma));
                                    let oe = choose|oe: int|
                                        0 <= oe < outpre.len() && #[trigger] self.agrees(
                                            outpre[oe].binds@,
                                            sigma,
                                        );
                                    assert(out_all@[oe] == outpre[oe]);
                                    assert(self.agrees(out_all@[oe].binds@, sigma));
                                } else {
                                    // this is the witness member node
                                    assert(self.pm_children(
                                        p.nodes@,
                                        i as int,
                                        c as int,
                                        cs@,
                                        sigma,
                                        k as int,
                                    ));
                                    assert(self.has_agreeing(curfin, sigma));
                                    let ce = choose|ce: int|
                                        0 <= ce < curfin.len() && #[trigger] self.agrees(
                                            curfin[ce].binds@,
                                            sigma,
                                        );
                                    assert(out_all@[outpre.len() + ce] == curfin[ce]);
                                    assert(self.agrees(
                                        out_all@[outpre.len() + ce].binds@,
                                        sigma,
                                    ));
                                }
                            }
                        }
                    } else {
                        proof {
                            assert forall|sigma: Seq<(Var, Id)>, e2: int, kk: int|
                                0 <= e2 < subs@.len() && 0 <= kk < k as int + 1
                                    && #[trigger] self.agrees(subs@[e2].binds@, sigma)
                                    && #[trigger] self.op_shape_at(c as int, *op, mc as int, kk)
                                    && self.pm_children(
                                    p.nodes@,
                                    i as int,
                                    c as int,
                                    cs@,
                                    sigma,
                                    kk,
                                ) implies self.has_agreeing(out_all@, sigma) by {
                                if kk == k as int {
                                    assert(!self.op_shape_at(c as int, *op, mc as int, kk));
                                } else {
                                    assert(self.has_agreeing(out_all@, sigma));
                                }
                            }
                        }
                    }
                    k = k + 1;
                }
                proof {
                    assert forall|sigma: Seq<(Var, Id)>, e2: int|
                        0 <= e2 < subs@.len() && self.pat_matches(
                            p.nodes@,
                            i as int,
                            c as int,
                            sigma,
                        ) && #[trigger] self.agrees(subs@[e2].binds@, sigma) implies self.has_agreeing(
                        out_all@,
                        sigma,
                    ) by {
                        assert(self.pm_has_node(p.nodes@, i as int, c as int, *op, cs@, sigma));
                        let kk = choose|kk: int|
                            #[trigger] self.op_shape_at(c as int, *op, cs@.len() as int, kk)
                                && self.pm_children(p.nodes@, i as int, c as int, cs@, sigma, kk);
                    }
                }
                out_all
            },
        }
    }

    /// Search the whole graph for classes matching the pattern.  Sound:
    /// every returned match holds.  Complete: every class that matches the
    /// pattern under some bindings contributes at least one returned match.
    pub fn search(&self, p: &Pattern) -> (res: Vec<(Id, Subst)>)
        requires
            self.wf(),
            pat_wf(p.nodes@),
        ensures
            forall|e: int|
                0 <= e < res@.len() ==> ((#[trigger] res@[e]).0 as int) < self.n()
                    && res@[e].1.ok_for(self.n()) && self.pat_matches(
                    p.nodes@,
                    p.nodes@.len() - 1,
                    res@[e].0 as int,
                    res@[e].1.binds@,
                ),
            forall|c: int, sigma: Seq<(Var, Id)>|
                0 <= c < self.n() && self.uf.is_root(c) && #[trigger] self.pat_matches(
                    p.nodes@,
                    p.nodes@.len() - 1,
                    c,
                    sigma,
                ) ==> self.found_for(res@, c, sigma),
    {
        let n = self.classes.len();
        let root = p.nodes.len() - 1;
        let mut res: Vec<(Id, Subst)> = Vec::new();
        let mut c: usize = 0;
        while c < n
            invariant
                self.wf(),
                pat_wf(p.nodes@),
                n == self.n(),
                root as int == p.nodes@.len() - 1,
                c <= n,
                forall|e: int|
                    0 <= e < res@.len() ==> ((#[trigger] res@[e]).0 as int) < self.n()
                        && res@[e].1.ok_for(self.n()) && self.pat_matches(
                        p.nodes@,
                        p.nodes@.len() - 1,
                        res@[e].0 as int,
                        res@[e].1.binds@,
                    ),
                forall|cc: int, sigma: Seq<(Var, Id)>|
                    0 <= cc < c as int && self.uf.is_root(cc) && #[trigger] self.pat_matches(
                        p.nodes@,
                        p.nodes@.len() - 1,
                        cc,
                        sigma,
                    ) ==> self.found_for(res@, cc, sigma),
            decreases n - c,
        {
            let rc = self.uf.find(c);
            if rc == c {
                let mut seeds: Vec<Subst> = Vec::new();
                seeds.push(Subst::new());
                let ghost seedsg = seeds@;
                let mut found = self.match_all(p, root, c, seeds);
                let fl = found.len();
                let ghost foundg = found@;
                let ghost resbase = res@;
                let mut e: usize = 0;
                while e < fl
                    invariant
                        self.wf(),
                        n == self.n(),
                        c < n,
                        root as int == p.nodes@.len() - 1,
                        fl == foundg.len(),
                        found@.len() + e == fl,
                        forall|ee: int|
                            0 <= ee < found@.len() ==> #[trigger] found@[ee] == foundg[ee
                                + e as int],
                        forall|ee: int|
                            0 <= ee < foundg.len() ==> (#[trigger] foundg[ee]).ok_for(self.n())
                                && self.pat_matches(
                                p.nodes@,
                                p.nodes@.len() - 1,
                                c as int,
                                foundg[ee].binds@,
                            ),
                        e <= fl,
                        forall|ee: int|
                            0 <= ee < res@.len() ==> ((#[trigger] res@[ee]).0 as int) < self.n()
                                && res@[ee].1.ok_for(self.n()) && self.pat_matches(
                                p.nodes@,
                                p.nodes@.len() - 1,
                                res@[ee].0 as int,
                                res@[ee].1.binds@,
                            ),
                        forall|cc: int, sigma: Seq<(Var, Id)>|
                            0 <= cc < c as int && self.uf.is_root(cc) && #[trigger] self.pat_matches(
                                p.nodes@,
                                p.nodes@.len() - 1,
                                cc,
                                sigma,
                            ) ==> self.found_for(res@, cc, sigma),
                        res@.len() == resbase.len() + e as int,
                        forall|ff: int|
                            0 <= ff < e as int ==> ((#[trigger] res@[resbase.len() + ff]).0 as int)
                                == c as int && res@[resbase.len() + ff].1.binds@
                                == foundg[ff].binds@,
                    decreases fl - e,
                {
                    let ghost rpre = res@;
                    let pair = found.remove(0);
                    res.push((c, pair));
                    proof {
                        assert(res@[res@.len() - 1].0 as int == c as int);
                        assert(res@[res@.len() - 1].1.binds@ == foundg[e as int].binds@);
                        assert forall|cc: int, sigma: Seq<(Var, Id)>|
                            0 <= cc < c as int && self.uf.is_root(cc) && #[trigger] self.pat_matches(
                                p.nodes@,
                                p.nodes@.len() - 1,
                                cc,
                                sigma,
                            ) implies self.found_for(res@, cc, sigma) by {
                            self.lemma_found_for_push(rpre, (c, pair), cc, sigma);
                        }
                        assert forall|ff: int|
                            0 <= ff < e as int + 1 implies ((#[trigger] res@[resbase.len()
                            + ff]).0 as int) == c as int && res@[resbase.len() + ff].1.binds@
                            == foundg[ff].binds@ by {
                            if ff < e as int {
                                assert(res@[resbase.len() + ff] == rpre[resbase.len() + ff]);
                            }
                        }
                    }
                    e = e + 1;
                }
                proof {
                    assert forall|sigma: Seq<(Var, Id)>|
                        #[trigger] self.pat_matches(
                            p.nodes@,
                            p.nodes@.len() - 1,
                            c as int,
                            sigma,
                        ) implies self.found_for(res@, c as int, sigma) by {
                        assert(seedsg[0].binds@ =~= Seq::<(Var, Id)>::empty());
                        assert(self.agrees(seedsg[0].binds@, sigma)) by {
                            assert forall|name: Seq<char>|
                                !((#[trigger] subst_lookup(seedsg[0].binds@, name)) is Some) by {}
                        }
                        assert(self.has_agreeing(foundg, sigma));
                        let w = choose|w: int|
                            0 <= w < foundg.len() && #[trigger] self.agrees(
                                foundg[w].binds@,
                                sigma,
                            );
                        assert(res@[resbase.len() + w].1.binds@ == foundg[w].binds@);
                        assert((res@[resbase.len() + w].0 as int) == c as int);
                    }
                }
            }
            c = c + 1;
        }
        res
    }

    /// Instantiate a pattern under a substitution: variables become
    /// references to their bound classes, and the resulting term is added.
    /// On success the returned class matches the pattern under the given
    /// bindings; success is owed for a well-formed pattern whose variables
    /// are all bound, up to an analysis merge conflict.
    pub fn instantiate(&mut self, p: &Pattern, sub: &Subst) -> (r: Result<Id, EngineError>)
        requires
            old(self).wf(),
        ensures
            final(self).wf(),
            final(self).extends(*old(self)),
            final(self).analysis == old(self).analysis,
            r matches Ok(id) ==> (id as int) < final(self).n() && final(self).uf.is_root(id as int)
                && p.nodes@.len() > 0 && final(self).pat_matches(
                p.nodes@,
                p.nodes@.len() - 1,
                id as int,
                sub.binds@,
            ),
            r matches Err(e) ==> e != EngineError::NoFiniteTerm && e != EngineError::TooFewOperands,
            pat_wf(p.nodes@) && sub.ok_for(old(self).n()) && (forall|ii: int|
                0 <= ii < p.nodes@.len() ==> ((#[trigger] p.nodes@[ii]) matches TermNode::Var(v)
                    ==> subst_lookup(sub.binds@, v.text@) is Some)) ==> (r is Ok || r
                == Err::<Id, EngineError>(EngineError::MergeConflict)),
            old(self).inert() && old(self).datafree() && pat_wf(p.nodes@) && sub.ok_for(
                old(self).n(),
            ) && (forall|ii: int|
                0 <= ii < p.nodes@.len() ==> ((#[trigger] p.nodes@[ii]) matches TermNode::Var(v)
                    ==> subst_lookup(sub.binds@, v.text@) is Some)) ==> r is Ok,
            old(self).inert() && old(self).datafree() ==> final(self).datafree() && final(self).merged_count() == old(self).merged_count(),
    {
        let ghost g0 = *old(self);
        let m = p.nodes.len();
        let mut nodes: Vec<TermNode> = Vec::new();
        let mut i: usize = 0;
        while i < m
            invariant
                g0 == *old(self),
                g0.wf(),
                *self == g0,
                m == p.nodes@.len(),
                i <= m,
                nodes@.len() == i as int,
                forall|ii: int|
                    0 <= ii < i as int ==> #[trigger] built_ok_at(
                        p.nodes@,
                        nodes@,
                        sub.binds@,
                        ii,
                    ),
                pat_wf(p.nodes@) && sub.ok_for(g0.n()) ==> forall|ii: int|
                    0 <= ii < i as int ==> #[trigger] crate::graph::node_ok_at(
                        nodes@,
                        ii,
                        g0.n(),
                    ),
            decreases m - i,
        {
            let ghost npre = nodes@;
            match &p.nodes[i] {
                TermNode::Ref(_) => {
                    proof {
                        self.lemma_unchanged_extends(g0);
                        assert(p.nodes@[i as int] is Ref);
                        assert(!crate::term::expr_no_refs(p.nodes@));
                    }
                    return Err(EngineError::RefInPattern);
                },
                TermNode::Var(v) => {
                    match sub.get(v) {
                        Some(d) => {
                            nodes.push(TermNode::Ref(d));
                            proof {
                                if sub.ok_for(g0.n()) {
                                    let e = lemma_subst_find_some(sub.binds@, v.text@, 0);
                                    assert((d as int) < g0.n());
                                }
                            }
                        },
                        None => {
                            proof {
                                self.lemma_unchanged_extends(g0);
                                assert(p.nodes@[i as int] matches TermNode::Var(v2) && v2.text@
                                    == v.text@);
                            }
                            return Err(EngineError::UnboundVar);
                        },
                    }
                },
                TermNode::Leaf(v) => {
                    nodes.push(TermNode::Leaf(*v));
                },
                TermNode::Op(op, cs) => {
                    let ghost gnode = p.nodes@[i as int];
                    proof {
                        assert(gnode matches TermNode::Op(o2, cs2) && cs2@ == cs@ && o2 == *op);
                    }
                    let mc = cs.len();
                    let mut ch: Vec<usize> = Vec::new();
                    let mut j: usize = 0;
                    while j < mc
                        invariant
                            mc == cs@.len(),
                            j <= mc,
                            ch@.len() == j as int,
                            forall|jj: int| 0 <= jj < j as int ==> #[trigger] ch@[jj] == cs@[jj],
                        decreases mc - j,
                    {
                        ch.push(cs[j]);
                        j = j + 1;
                    }
                    proof {
                        assert(ch@ =~= cs@);
                    }
                    nodes.push(TermNode::Op(*op, ch));
                    proof {
                        if pat_wf(p.nodes@) {
                            assert(crate::term::node_wf_at(p.nodes@, i as int));
                            assert(crate::graph::node_ok_at(nodes@, i as int, g0.n()));
                        }
                    }
                },
            }
            proof {
                assert(built_ok_at(p.nodes@, nodes@, sub.binds@, i as int));
                assert forall|ii: int| 0 <= ii < i as int implies #[trigger] built_ok_at(
                    p.nodes@,
                    nodes@,
                    sub.binds@,
                    ii,
                ) by {
                    assert(built_ok_at(p.nodes@, npre, sub.binds@, ii));
                    assert(nodes@[ii] == npre[ii]);
                }
                if pat_wf(p.nodes@) && sub.ok_for(g0.n()) {
                    assert(crate::graph::node_ok_at(nodes@, i as int, g0.n())) by {
                        match p.nodes@[i as int] {
                            TermNode::Var(v2) => {
                                let e2 = lemma_subst_find_some(sub.binds@, v2.text@, 0);
                            },
                            _ => {},
                        }
                    }
                    assert forall|ii: int|
                        0 <= ii < i as int implies #[trigger] crate::graph::node_ok_at(
                        nodes@,
                        ii,
                        g0.n(),
                    ) by {
                        assert(crate::graph::node_ok_at(npre, ii, g0.n()));
                        assert(nodes@[ii] == npre[ii]);
                    }
                }
            }
            i = i + 1;
        }
        let e = Expr { nodes };
        proof {
            if pat_wf(p.nodes@) && sub.ok_for(g0.n()) {
                assert(crate::graph::expr_ok(e.nodes@, g0.n()));
            }
        }
        let res = self.add(&e);
        proof {
            match res {
                Ok(id) => {
                    self.lemma_built_matches(
                        p.nodes@,
                        e.nodes@,
                        sub.binds@,
                        e.nodes@.len() - 1,
                        id as int,
                    );
                },
                Err(_) => {},
            }
        }
        res
    }
}


impl<A: Analysis> EGraph<A> {
    /// Matching is a function of the class store, union-find and interner
    /// alone, so graphs with equal views agree on it.
    pub proof fn lemma_pat_matches_transfer(
        self,
        prev: EGraph<A>,
        p: Seq<TermNode>,
        i: int,
        c: int,
        binds: Seq<(Var, Id)>,
    )
        requires
            prev.uf.parent@ == self.uf.parent@,
            prev.classes@ == self.classes@,
            prev.interner.vals@ == self.interner.vals@,
            self.pat_matches(p, i, c, binds),
        ensures
            prev.pat_matches(p, i, c, binds),
        decreases i,
    {
        assert forall|x: int| prev.uf.rootof(x) == self.uf.rootof(x) by {
            if 0 <= x < self.uf.n() {
                self.uf.lemma_rootof_prefix(prev.uf, self.uf.n(), x);
            }
        }
        match p[i] {
            TermNode::Leaf(v) => {
                let k = choose|k: int| self.has_leaf_at(c, v, k);
                assert(prev.has_leaf_at(c, v, k));
            },
            TermNode::Op(op, cs) => {
                assert(self.pm_has_node(p, i, c, op, cs@, binds));
                let k = choose|k: int|
                    #[trigger] self.op_shape_at(c, op, cs@.len() as int, k) && self.pm_children(
                        p,
                        i,
                        c,
                        cs@,
                        binds,
                        k,
                    );
                assert(prev.op_shape_at(c, op, cs@.len() as int, k));
                assert forall|j: int| 0 <= j < cs@.len() implies (#[trigger] cs@[j] as int) < i
                    && prev.pat_matches(
                    p,
                    cs@[j] as int,
                    prev.classes@[prev.rootof(c)].nodes@[k].children@[j] as int,
                    binds,
                ) by {
                    assert(self.pat_matches(
                        p,
                        cs@[j] as int,
                        self.classes@[self.rootof(c)].nodes@[k].children@[j] as int,
                        binds,
                    ));
                    self.lemma_pat_matches_transfer(
                        prev,
                        p,
                        cs@[j] as int,
                        self.classes@[self.rootof(c)].nodes@[k].children@[j] as int,
                        binds,
                    );
                }
                assert(prev.pm_children(p, i, c, cs@, binds, k));
                assert(prev.pm_has_node(p, i, c, op, cs@, binds));
            },
            _ => {},
        }
    }
}


impl<A: Analysis> EGraph<A> {
    /// Matching only depends on the class, not the id naming it.
    pub proof fn lemma_pat_matches_same(
        self,
        p: Seq<TermNode>,
        i: int,
        c: int,
        c2: int,
        binds: Seq<(Var, Id)>,
    )
        requires
            self.pat_matches(p, i, c, binds),
            self.rootof(c) == self.rootof(c2),
            0 <= c2 < self.n(),
        ensures
            self.pat_matches(p, i, c2, binds),
    {
        match p[i] {
            TermNode::Leaf(v) => {
                let k = choose|k: int| self.has_leaf_at(c, v, k);
                assert(self.has_leaf_at(c2, v, k));
            },
            TermNode::Op(op, cs) => {
                assert(self.pm_has_node(p, i, c, op, cs@, binds));
                let k = choose|k: int|
                    #[trigger] self.op_shape_at(c, op, cs@.len() as int, k) && self.pm_children(
                        p,
                        i,
                        c,
                        cs@,
                        binds,
                        k,
                    );
                assert(self.op_shape_at(c2, op, cs@.len() as int, k));
                assert(self.pm_children(p, i, c2, cs@, binds, k)) by {
                    assert forall|j: int| 0 <= j < cs@.len() implies (#[trigger] cs@[j] as int) < i
                        && self.pat_matches(
                        p,
                        cs@[j] as int,
                        self.classes@[self.rootof(c2)].nodes@[k].children@[j] as int,
                        binds,
                    ) by {
                        assert(self.pat_matches(
                            p,
                            cs@[j] as int,
                            self.classes@[self.rootof(c)].nodes@[k].children@[j] as int,
                            binds,
                        ));
                    }
                }
                assert(self.pm_has_node(p, i, c2, op, cs@, binds));
            },
            _ => {},
        }
    }

    /// An established match survives any extension of the graph.
    pub proof fn lemma_pat_matches_extends(
        self,
        prev: EGraph<A>,
        p: Seq<TermNode>,
        i: int,
        c: int,
        binds: Seq<(Var, Id)>,
    )
        requires
            prev.wf(),
            self.wf(),
            self.extends(prev),
            prev.pat_matches(p, i, c, binds),
        ensures
            self.pat_matches(p, i, c, binds),
        decreases i,
    {
        match p[i] {
            TermNode::Var(v) => {},
            TermNode::Leaf(v) => {
                self.lemma_has_leaf_extends(prev, c, v);
            },
            TermNode::Op(op, cs) => {
                assert(prev.pm_has_node(p, i, c, op, cs@, binds));
                let k = choose|k: int|
                    #[trigger] prev.op_shape_at(c, op, cs@.len() as int, k) && prev.pm_children(
                        p,
                        i,
                        c,
                        cs@,
                        binds,
                        k,
                    );
                let pr = prev.rootof(c);
                prev.uf.lemma_rootof_le(c);
                prev.uf.lemma_rootof_idem(c);
                let nd = prev.classes@[pr].nodes@[k];
                assert(prev.uf.is_root(pr));
                assert(self.has_node(nd, pr));
                let k3 = choose|k3: int| self.has_node_at(nd, pr, k3);
                let fr = self.rootof(pr);
                let nd3 = self.classes@[fr].nodes@[k3];
                assert(prev.same(c, pr));
                assert(self.same(c, pr));
                assert(self.rootof(c) == fr);
                assert(prev.node_wf(nd));
                assert(self.node_wf(nd3)) by {
                    self.uf.lemma_rootof_le(pr);
                }
                assert forall|j: int| 0 <= j < cs@.len() implies (#[trigger] cs@[j] as int) < i
                    && self.pat_matches(p, cs@[j] as int, nd3.children@[j] as int, binds) by {
                    assert(prev.pat_matches(p, cs@[j] as int, nd.children@[j] as int, binds));
                    self.lemma_pat_matches_extends(
                        prev,
                        p,
                        cs@[j] as int,
                        nd.children@[j] as int,
                        binds,
                    );
                    assert(self.same(nd.children@[j] as int, nd3.children@[j] as int));
                    self.lemma_pat_matches_same(
                        p,
                        cs@[j] as int,
                        nd.children@[j] as int,
                        nd3.children@[j] as int,
                        binds,
                    );
                }
                assert(self.op_shape_at(c, op, cs@.len() as int, k3));
                assert(self.pm_children(p, i, c, cs@, binds, k3));
                assert(self.pm_has_node(p, i, c, op, cs@, binds));
            },
            _ => {},
        }
    }
}


/// The node at `ii` of a built expression is the pattern node at `ii` with
/// its variable replaced by the bound class.
pub open spec fn built_ok_at(
    p: Seq<TermNode>,
    e: Seq<TermNode>,
    binds: Seq<(Var, Id)>,
    ii: int,
) -> bool {
    match p[ii] {
        TermNode::Ref(_) => false,
        TermNode::Var(v) => match subst_lookup(binds, v.text@) {
            Some(d) => e[ii] == TermNode::Ref(d),
            None => false,
        },
        TermNode::Leaf(v) => e[ii] == TermNode::Leaf(v),
        TermNode::Op(op, cs) => e[ii] matches TermNode::Op(op2, cs2) && op2 == op && cs2@ == cs@,
    }
}

impl<A: Analysis> EGraph<A> {
    /// A class realizing the instantiation of a pattern matches the pattern
    /// under the bindings it was instantiated with.
    pub proof fn lemma_built_matches(
        self,
        p: Seq<TermNode>,
        e: Seq<TermNode>,
        binds: Seq<(Var, Id)>,
        i: int,
        c: int,
    )
        requires
            p.len() == e.len(),
            forall|ii: int| 0 <= ii < p.len() ==> #[trigger] built_ok_at(p, e, binds, ii),
            self.node_represents(e, i, c),
        ensures
            self.pat_matches(p, i, c, binds),
        decreases i,
    {
        assert(built_ok_at(p, e, binds, i));
        match p[i] {
            TermNode::Var(v) => {},
            TermNode::Leaf(v) => {},
            TermNode::Op(op, cs) => {
                match e[i] {
                    TermNode::Op(op2, cs2) => {
                        assert(self.has_op_node(e, i, c, op2, cs2@));
                        let k = choose|k: int|
                            #[trigger] self.op_shape_at(c, op2, cs2@.len() as int, k)
                                && self.op_children_rep(e, i, c, cs2@, k);
                        assert(self.op_shape_at(c, op, cs@.len() as int, k));
                        assert forall|j: int| 0 <= j < cs@.len() implies (
                        #[trigger] cs@[j] as int) < i && self.pat_matches(
                            p,
                            cs@[j] as int,
                            self.classes@[self.rootof(c)].nodes@[k].children@[j] as int,
                            binds,
                        ) by {
                            assert(cs2@[j] == cs@[j]);
                            assert((cs2@[j] as int) < i && self.node_represents(
                                e,
                                cs2@[j] as int,
                                self.classes@[self.rootof(c)].nodes@[k].children@[j] as int,
                            ));
                            self.lemma_built_matches(
                                p,
                                e,
                                binds,
                                cs@[j] as int,
                                self.classes@[self.rootof(c)].nodes@[k].children@[j] as int,
                            );
                        }
                        assert(self.pm_children(p, i, c, cs@, binds, k));
                        assert(self.pm_has_node(p, i, c, op, cs@, binds));
                    },
                    _ => {
                        assert(false);
                    },
                }
            },
            _ => {},
        }
    }
}


impl<A: Analysis> EGraph<A> {
    /// Some substitution in `cur` agrees with the assignment `sigma`.
    pub open spec fn has_agreeing(self, cur: Seq<Subst>, sigma: Seq<(Var, Id)>) -> bool {
        exists|ce: int| 0 <= ce < cur.len() && #[trigger] self.agrees(cur[ce].binds@, sigma)
    }

    /// Some returned match names the class `c` with bindings agreeing with
    /// `sigma`.
    pub open spec fn found_for(self, res: Seq<(Id, Subst)>, c: int, sigma: Seq<(Var, Id)>) -> bool {
        exists|e: int|
            0 <= e < res.len() && ((#[trigger] res[e]).0 as int) == c && self.agrees(
                res[e].1.binds@,
                sigma,
            )
    }

    /// A found match stays found when more matches are appended.
    pub proof fn lemma_found_for_push(
        self,
        res: Seq<(Id, Subst)>,
        x: (Id, Subst),
        c: int,
        sigma: Seq<(Var, Id)>,
    )
        requires
            self.found_for(res, c, sigma),
        ensures
            self.found_for(res.push(x), c, sigma),
    {
        let e = choose|e: int|
            0 <= e < res.len() && ((#[trigger] res[e]).0 as int) == c && self.agrees(
                res[e].1.binds@,
                sigma,
            );
        assert(res.push(x)[e] == res[e]);
    }

    /// Every binding of `b1` names the same class as `b2`'s binding of the
    /// same variable.
    pub open spec fn agrees(self, b1: Seq<(Var, Id)>, b2: Seq<(Var, Id)>) -> bool {
        forall|name: Seq<char>|
            (#[trigger] subst_lookup(b1, name)) matches Some(d) ==> (subst_lookup(b2, name)
                matches Some(d2) && self.same(d as int, d2 as int))
    }
}

} // verus!
