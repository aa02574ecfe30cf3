//! Surface terms.
//!
//! A term arrives as a flat expression: a vector of nodes whose children are
//! indices of earlier entries, the last entry being the root.  A node is a
//! reference to an already-obtained class id, a pattern variable, an operator
//! application, or an opaque leaf value.  Variables are legal only inside
//! patterns; class-id references are legal only in plain terms.

use vstd::prelude::*;

verus! {

/// A class id handed out by the graph.
pub type Id = usize;

/// A pattern variable; its text carries the `?` marker prefix.
#[derive(Clone, Debug)]
pub struct Var {
    pub text: String,
}

impl Var {
    /// The variable written `?name` for a bare `name`.
    pub fn from_name(name: &str) -> (r: Var)
        ensures
            r.text@ == "?"@ + name@,
    {
        let mut text = String::from_str("?");
        text.append(name);
        Var { text }
    }

    pub open spec fn eq_spec(self, other: Var) -> bool {
        self.text@ == other.text@
    }

    pub fn equals(&self, other: &Var) -> (r: bool)
        ensures
            r == self.eq_spec(*other),
    {
        self.text == other.text
    }
}

/// One node of a flat expression.
#[derive(Clone, Debug)]
pub enum TermNode {
    /// A reference to a class id obtained from an earlier `add`.
    Ref(Id),
    /// A pattern variable.
    Var(Var),
    /// An operator application; children are indices of earlier nodes.
    Op(u64, Vec<usize>),
    /// An opaque leaf value.
    Leaf(i64),
}

/// A flat expression: nodes in bottom-up order, the last one the root.
#[derive(Clone, Debug)]
pub struct Expr {
    pub nodes: Vec<TermNode>,
}

/// Children point strictly backwards, so every expression is a dag.
pub open spec fn expr_wf(s: Seq<TermNode>) -> bool {
    forall|i: int| 0 <= i < s.len() ==> node_wf_at(s, i)
}

pub open spec fn node_wf_at(s: Seq<TermNode>, i: int) -> bool {
    match s[i] {
        TermNode::Op(_, cs) => forall|j: int| 0 <= j < cs@.len() ==> (cs@[j] as int) < i,
        _ => true,
    }
}

/// No variable anywhere: required of plain terms handed to `add`.
pub open spec fn expr_no_vars(s: Seq<TermNode>) -> bool {
    forall|i: int| 0 <= i < s.len() ==> !(#[trigger] s[i] is Var)
}

/// No class-id reference anywhere: required of patterns.
pub open spec fn expr_no_refs(s: Seq<TermNode>) -> bool {
    forall|i: int| 0 <= i < s.len() ==> !(#[trigger] s[i] is Ref)
}

/// Only operators and leaves: the shape of extracted terms.
pub open spec fn expr_concrete(s: Seq<TermNode>) -> bool {
    expr_no_vars(s) && expr_no_refs(s)
}

/// Structural equality of the trees rooted at `i1` in `s1` and `i2` in `s2`:
/// the observable shape is the same and the leaf values agree.
pub open spec fn term_eq(s1: Seq<TermNode>, i1: int, s2: Seq<TermNode>, i2: int) -> bool
    decreases i1,
{
    0 <= i1 < s1.len() && 0 <= i2 < s2.len() && match (s1[i1], s2[i2]) {
        (TermNode::Ref(a), TermNode::Ref(b)) => a == b,
        (TermNode::Var(a), TermNode::Var(b)) => a.text@ == b.text@,
        (TermNode::Leaf(a), TermNode::Leaf(b)) => a == b,
        (TermNode::Op(o1, c1), TermNode::Op(o2, c2)) => o1 == o2 && c1@.len() == c2@.len()
            && forall|j: int|
            0 <= j < c1@.len() ==> (c1@[j] as int) < i1 && term_eq(
                s1,
                c1@[j] as int,
                s2,
                c2@[j] as int,
            ),
        _ => false,
    }
}

/// The size of the tree rooted at `i`: every node counts one.
pub open spec fn term_size(s: Seq<TermNode>, i: int) -> nat
    decreases i, 1int, 0int,
{
    if 0 <= i < s.len() {
        match s[i] {
            TermNode::Op(_, cs) => 1 + term_size_list(s, cs@, i),
            _ => 1,
        }
    } else {
        1
    }
}

/// The summed sizes of the trees rooted at the indices in `cs`, all of which
/// must lie below `bound`.
pub open spec fn term_size_list(s: Seq<TermNode>, cs: Seq<usize>, bound: int) -> nat
    decreases bound, 0int, cs.len(),
{
    if cs.len() == 0 {
        0
    } else {
        (if (cs[0] as int) < bound {
            term_size(s, cs[0] as int)
        } else {
            1
        }) + term_size_list(s, cs.subrange(1, cs.len() as int), bound)
    }
}

/// Structurally equal trees have equal sizes.
pub proof fn lemma_term_eq_size(s1: Seq<TermNode>, i1: int, s2: Seq<TermNode>, i2: int)
    requires
        term_eq(s1, i1, s2, i2),
        expr_wf(s2),
    ensures
        term_size(s1, i1) == term_size(s2, i2),
    decreases i1, 1int, 0int,
{
    match (s1[i1], s2[i2]) {
        (TermNode::Op(o1, c1), TermNode::Op(o2, c2)) => {
            assert(node_wf_at(s2, i2));
            lemma_term_eq_size_list(s1, c1@, i1, s2, c2@, i2);
        },
        _ => {},
    }
}

proof fn lemma_term_eq_size_list(
    s1: Seq<TermNode>,
    c1: Seq<usize>,
    b1: int,
    s2: Seq<TermNode>,
    c2: Seq<usize>,
    b2: int,
)
    requires
        c1.len() == c2.len(),
        expr_wf(s2),
        forall|j: int|
            0 <= j < c1.len() ==> (c1[j] as int) < b1 && term_eq(s1, c1[j] as int, s2, c2[j] as int),
        forall|j: int| 0 <= j < c2.len() ==> (c2[j] as int) < b2,
    ensures
        term_size_list(s1, c1, b1) == term_size_list(s2, c2, b2),
    decreases b1, 0int, c1.len(),
{
    if c1.len() > 0 {
        lemma_term_eq_size(s1, c1[0] as int, s2, c2[0] as int);
        lemma_term_eq_size_list(
            s1,
            c1.subrange(1, c1.len() as int),
            b1,
            s2,
            c2.subrange(1, c2.len() as int),
            b2,
        );
    }
}


pub proof fn lemma_term_size_list_nonneg(s: Seq<TermNode>, cs: Seq<usize>, bound: int)
    ensures
        term_size_list(s, cs, bound) >= 0,
    decreases bound, 0int, cs.len(),
{
}

/// The size of a tree only reads the nodes below its root, so extending the
/// node list leaves it unchanged.
pub proof fn lemma_term_size_prefix(s1: Seq<TermNode>, s2: Seq<TermNode>, i: int)
    requires
        s1.len() <= s2.len(),
        forall|jj: int| 0 <= jj < s1.len() ==> s2[jj] == s1[jj],
        0 <= i < s1.len(),
    ensures
        term_size(s2, i) == term_size(s1, i),
    decreases i, 1int, 0int,
{
    match s1[i] {
        TermNode::Op(_, cs) => {
            lemma_term_size_list_prefix(s1, s2, cs@, i);
        },
        _ => {},
    }
}

pub proof fn lemma_term_size_list_prefix(s1: Seq<TermNode>, s2: Seq<TermNode>, cs: Seq<usize>, bound: int)
    requires
        s1.len() <= s2.len(),
        forall|jj: int| 0 <= jj < s1.len() ==> s2[jj] == s1[jj],
        bound <= s1.len(),
    ensures
        term_size_list(s2, cs, bound) == term_size_list(s1, cs, bound),
    decreases bound, 0int, cs.len(),
{
    if cs.len() > 0 {
        if (cs[0] as int) < bound && 0 <= cs[0] as int {
            lemma_term_size_prefix(s1, s2, cs[0] as int);
        }
        lemma_term_size_list_prefix(s1, s2, cs.subrange(1, cs.len() as int), bound);
    }
}

/// Appending one root to a child list adds its size to the total.
pub proof fn lemma_term_size_list_push(s: Seq<TermNode>, cs: Seq<usize>, x: usize, bound: int)
    requires
        (x as int) < bound,
    ensures
        term_size_list(s, cs.push(x), bound) == term_size_list(s, cs, bound) + term_size(
            s,
            x as int,
        ),
    decreases bound, 0int, cs.len(),
{
    if cs.len() == 0 {
        assert(cs.push(x)[0] == x);
        assert(cs.push(x).subrange(1, 1) =~= Seq::<usize>::empty());
        assert(term_size_list(s, Seq::<usize>::empty(), bound) == 0);
        assert(cs.push(x).len() == 1);
        assert(term_size_list(s, cs.push(x), bound) == term_size(s, x as int) + term_size_list(
            s,
            cs.push(x).subrange(1, 1),
            bound,
        ));
    } else {
        assert(cs.push(x)[0] == cs[0]);
        assert(cs.push(x).subrange(1, cs.len() as int + 1) =~= cs.subrange(
            1,
            cs.len() as int,
        ).push(x));
        lemma_term_size_list_push(s, cs.subrange(1, cs.len() as int), x, bound);
        assert(term_size_list(s, cs.push(x), bound) == (if (cs[0] as int) < bound {
            term_size(s, cs[0] as int)
        } else {
            1nat
        }) + term_size_list(s, cs.subrange(1, cs.len() as int).push(x), bound));
    }
}

/// The bound in a size sum is irrelevant while every index stays below it.
pub proof fn lemma_term_size_list_bound(s: Seq<TermNode>, cs: Seq<usize>, b1: int, b2: int)
    requires
        forall|j: int| 0 <= j < cs.len() ==> (#[trigger] cs[j] as int) < b1 && (cs[j] as int) < b2,
    ensures
        term_size_list(s, cs, b1) == term_size_list(s, cs, b2),
    decreases b1, 0int, cs.len(),
{
    if cs.len() > 0 {
        assert forall|j: int| 0 <= j < cs.subrange(1, cs.len() as int).len() implies (
        #[trigger] cs.subrange(1, cs.len() as int)[j] as int) < b1 && (cs.subrange(
            1,
            cs.len() as int,
        )[j] as int) < b2 by {
            assert(cs.subrange(1, cs.len() as int)[j] == cs[j + 1]);
        }
        lemma_term_size_list_bound(s, cs.subrange(1, cs.len() as int), b1, b2);
    }
}

pub proof fn lemma_term_size_pos(s: Seq<TermNode>, i: int)
    ensures
        term_size(s, i) >= 1,
{
    if 0 <= i < s.len() {
        match s[i] {
            TermNode::Op(_, cs) => {
                lemma_term_size_list_nonneg(s, cs@, i);
            },
            _ => {},
        }
    }
}


/// Each counted child's size is no more than the whole sum.
pub proof fn lemma_term_size_list_elem(s: Seq<TermNode>, cs: Seq<usize>, bound: int, j: int)
    requires
        0 <= j < cs.len(),
        (cs[j] as int) < bound,
    ensures
        term_size_list(s, cs, bound) >= term_size(s, cs[j] as int),
    decreases bound, 0int, cs.len(),
{
    if j == 0 {
        lemma_term_size_list_nonneg(s, cs.subrange(1, cs.len() as int), bound);
    } else {
        assert(cs.subrange(1, cs.len() as int)[j - 1] == cs[j]);
        lemma_term_size_list_elem(s, cs.subrange(1, cs.len() as int), bound, j - 1);
        lemma_term_size_pos(s, cs[0] as int);
    }
}


/// The maximal space-free runs of `s` from position `i` on, where the run in
/// progress began at `start`.
pub open spec fn split_tokens(s: Seq<char>, start: int, i: int) -> Seq<Seq<char>>
    decreases s.len() - i,
{
    if !(0 <= start <= i <= s.len()) {
        Seq::empty()
    } else if i == s.len() {
        if start < i {
            seq![s.subrange(start, i)]
        } else {
            Seq::empty()
        }
    } else if s[i] == ' ' {
        (if start < i {
            seq![s.subrange(start, i)]
        } else {
            Seq::empty()
        }) + split_tokens(s, i + 1, i + 1)
    } else {
        split_tokens(s, start, i + 1)
    }
}

/// Split a whitespace-separated list of bare names into pattern variables:
/// one variable per maximal space-free run, in order, each prefixed with the
/// `?` marker.
pub fn vars(names: &str) -> (r: Vec<Var>)
    requires
        names@.len() < usize::MAX,
    ensures
        r@.len() == split_tokens(names@, 0, 0).len(),
        forall|e: int|
            0 <= e < r@.len() ==> (#[trigger] r@[e]).text@ == "?"@ + split_tokens(names@, 0, 0)[e],
{
    let m = names.unicode_len();
    let mut out: Vec<Var> = Vec::new();
    let ghost mut prefix: Seq<Seq<char>> = Seq::empty();
    let mut start: usize = 0;
    let mut i: usize = 0;
    proof {
        assert(split_tokens(names@, 0, 0) =~= prefix + split_tokens(names@, 0, 0));
    }
    while i <= m
        invariant
            m == names@.len(),
            m < usize::MAX,
            start <= i,
            i <= m + 1,
            split_tokens(names@, 0, 0) == prefix + split_tokens(names@, start as int, i as int),
            out@.len() == prefix.len(),
            forall|e: int|
                0 <= e < out@.len() ==> (#[trigger] out@[e]).text@ == "?"@ + prefix[e],
        decreases m + 1 - i,
    {
        let at_break = if i == m {
            true
        } else {
            names.get_char(i) == ' '
        };
        let ghost tok = names@.subrange(start as int, i as int);
        if at_break {
            if start < i {
                let name = names.substring_char(start, i);
                let v = Var::from_name(name);
                proof {
                    assert(v.text@ == "?"@ + tok);
                    prefix = prefix.push(tok);
                }
                out.push(v);
            }
            proof {
                if i as int == names@.len() {
                    assert(split_tokens(names@, start as int, i as int) == (if (start as int) < (
                    i as int) {
                        seq![tok]
                    } else {
                        Seq::<Seq<char>>::empty()
                    }));
                    assert(split_tokens(names@, i as int + 1, i as int + 1) =~= Seq::<
                        Seq<char>,
                    >::empty());
                } else {
                    assert(names@[i as int] == ' ');
                }
                assert(split_tokens(names@, 0, 0) =~= prefix + split_tokens(
                    names@,
                    i as int + 1,
                    i as int + 1,
                ));
            }
            start = i + 1;
        } else {
            proof {
                assert(split_tokens(names@, start as int, i as int) == split_tokens(
                    names@,
                    start as int,
                    i as int + 1,
                ));
            }
        }
        i = i + 1;
    }
    proof {
        assert(split_tokens(names@, start as int, i as int) =~= Seq::<Seq<char>>::empty());
        assert(split_tokens(names@, 0, 0) =~= prefix);
    }
    out
}


/// Structural equality is reflexive on well-formed expressions.
pub proof fn lemma_term_eq_refl(s: Seq<TermNode>, i: int)
    requires
        expr_wf(s),
        0 <= i < s.len(),
    ensures
        term_eq(s, i, s, i),
    decreases i,
{
    match s[i] {
        TermNode::Op(o, cs) => {
            assert(node_wf_at(s, i));
            assert forall|j: int| 0 <= j < cs@.len() implies (#[trigger] cs@[j] as int) < i
                && term_eq(s, cs@[j] as int, s, cs@[j] as int) by {
                lemma_term_eq_refl(s, cs@[j] as int);
            }
        },
        _ => {},
    }
}

} // verus!
