//! The e-graph: hashcons table, class store, union-find and analysis data.
//!
//! Between mutations and the next `rebuild` the graph is dirty: the pending
//! worklist is non-empty and the hashcons may hold stale keys.  Once the
//! worklist is empty the strong invariants of [`EGraph::rebuilt`] hold: every
//! stored node is canonical, every member node is in the hashcons under its
//! owner, and no two distinct classes own structurally identical canonical
//! nodes (congruence closure).

use vstd::prelude::*;

use crate::intern::Interner;
use crate::term::Id;
use crate::uf::UnionFind;

verus! {

/// What a node is headed by: an operator tag, or an interned leaf handle.
#[derive(Clone, Copy, PartialEq, Eq, Structural, Debug)]
pub enum Head {
    Op(u64),
    Leaf(usize),
}

/// One node of the graph: a head plus ordered child class ids.
#[derive(Clone, Debug)]
pub struct ENode {
    pub head: Head,
    pub children: Vec<Id>,
}

/// An equivalence class: its member nodes and its analysis value.
#[derive(Clone, Debug)]
pub struct EClass {
    pub nodes: Vec<ENode>,
    pub data: Option<i64>,
}

/// The head of a node as the analysis evaluator sees it: leaf handles are
/// resolved back to the leaf value.
#[derive(Clone, Copy, PartialEq, Eq, Structural, Debug)]
pub enum EvalHead {
    Op(u64),
    Leaf(i64),
}

/// The per-class analysis: an external evaluator that may synthesize a value
/// for a node from its children's values.  A class whose value is unknown
/// carries `None`; if any child is unknown the engine never asks the
/// evaluator, the parent is unknown too.
pub trait Analysis: Sized {
    /// What the evaluator computes, as a mathematical function; unless
    /// overridden, nothing.  A verified implementation that computes values
    /// states them here and proves `eval` against it.
    open spec fn eval_spec(&self, head: EvalHead, children: Seq<i64>) -> Option<i64> {
        None
    }

    fn eval(&self, head: EvalHead, children: &Vec<i64>) -> (r: Option<i64>)
        ensures
            r == self.eval_spec(head, children@),
    ;
}

/// The analysis that knows nothing: every class's value stays unknown.
pub struct NoAnalysis;

impl Analysis for NoAnalysis {
    fn eval(&self, head: EvalHead, children: &Vec<i64>) -> (r: Option<i64>) {
        None
    }
}

/// Constant folding over one binary operator: a leaf knows its own value,
/// and a node of the chosen operator knows the sum of its two children's
/// values whenever that sum is representable.
pub struct SumAnalysis {
    pub op: u64,
}

impl Analysis for SumAnalysis {
    open spec fn eval_spec(&self, head: EvalHead, children: Seq<i64>) -> Option<i64> {
        match head {
            EvalHead::Leaf(v) => Some(v),
            EvalHead::Op(o) => if o == self.op && children.len() == 2 {
                if i64::MIN <= children[0] + children[1] <= i64::MAX {
                    Some((children[0] + children[1]) as i64)
                } else {
                    None
                }
            } else {
                None
            },
        }
    }

    fn eval(&self, head: EvalHead, children: &Vec<i64>) -> (r: Option<i64>) {
        match head {
            EvalHead::Leaf(v) => Some(v),
            EvalHead::Op(o) => {
                if o == self.op && children.len() == 2 {
                    children[0].checked_add(children[1])
                } else {
                    None
                }
            },
        }
    }
}

/// How an engine operation can fail.
#[derive(Clone, Copy, PartialEq, Eq, Structural, Debug)]
pub enum EngineError {
    /// A pattern variable stood where a plain term was required.
    VarInTerm,
    /// A class-id reference stood inside a pattern.
    RefInPattern,
    /// A class-id reference names an id the graph never handed out.
    UnknownId,
    /// The expression has no nodes at all.
    EmptyExpr,
    /// A child index does not point backwards.
    MalformedExpr,
    /// `union` or `equiv` was given fewer than two operands.
    TooFewOperands,
    /// An applier used a variable the searcher never bound.
    UnboundVar,
    /// The analysis declared two distinct known values equivalent.
    MergeConflict,
    /// A class has no finite member term to extract.
    NoFiniteTerm,
}

pub struct EGraph<A> {
    pub uf: UnionFind,
    pub classes: Vec<EClass>,
    pub hashcons: Vec<(ENode, Id)>,
    pub pending: Vec<Id>,
    pub interner: Interner,
    pub analysis: A,
}

/// The identity a node is hashconsed under: head and exact child ids.
pub open spec fn node_key(nd: ENode) -> (Head, Seq<usize>) {
    (nd.head, nd.children@)
}

/// First hashcons entry (scanning up from `i`) whose key is `key`.
pub open spec fn hc_find_from(hc: Seq<(ENode, Id)>, key: (Head, Seq<usize>), i: int) -> Option<Id>
    decreases hc.len() - i,
{
    if i < 0 || i >= hc.len() {
        None
    } else if node_key(hc[i].0) == key {
        Some(hc[i].1)
    } else {
        hc_find_from(hc, key, i + 1)
    }
}

pub open spec fn hc_find(hc: Seq<(ENode, Id)>, key: (Head, Seq<usize>)) -> Option<Id> {
    hc_find_from(hc, key, 0)
}

/// The lattice join of two analysis values whose known values agree.
pub open spec fn data_join(x: Option<i64>, y: Option<i64>) -> Option<i64> {
    if x is Some {
        x
    } else {
        y
    }
}

/// A key found from `i` onward names an entry at or after `i`.
pub proof fn lemma_hc_find_some(hc: Seq<(ENode, Id)>, key: (Head, Seq<usize>), i: int) -> (e: int)
    requires
        0 <= i,
        hc_find_from(hc, key, i) is Some,
    ensures
        i <= e < hc.len(),
        node_key(hc[e].0) == key,
        hc_find_from(hc, key, i) == Some(hc[e].1),
    decreases hc.len() - i,
{
    if node_key(hc[i].0) == key {
        i
    } else {
        lemma_hc_find_some(hc, key, i + 1)
    }
}

/// A key not found from `i` onward matches no entry at or after `i`.
pub proof fn lemma_hc_find_none(hc: Seq<(ENode, Id)>, key: (Head, Seq<usize>), i: int, e: int)
    requires
        0 <= i <= e < hc.len(),
        hc_find_from(hc, key, i) is None,
    ensures
        node_key(hc[e].0) != key,
    decreases e - i,
{
    if i < e {
        lemma_hc_find_none(hc, key, i + 1, e);
    }
}

/// Appending an entry changes a lookup only where it used to miss.
pub proof fn lemma_hc_find_push(
    hc: Seq<(ENode, Id)>,
    x: (ENode, Id),
    key: (Head, Seq<usize>),
    i: int,
)
    requires
        0 <= i <= hc.len(),
    ensures
        hc_find_from(hc.push(x), key, i) == match hc_find_from(hc, key, i) {
            Some(d) => Some(d),
            None => if node_key(x.0) == key {
                Some(x.1)
            } else {
                None
            },
        },
    decreases hc.len() - i,
{
    if i < hc.len() {
        assert(hc.push(x)[i] == hc[i]);
        lemma_hc_find_push(hc, x, key, i + 1);
    } else {
        assert(hc.push(x)[i] == x);
        assert(hc_find_from(hc.push(x), key, i + 1) is None);
    }
}

impl<A> EGraph<A> {
    /// Number of class ids handed out so far.
    pub open spec fn n(self) -> int {
        self.classes@.len() as int
    }

    pub open spec fn same(self, a: int, b: int) -> bool {
        self.uf.same(a, b)
    }

    pub open spec fn rootof(self, c: int) -> int {
        self.uf.rootof(c)
    }

    /// Child ids mapped to their representatives.
    pub open spec fn canon_children(self, cs: Seq<usize>) -> Seq<usize> {
        cs.map_values(|c: usize| self.uf.rootof(c as int) as usize)
    }

    /// The key a node has once its children are canonicalized.
    pub open spec fn canon_key(self, nd: ENode) -> (Head, Seq<usize>) {
        (nd.head, self.canon_children(nd.children@))
    }

    /// What the current hashcons answers for a key.
    pub open spec fn lookup(self, key: (Head, Seq<usize>)) -> Option<Id> {
        hc_find(self.hashcons@, key)
    }

    pub open spec fn node_wf(self, nd: ENode) -> bool {
        match nd.head {
            Head::Leaf(h) => (h as int) < self.interner.n() && nd.children@.len() == 0,
            Head::Op(_) => forall|j: int|
                0 <= j < nd.children@.len() ==> (#[trigger] nd.children@[j] as int) < self.n(),
        }
    }

    /// Every child id is a representative.
    pub open spec fn node_canon(self, nd: ENode) -> bool {
        forall|j: int|
            0 <= j < nd.children@.len() ==> self.uf.is_root(#[trigger] nd.children@[j] as int)
    }

    /// The hashcons entry at `e` names a class that owns a node of that key.
    pub open spec fn entry_backed_at(self, e: int, k: int) -> bool {
        &&& 0 <= k < self.classes@[self.rootof(self.hashcons@[e].1 as int)].nodes@.len()
        &&& node_key(self.classes@[self.rootof(self.hashcons@[e].1 as int)].nodes@[k]) == node_key(
            self.hashcons@[e].0,
        )
    }

    pub open spec fn entry_backed(self, e: int) -> bool {
        exists|k: int| #[trigger] self.entry_backed_at(e, k)
    }

    /// Member node `k` of root class `c` is canonical and hashconsed to `c`.
    pub open spec fn member_ok(self, c: int, k: int) -> bool {
        &&& self.node_canon(self.classes@[c].nodes@[k])
        &&& match self.lookup(node_key(self.classes@[c].nodes@[k])) {
            Some(d) => self.rootof(d as int) == c,
            None => false,
        }
    }

    /// The strong, congruence-closed state restored by `rebuild`:
    /// every hashcons key is canonical and owned by the class it maps to,
    /// and every member node of every class is canonical and present in the
    /// hashcons, mapped to its owner.  Hence no two distinct classes own
    /// structurally identical canonical nodes.
    pub open spec fn rebuilt(self) -> bool {
        &&& forall|e: int|
            0 <= e < self.hashcons@.len() ==> self.node_canon(#[trigger] self.hashcons@[e].0)
        &&& forall|e: int| 0 <= e < self.hashcons@.len() ==> #[trigger] self.entry_backed(e)
        &&& forall|c: int, k: int|
            0 <= c < self.n() && self.uf.is_root(c) && 0 <= k < self.classes@[c].nodes@.len()
                ==> #[trigger] self.member_ok(c, k)
    }

    pub open spec fn wf(self) -> bool {
        &&& self.uf.wf()
        &&& self.uf.n() == self.n()
        &&& self.interner.wf()
        &&& forall|c: int, k: int|
            0 <= c < self.n() && 0 <= k < self.classes@[c].nodes@.len() ==> self.node_wf(
                #[trigger] self.classes@[c].nodes@[k],
            )
        &&& forall|e: int|
            0 <= e < self.hashcons@.len() ==> self.node_wf(#[trigger] self.hashcons@[e].0) && (
            self.hashcons@[e].1 as int) < self.n()
        &&& forall|e1: int, e2: int|
            0 <= e1 < e2 < self.hashcons@.len() ==> node_key(self.hashcons@[e1].0) != node_key(
                self.hashcons@[e2].0,
            )
        &&& forall|e: int|
            0 <= e < self.hashcons@.len() ==> self.has_node(
                #[trigger] self.hashcons@[e].0,
                self.hashcons@[e].1 as int,
            )
        &&& forall|p: int|
            0 <= p < self.pending@.len() ==> (#[trigger] self.pending@[p] as int) < self.n()
        &&& forall|c: int|
            0 <= c < self.n() && !self.uf.is_root(c) ==> self.classes@[c].nodes@.len() == 0
        &&& self.pending@.len() == 0 ==> self.rebuilt()
    }

    /// The graph is clean: no work is pending, the strong invariants hold.
    pub open spec fn clean(self) -> bool {
        self.pending@.len() == 0
    }

    /// How many merges ever happened: ids handed out minus classes left.
    /// It grows exactly when a new equivalence between distinct classes is
    /// created.
    pub open spec fn merged_count(self) -> int {
        self.n() - self.uf.nroots(self.n())
    }

    /// Whether id `i` is a class representative with no analysis value.
    pub open spec fn none_at(self, i: int) -> nat {
        if self.uf.is_root(i) && self.classes@[i].data is None {
            1
        } else {
            0
        }
    }

    /// How many representatives below `k` have no analysis value yet.
    pub open spec fn none_upto(self, k: int) -> nat
        decreases k,
    {
        if k <= 0 {
            0
        } else {
            self.none_upto(k - 1) + self.none_at(k - 1)
        }
    }

    /// Pointwise bounds on the per-id counts bound the totals.
    pub proof fn lemma_none_upto_le(self, prev: EGraph<A>, k: int)
        requires
            forall|i: int| 0 <= i < k ==> #[trigger] self.none_at(i) <= prev.none_at(i),
        ensures
            self.none_upto(k) <= prev.none_upto(k),
        decreases k,
    {
        if k > 0 {
            self.lemma_none_upto_le(prev, k - 1);
        }
    }

    /// A strict pointwise drop anywhere gives a strict drop of the total.
    pub proof fn lemma_none_upto_lt(self, prev: EGraph<A>, k: int, j: int)
        requires
            forall|i: int| 0 <= i < k ==> #[trigger] self.none_at(i) <= prev.none_at(i),
            0 <= j < k,
            self.none_at(j) < prev.none_at(j),
        ensures
            self.none_upto(k) < prev.none_upto(k),
        decreases k,
    {
        if j == k - 1 {
            self.lemma_none_upto_le(prev, k - 1);
        } else {
            self.lemma_none_upto_lt(prev, k - 1, j);
        }
    }

    /// Equal per-id counts give equal totals.
    pub proof fn lemma_none_upto_same(self, prev: EGraph<A>, k: int)
        requires
            forall|i: int| 0 <= i < k ==> #[trigger] self.none_at(i) == prev.none_at(i),
        ensures
            self.none_upto(k) == prev.none_upto(k),
        decreases k,
    {
        if k > 0 {
            self.lemma_none_upto_same(prev, k - 1);
        }
    }

    /// No class carries an analysis value.
    pub open spec fn datafree(self) -> bool {
        forall|c: int| 0 <= c < self.n() ==> (#[trigger] self.classes@[c].data) is None
    }

    /// No two ids were ever unioned and every class owns exactly one node:
    /// the graph is still a plain hashconsed term dag.
    pub open spec fn unmerged(self) -> bool {
        forall|c: int|
            0 <= c < self.n() ==> self.uf.is_root(c) && (#[trigger] self.classes@[c].nodes@.len())
                == 1
    }

    /// Member node `k` of `c`'s class matches `nd` up to equivalence of
    /// children.
    pub open spec fn has_node_at(self, nd: ENode, c: int, k: int) -> bool {
        &&& 0 <= k < self.classes@[self.rootof(c)].nodes@.len()
        &&& self.classes@[self.rootof(c)].nodes@[k].head == nd.head
        &&& self.classes@[self.rootof(c)].nodes@[k].children@.len() == nd.children@.len()
        &&& forall|j: int|
            0 <= j < nd.children@.len() ==> self.same(
                #[trigger] nd.children@[j] as int,
                self.classes@[self.rootof(c)].nodes@[k].children@[j] as int,
            )
    }

    /// The class `c` has a member node matching `nd` up to equivalence of
    /// children.
    pub open spec fn has_node(self, nd: ENode, c: int) -> bool {
        exists|k: int| #[trigger] self.has_node_at(nd, c, k)
    }

    /// Member node `k` of `c`'s class is a leaf node carrying the value `v`.
    pub open spec fn has_leaf_at(self, c: int, v: i64, k: int) -> bool {
        &&& 0 <= k < self.classes@[self.rootof(c)].nodes@.len()
        &&& match self.classes@[self.rootof(c)].nodes@[k].head {
            Head::Leaf(h) => (h as int) < self.interner.n() && self.interner.vals@[h as int] == v,
            Head::Op(_) => false,
        }
    }

    /// The class `c` contains a leaf node for the value `v`.
    pub open spec fn has_leaf(self, c: int, v: i64) -> bool {
        exists|k: int| #[trigger] self.has_leaf_at(c, v, k)
    }

    /// The class `c` contains an operator node for `op` whose children are
    /// equivalent to `children`, pointwise.
    pub open spec fn has_op_like(self, op: u64, children: Seq<usize>, c: int) -> bool {
        exists|k: int|
            #[trigger] self.op_shape_at(c, op, children.len() as int, k) && forall|j: int|
                0 <= j < children.len() ==> self.same(
                    #[trigger] children[j] as int,
                    self.classes@[self.rootof(c)].nodes@[k].children@[j] as int,
                )
    }

    /// Everything the old graph knew, the new graph still knows: ids keep
    /// their meaning, equivalences only grow, interned leaves keep their
    /// handles, and every member node survives in its class (possibly with
    /// children replaced by equivalent ids).
    pub open spec fn extends(self, prev: EGraph<A>) -> bool {
        &&& prev.n() <= self.n()
        &&& prev.interner.n() <= self.interner.n()
        &&& forall|h: int|
            0 <= h < prev.interner.n() ==> #[trigger] self.interner.vals@[h]
                == prev.interner.vals@[h]
        &&& forall|a: int, b: int|
            0 <= a < prev.n() && 0 <= b < prev.n() && prev.same(a, b) ==> self.same(a, b)
        &&& forall|c: int, k: int|
            0 <= c < prev.n() && prev.uf.is_root(c) && 0 <= k < prev.classes@[c].nodes@.len()
                ==> self.has_node(#[trigger] prev.classes@[c].nodes@[k], c)
    }

    /// Fieldwise equality: nothing observable changed.
    pub open spec fn unchanged(self, prev: EGraph<A>) -> bool {
        &&& self.uf.parent@ == prev.uf.parent@
        &&& self.classes@ == prev.classes@
        &&& self.hashcons@ == prev.hashcons@
        &&& self.pending@ == prev.pending@
        &&& self.interner.vals@ == prev.interner.vals@
    }

    pub proof fn lemma_extends_refl(self)
        requires
            self.wf(),
        ensures
            self.extends(self),
    {
        assert forall|c: int, k: int|
            0 <= c < self.n() && self.uf.is_root(c) && 0 <= k
                < self.classes@[c].nodes@.len() implies self.has_node(
            #[trigger] self.classes@[c].nodes@[k],
            c,
        ) by {
            let nd = self.classes@[c].nodes@[k];
            assert(self.rootof(c) == c);
            assert forall|j: int| 0 <= j < nd.children@.len() implies self.same(
                #[trigger] nd.children@[j] as int,
                nd.children@[j] as int,
            ) by {}
            assert(self.has_node_at(nd, c, k));
        }
    }

    pub proof fn lemma_unchanged_extends(self, prev: EGraph<A>)
        requires
            prev.wf(),
            self.unchanged(prev),
        ensures
            self.extends(prev),
            self.wf(),
    {
        assert forall|i: int| self.uf.rootof(i) == prev.uf.rootof(i) by {
            if 0 <= i < prev.uf.n() {
                prev.uf.lemma_rootof_prefix(self.uf, prev.uf.n(), i);
            }
        }
        assert forall|c: int, k: int|
            0 <= c < prev.n() && prev.uf.is_root(c) && 0 <= k
                < prev.classes@[c].nodes@.len() implies self.has_node(
            #[trigger] prev.classes@[c].nodes@[k],
            c,
        ) by {
            let nd = prev.classes@[c].nodes@[k];
            assert(self.rootof(c) == c);
            assert(self.classes@[c].nodes@[k] == nd);
            assert(self.has_node_at(nd, c, k));
        }
        if self.pending@.len() == 0 {
            assert forall|e: int|
                0 <= e < self.hashcons@.len() implies self.node_canon(
                #[trigger] self.hashcons@[e].0,
            ) by {
                assert(prev.node_canon(prev.hashcons@[e].0));
            }
            assert forall|e: int|
                0 <= e < self.hashcons@.len() implies #[trigger] self.entry_backed(e) by {
                assert(prev.entry_backed(e));
                let k = choose|k: int| prev.entry_backed_at(e, k);
                assert(prev.entry_backed_at(e, k));
                assert(self.entry_backed_at(e, k));
            }
            assert forall|c: int, k: int|
                0 <= c < self.n() && self.uf.is_root(c) && 0 <= k
                    < self.classes@[c].nodes@.len() implies #[trigger] self.member_ok(c, k) by {
                assert(prev.member_ok(c, k));
            }
        }
        assert(self.uf.wf()) by {
            assert forall|i: int| 0 <= i < self.uf.n() implies #[trigger] self.uf.parent@[i] as int
                <= i by {
                assert(self.uf.parent@[i] == prev.uf.parent@[i]);
            }
        }
        assert forall|c: int, k: int|
            0 <= c < self.n() && 0 <= k < self.classes@[c].nodes@.len() implies self.node_wf(
            #[trigger] self.classes@[c].nodes@[k],
        ) by {
            assert(prev.node_wf(prev.classes@[c].nodes@[k]));
        }
        assert forall|e: int|
            0 <= e < self.hashcons@.len() implies self.node_wf(#[trigger] self.hashcons@[e].0) && (
        self.hashcons@[e].1 as int) < self.n() by {
            assert(prev.node_wf(prev.hashcons@[e].0));
        }
        assert(self.interner.wf()) by {
            assert forall|j: int, k: int|
                0 <= j < k < self.interner.n() implies self.interner.vals@[j]
                    != self.interner.vals@[k] by {
                assert(self.interner.vals@[j] == prev.interner.vals@[j]);
                assert(self.interner.vals@[k] == prev.interner.vals@[k]);
            }
        }
        assert forall|c: int|
            0 <= c < self.n() && !self.uf.is_root(c) implies self.classes@[c].nodes@.len()
                == 0 by {
            assert(self.uf.rootof(c) == prev.uf.rootof(c));
            assert(!prev.uf.is_root(c));
            assert(prev.classes@[c].nodes@.len() == 0);
            assert(self.classes@[c] == prev.classes@[c]);
        }
        assert forall|e: int|
            0 <= e < self.hashcons@.len() implies self.has_node(
            #[trigger] self.hashcons@[e].0,
            self.hashcons@[e].1 as int,
        ) by {
            assert(prev.has_node(prev.hashcons@[e].0, prev.hashcons@[e].1 as int));
            let k = choose|k: int|
                prev.has_node_at(prev.hashcons@[e].0, prev.hashcons@[e].1 as int, k);
            assert(self.has_node_at(self.hashcons@[e].0, self.hashcons@[e].1 as int, k));
        }
        assert(self.wf());
    }

    /// A matching member node keeps matching in any extension of the graph.
    pub proof fn lemma_has_node_extends(self, prev: EGraph<A>, nd: ENode, c: int)
        requires
            prev.uf.wf(),
            prev.uf.n() == prev.n(),
            forall|c2: int|
                0 <= c2 < prev.n() && !prev.uf.is_root(c2) ==> prev.classes@[c2].nodes@.len() == 0,
            forall|c2: int, k2: int|
                0 <= c2 < prev.n() && 0 <= k2 < prev.classes@[c2].nodes@.len() ==> prev.node_wf(
                    #[trigger] prev.classes@[c2].nodes@[k2],
                ),
            self.extends(prev),
            prev.has_node(nd, c),
            0 <= c < prev.n(),
            forall|j: int|
                0 <= j < nd.children@.len() ==> (#[trigger] nd.children@[j] as int) < prev.n(),
        ensures
            self.has_node(nd, c),
    {
        let pr = prev.rootof(c);
        prev.uf.lemma_rootof_le(c);
        prev.uf.lemma_rootof_idem(c);
        let k2 = choose|k2: int| prev.has_node_at(nd, c, k2);
        let nd2 = prev.classes@[pr].nodes@[k2];
        assert(prev.uf.is_root(pr));
        assert(self.has_node(nd2, pr));
        let k3 = choose|k3: int| self.has_node_at(nd2, pr, k3);
        let fr = self.rootof(pr);
        let nd3 = self.classes@[fr].nodes@[k3];
        assert forall|j: int| 0 <= j < nd.children@.len() implies self.same(
            #[trigger] nd.children@[j] as int,
            nd3.children@[j] as int,
        ) by {
            assert(prev.same(nd.children@[j] as int, nd2.children@[j] as int));
            assert(prev.node_wf(nd2));
            prev.uf.lemma_rootof_le(nd.children@[j] as int);
            prev.uf.lemma_rootof_le(nd2.children@[j] as int);
            assert(self.same(nd.children@[j] as int, nd2.children@[j] as int));
            assert(self.same(nd2.children@[j] as int, nd3.children@[j] as int));
        }
        assert(prev.same(c, pr));
        assert(self.same(c, pr));
        assert(self.rootof(c) == fr);
        assert(self.has_node_at(nd, c, k3));
    }

    /// A leaf member keeps its class across any extension of the graph.
    pub proof fn lemma_has_leaf_extends(self, prev: EGraph<A>, c: int, v: i64)
        requires
            prev.wf(),
            self.extends(prev),
            prev.has_leaf(c, v),
            0 <= c < prev.n(),
        ensures
            self.has_leaf(c, v),
    {
        let pr = prev.rootof(c);
        prev.uf.lemma_rootof_le(c);
        prev.uf.lemma_rootof_idem(c);
        let k = choose|k: int| prev.has_leaf_at(c, v, k);
        let nd = prev.classes@[pr].nodes@[k];
        assert(prev.uf.is_root(pr));
        assert(self.has_node(nd, pr));
        let k3 = choose|k3: int| self.has_node_at(nd, pr, k3);
        assert(prev.same(c, pr));
        assert(self.same(c, pr));
        assert(self.rootof(c) == self.rootof(pr));
        assert(self.has_leaf_at(c, v, k3));
    }

    /// Re-establish the invariants when only the pending list and the
    /// interner changed, the latter by growing.
    proof fn lemma_same_but(self, prev: EGraph<A>)
        requires
            prev.wf(),
            self.uf.parent@ == prev.uf.parent@,
            self.classes@ == prev.classes@,
            self.hashcons@ == prev.hashcons@,
            self.interner.wf(),
            prev.interner.n() <= self.interner.n(),
            forall|h: int|
                0 <= h < prev.interner.n() ==> #[trigger] self.interner.vals@[h]
                    == prev.interner.vals@[h],
            forall|p: int|
                0 <= p < self.pending@.len() ==> (#[trigger] self.pending@[p] as int) < self.n(),
            self.pending@ == prev.pending@ || self.pending@.len() > 0,
        ensures
            self.wf(),
            self.extends(prev),
    {
        assert forall|i: int| self.uf.rootof(i) == prev.uf.rootof(i) by {
            if 0 <= i < prev.uf.n() {
                prev.uf.lemma_rootof_prefix(self.uf, prev.uf.n(), i);
            }
        }
        assert forall|c: int, k: int|
            0 <= c < prev.n() && prev.uf.is_root(c) && 0 <= k
                < prev.classes@[c].nodes@.len() implies self.has_node(
            #[trigger] prev.classes@[c].nodes@[k],
            c,
        ) by {
            let nd = prev.classes@[c].nodes@[k];
            assert(self.rootof(c) == c);
            assert(self.classes@[c].nodes@[k] == nd);
            assert(self.has_node_at(nd, c, k));
        }
        if self.pending@.len() == 0 {
            assert forall|e: int|
                0 <= e < self.hashcons@.len() implies self.node_canon(
                #[trigger] self.hashcons@[e].0,
            ) by {
                assert(prev.node_canon(prev.hashcons@[e].0));
            }
            assert forall|e: int|
                0 <= e < self.hashcons@.len() implies #[trigger] self.entry_backed(e) by {
                assert(prev.entry_backed(e));
                let k = choose|k: int| prev.entry_backed_at(e, k);
                assert(prev.entry_backed_at(e, k));
                assert(self.entry_backed_at(e, k));
            }
            assert forall|c: int, k: int|
                0 <= c < self.n() && self.uf.is_root(c) && 0 <= k
                    < self.classes@[c].nodes@.len() implies #[trigger] self.member_ok(c, k) by {
                assert(prev.member_ok(c, k));
            }
        }
        assert(self.uf.wf()) by {
            assert forall|i: int| 0 <= i < self.uf.n() implies #[trigger] self.uf.parent@[i] as int
                <= i by {
                assert(self.uf.parent@[i] == prev.uf.parent@[i]);
            }
        }
        assert forall|c: int, k: int|
            0 <= c < self.n() && 0 <= k < self.classes@[c].nodes@.len() implies self.node_wf(
            #[trigger] self.classes@[c].nodes@[k],
        ) by {
            assert(prev.node_wf(prev.classes@[c].nodes@[k]));
            self.lemma_node_wf_transfer(prev, self.classes@[c].nodes@[k]);
        }
        assert forall|e: int|
            0 <= e < self.hashcons@.len() implies self.node_wf(#[trigger] self.hashcons@[e].0) && (
        self.hashcons@[e].1 as int) < self.n() by {
            assert(prev.node_wf(prev.hashcons@[e].0));
            self.lemma_node_wf_transfer(prev, self.hashcons@[e].0);
        }
        assert forall|c: int|
            0 <= c < self.n() && !self.uf.is_root(c) implies self.classes@[c].nodes@.len()
                == 0 by {
            assert(self.uf.rootof(c) == prev.uf.rootof(c));
            assert(!prev.uf.is_root(c));
            assert(prev.classes@[c].nodes@.len() == 0);
            assert(self.classes@[c] == prev.classes@[c]);
        }
        assert forall|e: int|
            0 <= e < self.hashcons@.len() implies self.has_node(
            #[trigger] self.hashcons@[e].0,
            self.hashcons@[e].1 as int,
        ) by {
            assert(prev.has_node(prev.hashcons@[e].0, prev.hashcons@[e].1 as int));
            let k = choose|k: int|
                prev.has_node_at(prev.hashcons@[e].0, prev.hashcons@[e].1 as int, k);
            assert(self.has_node_at(self.hashcons@[e].0, self.hashcons@[e].1 as int, k));
        }
        assert(self.wf());
    }

    pub proof fn lemma_extends_trans(self, mid: EGraph<A>, prev: EGraph<A>)
        requires
            prev.wf(),
            mid.wf(),
            self.wf(),
            mid.extends(prev),
            self.extends(mid),
        ensures
            self.extends(prev),
    {
        assert forall|c: int, k: int|
            0 <= c < prev.n() && prev.uf.is_root(c) && 0 <= k
                < prev.classes@[c].nodes@.len() implies self.has_node(
            #[trigger] prev.classes@[c].nodes@[k],
            c,
        ) by {
            let nd = prev.classes@[c].nodes@[k];
            assert(mid.has_node(nd, c));
            let mr = mid.rootof(c);
            mid.uf.lemma_rootof_le(c);
            mid.uf.lemma_rootof_idem(c);
            let k2 = choose|k2: int| mid.has_node_at(nd, c, k2);
            let nd2 = mid.classes@[mr].nodes@[k2];
            // the middle graph's copy survives into the final graph
            assert(0 <= mr < mid.n());
            assert(mid.uf.is_root(mr));
            assert(self.has_node(nd2, mr));
            let k3 = choose|k3: int| self.has_node_at(nd2, mr, k3);
            let fr = self.rootof(mr);
            let nd3 = self.classes@[fr].nodes@[k3];
            // children chain through: nd ~ nd2 in mid lifts to self, nd2 ~ nd3 in self
            assert forall|j: int| 0 <= j < nd.children@.len() implies self.same(
                #[trigger] nd.children@[j] as int,
                nd3.children@[j] as int,
            ) by {
                assert(mid.same(nd.children@[j] as int, nd2.children@[j] as int));
                assert(prev.node_wf(nd));
                assert(mid.node_wf(nd2));
                mid.uf.lemma_rootof_le(nd.children@[j] as int);
                mid.uf.lemma_rootof_le(nd2.children@[j] as int);
                // both child ids are within the middle graph, so the
                // equivalence carries over
                assert(self.same(nd.children@[j] as int, nd2.children@[j] as int));
                assert(self.same(nd2.children@[j] as int, nd3.children@[j] as int));
            }
            // and self.rootof(c) == fr
            assert(mid.same(c, mr));
            assert(self.same(c, mr));
            assert(self.rootof(c) == fr);
            assert(self.has_node_at(nd, c, k3));
        }
    }
}


impl<A: Analysis> EGraph<A> {
    pub fn new(analysis: A) -> (r: EGraph<A>)
        ensures
            r.wf(),
            r.n() == 0,
            r.clean(),
            r.datafree(),
            r.unmerged(),
            r.interner.n() == 0,
    {
        EGraph {
            uf: UnionFind::new(),
            classes: Vec::new(),
            hashcons: Vec::new(),
            pending: Vec::new(),
            interner: Interner::new(),
            analysis,
        }
    }

    /// The representative of a class id.
    pub fn find(&self, i: Id) -> (r: Id)
        requires
            self.wf(),
            (i as int) < self.n(),
        ensures
            r as int == self.rootof(i as int),
            self.uf.is_root(r as int),
            (r as int) < self.n(),
    {
        self.uf.find(i)
    }

    /// A copy of `nd` with every child replaced by its representative.
    fn canonicalize(&self, nd: &ENode) -> (r: ENode)
        requires
            self.wf(),
            self.node_wf(*nd),
        ensures
            node_key(r) == self.canon_key(*nd),
            self.node_wf(r),
            self.node_canon(r),
            r.head == nd.head,
            r.children@.len() == nd.children@.len(),
            forall|j: int|
                0 <= j < nd.children@.len() ==> self.same(
                    #[trigger] nd.children@[j] as int,
                    r.children@[j] as int,
                ),
    {
        let mut children: Vec<Id> = Vec::new();
        let m = nd.children.len();
        let mut j: usize = 0;
        while j < m
            invariant
                self.wf(),
                self.node_wf(*nd),
                m == nd.children@.len(),
                j <= m,
                children@.len() == j as int,
                forall|jj: int|
                    0 <= jj < j as int ==> #[trigger] children@[jj] as int == self.uf.rootof(
                        nd.children@[jj] as int,
                    ),
            decreases m - j,
        {
            proof {
                assert(self.node_wf(*nd));
                assert((nd.children@[j as int] as int) < self.n()) by {
                    match nd.head {
                        Head::Leaf(_) => {
                            assert(false);
                        },
                        Head::Op(_) => {},
                    }
                }
            }
            let c = self.uf.find(nd.children[j]);
            children.push(c);
            j = j + 1;
        }
        let r = ENode { head: nd.head, children };
        proof {
            assert(r.children@ =~= self.canon_children(nd.children@));
            assert forall|jj: int| 0 <= jj < r.children@.len() implies self.uf.is_root(
                #[trigger] r.children@[jj] as int,
            ) by {
                self.uf.lemma_rootof_idem(nd.children@[jj] as int);
            }
            assert forall|jj: int| 0 <= jj < r.children@.len() implies (
            #[trigger] r.children@[jj] as int) < self.n() by {
                self.uf.lemma_rootof_le(nd.children@[jj] as int);
            }
        }
        r
    }

    /// Exact key equality of two nodes.
    fn node_key_eq(a: &ENode, b: &ENode) -> (r: bool)
        ensures
            r == (node_key(*a) == node_key(*b)),
    {
        if !(a.head == b.head) {
            return false;
        }
        let m = a.children.len();
        if m != b.children.len() {
            proof {
                assert(a.children@.len() != b.children@.len());
            }
            return false;
        }
        let mut j: usize = 0;
        while j < m
            invariant
                m == a.children@.len(),
                m == b.children@.len(),
                j <= m,
                forall|jj: int| 0 <= jj < j as int ==> a.children@[jj] == b.children@[jj],
            decreases m - j,
        {
            if a.children[j] != b.children[j] {
                return false;
            }
            j = j + 1;
        }
        proof {
            assert(a.children@ =~= b.children@);
        }
        true
    }

    /// Look a node up by its exact key in any hashcons table.
    fn find_key(hc: &Vec<(ENode, Id)>, nd: &ENode) -> (r: Option<Id>)
        ensures
            r == hc_find(hc@, node_key(*nd)),
    {
        let m = hc.len();
        let mut e: usize = 0;
        while e < m
            invariant
                m == hc@.len(),
                e <= m,
                hc_find(hc@, node_key(*nd)) == hc_find_from(hc@, node_key(*nd), e as int),
            decreases m - e,
        {
            let hit = Self::node_key_eq(&hc[e].0, nd);
            if hit {
                return Some(hc[e].1);
            }
            e = e + 1;
        }
        None
    }

    /// Look a node up in the hashcons by its exact key.
    fn hc_get(&self, nd: &ENode) -> (r: Option<Id>)
        requires
            self.wf(),
        ensures
            r == self.lookup(node_key(*nd)),
            r matches Some(d) ==> (d as int) < self.n(),
    {
        let r = Self::find_key(&self.hashcons, nd);
        proof {
            if r is Some {
                let e = lemma_hc_find_some(self.hashcons@, node_key(*nd), 0);
            }
        }
        r
    }
}


impl<A: Analysis> EGraph<A> {
    /// Merge the classes of `a` and `b` without running the analysis
    /// fold-back hook.  Returns whether the classes were distinct, the
    /// surviving root, and the value the hook must fold in, if any.
    fn union_core(&mut self, a: Id, b: Id) -> (r: Result<(bool, Id, Option<i64>), EngineError>)
        requires
            old(self).wf(),
            (a as int) < old(self).n(),
            (b as int) < old(self).n(),
        ensures
            final(self).wf(),
            final(self).extends(*old(self)),
            final(self).n() == old(self).n(),
            final(self).interner.vals@ == old(self).interner.vals@,
            final(self).hashcons@ == old(self).hashcons@,
            final(self).analysis == old(self).analysis,
            final(self).pending@.len() >= old(self).pending@.len(),
            final(self).none_upto(final(self).n()) <= old(self).none_upto(old(self).n()),
            r matches Err(e) ==> e == EngineError::MergeConflict && final(self).unchanged(
                *old(self),
            ),
            r is Err <==> {
                let ra = old(self).rootof(a as int);
                let rb = old(self).rootof(b as int);
                &&& ra != rb
                &&& old(self).classes@[ra].data is Some
                &&& old(self).classes@[rb].data is Some
                &&& old(self).classes@[ra].data != old(self).classes@[rb].data
            },
            r matches Ok(ok) ==> {
                &&& ok.0 == !old(self).same(a as int, b as int)
                &&& final(self).same(a as int, b as int)
                &&& (ok.1 as int) < final(self).n()
                &&& final(self).uf.is_root(ok.1 as int)
                &&& final(self).same(ok.1 as int, a as int)
                &&& !ok.0 ==> final(self).unchanged(*old(self)) && ok.2 is None
                &&& ok.0 ==> final(self).pending@.len() > 0 && final(self).uf.nroots(
                    final(self).n(),
                ) == old(self).uf.nroots(old(self).n()) - 1
                &&& forall|i: int, j: int|
                    0 <= i < old(self).n() && 0 <= j < old(self).n() ==> (#[trigger] final(self).same(i, j) <==> old(self).same(i, j) || (old(self).same(i, a as int) && old(self).same(j, b as int)) || (old(self).same(i, b as int) && old(self).same(j, a as int)))
                &&& ok.2 matches Some(v) ==> final(self).classes@[ok.1 as int].data == Some(v)
                &&& ok.0 ==> final(self).classes@[ok.1 as int].data == data_join(
                    old(self).classes@[old(self).rootof(a as int)].data,
                    old(self).classes@[old(self).rootof(b as int)].data,
                )
            },
            old(self).datafree() ==> final(self).datafree() && r is Ok && (r matches Ok(ok2) ==> ok2.2 is None),
    {
        let ra = self.uf.find(a);
        let rb = self.uf.find(b);
        if ra == rb {
            proof {
                self.lemma_unchanged_extends(*old(self));
                assert forall|i: int| 0 <= i < self.n() implies #[trigger] self.none_at(i) == old(self).none_at(i) by {
                    assert(self.uf.rootof(i) == old(self).uf.rootof(i)) by {
                        old(self).uf.lemma_rootof_prefix(self.uf, old(self).uf.n(), i);
                    }
                    assert(self.classes@[i] == old(self).classes@[i]);
                }
                self.lemma_none_upto_same(*old(self), self.n());
            }
            return Ok((false, ra, None));
        }
        let da = self.classes[ra].data;
        let db = self.classes[rb].data;
        if let (Some(x), Some(y)) = (da, db) {
            if x != y {
                proof {
                    self.lemma_unchanged_extends(*old(self));
                    assert forall|i: int| 0 <= i < self.n() implies #[trigger] self.none_at(i) == old(self).none_at(i) by {
                        assert(self.uf.rootof(i) == old(self).uf.rootof(i)) by {
                            old(self).uf.lemma_rootof_prefix(self.uf, old(self).uf.n(), i);
                        }
                        assert(self.classes@[i] == old(self).classes@[i]);
                    }
                    self.lemma_none_upto_same(*old(self), self.n());
                }
                return Err(EngineError::MergeConflict);
            }
        }
        self.pending.push(ra);
        let (w, l) = self.uf.join_roots(ra, rb);
        let mut moved: Vec<ENode> = Vec::new();
        core::mem::swap(&mut moved, &mut self.classes[l].nodes);
        let ghost mid = *self;
        self.classes[w].nodes.append(&mut moved);
        let (dw, dl) = if w == ra {
            (da, db)
        } else {
            (db, da)
        };
        let fold: Option<i64> = match (dw, dl) {
            (None, Some(y)) => {
                self.classes[w].data = Some(y);
                Some(y)
            },
            _ => None,
        };
        proof {
            self.lemma_union_restore(*old(self), a as int, b as int, ra as int, rb as int, w as int, l as int);
            // a merge can only reduce the valueless representatives
            assert forall|i: int| 0 <= i < self.n() implies #[trigger] self.none_at(i) <= old(self).none_at(i) by {
                if i == l as int {
                    assert(!self.uf.is_root(i));
                } else if i == w as int {
                    assert(old(self).uf.is_root(i));
                    if old(self).classes@[i].data is Some {
                        assert(self.classes@[i].data is Some);
                    }
                } else {
                    assert(self.classes@[i] == old(self).classes@[i]);
                    if old(self).uf.is_root(i) {
                        assert(self.uf.is_root(i));
                    } else {
                        assert(!self.uf.is_root(i)) by {
                            old(self).uf.lemma_rootof_le(i);
                        }
                    }
                }
            }
            self.lemma_none_upto_le(*old(self), self.n());
        }
        Ok((true, w, fold))
    }
}


impl<A> EGraph<A> {
    /// `node_wf` only reads sizes, so it carries between graphs of equal size.
    pub proof fn lemma_node_wf_transfer(self, prev: EGraph<A>, nd: ENode)
        requires
            prev.node_wf(nd),
            prev.n() <= self.n(),
            prev.interner.n() <= self.interner.n(),
        ensures
            self.node_wf(nd),
    {
    }

    /// Re-establish the invariants after the raw merge of two distinct root
    /// classes `ra` and `rb` into the surviving root `w`.
    proof fn lemma_union_restore(
        self,
        prev: EGraph<A>,
        a: int,
        b: int,
        ra: int,
        rb: int,
        w: int,
        l: int,
    )
        requires
            prev.wf(),
            0 <= a < prev.n(),
            0 <= b < prev.n(),
            ra == prev.rootof(a),
            rb == prev.rootof(b),
            ra != rb,
            (w == ra && l == rb) || (w == rb && l == ra),
            self.uf.wf(),
            self.uf.n() == prev.uf.n(),
            forall|i: int|
                #[trigger] self.uf.rootof(i) == if prev.uf.rootof(i) == l {
                    w as int
                } else {
                    prev.uf.rootof(i)
                },
            self.classes@.len() == prev.classes@.len(),
            self.classes@[l].nodes@.len() == 0,
            self.classes@[w].nodes@ == prev.classes@[w].nodes@ + prev.classes@[l].nodes@,
            forall|c: int|
                0 <= c < prev.n() && c != l && c != w ==> #[trigger] self.classes@[c]
                    == prev.classes@[c],
            self.hashcons@ == prev.hashcons@,
            self.interner.vals@ == prev.interner.vals@,
            self.pending@.len() > 0,
            forall|p: int|
                0 <= p < self.pending@.len() ==> (#[trigger] self.pending@[p] as int) < self.n(),
        ensures
            self.wf(),
            self.extends(prev),
            forall|i: int, j: int|
                0 <= i < prev.n() && 0 <= j < prev.n() ==> (#[trigger] self.same(i, j)
                    <==> prev.same(i, j) || (prev.same(i, a) && prev.same(j, b)) || (prev.same(
                    i,
                    b,
                ) && prev.same(j, a))),
    {
        prev.uf.lemma_rootof_le(a);
        prev.uf.lemma_rootof_le(b);
        prev.uf.lemma_rootof_idem(a);
        prev.uf.lemma_rootof_idem(b);
        assert(prev.uf.is_root(ra));
        assert(prev.uf.is_root(rb));
        assert(prev.uf.is_root(w));
        // well-formed nodes everywhere
        assert forall|c: int, k: int|
            0 <= c < self.n() && 0 <= k < self.classes@[c].nodes@.len() implies self.node_wf(
            #[trigger] self.classes@[c].nodes@[k],
        ) by {
            if c == w {
                let pw = prev.classes@[w].nodes@;
                let pl = prev.classes@[l].nodes@;
                if k < pw.len() {
                    assert(prev.node_wf(prev.classes@[w].nodes@[k]));
                } else {
                    assert(self.classes@[c].nodes@[k] == pl[k - pw.len()]);
                    assert(prev.node_wf(prev.classes@[l].nodes@[k - pw.len()]));
                }
                self.lemma_node_wf_transfer(prev, self.classes@[c].nodes@[k]);
            } else if c != l {
                assert(self.classes@[c] == prev.classes@[c]);
                assert(prev.node_wf(prev.classes@[c].nodes@[k]));
                self.lemma_node_wf_transfer(prev, self.classes@[c].nodes@[k]);
            }
        }
        assert forall|e: int|
            0 <= e < self.hashcons@.len() implies self.node_wf(#[trigger] self.hashcons@[e].0) && (
        self.hashcons@[e].1 as int) < self.n() by {
            assert(prev.node_wf(prev.hashcons@[e].0));
            self.lemma_node_wf_transfer(prev, self.hashcons@[e].0);
        }
        assert(self.interner.wf()) by {
            assert forall|j: int, k: int|
                0 <= j < k < self.interner.n() implies self.interner.vals@[j]
                    != self.interner.vals@[k] by {
                assert(self.interner.vals@[j] == prev.interner.vals@[j]);
                assert(self.interner.vals@[k] == prev.interner.vals@[k]);
            }
        }
        // non-roots own nothing
        assert forall|c: int|
            0 <= c < self.n() && !self.uf.is_root(c) implies self.classes@[c].nodes@.len()
                == 0 by {
            if c != l && c != w {
                assert(self.uf.rootof(c) == if prev.uf.rootof(c) == l {
                    w as int
                } else {
                    prev.uf.rootof(c)
                });
                if prev.uf.is_root(c) {
                    assert(prev.uf.rootof(c) == c);
                    assert(self.uf.rootof(c) == c);
                    assert(false);
                }
                assert(prev.classes@[c].nodes@.len() == 0);
            }
            if c == w {
                assert(self.uf.rootof(w) == w);
                assert(false);
            }
        }
        // survival of every member node
        assert forall|c: int, k: int|
            0 <= c < prev.n() && prev.uf.is_root(c) && 0 <= k
                < prev.classes@[c].nodes@.len() implies self.has_node(
            #[trigger] prev.classes@[c].nodes@[k],
            c,
        ) by {
            let nd = prev.classes@[c].nodes@[k];
            assert(prev.node_wf(nd));
            if c == l {
                let off = prev.classes@[w].nodes@.len();
                assert(self.uf.rootof(l) == w);
                assert(self.classes@[w].nodes@[off + k] == nd);
                assert forall|j: int| 0 <= j < nd.children@.len() implies self.same(
                    #[trigger] nd.children@[j] as int,
                    nd.children@[j] as int,
                ) by {}
                assert(self.has_node_at(nd, c, off + k));
            } else if c == w {
                assert(self.uf.rootof(w) == w);
                assert(self.classes@[w].nodes@[k] == nd);
                assert(self.has_node_at(nd, c, k));
            } else {
                assert(self.uf.rootof(c) == c);
                assert(self.classes@[c] == prev.classes@[c]);
                assert(self.has_node_at(nd, c, k));
            }
        }
        // the new equivalence is exactly the old one with the two classes merged
        assert forall|i: int, j: int|
            0 <= i < prev.n() && 0 <= j < prev.n() implies (#[trigger] self.same(i, j)
                <==> prev.same(i, j) || (prev.same(i, a) && prev.same(j, b)) || (prev.same(i, b)
                && prev.same(j, a))) by {
            assert(self.uf.rootof(i) == if prev.uf.rootof(i) == l {
                w as int
            } else {
                prev.uf.rootof(i)
            });
            assert(self.uf.rootof(j) == if prev.uf.rootof(j) == l {
                w as int
            } else {
                prev.uf.rootof(j)
            });
        }
        assert(self.extends(prev));
        // the hashcons stays backed by surviving member nodes
        assert forall|e: int|
            0 <= e < self.hashcons@.len() implies self.has_node(
            #[trigger] self.hashcons@[e].0,
            self.hashcons@[e].1 as int,
        ) by {
            assert(prev.has_node(prev.hashcons@[e].0, prev.hashcons@[e].1 as int));
            assert(prev.node_wf(prev.hashcons@[e].0));
            self.lemma_has_node_extends(prev, prev.hashcons@[e].0, prev.hashcons@[e].1 as int);
        }
        assert(self.wf());
    }
}


impl<A> EGraph<A> {
    /// Re-establish the invariants after allocating a fresh class `idu` for a
    /// canonical node `nd` that the hashcons did not know.
    proof fn lemma_new_class_restore(self, prev: EGraph<A>, nd: ENode, idu: Id)
        requires
            prev.wf(),
            prev.node_wf(nd),
            prev.node_canon(nd),
            prev.lookup(node_key(nd)) is None,
            idu as int == prev.n(),
            self.uf.wf(),
            self.uf.n() == prev.uf.n() + 1,
            forall|i: int| 0 <= i < prev.n() ==> #[trigger] self.uf.rootof(i) == prev.uf.rootof(i),
            self.uf.rootof(prev.n()) == prev.n(),
            self.classes@.len() == prev.classes@.len() + 1,
            forall|c: int| 0 <= c < prev.n() ==> #[trigger] self.classes@[c] == prev.classes@[c],
            self.classes@[prev.n()].nodes@.len() == 1,
            self.classes@[prev.n()].nodes@[0].head == nd.head,
            self.classes@[prev.n()].nodes@[0].children@ == nd.children@,
            self.hashcons@ == prev.hashcons@.push((nd, idu)),
            self.pending@ == prev.pending@,
            self.interner.vals@ == prev.interner.vals@,
        ensures
            self.wf(),
            self.extends(prev),
            self.has_node(nd, idu as int),
            self.lookup(node_key(nd)) == Some(idu),
            self.uf.is_root(idu as int),
    {
        let n0 = prev.n();
        lemma_hc_find_push(prev.hashcons@, (nd, idu), node_key(nd), 0);
        assert(self.lookup(node_key(nd)) == Some(idu));
        // the fresh class owns its node
        let cnode = self.classes@[prev.n()].nodes@[0];
        assert(node_key(cnode) == node_key(nd));
        assert forall|j: int| 0 <= j < nd.children@.len() implies self.same(
            #[trigger] nd.children@[j] as int,
            cnode.children@[j] as int,
        ) by {
            assert(cnode.children@[j] == nd.children@[j]);
        }
        assert(self.has_node_at(nd, idu as int, 0));
        // survival of the old classes
        assert forall|c: int, k: int|
            0 <= c < prev.n() && prev.uf.is_root(c) && 0 <= k
                < prev.classes@[c].nodes@.len() implies self.has_node(
            #[trigger] prev.classes@[c].nodes@[k],
            c,
        ) by {
            let ond = prev.classes@[c].nodes@[k];
            assert(self.rootof(c) == c);
            assert(self.classes@[c].nodes@[k] == ond);
            assert(self.has_node_at(ond, c, k));
        }
        assert(self.extends(prev));
        // well-formed nodes
        assert forall|c: int, k: int|
            0 <= c < self.n() && 0 <= k < self.classes@[c].nodes@.len() implies self.node_wf(
            #[trigger] self.classes@[c].nodes@[k],
        ) by {
            if c < prev.n() {
                assert(prev.node_wf(prev.classes@[c].nodes@[k]));
                self.lemma_node_wf_transfer(prev, self.classes@[c].nodes@[k]);
            } else {
                assert(self.classes@[c].nodes@[k].head == nd.head);
                assert(self.classes@[c].nodes@[k].children@ == nd.children@);
                self.lemma_node_wf_transfer(prev, nd);
            }
        }
        assert forall|e: int|
            0 <= e < self.hashcons@.len() implies self.node_wf(#[trigger] self.hashcons@[e].0) && (
        self.hashcons@[e].1 as int) < self.n() by {
            if e < prev.hashcons@.len() {
                assert(self.hashcons@[e] == prev.hashcons@[e]);
                assert(prev.node_wf(prev.hashcons@[e].0));
                self.lemma_node_wf_transfer(prev, self.hashcons@[e].0);
            } else {
                assert(self.hashcons@[e] == (nd, idu));
                self.lemma_node_wf_transfer(prev, nd);
            }
        }
        // distinct keys: the new key was a miss
        assert forall|e1: int, e2: int|
            0 <= e1 < e2 < self.hashcons@.len() implies node_key(self.hashcons@[e1].0) != node_key(
            self.hashcons@[e2].0,
        ) by {
            if e2 < prev.hashcons@.len() {
                assert(prev.hashcons@[e1] == self.hashcons@[e1]);
                assert(prev.hashcons@[e2] == self.hashcons@[e2]);
            } else {
                assert(self.hashcons@[e2] == (nd, idu));
                lemma_hc_find_none(prev.hashcons@, node_key(nd), 0, e1);
                assert(self.hashcons@[e1] == prev.hashcons@[e1]);
            }
        }
        // hashcons entries stay backed
        assert forall|e: int|
            0 <= e < self.hashcons@.len() implies self.has_node(
            #[trigger] self.hashcons@[e].0,
            self.hashcons@[e].1 as int,
        ) by {
            if e < prev.hashcons@.len() {
                assert(self.hashcons@[e] == prev.hashcons@[e]);
                assert(prev.has_node(prev.hashcons@[e].0, prev.hashcons@[e].1 as int));
                assert(prev.node_wf(prev.hashcons@[e].0));
                self.lemma_has_node_extends(prev, prev.hashcons@[e].0, prev.hashcons@[e].1 as int);
            } else {
                assert(self.hashcons@[e] == (nd, idu));
            }
        }
        // non-roots own nothing
        assert forall|c: int|
            0 <= c < self.n() && !self.uf.is_root(c) implies self.classes@[c].nodes@.len()
                == 0 by {
            if c < prev.n() {
                assert(self.uf.rootof(c) == prev.uf.rootof(c));
                assert(!prev.uf.is_root(c));
                assert(prev.classes@[c].nodes@.len() == 0);
                assert(self.classes@[c] == prev.classes@[c]);
            }
        }
        // a clean graph stays rebuilt
        if self.pending@.len() == 0 {
            assert(prev.rebuilt());
            assert forall|e: int|
                0 <= e < self.hashcons@.len() implies self.node_canon(
                #[trigger] self.hashcons@[e].0,
            ) by {
                if e < prev.hashcons@.len() {
                    assert(self.hashcons@[e] == prev.hashcons@[e]);
                    assert(prev.node_canon(prev.hashcons@[e].0));
                    assert(prev.node_wf(prev.hashcons@[e].0));
                    assert forall|j: int|
                        0 <= j < self.hashcons@[e].0.children@.len() implies self.uf.is_root(
                        #[trigger] self.hashcons@[e].0.children@[j] as int,
                    ) by {
                        let ch = self.hashcons@[e].0.children@[j] as int;
                        assert(prev.uf.is_root(ch));
                        assert(0 <= ch < prev.n());
                        assert(self.uf.rootof(ch) == prev.uf.rootof(ch));
                    }
                } else {
                    assert(self.hashcons@[e] == (nd, idu));
                    assert forall|j: int|
                        0 <= j < nd.children@.len() implies self.uf.is_root(
                        #[trigger] nd.children@[j] as int,
                    ) by {
                        let ch = nd.children@[j] as int;
                        assert(prev.uf.is_root(ch));
                        assert(0 <= ch < prev.n());
                        assert(self.uf.rootof(ch) == prev.uf.rootof(ch));
                    }
                }
            }
            assert forall|e: int|
                0 <= e < self.hashcons@.len() implies #[trigger] self.entry_backed(e) by {
                if e < prev.hashcons@.len() {
                    assert(prev.entry_backed(e));
                    let k = choose|k: int| prev.entry_backed_at(e, k);
                    assert(prev.entry_backed_at(e, k));
                    let d = prev.hashcons@[e].1 as int;
                    assert(0 <= d < prev.n());
                    prev.uf.lemma_rootof_le(d);
                    assert(self.uf.rootof(d) == prev.uf.rootof(d));
                    assert(self.classes@[prev.rootof(d)] == prev.classes@[prev.rootof(d)]);
                    assert(self.hashcons@[e] == prev.hashcons@[e]);
                    assert(self.entry_backed_at(e, k));
                } else {
                    assert(self.hashcons@[e] == (nd, idu));
                    assert(self.rootof(idu as int) == idu as int);
                    assert(self.entry_backed_at(e, 0));
                }
            }
            assert forall|c: int, k: int|
                0 <= c < self.n() && self.uf.is_root(c) && 0 <= k
                    < self.classes@[c].nodes@.len() implies #[trigger] self.member_ok(c, k) by {
                if c < prev.n() {
                    assert(self.uf.rootof(c) == prev.uf.rootof(c));
                    assert(prev.uf.is_root(c));
                    assert(prev.member_ok(c, k));
                    let ond = prev.classes@[c].nodes@[k];
                    assert(self.classes@[c].nodes@[k] == ond);
                    // the old lookup still answers for the old key
                    lemma_hc_find_push(prev.hashcons@, (nd, idu), node_key(ond), 0);
                    let d = choose|d: Id| prev.lookup(node_key(ond)) == Some(d);
                    assert(prev.lookup(node_key(ond)) == Some(d));
                    assert(prev.rootof(d as int) == c);
                    assert(self.lookup(node_key(ond)) == Some(d));
                    assert((d as int) < prev.n()) by {
                        let e = lemma_hc_find_some(prev.hashcons@, node_key(ond), 0);
                    }
                    assert(self.uf.rootof(d as int) == prev.uf.rootof(d as int));
                    assert(prev.node_wf(ond));
                    assert forall|j: int|
                        0 <= j < ond.children@.len() implies self.uf.is_root(
                        #[trigger] ond.children@[j] as int,
                    ) by {
                        let ch = ond.children@[j] as int;
                        assert(prev.node_canon(ond));
                        assert(prev.uf.is_root(ch));
                        assert(0 <= ch < prev.n());
                        assert(self.uf.rootof(ch) == prev.uf.rootof(ch));
                    }
                    assert(self.member_ok(c, k));
                } else {
                    assert(c == prev.n());
                    assert(node_key(self.classes@[c].nodes@[k]) == node_key(nd));
                    assert forall|j: int|
                        0 <= j < nd.children@.len() implies self.uf.is_root(
                        #[trigger] nd.children@[j] as int,
                    ) by {
                        let ch = nd.children@[j] as int;
                        assert(prev.uf.is_root(ch));
                        assert(0 <= ch < prev.n());
                        assert(self.uf.rootof(ch) == prev.uf.rootof(ch));
                    }
                    assert(self.member_ok(c, k));
                }
            }
        }
        assert(self.wf());
    }
}



impl<A: Analysis> EGraph<A> {
    /// The leaf for `v` already lives in class `d`: union `d` into `c`.
    fn fold_hit(&mut self, c: Id, d: Id, v: i64) -> (r: Result<(), EngineError>)
        requires
            old(self).wf(),
            (c as int) < old(self).n(),
            (d as int) < old(self).n(),
            old(self).classes@[old(self).rootof(c as int)].data == Some(v),
            old(self).has_leaf(d as int, v),
        ensures
            final(self).wf(),
            final(self).extends(*old(self)),
            final(self).analysis == old(self).analysis,
            final(self).n() == old(self).n(),
            final(self).pending@.len() >= old(self).pending@.len(),
            final(self).none_upto(final(self).n()) <= old(self).none_upto(old(self).n()),
            r is Ok ==> final(self).uf.nroots(final(self).n()) <= old(self).uf.nroots(old(self).n()),
            r matches Err(e) ==> e == EngineError::MergeConflict,
            r is Ok ==> final(self).has_leaf(c as int, v) && final(self).classes@[final(self).rootof(c as int)].data == Some(v),
    {
        let ghost g2 = *old(self);
        let res = self.union_core(c, d);
        match res {
            Ok(ok) => {
                proof {
                    let g3 = *self;
                    g3.lemma_has_leaf_extends(g2, d as int, v);
                    assert(g3.same(c as int, d as int));
                    assert(g3.rootof(c as int) == g3.rootof(d as int));
                    let k = choose|k: int| g3.has_leaf_at(d as int, v, k);
                    assert(g3.has_leaf_at(c as int, v, k));
                    if ok.0 {
                        assert(g3.classes@[ok.1 as int].data == data_join(
                            g2.classes@[g2.rootof(c as int)].data,
                            g2.classes@[g2.rootof(d as int)].data,
                        ));
                        assert(g3.rootof(c as int) == g3.rootof(ok.1 as int));
                        assert(g3.uf.is_root(ok.1 as int));
                        assert(g3.rootof(c as int) == ok.1 as int);
                    } else {
                        assert(g3.unchanged(g2));
                        assert(g3.rootof(c as int) == g2.rootof(c as int)) by {
                            g2.uf.lemma_rootof_prefix(g3.uf, g2.uf.n(), c as int);
                        }
                        g2.uf.lemma_nroots_prefix(g3.uf, g2.uf.n());
                    }
                }
                Ok(())
            },
            Err(e) => {
                proof {
                    assert(self.unchanged(g2));
                    g2.uf.lemma_nroots_prefix(self.uf, g2.uf.n());
                }
                Err(e)
            },
        }
    }

    /// No class holds a leaf for `v` yet: allocate one and union it into `c`.
    #[verifier::rlimit(40)]
    fn fold_miss(&mut self, c: Id, v: i64, h: usize) -> (r: Result<(), EngineError>)
        requires
            old(self).wf(),
            (c as int) < old(self).n(),
            old(self).classes@[old(self).rootof(c as int)].data == Some(v),
            (h as int) < old(self).interner.n(),
            old(self).interner.vals@[h as int] == v,
            old(self).lookup((Head::Leaf(h), Seq::<usize>::empty())) is None,
        ensures
            final(self).wf(),
            final(self).extends(*old(self)),
            final(self).analysis == old(self).analysis,
            final(self).n() == old(self).n() + 1,
            final(self).pending@.len() >= old(self).pending@.len(),
            final(self).none_upto(final(self).n()) <= old(self).none_upto(old(self).n()),
            r is Ok ==> final(self).uf.nroots(final(self).n()) <= old(self).uf.nroots(old(self).n()),
            r matches Err(e) ==> e == EngineError::MergeConflict,
            r is Ok ==> final(self).has_leaf(c as int, v) && final(self).classes@[final(self).rootof(c as int)].data == Some(v),
    {
        let ghost g2 = *old(self);
        let leaf = ENode { head: Head::Leaf(h), children: Vec::new() };
        proof {
            assert(leaf.children@ =~= Seq::<usize>::empty());
            assert(node_key(leaf) == (Head::Leaf(h), Seq::<usize>::empty()));
            assert(g2.lookup(node_key(leaf)) is None);
            assert(g2.node_wf(leaf));
            assert(g2.node_canon(leaf));
        }
        let id = self.classes.len();
        let mut ns: Vec<ENode> = Vec::new();
        ns.push(ENode { head: Head::Leaf(h), children: Vec::new() });
        proof {
            assert(ns@[0].head == leaf.head);
            assert(ns@[0].children@ =~= leaf.children@);
        }
        self.classes.push(EClass { nodes: ns, data: Some(v) });
        self.uf.push();
        self.hashcons.push((leaf, id));
        proof {
            self.lemma_new_class_restore(g2, leaf, id);
            assert(self.rootof(id as int) == id as int);
            assert(self.has_leaf_at(id as int, v, 0));
            // the fresh class carries a value, so no new valueless root
            assert forall|i: int| 0 <= i < g2.n() implies #[trigger] self.none_at(i) == g2.none_at(i) by {
                assert(self.uf.rootof(i) == g2.uf.rootof(i));
                assert(self.classes@[i] == g2.classes@[i]);
            }
            self.lemma_none_upto_same(g2, g2.n());
            assert(self.none_at(g2.n()) == 0);
            assert(self.none_upto(self.n()) == g2.none_upto(g2.n()));
        }
        let ghost g3 = *self;
        let res = self.union_core(c, id);
        match res {
            Ok(ok) => {
                proof {
                    let g4 = *self;
                    g4.lemma_has_leaf_extends(g3, id as int, v);
                    assert(g3.rootof(id as int) == id as int);
                    assert(g3.rootof(c as int) != id as int) by {
                        g3.uf.lemma_rootof_le(c as int);
                        g2.uf.lemma_rootof_le(c as int);
                        assert(g3.uf.rootof(c as int) == g2.uf.rootof(c as int));
                    }
                    assert(ok.0);
                    assert(g4.rootof(c as int) == g4.rootof(id as int));
                    let k = choose|k: int| g4.has_leaf_at(id as int, v, k);
                    assert(g4.has_leaf_at(c as int, v, k));
                    assert(g3.classes@[g3.rootof(c as int)].data == Some(v)) by {
                        assert(g3.rootof(c as int) == g2.rootof(c as int));
                        assert(g3.classes@[g2.rootof(c as int)] == g2.classes@[g2.rootof(
                            c as int,
                        )]) by {
                            g2.uf.lemma_rootof_le(c as int);
                        }
                    }
                    assert(g4.classes@[ok.1 as int].data == Some(v));
                    assert(g4.rootof(c as int) == ok.1 as int) by {
                        assert(g4.uf.is_root(ok.1 as int));
                    }
                    g4.lemma_extends_trans(g3, g2);
                    assert(g3.uf.nroots(g3.n()) == g2.uf.nroots(g2.n()) + 1);
                    assert(g4.uf.nroots(g4.n()) == g3.uf.nroots(g3.n()) - 1);
                }
                Ok(())
            },
            Err(e) => {
                proof {
                    self.lemma_extends_trans(g3, g2);
                    assert(self.unchanged(g3));
                    g3.uf.lemma_nroots_prefix(self.uf, g3.uf.n());
                }
                Err(e)
            },
        }
    }

    /// After a class's analysis value became the known `v`, fold that value
    /// back into the graph: intern `v`, make sure a leaf node for it exists,
    /// and union its class with `c`.  This is how concrete results computed
    /// by the analysis become member terms of their class.
    fn do_fold(&mut self, c: Id, v: i64) -> (r: Result<(), EngineError>)
        requires
            old(self).wf(),
            (c as int) < old(self).n(),
            old(self).classes@[old(self).rootof(c as int)].data == Some(v),
        ensures
            final(self).wf(),
            final(self).extends(*old(self)),
            final(self).analysis == old(self).analysis,
            old(self).n() <= final(self).n() <= old(self).n() + 1,
            final(self).pending@.len() >= old(self).pending@.len(),
            final(self).none_upto(final(self).n()) <= old(self).none_upto(old(self).n()),
            r is Ok ==> final(self).uf.nroots(final(self).n()) <= old(self).uf.nroots(old(self).n()),
            r matches Err(e) ==> e == EngineError::MergeConflict,
            r is Ok ==> final(self).has_leaf(c as int, v) && final(self).classes@[final(self).rootof(c as int)].data == Some(v),
    {
        let rc = self.uf.find(c);
        self.pending.push(rc);
        let ghost g1 = *self;
        proof {
            g1.lemma_same_but(*old(self));
            old(self).uf.lemma_nroots_prefix(g1.uf, old(self).uf.n());
            assert forall|i: int| 0 <= i < g1.n() implies #[trigger] g1.none_at(i) == old(self).none_at(i) by {}
            g1.lemma_none_upto_same(*old(self), g1.n());
        }
        let h = self.interner.intern(v);
        let ghost g2 = *self;
        proof {
            g2.lemma_same_but(g1);
            g2.lemma_extends_trans(g1, *old(self));
            g1.uf.lemma_nroots_prefix(g2.uf, g1.uf.n());
            assert(g2.rootof(c as int) == old(self).rootof(c as int)) by {
                g2.uf.lemma_rootof_prefix(old(self).uf, g2.uf.n(), c as int);
            }
            assert forall|i: int| 0 <= i < g2.n() implies #[trigger] g2.none_at(i) == g1.none_at(i) by {}
            g2.lemma_none_upto_same(g1, g2.n());
        }
        let probe = ENode { head: Head::Leaf(h), children: Vec::new() };
        let found = self.hc_get(&probe);
        let res = match found {
            Some(d) => {
                proof {
                    // the hashcons is backed: class `d` holds a leaf for `v`
                    assert(probe.children@ =~= Seq::<usize>::empty());
                    let e = lemma_hc_find_some(g2.hashcons@, node_key(probe), 0);
                    assert(g2.has_node(g2.hashcons@[e].0, d as int));
                    let k = choose|k: int| g2.has_node_at(g2.hashcons@[e].0, d as int, k);
                    assert(g2.hashcons@[e].0.head == Head::Leaf(h));
                    assert(g2.has_leaf_at(d as int, v, k));
                    assert(g2.has_leaf(d as int, v));
                }
                self.fold_hit(c, d, v)
            },
            None => {
                proof {
                    assert(probe.children@ =~= Seq::<usize>::empty());
                    assert(node_key(probe) == (Head::Leaf(h), Seq::<usize>::empty()));
                }
                self.fold_miss(c, v, h)
            },
        };
        proof {
            self.lemma_extends_trans(g2, *old(self));
        }
        res
    }
}


impl<A: Analysis> EGraph<A> {
    /// Whether this analysis can never learn anything.
    pub open spec fn inert(self) -> bool {
        forall|hd: EvalHead, cs: Seq<i64>| self.analysis.eval_spec(hd, cs) is None
    }

    /// Allocate a fresh class for a canonical node the hashcons does not know.
    fn alloc_node(&mut self, c_nd: ENode, data: Option<i64>) -> (id: Id)
        requires
            old(self).wf(),
            old(self).node_wf(c_nd),
            old(self).node_canon(c_nd),
            old(self).lookup(node_key(c_nd)) is None,
        ensures
            final(self).wf(),
            final(self).extends(*old(self)),
            final(self).analysis == old(self).analysis,
            final(self).n() == old(self).n() + 1,
            id as int == old(self).n(),
            final(self).uf.is_root(id as int),
            final(self).has_node(c_nd, id as int),
            final(self).classes@[id as int].data == data,
            final(self).classes@[id as int].nodes@.len() == 1,
            final(self).pending@ == old(self).pending@,
            final(self).interner.vals@ == old(self).interner.vals@,
            forall|c: int|
                0 <= c < old(self).n() ==> #[trigger] final(self).classes@[c] == old(
                    self,
                ).classes@[c],
            forall|i: int|
                0 <= i < old(self).n() ==> #[trigger] final(self).uf.rootof(i) == old(
                    self,
                ).uf.rootof(i),
            final(self).lookup(node_key(c_nd)) == Some(id),
            final(self).uf.nroots(final(self).n()) == old(self).uf.nroots(old(self).n()) + 1,
    {
        let ghost g0 = *old(self);
        let id = self.classes.len();
        let kc = c_nd.children.clone();
        proof {
            assert(kc@ =~= c_nd.children@);
        }
        let key_node = ENode { head: c_nd.head, children: kc };
        let mut ns: Vec<ENode> = Vec::new();
        ns.push(c_nd);
        self.classes.push(EClass { nodes: ns, data });
        self.uf.push();
        self.hashcons.push((key_node, id));
        proof {
            assert(node_key(key_node) == node_key(ns@[0])) by {
                assert(key_node.children@ == ns@[0].children@);
            }
            self.lemma_new_class_restore(g0, key_node, id);
            // the class's own copy of the node matches too
            let cn = self.classes@[id as int].nodes@[0];
            assert(cn.children@ == key_node.children@);
            assert forall|j: int| 0 <= j < key_node.children@.len() implies self.same(
                #[trigger] key_node.children@[j] as int,
                cn.children@[j] as int,
            ) by {}
            assert(self.has_node_at(key_node, id as int, 0));
            assert(self.has_node_at(c_nd, id as int, 0));
        }
        id
    }

    /// Add one node: canonicalize it, return the existing class on a
    /// hashcons hit, or allocate a class, compute its analysis value and
    /// fold a known value back in.
    #[verifier::spinoff_prover]
    #[verifier::rlimit(60)]
    fn add_node(&mut self, nd: ENode) -> (r: Result<Id, EngineError>)
        requires
            old(self).wf(),
            old(self).node_wf(nd),
        ensures
            final(self).wf(),
            final(self).extends(*old(self)),
            final(self).analysis == old(self).analysis,
            old(self).n() <= final(self).n() <= old(self).n() + 2,
            r matches Ok(id) ==> (id as int) < final(self).n() && final(self).uf.is_root(id as int)
                && final(self).has_node(nd, id as int),
            r matches Err(e) ==> e == EngineError::MergeConflict,
            old(self).lookup(old(self).canon_key(nd)) matches Some(d) ==> final(self).unchanged(
                *old(self),
            ) && (r matches Ok(id2) && id2 as int == old(self).rootof(d as int)),
            old(self).inert() && old(self).datafree() ==> r is Ok && final(self).datafree()
                && final(self).pending@ == old(self).pending@ && final(self).n() <= old(self).n()
                + 1 && final(self).merged_count() == old(self).merged_count() && (old(
                self,
            ).unmerged() ==> final(self).unmerged()) && (forall|i: int, j: int|
                0 <= i < old(self).n() && 0 <= j < old(self).n() ==> (#[trigger] final(self).same(
                    i,
                    j,
                ) <==> old(self).same(i, j))),
    {
        let c_nd = self.canonicalize(&nd);
        let found = self.hc_get(&c_nd);
        match found {
            Some(d) => {
                let rid = self.uf.find(d);
                proof {
                    self.lemma_unchanged_extends(*old(self));
                    // the hashcons entry is backed by a member of `d`'s class
                    let e = lemma_hc_find_some(self.hashcons@, node_key(c_nd), 0);
                    let en = self.hashcons@[e].0;
                    assert(self.has_node(en, d as int));
                    let k = choose|k: int| self.has_node_at(en, d as int, k);
                    let nd3 = self.classes@[self.rootof(d as int)].nodes@[k];
                    assert(en.children@ == c_nd.children@);
                    assert forall|j: int| 0 <= j < nd.children@.len() implies self.same(
                        #[trigger] nd.children@[j] as int,
                        nd3.children@[j] as int,
                    ) by {
                        assert(self.same(nd.children@[j] as int, c_nd.children@[j] as int));
                        assert(self.same(en.children@[j] as int, nd3.children@[j] as int));
                    }
                    assert(self.has_node_at(nd, d as int, k));
                    self.uf.lemma_rootof_idem(d as int);
                    assert(self.rootof(rid as int) == self.rootof(d as int));
                    assert(self.has_node_at(nd, rid as int, k));
                    old(self).uf.lemma_nroots_prefix(self.uf, old(self).uf.n());
                }
                Ok(rid)
            },
            None => {
                // compute the analysis value from the children's values
                let m = c_nd.children.len();
                let mut vals: Vec<i64> = Vec::new();
                let mut all = true;
                let mut j: usize = 0;
                while j < m
                    invariant
                        self.wf(),
                        self.node_wf(c_nd),
                        m == c_nd.children@.len(),
                        j <= m,
                    decreases m - j,
                {
                    proof {
                        assert((c_nd.children@[j as int] as int) < self.n()) by {
                            match c_nd.head {
                                Head::Leaf(_) => {
                                    assert(false);
                                },
                                Head::Op(_) => {},
                            }
                        }
                    }
                    match self.classes[c_nd.children[j]].data {
                        Some(x) => {
                            vals.push(x);
                        },
                        None => {
                            all = false;
                        },
                    }
                    j = j + 1;
                }
                let eh = match c_nd.head {
                    Head::Op(op) => EvalHead::Op(op),
                    Head::Leaf(hh) => EvalHead::Leaf(self.interner.value(hh)),
                };
                let data = if all {
                    self.analysis.eval(eh, &vals)
                } else {
                    None
                };
                let ghost g1 = *self;
                let id = self.alloc_node(c_nd, data);
                let ghost g2 = *self;
                proof {
                    assert(g2.has_node(nd, id as int)) by {
                        let k = choose|k: int| g2.has_node_at(c_nd, id as int, k);
                        assert forall|jj: int|
                            0 <= jj < nd.children@.len() implies g2.same(
                            #[trigger] nd.children@[jj] as int,
                            g2.classes@[g2.rootof(id as int)].nodes@[k].children@[jj] as int,
                        ) by {
                            assert(g1.same(nd.children@[jj] as int, c_nd.children@[jj] as int));
                            assert(g2.same(nd.children@[jj] as int, c_nd.children@[jj] as int));
                            assert(g2.same(
                                c_nd.children@[jj] as int,
                                g2.classes@[g2.rootof(id as int)].nodes@[k].children@[jj] as int,
                            ));
                        }
                        assert(g2.has_node_at(nd, id as int, k));
                    }
                }
                match data {
                    Some(v) => {
                        proof {
                            assert(g2.rootof(id as int) == id as int);
                            assert(g2.classes@[id as int].data == Some(v));
                        }
                        match self.do_fold(id, v) {
                            Ok(()) => {
                                proof {
                                    let g3 = *self;
                                    g3.lemma_extends_trans(g2, g1);
                                    g3.lemma_has_node_extends(g2, nd, id as int);
                                    assert(g3.uf.is_root(g3.rootof(id as int))) by {
                                        g3.uf.lemma_rootof_idem(id as int);
                                    }
                                }
                                let rid = self.uf.find(id);
                                proof {
                                    let g3 = *self;
                                    let k = choose|k: int| g3.has_node_at(nd, id as int, k);
                                    assert(g3.has_node_at(nd, rid as int, k)) by {
                                        g3.uf.lemma_rootof_idem(id as int);
                                    }
                                }
                                Ok(rid)
                            },
                            Err(e) => {
                                proof {
                                    self.lemma_extends_trans(g2, g1);
                                }
                                Err(e)
                            },
                        }
                    },
                    None => Ok(id),
                }
            },
        }
    }
}


impl<A> EGraph<A> {
    /// Member node `k` of `c`'s class realizes the operator node at `i`:
    /// same operator, and each child class realizes the corresponding
    /// child subterm.
    pub open spec fn op_node_at(
        self,
        s: Seq<crate::term::TermNode>,
        i: int,
        c: int,
        op: u64,
        cs: Seq<usize>,
        k: int,
    ) -> bool
        decreases i, 1int,
    {
        self.op_shape_at(c, op, cs.len() as int, k) && self.op_children_rep(s, i, c, cs, k)
    }

    /// Member node `k` of `c`'s class has the right shape for an operator
    /// node: the operator itself and the number of children.
    pub open spec fn op_shape_at(self, c: int, op: u64, arity: int, k: int) -> bool {
        &&& 0 <= k < self.classes@[self.rootof(c)].nodes@.len()
        &&& self.classes@[self.rootof(c)].nodes@[k].head == Head::Op(op)
        &&& self.classes@[self.rootof(c)].nodes@[k].children@.len() == arity
    }

    /// The children of member node `k` realize the child subterms `cs`.
    pub open spec fn op_children_rep(
        self,
        s: Seq<crate::term::TermNode>,
        i: int,
        c: int,
        cs: Seq<usize>,
        k: int,
    ) -> bool
        decreases i, 0int,
    {
        forall|j: int|
            0 <= j < cs.len() ==> (#[trigger] cs[j] as int) < i && self.node_represents(
                s,
                cs[j] as int,
                self.classes@[self.rootof(c)].nodes@[k].children@[j] as int,
            )
    }

    /// The class `c` realizes the term rooted at index `i` of the flat
    /// expression `s`: some member node has the right shape and its child
    /// classes realize the child subterms.  A reference node is realized by
    /// any class equivalent to the referenced one.
    /// Some member node of `c`'s class realizes the operator node at `i`.
    pub open spec fn has_op_node(
        self,
        s: Seq<crate::term::TermNode>,
        i: int,
        c: int,
        op: u64,
        cs: Seq<usize>,
    ) -> bool
        decreases i, 2int,
    {
        exists|k: int|
            #[trigger] self.op_shape_at(c, op, cs.len() as int, k) && self.op_children_rep(
                s,
                i,
                c,
                cs,
                k,
            )
    }

    pub open spec fn node_represents(self, s: Seq<crate::term::TermNode>, i: int, c: int) -> bool
        decreases i, 3int,
    {
        &&& 0 <= i < s.len()
        &&& 0 <= c < self.n()
        &&& match s[i] {
            crate::term::TermNode::Ref(d) => (d as int) < self.n() && self.same(d as int, c),
            crate::term::TermNode::Var(_) => false,
            crate::term::TermNode::Leaf(v) => self.has_leaf(c, v),
            crate::term::TermNode::Op(op, cs) => self.has_op_node(s, i, c, op, cs@),
        }
    }

    /// The expression `e` as a whole (rooted at its last node) is realized
    /// by class `c`.
    pub open spec fn represents(self, e: crate::term::Expr, c: int) -> bool {
        self.node_represents(e.nodes@, e.nodes@.len() - 1, c)
    }

    /// Realization only depends on the class, not the id naming it.
    pub proof fn lemma_represents_same(
        self,
        s: Seq<crate::term::TermNode>,
        i: int,
        c: int,
        c2: int,
    )
        requires
            self.node_represents(s, i, c),
            self.rootof(c) == self.rootof(c2),
            0 <= c2 < self.n(),
        ensures
            self.node_represents(s, i, c2),
    {
        assert(0 <= i < s.len());
        assert(0 <= c < self.n());
        match s[i] {
            crate::term::TermNode::Leaf(v) => {
                let k = choose|k: int| self.has_leaf_at(c, v, k);
                assert(self.has_leaf_at(c2, v, k));
            },
            crate::term::TermNode::Op(op, cs) => {
                assert(self.has_op_node(s, i, c, op, cs@));
                let k = choose|k: int|
                    #[trigger] self.op_shape_at(c, op, cs@.len() as int, k)
                        && self.op_children_rep(s, i, c, cs@, k);
                assert(self.op_shape_at(c2, op, cs@.len() as int, k));
                assert(self.op_children_rep(s, i, c2, cs@, k)) by {
                    assert forall|j: int| 0 <= j < cs@.len() implies (#[trigger] cs@[j] as int) < i
                        && self.node_represents(
                        s,
                        cs@[j] as int,
                        self.classes@[self.rootof(c2)].nodes@[k].children@[j] as int,
                    ) by {
                        assert(self.node_represents(
                            s,
                            cs@[j] as int,
                            self.classes@[self.rootof(c)].nodes@[k].children@[j] as int,
                        ));
                    }
                }
                assert(self.has_op_node(s, i, c2, op, cs@));
            },
            _ => {},
        }
    }

    /// Whatever a class realized, it keeps realizing in any extension.
    pub proof fn lemma_represents_extends(
        self,
        prev: EGraph<A>,
        s: Seq<crate::term::TermNode>,
        i: int,
        c: int,
    )
        requires
            prev.wf(),
            self.wf(),
            self.extends(prev),
            prev.node_represents(s, i, c),
        ensures
            self.node_represents(s, i, c),
        decreases i,
    {
        match s[i] {
            crate::term::TermNode::Ref(d) => {},
            crate::term::TermNode::Var(_) => {},
            crate::term::TermNode::Leaf(v) => {
                self.lemma_has_leaf_extends(prev, c, v);
            },
            crate::term::TermNode::Op(op, cs) => {
                assert(prev.has_op_node(s, i, c, op, cs@));
                let k = choose|k: int|
                    #[trigger] prev.op_shape_at(c, op, cs@.len() as int, k)
                        && prev.op_children_rep(s, i, c, cs@, k);
                let pr = prev.rootof(c);
                prev.uf.lemma_rootof_le(c);
                prev.uf.lemma_rootof_idem(c);
                let nd = prev.classes@[pr].nodes@[k];
                assert(prev.uf.is_root(pr));
                assert(self.has_node(nd, pr));
                let k3 = choose|k3: int| self.has_node_at(nd, pr, k3);
                let fr = self.rootof(pr);
                let nd3 = self.classes@[fr].nodes@[k3];
                assert(prev.same(c, pr));
                assert(self.same(c, pr));
                assert(self.rootof(c) == fr);
                assert(prev.node_wf(nd));
                assert(self.node_wf(nd3)) by {
                    self.uf.lemma_rootof_le(pr);
                }
                assert forall|j: int| 0 <= j < cs@.len() implies (#[trigger] cs@[j] as int) < i
                    && self.node_represents(s, cs@[j] as int, nd3.children@[j] as int) by {
                    assert(prev.node_represents(s, cs@[j] as int, nd.children@[j] as int));
                    self.lemma_represents_extends(prev, s, cs@[j] as int, nd.children@[j] as int);
                    assert(self.same(nd.children@[j] as int, nd3.children@[j] as int));
                    self.lemma_represents_same(
                        s,
                        cs@[j] as int,
                        nd.children@[j] as int,
                        nd3.children@[j] as int,
                    );
                }
                assert(self.op_shape_at(c, op, cs@.len() as int, k3));
                assert(self.op_children_rep(s, i, c, cs@, k3));
                assert(self.has_op_node(s, i, c, op, cs@));
            },
        }
    }
}


impl<A: Analysis> EGraph<A> {
    /// Union the classes of two ids.  Returns whether they were distinct;
    /// on a merge that produced a known analysis value, folds it back in.
    pub fn union_ids(&mut self, a: Id, b: Id) -> (r: Result<bool, EngineError>)
        requires
            old(self).wf(),
            (a as int) < old(self).n(),
            (b as int) < old(self).n(),
        ensures
            final(self).wf(),
            final(self).extends(*old(self)),
            final(self).analysis == old(self).analysis,
            final(self).n() <= old(self).n() + 1,
            r matches Err(e) ==> e == EngineError::MergeConflict && !old(self).same(
                a as int,
                b as int,
            ),
            r matches Ok(ch) ==> ch == !old(self).same(a as int, b as int) && final(self).same(
                a as int,
                b as int,
            ) && (!ch ==> final(self).unchanged(*old(self))),
            r matches Ok(chx) && chx ==> final(self).uf.nroots(final(self).n()) < old(self).uf.nroots(old(self).n()) && final(self).pending@.len() > 0,
            final(self).none_upto(final(self).n()) <= old(self).none_upto(old(self).n()),
            old(self).datafree() ==> (r matches Ok(ch3) ==> final(self).merged_count() == old(self).merged_count() + (if ch3 { 1int } else { 0int })),
            old(self).datafree() ==> final(self).datafree() && r is Ok && final(self).n() == old(
                self,
            ).n(),
    {
        let ghost g0 = *old(self);
        let res = self.union_core(a, b);
        match res {
            Err(e) => Err(e),
            Ok((changed, w, fold)) => {
                let ghost g1 = *self;
                match fold {
                    Some(v) => {
                        proof {
                            assert(g1.rootof(w as int) == w as int);
                        }
                        match self.do_fold(w, v) {
                            Ok(()) => {
                                proof {
                                    self.lemma_extends_trans(g1, g0);
                                    assert(self.same(a as int, b as int)) by {
                                        assert(g1.same(a as int, b as int));
                                    }
                                }
                                Ok(changed)
                            },
                            Err(e) => {
                                proof {
                                    self.lemma_extends_trans(g1, g0);
                                }
                                Err(e)
                            },
                        }
                    },
                    None => {
                        proof {
                            if !changed {
                                assert(self.unchanged(*old(self)));
                                old(self).uf.lemma_nroots_prefix(self.uf, old(self).uf.n());
                            }
                        }
                        Ok(changed)
                    },
                }
            },
        }
    }

    /// Add a leaf node for the value `v`, interning it first.
    fn add_leaf(&mut self, v: i64) -> (r: Result<Id, EngineError>)
        requires
            old(self).wf(),
        ensures
            final(self).wf(),
            final(self).extends(*old(self)),
            final(self).analysis == old(self).analysis,
            r matches Ok(id) ==> (id as int) < final(self).n() && final(self).uf.is_root(id as int)
                && final(self).has_leaf(id as int, v),
            r matches Err(e) ==> e == EngineError::MergeConflict,
            old(self).inert() && old(self).datafree() ==> r is Ok && final(self).datafree()
                && final(self).pending@ == old(self).pending@ && final(self).merged_count() == old(self).merged_count() && (old(self).unmerged() ==> final(self).unmerged()) && (forall|i: int, j: int|
                0 <= i < old(self).n() && 0 <= j < old(self).n() ==> (#[trigger] final(self).same(
                    i,
                    j,
                ) <==> old(self).same(i, j))),
    {
        let ghost g0 = *old(self);
        let h = self.interner.intern(v);
        let ghost g1 = *self;
        proof {
            g1.lemma_same_but(g0);
        }
        let nd = ENode { head: Head::Leaf(h), children: Vec::new() };
        let res = self.add_node(nd);
        match res {
            Ok(id) => {
                proof {
                    let g2 = *self;
                    g2.lemma_extends_trans(g1, g0);
                    let k = choose|k: int| g2.has_node_at(nd, id as int, k);
                    assert(g2.classes@[g2.rootof(id as int)].nodes@[k].head == Head::Leaf(h));
                    assert(g2.interner.vals@[h as int] == v);
                    assert(g2.has_leaf_at(id as int, v, k));
                }
                Ok(id)
            },
            Err(e) => {
                proof {
                    self.lemma_extends_trans(g1, g0);
                }
                Err(e)
            },
        }
    }

    /// Add an operator node over already-built child classes.
    fn add_op(&mut self, op: u64, children: Vec<Id>) -> (r: Result<Id, EngineError>)
        requires
            old(self).wf(),
            forall|j: int|
                0 <= j < children@.len() ==> (#[trigger] children@[j] as int) < old(self).n(),
        ensures
            final(self).wf(),
            final(self).extends(*old(self)),
            final(self).analysis == old(self).analysis,
            r matches Ok(id) ==> (id as int) < final(self).n() && final(self).uf.is_root(id as int)
                && final(self).has_op_like(op, children@, id as int),
            r matches Err(e) ==> e == EngineError::MergeConflict,
            old(self).inert() && old(self).datafree() ==> r is Ok && final(self).datafree()
                && final(self).pending@ == old(self).pending@ && final(self).merged_count() == old(self).merged_count() && (old(self).unmerged() ==> final(self).unmerged()) && (forall|i: int, j: int|
                0 <= i < old(self).n() && 0 <= j < old(self).n() ==> (#[trigger] final(self).same(
                    i,
                    j,
                ) <==> old(self).same(i, j))),
    {
        let ghost cseq = children@;
        let nd = ENode { head: Head::Op(op), children };
        let res = self.add_node(nd);
        match res {
            Ok(id) => {
                proof {
                    let g2 = *self;
                    let k = choose|k: int| g2.has_node_at(nd, id as int, k);
                    assert(g2.op_shape_at(id as int, op, cseq.len() as int, k));
                    assert(g2.has_op_like(op, cseq, id as int));
                }
                Ok(id)
            },
            Err(e) => Err(e),
        }
    }
}


/// Node `i` of a flat expression is admissible for a graph with `n` classes:
/// no pattern variable, references in range, children pointing backwards.
pub open spec fn node_ok_at(s: Seq<crate::term::TermNode>, i: int, n: int) -> bool {
    match s[i] {
        crate::term::TermNode::Ref(d) => (d as int) < n,
        crate::term::TermNode::Var(_) => false,
        crate::term::TermNode::Leaf(_) => true,
        crate::term::TermNode::Op(_, cs) => forall|j: int|
            0 <= j < cs@.len() ==> (#[trigger] cs@[j] as int) < i,
    }
}

/// A flat expression `add` accepts: non-empty, and every node admissible.
pub open spec fn expr_ok(s: Seq<crate::term::TermNode>, n: int) -> bool {
    s.len() > 0 && forall|i: int| 0 <= i < s.len() ==> #[trigger] node_ok_at(s, i, n)
}

/// Admissibility only relaxes as the graph grows.
pub proof fn lemma_expr_ok_mono(s: Seq<crate::term::TermNode>, n1: int, n2: int)
    requires
        expr_ok(s, n1),
        n1 <= n2,
    ensures
        expr_ok(s, n2),
{
    assert forall|i: int| 0 <= i < s.len() implies #[trigger] node_ok_at(s, i, n2) by {
        assert(node_ok_at(s, i, n1));
    }
}

/// Validate an expression against a graph of `n` classes, reporting the
/// kind of the first offence.
fn check_expr(e: &crate::term::Expr, n: usize) -> (r: Result<(), EngineError>)
    ensures
        r is Ok <==> expr_ok(e.nodes@, n as int),
        r == Err::<(), EngineError>(EngineError::EmptyExpr) <==> e.nodes@.len() == 0,
        r matches Err(err) ==> (err == EngineError::EmptyExpr || err == EngineError::VarInTerm
            || err == EngineError::UnknownId || err == EngineError::MalformedExpr),
        r == Err::<(), EngineError>(EngineError::VarInTerm) ==> exists|i: int|
            0 <= i < e.nodes@.len() && (#[trigger] e.nodes@[i]) is Var,
        r == Err::<(), EngineError>(EngineError::UnknownId) ==> exists|i: int|
            0 <= i < e.nodes@.len() && ((#[trigger] e.nodes@[i]) matches crate::term::TermNode::Ref(
                d,
            ) && (d as int) >= n as int),
        r == Err::<(), EngineError>(EngineError::MalformedExpr) ==> exists|i: int|
            0 <= i < e.nodes@.len() && !(#[trigger] crate::term::node_wf_at(e.nodes@, i))
            && e.nodes@[i] is Op,
{
    let m = e.nodes.len();
    if m == 0 {
        return Err(EngineError::EmptyExpr);
    }
    let mut i: usize = 0;
    while i < m
        invariant
            m == e.nodes@.len(),
            i <= m,
            forall|ii: int| 0 <= ii < i as int ==> #[trigger] node_ok_at(e.nodes@, ii, n as int),
        decreases m - i,
    {
        match &e.nodes[i] {
            crate::term::TermNode::Ref(d) => {
                if !(*d < n) {
                    proof {
                        assert(!node_ok_at(e.nodes@, i as int, n as int));
                    }
                    return Err(EngineError::UnknownId);
                }
            },
            crate::term::TermNode::Var(_) => {
                proof {
                    assert(!node_ok_at(e.nodes@, i as int, n as int));
                }
                return Err(EngineError::VarInTerm);
            },
            crate::term::TermNode::Leaf(_) => {},
            crate::term::TermNode::Op(_, cs) => {
                let ghost gnode = e.nodes@[i as int];
                proof {
                    assert(gnode matches crate::term::TermNode::Op(o2, cs2) && cs2@ == cs@);
                }
                let mc = cs.len();
                let mut j: usize = 0;
                while j < mc
                    invariant
                        0 <= (i as int) && (i as int) < e.nodes@.len(),
                        e.nodes@[i as int] matches crate::term::TermNode::Op(o2, cs2) && cs2@
                            == cs@,
                        mc == cs@.len(),
                        j <= mc,
                        forall|jj: int| 0 <= jj < j as int ==> (#[trigger] cs@[jj] as int) < i as int,
                    decreases mc - j,
                {
                    if !(cs[j] < i) {
                        proof {
                            assert(!((cs@[j as int] as int) < i as int));
                            assert(!node_ok_at(e.nodes@, i as int, n as int));
                            assert(!crate::term::node_wf_at(e.nodes@, i as int));
                            assert(e.nodes@[i as int] is Op);
                        }
                        return Err(EngineError::MalformedExpr);
                    }
                    j = j + 1;
                }
            },
        }
        proof {
            assert(node_ok_at(e.nodes@, i as int, n as int));
        }
        i = i + 1;
    }
    Ok(())
}

impl<A: Analysis> EGraph<A> {
    /// Add a term to the graph, returning the id of the class that realizes
    /// it.  Reference nodes resolve to their class; pattern variables are a
    /// usage error and leave the graph untouched.
    pub fn add(&mut self, e: &crate::term::Expr) -> (r: Result<Id, EngineError>)
        requires
            old(self).wf(),
        ensures
            final(self).wf(),
            final(self).extends(*old(self)),
            final(self).analysis == old(self).analysis,
            r matches Ok(id) ==> (id as int) < final(self).n() && final(self).uf.is_root(id as int)
                && final(self).represents(*e, id as int),
            !expr_ok(e.nodes@, old(self).n()) ==> final(self).unchanged(*old(self)) && r is Err,
            r matches Err(err) ==> if expr_ok(e.nodes@, old(self).n()) {
                err == EngineError::MergeConflict
            } else {
                err == EngineError::EmptyExpr || err == EngineError::VarInTerm || err
                    == EngineError::UnknownId || err == EngineError::MalformedExpr
            },
            r == Err::<Id, EngineError>(EngineError::EmptyExpr) <==> e.nodes@.len() == 0,
            r == Err::<Id, EngineError>(EngineError::VarInTerm) ==> exists|i: int|
                0 <= i < e.nodes@.len() && (#[trigger] e.nodes@[i]) is Var,
            r == Err::<Id, EngineError>(EngineError::UnknownId) ==> exists|i: int|
                0 <= i < e.nodes@.len() && ((#[trigger] e.nodes@[i])
                    matches crate::term::TermNode::Ref(d) && (d as int) >= old(self).n()),
            r == Err::<Id, EngineError>(EngineError::MalformedExpr) ==> exists|i: int|
                0 <= i < e.nodes@.len() && !(#[trigger] crate::term::node_wf_at(e.nodes@, i))
                && e.nodes@[i] is Op,
            // a bare reference resolves to its class and touches nothing
            e.nodes@.len() == 1 && e.nodes@[0] is Ref ==> final(self).unchanged(*old(self)),
            expr_ok(e.nodes@, old(self).n()) && (forall|i: int|
                0 <= i < e.nodes@.len() ==> (#[trigger] e.nodes@[i]) is Ref) ==> r is Ok,
            e.nodes@.len() == 1 ==> (e.nodes@[0] matches crate::term::TermNode::Ref(d) ==> (r
                matches Ok(id) ==> id as int == old(self).rootof(d as int))),
            old(self).inert() && old(self).datafree() ==> final(self).datafree() && (expr_ok(
                e.nodes@,
                old(self).n(),
            ) ==> r is Ok) && final(self).pending@ == old(self).pending@ && final(self).merged_count() == old(self).merged_count() && (old(self).unmerged()
                ==> final(self).unmerged()) && (forall|i: int, j: int|
                0 <= i < old(self).n() && 0 <= j < old(self).n() ==> (#[trigger] final(self).same(
                    i,
                    j,
                ) <==> old(self).same(i, j))),
    {
        let ghost g0 = *old(self);
        let ghost s = e.nodes@;
        match check_expr(e, self.classes.len()) {
            Err(err) => {
                proof {
                    self.lemma_unchanged_extends(g0);
                }
                return Err(err);
            },
            Ok(()) => {},
        }
        proof {
            self.lemma_extends_refl();
        }
        let m = e.nodes.len();
        let mut ids: Vec<Id> = Vec::new();
        let mut i: usize = 0;
        while i < m
            invariant
                g0 == *old(self),
                s == e.nodes@,
                self.wf(),
                self.extends(g0),
                g0.wf(),
                self.analysis == g0.analysis,
                m == s.len(),
                s == e.nodes@,
                expr_ok(s, g0.n()),
                i <= m,
                ids@.len() == i as int,
                g0.n() <= self.n(),
                forall|jj: int|
                    0 <= jj < i as int ==> (#[trigger] ids@[jj] as int) < self.n()
                        && self.node_represents(s, jj, ids@[jj] as int),
                g0.inert() && g0.datafree() ==> self.datafree() && self.pending@ == g0.pending@
                    && self.merged_count() == g0.merged_count() && (
                g0.unmerged() ==> self.unmerged()) && (forall|a: int, b: int|
                    0 <= a < g0.n() && 0 <= b < g0.n() ==> (#[trigger] self.same(a, b) <==> g0.same(
                        a,
                        b,
                    ))),
                (forall|ii: int| 0 <= ii < m ==> (#[trigger] s[ii]) is Ref) ==> self.unchanged(g0),
                m == 1 && i as int == 1 ==> (s[0] matches crate::term::TermNode::Ref(dd)
                    ==> ids@[0] as int == self.rootof(dd as int)),
            decreases m - i,
        {
            let ghost gpre = *self;
            proof {
                assert(node_ok_at(s, i as int, g0.n()));
            }
            let id2: Id = match &e.nodes[i] {
                crate::term::TermNode::Ref(d) => {
                    let rid = self.find(*d);
                    proof {
                        self.lemma_extends_refl();
                        assert(self.node_represents(s, i as int, rid as int)) by {
                            self.uf.lemma_rootof_idem(*d as int);
                        }
                    }
                    rid
                },
                crate::term::TermNode::Var(_) => {
                    proof {
                        assert(false);
                    }
                    return Err(EngineError::VarInTerm);
                },
                crate::term::TermNode::Leaf(v) => {
                    let res = self.add_leaf(*v);
                    match res {
                        Ok(id2) => {
                            proof {
                                assert(self.node_represents(s, i as int, id2 as int));
                            }
                            id2
                        },
                        Err(err) => {
                            proof {
                                self.lemma_extends_trans(gpre, g0);
                            }
                            return Err(err);
                        },
                    }
                },
                crate::term::TermNode::Op(op, cs) => {
                    let mc = cs.len();
                    let mut ch: Vec<Id> = Vec::new();
                    let mut j: usize = 0;
                    while j < mc
                        invariant
                            mc == cs@.len(),
                            j <= mc,
                            ch@.len() == j as int,
                            i < m,
                            m == s.len(),
                            ids@.len() == i as int,
                            forall|jj: int| 0 <= jj < mc ==> (#[trigger] cs@[jj] as int) < i as int,
                            forall|jj: int|
                                0 <= jj < j as int ==> #[trigger] ch@[jj] == ids@[cs@[jj] as int],
                        decreases mc - j,
                    {
                        let cid = ids[cs[j]];
                        ch.push(cid);
                        j = j + 1;
                    }
                    let ghost chseq = ch@;
                    proof {
                        assert forall|jj: int| 0 <= jj < chseq.len() implies (
                        #[trigger] chseq[jj] as int) < self.n() by {
                            assert(chseq[jj] == ids@[cs@[jj] as int]);
                        }
                    }
                    let res = self.add_op(*op, ch);
                    match res {
                        Ok(id2) => {
                            proof {
                                let g2 = *self;
                                // each child class still realizes its subterm
                                assert forall|jj: int| 0 <= jj < chseq.len() implies (
                                #[trigger] chseq[jj] as int) < g2.n() && g2.node_represents(
                                    s,
                                    cs@[jj] as int,
                                    chseq[jj] as int,
                                ) by {
                                    assert(gpre.node_represents(
                                        s,
                                        cs@[jj] as int,
                                        ids@[cs@[jj] as int] as int,
                                    ));
                                    g2.lemma_represents_extends(
                                        gpre,
                                        s,
                                        cs@[jj] as int,
                                        chseq[jj] as int,
                                    );
                                }
                                // hence the new node realizes this subterm
                                let k = choose|k: int|
                                    #[trigger] g2.op_shape_at(
                                        id2 as int,
                                        *op,
                                        chseq.len() as int,
                                        k,
                                    ) && forall|jj: int|
                                        0 <= jj < chseq.len() ==> g2.same(
                                            #[trigger] chseq[jj] as int,
                                            g2.classes@[g2.rootof(
                                                id2 as int,
                                            )].nodes@[k].children@[jj] as int,
                                        );
                                assert(g2.op_children_rep(s, i as int, id2 as int, cs@, k)) by {
                                    assert forall|jj: int| 0 <= jj < cs@.len() implies (
                                    #[trigger] cs@[jj] as int) < i as int && g2.node_represents(
                                        s,
                                        cs@[jj] as int,
                                        g2.classes@[g2.rootof(
                                            id2 as int,
                                        )].nodes@[k].children@[jj] as int,
                                    ) by {
                                        g2.lemma_represents_same(
                                            s,
                                            cs@[jj] as int,
                                            chseq[jj] as int,
                                            g2.classes@[g2.rootof(
                                                id2 as int,
                                            )].nodes@[k].children@[jj] as int,
                                        );
                                    }
                                }
                                assert(g2.has_op_node(s, i as int, id2 as int, *op, cs@));
                                assert(g2.node_represents(s, i as int, id2 as int));
                            }
                            id2
                        },
                        Err(err) => {
                            proof {
                                self.lemma_extends_trans(gpre, g0);
                            }
                            return Err(err);
                        },
                    }
                },
            };
            ids.push(id2);
            proof {
                self.lemma_extends_trans(gpre, g0);
                assert forall|jj: int| 0 <= jj < i as int + 1 implies (
                #[trigger] ids@[jj] as int) < self.n() && self.node_represents(
                    s,
                    jj,
                    ids@[jj] as int,
                ) by {
                    if jj < i as int {
                        assert(gpre.node_represents(s, jj, ids@[jj] as int));
                        self.lemma_represents_extends(gpre, s, jj, ids@[jj] as int);
                    }
                }
            }
            i = i + 1;
        }
        let rootid = ids[m - 1];
        proof {
            assert(self.node_represents(s, m - 1, rootid as int));
        }
        let rid = self.uf.find(rootid);
        proof {
            self.uf.lemma_rootof_idem(rootid as int);
            self.lemma_represents_same(s, m - 1, rootid as int, rid as int);
            if m == 1 {
                match s[0] {
                    crate::term::TermNode::Ref(dd) => {
                        assert(self.unchanged(g0));
                        assert(self.uf.rootof(dd as int) == g0.uf.rootof(dd as int)) by {
                            g0.uf.lemma_rootof_prefix(self.uf, g0.uf.n(), dd as int);
                        }
                        self.uf.lemma_rootof_idem(dd as int);
                        assert(rid as int == g0.rootof(dd as int));
                    },
                    _ => {},
                }
            }
        }
        Ok(rid)
    }
}


impl<A> EGraph<A> {
    /// Classes `c1` and `c2` realize the two expressions and are equivalent.
    pub open spec fn equiv_at(
        self,
        e1: crate::term::Expr,
        e2: crate::term::Expr,
        c1: int,
        c2: int,
    ) -> bool {
        &&& self.represents(e1, c1)
        &&& self.represents(e2, c2)
        &&& self.same(c1, c2)
    }

    /// The two expressions are realized by one equivalence class.
    pub open spec fn expr_equiv(self, e1: crate::term::Expr, e2: crate::term::Expr) -> bool {
        exists|c1: int, c2: int| #[trigger] self.equiv_at(e1, e2, c1, c2)
    }

    /// An established equivalence survives any extension of the graph.
    pub proof fn lemma_expr_equiv_extends(
        self,
        prev: EGraph<A>,
        e1: crate::term::Expr,
        e2: crate::term::Expr,
    )
        requires
            prev.wf(),
            self.wf(),
            self.extends(prev),
            prev.expr_equiv(e1, e2),
        ensures
            self.expr_equiv(e1, e2),
    {
        let (c1, c2) = choose|c1: int, c2: int| prev.equiv_at(e1, e2, c1, c2);
        self.lemma_represents_extends(prev, e1.nodes@, e1.nodes@.len() - 1, c1);
        self.lemma_represents_extends(prev, e2.nodes@, e2.nodes@.len() - 1, c2);
        assert(self.equiv_at(e1, e2, c1, c2));
    }
}

impl<A: Analysis> EGraph<A> {
    /// Add every expression and union them all with the first.  Returns
    /// whether any new equivalence was created.  Fewer than two operands is
    /// a usage error and leaves the graph untouched.  Under an analysis
    /// that computes no values, success is owed for admissible operands, and
    /// the returned flag is exact: true just when the number of merges ever
    /// performed grew, and on false the partition of the old ids is intact.
    pub fn union(&mut self, exprs: &Vec<crate::term::Expr>) -> (r: Result<bool, EngineError>)
        requires
            old(self).wf(),
        ensures
            final(self).wf(),
            final(self).extends(*old(self)),
            final(self).analysis == old(self).analysis,
            exprs@.len() < 2 ==> r == Err::<bool, EngineError>(EngineError::TooFewOperands)
                && final(self).unchanged(*old(self)),
            exprs@.len() >= 2 ==> r != Err::<bool, EngineError>(EngineError::TooFewOperands),
            r is Ok ==> forall|j: int|
                0 <= j < exprs@.len() ==> final(self).expr_equiv(
                    exprs@[0],
                    #[trigger] exprs@[j],
                ),
            old(self).inert() && old(self).datafree() && exprs@.len() >= 2 && (forall|j: int|
                0 <= j < exprs@.len() ==> expr_ok(
                    (#[trigger] exprs@[j]).nodes@,
                    old(self).n(),
                )) ==> r is Ok,
            old(self).inert() && old(self).datafree() ==> final(self).datafree() && (r matches Ok(
                ch,
            ) ==> (ch <==> final(self).merged_count() > old(self).merged_count())),
            old(self).inert() && old(self).datafree() ==> (r matches Ok(ch2) ==> (!ch2 ==> forall|
                i: int,
                jx: int,
            |
                0 <= i < old(self).n() && 0 <= jx < old(self).n() ==> (#[trigger] final(self).same(
                    i,
                    jx,
                ) <==> old(self).same(i, jx)))),
            // on a never-merged graph with a valueless analysis, a false flag
            // means the operands were structurally identical terms, so the
            // flag is forced true whenever they were distinct
            old(self).inert() && old(self).datafree() && old(self).unmerged() && (forall|j: int|
                0 <= j < exprs@.len() ==> crate::term::expr_no_refs(
                    (#[trigger] exprs@[j]).nodes@,
                )) ==> (r matches Ok(ch4) ==> (!ch4 ==> forall|j: int|
                0 <= j < exprs@.len() ==> crate::term::term_eq(
                    (#[trigger] exprs@[j]).nodes@,
                    exprs@[j].nodes@.len() - 1,
                    exprs@[0].nodes@,
                    exprs@[0].nodes@.len() - 1,
                ))),
    {
        let ghost g0 = *old(self);
        let m = exprs.len();
        if m < 2 {
            proof {
                self.lemma_unchanged_extends(g0);
            }
            return Err(EngineError::TooFewOperands);
        }
        let ghost all_ok = g0.inert() && g0.datafree() && (forall|jj: int|
            0 <= jj < exprs@.len() ==> expr_ok((#[trigger] exprs@[jj]).nodes@, g0.n()));
        let ghost structural = g0.inert() && g0.datafree() && g0.unmerged() && (forall|jj: int|
            0 <= jj < exprs@.len() ==> crate::term::expr_no_refs((#[trigger] exprs@[jj]).nodes@));
        let first = match self.add(&exprs[0]) {
            Ok(id) => id,
            Err(e) => {
                proof {
                    if all_ok {
                        assert(expr_ok(exprs@[0].nodes@, g0.n()));
                        assert(false);
                    }
                }
                return Err(e);
            },
        };
        proof {
            assert(self.equiv_at(exprs@[0], exprs@[0], first as int, first as int));
        }
        let mut changed = false;
        let mut j: usize = 1;
        while j < m
            invariant
                g0 == *old(self),
                g0.wf(),
                self.wf(),
                self.extends(g0),
                self.analysis == g0.analysis,
                m == exprs@.len(),
                1 <= j <= m,
                (first as int) < self.n(),
                all_ok == (g0.inert() && g0.datafree() && (forall|jj: int|
                    0 <= jj < exprs@.len() ==> expr_ok((#[trigger] exprs@[jj]).nodes@, g0.n()))),
                structural == (g0.inert() && g0.datafree() && g0.unmerged() && (forall|jj: int|
                    0 <= jj < exprs@.len() ==> crate::term::expr_no_refs(
                        (#[trigger] exprs@[jj]).nodes@,
                    ))),
                self.node_represents(exprs@[0].nodes@, exprs@[0].nodes@.len() - 1, first as int),
                forall|jj: int|
                    0 <= jj < j as int ==> self.expr_equiv(exprs@[0], #[trigger] exprs@[jj]),
                g0.inert() && g0.datafree() ==> self.datafree() && (changed
                    ==> self.merged_count() > g0.merged_count()) && (!changed
                    ==> self.merged_count() == g0.merged_count() && (forall|a: int, b: int|
                    0 <= a < g0.n() && 0 <= b < g0.n() ==> (#[trigger] self.same(a, b) <==> g0.same(
                        a,
                        b,
                    )))),
                structural && !changed ==> self.unmerged(),
            decreases m - j,
        {
            let ghost gpre = *self;
            let idj = match self.add(&exprs[j]) {
                Ok(id) => id,
                Err(e) => {
                    proof {
                        self.lemma_extends_trans(gpre, g0);
                        if all_ok {
                            assert(expr_ok(exprs@[j as int].nodes@, g0.n()));
                            lemma_expr_ok_mono(exprs@[j as int].nodes@, g0.n(), gpre.n());
                            assert(false);
                        }
                    }
                    return Err(e);
                },
            };
            let ghost gmid = *self;
            let ch = match self.union_ids(first, idj) {
                Ok(ch) => ch,
                Err(e) => {
                    proof {
                        self.lemma_extends_trans(gmid, gpre);
                        self.lemma_extends_trans(gpre, g0);
                        if g0.inert() && g0.datafree() {
                            assert(false);
                        }
                    }
                    return Err(e);
                },
            };
            changed = changed || ch;
            proof {
                self.lemma_extends_trans(gmid, gpre);
                self.lemma_extends_trans(gpre, g0);
                if g0.inert() && g0.datafree() {
                    assert(gpre.inert() && gpre.datafree());
                    assert(gmid.merged_count() == gpre.merged_count());
                    assert(gmid.datafree());
                    assert(self.merged_count() == gmid.merged_count() + (if ch {
                        1int
                    } else {
                        0int
                    }));
                    if !ch {
                        assert(self.unchanged(gmid));
                        assert forall|x: int| self.uf.rootof(x) == gmid.uf.rootof(x) by {
                            if 0 <= x < gmid.uf.n() {
                                gmid.uf.lemma_rootof_prefix(self.uf, gmid.uf.n(), x);
                            }
                        }
                    }
                    if structural && !(changed || ch) {
                        // no merge happened, so the graph is still unmerged
                        assert(gpre.unmerged());
                        assert(gmid.unmerged());
                        assert forall|cc: int|
                            0 <= cc < self.n() implies self.uf.is_root(cc) && (
                        #[trigger] self.classes@[cc].nodes@.len()) == 1 by {
                            assert(gmid.uf.is_root(cc));
                            assert(gmid.classes@[cc].nodes@.len() == 1);
                            assert(self.classes@[cc] == gmid.classes@[cc]);
                        }
                    }
                    if !(changed || ch) {
                        assert forall|a: int, b: int|
                            0 <= a < g0.n() && 0 <= b < g0.n() implies (#[trigger] self.same(a, b)
                            <==> g0.same(a, b)) by {
                            assert(gpre.same(a, b) <==> g0.same(a, b));
                            assert(gmid.same(a, b) <==> gpre.same(a, b));
                            assert(self.same(a, b) <==> gmid.same(a, b));
                        }
                    }
                }
                // the first expression's class and this one's are now joined
                self.lemma_represents_extends(
                    gpre,
                    exprs@[0].nodes@,
                    exprs@[0].nodes@.len() - 1,
                    first as int,
                );
                self.lemma_represents_extends(
                    gmid,
                    exprs@[j as int].nodes@,
                    exprs@[j as int].nodes@.len() - 1,
                    idj as int,
                );
                assert(self.equiv_at(exprs@[0], exprs@[j as int], first as int, idj as int));
                assert forall|jj: int| 0 <= jj < j as int + 1 implies self.expr_equiv(
                    exprs@[0],
                    #[trigger] exprs@[jj],
                ) by {
                    if jj < j as int {
                        self.lemma_expr_equiv_extends(gpre, exprs@[0], exprs@[jj]);
                    }
                }
            }
            j = j + 1;
        }
        proof {
            if structural && !changed {
                assert forall|jj: int| 0 <= jj < exprs@.len() implies crate::term::term_eq(
                    (#[trigger] exprs@[jj]).nodes@,
                    exprs@[jj].nodes@.len() - 1,
                    exprs@[0].nodes@,
                    exprs@[0].nodes@.len() - 1,
                ) by {
                    assert(self.expr_equiv(exprs@[0], exprs@[jj]));
                    let (c1, c2) = choose|c1: int, c2: int|
                        self.equiv_at(exprs@[0], exprs@[jj], c1, c2);
                    self.lemma_represents_same(
                        exprs@[jj].nodes@,
                        exprs@[jj].nodes@.len() - 1,
                        c2,
                        c1,
                    );
                    self.lemma_represents_unique_unmerged(
                        exprs@[jj].nodes@,
                        exprs@[jj].nodes@.len() - 1,
                        exprs@[0].nodes@,
                        exprs@[0].nodes@.len() - 1,
                        c1,
                    );
                }
            }
        }
        Ok(changed)
    }

    /// Add every expression and report whether they all canonicalize to the
    /// first one's class.  Fewer than two operands is a usage error.  The
    /// check never unions: under an analysis that computes no values the
    /// partition of the old ids is untouched, success is owed for admissible
    /// operands, and on a clean graph the answer is exact in both
    /// directions: true just when all operands end up realized by one class.
    pub fn equiv(&mut self, exprs: &Vec<crate::term::Expr>) -> (r: Result<bool, EngineError>)
        requires
            old(self).wf(),
        ensures
            final(self).wf(),
            final(self).extends(*old(self)),
            final(self).analysis == old(self).analysis,
            exprs@.len() < 2 ==> r == Err::<bool, EngineError>(EngineError::TooFewOperands)
                && final(self).unchanged(*old(self)),
            exprs@.len() >= 2 ==> r != Err::<bool, EngineError>(EngineError::TooFewOperands),
            r matches Ok(b) && b ==> forall|j: int|
                0 <= j < exprs@.len() ==> final(self).expr_equiv(
                    exprs@[0],
                    #[trigger] exprs@[j],
                ),
            old(self).inert() && old(self).datafree() && exprs@.len() >= 2 && (forall|j: int|
                0 <= j < exprs@.len() ==> expr_ok(
                    (#[trigger] exprs@[j]).nodes@,
                    old(self).n(),
                )) ==> r is Ok,
            old(self).inert() && old(self).datafree() ==> final(self).datafree() && final(self).merged_count() == old(self).merged_count() && (forall|i: int, jx: int|
                0 <= i < old(self).n() && 0 <= jx < old(self).n() ==> (#[trigger] final(self).same(
                    i,
                    jx,
                ) <==> old(self).same(i, jx))),
            old(self).clean() && old(self).inert() && old(self).datafree() ==> (r matches Ok(b2)
                ==> (b2 <==> forall|j: int|
                0 <= j < exprs@.len() ==> final(self).expr_equiv(
                    exprs@[0],
                    #[trigger] exprs@[j],
                ))),
    {
        let ghost g0 = *old(self);
        let m = exprs.len();
        if m < 2 {
            proof {
                self.lemma_unchanged_extends(g0);
            }
            return Err(EngineError::TooFewOperands);
        }
        let ghost all_ok = g0.inert() && g0.datafree() && (forall|jj: int|
            0 <= jj < exprs@.len() ==> expr_ok((#[trigger] exprs@[jj]).nodes@, g0.n()));
        let first = match self.add(&exprs[0]) {
            Ok(id) => id,
            Err(e) => {
                proof {
                    if all_ok {
                        assert(expr_ok(exprs@[0].nodes@, g0.n()));
                        assert(false);
                    }
                }
                return Err(e);
            },
        };
        proof {
            assert(self.equiv_at(exprs@[0], exprs@[0], first as int, first as int));
            assert(expr_ok(exprs@[0].nodes@, g0.n()));
        }
        let mut all_equiv = true;
        let ghost mut jbad: int = 0;
        let ghost mut badid: int = 0;
        let mut j: usize = 1;
        while j < m
            invariant
                g0 == *old(self),
                g0.wf(),
                self.wf(),
                self.extends(g0),
                self.analysis == g0.analysis,
                m == exprs@.len(),
                1 <= j <= m,
                (first as int) < self.n(),
                all_ok == (g0.inert() && g0.datafree() && (forall|jj: int|
                    0 <= jj < exprs@.len() ==> expr_ok((#[trigger] exprs@[jj]).nodes@, g0.n()))),
                expr_ok(exprs@[0].nodes@, g0.n()),
                self.node_represents(exprs@[0].nodes@, exprs@[0].nodes@.len() - 1, first as int),
                all_equiv ==> forall|jj: int|
                    0 <= jj < j as int ==> self.expr_equiv(exprs@[0], #[trigger] exprs@[jj]),
                g0.inert() && g0.datafree() ==> self.datafree() && self.merged_count()
                    == g0.merged_count() && (g0.clean() ==> self.clean()) && (forall|
                    a: int,
                    b: int,
                |
                    0 <= a < g0.n() && 0 <= b < g0.n() ==> (#[trigger] self.same(a, b) <==> g0.same(
                        a,
                        b,
                    ))),
                g0.inert() && g0.datafree() && !all_equiv ==> {
                    &&& 1 <= jbad < j as int
                    &&& 0 <= badid < self.n()
                    &&& !self.same(first as int, badid)
                    &&& self.node_represents(
                        exprs@[jbad].nodes@,
                        exprs@[jbad].nodes@.len() - 1,
                        badid,
                    )
                    &&& crate::term::expr_wf(exprs@[jbad].nodes@)
                    &&& exprs@[jbad].nodes@.len() > 0
                },
            decreases m - j,
        {
            let ghost gpre = *self;
            let idj = match self.add(&exprs[j]) {
                Ok(id) => id,
                Err(e) => {
                    proof {
                        self.lemma_extends_trans(gpre, g0);
                        if all_ok {
                            assert(expr_ok(exprs@[j as int].nodes@, g0.n()));
                            lemma_expr_ok_mono(exprs@[j as int].nodes@, g0.n(), gpre.n());
                            assert(false);
                        }
                    }
                    return Err(e);
                },
            };
            let rf = self.find(first);
            let same_class = rf == idj;
            proof {
                self.lemma_extends_trans(gpre, g0);
                self.lemma_represents_extends(
                    gpre,
                    exprs@[0].nodes@,
                    exprs@[0].nodes@.len() - 1,
                    first as int,
                );
                if same_class {
                    assert(self.equiv_at(exprs@[0], exprs@[j as int], first as int, idj as int));
                }
                if all_equiv && same_class {
                    assert forall|jj: int| 0 <= jj < j as int + 1 implies self.expr_equiv(
                        exprs@[0],
                        #[trigger] exprs@[jj],
                    ) by {
                        if jj < j as int {
                            self.lemma_expr_equiv_extends(gpre, exprs@[0], exprs@[jj]);
                        }
                    }
                }
                if g0.inert() && g0.datafree() {
                    assert(gpre.inert() && gpre.datafree());
                    if !all_equiv {
                        // carry the earlier witness through this add
                        assert(!self.same(first as int, badid)) by {
                            assert(gpre.same(first as int, badid) <==> self.same(
                                first as int,
                                badid,
                            ));
                        }
                        self.lemma_represents_extends(
                            gpre,
                            exprs@[jbad].nodes@,
                            exprs@[jbad].nodes@.len() - 1,
                            badid,
                        );
                    } else if !same_class {
                        // this operand's class is the witness
                        jbad = j as int;
                        badid = idj as int;
                        assert(self.rootof(first as int) == rf as int);
                        assert(self.rootof(idj as int) == idj as int);
                        assert(!self.same(first as int, badid));
                        assert(expr_ok(exprs@[j as int].nodes@, gpre.n()));
                        assert(crate::term::expr_wf(exprs@[j as int].nodes@)) by {
                            assert forall|ii: int|
                                0 <= ii < exprs@[j as int].nodes@.len() implies crate::term::node_wf_at(
                                exprs@[j as int].nodes@,
                                ii,
                            ) by {
                                assert(node_ok_at(exprs@[j as int].nodes@, ii, gpre.n()));
                            }
                        }
                    }
                }
            }
            all_equiv = all_equiv && same_class;
            j = j + 1;
        }
        proof {
            if g0.clean() && g0.inert() && g0.datafree() && !all_equiv {
                // the recorded witness refutes the all-equivalent reading
                assert(self.clean());
                assert(crate::term::expr_wf(exprs@[0].nodes@)) by {
                    assert forall|ii: int|
                        0 <= ii < exprs@[0].nodes@.len() implies crate::term::node_wf_at(
                        exprs@[0].nodes@,
                        ii,
                    ) by {
                        assert(node_ok_at(exprs@[0].nodes@, ii, g0.n()));
                    }
                }
                if self.expr_equiv(exprs@[0], exprs@[jbad]) {
                    let (c1, c2) = choose|c1: int, c2: int|
                        self.equiv_at(exprs@[0], exprs@[jbad], c1, c2);
                    crate::term::lemma_term_eq_refl(
                        exprs@[0].nodes@,
                        exprs@[0].nodes@.len() - 1,
                    );
                    crate::term::lemma_term_eq_refl(
                        exprs@[jbad].nodes@,
                        exprs@[jbad].nodes@.len() - 1,
                    );
                    self.lemma_hashcons_unique(
                        exprs@[0].nodes@,
                        exprs@[0].nodes@.len() - 1,
                        c1,
                        exprs@[0].nodes@,
                        exprs@[0].nodes@.len() - 1,
                        first as int,
                    );
                    self.lemma_hashcons_unique(
                        exprs@[jbad].nodes@,
                        exprs@[jbad].nodes@.len() - 1,
                        c2,
                        exprs@[jbad].nodes@,
                        exprs@[jbad].nodes@.len() - 1,
                        badid,
                    );
                    assert(self.same(first as int, badid));
                    assert(false);
                }
                assert(!(forall|jx: int|
                    0 <= jx < exprs@.len() ==> self.expr_equiv(exprs@[0], #[trigger] exprs@[jx])));
            }
        }
        Ok(all_equiv)
    }
}


impl<A> EGraph<A> {
    /// Member node `k` of root class `d` canonicalizes to exactly `nd`.
    pub open spec fn scan_backed_at(self, nd: ENode, d: int, k: int) -> bool {
        &&& 0 <= k < self.classes@[d].nodes@.len()
        &&& self.canon_key(self.classes@[d].nodes@[k]) == node_key(nd)
    }

    /// Root classes `a` and `b` own nodes that are structurally identical
    /// once their children are canonicalized.
    pub open spec fn congruent_witness(self, a: int, b: int, k1: int, k2: int) -> bool {
        &&& self.uf.is_root(a) && self.uf.is_root(b)
        &&& 0 <= k1 < self.classes@[a].nodes@.len()
        &&& 0 <= k2 < self.classes@[b].nodes@.len()
        &&& self.canon_key(self.classes@[a].nodes@[k1]) == self.canon_key(
            self.classes@[b].nodes@[k2],
        )
    }

    /// The table is a sound canonical hashcons over this graph.
    pub open spec fn scan_table_ok(self, t: Seq<(ENode, Id)>) -> bool {
        &&& forall|e: int|
            0 <= e < t.len() ==> {
                &&& self.node_wf((#[trigger] t[e]).0)
                &&& self.node_canon(t[e].0)
                &&& (t[e].1 as int) < self.n()
                &&& self.uf.is_root(t[e].1 as int)
                &&& exists|k: int| #[trigger] self.scan_backed_at(t[e].0, t[e].1 as int, k)
            }
        &&& forall|e1: int, e2: int|
            0 <= e1 < e2 < t.len() ==> node_key(t[e1].0) != node_key(t[e2].0)
    }

    /// Member node `k` of root class `c` is covered by the table: its
    /// canonical key maps back to `c`.
    pub open spec fn scan_covered(self, t: Seq<(ENode, Id)>, c: int, k: int) -> bool {
        match hc_find(t, self.canon_key(self.classes@[c].nodes@[k])) {
            Some(d) => d as int == c,
            None => false,
        }
    }
}

impl<A: Analysis> EGraph<A> {
    /// Walk every member node of every class.  Either two distinct classes
    /// own congruent nodes (a pair to union), or no two do, and the full
    /// canonical hashcons table is returned.
    fn scan(&self) -> (r: Result<Vec<(ENode, Id)>, (Id, Id)>)
        requires
            self.wf(),
        ensures
            r matches Err(p) ==> {
                &&& (p.0 as int) < self.n() && (p.1 as int) < self.n()
                &&& !self.same(p.0 as int, p.1 as int)
                &&& exists|k1: int, k2: int|
                    #[trigger] self.congruent_witness(p.0 as int, p.1 as int, k1, k2)
            },
            r matches Ok(t) ==> {
                &&& self.scan_table_ok(t@)
                &&& forall|c: int, k: int|
                    0 <= c < self.n() && self.uf.is_root(c) && 0 <= k
                        < self.classes@[c].nodes@.len() ==> #[trigger] self.scan_covered(t@, c, k)
            },
    {
        let n = self.classes.len();
        let mut table: Vec<(ENode, Id)> = Vec::new();
        let mut c: usize = 0;
        while c < n
            invariant
                self.wf(),
                n == self.n(),
                c <= n,
                self.scan_table_ok(table@),
                forall|cc: int, k: int|
                    0 <= cc < c as int && self.uf.is_root(cc) && 0 <= k
                        < self.classes@[cc].nodes@.len() ==> #[trigger] self.scan_covered(
                        table@,
                        cc,
                        k,
                    ),
            decreases n - c,
        {
            let rc = self.uf.find(c);
            if rc == c {
                let klen = self.classes[c].nodes.len();
                let mut k: usize = 0;
                while k < klen
                    invariant
                        self.wf(),
                        n == self.n(),
                        c < n,
                        self.uf.is_root(c as int),
                        klen == self.classes@[c as int].nodes@.len(),
                        k <= klen,
                        self.scan_table_ok(table@),
                        forall|cc: int, kk: int|
                            0 <= cc < c as int && self.uf.is_root(cc) && 0 <= kk
                                < self.classes@[cc].nodes@.len() ==> #[trigger] self.scan_covered(
                                table@,
                                cc,
                                kk,
                            ),
                        forall|kk: int|
                            0 <= kk < k as int ==> #[trigger] self.scan_covered(
                                table@,
                                c as int,
                                kk,
                            ),
                    decreases klen - k,
                {
                    let canon = self.canonicalize(&self.classes[c].nodes[k]);
                    let found = Self::find_key(&table, &canon);
                    match found {
                        Some(d) => {
                            if d != c {
                                proof {
                                    let e = lemma_hc_find_some(table@, node_key(canon), 0);
                                    let k1 = choose|k1: int|
                                        self.scan_backed_at(table@[e].0, d as int, k1);
                                    assert(self.congruent_witness(
                                        d as int,
                                        c as int,
                                        k1,
                                        k as int,
                                    ));
                                }
                                return Err((d, c));
                            }
                            proof {
                                assert(self.scan_covered(table@, c as int, k as int));
                            }
                        },
                        None => {
                            let ghost tpre = table@;
                            table.push((canon, c));
                            proof {
                                let x = (canon, c as usize);
                                assert(table@ == tpre.push(x));
                                // old entries keep their keys and coverage
                                assert forall|key: (Head, Seq<usize>)|
                                    hc_find(tpre, key) is Some implies hc_find(table@, key)
                                    == hc_find(tpre, key) by {
                                    lemma_hc_find_push(tpre, x, key, 0);
                                }
                                lemma_hc_find_push(tpre, x, node_key(canon), 0);
                                // the new entry is distinct from all old keys
                                assert forall|e1: int|
                                    0 <= e1 < tpre.len() implies node_key(tpre[e1].0) != node_key(
                                    canon,
                                ) by {
                                    lemma_hc_find_none(tpre, node_key(canon), 0, e1);
                                }
                                assert(self.scan_backed_at(canon, c as int, k as int));
                                assert(self.scan_table_ok(table@)) by {
                                    assert forall|e: int| 0 <= e < table@.len() implies {
                                        &&& self.node_wf((#[trigger] table@[e]).0)
                                        &&& self.node_canon(table@[e].0)
                                        &&& (table@[e].1 as int) < self.n()
                                        &&& self.uf.is_root(table@[e].1 as int)
                                        &&& exists|kk: int|
                                            #[trigger] self.scan_backed_at(
                                                table@[e].0,
                                                table@[e].1 as int,
                                                kk,
                                            )
                                    } by {
                                        if e < tpre.len() {
                                            assert(table@[e] == tpre[e]);
                                        } else {
                                            assert(table@[e] == x);
                                        }
                                    }
                                }
                                assert(self.scan_covered(table@, c as int, k as int));
                                assert forall|cc: int, kk: int|
                                    0 <= cc < c as int && self.uf.is_root(cc) && 0 <= kk
                                        < self.classes@[cc].nodes@.len() implies #[trigger] self.scan_covered(
                                    table@,
                                    cc,
                                    kk,
                                ) by {
                                    assert(self.scan_covered(tpre, cc, kk));
                                }
                                assert forall|kk: int| 0 <= kk < k as int implies #[trigger] self.scan_covered(
                                    table@,
                                    c as int,
                                    kk,
                                ) by {
                                    assert(self.scan_covered(tpre, c as int, kk));
                                }
                            }
                        },
                    }
                    k = k + 1;
                }
            } else {
                proof {
                    assert(!self.uf.is_root(c as int));
                    assert(self.classes@[c as int].nodes@.len() == 0);
                }
            }
            c = c + 1;
        }
        Ok(table)
    }
}


impl<A> EGraph<A> {
    /// Class `c`'s node list was replaced by canonical copies, index for
    /// index, keeping the analysis value.
    pub open spec fn canonized_class(self, prev: EGraph<A>, c: int) -> bool {
        &&& self.classes@[c].nodes@.len() == prev.classes@[c].nodes@.len()
        &&& self.classes@[c].data == prev.classes@[c].data
        &&& forall|k: int|
            0 <= k < prev.classes@[c].nodes@.len() ==> node_key(
                #[trigger] self.classes@[c].nodes@[k],
            ) == prev.canon_key(prev.classes@[c].nodes@[k])
    }

    /// Re-establish the invariants after a canonical table has been
    /// installed and every class's node list canonicalized.
    #[verifier::rlimit(60)]
    proof fn lemma_install_restore(self, prev: EGraph<A>, table: Seq<(ENode, Id)>)
        requires
            prev.wf(),
            prev.scan_table_ok(table),
            forall|c: int, k: int|
                0 <= c < prev.n() && prev.uf.is_root(c) && 0 <= k
                    < prev.classes@[c].nodes@.len() ==> #[trigger] prev.scan_covered(table, c, k),
            self.uf.parent@ == prev.uf.parent@,
            self.interner.vals@ == prev.interner.vals@,
            self.pending@.len() == 0,
            self.hashcons@ == table,
            self.classes@.len() == prev.classes@.len(),
            forall|c: int|
                0 <= c < prev.n() && prev.uf.is_root(c) ==> #[trigger] self.canonized_class(
                    prev,
                    c,
                ),
            forall|c: int|
                0 <= c < prev.n() && !prev.uf.is_root(c) ==> #[trigger] self.classes@[c]
                    == prev.classes@[c],
        ensures
            self.wf(),
            self.extends(prev),
    {
        assert forall|i: int| self.uf.rootof(i) == prev.uf.rootof(i) by {
            if 0 <= i < prev.uf.n() {
                prev.uf.lemma_rootof_prefix(self.uf, prev.uf.n(), i);
            }
        }
        assert(self.uf.wf()) by {
            assert forall|i: int| 0 <= i < self.uf.n() implies #[trigger] self.uf.parent@[i] as int
                <= i by {
                assert(self.uf.parent@[i] == prev.uf.parent@[i]);
            }
        }
        assert(self.interner.wf()) by {
            assert forall|j: int, k: int|
                0 <= j < k < self.interner.n() implies self.interner.vals@[j]
                    != self.interner.vals@[k] by {
                assert(self.interner.vals@[j] == prev.interner.vals@[j]);
                assert(self.interner.vals@[k] == prev.interner.vals@[k]);
            }
        }
        // shape of every transformed member node
        assert forall|c: int, k: int|
            0 <= c < self.n() && 0 <= k < self.classes@[c].nodes@.len() implies {
            let nd = #[trigger] self.classes@[c].nodes@[k];
            &&& self.node_wf(nd)
            &&& self.node_canon(nd)
            &&& nd.children@ == prev.canon_children(prev.classes@[c].nodes@[k].children@)
            &&& nd.head == prev.classes@[c].nodes@[k].head
        } by {
            if prev.uf.is_root(c) {
                assert(self.canonized_class(prev, c));
                let ond = prev.classes@[c].nodes@[k];
                let nd = self.classes@[c].nodes@[k];
                assert(node_key(nd) == prev.canon_key(ond));
                assert(prev.node_wf(ond));
                assert(nd.children@ == prev.canon_children(ond.children@));
                assert forall|j: int| 0 <= j < nd.children@.len() implies self.uf.is_root(
                    #[trigger] nd.children@[j] as int,
                ) && (nd.children@[j] as int) < self.n() by {
                    assert(prev.canon_children(ond.children@)[j] == (prev.uf.rootof(
                        ond.children@[j] as int,
                    ) as usize));
                    assert(nd.children@[j] as int == prev.uf.rootof(ond.children@[j] as int)) by {
                        prev.uf.lemma_rootof_le(ond.children@[j] as int);
                    }
                    prev.uf.lemma_rootof_idem(ond.children@[j] as int);
                    prev.uf.lemma_rootof_le(ond.children@[j] as int);
                }
                match nd.head {
                    Head::Leaf(h) => {
                        assert(ond.head == Head::Leaf(h));
                        assert(prev.node_wf(ond));
                        assert(nd.children@.len() == 0);
                    },
                    Head::Op(_) => {},
                }
            } else {
                assert(self.classes@[c] == prev.classes@[c]);
                assert(prev.classes@[c].nodes@.len() == 0);
            }
        }
        // the table's entries are well formed under the new graph
        assert forall|e: int|
            0 <= e < self.hashcons@.len() implies self.node_wf(#[trigger] self.hashcons@[e].0) && (
        self.hashcons@[e].1 as int) < self.n() && self.node_canon(self.hashcons@[e].0) by {
            assert(prev.node_wf(table[e].0));
            assert(prev.node_canon(table[e].0));
            self.lemma_node_wf_transfer(prev, table[e].0);
            assert forall|j: int|
                0 <= j < self.hashcons@[e].0.children@.len() implies self.uf.is_root(
                #[trigger] self.hashcons@[e].0.children@[j] as int,
            ) by {
                assert(prev.uf.is_root(table[e].0.children@[j] as int));
            }
        }
        // every entry is backed by the transformed member behind it
        assert forall|e: int|
            0 <= e < self.hashcons@.len() implies self.has_node(
            #[trigger] self.hashcons@[e].0,
            self.hashcons@[e].1 as int,
        ) && self.entry_backed(e) by {
            let nd = table[e].0;
            let d = table[e].1 as int;
            let k = choose|k: int| prev.scan_backed_at(nd, d, k);
            assert(prev.scan_backed_at(nd, d, k));
            assert(self.canonized_class(prev, d));
            assert(node_key(self.classes@[d].nodes@[k]) == node_key(nd));
            assert(self.rootof(d) == d) by {
                assert(prev.uf.is_root(d));
            }
            assert(self.entry_backed_at(e, k));
            let cn = self.classes@[d].nodes@[k];
            assert forall|j: int| 0 <= j < nd.children@.len() implies self.same(
                #[trigger] nd.children@[j] as int,
                cn.children@[j] as int,
            ) by {
                assert(cn.children@ == nd.children@);
            }
            assert(self.has_node_at(nd, d, k));
        }
        // every member is canonical and hashconsed to its owner
        assert forall|c: int, k: int|
            0 <= c < self.n() && self.uf.is_root(c) && 0 <= k
                < self.classes@[c].nodes@.len() implies #[trigger] self.member_ok(c, k) by {
            assert(prev.uf.is_root(c));
            assert(self.canonized_class(prev, c));
            assert(0 <= k < prev.classes@[c].nodes@.len());
            assert(prev.scan_covered(table, c, k));
            let nd = self.classes@[c].nodes@[k];
            assert(node_key(nd) == prev.canon_key(prev.classes@[c].nodes@[k]));
            assert(match self.lookup(node_key(nd)) {
                Some(d) => self.rootof(d as int) == c,
                None => false,
            }) by {
                assert(self.lookup(node_key(nd)) == hc_find(
                    table,
                    prev.canon_key(prev.classes@[c].nodes@[k]),
                ));
                assert(prev.uf.rootof(c) == c);
            }
        }
        // non-roots still own nothing
        assert forall|c: int|
            0 <= c < self.n() && !self.uf.is_root(c) implies self.classes@[c].nodes@.len()
                == 0 by {
            assert(!prev.uf.is_root(c));
            assert(prev.classes@[c].nodes@.len() == 0);
            assert(self.classes@[c] == prev.classes@[c]);
        }
        // keys stay pairwise distinct
        assert forall|e1: int, e2: int|
            0 <= e1 < e2 < self.hashcons@.len() implies node_key(self.hashcons@[e1].0) != node_key(
            self.hashcons@[e2].0,
        ) by {
            assert(node_key(table[e1].0) != node_key(table[e2].0));
        }
        // survival: each old member is realized by its canonical copy
        assert forall|c: int, k: int|
            0 <= c < prev.n() && prev.uf.is_root(c) && 0 <= k
                < prev.classes@[c].nodes@.len() implies self.has_node(
            #[trigger] prev.classes@[c].nodes@[k],
            c,
        ) by {
            let ond = prev.classes@[c].nodes@[k];
            let nd = self.classes@[c].nodes@[k];
            assert(self.canonized_class(prev, c));
            assert(node_key(nd) == prev.canon_key(ond));
            assert(self.rootof(c) == c) by {
                assert(prev.uf.is_root(c));
            }
            assert(nd.children@ == prev.canon_children(ond.children@));
            assert forall|j: int| 0 <= j < ond.children@.len() implies self.same(
                #[trigger] ond.children@[j] as int,
                nd.children@[j] as int,
            ) by {
                assert(prev.canon_children(ond.children@)[j] == (prev.uf.rootof(
                    ond.children@[j] as int,
                ) as usize));
                assert(nd.children@[j] as int == prev.uf.rootof(ond.children@[j] as int)) by {
                    prev.uf.lemma_rootof_le(ond.children@[j] as int);
                }
                prev.uf.lemma_rootof_idem(ond.children@[j] as int);
            }
            assert(self.has_node_at(ond, c, k));
        }
        assert(self.uf.n() == self.n());
        assert forall|e: int| 0 <= e < self.hashcons@.len() implies #[trigger] self.entry_backed(
            e,
        ) by {
            let nd = table[e].0;
            let d = table[e].1 as int;
            let k = choose|k: int| prev.scan_backed_at(nd, d, k);
            assert(prev.scan_backed_at(nd, d, k));
            assert(self.canonized_class(prev, d));
            assert(node_key(self.classes@[d].nodes@[k]) == node_key(nd));
            assert(self.rootof(d) == d) by {
                assert(prev.uf.is_root(d));
            }
            assert(self.entry_backed_at(e, k));
        }
        if self.pending@.len() == 0 {
            assert forall|e: int|
                0 <= e < self.hashcons@.len() implies self.node_canon(
                #[trigger] self.hashcons@[e].0,
            ) by {
                assert(prev.node_canon(table[e].0));
                assert forall|j: int|
                    0 <= j < self.hashcons@[e].0.children@.len() implies self.uf.is_root(
                    #[trigger] self.hashcons@[e].0.children@[j] as int,
                ) by {
                    assert(prev.uf.is_root(table[e].0.children@[j] as int));
                }
            }
            assert(self.rebuilt());
        }
        assert(self.wf());
        assert(self.extends(prev));
    }
}


impl<A: Analysis> EGraph<A> {
    /// Install a collision-free canonical table: canonicalize every class's
    /// node list, replace the hashcons and drain the worklist.
    fn install_table(&mut self, table: Vec<(ENode, Id)>)
        requires
            old(self).wf(),
            old(self).pending@.len() > 0,
            old(self).scan_table_ok(table@),
            forall|c: int, k: int|
                0 <= c < old(self).n() && old(self).uf.is_root(c) && 0 <= k
                    < old(self).classes@[c].nodes@.len() ==> #[trigger] old(self).scan_covered(
                    table@,
                    c,
                    k,
                ),
        ensures
            final(self).wf(),
            final(self).clean(),
            final(self).extends(*old(self)),
            final(self).analysis == old(self).analysis,
            final(self).n() == old(self).n(),
            final(self).uf.parent@ == old(self).uf.parent@,
            old(self).datafree() ==> final(self).datafree(),
            old(self).analysis_ok() ==> final(self).analysis_ok(),
    {
        let ghost g0 = *old(self);
        let n = self.classes.len();
        let mut c: usize = 0;
        while c < n
            invariant
                g0 == *old(self),
                g0.wf(),
                g0.pending@.len() > 0,
                self.wf(),
                n == self.n(),
                c <= n,
                self.uf.parent@ == g0.uf.parent@,
                self.hashcons@ == g0.hashcons@,
                self.pending@ == g0.pending@,
                forall|cc: int|
                    0 <= cc < n ==> #[trigger] self.classes@[cc].data == g0.classes@[cc].data,
                self.interner.vals@ == g0.interner.vals@,
                self.analysis == g0.analysis,
                self.classes@.len() == g0.classes@.len(),
                forall|cc: int| c as int <= cc < n ==> #[trigger] self.classes@[cc] == g0.classes@[cc],
                forall|cc: int|
                    0 <= cc < c as int && g0.uf.is_root(cc) ==> #[trigger] self.canonized_class(
                        g0,
                        cc,
                    ),
                forall|cc: int|
                    0 <= cc < c as int && !g0.uf.is_root(cc) ==> #[trigger] self.classes@[cc]
                        == g0.classes@[cc],
            decreases n - c,
        {
            proof {
                assert(self.uf.rootof(c as int) == g0.uf.rootof(c as int)) by {
                    g0.uf.lemma_rootof_prefix(self.uf, g0.uf.n(), c as int);
                }
            }
            let rc = self.uf.find(c);
            if rc == c {
                let ghost gpre = *self;
                let klen = self.classes[c].nodes.len();
                let mut nl: Vec<ENode> = Vec::new();
                let mut k: usize = 0;
                while k < klen
                    invariant
                        self.wf(),
                        *self == gpre,
                        c < n,
                        n == self.n(),
                        klen == self.classes@[c as int].nodes@.len(),
                        k <= klen,
                        nl@.len() == k as int,
                        forall|kk: int|
                            0 <= kk < k as int ==> node_key(#[trigger] nl@[kk]) == self.canon_key(
                                self.classes@[c as int].nodes@[kk],
                            ),
                    decreases klen - k,
                {
                    let canon = self.canonicalize(&self.classes[c].nodes[k]);
                    nl.push(canon);
                    k = k + 1;
                }
                self.classes[c].nodes = nl;
                proof {
                    assert forall|cc: int|
                        0 <= cc < c as int + 1 && g0.uf.is_root(cc) implies #[trigger] self.canonized_class(
                        g0,
                        cc,
                    ) by {
                        if cc < c as int {
                            assert(gpre.canonized_class(g0, cc));
                            assert(self.classes@[cc] == gpre.classes@[cc]);
                        } else {
                            assert(self.classes@[cc].nodes@.len() == g0.classes@[cc].nodes@.len());
                            assert forall|kk: int|
                                0 <= kk < g0.classes@[cc].nodes@.len() implies node_key(
                                #[trigger] self.classes@[cc].nodes@[kk],
                            ) == g0.canon_key(g0.classes@[cc].nodes@[kk]) by {
                                assert(gpre.classes@[cc] == g0.classes@[cc]);
                                assert(gpre.canon_key(gpre.classes@[cc].nodes@[kk])
                                    == g0.canon_key(g0.classes@[cc].nodes@[kk])) by {
                                    assert forall|i: int|
                                        gpre.uf.rootof(i) == g0.uf.rootof(i) by {
                                        if 0 <= i < g0.uf.n() {
                                            g0.uf.lemma_rootof_prefix(gpre.uf, g0.uf.n(), i);
                                        }
                                    }
                                    assert(gpre.canon_children(
                                        gpre.classes@[cc].nodes@[kk].children@,
                                    ) =~= g0.canon_children(g0.classes@[cc].nodes@[kk].children@));
                                }
                            }
                        }
                    }
                    // the graph stays well formed: only one class's nodes
                    // were replaced by canonical copies
                    self.lemma_canonize_step(gpre, c as int);
                }
            }
            c = c + 1;
        }
        let ghost gdone = *self;
        self.hashcons = table;
        self.pending.clear();
        proof {
            assert(self.classes@ == gdone.classes@);
            assert forall|cc: int|
                0 <= cc < g0.n() && g0.uf.is_root(cc) implies #[trigger] self.canonized_class(
                g0,
                cc,
            ) by {
                assert(gdone.canonized_class(g0, cc));
            }
            assert forall|cc: int|
                0 <= cc < g0.n() && !g0.uf.is_root(cc) implies #[trigger] self.classes@[cc]
                    == g0.classes@[cc] by {
                assert(gdone.classes@[cc] == g0.classes@[cc]);
            }
            self.lemma_install_restore(g0, table@);
            if g0.datafree() {
                assert forall|cc: int| 0 <= cc < self.n() implies (
                #[trigger] self.classes@[cc].data) is None by {
                    assert(gdone.classes@[cc].data == g0.classes@[cc].data);
                }
            }
            if g0.analysis_ok() {
                // canonicalizing a node does not change its computed value
                assert forall|x: int| self.uf.rootof(x) == g0.uf.rootof(x) by {
                    if 0 <= x < g0.uf.n() {
                        g0.uf.lemma_rootof_prefix(self.uf, g0.uf.n(), x);
                    }
                }
                assert forall|cc: int, kk: int|
                    0 <= cc < self.n() && self.uf.is_root(cc) && 0 <= kk
                        < self.classes@[cc].nodes@.len() implies match #[trigger] self.node_value(
                    self.classes@[cc].nodes@[kk],
                ) {
                    Some(v) => self.classes@[cc].data == Some(v),
                    None => true,
                } by {
                    assert(g0.uf.is_root(cc));
                    assert(self.canonized_class(g0, cc));
                    let ond = g0.classes@[cc].nodes@[kk];
                    let nnd = self.classes@[cc].nodes@[kk];
                    assert(node_key(nnd) == g0.canon_key(ond));
                    assert(nnd.children@ == g0.canon_children(ond.children@));
                    assert(g0.node_wf(ond));
                    assert(self.classes@[cc].data == g0.classes@[cc].data);
                    // each child reads the same class data
                    assert forall|j: int|
                        0 <= j < nnd.children@.len() implies self.classes@[self.rootof(
                        #[trigger] nnd.children@[j] as int,
                    )].data == g0.classes@[g0.rootof(ond.children@[j] as int)].data by {
                        assert(g0.canon_children(ond.children@)[j] == (g0.uf.rootof(
                            ond.children@[j] as int,
                        ) as usize));
                        assert(nnd.children@[j] as int == g0.uf.rootof(ond.children@[j] as int)) by {
                            g0.uf.lemma_rootof_le(ond.children@[j] as int);
                        }
                        g0.uf.lemma_rootof_idem(ond.children@[j] as int);
                        g0.uf.lemma_rootof_le(ond.children@[j] as int);
                        assert(self.classes@[g0.rootof(ond.children@[j] as int)]
                            == gdone.classes@[g0.rootof(ond.children@[j] as int)]);
                        assert(gdone.classes@[g0.rootof(ond.children@[j] as int)].data
                            == g0.classes@[g0.rootof(ond.children@[j] as int)].data);
                    }
                    assert(self.children_known(nnd) <==> g0.children_known(ond)) by {
                        assert(nnd.children@.len() == ond.children@.len());
                        if g0.children_known(ond) {
                            assert forall|j: int|
                                0 <= j < nnd.children@.len() implies (
                            #[trigger] self.classes@[self.rootof(
                                nnd.children@[j] as int,
                            )].data) is Some by {
                                assert(g0.classes@[g0.rootof(ond.children@[j] as int)].data
                                    is Some);
                            }
                        }
                        if self.children_known(nnd) {
                            assert forall|j: int|
                                0 <= j < ond.children@.len() implies (
                            #[trigger] g0.classes@[g0.rootof(
                                ond.children@[j] as int,
                            )].data) is Some by {
                                assert(self.classes@[self.rootof(
                                    nnd.children@[j] as int,
                                )].data is Some);
                            }
                        }
                    }
                    if self.children_known(nnd) {
                        assert(self.child_values(nnd) =~= g0.child_values(ond));
                        assert(self.head_val(nnd.head) == g0.head_val(ond.head));
                        assert(self.node_value(nnd) == g0.node_value(ond));
                        match g0.node_value(ond) {
                            Some(v) => {
                                assert(g0.classes@[cc].data == Some(v));
                            },
                            None => {},
                        }
                    }
                }
            }
        }
    }
}


impl<A> EGraph<A> {
    /// One step of the canonicalization pass: root class `c`'s node list was
    /// replaced, index for index, by nodes carrying the canonical key.
    proof fn lemma_canonize_step(self, prev: EGraph<A>, c: int)
        requires
            prev.wf(),
            0 <= c < prev.n(),
            prev.uf.is_root(c),
            self.uf.parent@ == prev.uf.parent@,
            self.hashcons@ == prev.hashcons@,
            self.pending@ == prev.pending@,
            self.interner.vals@ == prev.interner.vals@,
            self.classes@.len() == prev.classes@.len(),
            forall|cc: int|
                0 <= cc < prev.n() && cc != c ==> #[trigger] self.classes@[cc]
                    == prev.classes@[cc],
            self.classes@[c].data == prev.classes@[c].data,
            self.classes@[c].nodes@.len() == prev.classes@[c].nodes@.len(),
            forall|k: int|
                0 <= k < prev.classes@[c].nodes@.len() ==> node_key(
                    #[trigger] self.classes@[c].nodes@[k],
                ) == prev.canon_key(prev.classes@[c].nodes@[k]),
            self.pending@.len() > 0,
        ensures
            self.wf(),
    {
        assert forall|i: int| self.uf.rootof(i) == prev.uf.rootof(i) by {
            if 0 <= i < prev.uf.n() {
                prev.uf.lemma_rootof_prefix(self.uf, prev.uf.n(), i);
            }
        }
        assert(self.uf.wf()) by {
            assert forall|i: int| 0 <= i < self.uf.n() implies #[trigger] self.uf.parent@[i] as int
                <= i by {
                assert(self.uf.parent@[i] == prev.uf.parent@[i]);
            }
        }
        assert(self.interner.wf()) by {
            assert forall|j: int, k: int|
                0 <= j < k < self.interner.n() implies self.interner.vals@[j]
                    != self.interner.vals@[k] by {
                assert(self.interner.vals@[j] == prev.interner.vals@[j]);
                assert(self.interner.vals@[k] == prev.interner.vals@[k]);
            }
        }
        assert forall|cc: int, k: int|
            0 <= cc < self.n() && 0 <= k < self.classes@[cc].nodes@.len() implies self.node_wf(
            #[trigger] self.classes@[cc].nodes@[k],
        ) by {
            if cc != c {
                assert(prev.node_wf(prev.classes@[cc].nodes@[k]));
                self.lemma_node_wf_transfer(prev, self.classes@[cc].nodes@[k]);
            } else {
                let ond = prev.classes@[c].nodes@[k];
                let nd = self.classes@[c].nodes@[k];
                assert(node_key(nd) == prev.canon_key(ond));
                assert(prev.node_wf(ond));
                assert(nd.children@ == prev.canon_children(ond.children@));
                assert forall|j: int| 0 <= j < nd.children@.len() implies (
                #[trigger] nd.children@[j] as int) < self.n() by {
                    assert(prev.canon_children(ond.children@)[j] == (prev.uf.rootof(
                        ond.children@[j] as int,
                    ) as usize));
                    prev.uf.lemma_rootof_le(ond.children@[j] as int);
                }
                match nd.head {
                    Head::Leaf(h) => {
                        assert(ond.head == Head::Leaf(h));
                        assert(nd.children@.len() == 0);
                    },
                    Head::Op(_) => {},
                }
            }
        }
        assert forall|e: int|
            0 <= e < self.hashcons@.len() implies self.node_wf(#[trigger] self.hashcons@[e].0) && (
        self.hashcons@[e].1 as int) < self.n() by {
            assert(self.hashcons@[e] == prev.hashcons@[e]);
            assert(prev.node_wf(prev.hashcons@[e].0));
            self.lemma_node_wf_transfer(prev, self.hashcons@[e].0);
        }
        assert forall|e1: int, e2: int|
            0 <= e1 < e2 < self.hashcons@.len() implies node_key(self.hashcons@[e1].0) != node_key(
            self.hashcons@[e2].0,
        ) by {
            assert(self.hashcons@[e1] == prev.hashcons@[e1]);
            assert(self.hashcons@[e2] == prev.hashcons@[e2]);
        }
        assert forall|e: int|
            0 <= e < self.hashcons@.len() implies self.has_node(
            #[trigger] self.hashcons@[e].0,
            self.hashcons@[e].1 as int,
        ) by {
            assert(self.hashcons@[e] == prev.hashcons@[e]);
            let nd = prev.hashcons@[e].0;
            let d = prev.hashcons@[e].1 as int;
            assert(prev.has_node(nd, d));
            assert(prev.node_wf(nd));
            let k = choose|k: int| prev.has_node_at(nd, d, k);
            let rd = prev.rootof(d);
            prev.uf.lemma_rootof_le(d);
            if rd == c {
                let ond = prev.classes@[c].nodes@[k];
                let nnd = self.classes@[c].nodes@[k];
                assert(node_key(nnd) == prev.canon_key(ond));
                assert(nnd.children@ == prev.canon_children(ond.children@));
                assert(prev.node_wf(ond));
                assert forall|j: int| 0 <= j < nd.children@.len() implies self.same(
                    #[trigger] nd.children@[j] as int,
                    nnd.children@[j] as int,
                ) by {
                    assert(prev.canon_children(ond.children@)[j] == (prev.uf.rootof(
                        ond.children@[j] as int,
                    ) as usize));
                    assert(prev.same(nd.children@[j] as int, ond.children@[j] as int));
                    prev.uf.lemma_rootof_idem(ond.children@[j] as int);
                    prev.uf.lemma_rootof_le(ond.children@[j] as int);
                }
                assert(self.has_node_at(nd, d, k));
            } else {
                assert(self.classes@[rd] == prev.classes@[rd]);
                assert(self.has_node_at(nd, d, k));
            }
        }
        assert forall|cc: int|
            0 <= cc < self.n() && !self.uf.is_root(cc) implies self.classes@[cc].nodes@.len()
                == 0 by {
            assert(!prev.uf.is_root(cc));
            assert(prev.classes@[cc].nodes@.len() == 0);
            assert(cc != c);
            assert(self.classes@[cc] == prev.classes@[cc]);
        }
        assert(self.wf());
    }
}


impl<A: Analysis> EGraph<A> {
    /// Restore the invariants: union classes owning congruent nodes and
    /// propagate analysis values to classes that can now compute one, until
    /// neither has work left, then install the canonical table.  Returns the
    /// number of congruence unions performed.  A graph with no pending work
    /// is untouched and reports zero; otherwise a successful rebuild leaves
    /// hashcons uniqueness, congruence closure and analysis soundness
    /// holding.
    pub fn rebuild(&mut self) -> (r: Result<usize, EngineError>)
        requires
            old(self).wf(),
        ensures
            final(self).wf(),
            final(self).extends(*old(self)),
            final(self).analysis == old(self).analysis,
            r is Ok ==> final(self).clean(),
            r is Ok ==> final(self).rebuilt(),
            r is Ok && !old(self).clean() ==> final(self).analysis_ok(),
            old(self).clean() ==> r == Ok::<usize, EngineError>(0) && final(self).unchanged(*old(self)),
            r matches Err(e) ==> e == EngineError::MergeConflict,
            old(self).inert() && old(self).datafree() ==> r is Ok && final(self).datafree(),
            // the returned count is the number of congruence unions: with no
            // analysis values in play, exactly that many classes were merged,
            // and a zero count means the partition is untouched
            old(self).inert() && old(self).datafree() ==> (r matches Ok(cnt) ==> final(self).merged_count() == old(self).merged_count() + cnt),
            old(self).inert() ==> (r matches Ok(cnt2) ==> (cnt2 == 0 ==> forall|i: int, j: int|
                0 <= i < old(self).n() && 0 <= j < old(self).n() ==> (#[trigger] final(self).same(
                    i,
                    j,
                ) <==> old(self).same(i, j)))),
    {
        let ghost g0 = *old(self);
        if self.pending.len() == 0 {
            proof {
                self.lemma_unchanged_extends(g0);
            }
            return Ok(0);
        }
        let mut total: usize = 0;
        let ncap = self.classes.len();
        proof {
            assert(ncap as int == g0.n());
            self.lemma_extends_refl();
            assert(self.n() >= 1) by {
                assert((self.pending@[0] as int) < self.n());
            }
        }
        loop
            invariant
                g0 == *old(self),
                g0.wf(),
                g0.pending@.len() > 0,
                self.wf(),
                self.extends(g0),
                self.analysis == g0.analysis,
                self.pending@.len() > 0,
                g0.inert() && g0.datafree() ==> self.datafree() && self.merged_count()
                    == g0.merged_count() + total as int,
                g0.inert() ==> (total == 0 ==> self.uf.parent@ == g0.uf.parent@ && self.n()
                    == g0.n()),
                self.n() >= 1,
                g0.n() >= 1,
                g0.n() <= usize::MAX,
                total as int + self.uf.nroots(self.n()) <= g0.uf.nroots(g0.n()),
            decreases self.none_upto(self.n()), self.uf.nroots(self.n()),
        {
            let ghost gpre = *self;
            let sc = self.scan();
            match sc {
                Ok(table) => {
                    let work = self.value_scan();
                    match work {
                        Err(e) => {
                            return Err(e);
                        },
                        Ok(Some(pair)) => {
                            // a class can now compute a value: record it and
                            // fold the concrete leaf back into the class
                            let cw = pair.0;
                            let v = pair.1;
                            let ghost gmid = *self;
                            self.classes[cw].data = Some(v);
                            proof {
                                self.lemma_data_set(gmid, cw as int);
                                self.lemma_extends_trans(gmid, g0);
                                assert(self.none_at(cw as int) == 0);
                                assert(gmid.none_at(cw as int) == 1);
                                assert forall|i: int|
                                    0 <= i < self.n() implies #[trigger] self.none_at(i)
                                    <= gmid.none_at(i) by {
                                    if i != cw as int {
                                        assert(self.classes@[i] == gmid.classes@[i]);
                                    }
                                }
                                self.lemma_none_upto_lt(gmid, self.n(), cw as int);
                                gmid.uf.lemma_nroots_prefix(self.uf, gmid.uf.n());
                                assert(self.classes@[self.rootof(cw as int)].data == Some(v));
                                if g0.inert() {
                                    assert(false);
                                }
                            }
                            let ghost gset = *self;
                            let fr = self.do_fold(cw, v);
                            match fr {
                                Ok(()) => {
                                    proof {
                                        self.lemma_extends_trans(gset, g0);
                                        assert(self.none_upto(self.n()) < gpre.none_upto(
                                            gpre.n(),
                                        ));
                                    }
                                },
                                Err(e) => {
                                    proof {
                                        self.lemma_extends_trans(gset, g0);
                                    }
                                    return Err(e);
                                },
                            }
                        },
                        Ok(None) => {
                            // no congruence or value work remains: commit
                            let ghost gmid = *self;
                            self.install_table(table);
                            proof {
                                self.lemma_extends_trans(gmid, g0);
                                assert(self.uf.parent@ == gmid.uf.parent@);
                                assert forall|x: int| self.uf.rootof(x) == gmid.uf.rootof(x) by {
                                    if 0 <= x < gmid.uf.n() {
                                        gmid.uf.lemma_rootof_prefix(self.uf, gmid.uf.n(), x);
                                    }
                                }
                                gmid.uf.lemma_nroots_prefix(self.uf, gmid.uf.n());
                                if g0.inert() && total == 0 {
                                    assert forall|x: int| self.uf.rootof(x) == g0.uf.rootof(
                                        x,
                                    ) by {
                                        if 0 <= x < g0.uf.n() {
                                            g0.uf.lemma_rootof_prefix(self.uf, g0.uf.n(), x);
                                        }
                                    }
                                }
                            }
                            return Ok(total);
                        },
                    }
                },
                Err(p) => {
                    let res = self.union_ids(p.0, p.1);
                    match res {
                        Ok(ch) => {
                            proof {
                                self.lemma_extends_trans(gpre, g0);
                                assert(ch);
                                gpre.uf.lemma_nroots_pos(gpre.n());
                                self.uf.lemma_nroots_pos(self.n());
                                assert(total as int + 1 <= g0.uf.nroots(g0.n()));
                                assert(g0.uf.nroots(g0.n()) <= g0.n()) by {
                                    g0.uf.lemma_nroots_le(g0.n());
                                }
                                assert(total as int + 1 <= usize::MAX);
                            }
                            total = total + 1;
                        },
                        Err(e) => {
                            proof {
                                self.lemma_extends_trans(gpre, g0);
                            }
                            return Err(e);
                        },
                    }
                },
            }
        }
    }
}


impl<A> EGraph<A> {
    /// Congruence closure: in a rebuilt graph, member nodes of two root
    /// classes that are structurally identical once their children are
    /// canonicalized can only belong to one class.
    pub proof fn lemma_congruence(self, c1: int, k1: int, c2: int, k2: int)
        requires
            self.wf(),
            self.clean(),
            0 <= c1 < self.n(),
            0 <= c2 < self.n(),
            self.uf.is_root(c1),
            self.uf.is_root(c2),
            0 <= k1 < self.classes@[c1].nodes@.len(),
            0 <= k2 < self.classes@[c2].nodes@.len(),
            self.canon_key(self.classes@[c1].nodes@[k1]) == self.canon_key(
                self.classes@[c2].nodes@[k2],
            ),
        ensures
            c1 == c2,
    {
        let nd1 = self.classes@[c1].nodes@[k1];
        let nd2 = self.classes@[c2].nodes@[k2];
        assert(self.member_ok(c1, k1));
        assert(self.member_ok(c2, k2));
        // canonical nodes carry their canonical key
        assert(self.canon_key(nd1) == node_key(nd1)) by {
            self.lemma_canon_key_of_canonical(nd1);
        }
        assert(self.canon_key(nd2) == node_key(nd2)) by {
            self.lemma_canon_key_of_canonical(nd2);
        }
        assert(self.lookup(node_key(nd1)) == self.lookup(node_key(nd2)));
        match self.lookup(node_key(nd1)) {
            Some(d) => {
                assert(self.rootof(d as int) == c1);
                assert(self.rootof(d as int) == c2);
            },
            None => {
                assert(false);
            },
        }
    }

    /// A node whose children are representatives is its own canonical form.
    pub proof fn lemma_canon_key_of_canonical(self, nd: ENode)
        requires
            self.node_canon(nd),
        ensures
            self.canon_key(nd) == node_key(nd),
    {
        assert(self.canon_children(nd.children@) =~= nd.children@) by {
            assert forall|j: int|
                0 <= j < nd.children@.len() implies self.canon_children(nd.children@)[j]
                == nd.children@[j] by {
                assert(self.uf.is_root(nd.children@[j] as int));
            }
        }
    }

    /// Hashcons uniqueness: in a rebuilt graph, structurally identical terms
    /// (equal operators and leaf values, children equivalent) are realized by
    /// one equivalence class, so adding either returns the same id.
    pub proof fn lemma_hashcons_unique(
        self,
        s1: Seq<crate::term::TermNode>,
        i1: int,
        c1: int,
        s2: Seq<crate::term::TermNode>,
        i2: int,
        c2: int,
    )
        requires
            self.wf(),
            self.clean(),
            crate::term::term_eq(s1, i1, s2, i2),
            self.node_represents(s1, i1, c1),
            self.node_represents(s2, i2, c2),
        ensures
            self.same(c1, c2),
        decreases i1,
    {
        let r1 = self.rootof(c1);
        let r2 = self.rootof(c2);
        self.uf.lemma_rootof_le(c1);
        self.uf.lemma_rootof_le(c2);
        self.uf.lemma_rootof_idem(c1);
        self.uf.lemma_rootof_idem(c2);
        match (s1[i1], s2[i2]) {
            (crate::term::TermNode::Ref(a), crate::term::TermNode::Ref(b)) => {},
            (crate::term::TermNode::Leaf(v1), crate::term::TermNode::Leaf(v2)) => {
                let k1 = choose|k: int| self.has_leaf_at(c1, v1, k);
                let k2 = choose|k: int| self.has_leaf_at(c2, v2, k);
                let nd1 = self.classes@[r1].nodes@[k1];
                let nd2 = self.classes@[r2].nodes@[k2];
                assert(self.member_ok(r1, k1));
                assert(self.member_ok(r2, k2));
                // both nodes carry the handle of the same interned value
                match (nd1.head, nd2.head) {
                    (Head::Leaf(h1), Head::Leaf(h2)) => {
                        assert(self.interner.vals@[h1 as int] == self.interner.vals@[h2 as int]);
                        assert(h1 == h2) by {
                            if h1 != h2 {
                                assert(self.interner.wf());
                            }
                        }
                        assert(self.node_wf(nd1));
                        assert(self.node_wf(nd2));
                        assert(node_key(nd1) == node_key(nd2)) by {
                            assert(nd1.children@ =~= nd2.children@);
                        }
                        match self.lookup(node_key(nd1)) {
                            Some(d) => {
                                assert(self.rootof(d as int) == r1);
                                assert(self.rootof(d as int) == r2);
                            },
                            None => {
                                assert(false);
                            },
                        }
                    },
                    _ => {
                        assert(false);
                    },
                }
            },
            (crate::term::TermNode::Op(o1, cs1), crate::term::TermNode::Op(o2, cs2)) => {
                let k1 = choose|k: int|
                    #[trigger] self.op_shape_at(c1, o1, cs1@.len() as int, k)
                        && self.op_children_rep(s1, i1, c1, cs1@, k);
                let k2 = choose|k: int|
                    #[trigger] self.op_shape_at(c2, o2, cs2@.len() as int, k)
                        && self.op_children_rep(s2, i2, c2, cs2@, k);
                let nd1 = self.classes@[r1].nodes@[k1];
                let nd2 = self.classes@[r2].nodes@[k2];
                assert(self.member_ok(r1, k1));
                assert(self.member_ok(r2, k2));
                assert(self.node_canon(nd1));
                assert(self.node_canon(nd2));
                // the children are equivalent, and both canonical, so equal
                assert forall|j: int| 0 <= j < nd1.children@.len() implies #[trigger] nd1.children@[j]
                    == nd2.children@[j] by {
                    assert((cs1@[j] as int) < i1 && self.node_represents(
                        s1,
                        cs1@[j] as int,
                        nd1.children@[j] as int,
                    ));
                    assert((cs2@[j] as int) < i2 && self.node_represents(
                        s2,
                        cs2@[j] as int,
                        nd2.children@[j] as int,
                    ));
                    assert(crate::term::term_eq(s1, cs1@[j] as int, s2, cs2@[j] as int));
                    self.lemma_hashcons_unique(
                        s1,
                        cs1@[j] as int,
                        nd1.children@[j] as int,
                        s2,
                        cs2@[j] as int,
                        nd2.children@[j] as int,
                    );
                    assert(self.uf.is_root(nd1.children@[j] as int));
                    assert(self.uf.is_root(nd2.children@[j] as int));
                }
                assert(self.canon_key(nd1) == self.canon_key(nd2)) by {
                    assert(nd1.children@ =~= nd2.children@);
                    assert(nd1.head == Head::Op(o1));
                    assert(nd2.head == Head::Op(o2));
                }
                self.lemma_congruence(r1, k1, r2, k2);
            },
            _ => {
                assert(false);
            },
        }
    }

    /// In a graph where nothing was ever unioned, realization is one to one:
    /// a class realizes a single term shape, so extraction after zero rewrite
    /// rounds returns the ingested term unchanged.
    pub proof fn lemma_represents_unique_unmerged(
        self,
        s1: Seq<crate::term::TermNode>,
        i1: int,
        s2: Seq<crate::term::TermNode>,
        i2: int,
        c: int,
    )
        requires
            self.wf(),
            self.unmerged(),
            self.node_represents(s1, i1, c),
            self.node_represents(s2, i2, c),
            !(s1[i1] is Ref),
            !(s2[i2] is Ref),
            forall|j: int| 0 <= j < s1.len() ==> !(#[trigger] s1[j] is Ref),
            forall|j: int| 0 <= j < s2.len() ==> !(#[trigger] s2[j] is Ref),
        ensures
            crate::term::term_eq(s1, i1, s2, i2),
        decreases i1,
    {
        let r = self.rootof(c);
        self.uf.lemma_rootof_le(c);
        assert(self.uf.is_root(c));
        assert(r == c);
        assert(self.classes@[c].nodes@.len() == 1);
        match (s1[i1], s2[i2]) {
            (crate::term::TermNode::Leaf(v1), crate::term::TermNode::Leaf(v2)) => {
                let k1 = choose|k: int| self.has_leaf_at(c, v1, k);
                let k2 = choose|k: int| self.has_leaf_at(c, v2, k);
                assert(k1 == 0 && k2 == 0);
                let nd = self.classes@[c].nodes@[0];
                match nd.head {
                    Head::Leaf(h) => {
                        assert(v1 == self.interner.vals@[h as int]);
                        assert(v2 == self.interner.vals@[h as int]);
                    },
                    _ => {
                        assert(false);
                    },
                }
            },
            (crate::term::TermNode::Op(o1, cs1), crate::term::TermNode::Op(o2, cs2)) => {
                let k1 = choose|k: int|
                    #[trigger] self.op_shape_at(c, o1, cs1@.len() as int, k)
                        && self.op_children_rep(s1, i1, c, cs1@, k);
                let k2 = choose|k: int|
                    #[trigger] self.op_shape_at(c, o2, cs2@.len() as int, k)
                        && self.op_children_rep(s2, i2, c, cs2@, k);
                assert(k1 == 0 && k2 == 0);
                let nd = self.classes@[c].nodes@[0];
                assert(nd.head == Head::Op(o1));
                assert(nd.head == Head::Op(o2));
                assert(cs1@.len() == nd.children@.len());
                assert(cs2@.len() == nd.children@.len());
                assert forall|j: int| 0 <= j < cs1@.len() implies (#[trigger] cs1@[j] as int) < i1
                    && crate::term::term_eq(s1, cs1@[j] as int, s2, cs2@[j] as int) by {
                    assert((cs1@[j] as int) < i1 && self.node_represents(
                        s1,
                        cs1@[j] as int,
                        nd.children@[j] as int,
                    ));
                    assert((cs2@[j] as int) < i2 && self.node_represents(
                        s2,
                        cs2@[j] as int,
                        nd.children@[j] as int,
                    ));
                    assert(!(s1[cs1@[j] as int] is Ref));
                    assert(!(s2[cs2@[j] as int] is Ref));
                    self.lemma_represents_unique_unmerged(
                        s1,
                        cs1@[j] as int,
                        s2,
                        cs2@[j] as int,
                        nd.children@[j] as int,
                    );
                }
            },
            (crate::term::TermNode::Leaf(v1), crate::term::TermNode::Op(o2, cs2)) => {
                let k1 = choose|k: int| self.has_leaf_at(c, v1, k);
                let k2 = choose|k: int|
                    #[trigger] self.op_shape_at(c, o2, cs2@.len() as int, k)
                        && self.op_children_rep(s2, i2, c, cs2@, k);
                assert(k1 == 0 && k2 == 0);
                assert(false);
            },
            (crate::term::TermNode::Op(o1, cs1), crate::term::TermNode::Leaf(v2)) => {
                let k1 = choose|k: int|
                    #[trigger] self.op_shape_at(c, o1, cs1@.len() as int, k)
                        && self.op_children_rep(s1, i1, c, cs1@, k);
                let k2 = choose|k: int| self.has_leaf_at(c, v2, k);
                assert(k1 == 0 && k2 == 0);
                assert(false);
            },
            _ => {},
        }
    }
}


impl<A> EGraph<A> {
    /// Realization of the term at `i` only reads nodes up to `i`, so
    /// extending the node list preserves it.
    pub proof fn lemma_represents_grow(
        self,
        s1: Seq<crate::term::TermNode>,
        s2: Seq<crate::term::TermNode>,
        i: int,
        c: int,
    )
        requires
            s1.len() <= s2.len(),
            forall|jj: int| 0 <= jj < s1.len() ==> s2[jj] == s1[jj],
            self.node_represents(s1, i, c),
        ensures
            self.node_represents(s2, i, c),
        decreases i,
    {
        match s1[i] {
            crate::term::TermNode::Op(op, cs) => {
                assert(self.has_op_node(s1, i, c, op, cs@));
                let k = choose|k: int|
                    #[trigger] self.op_shape_at(c, op, cs@.len() as int, k)
                        && self.op_children_rep(s1, i, c, cs@, k);
                assert forall|j: int| 0 <= j < cs@.len() implies (#[trigger] cs@[j] as int) < i
                    && self.node_represents(
                    s2,
                    cs@[j] as int,
                    self.classes@[self.rootof(c)].nodes@[k].children@[j] as int,
                ) by {
                    assert(self.node_represents(
                        s1,
                        cs@[j] as int,
                        self.classes@[self.rootof(c)].nodes@[k].children@[j] as int,
                    ));
                    self.lemma_represents_grow(
                        s1,
                        s2,
                        cs@[j] as int,
                        self.classes@[self.rootof(c)].nodes@[k].children@[j] as int,
                    );
                }
                assert(self.op_children_rep(s2, i, c, cs@, k));
                assert(self.has_op_node(s2, i, c, op, cs@));
            },
            _ => {},
        }
    }
}


impl<A: crate::graph::Analysis> EGraph<A> {
    /// A node's head as the evaluator sees it.
    pub open spec fn head_val(self, h: Head) -> EvalHead {
        match h {
            Head::Op(o) => EvalHead::Op(o),
            Head::Leaf(hh) => EvalHead::Leaf(self.interner.vals@[hh as int]),
        }
    }

    /// Every child class of the node carries a known analysis value.
    pub open spec fn children_known(self, nd: ENode) -> bool {
        forall|j: int|
            0 <= j < nd.children@.len() ==> (#[trigger] self.classes@[self.rootof(
                nd.children@[j] as int,
            )].data) is Some
    }

    /// The children's current analysis values, in order.
    pub open spec fn child_values(self, nd: ENode) -> Seq<i64> {
        Seq::new(
            nd.children@.len(),
            |j: int| self.classes@[self.rootof(nd.children@[j] as int)].data.unwrap(),
        )
    }

    /// What the evaluator computes for this node right now: its value over
    /// the children's current values, or nothing while any child is unknown.
    pub open spec fn node_value(self, nd: ENode) -> Option<i64> {
        if self.children_known(nd) {
            self.analysis.eval_spec(self.head_val(nd.head), self.child_values(nd))
        } else {
            None
        }
    }

    /// Analysis soundness: every member node whose value is computable
    /// agrees with its class's recorded value.  `rebuild` restores this.
    pub open spec fn analysis_ok(self) -> bool {
        forall|c: int, k: int|
            0 <= c < self.n() && self.uf.is_root(c) && 0 <= k < self.classes@[c].nodes@.len()
                ==> match #[trigger] self.node_value(self.classes@[c].nodes@[k]) {
                Some(v) => self.classes@[c].data == Some(v),
                None => true,
            }
    }
}

impl<A> EGraph<A> {
    /// Re-establish the invariants after recording a value on one root
    /// class: only that class's data changed.
    proof fn lemma_data_set(self, prev: EGraph<A>, c: int)
        requires
            prev.wf(),
            0 <= c < prev.n(),
            self.uf.parent@ == prev.uf.parent@,
            self.hashcons@ == prev.hashcons@,
            self.pending@ == prev.pending@,
            self.interner.vals@ == prev.interner.vals@,
            self.classes@.len() == prev.classes@.len(),
            forall|cc: int|
                0 <= cc < prev.n() && cc != c ==> #[trigger] self.classes@[cc]
                    == prev.classes@[cc],
            self.classes@[c].nodes@ == prev.classes@[c].nodes@,
            self.pending@.len() > 0,
        ensures
            self.wf(),
            self.extends(prev),
    {
        assert forall|i: int| self.uf.rootof(i) == prev.uf.rootof(i) by {
            if 0 <= i < prev.uf.n() {
                prev.uf.lemma_rootof_prefix(self.uf, prev.uf.n(), i);
            }
        }
        assert(self.uf.wf()) by {
            assert forall|i: int| 0 <= i < self.uf.n() implies #[trigger] self.uf.parent@[i] as int
                <= i by {
                assert(self.uf.parent@[i] == prev.uf.parent@[i]);
            }
        }
        assert(self.interner.wf()) by {
            assert forall|j: int, k: int|
                0 <= j < k < self.interner.n() implies self.interner.vals@[j]
                    != self.interner.vals@[k] by {
                assert(self.interner.vals@[j] == prev.interner.vals@[j]);
                assert(self.interner.vals@[k] == prev.interner.vals@[k]);
            }
        }
        assert forall|cc: int, k: int|
            0 <= cc < self.n() && 0 <= k < self.classes@[cc].nodes@.len() implies self.node_wf(
            #[trigger] self.classes@[cc].nodes@[k],
        ) by {
            assert(self.classes@[cc].nodes@[k] == prev.classes@[cc].nodes@[k]);
            assert(prev.node_wf(prev.classes@[cc].nodes@[k]));
            self.lemma_node_wf_transfer(prev, self.classes@[cc].nodes@[k]);
        }
        assert forall|e: int|
            0 <= e < self.hashcons@.len() implies self.node_wf(#[trigger] self.hashcons@[e].0) && (
        self.hashcons@[e].1 as int) < self.n() by {
            assert(self.hashcons@[e] == prev.hashcons@[e]);
            assert(prev.node_wf(prev.hashcons@[e].0));
            self.lemma_node_wf_transfer(prev, self.hashcons@[e].0);
        }
        assert forall|cc: int|
            0 <= cc < self.n() && !self.uf.is_root(cc) implies self.classes@[cc].nodes@.len()
                == 0 by {
            assert(!prev.uf.is_root(cc));
            assert(prev.classes@[cc].nodes@.len() == 0);
        }
        assert forall|e: int|
            0 <= e < self.hashcons@.len() implies self.has_node(
            #[trigger] self.hashcons@[e].0,
            self.hashcons@[e].1 as int,
        ) by {
            assert(prev.has_node(prev.hashcons@[e].0, prev.hashcons@[e].1 as int));
            let k = choose|k: int|
                prev.has_node_at(prev.hashcons@[e].0, prev.hashcons@[e].1 as int, k);
            let d = prev.hashcons@[e].1 as int;
            prev.uf.lemma_rootof_le(d);
            assert(0 <= prev.rootof(d) < prev.n());
            if prev.rootof(d) == c {
                assert(self.classes@[c].nodes@ == prev.classes@[c].nodes@);
            } else {
                assert(self.classes@[prev.rootof(d)] == prev.classes@[prev.rootof(d)]);
            }
            assert(self.has_node_at(self.hashcons@[e].0, self.hashcons@[e].1 as int, k));
        }
        assert forall|cc: int, k: int|
            0 <= cc < prev.n() && prev.uf.is_root(cc) && 0 <= k
                < prev.classes@[cc].nodes@.len() implies self.has_node(
            #[trigger] prev.classes@[cc].nodes@[k],
            cc,
        ) by {
            let nd = prev.classes@[cc].nodes@[k];
            assert(self.rootof(cc) == cc);
            assert(self.classes@[cc].nodes@[k] == nd);
            assert(self.has_node_at(nd, cc, k));
        }
        assert(self.wf());
        assert(self.extends(prev));
    }
}


impl<A: Analysis> EGraph<A> {
    /// Walk every member node and compare the value it computes with its
    /// class's recorded value.  Either a class with no value can learn one
    /// (a work item), or two known values disagree (a fatal conflict), or
    /// neither, certifying analysis soundness.  An analysis that computes
    /// nothing never yields work.
    #[verifier::rlimit(60)]
    fn value_scan(&self) -> (r: Result<Option<(Id, i64)>, EngineError>)
        requires
            self.wf(),
        ensures
            r == Ok::<Option<(Id, i64)>, EngineError>(None) ==> self.analysis_ok(),
            r matches Ok(w) ==> (w matches Some(p) ==> (p.0 as int) < self.n() && self.uf.is_root(
                p.0 as int,
            ) && self.classes@[p.0 as int].data is None),
            r matches Err(e) ==> e == EngineError::MergeConflict,
            self.inert() ==> r == Ok::<Option<(Id, i64)>, EngineError>(None),
    {
        let n = self.classes.len();
        let mut c: usize = 0;
        while c < n
            invariant
                self.wf(),
                n == self.n(),
                c <= n,
                forall|cc: int, kk: int|
                    0 <= cc < c as int && self.uf.is_root(cc) && 0 <= kk
                        < self.classes@[cc].nodes@.len() ==> match #[trigger] self.node_value(
                        self.classes@[cc].nodes@[kk],
                    ) {
                        Some(v) => self.classes@[cc].data == Some(v),
                        None => true,
                    },
            decreases n - c,
        {
            let rc = self.uf.find(c);
            if rc == c {
                let klen = self.classes[c].nodes.len();
                let mut k: usize = 0;
                while k < klen
                    invariant
                        self.wf(),
                        n == self.n(),
                        c < n,
                        self.uf.is_root(c as int),
                        klen == self.classes@[c as int].nodes@.len(),
                        k <= klen,
                        forall|cc: int, kk: int|
                            0 <= cc < c as int && self.uf.is_root(cc) && 0 <= kk
                                < self.classes@[cc].nodes@.len() ==> match #[trigger] self.node_value(
                                self.classes@[cc].nodes@[kk],
                            ) {
                                Some(v) => self.classes@[cc].data == Some(v),
                                None => true,
                            },
                        forall|kk: int|
                            0 <= kk < k as int ==> match #[trigger] self.node_value(
                                self.classes@[c as int].nodes@[kk],
                            ) {
                                Some(v) => self.classes@[c as int].data == Some(v),
                                None => true,
                            },
                    decreases klen - k,
                {
                    let ghost nd = self.classes@[c as int].nodes@[k as int];
                    let m = self.classes[c].nodes[k].children.len();
                    let mut vals: Vec<i64> = Vec::new();
                    let mut all = true;
                    let mut j: usize = 0;
                    while j < m
                        invariant
                            self.wf(),
                            n == self.n(),
                            c < n,
                            (k as int) < self.classes@[c as int].nodes@.len(),
                            nd == self.classes@[c as int].nodes@[k as int],
                            m == nd.children@.len(),
                            j <= m,
                            all ==> vals@.len() == j as int && forall|jj: int|
                                0 <= jj < j as int ==> ((#[trigger] self.classes@[self.rootof(
                                    nd.children@[jj] as int,
                                )].data) matches Some(x) && vals@[jj] == x),
                            !all ==> !self.children_known(nd),
                        decreases m - j,
                    {
                        proof {
                            assert(self.node_wf(nd));
                            assert((nd.children@[j as int] as int) < self.n()) by {
                                match nd.head {
                                    Head::Leaf(_) => {
                                        assert(false);
                                    },
                                    Head::Op(_) => {},
                                }
                            }
                        }
                        let ch = self.classes[c].nodes[k].children[j];
                        let rch = self.uf.find(ch);
                        if all {
                            match self.classes[rch].data {
                                Some(x) => {
                                    vals.push(x);
                                },
                                None => {
                                    all = false;
                                    proof {
                                        assert(self.classes@[self.rootof(
                                            nd.children@[j as int] as int,
                                        )].data is None);
                                        assert(!self.children_known(nd));
                                    }
                                },
                            }
                        }
                        j = j + 1;
                    }
                    let cand = if all {
                        proof {
                            assert(self.children_known(nd));
                            assert(vals@ =~= self.child_values(nd));
                        }
                        let eh = match self.classes[c].nodes[k].head {
                            Head::Op(op) => EvalHead::Op(op),
                            Head::Leaf(hh) => {
                                proof {
                                    assert(self.node_wf(nd));
                                }
                                EvalHead::Leaf(self.interner.value(hh))
                            },
                        };
                        proof {
                            assert(eh == self.head_val(nd.head));
                        }
                        self.analysis.eval(eh, &vals)
                    } else {
                        None
                    };
                    proof {
                        assert(cand == self.node_value(nd));
                    }
                    match cand {
                        Some(v) => {
                            match self.classes[c].data {
                                None => {
                                    proof {
                                        if self.inert() {
                                            assert(false);
                                        }
                                    }
                                    return Ok(Some((c, v)));
                                },
                                Some(w) => {
                                    if v != w {
                                        proof {
                                            if self.inert() {
                                                assert(false);
                                            }
                                        }
                                        return Err(EngineError::MergeConflict);
                                    }
                                },
                            }
                        },
                        None => {},
                    }
                    k = k + 1;
                }
            } else {
                proof {
                    assert(!self.uf.is_root(c as int));
                    assert(self.classes@[c as int].nodes@.len() == 0);
                }
            }
            c = c + 1;
        }
        Ok(None)
    }
}

} // verus!
