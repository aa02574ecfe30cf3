use egraph::{
    DynamicApplier, EGraph, EngineError, Expr, NoAnalysis, NoDynamic, Pattern, Rewrite,
    StopReason, SumAnalysis, TermNode, Var,
};

const ADD: u64 = 1;

fn sat_leaf(v: i64) -> Expr {
    Expr { nodes: vec![TermNode::Leaf(v)] }
}

fn sat_binary(op: u64, a: i64, b: i64) -> Expr {
    Expr { nodes: vec![TermNode::Leaf(a), TermNode::Leaf(b), TermNode::Op(op, vec![0, 1])] }
}

fn var_node(name: &str) -> TermNode {
    TermNode::Var(Var::from_name(name))
}

/// The commutativity template `(add ?x ?y)`.
fn comm_lhs() -> Expr {
    Expr { nodes: vec![var_node("x"), var_node("y"), TermNode::Op(ADD, vec![0, 1])] }
}

/// The swapped template `(add ?y ?x)`.
fn comm_rhs() -> Expr {
    Expr { nodes: vec![var_node("y"), var_node("x"), TermNode::Op(ADD, vec![0, 1])] }
}

#[test]
fn commutativity_makes_swapped_sums_equivalent() {
    let mut g = EGraph::new(NoAnalysis);
    g.add(&sat_binary(ADD, 1, 2)).unwrap();
    g.add(&sat_binary(ADD, 2, 1)).unwrap();
    let rw: Rewrite<NoDynamic> =
        Rewrite::from_patterns(String::from("comm"), comm_lhs(), comm_rhs()).unwrap();
    let stop = g.run(&vec![rw], 10, 10_000, 100_000).unwrap();
    assert_eq!(stop, StopReason::Saturated);
    let es = vec![sat_binary(ADD, 1, 2), sat_binary(ADD, 2, 1)];
    assert!(g.equiv(&es).unwrap());
    // the run leaves the graph rebuilt: no pending work remains
    assert_eq!(g.rebuild().unwrap(), 0);
}

#[test]
fn unmatched_rules_saturate_in_one_round() {
    let mut g = EGraph::new(NoAnalysis);
    g.add(&sat_binary(ADD, 1, 2)).unwrap();
    let before = g.node_count();
    // a searcher over an operator the graph does not contain
    let lhs = Expr { nodes: vec![var_node("x"), TermNode::Op(99, vec![0])] };
    let rhs = Expr { nodes: vec![var_node("x")] };
    let rw: Rewrite<NoDynamic> =
        Rewrite::from_patterns(String::from("nope"), lhs, rhs).unwrap();
    let stop = g.run(&vec![rw], 10, 10_000, 100_000).unwrap();
    assert_eq!(stop, StopReason::Saturated);
    assert_eq!(g.node_count(), before);
}

#[test]
fn iteration_limit_stops_a_run() {
    let mut g = EGraph::new(NoAnalysis);
    g.add(&sat_binary(ADD, 1, 2)).unwrap();
    let rw: Rewrite<NoDynamic> =
        Rewrite::from_patterns(String::from("comm"), comm_lhs(), comm_rhs()).unwrap();
    let stop = g.run(&vec![rw], 0, 10_000, 100_000).unwrap();
    assert_eq!(stop, StopReason::IterLimit);
}

#[test]
fn node_limit_stops_a_run() {
    let mut g = EGraph::new(NoAnalysis);
    g.add(&sat_binary(ADD, 1, 2)).unwrap();
    let rw: Rewrite<NoDynamic> =
        Rewrite::from_patterns(String::from("comm"), comm_lhs(), comm_rhs()).unwrap();
    let stop = g.run(&vec![rw], 10, 10_000, 0).unwrap();
    assert_eq!(stop, StopReason::NodeLimit);
}

#[test]
fn time_limit_stops_a_run() {
    let mut g = EGraph::new(NoAnalysis);
    g.add(&sat_binary(ADD, 1, 2)).unwrap();
    let rw: Rewrite<NoDynamic> =
        Rewrite::from_patterns(String::from("comm"), comm_lhs(), comm_rhs()).unwrap();
    let stop = g.run(&vec![rw], 10, 0, 100_000).unwrap();
    assert_eq!(stop, StopReason::TimeLimit);
}

#[test]
fn unbound_applier_variable_is_reported() {
    let mut g = EGraph::new(NoAnalysis);
    g.add(&sat_binary(ADD, 1, 2)).unwrap();
    let rhs = Expr { nodes: vec![var_node("z")] };
    let rw: Rewrite<NoDynamic> =
        Rewrite::from_patterns(String::from("loose"), comm_lhs(), rhs).unwrap();
    assert_eq!(g.run(&vec![rw], 10, 10_000, 100_000), Err(EngineError::UnboundVar));
}

const PAIR: u64 = 7;
const WRAP: u64 = 8;

/// `(pair (wrap ?x) (wrap ?x))`: the same variable under two siblings.
fn repeated_var_lhs() -> Expr {
    Expr {
        nodes: vec![
            var_node("x"),
            TermNode::Op(WRAP, vec![0]),
            var_node("x"),
            TermNode::Op(WRAP, vec![2]),
            TermNode::Op(PAIR, vec![1, 3]),
        ],
    }
}

#[test]
fn repeated_variable_must_bind_one_class() {
    // (pair (wrap 1) (wrap 1)) matches, (pair (wrap 1) (wrap 2)) must not
    let mut g = EGraph::new(NoAnalysis);
    let consistent = Expr {
        nodes: vec![
            TermNode::Leaf(1),
            TermNode::Op(WRAP, vec![0]),
            TermNode::Leaf(1),
            TermNode::Op(WRAP, vec![2]),
            TermNode::Op(PAIR, vec![1, 3]),
        ],
    };
    let inconsistent = Expr {
        nodes: vec![
            TermNode::Leaf(1),
            TermNode::Op(WRAP, vec![0]),
            TermNode::Leaf(2),
            TermNode::Op(WRAP, vec![2]),
            TermNode::Op(PAIR, vec![1, 3]),
        ],
    };
    g.add(&consistent).unwrap();
    g.add(&inconsistent).unwrap();
    let rhs = Expr { nodes: vec![TermNode::Leaf(42)] };
    let rw: Rewrite<NoDynamic> =
        Rewrite::from_patterns(String::from("collapse"), repeated_var_lhs(), rhs).unwrap();
    let stop = g.run(&vec![rw], 10, 10_000, 100_000).unwrap();
    assert_eq!(stop, StopReason::Saturated);
    // the consistent pair was rewritten, the inconsistent one was not
    assert!(g.equiv(&vec![consistent, sat_leaf(42)]).unwrap());
    assert!(!g.equiv(&vec![inconsistent, sat_leaf(42)]).unwrap());
}

#[test]
fn matcher_backtracks_across_member_nodes() {
    // the first (wrap _) member of the pair's children binds ?x two ways;
    // only one is consistent, and it must still be found
    let mut g = EGraph::new(NoAnalysis);
    let w1 = Expr { nodes: vec![TermNode::Leaf(1), TermNode::Op(WRAP, vec![0])] };
    let w2 = Expr { nodes: vec![TermNode::Leaf(2), TermNode::Op(WRAP, vec![0])] };
    let a = g.add(&w1).unwrap();
    let b = g.add(&w2).unwrap();
    // make the two wrapped classes equal, so (wrap 1) and (wrap 2) share a
    // class with two member nodes after rebuilding
    g.union_ids(a, b).unwrap();
    g.rebuild().unwrap();
    let pair = Expr { nodes: vec![TermNode::Ref(a), TermNode::Ref(b), TermNode::Op(PAIR, vec![0, 1])] };
    g.add(&pair).unwrap();
    let rhs = Expr { nodes: vec![TermNode::Leaf(42)] };
    let rw: Rewrite<NoDynamic> =
        Rewrite::from_patterns(String::from("collapse"), repeated_var_lhs(), rhs).unwrap();
    let stop = g.run(&vec![rw], 10, 10_000, 100_000).unwrap();
    assert_eq!(stop, StopReason::Saturated);
    assert!(g.equiv(&vec![pair, sat_leaf(42)]).unwrap());
}

#[test]
fn ref_in_pattern_is_rejected() {
    let e = Expr { nodes: vec![TermNode::Ref(0)] };
    assert!(matches!(Pattern::compile(e), Err(EngineError::RefInPattern)));
}

/// A dynamic applier that always rewrites to a fixed constant.
struct ToConstant;

impl DynamicApplier for ToConstant {
    fn build(&self, _binds: &Vec<(Var, Option<i64>)>) -> Pattern {
        Pattern { nodes: vec![TermNode::Leaf(42)] }
    }
}

#[test]
fn dynamic_applier_runs_per_match() {
    let mut g = EGraph::new(NoAnalysis);
    g.add(&sat_binary(ADD, 1, 2)).unwrap();
    let rw: Rewrite<ToConstant> =
        Rewrite::dynamic(String::from("to42"), comm_lhs(), ToConstant).unwrap();
    let stop = g.run(&vec![rw], 10, 10_000, 100_000).unwrap();
    assert_eq!(stop, StopReason::Saturated);
    let es = vec![sat_binary(ADD, 1, 2), sat_leaf(42)];
    assert!(g.equiv(&es).unwrap());
}

#[test]
fn constant_folding_injects_the_result_leaf() {
    let mut g = EGraph::new(SumAnalysis { op: ADD });
    g.add(&sat_binary(ADD, 1, 2)).unwrap();
    g.rebuild().unwrap();
    // the sum's class now contains the leaf 3
    let es = vec![sat_binary(ADD, 1, 2), sat_leaf(3)];
    assert!(g.equiv(&es).unwrap());
}

#[test]
fn rebuild_propagates_values_to_waiting_parents() {
    // (mul 1 2) has no value under the sum analysis, so (add (mul 1 2) 3)
    // starts unknown; once the inner class learns a value, rebuilding must
    // re-evaluate the parent and fold its sum in
    const MUL: u64 = 2;
    let mut g = EGraph::new(SumAnalysis { op: ADD });
    let inner = sat_binary(MUL, 1, 2);
    let outer = Expr {
        nodes: vec![
            TermNode::Leaf(1),
            TermNode::Leaf(2),
            TermNode::Op(MUL, vec![0, 1]),
            TermNode::Leaf(3),
            TermNode::Op(ADD, vec![2, 3]),
        ],
    };
    g.add(&outer).unwrap();
    g.union(&vec![inner, sat_leaf(5)]).unwrap();
    g.rebuild().unwrap();
    // the parent's value 5 + 3 was computed and folded back as a leaf
    assert!(g.equiv(&vec![outer, sat_leaf(8)]).unwrap());
}

#[test]
fn conflicting_known_values_are_fatal() {
    let mut g = EGraph::new(SumAnalysis { op: ADD });
    let a = g.add(&sat_leaf(1)).unwrap();
    let b = g.add(&sat_leaf(2)).unwrap();
    assert_eq!(g.union_ids(a, b), Err(EngineError::MergeConflict));
}

#[test]
fn vars_splits_names() {
    let vs = egraph::vars("x y");
    assert_eq!(vs.len(), 2);
    assert_eq!(vs[0].text, "?x");
    assert_eq!(vs[1].text, "?y");
    assert_eq!(Var::from_name("abc").text, "?abc");
}
