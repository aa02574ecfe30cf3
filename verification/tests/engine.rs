use egraph::{EGraph, EngineError, Expr, NoAnalysis, TermNode};

const ADD: u64 = 1;
const MUL: u64 = 2;

fn leaf(v: i64) -> Expr {
    Expr { nodes: vec![TermNode::Leaf(v)] }
}

fn binary(op: u64, a: i64, b: i64) -> Expr {
    Expr { nodes: vec![TermNode::Leaf(a), TermNode::Leaf(b), TermNode::Op(op, vec![0, 1])] }
}

fn unary_of_ref(op: u64, id: usize) -> Expr {
    Expr { nodes: vec![TermNode::Ref(id), TermNode::Op(op, vec![0])] }
}

#[test]
fn hashcons_unique_add_twice() {
    let mut g = EGraph::new(NoAnalysis);
    let a = g.add(&binary(ADD, 1, 2)).unwrap();
    let b = g.add(&binary(ADD, 1, 2)).unwrap();
    assert_eq!(a, b);
    // a structurally different term gets a different class
    let c = g.add(&binary(ADD, 2, 1)).unwrap();
    assert_ne!(a, c);
}

#[test]
fn hashcons_unique_after_rebuild() {
    // union two leaves, rebuild, then the two parents must collapse
    let mut g = EGraph::new(NoAnalysis);
    let x = g.add(&leaf(10)).unwrap();
    let y = g.add(&leaf(11)).unwrap();
    let fx = g.add(&unary_of_ref(MUL, x)).unwrap();
    let fy = g.add(&unary_of_ref(MUL, y)).unwrap();
    assert_ne!(fx, fy);
    let changed = g.union_ids(x, y).unwrap();
    assert!(changed);
    let unions = g.rebuild().unwrap();
    assert!(unions >= 1);
    // adding the two parents again now yields one class
    let fx2 = g.add(&unary_of_ref(MUL, x)).unwrap();
    let fy2 = g.add(&unary_of_ref(MUL, y)).unwrap();
    assert_eq!(fx2, fy2);
}

#[test]
fn union_reports_change_once() {
    let mut g = EGraph::new(NoAnalysis);
    let a = g.add(&leaf(1)).unwrap();
    let b = g.add(&leaf(2)).unwrap();
    assert!(g.union_ids(a, b).unwrap());
    assert!(!g.union_ids(a, b).unwrap());
}

#[test]
fn union_exprs_reports_change_once() {
    let mut g = EGraph::new(NoAnalysis);
    let es = vec![binary(ADD, 1, 2), binary(ADD, 2, 1)];
    assert!(g.union(&es).unwrap());
    assert!(!g.union(&es).unwrap());
}

#[test]
fn equiv_after_union() {
    let mut g = EGraph::new(NoAnalysis);
    let es = vec![binary(ADD, 1, 2), binary(ADD, 2, 1)];
    assert!(!g.equiv(&es).unwrap());
    g.union(&es).unwrap();
    g.rebuild().unwrap();
    assert!(g.equiv(&es).unwrap());
}

#[test]
fn rebuild_on_clean_graph_returns_zero() {
    let mut g = EGraph::new(NoAnalysis);
    g.add(&binary(ADD, 1, 2)).unwrap();
    assert_eq!(g.rebuild().unwrap(), 0);
}

#[test]
fn congruence_closure_through_children() {
    // g(f(a)) and g(f(b)) collapse once a ~ b is declared and rebuilt
    let mut g = EGraph::new(NoAnalysis);
    let a = g.add(&leaf(1)).unwrap();
    let b = g.add(&leaf(2)).unwrap();
    let fa = g.add(&unary_of_ref(MUL, a)).unwrap();
    let fb = g.add(&unary_of_ref(MUL, b)).unwrap();
    let gfa = g.add(&unary_of_ref(ADD, fa)).unwrap();
    let gfb = g.add(&unary_of_ref(ADD, fb)).unwrap();
    assert_ne!(gfa, gfb);
    g.union_ids(a, b).unwrap();
    g.rebuild().unwrap();
    let es = vec![unary_of_ref(ADD, fa), unary_of_ref(ADD, fb)];
    assert!(g.equiv(&es).unwrap());
}

#[test]
fn var_in_plain_term_is_rejected() {
    let mut g = EGraph::new(NoAnalysis);
    let e = Expr { nodes: vec![TermNode::Var(egraph::Var::from_name("x"))] };
    assert_eq!(g.add(&e), Err(EngineError::VarInTerm));
}

#[test]
fn empty_expression_is_rejected() {
    let mut g = EGraph::new(NoAnalysis);
    let e = Expr { nodes: vec![] };
    assert_eq!(g.add(&e), Err(EngineError::EmptyExpr));
}

#[test]
fn unknown_id_is_rejected() {
    let mut g = EGraph::new(NoAnalysis);
    let e = unary_of_ref(ADD, 7);
    assert_eq!(g.add(&e), Err(EngineError::UnknownId));
}

#[test]
fn forward_child_is_rejected() {
    let mut g = EGraph::new(NoAnalysis);
    let e = Expr { nodes: vec![TermNode::Op(ADD, vec![1]), TermNode::Leaf(1)] };
    assert_eq!(g.add(&e), Err(EngineError::MalformedExpr));
}

#[test]
fn union_needs_two_operands() {
    let mut g = EGraph::new(NoAnalysis);
    assert_eq!(g.union(&vec![leaf(1)]), Err(EngineError::TooFewOperands));
    assert_eq!(g.equiv(&vec![leaf(1)]), Err(EngineError::TooFewOperands));
}

#[test]
fn ref_resolves_to_existing_class() {
    let mut g = EGraph::new(NoAnalysis);
    let a = g.add(&leaf(5)).unwrap();
    let e = Expr { nodes: vec![TermNode::Ref(a)] };
    let b = g.add(&e).unwrap();
    assert_eq!(a, b);
}
