use egraph::{EGraph, Expr, NoAnalysis, TermNode};

const ADD: u64 = 1;
const MUL: u64 = 2;

fn ex_leaf(v: i64) -> Expr {
    Expr { nodes: vec![TermNode::Leaf(v)] }
}

fn ex_binary(op: u64, a: i64, b: i64) -> Expr {
    Expr { nodes: vec![TermNode::Leaf(a), TermNode::Leaf(b), TermNode::Op(op, vec![0, 1])] }
}

fn shape(e: &Expr) -> Vec<String> {
    let mut out = Vec::new();
    for n in &e.nodes {
        match n {
            TermNode::Leaf(v) => out.push(format!("leaf {}", v)),
            TermNode::Op(op, cs) => out.push(format!("op {} {:?}", op, cs)),
            TermNode::Ref(d) => out.push(format!("ref {}", d)),
            TermNode::Var(v) => out.push(format!("var {:?}", v.text)),
        }
    }
    out
}

#[test]
fn extraction_round_trips_an_added_term() {
    let mut g = EGraph::new(NoAnalysis);
    let input = ex_binary(MUL, 3, 4);
    let outs = g.extract(&vec![input.clone()]).unwrap();
    assert_eq!(outs.len(), 1);
    assert_eq!(shape(&outs[0]), shape(&input));
}

#[test]
fn extraction_picks_the_smaller_representative() {
    let mut g = EGraph::new(NoAnalysis);
    let sum = ex_binary(ADD, 1, 2);
    let three = ex_leaf(3);
    g.union(&vec![sum.clone(), three.clone()]).unwrap();
    g.rebuild().unwrap();
    let outs = g.extract(&vec![sum]).unwrap();
    // the class holds both (add 1 2), size three, and the leaf 3, size one
    assert_eq!(shape(&outs[0]), shape(&three));
}

#[test]
fn extraction_terminates_on_cyclic_classes() {
    // union f(x) with x: the class refers to itself, yet the leaf is finite
    let mut g = EGraph::new(NoAnalysis);
    let x = g.add(&ex_leaf(7)).unwrap();
    let fx = Expr { nodes: vec![TermNode::Ref(x), TermNode::Op(MUL, vec![0])] };
    g.union(&vec![fx, ex_leaf(7)]).unwrap();
    g.rebuild().unwrap();
    let outs = g.extract(&vec![ex_leaf(7)]).unwrap();
    assert_eq!(shape(&outs[0]), shape(&ex_leaf(7)));
}

#[test]
fn extraction_is_deterministic_on_ties() {
    // two distinct single-node terms of equal size in one class: the first
    // member the relaxation sees wins
    let mut g = EGraph::new(NoAnalysis);
    let a = ex_leaf(1);
    let b = ex_leaf(2);
    g.union(&vec![a.clone(), b.clone()]).unwrap();
    g.rebuild().unwrap();
    let outs1 = g.extract(&vec![a.clone()]).unwrap();
    let outs2 = g.extract(&vec![a.clone()]).unwrap();
    assert_eq!(shape(&outs1[0]), shape(&outs2[0]));
}

#[test]
fn extraction_returns_one_term_per_input() {
    let mut g = EGraph::new(NoAnalysis);
    let outs = g.extract(&vec![ex_leaf(1), ex_binary(ADD, 1, 2)]).unwrap();
    assert_eq!(outs.len(), 2);
    assert_eq!(shape(&outs[0]), shape(&ex_leaf(1)));
    assert_eq!(shape(&outs[1]), shape(&ex_binary(ADD, 1, 2)));
}

#[test]
fn interner_gives_stable_handles() {
    let mut pool = egraph::Interner::new();
    let a = pool.intern(10);
    let b = pool.intern(20);
    let c = pool.intern(10);
    assert_eq!(a, c);
    assert_ne!(a, b);
    assert_eq!(pool.value(a), 10);
    assert_eq!(pool.value(b), 20);
}

#[test]
fn union_find_basics() {
    let mut uf = egraph::UnionFind::new();
    let a = uf.push();
    let b = uf.push();
    let c = uf.push();
    assert_eq!(uf.find(a), a);
    let (w, _l) = uf.join_roots(a, b);
    assert_eq!(uf.find(b), w);
    assert_eq!(uf.find(c), c);
}
