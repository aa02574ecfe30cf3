//! An equality-saturation engine.
//!
//! The engine keeps a set of terms together with every equivalence between
//! them that has been declared or derived, compactly, as an e-graph: a
//! union-find over class ids, a hashcons table mapping each canonical node to
//! the class that owns it, and per-class analysis data.  Rewrite rules are
//! searched and applied round by round until saturation or a resource budget
//! is hit, and a lowest-cost representative can be extracted for any class.

pub mod extract;
pub mod graph;
pub mod intern;
pub mod pattern;
pub mod rewrite;
pub mod runner;
pub mod term;
pub mod uf;

pub use graph::{Analysis, EClass, EGraph, ENode, EngineError, EvalHead, Head, NoAnalysis, SumAnalysis};
pub use intern::Interner;
pub use pattern::{Pattern, Subst};
pub use rewrite::{Applier, DynamicApplier, NoDynamic, Rewrite};
pub use runner::StopReason;
pub use term::{vars, Expr, Id, TermNode, Var};
pub use uf::UnionFind;
