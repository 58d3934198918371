//! A flow analysis of function bodies.
//!
//! The builder walks the expression tree of one function body and
//! produces a control-flow graph over the order in which the expressions
//! are evaluated, a table of the storage locations that they touch, and
//! facts on how those locations are read, assigned and traversed and on
//! which permissions the types in play carry. A solver that infers
//! permissions consumes the result; it is no part of this crate.
//!
//! - `hir`, `ty`, `results`: what the builder reads.
//! - `analysis`: what it produces, and the operations of its stores.
//! - `builder`, `into_node`: the builder and the traversal.
//! - `flow`: what a traversal does, as a function on analyses.
//! - `invariants`, `shape`, `edges`, `regular`, `graph`: what holds of
//!   every traversal and of the graph that it builds.
//! - `path_table`: the index behind the table of paths.

pub mod hir;
pub mod ty;
pub mod analysis;
pub mod results;
pub mod flow;
pub mod invariants;
pub mod edges;
pub mod shape;
pub mod regular;
pub mod graph;
pub mod path_table;
pub mod builder;
pub mod into_node;
