//! Reverse-mode automatic differentiation over a computation graph.
//!
//! A `Context` holds the nodes of a directed acyclic graph: leaves that hold
//! values, and operations (`add`, `sub`, `mul`, `div`, `neg`, `dot`) on
//! earlier nodes. Evaluation computes each reachable node once, dependencies
//! first; a backward pass seeds the root's gradient and runs each node's
//! handler in reverse topological order, adding local gradients into the
//! operands' gradient cells. The engine is generic over the element type
//! through the traits of `traits`; `i64` scalars are provided.

pub mod backward;
pub mod backward_ops;
pub mod chain_rule;
pub mod eval;
pub mod graph;
pub mod laws;
pub mod scalar;
pub mod topo;
pub mod traits;
pub mod variable;
