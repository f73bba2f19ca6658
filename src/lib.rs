//! Evaluation order and firing plans for small sparse neural networks whose
//! hidden neurons form an acyclic dependency graph.
//!
//! The library decides which signals each neuron reads and in which order the
//! neurons fire; the numeric work on those signals is left to the caller.
pub mod graph;
pub mod plan;
pub mod laws;
pub mod assembly;
