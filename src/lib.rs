//! A demand-driven scalar computation graph: nodes are inputs and pure
//! operations, evaluated lazily with memoization, and cached results are
//! invalidated when an input changes.
//!
//! The graph is generic over its scalar type. What the operators compute on
//! scalars is handed to `compute` by the caller, as a function from an
//! [`Operation`] to its result.
use vstd::prelude::*;

pub mod graph;
pub mod laws;
pub mod model;
pub mod nodes;

pub use graph::Graph;
pub use model::{BinaryOp, EvalError, Kind, Node, Operation, UnaryOp};
pub use nodes::{add, create_input, mul, pow_f32, sin, Computer, Setter};
