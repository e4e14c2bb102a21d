//! A reverse-mode automatic-differentiation engine over scalar values.
//!
//! The engine builds a directed acyclic graph of scalar operations as they
//! are evaluated (a tape), then propagates the gradient of a chosen root
//! node backward through the graph, accumulating at every reachable node the
//! partial derivative of the root's value with respect to that node's value.
//!
//! Scalars are IEEE 754 binary64 values, carried throughout as their `u64`
//! bit patterns; the `scalar` module performs the arithmetic. The `tape`
//! module holds the graph and the propagation procedure, and the `laws`
//! module proves the per-operation chain-rule behaviour of propagation.

pub mod laws;
pub mod scalar;
pub mod tape;

pub use tape::Node;
pub use tape::Operation;
pub use tape::Tape;
pub use tape::ONE_BITS;
