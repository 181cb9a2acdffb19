//! A scalar reverse-mode automatic-differentiation engine.
//!
//! Expressions over scalar values are recorded as a directed acyclic
//! computation graph; a single backward pass then accumulates the exact
//! gradient of one output with respect to every node that feeds it.
//!
//! Scalar payloads are opaque 64-bit words (IEEE 754 double-precision bit
//! patterns). Verus does not reason about floating point, so the engine never
//! interprets a payload: forward results and per-step gradient contributions
//! are computed by the caller, while the graph structure, the dependency
//! ordering, and the routing of every contribution are verified here.

pub mod backward;
pub mod graph;
pub mod nn;
pub mod sort;

pub use backward::BackwardPass;
pub use backward::Step;
pub use backward::rule_inputs;
pub use graph::Graph;
pub use graph::ONE_BITS;
pub use graph::Op;
pub use graph::ValueData;
pub use graph::ZERO_BITS;
pub use nn::ActivationFunc;
