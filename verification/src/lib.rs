//! A small inference runtime for neural-network models expressed as static
//! dataflow graphs.
//!
//! A [`graph::Graph`] owns operator, constant and value nodes. Once built it
//! can be executed repeatedly: the planner resolves an execution order from
//! requested inputs to requested outputs, and the executor runs each operator
//! against tensor data, producing output tensors.

pub mod geometry;
pub mod graph;
pub mod ops;
pub mod tensor;
pub mod tensor_ops;
mod timing;

pub use tensor::Tensor;
