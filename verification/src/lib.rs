//! A small deep-learning library: a computation graph of matrix-shaped
//! tensors that records how every node was produced, and layers that build
//! such graphs. The graph keeps shapes and operation records and checks every
//! operation against its shape rule; the numbers themselves are computed by
//! whoever evaluates the graph.

pub mod backward;
pub mod exact;
pub mod layers;
pub mod tensor;
