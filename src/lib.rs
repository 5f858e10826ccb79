//! A reverse-mode automatic-differentiation engine over scalar nodes held in
//! an arena, with a small feed-forward network built on top of it.
//!
//! The engine is generic over its numeric domain (`Scalar`); graph structure,
//! traversal order and the scheduling of local gradient rules are verified.
pub mod scalar;
pub mod graph;
pub mod label;
pub mod topo;
pub mod value;
pub mod module;
pub mod neuron;
pub mod layer;
pub mod mlp;

pub use scalar::Scalar;
pub use graph::{Graph, Op};
pub use value::Value;
pub use module::{Module, zero_grads};
pub use neuron::Neuron;
pub use layer::Layer;
pub use mlp::MLP;
