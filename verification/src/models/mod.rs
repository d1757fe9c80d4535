//! The graph's value types.

pub mod edge;
pub mod node;

pub use edge::Edge;
pub use node::{Node, Position};
