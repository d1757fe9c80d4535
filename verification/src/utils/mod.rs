//! Distances and small helper types.

pub mod assertion;
pub mod distance;
pub mod hashable_float;
pub mod window_utils;

pub use assertion::Assertion;
pub use distance::{euclidean_distance, manhattan_distance};
pub use hashable_float::HF64;
pub use window_utils::WindowSize;
