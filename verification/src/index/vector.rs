//! The vector engine of an index.

pub use crate::vector::VectorConfig;
pub use crate::vector::VectorEngine;
