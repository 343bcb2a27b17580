//! Vectors, faces and the geometric operations on them.

pub mod exact;
pub mod fixed;
pub mod ops;
pub mod types;
