//! A software renderer for triangle meshes: lines and triangles are scan-converted
//! onto an image buffer, visibility is resolved with a depth buffer, and faces are
//! shaded by a directional light. All arithmetic is fixed-point, so every pixel that
//! is painted is determined exactly by the inputs.

pub mod geometry;
pub mod parse;
pub mod render;
