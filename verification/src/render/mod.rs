//! Scan conversion onto a canvas.

pub mod agree;
pub mod canvas;
pub mod lines;
pub mod mesh;
pub mod random;
pub mod shading;
pub mod sweep;
pub mod triangles;

pub use self::lines::line;
pub use self::mesh::wire_frame;
pub use self::shading::{flat_shade, flat_shade_with, with_light, with_light_smart};
pub use self::sweep::old_triangle;
pub use self::triangles::{triangle, triangle_with_gamma, triangle_with_gamma_smart};
