//! Meshes as text: vertices and faces, one to a line.

pub mod text;
pub mod types;

pub use self::text::parse_obj;
pub use self::types::{ObjFace, ObjVertex};
