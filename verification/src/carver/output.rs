//! The two files of a bake.

pub use crate::carver::geometry::write_geometry;
pub use crate::carver::materials::{serialize_payload, write_materials};
