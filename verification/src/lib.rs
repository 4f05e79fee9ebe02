pub mod bake;
pub mod bytes;
pub mod carver;
pub mod export;
pub mod properties;
pub mod reader;
pub mod text;
pub mod vox;
