pub mod block;
pub mod blockstate;
pub mod brick;
pub mod entries;
pub mod face;
pub mod fluid;
pub mod geometry;
pub mod grid;
pub mod jar;
pub mod materials;
pub mod model;
pub mod output;
pub mod palette;
pub mod swatch;
pub mod texture;
pub mod voxelizer;
