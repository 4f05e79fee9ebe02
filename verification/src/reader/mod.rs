pub mod block_states;
pub mod chunk;
pub mod packing;
pub mod region;
pub mod table;
pub mod world;
