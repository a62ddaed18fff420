//! Block grids, terrain typing, face visibility and world bookkeeping of a
//! voxel world, with their contracts.
pub mod block;
pub mod set_blocks;
pub mod chunk;
pub mod world;
pub mod trees;
pub mod input;
