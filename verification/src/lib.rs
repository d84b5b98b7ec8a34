//! A sparse voxel index over a four-dimensional integer lattice.
//!
//! The index maps every point `(x, y, z, w)` of the lattice, each axis an
//! unsigned 32-bit integer, to a 31-bit block id. It is a 16-ary radix tree
//! kept in an arena of fixed-size chunks: uniform subtrees are stored as a
//! single link, chunks are recycled through a pool of free ids, and the arena
//! shrinks again when its last chunks fall free.

pub mod canon;
pub mod index;
pub mod laws;
pub mod link;
pub mod path;
pub mod plugin;
pub mod pool;
pub mod region;
pub mod tree;
pub mod update;

pub use index::{Chunks, SetBlockError};
pub use plugin::{ChunksPlugin, MainCamera};
