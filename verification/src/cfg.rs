//! Build-time configuration of the voxel engine core.

use vstd::prelude::*;

verus! {

/// Side length `S` of a cubic chunk, in voxels; a power of two.
pub const CHUNK_SIZE: usize = 32;

/// `S` as a chunk-position coordinate.
pub const CHUNK_SIZE_I: i32 = 32;

/// Voxel count `S * S * S` of one chunk.
pub const CHUNK_VOLUME: usize = 32768;

/// Greatest level of detail: `log2(S)`. Level 0 is full detail.
pub const MAX_LOD: u32 = 5;

/// Number of level-of-detail slots per chunk, `MAX_LOD + 1`.
pub const N_LODS: usize = 6;

/// Upper bound on the number of chunks a grid may hold.
pub const MAX_CHUNKS: usize = 4096;

/// Default cap on the number of in-flight generation and meshing tasks.
pub const MAX_TASKS: usize = 64;

/// Default distance threshold of the level-of-detail selector, in
/// thousandths of a chunk side.
pub const LOD_THRESHOLD_MILLI: u64 = 5800;

} // verus!
