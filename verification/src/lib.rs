//! Core of a voxel-world engine: a level-of-detail aware chunk array with
//! uniform-fill compression, deterministic terrain generation, edit
//! propagation, a task scheduler, and a Huffman-compressed save codec.

pub mod bytes;
pub mod cfg;
pub mod chunk;
pub mod chunk_array;
pub mod codec;
pub mod logging;
pub mod math;
pub mod mesh;
pub mod meshing;
pub mod save;
pub mod space;
pub mod voxel;

pub use math::Int3;
pub use math::USize3;
