//! Mesh data as the core sees it: face lists in integer coordinates, and
//! the handle kept per level of detail once a mesh is uploaded.
//!
//! Turning faces into textured floating-point vertices is the renderer's
//! business; the core only decides which faces exist. Every face expands to
//! six vertices (two triangles).

use vstd::prelude::*;

use crate::voxel::Color;

verus! {

/// Vertices per emitted cube face: two triangles.
pub const VERTS_PER_FACE: usize = 6;

/// One face of the full-detail mesh: the local voxel, the face direction
/// (an index into the fixed `+X, -X, +Y, -Y, +Z, -Z` order), and the voxel
/// id the renderer takes the texture from.
#[derive(Clone, Copy, Debug, PartialEq, Eq, Structural)]
pub struct FullFace {
    pub x: u8,
    pub y: u8,
    pub z: u8,
    pub dir: u8,
    pub id: u16,
}

/// One face of a low-detail mesh: the group coordinates, the face
/// direction, and the averaged group color.
#[derive(Clone, Copy, Debug, PartialEq, Eq, Structural)]
pub struct LowFace {
    pub x: u8,
    pub y: u8,
    pub z: u8,
    pub dir: u8,
    pub color: Color,
}

/// The full-detail (level 0) mesh of a chunk.
pub struct FullMesh {
    pub faces: Vec<FullFace>,
}

/// A low-detail mesh of a chunk, downsampled by `2^lod`.
pub struct LowMesh {
    pub lod: u32,
    pub faces: Vec<LowFace>,
}

impl FullMesh {
    /// Number of vertices the renderer will upload for this mesh.
    pub fn vertex_count(&self) -> (r: usize)
        requires
            self.faces@.len() * 6 <= usize::MAX,
        ensures
            r == self.faces@.len() * 6,
    {
        self.faces.len() * 6
    }
}

impl LowMesh {
    /// Number of vertices the renderer will upload for this mesh.
    pub fn vertex_count(&self) -> (r: usize)
        requires
            self.faces@.len() * 6 <= usize::MAX,
        ensures
            r == self.faces@.len() * 6,
    {
        self.faces.len() * 6
    }
}

/// The handle a chunk keeps per level of detail once a mesh has been
/// uploaded: it remembers how many vertices the upload carried. An empty
/// mesh is a valid upload that draws nothing.
#[derive(Clone, Copy, Debug, PartialEq, Eq, Structural)]
pub struct Mesh {
    pub vertex_count: usize,
}

impl Mesh {
    /// Constructs the handle of an uploaded mesh of `vertex_count` vertices.
    pub fn new(vertex_count: usize) -> (r: Mesh)
        ensures
            r == (Mesh { vertex_count }),
    {
        Mesh { vertex_count }
    }

    /// Whether the uploaded mesh draws nothing.
    pub fn is_empty(&self) -> (r: bool)
        ensures
            r == (self.vertex_count == 0),
    {
        self.vertex_count == 0
    }
}

} // verus!
