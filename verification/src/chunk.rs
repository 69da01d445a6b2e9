//! A chunk: a cubic block of `S = 32` voxels per side with uniform-fill
//! compression, a per-level-of-detail mesh cache, and edit operations that
//! invalidate cached meshes.

use vstd::prelude::*;

use crate::cfg::{CHUNK_VOLUME, MAX_CHUNKS, N_LODS};
use crate::math::Int3;
use crate::mesh::Mesh;
use crate::voxel::{is_id_valid, is_id_valid_spec, Voxel, AIR_ID, STONE_ID};

verus! {

/// How a chunk stores its voxels: an explicit id array, or one shared id
/// for the whole volume with no array at all.
#[derive(Clone, Copy, Debug, PartialEq, Eq, Structural)]
pub enum FillType {
    Default,
    AllSame(u16),
}

/// Why an edit was refused.
#[derive(Clone, Copy, Debug, PartialEq, Eq, Structural)]
pub enum EditError {
    /// The id does not index the static voxel-data table.
    InvalidId(u16),
    /// The position lies outside this chunk or this grid.
    PosIdConversion(Int3),
}

/// A lookup that may land outside the chunk.
#[derive(Clone, Copy, Debug, PartialEq, Eq, Structural)]
pub enum ChunkOption<T> {
    Item(T),
    OutsideChunk,
}

/// The mathematical content of a chunk: what the contracts speak about.
#[verifier::ext_equal]
pub struct ChunkModel {
    pub pos: Int3,
    pub ids: Seq<u16>,
    /// Whether the chunk backs its ids with an explicit array
    /// (`FillType::Default`); a uniform fill keeps this `false` until an
    /// actual change materializes the array.
    pub dense: bool,
    pub meshes: Seq<Option<Mesh>>,
    pub active_lod: Option<u32>,
    pub generated: bool,
}

/// The chunk position a global voxel position falls into, componentwise
/// floor division by the chunk side.
pub open spec fn chunk_pos_of_spec(p: Int3) -> Int3 {
    Int3 {
        x: (p.x as int / 32) as i32,
        y: (p.y as int / 32) as i32,
        z: (p.z as int / 32) as i32,
    }
}

/// Whether the global voxel position `p` lies in the chunk at `cp`.
pub open spec fn in_chunk(cp: Int3, p: Int3) -> bool {
    32 * cp.x <= p.x < 32 * cp.x + 32 && 32 * cp.y <= p.y < 32 * cp.y + 32 && 32 * cp.z <= p.z
        < 32 * cp.z + 32
}

/// Linear index of local coordinates within a chunk: `x + S*y + S²*z`.
pub open spec fn lidx_of(x: int, y: int, z: int) -> int {
    x + 32 * y + 1024 * z
}

pub open spec fn lx_of(l: int) -> int {
    l % 32
}

pub open spec fn ly_of(l: int) -> int {
    (l / 32) % 32
}

pub open spec fn lz_of(l: int) -> int {
    l / 1024
}

/// Linear index of the global position `p` within the chunk at `cp`.
pub open spec fn local_lidx(cp: Int3, p: Int3) -> int {
    lidx_of(p.x - 32 * cp.x, p.y - 32 * cp.y, p.z - 32 * cp.z)
}

/// The linear index of in-range local coordinates decomposes back into
/// them.
pub proof fn lemma_lidx(x: int, y: int, z: int)
    requires
        0 <= x < 32,
        0 <= y < 32,
        0 <= z < 32,
    ensures
        0 <= lidx_of(x, y, z) < 32768,
        lx_of(lidx_of(x, y, z)) == x,
        ly_of(lidx_of(x, y, z)) == y,
        lz_of(lidx_of(x, y, z)) == z,
{
    let l = lidx_of(x, y, z);
    assert(l % 32 == x && l / 32 == y + 32 * z) by (nonlinear_arith)
        requires 0 <= x < 32 && l == x + 32 * (y + 32 * z);
    assert((y + 32 * z) % 32 == y && (y + 32 * z) / 32 == z) by (nonlinear_arith)
        requires 0 <= y < 32 && 0 <= z;
    assert(l / 1024 == z) by (nonlinear_arith)
        requires 0 <= x < 32 && 0 <= y < 32 && 0 <= z && l == x + 32 * y + 1024 * z;
}

/// Chunk positions the grid can hold, wide enough for every grid the
/// configuration allows and small enough that voxel coordinates stay far
/// from the `i32` range ends.
pub open spec fn chunk_pos_bounded(p: Int3) -> bool {
    -(MAX_CHUNKS as int) <= p.x <= MAX_CHUNKS && -(MAX_CHUNKS as int) <= p.y <= MAX_CHUNKS && -(
    MAX_CHUNKS as int) <= p.z <= MAX_CHUNKS
}

/// A cubic block of `32³` voxels at an integer chunk position.
pub struct Chunk {
    pub pos: Int3,
    pub fill_type: FillType,
    pub voxel_ids: Vec<u16>,
    pub meshes: Vec<Option<Mesh>>,
    pub active_lod: Option<u32>,
    pub generated: bool,
}

impl Chunk {
    /// Well-formedness: the storage matches the fill type, every id indexes
    /// the static table, the mesh cache has one slot per level of detail,
    /// the active level points at a cached mesh, and no mesh exists before
    /// the chunk is generated.
    pub open spec fn wf(&self) -> bool {
        &&& chunk_pos_bounded(self.pos)
        &&& match self.fill_type {
            FillType::AllSame(id) => self.voxel_ids@.len() == 0 && is_id_valid_spec(id),
            FillType::Default => self.voxel_ids@.len() == CHUNK_VOLUME,
        }
        &&& forall|i: int|
            0 <= i < self.voxel_ids@.len() ==> is_id_valid_spec(#[trigger] self.voxel_ids@[i])
        &&& self.meshes@.len() == N_LODS
        &&& match self.active_lod {
            Some(l) => l < N_LODS && self.meshes@[l as int] is Some,
            None => true,
        }
        &&& forall|l: int| 0 <= l < N_LODS && #[trigger] self.meshes@[l] is Some ==> self.generated
    }

    /// The logical id of every voxel of the chunk, by linear index; always
    /// `32³` entries, whatever the storage.
    pub open spec fn ids(&self) -> Seq<u16> {
        match self.fill_type {
            FillType::AllSame(id) => Seq::new(CHUNK_VOLUME as nat, |i: int| id),
            FillType::Default => self.voxel_ids@,
        }
    }

    /// The mathematical content of the chunk.
    pub open spec fn model(&self) -> ChunkModel {
        ChunkModel {
            pos: self.pos,
            ids: self.ids(),
            dense: self.fill_type is Default,
            meshes: self.meshes@,
            active_lod: self.active_lod,
            generated: self.generated,
        }
    }

    /// An empty, ungenerated chunk at `chunk_pos`: all air, no meshes.
    pub fn new(chunk_pos: Int3) -> (r: Chunk)
        requires
            chunk_pos_bounded(chunk_pos),
        ensures
            r.wf(),
            r.pos == chunk_pos,
            r.fill_type == FillType::AllSame(AIR_ID),
            r.ids() == Seq::new(CHUNK_VOLUME as nat, |i: int| AIR_ID),
            r.voxel_ids@.len() == 0,
            r.active_lod is None,
            !r.generated,
            forall|l: int| 0 <= l < N_LODS ==> r.meshes@[l] is None,
    {
        Chunk {
            pos: chunk_pos,
            fill_type: FillType::AllSame(AIR_ID),
            voxel_ids: Vec::new(),
            meshes: empty_mesh_slots(),
            active_lod: None,
            generated: false,
        }
    }

    /// A generated chunk built from a verified id buffer.
    pub fn from_voxels(voxel_ids: Vec<u16>, chunk_pos: Int3) -> (r: Chunk)
        requires
            chunk_pos_bounded(chunk_pos),
            voxel_ids@.len() == CHUNK_VOLUME,
            forall|i: int| 0 <= i < voxel_ids@.len() ==> is_id_valid_spec(#[trigger] voxel_ids@[i]),
        ensures
            r.wf(),
            r.pos == chunk_pos,
            r.fill_type == FillType::Default,
            r.ids() == voxel_ids@,
            r.active_lod is None,
            r.generated,
            forall|l: int| 0 <= l < N_LODS ==> r.meshes@[l] is None,
    {
        Chunk {
            pos: chunk_pos,
            fill_type: FillType::Default,
            voxel_ids,
            meshes: empty_mesh_slots(),
            active_lod: None,
            generated: true,
        }
    }

    /// A generated chunk whose whole volume shares one id, with no backing
    /// array.
    pub fn new_same_filled(chunk_pos: Int3, id: u16) -> (r: Chunk)
        requires
            chunk_pos_bounded(chunk_pos),
            is_id_valid_spec(id),
        ensures
            r.wf(),
            r.pos == chunk_pos,
            r.fill_type == FillType::AllSame(id),
            r.ids() == Seq::new(CHUNK_VOLUME as nat, |i: int| id),
            r.voxel_ids@.len() == 0,
            r.active_lod is None,
            r.generated,
            forall|l: int| 0 <= l < N_LODS ==> r.meshes@[l] is None,
    {
        Chunk {
            pos: chunk_pos,
            fill_type: FillType::AllSame(id),
            voxel_ids: Vec::new(),
            meshes: empty_mesh_slots(),
            active_lod: None,
            generated: true,
        }
    }

    pub fn is_generated(&self) -> (r: bool)
        ensures
            r == self.generated,
    {
        self.generated
    }

    /// Drops every cached mesh and clears the active level of detail.
    pub fn drop_all_meshes(&mut self)
        requires
            old(self).wf(),
        ensures
            final(self).wf(),
            final(self).model() == (ChunkModel {
                meshes: Seq::new(N_LODS as nat, |l: int| None::<Mesh>),
                active_lod: None,
                ..old(self).model()
            }),
    {
        self.meshes = empty_mesh_slots();
        self.active_lod = None;
        proof {
            assert(final(self).model() =~= (ChunkModel {
                meshes: Seq::new(N_LODS as nat, |l: int| None::<Mesh>),
                active_lod: None,
                ..old(self).model()
            }));
        }
    }
}

impl ChunkModel {
    /// Well-formedness of the mathematical content, mirroring `Chunk::wf`.
    pub open spec fn wf(&self) -> bool {
        &&& chunk_pos_bounded(self.pos)
        &&& self.ids.len() == CHUNK_VOLUME
        &&& forall|i: int| 0 <= i < self.ids.len() ==> is_id_valid_spec(#[trigger] self.ids[i])
        &&& self.meshes.len() == N_LODS
        &&& match self.active_lod {
            Some(l) => l < N_LODS && self.meshes[l as int] is Some,
            None => true,
        }
        &&& forall|l: int| 0 <= l < N_LODS && #[trigger] self.meshes[l] is Some ==> self.generated
    }
}

/// No cached mesh at any level of detail.
pub open spec fn no_meshes() -> Seq<Option<Mesh>> {
    Seq::new(N_LODS as nat, |l: int| None::<Mesh>)
}

/// Whether the voxel with global coordinates `(gx, gy, gz)` lies in the
/// half-open box `[from, to)`.
pub open spec fn in_box(from: Int3, to: Int3, gx: int, gy: int, gz: int) -> bool {
    from.x <= gx < to.x && from.y <= gy < to.y && from.z <= gz < to.z
}

/// Whether the voxel at linear index `l` of the chunk at `cp` lies in the
/// half-open box `[from, to)`.
pub open spec fn lidx_in_box(cp: Int3, from: Int3, to: Int3, l: int) -> bool {
    in_box(from, to, 32 * cp.x + lx_of(l), 32 * cp.y + ly_of(l), 32 * cp.z + lz_of(l))
}

/// What `set_voxel` does: the next content and the result, as a function
/// of the current content and the arguments.
pub open spec fn set_voxel_model(m: ChunkModel, p: Int3, new_id: u16) -> (ChunkModel, Result<
    u16,
    EditError,
>) {
    if !is_id_valid_spec(new_id) {
        (m, Err(EditError::InvalidId(new_id)))
    } else if !in_chunk(m.pos, p) {
        (m, Err(EditError::PosIdConversion(p)))
    } else {
        let l = local_lidx(m.pos, p);
        let old_id = m.ids[l];
        if old_id == new_id {
            (m, Ok(old_id))
        } else {
            (
                ChunkModel {
                    ids: m.ids.update(l, new_id),
                    dense: true,
                    meshes: no_meshes(),
                    active_lod: None,
                    ..m
                },
                Ok(old_id),
            )
        }
    }
}

/// What `fill_voxels` does: every voxel of the chunk inside `[from, to)`
/// becomes `new_id`; cached meshes fall iff some voxel actually changed.
pub open spec fn fill_voxels_model(m: ChunkModel, from: Int3, to: Int3, new_id: u16) -> (
    ChunkModel,
    Result<bool, EditError>,
) {
    if !is_id_valid_spec(new_id) {
        (m, Err(EditError::InvalidId(new_id)))
    } else {
        let changed = exists|l: int|
            0 <= l < CHUNK_VOLUME && #[trigger] lidx_in_box(m.pos, from, to, l) && m.ids[l]
                != new_id;
        if changed {
            (
                ChunkModel {
                    ids: Seq::new(
                        CHUNK_VOLUME as nat,
                        |l: int|
                            if lidx_in_box(m.pos, from, to, l) {
                                new_id
                            } else {
                                m.ids[l]
                            },
                    ),
                    dense: true,
                    meshes: no_meshes(),
                    active_lod: None,
                    ..m
                },
                Ok(true),
            )
        } else {
            (m, Ok(false))
        }
    }
}

/// Setting a voxel to the same id twice: the second call changes nothing
/// further and, if the first call succeeded, returns the id just written.
pub proof fn lemma_edit_idempotence(m: ChunkModel, p: Int3, v: u16)
    requires
        m.wf(),
    ensures
        ({
            let (m1, r1) = set_voxel_model(m, p, v);
            let (m2, r2) = set_voxel_model(m1, p, v);
            &&& m2 == m1
            &&& (r1 is Ok ==> r2 == Ok::<u16, EditError>(v))
            &&& (r1 is Err ==> r2 == r1)
        }),
{
    if is_id_valid_spec(v) && in_chunk(m.pos, p) {
        let l = local_lidx(m.pos, p);
        lemma_local_lidx_range(m.pos, p);
        let (m1, r1) = set_voxel_model(m, p, v);
        assert(m1.ids[l] == v);
        assert(set_voxel_model(m1, p, v) == (m1, Ok::<u16, EditError>(v)));
    }
}

/// The linear index of a position inside the chunk is in range.
pub proof fn lemma_local_lidx_range(cp: Int3, p: Int3)
    requires
        in_chunk(cp, p),
    ensures
        0 <= local_lidx(cp, p) < CHUNK_VOLUME,
        lx_of(local_lidx(cp, p)) == p.x - 32 * cp.x,
        ly_of(local_lidx(cp, p)) == p.y - 32 * cp.y,
        lz_of(local_lidx(cp, p)) == p.z - 32 * cp.z,
{
    lemma_lidx(p.x - 32 * cp.x, p.y - 32 * cp.y, p.z - 32 * cp.z);
}

impl Chunk {
    /// Sets the voxel at the global position `global_pos` to `new_id` and
    /// returns the id it held before. On an actual change the chunk
    /// materializes a uniform fill, and every cached mesh and the active
    /// level of detail fall. Fails when `new_id` is not in the static
    /// table, or the position is not in this chunk.
    pub fn set_voxel(&mut self, global_pos: Int3, new_id: u16) -> (r: Result<u16, EditError>)
        requires
            old(self).wf(),
        ensures
            final(self).wf(),
            final(self).model() == set_voxel_model(old(self).model(), global_pos, new_id).0,
            r == set_voxel_model(old(self).model(), global_pos, new_id).1,
    {
        if !is_id_valid(new_id) {
            return Err(EditError::InvalidId(new_id));
        }
        if !self.contains_global(global_pos) {
            return Err(EditError::PosIdConversion(global_pos));
        }
        let l: usize = self.local_index(global_pos);
        proof {
            lemma_local_lidx_range(self.pos, global_pos);
        }
        match self.fill_type {
            FillType::AllSame(a) => {
                if a == new_id {
                    proof {
                        assert(final(self).model() =~= set_voxel_model(
                            old(self).model(),
                            global_pos,
                            new_id,
                        ).0);
                    }
                    Ok(a)
                } else {
                    let mut ids: Vec<u16> = materialize_same(a);
                    ids.set(l, new_id);
                    self.fill_type = FillType::Default;
                    self.voxel_ids = ids;
                    self.meshes = empty_mesh_slots();
                    self.active_lod = None;
                    proof {
                        assert(final(self).ids() =~= old(self).ids().update(l as int, new_id));
                        assert(final(self).model() =~= set_voxel_model(
                            old(self).model(),
                            global_pos,
                            new_id,
                        ).0);
                    }
                    Ok(a)
                }
            },
            FillType::Default => {
                let old_id: u16 = self.voxel_ids[l];
                if old_id == new_id {
                    proof {
                        assert(final(self).model() =~= set_voxel_model(
                            old(self).model(),
                            global_pos,
                            new_id,
                        ).0);
                    }
                    Ok(old_id)
                } else {
                    self.voxel_ids.set(l, new_id);
                    self.meshes = empty_mesh_slots();
                    self.active_lod = None;
                    proof {
                        assert(final(self).ids() =~= old(self).ids().update(l as int, new_id));
                        assert(final(self).model() =~= set_voxel_model(
                            old(self).model(),
                            global_pos,
                            new_id,
                        ).0);
                    }
                    Ok(old_id)
                }
            },
        }
    }

    /// Sets every voxel of this chunk inside the half-open box
    /// `[pos_from, pos_to)` to `new_id` and reports whether anything
    /// changed; on change, cached meshes fall.
    pub fn fill_voxels(&mut self, pos_from: Int3, pos_to: Int3, new_id: u16) -> (r: Result<
        bool,
        EditError,
    >)
        requires
            old(self).wf(),
        ensures
            final(self).wf(),
            final(self).model() == fill_voxels_model(old(self).model(), pos_from, pos_to, new_id).0,
            r == fill_voxels_model(old(self).model(), pos_from, pos_to, new_id).1,
    {
        if !is_id_valid(new_id) {
            return Err(EditError::InvalidId(new_id));
        }
        let ghost m = old(self).model();
        let mut changed: bool = false;
        let mut l: usize = 0;
        while l < CHUNK_VOLUME
            invariant
                self == old(self),
                self.wf(),
                m == old(self).model(),
                l <= CHUNK_VOLUME,
                changed == exists|k: int|
                    0 <= k < l && #[trigger] lidx_in_box(m.pos, pos_from, pos_to, k) && m.ids[k]
                        != new_id,
            decreases CHUNK_VOLUME - l,
        {
            if self.lidx_in_box_check(pos_from, pos_to, l) {
                let id = self.id_at(l);
                if id != new_id {
                    changed = true;
                    proof {
                        assert(lidx_in_box(m.pos, pos_from, pos_to, l as int) && m.ids[l as int]
                            != new_id);
                    }
                }
            }
            proof {
                if exists|k: int|
                    0 <= k < l && #[trigger] lidx_in_box(m.pos, pos_from, pos_to, k) && m.ids[k]
                        != new_id {
                    let k = choose|k: int|
                        0 <= k < l && #[trigger] lidx_in_box(m.pos, pos_from, pos_to, k)
                            && m.ids[k] != new_id;
                    assert(0 <= k < l + 1 && lidx_in_box(m.pos, pos_from, pos_to, k) && m.ids[k]
                        != new_id);
                }
            }
            l += 1;
        }
        if !changed {
            return Ok(false);
        }
        let mut ids: Vec<u16> = self.materialize();
        let mut l: usize = 0;
        while l < CHUNK_VOLUME
            invariant
                self == old(self),
                self.wf(),
                m == old(self).model(),
                l <= CHUNK_VOLUME,
                is_id_valid_spec(new_id),
                ids@.len() == CHUNK_VOLUME,
                forall|k: int|
                    0 <= k < CHUNK_VOLUME ==> ids@[k] == (if k < l && lidx_in_box(
                        m.pos,
                        pos_from,
                        pos_to,
                        k,
                    ) {
                        new_id
                    } else {
                        m.ids[k]
                    }),
            decreases CHUNK_VOLUME - l,
        {
            if self.lidx_in_box_check(pos_from, pos_to, l) {
                ids.set(l, new_id);
            }
            l += 1;
        }
        self.fill_type = FillType::Default;
        self.voxel_ids = ids;
        self.meshes = empty_mesh_slots();
        self.active_lod = None;
        proof {
            assert(final(self).ids() =~= fill_voxels_model(m, pos_from, pos_to, new_id).0.ids);
            assert(final(self).model() =~= fill_voxels_model(m, pos_from, pos_to, new_id).0);
        }
        Ok(true)
    }

    /// Whether the global position lies in this chunk.
    pub fn contains_global(&self, p: Int3) -> (r: bool)
        requires
            chunk_pos_bounded(self.pos),
        ensures
            r == in_chunk(self.pos, p),
    {
        let bx: i32 = self.pos.x * 32;
        let by: i32 = self.pos.y * 32;
        let bz: i32 = self.pos.z * 32;
        bx <= p.x && p.x < bx + 32 && by <= p.y && p.y < by + 32 && bz <= p.z && p.z < bz + 32
    }

    /// The linear index of a global position inside this chunk.
    fn local_index(&self, p: Int3) -> (r: usize)
        requires
            chunk_pos_bounded(self.pos),
            in_chunk(self.pos, p),
        ensures
            r == local_lidx(self.pos, p),
            r < CHUNK_VOLUME,
    {
        proof {
            lemma_local_lidx_range(self.pos, p);
        }
        let lx: usize = (p.x - self.pos.x * 32) as usize;
        let ly: usize = (p.y - self.pos.y * 32) as usize;
        let lz: usize = (p.z - self.pos.z * 32) as usize;
        lx + 32 * ly + 1024 * lz
    }

    /// The id at a linear index, whatever the storage.
    pub fn id_at(&self, l: usize) -> (r: u16)
        requires
            self.wf(),
            l < CHUNK_VOLUME,
        ensures
            r == self.ids()[l as int],
    {
        match self.fill_type {
            FillType::AllSame(a) => a,
            FillType::Default => self.voxel_ids[l],
        }
    }

    /// Whether the voxel at linear index `l` lies in `[from, to)`.
    pub fn lidx_in_box_check(&self, from: Int3, to: Int3, l: usize) -> (r: bool)
        requires
            chunk_pos_bounded(self.pos),
            l < CHUNK_VOLUME,
        ensures
            r == lidx_in_box(self.pos, from, to, l as int),
    {
        let lx: usize = l % 32;
        let ly: usize = (l / 32) % 32;
        let lz: usize = l / 1024;
        proof {
            lemma_lidx(lx as int, ly as int, lz as int);
            assert(lidx_of(lx as int, ly as int, lz as int) == l) by (nonlinear_arith)
                requires
                    lx == l % 32 && ly == (l / 32) % 32 && lz == l / 1024 && l < 32768;
        }
        let gx: i32 = self.pos.x * 32 + lx as i32;
        let gy: i32 = self.pos.y * 32 + ly as i32;
        let gz: i32 = self.pos.z * 32 + lz as i32;
        from.x <= gx && gx < to.x && from.y <= gy && gy < to.y && from.z <= gz && gz < to.z
    }

    /// A fresh id buffer holding this chunk's logical content.
    fn materialize(&self) -> (r: Vec<u16>)
        requires
            self.wf(),
        ensures
            r@ == self.ids(),
    {
        match self.fill_type {
            FillType::AllSame(a) => {
                let r = materialize_same(a);
                proof {
                    assert(r@ =~= self.ids());
                }
                r
            },
            FillType::Default => {
                let mut r: Vec<u16> = Vec::new();
                let mut i: usize = 0;
                while i < CHUNK_VOLUME
                    invariant
                        self.wf(),
                        self.fill_type is Default,
                        i <= CHUNK_VOLUME,
                        r@ == self.voxel_ids@.take(i as int),
                    decreases CHUNK_VOLUME - i,
                {
                    proof {
                        assert(self.voxel_ids@.take(i + 1) =~= self.voxel_ids@.take(i as int).push(
                            self.voxel_ids@[i as int],
                        ));
                    }
                    let v = self.voxel_ids[i];
                    r.push(v);
                    i += 1;
                }
                proof {
                    assert(r@ =~= self.ids());
                }
                r
            },
        }
    }

    /// Looks the voxel at `global_pos` up, or reports that the position is
    /// outside this chunk.
    pub fn get_voxel_global(&self, global_pos: Int3) -> (r: ChunkOption<Voxel>)
        requires
            self.wf(),
        ensures
            match r {
                ChunkOption::Item(v) => in_chunk(self.pos, global_pos) && v.pos == global_pos
                    && v.id == self.ids()[local_lidx(self.pos, global_pos)],
                ChunkOption::OutsideChunk => !in_chunk(self.pos, global_pos),
            },
    {
        if !self.contains_global(global_pos) {
            return ChunkOption::OutsideChunk;
        }
        let l = self.local_index(global_pos);
        ChunkOption::Item(Voxel { pos: global_pos, id: self.id_at(l) })
    }
}

/// The deterministic terrain height over the column `(gx, gz)`: the id at
/// height `gy` is stone strictly below it and air at or above it.
pub open spec fn height_at(gx: int, gz: int) -> int {
    (gx * 7 + gz * 13) % 8 - 8
}

pub open spec fn generated_id(gx: int, gy: int, gz: int) -> u16 {
    if gy < height_at(gx, gz) {
        STONE_ID
    } else {
        AIR_ID
    }
}

/// The voxel ids the generator owes the chunk at `chunk_pos`: a pure
/// function of the position alone.
pub open spec fn generate_voxels_spec(chunk_pos: Int3) -> Seq<u16> {
    Seq::new(
        CHUNK_VOLUME as nat,
        |l: int|
            generated_id(
                32 * chunk_pos.x + lx_of(l),
                32 * chunk_pos.y + ly_of(l),
                32 * chunk_pos.z + lz_of(l),
            ),
    )
}

impl Chunk {
    /// Deterministically generates the voxel ids of the chunk at
    /// `chunk_pos`: the same position always yields the same buffer.
    pub fn generate_voxels(chunk_pos: Int3) -> (r: Vec<u16>)
        requires
            chunk_pos_bounded(chunk_pos),
        ensures
            r@ == generate_voxels_spec(chunk_pos),
            r@.len() == CHUNK_VOLUME,
            forall|i: int| 0 <= i < r@.len() ==> is_id_valid_spec(#[trigger] r@[i]),
    {
        let mut r: Vec<u16> = Vec::new();
        let mut z: usize = 0;
        while z < 32
            invariant
                chunk_pos_bounded(chunk_pos),
                z <= 32,
                r@.len() == 1024 * z,
                forall|l: int| 0 <= l < r@.len() ==> r@[l] == generate_voxels_spec(chunk_pos)[l],
            decreases 32 - z,
        {
            let mut y: usize = 0;
            while y < 32
                invariant
                    chunk_pos_bounded(chunk_pos),
                    z < 32,
                    y <= 32,
                    r@.len() == 1024 * z + 32 * y,
                    forall|l: int|
                        0 <= l < r@.len() ==> r@[l] == generate_voxels_spec(chunk_pos)[l],
                decreases 32 - y,
            {
                let mut x: usize = 0;
                while x < 32
                    invariant
                        chunk_pos_bounded(chunk_pos),
                        z < 32,
                        y < 32,
                        x <= 32,
                        r@.len() == 1024 * z + 32 * y + x,
                        forall|l: int|
                            0 <= l < r@.len() ==> r@[l] == generate_voxels_spec(chunk_pos)[l],
                    decreases 32 - x,
                {
                    let gx: i32 = 32 * chunk_pos.x + x as i32;
                    let gy: i32 = 32 * chunk_pos.y + y as i32;
                    let gz: i32 = 32 * chunk_pos.z + z as i32;
                    let h: i32 = crate::math::floor_rem(gx * 7 + gz * 13, 8) - 8;
                    let id: u16 = if gy < h {
                        STONE_ID
                    } else {
                        AIR_ID
                    };
                    proof {
                        lemma_lidx(x as int, y as int, z as int);
                        assert(id == generate_voxels_spec(chunk_pos)[r@.len() as int]);
                    }
                    r.push(id);
                    x += 1;
                }
                y += 1;
            }
            z += 1;
        }
        proof {
            assert(r@ =~= generate_voxels_spec(chunk_pos));
        }
        r
    }

    /// Whether a mesh is cached for the level of detail `lod`.
    pub fn has_mesh(&self, lod: u32) -> (r: bool)
        requires
            self.wf(),
            lod < N_LODS,
        ensures
            r == (self.meshes@[lod as int] is Some),
    {
        self.meshes[lod as usize].is_some()
    }

    /// Makes `lod` the level the renderer draws.
    pub fn set_active_lod(&mut self, lod: u32)
        requires
            old(self).wf(),
            lod < N_LODS,
            old(self).meshes@[lod as int] is Some,
        ensures
            final(self).wf(),
            final(self).model() == (ChunkModel { active_lod: Some(lod), ..old(self).model() }),
            *final(self) == (Chunk { active_lod: Some(lod), ..*old(self) }),
    {
        self.active_lod = Some(lod);
        proof {
            assert(final(self).model() =~= (ChunkModel {
                active_lod: Some(lod),
                ..old(self).model()
            }));
        }
    }

    /// Whether some level of detail is ready to draw.
    pub fn can_render_active_lod(&self) -> (r: bool)
        requires
            self.wf(),
        ensures
            r == (self.active_lod is Some),
    {
        self.active_lod.is_some()
    }

    /// Records the upload of a full-detail mesh of `vertex_count` vertices
    /// at level 0.
    pub fn upload_full_detail_vertices(&mut self, vertex_count: usize)
        requires
            old(self).wf(),
            old(self).generated,
        ensures
            final(self).wf(),
            final(self).model() == (ChunkModel {
                meshes: old(self).model().meshes.update(0, Some(Mesh { vertex_count })),
                ..old(self).model()
            }),
    {
        self.meshes.set(0, Some(Mesh { vertex_count }));
        proof {
            assert(final(self).model() =~= (ChunkModel {
                meshes: old(self).model().meshes.update(0, Some(Mesh { vertex_count })),
                ..old(self).model()
            }));
        }
    }

    /// Records the upload of a low-detail mesh of `vertex_count` vertices
    /// at level `lod`.
    pub fn upload_low_detail_vertices(&mut self, vertex_count: usize, lod: u32)
        requires
            old(self).wf(),
            old(self).generated,
            1 <= lod < N_LODS,
        ensures
            final(self).wf(),
            final(self).model() == (ChunkModel {
                meshes: old(self).model().meshes.update(lod as int, Some(Mesh { vertex_count })),
                ..old(self).model()
            }),
    {
        self.meshes.set(lod as usize, Some(Mesh { vertex_count }));
        proof {
            assert(final(self).model() =~= (ChunkModel {
                meshes: old(self).model().meshes.update(lod as int, Some(Mesh { vertex_count })),
                ..old(self).model()
            }));
        }
    }

    /// If `target` has no cached mesh, adopts the cached level nearest to
    /// it by absolute difference, ties broken toward the lower level; with
    /// an empty cache the active level stays as it was (`None`, by the
    /// chunk invariant). With `target` cached, adopts `target` itself.
    pub fn try_set_best_fit_lod(&mut self, target: u32)
        requires
            old(self).wf(),
            target < N_LODS,
        ensures
            final(self).wf(),
            best_fit_rel(old(self).meshes@, target as int, final(self).active_lod),
            *final(self) == (Chunk { active_lod: final(self).active_lod, ..*old(self) }),
            (forall|l: int| 0 <= l < N_LODS ==> old(self).meshes@[l] is None) ==> *final(self)
                == *old(self),
            (exists|l: int| 0 <= l < N_LODS && old(self).meshes@[l] is Some) ==> ({
                &&& final(self).active_lod is Some
                &&& {
                    let b = final(self).active_lod->0 as int;
                    &&& 0 <= b < N_LODS
                    &&& old(self).meshes@[b] is Some
                    &&& forall|l: int|
                        0 <= l < N_LODS && #[trigger] old(self).meshes@[l] is Some ==> abs_diff(
                            b,
                            target as int,
                        ) < abs_diff(l, target as int) || (abs_diff(b, target as int) == abs_diff(
                            l,
                            target as int,
                        ) && b <= l)
                    &&& final(self).model() == (ChunkModel {
                        active_lod: Some(b as u32),
                        ..old(self).model()
                    })
                }
            }),
    {
        let mut best: Option<u32> = None;
        let mut l: u32 = 0;
        while l < 6
            invariant
                self == old(self),
                self.wf(),
                target < N_LODS,
                l <= 6,
                match best {
                    None => forall|k: int| 0 <= k < l ==> self.meshes@[k] is None,
                    Some(b) => {
                        &&& (b as int) < l
                        &&& self.meshes@[b as int] is Some
                        &&& forall|k: int|
                            0 <= k < l && #[trigger] self.meshes@[k] is Some ==> abs_diff(
                                b as int,
                                target as int,
                            ) < abs_diff(k, target as int) || (abs_diff(b as int, target as int)
                                == abs_diff(k, target as int) && b <= k)
                    },
                },
            decreases 6 - l,
        {
            if self.meshes[l as usize].is_some() {
                match best {
                    None => {
                        best = Some(l);
                    },
                    Some(b) => {
                        let db: u32 = if b >= target {
                            b - target
                        } else {
                            target - b
                        };
                        let dl: u32 = if l >= target {
                            l - target
                        } else {
                            target - l
                        };
                        if dl < db {
                            best = Some(l);
                        }
                    },
                }
            }
            l += 1;
        }
        match best {
            None => {
            },
            Some(b) => {
                self.active_lod = Some(b);
                proof {
                    assert(final(self).model() =~= (ChunkModel {
                        active_lod: Some(b),
                        ..old(self).model()
                    }));
                }
            },
        }
    }
}

/// How `try_set_best_fit_lod` relates a mesh cache and a target to the
/// adopted level: with an empty cache nothing is adopted; otherwise the
/// cached level nearest to the target, ties to the lower level.
pub open spec fn best_fit_rel(meshes: Seq<Option<Mesh>>, target: int, act: Option<u32>) -> bool {
    &&& (forall|l: int| 0 <= l < N_LODS ==> meshes[l] is None) ==> act is None
    &&& (exists|l: int| 0 <= l < N_LODS && meshes[l] is Some) ==> (act matches Some(b) && (
    b as int) < N_LODS && meshes[b as int] is Some && forall|l: int|
        0 <= l < N_LODS && #[trigger] meshes[l] is Some ==> abs_diff(b as int, target) < abs_diff(
            l,
            target,
        ) || (abs_diff(b as int, target) == abs_diff(l, target) && b as int <= l))
}

pub open spec fn abs_diff(a: int, b: int) -> int {
    if a >= b {
        a - b
    } else {
        b - a
    }
}

/// A chunk built by `new_same_filled` answers `id` for every position it
/// contains, without having allocated an id array.
pub proof fn lemma_fill_collapse(c: Chunk, id: u16, p: Int3)
    requires
        c.wf(),
        c.fill_type == FillType::AllSame(id),
        in_chunk(c.pos, p),
    ensures
        c.ids()[local_lidx(c.pos, p)] == id,
        c.voxel_ids@.len() == 0,
{
    lemma_local_lidx_range(c.pos, p);
}

/// No chunk holds a cached mesh before its voxels are generated.
pub proof fn lemma_no_mesh_without_generation(c: Chunk, l: int)
    requires
        c.wf(),
        0 <= l < N_LODS,
        c.meshes@[l] is Some,
    ensures
        c.generated,
{
}

/// A fresh buffer of one full chunk volume of `id`.
fn materialize_same(id: u16) -> (r: Vec<u16>)
    ensures
        r@ == Seq::new(CHUNK_VOLUME as nat, |i: int| id),
{
    let mut r: Vec<u16> = Vec::new();
    let mut i: usize = 0;
    while i < CHUNK_VOLUME
        invariant
            i <= CHUNK_VOLUME,
            r@.len() == i,
            forall|k: int| 0 <= k < i ==> r@[k] == id,
        decreases CHUNK_VOLUME - i,
    {
        r.push(id);
        i += 1;
    }
    proof {
        assert(r@ =~= Seq::new(CHUNK_VOLUME as nat, |i: int| id));
    }
    r
}

/// One empty mesh slot per level of detail.
fn empty_mesh_slots() -> (r: Vec<Option<Mesh>>)
    ensures
        r@.len() == N_LODS,
        forall|l: int| 0 <= l < N_LODS ==> r@[l] is None,
        r@ == Seq::new(N_LODS as nat, |l: int| None::<Mesh>),
{
    let mut r: Vec<Option<Mesh>> = Vec::new();
    let mut i: usize = 0;
    while i < 6
        invariant
            i <= 6,
            r@.len() == i,
            forall|l: int| 0 <= l < i ==> r@[l] is None,
        decreases 6 - i,
    {
        r.push(None);
        i += 1;
    }
    proof {
        assert(r@ =~= Seq::new(N_LODS as nat, |l: int| None::<Mesh>));
    }
    r
}

} // verus!
