//! The chunk array: a dense 3-dimensional grid of chunks centered on the
//! origin, with row-major indexing, grid-wide edits that invalidate
//! neighboring meshes, a task book for asynchronous generation and
//! meshing, and the per-frame driver decisions.

use vstd::prelude::*;
use vstd::arithmetic::div_mod::lemma_div_denominator;

use crate::cfg::{CHUNK_VOLUME, MAX_CHUNKS, MAX_LOD, MAX_TASKS, N_LODS};
use crate::chunk::{chunk_pos_bounded, in_chunk, local_lidx, set_voxel_model, fill_voxels_model,
    lemma_local_lidx_range, no_meshes, Chunk, ChunkModel, ChunkOption, EditError, FillType};
use crate::math::{Int3, USize3};
use crate::mesh::Mesh;
use crate::voxel::{is_id_valid_spec, Voxel};

verus! {

/// A grid size the array accepts: at most `MAX_CHUNKS` chunks, and each
/// dimension itself within that bound so index arithmetic stays small.
pub open spec fn sizes_ok(sizes: USize3) -> bool {
    &&& sizes.x * sizes.y * sizes.z <= MAX_CHUNKS
    &&& sizes.x <= MAX_CHUNKS && sizes.y <= MAX_CHUNKS && sizes.z <= MAX_CHUNKS
}

/// Number of chunks a grid of the given dimensions holds.
pub open spec fn volume_spec(sizes: USize3) -> int {
    sizes.x * sizes.y * sizes.z
}

/// The chunk position of the 3-dimensional grid index `c`: the grid is
/// centered on the origin.
pub open spec fn coord_idx_to_pos_spec(sizes: USize3, c: USize3) -> Int3 {
    Int3 {
        x: (c.x - sizes.x as int / 2) as i32,
        y: (c.y - sizes.y as int / 2) as i32,
        z: (c.z - sizes.z as int / 2) as i32,
    }
}

/// The 3-dimensional grid index of a chunk position, when it lies in the
/// grid.
pub open spec fn pos_to_coord_idx_spec(sizes: USize3, pos: Int3) -> Option<USize3> {
    let sx = pos.x + sizes.x as int / 2;
    let sy = pos.y + sizes.y as int / 2;
    let sz = pos.z + sizes.z as int / 2;
    if 0 <= sx < sizes.x && 0 <= sy < sizes.y && 0 <= sz < sizes.z {
        Some(USize3 { x: sx as usize, y: sy as usize, z: sz as usize })
    } else {
        None
    }
}

/// Row-major linear index: `x` slowest, `z` fastest.
pub open spec fn coord_idx_to_idx_spec(sizes: USize3, c: USize3) -> int {
    c.x * (sizes.y * sizes.z) + c.y * sizes.z + c.z
}

pub open spec fn idx_to_coord_idx_spec(idx: int, sizes: USize3) -> USize3 {
    USize3 {
        x: (idx / (sizes.y * sizes.z) as int) as usize,
        y: ((idx / sizes.z as int) % sizes.y as int) as usize,
        z: (idx % sizes.z as int) as usize,
    }
}

/// The linear index of a chunk position, when it lies in the grid.
pub open spec fn pos_to_idx_spec(sizes: USize3, pos: Int3) -> Option<int> {
    match pos_to_coord_idx_spec(sizes, pos) {
        Some(c) => Some(coord_idx_to_idx_spec(sizes, c)),
        None => None,
    }
}

pub open spec fn idx_to_pos_spec(idx: int, sizes: USize3) -> Int3 {
    coord_idx_to_pos_spec(sizes, idx_to_coord_idx_spec(idx, sizes))
}

/// Grid index round trip, position side: positions coming from a grid
/// index are mapped back to that index.
pub proof fn lemma_pos_round_trip(sizes: USize3, c: USize3)
    requires
        sizes_ok(sizes),
        c.x < sizes.x && c.y < sizes.y && c.z < sizes.z,
    ensures
        pos_to_coord_idx_spec(sizes, coord_idx_to_pos_spec(sizes, c)) == Some(c),
{
}

/// Grid index round trip, linear side: every linear index decomposes into
/// the 3-dimensional index that recomposes to it.
pub proof fn lemma_idx_round_trip(sizes: USize3, i: int)
    requires
        sizes_ok(sizes),
        0 <= i < volume_spec(sizes),
    ensures
        ({
            let c = idx_to_coord_idx_spec(i, sizes);
            &&& c.x < sizes.x && c.y < sizes.y && c.z < sizes.z
            &&& coord_idx_to_idx_spec(sizes, c) == i
        }),
{
    let ey = sizes.y as int;
    let ez = sizes.z as int;
    let ex = sizes.x as int;
    assert(0 < ex && 0 < ey && 0 < ez) by (nonlinear_arith)
        requires 0 <= i && i < ex * ey * ez && 0 <= ex && 0 <= ey && 0 <= ez;
    let x = i / (ey * ez);
    let y = (i / ez) % ey;
    let z = i % ez;
    assert(0 < ey * ez) by (nonlinear_arith)
        requires 0 < ey && 0 < ez;
    lemma_div_denominator(i, ez, ey);
    assert(ez * ey == ey * ez) by (nonlinear_arith);
    assert(x == (i / ez) / ey);
    let q = i / ez;
    assert(i == q * ez + z && 0 <= z < ez) by (nonlinear_arith)
        requires 0 < ez && 0 <= i && q == i / ez && z == i % ez;
    assert(q == x * ey + y && 0 <= y < ey) by (nonlinear_arith)
        requires 0 < ey && 0 <= q && x == q / ey && y == q % ey;
    assert(i == x * (ey * ez) + y * ez + z) by (nonlinear_arith)
        requires i == q * ez + z && q == x * ey + y;
    assert(0 <= x < ex) by (nonlinear_arith)
        requires
            0 < ey,
            0 < ez,
            0 <= i,
            i < ex * ey * ez,
            i == x * (ey * ez) + y * ez + z,
            0 <= y < ey,
            0 <= z < ez;
}

/// And the converse: a valid 3-dimensional index survives the trip
/// through the linear index.
pub proof fn lemma_coord_idx_round_trip(sizes: USize3, c: USize3)
    requires
        sizes_ok(sizes),
        c.x < sizes.x && c.y < sizes.y && c.z < sizes.z,
    ensures
        0 <= coord_idx_to_idx_spec(sizes, c) < volume_spec(sizes),
        idx_to_coord_idx_spec(coord_idx_to_idx_spec(sizes, c), sizes) == c,
{
    let ey = sizes.y as int;
    let ez = sizes.z as int;
    let ex = sizes.x as int;
    let cx = c.x as int;
    let cy = c.y as int;
    let cz = c.z as int;
    let i = coord_idx_to_idx_spec(sizes, c);
    assert(0 <= cy * ez + cz < ey * ez) by (nonlinear_arith)
        requires 0 <= cy && cy < ey && 0 <= cz && cz < ez;
    assert(0 <= i && i < ex * (ey * ez)) by (nonlinear_arith)
        requires
            0 <= cx && cx < ex,
            0 <= cy * ez + cz && cy * ez + cz < ey * ez,
            i == cx * (ey * ez) + cy * ez + cz;
    assert(ex * (ey * ez) == ex * ey * ez) by (nonlinear_arith);
    assert(i / (ey * ez) == cx) by (nonlinear_arith)
        requires
            0 < ey * ez,
            0 <= cy * ez + cz && cy * ez + cz < ey * ez,
            i == cx * (ey * ez) + cy * ez + cz;
    assert(i == (cx * ey + cy) * ez + cz) by (nonlinear_arith)
        requires i == cx * (ey * ez) + cy * ez + cz;
    assert(0 <= cx * ey + cy) by (nonlinear_arith)
        requires 0 <= cx && 0 <= cy && 0 <= ey;
    assert(i / ez == cx * ey + cy && i % ez == cz) by (nonlinear_arith)
        requires
            0 < ez,
            0 <= cz && cz < ez,
            0 <= cx * ey + cy,
            i == (cx * ey + cy) * ez + cz;
    assert((cx * ey + cy) % ey == cy) by (nonlinear_arith)
        requires 0 <= cy && cy < ey && 0 <= cx;
}

/// Whether a mesh task for the chunk at `idx` may start: the chunk and
/// every face neighbor the grid holds are generated.
pub open spec fn mesh_task_allowed(ms: Seq<ChunkModel>, sizes: USize3, idx: int) -> bool {
    &&& ms[idx].generated
    &&& forall|d: int|
        0 <= d < 6 ==> (pos_to_idx_spec(
            sizes,
            #[trigger] crate::space::shifted(
                idx_to_pos_spec(idx, sizes),
                crate::space::adj_offsets()[d],
            ),
        ) matches Some(j) ==> ms[j].generated)
}

/// A request the driver hands out: work to run on the task pool.
#[derive(Clone, Copy, Debug, PartialEq, Eq, Structural)]
pub enum TaskRequest {
    GenVoxels { pos: Int3 },
    FullMesh { pos: Int3 },
    LowMesh { pos: Int3, lod: u32 },
}

/// Why finishing a task failed.
#[derive(Clone, Copy, Debug, PartialEq, Eq, Structural)]
pub enum TaskError {
    /// The task exists but its result is not ready yet.
    TaskNotReady,
    /// No task is booked under this key: a bookkeeping mismatch.
    TaskNotFound { lod: u32, pos: Int3 },
}

/// An edit intent arriving over the command channel.
#[derive(Clone, Copy, Debug, PartialEq, Eq, Structural)]
pub enum Command {
    SetVoxel { pos: Int3, new_id: u16 },
    FillVoxels { pos_from: Int3, pos_to: Int3, new_id: u16 },
    DropAllMeshes,
}

/// A dense 3-dimensional grid of chunks, its task book, and the
/// level-of-detail selector state.
pub struct ChunkArray {
    pub chunks: Vec<Chunk>,
    pub sizes: USize3,
    /// One slot per chunk: a voxel-generation task is in flight.
    pub voxels_gen_tasks: Vec<bool>,
    /// One slot per chunk: a full-detail mesh task is in flight.
    pub full_tasks: Vec<bool>,
    /// One slot per chunk and level `1..=MAX_LOD` at `idx * 6 + lod`:
    /// a low-detail mesh task is in flight.
    pub low_tasks: Vec<bool>,
    /// Distance threshold of the level-of-detail selector, in thousandths
    /// of a chunk side.
    pub lod_dist_threshold: u64,
    /// Cap on concurrently in-flight tasks.
    pub max_tasks: usize,
    /// A save of the whole grid is in flight.
    pub saving: bool,
    /// A load of a new grid is in flight.
    pub reading: bool,
}

impl ChunkArray {
    /// Well-formedness: one chunk and one task slot per grid cell, each
    /// chunk well-formed and sitting at the position its index says.
    pub open spec fn wf(&self) -> bool {
        &&& sizes_ok(self.sizes)
        &&& self.chunks@.len() == volume_spec(self.sizes)
        &&& forall|i: int| 0 <= i < self.chunks@.len() ==> (#[trigger] self.chunks@[i]).wf()
        &&& forall|i: int|
            0 <= i < self.chunks@.len() ==> (#[trigger] self.chunks@[i]).pos == idx_to_pos_spec(
                i,
                self.sizes,
            )
        &&& self.voxels_gen_tasks@.len() == volume_spec(self.sizes)
        &&& self.full_tasks@.len() == volume_spec(self.sizes)
        &&& self.low_tasks@.len() == 6 * volume_spec(self.sizes)
        &&& 1 <= self.lod_dist_threshold <= 1_000_000
        &&& self.max_tasks <= 1_000_000
    }

    /// The mathematical content of every chunk, by linear index.
    pub open spec fn models(&self) -> Seq<ChunkModel> {
        self.chunks@.map_values(|c: Chunk| c.model())
    }

    /// Gives chunk count.
    pub fn volume(arr_sizes: USize3) -> (r: usize)
        requires
            sizes_ok(arr_sizes),
        ensures
            r == volume_spec(arr_sizes),
    {
        proof {
            assert(arr_sizes.x * arr_sizes.y <= 4096 * 4096 && arr_sizes.x * arr_sizes.y
                * arr_sizes.z <= MAX_CHUNKS) by (nonlinear_arith)
                requires
                    arr_sizes.x <= 4096 && arr_sizes.y <= 4096 && arr_sizes.x * arr_sizes.y
                        * arr_sizes.z <= 4096 && (arr_sizes.z == 0 || true),
            ;
        }
        let xy: usize = arr_sizes.x * arr_sizes.y;
        xy * arr_sizes.z
    }

    /// Checks that a grid of these dimensions may be allocated.
    pub fn validate_sizes(sizes: USize3) -> (r: bool)
        ensures
            r == sizes_ok(sizes),
    {
        if sizes.x > MAX_CHUNKS || sizes.y > MAX_CHUNKS || sizes.z > MAX_CHUNKS {
            return false;
        }
        proof {
            assert(sizes.x * sizes.y <= 4096 * 4096 && sizes.x * sizes.y * sizes.z <= 4096 * 4096
                * 4096) by (nonlinear_arith)
                requires sizes.x <= 4096 && sizes.y <= 4096 && sizes.z <= 4096;
        }
        let v: u64 = sizes.x as u64 * sizes.y as u64 * sizes.z as u64;
        v <= MAX_CHUNKS as u64
    }

    /// Converts a 3-dimensional grid index into a chunk position.
    pub fn coord_idx_to_pos(sizes: USize3, coord_idx: USize3) -> (r: Int3)
        requires
            sizes_ok(sizes),
            coord_idx.x <= sizes.x && coord_idx.y <= sizes.y && coord_idx.z <= sizes.z,
        ensures
            r == coord_idx_to_pos_spec(sizes, coord_idx),
    {
        Int3 {
            x: coord_idx.x as i32 - (sizes.x / 2) as i32,
            y: coord_idx.y as i32 - (sizes.y / 2) as i32,
            z: coord_idx.z as i32 - (sizes.z / 2) as i32,
        }
    }

    /// Converts a chunk position to its 3-dimensional grid index, when it
    /// lies in the grid.
    pub fn pos_to_coord_idx(sizes: USize3, pos: Int3) -> (r: Option<USize3>)
        requires
            sizes_ok(sizes),
        ensures
            r == pos_to_coord_idx_spec(sizes, pos),
    {
        let sx: i64 = pos.x as i64 + (sizes.x / 2) as i64;
        let sy: i64 = pos.y as i64 + (sizes.y / 2) as i64;
        let sz: i64 = pos.z as i64 + (sizes.z / 2) as i64;
        if 0 <= sx && sx < sizes.x as i64 && 0 <= sy && sy < sizes.y as i64 && 0 <= sz && sz
            < sizes.z as i64 {
            Some(USize3 { x: sx as usize, y: sy as usize, z: sz as usize })
        } else {
            None
        }
    }

    /// Converts a 3-dimensional grid index to the row-major linear index.
    pub fn coord_idx_to_idx(sizes: USize3, coord_idx: USize3) -> (r: usize)
        requires
            sizes_ok(sizes),
            coord_idx.x < sizes.x && coord_idx.y < sizes.y && coord_idx.z < sizes.z,
        ensures
            r == coord_idx_to_idx_spec(sizes, coord_idx),
            r < volume_spec(sizes),
    {
        proof {
            lemma_coord_idx_round_trip(sizes, coord_idx);
            assert(sizes.y * sizes.z <= 4096 * 4096) by (nonlinear_arith)
                requires sizes.y <= 4096 && sizes.z <= 4096;
            assert(0 <= coord_idx.x * (sizes.y as int * sizes.z as int) && 0 <= coord_idx.y
                * sizes.z as int) by (nonlinear_arith)
                requires true;
            assert(coord_idx.x * (sizes.y as int * sizes.z as int) <= coord_idx_to_idx_spec(
                sizes,
                coord_idx,
            ) && coord_idx.y * sizes.z as int <= coord_idx_to_idx_spec(sizes, coord_idx));
        }
        let yz: usize = sizes.y * sizes.z;
        coord_idx.x * yz + coord_idx.y * sizes.z + coord_idx.z
    }

    /// Converts a chunk position to its linear index, when it lies in the
    /// grid.
    pub fn pos_to_idx(sizes: USize3, pos: Int3) -> (r: Option<usize>)
        requires
            sizes_ok(sizes),
        ensures
            match r {
                Some(i) => pos_to_idx_spec(sizes, pos) == Some(i as int) && i < volume_spec(sizes),
                None => pos_to_idx_spec(sizes, pos) is None,
            },
    {
        match Self::pos_to_coord_idx(sizes, pos) {
            Some(c) => Some(Self::coord_idx_to_idx(sizes, c)),
            None => None,
        }
    }

    /// Converts a linear index to its 3-dimensional grid index.
    pub fn idx_to_coord_idx(idx: usize, sizes: USize3) -> (r: USize3)
        requires
            sizes_ok(sizes),
            idx < volume_spec(sizes),
        ensures
            r == idx_to_coord_idx_spec(idx as int, sizes),
            r.x < sizes.x && r.y < sizes.y && r.z < sizes.z,
    {
        proof {
            lemma_idx_round_trip(sizes, idx as int);
            assert(sizes.y * sizes.z <= 4096 * 4096) by (nonlinear_arith)
                requires sizes.y <= 4096 && sizes.z <= 4096;
            assert(0 < sizes.y && 0 < sizes.z && 0 < sizes.y * sizes.z) by (nonlinear_arith)
                requires
                    0 <= (idx as int) && (idx as int) < sizes.x * sizes.y * sizes.z && 0
                        <= sizes.y && 0 <= sizes.z,
            ;
        }
        let yz: usize = sizes.y * sizes.z;
        USize3 { x: idx / yz, y: (idx / sizes.z) % sizes.y, z: idx % sizes.z }
    }

    /// Converts a linear index to a chunk position.
    pub fn idx_to_pos(idx: usize, sizes: USize3) -> (r: Int3)
        requires
            sizes_ok(sizes),
            idx < volume_spec(sizes),
        ensures
            r == idx_to_pos_spec(idx as int, sizes),
    {
        let c = Self::idx_to_coord_idx(idx, sizes);
        Self::coord_idx_to_pos(sizes, c)
    }

    /// The start (inclusive) and end (exclusive) chunk positions of the
    /// grid.
    pub fn pos_bounds(sizes: USize3) -> (r: (Int3, Int3))
        requires
            sizes_ok(sizes),
        ensures
            r.0 == coord_idx_to_pos_spec(sizes, USize3 { x: 0, y: 0, z: 0 }),
            r.1 == coord_idx_to_pos_spec(sizes, sizes),
    {
        (
            Self::coord_idx_to_pos(sizes, USize3 { x: 0, y: 0, z: 0 }),
            Self::coord_idx_to_pos(sizes, sizes),
        )
    }
}

/// Chunk positions of grids within `sizes_ok` are bounded.
pub proof fn lemma_grid_pos_bounded(sizes: USize3, i: int)
    requires
        sizes_ok(sizes),
        0 <= i < volume_spec(sizes),
    ensures
        chunk_pos_bounded(idx_to_pos_spec(i, sizes)),
{
    lemma_idx_round_trip(sizes, i);
}

/// A chunk model with its cached meshes dropped.
pub open spec fn cleared(m: ChunkModel) -> ChunkModel {
    ChunkModel { meshes: no_meshes(), active_lod: None, ..m }
}

/// Whether grid cell `k` holds a face-adjacent neighbor of grid cell `i`.
pub open spec fn is_adjacent_idx(sizes: USize3, i: int, k: int) -> bool {
    exists|d: int|
        0 <= d < 6 && pos_to_idx_spec(
            sizes,
            #[trigger] crate::space::shifted(idx_to_pos_spec(i, sizes), crate::space::adj_offsets()[d]),
        ) == Some(k)
}

/// What a grid-level voxel edit does: the owning chunk takes the edit,
/// and on an actual change every face-adjacent chunk in the grid drops
/// its cached meshes.
pub open spec fn array_set_voxel_model(
    ms: Seq<ChunkModel>,
    sizes: USize3,
    pos: Int3,
    new_id: u16,
) -> (Seq<ChunkModel>, Result<u16, EditError>) {
    let cp = crate::chunk::chunk_pos_of_spec(pos);
    match pos_to_idx_spec(sizes, cp) {
        None => (ms, Err(EditError::PosIdConversion(pos))),
        Some(i) => {
            let (m2, r) = set_voxel_model(ms[i], pos, new_id);
            match r {
                Err(e) => (ms, Err(e)),
                Ok(old_id) => if old_id == new_id {
                    (ms, Ok(old_id))
                } else {
                    (
                        Seq::new(
                            ms.len(),
                            |k: int|
                                if k == i {
                                    m2
                                } else if is_adjacent_idx(sizes, i, k) {
                                    cleared(ms[k])
                                } else {
                                    ms[k]
                                },
                        ),
                        Ok(old_id),
                    )
                },
            }
        },
    }
}

/// A position lies in the chunk at its own floor-divided chunk position.
pub proof fn lemma_in_own_chunk(p: Int3)
    ensures
        in_chunk(crate::chunk::chunk_pos_of_spec(p), p),
{
    lemma_floor_32(p.x as int);
    lemma_floor_32(p.y as int);
    lemma_floor_32(p.z as int);
}

proof fn lemma_floor_32(x: int)
    ensures
        32 * (x / 32) <= x < 32 * (x / 32) + 32,
{
    assert(x == 32 * (x / 32) + x % 32 && 0 <= x % 32 < 32) by (nonlinear_arith);
}

/// Distinct chunk positions have distinct linear indices.
pub proof fn lemma_pos_to_idx_injective(sizes: USize3, p: Int3, q: Int3)
    requires
        sizes_ok(sizes),
        pos_to_idx_spec(sizes, p) is Some,
        pos_to_idx_spec(sizes, p) == pos_to_idx_spec(sizes, q),
    ensures
        p == q,
{
    let cp = pos_to_coord_idx_spec(sizes, p)->Some_0;
    let cq = pos_to_coord_idx_spec(sizes, q)->Some_0;
    lemma_coord_idx_round_trip(sizes, cp);
    lemma_coord_idx_round_trip(sizes, cq);
    assert(cp == cq);
}

/// A position that maps into the grid maps below the volume.
pub proof fn lemma_pos_idx_bounds(sizes: USize3, p: Int3)
    requires
        sizes_ok(sizes),
        pos_to_idx_spec(sizes, p) is Some,
    ensures
        0 <= pos_to_idx_spec(sizes, p)->Some_0 < volume_spec(sizes),
{
    let c = pos_to_coord_idx_spec(sizes, p)->Some_0;
    lemma_coord_idx_round_trip(sizes, c);
}

/// The position of the cell a position maps to is that position.
pub proof fn lemma_pos_idx_pos(sizes: USize3, p: Int3)
    requires
        sizes_ok(sizes),
        pos_to_idx_spec(sizes, p) is Some,
    ensures
        idx_to_pos_spec(pos_to_idx_spec(sizes, p)->Some_0, sizes) == p,
{
    let c = pos_to_coord_idx_spec(sizes, p)->Some_0;
    lemma_coord_idx_round_trip(sizes, c);
}

/// A successful state-changing edit at `pos` leaves the owning chunk and
/// every face-adjacent chunk without an active level of detail.
pub proof fn lemma_edit_invalidation(ms: Seq<ChunkModel>, sizes: USize3, pos: Int3, new_id: u16)
    requires
        sizes_ok(sizes),
        ms.len() == volume_spec(sizes),
    ensures
        ({
            let (ms2, r) = array_set_voxel_model(ms, sizes, pos, new_id);
            let i = pos_to_idx_spec(sizes, crate::chunk::chunk_pos_of_spec(pos));
            r matches Ok(old_id) && old_id != new_id ==> {
                &&& i is Some
                &&& ms2[i->0].active_lod is None
                &&& forall|k: int|
                    0 <= k < ms2.len() && is_adjacent_idx(sizes, i->0, k) && k != i->0
                        ==> (#[trigger] ms2[k]).active_lod is None
            }
        }),
{
    let cp = crate::chunk::chunk_pos_of_spec(pos);
    let (ms2, r) = array_set_voxel_model(ms, sizes, pos, new_id);
    match pos_to_idx_spec(sizes, cp) {
        None => {
        },
        Some(i) => {
            lemma_pos_idx_bounds(sizes, cp);
            let step = set_voxel_model(ms[i], pos, new_id);
            match step.1 {
                Err(_) => {
                },
                Ok(o) => {
                    if o != new_id {
                        assert(ms2 == Seq::new(
                            ms.len() as nat,
                            |k: int|
                                if k == i {
                                    step.0
                                } else if is_adjacent_idx(sizes, i, k) {
                                    cleared(ms[k])
                                } else {
                                    ms[k]
                                },
                        ));
                        assert(ms2[i] == step.0);
                        assert forall|k: int|
                            0 <= k < ms2.len() && is_adjacent_idx(sizes, i, k) && k != i implies (
                        #[trigger] ms2[k]).active_lod is None by {
                            assert(ms2[k] == cleared(ms[k]));
                        }
                    }
                },
            }
        },
    }
}

/// Setting a grid voxel to the id it already holds is a no-op: the second
/// of two identical edits returns the id just written and leaves every
/// chunk — ids, storage fill, mesh caches and active levels — exactly as
/// the first edit left them, with no second uniform-fill materialization.
pub proof fn lemma_array_edit_idempotence(
    ms: Seq<ChunkModel>,
    sizes: USize3,
    pos: Int3,
    new_id: u16,
)
    requires
        sizes_ok(sizes),
        ms.len() == volume_spec(sizes),
        forall|k: int| 0 <= k < ms.len() ==> (#[trigger] ms[k]).wf(),
        forall|k: int| 0 <= k < ms.len() ==> (#[trigger] ms[k]).pos == idx_to_pos_spec(k, sizes),
    ensures
        ({
            let (ms1, r1) = array_set_voxel_model(ms, sizes, pos, new_id);
            let (ms2, r2) = array_set_voxel_model(ms1, sizes, pos, new_id);
            &&& ms2 == ms1
            &&& (r1 is Ok ==> r2 == Ok::<u16, EditError>(new_id))
            &&& (r1 is Err ==> r2 == r1)
        }),
{
    let cp = crate::chunk::chunk_pos_of_spec(pos);
    let (ms1, r1) = array_set_voxel_model(ms, sizes, pos, new_id);
    match pos_to_idx_spec(sizes, cp) {
        None => {
        },
        Some(i) => {
            lemma_pos_idx_bounds(sizes, cp);
            lemma_pos_idx_pos(sizes, cp);
            lemma_in_own_chunk(pos);
            let step1 = set_voxel_model(ms[i], pos, new_id);
            crate::chunk::lemma_edit_idempotence(ms[i], pos, new_id);
            match step1.1 {
                Err(_) => {
                },
                Ok(o) => {
                    assert(ms1[i].ids[local_lidx(ms1[i].pos, pos)] == new_id) by {
                        crate::chunk::lemma_local_lidx_range(cp, pos);
                        assert(ms[i].pos == cp && ms1[i].pos == cp);
                        if o == new_id {
                        } else {
                            assert(ms1[i] == step1.0 || ms1[i] == cleared(step1.0));
                        }
                    }
                    let step2 = set_voxel_model(ms1[i], pos, new_id);
                    assert(step2 == (ms1[i], Ok::<u16, EditError>(new_id)));
                    assert(array_set_voxel_model(ms1, sizes, pos, new_id).0 == ms1);
                },
            }
        },
    }
}

impl ChunkArray {
    /// A grid of empty, ungenerated chunks.
    pub fn new(sizes: USize3) -> (r: ChunkArray)
        requires
            sizes_ok(sizes),
        ensures
            r.wf(),
            r.sizes == sizes,
            forall|i: int| 0 <= i < r.chunks@.len() ==> !(#[trigger] r.chunks@[i]).generated,
            forall|i: int|
                0 <= i < r.chunks@.len() ==> (#[trigger] r.chunks@[i]).ids() == Seq::new(
                    CHUNK_VOLUME as nat,
                    |l: int| crate::voxel::AIR_ID,
                ),
            forall|i: int|
                0 <= i < r.chunks@.len() ==> (#[trigger] r.chunks@[i]).active_lod is None,
            forall|i: int, l: int|
                0 <= i < r.chunks@.len() && 0 <= l < N_LODS ==> (#[trigger] r.chunks@[i].meshes@[l])
                    is None,
            forall|i: int| 0 <= i < r.chunks@.len() ==> !(#[trigger] r.voxels_gen_tasks@[i]),
            forall|i: int| 0 <= i < r.chunks@.len() ==> !(#[trigger] r.full_tasks@[i]),
            forall|i: int| 0 <= i < r.low_tasks@.len() ==> !(#[trigger] r.low_tasks@[i]),
            !r.saving && !r.reading,
            r.max_tasks == MAX_TASKS,
    {
        let vol: usize = Self::volume(sizes);
        let mut chunks: Vec<Chunk> = Vec::new();
        let mut i: usize = 0;
        while i < vol
            invariant
                sizes_ok(sizes),
                vol == volume_spec(sizes),
                i <= vol,
                chunks@.len() == i,
                forall|k: int| 0 <= k < i ==> (#[trigger] chunks@[k]).wf(),
                forall|k: int|
                    0 <= k < i ==> (#[trigger] chunks@[k]).pos == idx_to_pos_spec(k, sizes),
                forall|k: int| 0 <= k < i ==> !(#[trigger] chunks@[k]).generated,
                forall|k: int|
                    0 <= k < i ==> (#[trigger] chunks@[k]).ids() == Seq::new(
                        CHUNK_VOLUME as nat,
                        |l: int| crate::voxel::AIR_ID,
                    ),
                forall|k: int| 0 <= k < i ==> (#[trigger] chunks@[k]).active_lod is None,
                forall|k: int, l: int|
                    0 <= k < i && 0 <= l < N_LODS ==> (#[trigger] chunks@[k].meshes@[l]) is None,
            decreases vol - i,
        {
            proof {
                lemma_grid_pos_bounded(sizes, i as int);
            }
            let pos = Self::idx_to_pos(i, sizes);
            chunks.push(Chunk::new(pos));
            i += 1;
        }
        ChunkArray {
            chunks,
            sizes,
            voxels_gen_tasks: bool_slots(vol),
            full_tasks: bool_slots(vol),
            low_tasks: bool_slots(6 * vol),
            lod_dist_threshold: crate::cfg::LOD_THRESHOLD_MILLI,
            max_tasks: MAX_TASKS,
            saving: false,
            reading: false,
        }
    }

    /// A grid built from the given chunks, one per cell in row-major
    /// order.
    pub fn from_chunks(sizes: USize3, chunks: Vec<Chunk>) -> (r: ChunkArray)
        requires
            sizes_ok(sizes),
            chunks@.len() == volume_spec(sizes),
            forall|i: int| 0 <= i < chunks@.len() ==> (#[trigger] chunks@[i]).wf(),
            forall|i: int|
                0 <= i < chunks@.len() ==> (#[trigger] chunks@[i]).pos == idx_to_pos_spec(
                    i,
                    sizes,
                ),
        ensures
            r.wf(),
            r.sizes == sizes,
            r.chunks@ == chunks@,
            !r.saving && !r.reading,
    {
        let vol: usize = Self::volume(sizes);
        ChunkArray {
            chunks,
            sizes,
            voxels_gen_tasks: bool_slots(vol),
            full_tasks: bool_slots(vol),
            low_tasks: bool_slots(6 * vol),
            lod_dist_threshold: crate::cfg::LOD_THRESHOLD_MILLI,
            max_tasks: MAX_TASKS,
            saving: false,
            reading: false,
        }
    }

    /// A grid of empty chunks; same as `new`, kept as the reshape entry
    /// point.
    pub fn new_empty_chunks(sizes: USize3) -> (r: ChunkArray)
        requires
            sizes_ok(sizes),
        ensures
            r.wf(),
            r.sizes == sizes,
    {
        Self::new(sizes)
    }

    /// The empty grid.
    pub fn new_empty() -> (r: ChunkArray)
        ensures
            r.wf(),
            r.sizes == (USize3 { x: 0, y: 0, z: 0 }),
    {
        Self::new(USize3 { x: 0, y: 0, z: 0 })
    }

    /// The chunk covering the global voxel position `pos`, if the grid has
    /// it.
    pub fn get_chunk_by_pos(&self, pos: Int3) -> (r: Option<&Chunk>)
        requires
            self.wf(),
        ensures
            match r {
                Some(c) => pos_to_idx_spec(self.sizes, pos) matches Some(i) && c == &self.chunks@[i],
                None => pos_to_idx_spec(self.sizes, pos) is None,
            },
    {
        match Self::pos_to_idx(self.sizes, pos) {
            Some(i) => Some(&self.chunks[i]),
            None => None,
        }
    }

    /// Mutable access to the chunk at chunk position `pos`.
    pub fn get_chunk_mut_by_pos(&mut self, pos: Int3) -> (r: Option<&mut Chunk>)
        requires
            old(self).wf(),
        ensures
            match r {
                Some(c) => {
                    &&& pos_to_idx_spec(old(self).sizes, pos) matches Some(i)
                    &&& *c == old(self).chunks@[i]
                    &&& final(self).chunks@ == old(self).chunks@.update(i, *final(c))
                    &&& final(self).sizes == old(self).sizes
                    &&& final(self).voxels_gen_tasks == old(self).voxels_gen_tasks
                    &&& final(self).full_tasks == old(self).full_tasks
                    &&& final(self).low_tasks == old(self).low_tasks
                    &&& final(self).lod_dist_threshold == old(self).lod_dist_threshold
                    &&& final(self).max_tasks == old(self).max_tasks
                    &&& final(self).saving == old(self).saving
                    &&& final(self).reading == old(self).reading
                },
                None => pos_to_idx_spec(old(self).sizes, pos) is None && *final(self) == *old(self),
            },
    {
        match Self::pos_to_idx(self.sizes, pos) {
            Some(i) => {
                proof {
                    assert(old(self).chunks@.update(
                        i as int,
                        old(self).chunks@[i as int],
                    ) =~= old(self).chunks@);
                }
                Some(&mut self.chunks[i])
            },
            None => None,
        }
    }

    /// The linear indices of the six face-adjacent cells of `pos`, in
    /// offset order; `None` where the grid ends.
    pub fn get_adj_chunks_idxs(sizes: USize3, pos: Int3) -> (r: Vec<Option<usize>>)
        requires
            sizes_ok(sizes),
            crate::space::pos_bounded(pos),
        ensures
            r@.len() == 6,
            forall|d: int|
                0 <= d < 6 ==> (#[trigger] r@[d] is Some <==> pos_to_idx_spec(
                    sizes,
                    crate::space::shifted(pos, crate::space::adj_offsets()[d]),
                ) is Some),
            forall|d: int|
                0 <= d < 6 ==> (#[trigger] r@[d] matches Some(k) ==> pos_to_idx_spec(
                    sizes,
                    crate::space::shifted(pos, crate::space::adj_offsets()[d]),
                ) == Some(k as int) && k < volume_spec(sizes)),
    {
        let around = crate::space::adj_iter(pos);
        let mut r: Vec<Option<usize>> = Vec::new();
        let mut d: usize = 0;
        while d < 6
            invariant
                sizes_ok(sizes),
                around@ == crate::space::adj_positions_spec(pos),
                d <= 6,
                r@.len() == d,
                forall|k: int|
                    0 <= k < d ==> (#[trigger] r@[k] is Some <==> pos_to_idx_spec(
                        sizes,
                        crate::space::shifted(pos, crate::space::adj_offsets()[k]),
                    ) is Some),
                forall|k: int|
                    0 <= k < d ==> (#[trigger] r@[k] matches Some(q) ==> pos_to_idx_spec(
                        sizes,
                        crate::space::shifted(pos, crate::space::adj_offsets()[k]),
                    ) == Some(q as int) && q < volume_spec(sizes)),
            decreases 6 - d,
        {
            let p = around[d];
            r.push(Self::pos_to_idx(sizes, p));
            d += 1;
        }
        r
    }

    /// Read-only views of the six neighbors of the chunk at linear index
    /// `idx`.
    pub fn get_adj_chunks(&self, idx: usize) -> (r: crate::meshing::ChunkAdj<'_>)
        requires
            self.wf(),
            idx < volume_spec(self.sizes),
        ensures
            r.wf(),
            forall|d: int|
                0 <= d < 6 ==> (#[trigger] r.side(d) is Some <==> pos_to_idx_spec(
                    self.sizes,
                    crate::space::shifted(
                        idx_to_pos_spec(idx as int, self.sizes),
                        crate::space::adj_offsets()[d],
                    ),
                ) is Some),
            forall|d: int|
                0 <= d < 6 ==> (#[trigger] r.side(d) matches Some(c) ==> pos_to_idx_spec(
                    self.sizes,
                    crate::space::shifted(
                        idx_to_pos_spec(idx as int, self.sizes),
                        crate::space::adj_offsets()[d],
                    ),
                ) matches Some(i) && c == &self.chunks@[i]),
    {
        proof {
            lemma_grid_pos_bounded(self.sizes, idx as int);
        }
        let pos = Self::idx_to_pos(idx, self.sizes);
        let idxs = Self::get_adj_chunks_idxs(self.sizes, pos);
        crate::meshing::ChunkAdj {
            plus_x: self.side_ref(&idxs, 0),
            minus_x: self.side_ref(&idxs, 1),
            plus_y: self.side_ref(&idxs, 2),
            minus_y: self.side_ref(&idxs, 3),
            plus_z: self.side_ref(&idxs, 4),
            minus_z: self.side_ref(&idxs, 5),
        }
    }

    fn side_ref<'a>(&'a self, idxs: &Vec<Option<usize>>, d: usize) -> (r: Option<&'a Chunk>)
        requires
            self.wf(),
            d < idxs@.len(),
            idxs@[d as int] matches Some(i) ==> i < self.chunks@.len(),
        ensures
            r == match idxs@[d as int] {
                Some(i) => Some(&self.chunks@[i as int]),
                None => None::<&Chunk>,
            },
    {
        match idxs[d] {
            Some(i) => Some(&self.chunks[i]),
            None => None,
        }
    }

    /// Looks the voxel at a global position up, if it lies in the grid.
    pub fn get_voxel(&self, pos: Int3) -> (r: Option<Voxel>)
        requires
            self.wf(),
        ensures
            ({
                let cp = crate::chunk::chunk_pos_of_spec(pos);
                match r {
                    Some(v) => {
                        &&& pos_to_idx_spec(self.sizes, cp) matches Some(i)
                        &&& v.pos == pos
                        &&& v.id == self.models()[pos_to_idx_spec(self.sizes, cp)->0].ids[local_lidx(cp, pos)]
                    },
                    None => pos_to_idx_spec(self.sizes, cp) is None,
                }
            }),
    {
        let cp = chunk_pos_of(pos);
        match Self::pos_to_idx(self.sizes, cp) {
            None => None,
            Some(i) => {
                proof {
                    lemma_in_own_chunk(pos);
                }
                proof {
                    assert(self.models()[i as int] == self.chunks@[i as int].model());
                    lemma_pos_idx_pos(self.sizes, cp);
                }
                match self.chunks[i].get_voxel_global(pos) {
                    ChunkOption::Item(v) => Some(v),
                    ChunkOption::OutsideChunk => None,
                }
            },
        }
    }

    /// Sets the voxel at a global position and returns the id it held; on
    /// an actual change the owning chunk and all its loaded neighbors drop
    /// their cached meshes.
    pub fn set_voxel(&mut self, pos: Int3, new_id: u16) -> (r: Result<u16, EditError>)
        requires
            old(self).wf(),
        ensures
            final(self).wf(),
            final(self).sizes == old(self).sizes,
            final(self).models() == array_set_voxel_model(
                old(self).models(),
                old(self).sizes,
                pos,
                new_id,
            ).0,
            r == array_set_voxel_model(old(self).models(), old(self).sizes, pos, new_id).1,
            final(self).voxels_gen_tasks == old(self).voxels_gen_tasks,
            final(self).full_tasks == old(self).full_tasks,
            final(self).low_tasks == old(self).low_tasks,
            final(self).saving == old(self).saving && final(self).reading == old(self).reading,
            final(self).max_tasks == old(self).max_tasks,
            final(self).lod_dist_threshold == old(self).lod_dist_threshold,
    {
        let ghost ms = old(self).models();
        let cp = chunk_pos_of(pos);
        let idx_opt = Self::pos_to_idx(self.sizes, cp);
        match idx_opt {
            None => {
                proof {
                    assert(final(self).models() =~= array_set_voxel_model(
                        ms,
                        old(self).sizes,
                        pos,
                        new_id,
                    ).0);
                }
                Err(EditError::PosIdConversion(pos))
            },
            Some(i) => {
                proof {
                    lemma_in_own_chunk(pos);
                    lemma_grid_pos_bounded(self.sizes, i as int);
                }
                let old_id = match self.chunks[i].id_at_global(pos) {
                    Some(v) => v,
                    None => 0,
                };
                let res = edit_chunk_set(&mut self.chunks, i, pos, new_id);
                match res {
                    Err(e) => {
                        proof {
                            assert(final(self).models() =~= array_set_voxel_model(
                                ms,
                                old(self).sizes,
                                pos,
                                new_id,
                            ).0);
                        }
                        Err(e)
                    },
                    Ok(got) => {
                        if got != new_id {
                            let ghost mid = self.models();
                            proof {
                                assert(mid =~= ms.update(
                                    i as int,
                                    set_voxel_model(ms[i as int], pos, new_id).0,
                                ));
                                lemma_pos_idx_pos(self.sizes, cp);
                            }
                            clear_neighbors_of(&mut self.chunks, self.sizes, i);
                            proof {
                                lemma_set_sweep_done(
                                    ms,
                                    mid,
                                    self.models(),
                                    self.sizes,
                                    pos,
                                    new_id,
                                );
                            }
                        } else {
                            proof {
                                assert(final(self).models() =~= array_set_voxel_model(
                                    ms,
                                    old(self).sizes,
                                    pos,
                                    new_id,
                                ).0);
                            }
                        }
                        Ok(got)
                    },
                }
            },
        }
    }
}

/// Drops the cached meshes of every in-grid face neighbor of the cell
/// `center`, and of nothing else.
fn clear_neighbors_of(chunks: &mut Vec<Chunk>, sizes: USize3, center: usize)
    requires
        sizes_ok(sizes),
        old(chunks)@.len() == volume_spec(sizes),
        center < volume_spec(sizes),
        forall|q: int| 0 <= q < old(chunks)@.len() ==> (#[trigger] old(chunks)@[q]).wf(),
        forall|q: int|
            0 <= q < old(chunks)@.len() ==> (#[trigger] old(chunks)@[q]).pos == idx_to_pos_spec(
                q,
                sizes,
            ),
    ensures
        final(chunks)@.len() == old(chunks)@.len(),
        forall|q: int| 0 <= q < final(chunks)@.len() ==> (#[trigger] final(chunks)@[q]).wf(),
        forall|q: int|
            0 <= q < final(chunks)@.len() ==> (#[trigger] final(chunks)@[q]).pos
                == idx_to_pos_spec(q, sizes),
        forall|q: int|
            0 <= q < final(chunks)@.len() ==> (#[trigger] final(chunks)@[q]).model() == (
            if is_adjacent_idx(sizes, center as int, q) {
                cleared(old(chunks)@[q].model())
            } else {
                old(chunks)@[q].model()
            }),
{
    proof {
        lemma_grid_pos_bounded(sizes, center as int);
    }
    let pos = ChunkArray::idx_to_pos(center, sizes);
    let idxs = ChunkArray::get_adj_chunks_idxs(sizes, pos);
    let ghost mid = old(chunks)@.map_values(|c: Chunk| c.model());
    let mut d: usize = 0;
    while d < 6
        invariant
            sizes_ok(sizes),
            chunks@.len() == volume_spec(sizes),
            mid.len() == chunks@.len(),
            center < volume_spec(sizes),
            pos == idx_to_pos_spec(center as int, sizes),
            idxs@.len() == 6,
            d <= 6,
            forall|q: int| 0 <= q < chunks@.len() ==> (#[trigger] chunks@[q]).wf(),
            forall|q: int|
                0 <= q < chunks@.len() ==> (#[trigger] chunks@[q]).pos == idx_to_pos_spec(
                    q,
                    sizes,
                ),
            forall|q: int| 0 <= q < mid.len() ==> #[trigger] mid[q] == old(chunks)@[q].model(),
            forall|dd: int|
                0 <= dd < 6 ==> (#[trigger] idxs@[dd] is Some <==> pos_to_idx_spec(
                    sizes,
                    crate::space::shifted(pos, crate::space::adj_offsets()[dd]),
                ) is Some),
            forall|dd: int|
                0 <= dd < 6 ==> (#[trigger] idxs@[dd] matches Some(q) ==> pos_to_idx_spec(
                    sizes,
                    crate::space::shifted(pos, crate::space::adj_offsets()[dd]),
                ) == Some(q as int) && q < volume_spec(sizes)),
            forall|q: int|
                0 <= q < chunks@.len() ==> #[trigger] chunks@[q].model() == (if exists|dd: int|
                    0 <= dd < d && #[trigger] idxs@[dd] == Some(q as usize) {
                    cleared(mid[q])
                } else {
                    mid[q]
                }),
        decreases 6 - d,
    {
        let ghost prev = chunks@.map_values(|c: Chunk| c.model());
        let slot = idxs[d];
        match slot {
            Some(k) => {
                drop_meshes_at(chunks, k);
                proof {
                    assert forall|q: int|
                        0 <= q < chunks@.len() implies #[trigger] chunks@[q].model() == (
                    if exists|dd: int| 0 <= dd < d + 1 && #[trigger] idxs@[dd] == Some(q as usize) {
                        cleared(mid[q])
                    } else {
                        mid[q]
                    }) by {
                        if q == k as int {
                            assert(idxs@[d as int] == Some(q as usize));
                            assert(chunks@[q].model() == cleared(prev[q]));
                            if exists|dd: int|
                                0 <= dd < d && #[trigger] idxs@[dd] == Some(q as usize) {
                                assert(prev[q] == cleared(mid[q]));
                                assert(cleared(cleared(mid[q])) =~= cleared(mid[q]));
                            } else {
                                assert(prev[q] == mid[q]);
                            }
                        } else {
                            assert(chunks@[q].model() == prev[q]);
                            assert((exists|dd: int|
                                0 <= dd < d + 1 && #[trigger] idxs@[dd] == Some(q as usize)) == (
                            exists|dd: int|
                                0 <= dd < d && #[trigger] idxs@[dd] == Some(q as usize))) by {
                                if exists|dd: int|
                                    0 <= dd < d + 1 && #[trigger] idxs@[dd] == Some(q as usize) {
                                    let dd = choose|dd: int|
                                        0 <= dd < d + 1 && #[trigger] idxs@[dd] == Some(
                                            q as usize,
                                        );
                                    assert(dd != d);
                                }
                            }
                        }
                    }
                }
            },
            None => {
                proof {
                    assert forall|q: int|
                        0 <= q < chunks@.len() implies #[trigger] chunks@[q].model() == (
                    if exists|dd: int| 0 <= dd < d + 1 && #[trigger] idxs@[dd] == Some(q as usize) {
                        cleared(mid[q])
                    } else {
                        mid[q]
                    }) by {
                        if exists|dd: int|
                            0 <= dd < d + 1 && #[trigger] idxs@[dd] == Some(q as usize) {
                            let dd = choose|dd: int|
                                0 <= dd < d + 1 && #[trigger] idxs@[dd] == Some(q as usize);
                            assert(dd != d);
                        }
                    }
                }
            },
        }
        d += 1;
    }
    proof {
        assert forall|q: int|
            0 <= q < chunks@.len() implies #[trigger] chunks@[q].model() == (if is_adjacent_idx(
            sizes,
            center as int,
            q,
        ) {
            cleared(old(chunks)@[q].model())
        } else {
            old(chunks)@[q].model()
        }) by {
            if exists|dd: int| 0 <= dd < 6 && #[trigger] idxs@[dd] == Some(q as usize) {
                let dd = choose|dd: int| 0 <= dd < 6 && #[trigger] idxs@[dd] == Some(q as usize);
                assert(pos_to_idx_spec(
                    sizes,
                    crate::space::shifted(pos, crate::space::adj_offsets()[dd]),
                ) == Some((q as usize) as int));
                assert(is_adjacent_idx(sizes, center as int, q));
            } else {
                if is_adjacent_idx(sizes, center as int, q) && 0 <= q {
                    let dd = choose|dd: int|
                        0 <= dd < 6 && pos_to_idx_spec(
                            sizes,
                            #[trigger] crate::space::shifted(
                                idx_to_pos_spec(center as int, sizes),
                                crate::space::adj_offsets()[dd],
                            ),
                        ) == Some(q);
                    assert(idxs@[dd] is Some);
                    let q2 = idxs@[dd]->0;
                    assert(pos_to_idx_spec(
                        sizes,
                        crate::space::shifted(pos, crate::space::adj_offsets()[dd]),
                    ) == Some(q2 as int));
                    assert(q2 as int == q);
                    assert(idxs@[dd] == Some(q as usize));
                    assert(false);
                }
            }
        }
    }
}

/// After the owner's edit and the neighbor sweep, the grid matches the
/// grid-level edit model.
proof fn lemma_set_sweep_done(
    ms: Seq<ChunkModel>,
    mid: Seq<ChunkModel>,
    fin: Seq<ChunkModel>,
    sizes: USize3,
    pos: Int3,
    new_id: u16,
)
    requires
        sizes_ok(sizes),
        ms.len() == volume_spec(sizes),
        mid.len() == ms.len(),
        fin.len() == ms.len(),
        pos_to_idx_spec(sizes, crate::chunk::chunk_pos_of_spec(pos)) is Some,
        ({
            let i = pos_to_idx_spec(sizes, crate::chunk::chunk_pos_of_spec(pos))->Some_0;
            let step = set_voxel_model(ms[i], pos, new_id);
            &&& step.1 matches Ok(old_id) && old_id != new_id
            &&& mid == ms.update(i, step.0)
        }),
        ({
            let i = pos_to_idx_spec(sizes, crate::chunk::chunk_pos_of_spec(pos))->Some_0;
            forall|q: int|
                0 <= q < fin.len() ==> #[trigger] fin[q] == (if is_adjacent_idx(sizes, i, q) {
                    cleared(mid[q])
                } else {
                    mid[q]
                })
        }),
    ensures
        fin == array_set_voxel_model(ms, sizes, pos, new_id).0,
{
    let cp = crate::chunk::chunk_pos_of_spec(pos);
    let i = pos_to_idx_spec(sizes, cp)->Some_0;
    let target = array_set_voxel_model(ms, sizes, pos, new_id).0;
    lemma_pos_idx_pos(sizes, cp);
    lemma_pos_idx_bounds(sizes, cp);
    lemma_chunk_pos_small(pos);
    lemma_not_self_adjacent(sizes, i);
    assert forall|q: int| 0 <= q < fin.len() implies fin[q] == target[q] by {
        if q == i {
            assert(fin[q] == mid[i]);
        } else {
            if is_adjacent_idx(sizes, i, q) {
                assert(fin[q] == cleared(mid[q]) && mid[q] == ms[q]);
            } else {
                assert(fin[q] == mid[q] && mid[q] == ms[q]);
            }
        }
    }
    assert(fin =~= target);
}

/// No grid cell is its own face neighbor.
proof fn lemma_not_self_adjacent(sizes: USize3, i: int)
    requires
        sizes_ok(sizes),
        0 <= i < volume_spec(sizes),
    ensures
        !is_adjacent_idx(sizes, i, i),
{
    if is_adjacent_idx(sizes, i, i) {
        let dd = choose|dd: int|
            0 <= dd < 6 && pos_to_idx_spec(
                sizes,
                #[trigger] crate::space::shifted(
                    idx_to_pos_spec(i, sizes),
                    crate::space::adj_offsets()[dd],
                ),
            ) == Some(i);
        let p = idx_to_pos_spec(i, sizes);
        let q = crate::space::shifted(p, crate::space::adj_offsets()[dd]);
        lemma_idx_round_trip(sizes, i);
        lemma_pos_round_trip(sizes, idx_to_coord_idx_spec(i, sizes));
        lemma_pos_to_idx_injective(sizes, q, p);
        let o = crate::space::adj_offsets()[dd];
        assert(o.x != 0 || o.y != 0 || o.z != 0);
        assert(-(MAX_CHUNKS as int) - 1 <= p.x + o.x <= MAX_CHUNKS + 1 && -(MAX_CHUNKS as int) - 1
            <= p.y + o.y <= MAX_CHUNKS + 1 && -(MAX_CHUNKS as int) - 1 <= p.z + o.z <= MAX_CHUNKS
            + 1) by {
            lemma_grid_pos_bounded(sizes, i);
        }
        assert(q.x == p.x + o.x && q.y == p.y + o.y && q.z == p.z + o.z);
        assert(false);
    }
}

/// The chunk position of any voxel position is far from the ends of the
/// coordinate range.
pub proof fn lemma_chunk_pos_small(pos: Int3)
    ensures
        ({
            let cp = crate::chunk::chunk_pos_of_spec(pos);
            -0x8000000 <= cp.x <= 0x8000000 && -0x8000000 <= cp.y <= 0x8000000 && -0x8000000
                <= cp.z <= 0x8000000
        }),
{
    lemma_div32_range(pos.x as int);
    lemma_div32_range(pos.y as int);
    lemma_div32_range(pos.z as int);
}

proof fn lemma_div32_range(x: int)
    requires
        -0x8000_0000 <= x <= 0x7fff_ffff,
    ensures
        -0x8000000 <= x / 32 <= 0x8000000,
{
    assert(x == 32 * (x / 32) + x % 32 && 0 <= x % 32 < 32) by (nonlinear_arith);
}

/// The id at a global position of one chunk, if it lies in it.
impl Chunk {
    fn id_at_global(&self, pos: Int3) -> (r: Option<u16>)
        requires
            self.wf(),
        ensures
            match r {
                Some(v) => in_chunk(self.pos, pos) && v == self.ids()[local_lidx(self.pos, pos)],
                None => !in_chunk(self.pos, pos),
            },
    {
        match self.get_voxel_global(pos) {
            ChunkOption::Item(v) => Some(v.id),
            ChunkOption::OutsideChunk => None,
        }
    }
}

/// Applies a voxel edit to the chunk at `i` of the grid's chunk vector.
fn edit_chunk_set(chunks: &mut Vec<Chunk>, i: usize, pos: Int3, new_id: u16) -> (r: Result<
    u16,
    EditError,
>)
    requires
        i < old(chunks)@.len(),
        old(chunks)@[i as int].wf(),
    ensures
        final(chunks)@.len() == old(chunks)@.len(),
        final(chunks)@[i as int].wf(),
        final(chunks)@[i as int].model() == set_voxel_model(
            old(chunks)@[i as int].model(),
            pos,
            new_id,
        ).0,
        r == set_voxel_model(old(chunks)@[i as int].model(), pos, new_id).1,
        final(chunks)@ == old(chunks)@.update(i as int, final(chunks)@[i as int]),
        final(chunks)@[i as int].pos == old(chunks)@[i as int].pos,
        final(chunks)@[i as int].generated == old(chunks)@[i as int].generated,
{
    let c = &mut chunks[i];
    let r = c.set_voxel(pos, new_id);
    proof {
        assert(final(chunks)@ =~= old(chunks)@.update(i as int, final(chunks)@[i as int]));
    }
    r
}

/// Drops the cached meshes of the chunk at `k`.
fn drop_meshes_at(chunks: &mut Vec<Chunk>, k: usize)
    requires
        k < old(chunks)@.len(),
        old(chunks)@[k as int].wf(),
    ensures
        final(chunks)@.len() == old(chunks)@.len(),
        final(chunks)@[k as int].wf(),
        final(chunks)@[k as int].model() == cleared(old(chunks)@[k as int].model()),
        final(chunks)@ == old(chunks)@.update(k as int, final(chunks)@[k as int]),
{
    let c = &mut chunks[k];
    c.drop_all_meshes();
    proof {
        assert(final(chunks)@ =~= old(chunks)@.update(k as int, final(chunks)@[k as int]));
        assert(final(chunks)@[k as int].model() =~= cleared(old(chunks)@[k as int].model()));
    }
}

/// A vector of `n` clear task slots.
fn bool_slots(n: usize) -> (r: Vec<bool>)
    ensures
        r@.len() == n,
        forall|i: int| 0 <= i < n ==> !(#[trigger] r@[i]),
{
    let mut r: Vec<bool> = Vec::new();
    let mut i: usize = 0;
    while i < n
        invariant
            i <= n,
            r@.len() == i,
            forall|k: int| 0 <= k < i ==> !(#[trigger] r@[k]),
        decreases n - i,
    {
        r.push(false);
        i += 1;
    }
    r
}

/// The chunk position covering a global voxel position, componentwise
/// floor division by the chunk side; total over all of `i32`.
pub fn chunk_pos_of(pos: Int3) -> (r: Int3)
    ensures
        r == crate::chunk::chunk_pos_of_spec(pos),
{
    Int3 { x: div32(pos.x), y: div32(pos.y), z: div32(pos.z) }
}

fn div32(x: i32) -> (r: i32)
    ensures
        r == (x as int) / 32,
{
    let xi: i64 = x as i64;
    if xi >= 0 {
        (xi / 32) as i32
    } else {
        let n: i64 = -xi;
        let q: i64 = n / 32;
        let rem: i64 = n % 32;
        proof {
            crate::math::lemma_neg_floor_div(xi as int, 32);
        }
        if rem == 0 {
            (-q) as i32
        } else {
            (-q - 1) as i32
        }
    }
}

/// Number of `true` slots: how many tasks a book holds.
pub open spec fn count_trues(s: Seq<bool>) -> int
    decreases s.len(),
{
    if s.len() == 0 {
        0
    } else {
        count_trues(s.drop_last()) + if s.last() {
            1int
        } else {
            0int
        }
    }
}

pub proof fn lemma_count_trues_bounds(s: Seq<bool>)
    ensures
        0 <= count_trues(s) <= s.len(),
    decreases s.len(),
{
    if s.len() > 0 {
        lemma_count_trues_bounds(s.drop_last());
    }
}

/// Flipping one slot moves the count by exactly one.
pub proof fn lemma_count_trues_update(s: Seq<bool>, i: int, b: bool)
    requires
        0 <= i < s.len(),
    ensures
        count_trues(s.update(i, b)) == count_trues(s) + (if b && !s[i] {
            1int
        } else if !b && s[i] {
            -1int
        } else {
            0int
        }),
    decreases s.len(),
{
    if i == s.len() - 1 {
        assert(s.update(i, b).drop_last() =~= s.drop_last());
    } else {
        lemma_count_trues_update(s.drop_last(), i, b);
        assert(s.update(i, b).drop_last() =~= s.drop_last().update(i, b));
    }
}

fn count_true(v: &Vec<bool>) -> (r: usize)
    ensures
        r == count_trues(v@),
{
    let len: usize = v.len();
    let mut r: usize = 0;
    let mut i: usize = 0;
    while i < len
        invariant
            len == v@.len(),
            i <= len,
            r == count_trues(v@.take(i as int)),
            r <= i,
        decreases len - i,
    {
        proof {
            assert(v@.take(i + 1).drop_last() =~= v@.take(i as int));
            assert(v@.take(i + 1).last() == v@[i as int]);
        }
        if v[i] {
            r = r + 1;
        }
        i += 1;
    }
    proof {
        assert(v@.take(len as int) =~= v@);
    }
    r
}

/// Euclidean squared distance, in thousandths of a chunk side, from the
/// camera to the center of the chunk at linear index `idx`.
pub open spec fn dist_sq_spec(sizes: USize3, idx: int, cam: (i64, i64, i64)) -> int {
    let p = idx_to_pos_spec(idx, sizes);
    let dx = 1000 * p.x + 500 - cam.0;
    let dy = 1000 * p.y + 500 - cam.1;
    let dz = 1000 * p.z + 500 - cam.2;
    dx * dx + dy * dy + dz * dz
}

/// Camera coordinates the selector accepts, in thousandths of a chunk
/// side.
pub open spec fn cam_ok(cam: (i64, i64, i64)) -> bool {
    -1_000_000_000 <= cam.0 <= 1_000_000_000 && -1_000_000_000 <= cam.1 <= 1_000_000_000
        && -1_000_000_000 <= cam.2 <= 1_000_000_000
}

/// Whether `lod` is `min(floor(dist / threshold), MAX_LOD)`, stated over
/// squares: the level's threshold multiple is within the distance, and
/// the next level's (if any) is beyond it.
pub open spec fn lod_matches_dist(lod: u32, dist_sq: int, threshold: int) -> bool {
    &&& lod <= MAX_LOD
    &&& (lod * lod) * (threshold * threshold) <= dist_sq
    &&& lod < MAX_LOD ==> dist_sq < ((lod + 1) * (lod + 1)) * (threshold * threshold)
}

/// The level of detail owed at squared distance `dist_sq`: the greatest
/// `k <= MAX_LOD` whose threshold multiple is not beyond the distance,
/// which is `min(floor(dist / threshold), MAX_LOD)` stated over squares.
pub fn desired_lod(dist_sq: u64, threshold_milli: u64) -> (r: u32)
    requires
        1 <= threshold_milli <= 1_000_000,
    ensures
        lod_matches_dist(r, dist_sq as int, threshold_milli as int),
        r <= MAX_LOD,
        (r * r) * (threshold_milli * threshold_milli) <= dist_sq,
        r < MAX_LOD ==> dist_sq < ((r + 1) * (r + 1)) * (threshold_milli * threshold_milli),
{
    proof {
        assert(threshold_milli * threshold_milli <= 1_000_000_000_000) by (nonlinear_arith)
            requires threshold_milli <= 1_000_000;
    }
    let t2: u64 = threshold_milli * threshold_milli;
    let mut k: u32 = MAX_LOD;
    loop
        invariant
            1 <= threshold_milli <= 1_000_000,
            t2 == threshold_milli * threshold_milli,
            t2 <= 1_000_000_000_000,
            k <= MAX_LOD,
            k < MAX_LOD ==> dist_sq < ((k + 1) * (k + 1)) * t2,
        decreases k,
    {
        proof {
            assert(k * k <= 25 && (k * k) * t2 <= 25_000_000_000_000) by (nonlinear_arith)
                requires k <= 5 && 0 <= t2 <= 1_000_000_000_000;
        }
        let k2t2: u64 = (k * k) as u64 * t2;
        if k2t2 <= dist_sq {
            return k;
        }
        if k == 0 {
            proof {
                assert(k2t2 == 0) by (nonlinear_arith)
                    requires k2t2 == (k * k) * t2 && k == 0;
            }
            return 0;
        }
        k = k - 1;
    }
}

impl ChunkArray {
    /// Squared distance from the camera to the chunk at `idx`.
    pub fn dist_sq_to(sizes: USize3, idx: usize, cam: (i64, i64, i64)) -> (r: u64)
        requires
            sizes_ok(sizes),
            idx < volume_spec(sizes),
            cam_ok(cam),
        ensures
            r == dist_sq_spec(sizes, idx as int, cam),
    {
        proof {
            lemma_grid_pos_bounded(sizes, idx as int);
        }
        let p = Self::idx_to_pos(idx, sizes);
        let dx: i64 = 1000 * p.x as i64 + 500 - cam.0;
        let dy: i64 = 1000 * p.y as i64 + 500 - cam.1;
        let dz: i64 = 1000 * p.z as i64 + 500 - cam.2;
        proof {
            assert(dx * dx <= 1_100_000_000 * 1_100_000_000 && dx * dx >= 0 && dy * dy
                <= 1_100_000_000 * 1_100_000_000 && dy * dy >= 0 && dz * dz <= 1_100_000_000
                * 1_100_000_000 && dz * dz >= 0) by (nonlinear_arith)
                requires
                    -1_100_000_000 <= dx <= 1_100_000_000,
                    -1_100_000_000 <= dy <= 1_100_000_000,
                    -1_100_000_000 <= dz <= 1_100_000_000,
            ;
        }
        (dx * dx + dy * dy + dz * dz) as u64
    }

    /// The level of detail the selector owes every chunk, by linear
    /// index: each entry is `min(floor(dist / threshold), MAX_LOD)` at
    /// that chunk's camera distance, stated over squares (see
    /// `lod_matches_dist`).
    pub fn desired_lod_iter(sizes: USize3, cam_pos: (i64, i64, i64), threshold: u64) -> (r: Vec<
        u32,
    >)
        requires
            sizes_ok(sizes),
            cam_ok(cam_pos),
            1 <= threshold <= 1_000_000,
        ensures
            r@.len() == volume_spec(sizes),
            forall|i: int|
                0 <= i < r@.len() ==> #[trigger] lod_matches_dist(
                    r@[i],
                    dist_sq_spec(sizes, i, cam_pos),
                    threshold as int,
                ),
    {
        let vol: usize = Self::volume(sizes);
        let mut r: Vec<u32> = Vec::new();
        let mut i: usize = 0;
        while i < vol
            invariant
                sizes_ok(sizes),
                cam_ok(cam_pos),
                1 <= threshold <= 1_000_000,
                vol == volume_spec(sizes),
                i <= vol,
                r@.len() == i,
                forall|k: int|
                    0 <= k < i ==> #[trigger] lod_matches_dist(
                        r@[k],
                        dist_sq_spec(sizes, k, cam_pos),
                        threshold as int,
                    ),
            decreases vol - i,
        {
            let d = Self::dist_sq_to(sizes, i, cam_pos);
            r.push(desired_lod(d, threshold));
            i += 1;
        }
        r
    }

    /// Tasks currently in flight, over all three books.
    pub open spec fn in_flight_spec(&self) -> int {
        count_trues(self.voxels_gen_tasks@) + count_trues(self.full_tasks@) + count_trues(
            self.low_tasks@,
        )
    }

    pub fn in_flight(&self) -> (r: usize)
        requires
            self.wf(),
        ensures
            r == self.in_flight_spec(),
    {
        proof {
            lemma_count_trues_bounds(self.voxels_gen_tasks@);
            lemma_count_trues_bounds(self.full_tasks@);
            lemma_count_trues_bounds(self.low_tasks@);
        }
        count_true(&self.voxels_gen_tasks) + count_true(&self.full_tasks) + count_true(
            &self.low_tasks,
        )
    }

    /// Whether the driver may start one more task: the cap has room and
    /// no save or load is in flight.
    pub fn can_start_tasks(&self) -> (r: bool)
        requires
            self.wf(),
        ensures
            r == (self.in_flight_spec() < self.max_tasks && !self.saving && !self.reading),
    {
        !self.saving && !self.reading && self.in_flight() < self.max_tasks
    }

    pub fn is_voxels_gen_task_running(&self, idx: usize) -> (r: bool)
        requires
            self.wf(),
            idx < volume_spec(self.sizes),
        ensures
            r == self.voxels_gen_tasks@[idx as int],
    {
        self.voxels_gen_tasks[idx]
    }

    /// The mesh-task slot of `(idx, lod)`: the full book at level 0, the
    /// low book otherwise.
    pub open spec fn mesh_task_spec(&self, idx: int, lod: int) -> bool {
        if lod == 0 {
            self.full_tasks@[idx]
        } else {
            self.low_tasks@[6 * idx + lod]
        }
    }

    pub fn is_mesh_task_running(&self, idx: usize, lod: u32) -> (r: bool)
        requires
            self.wf(),
            idx < volume_spec(self.sizes),
            lod < N_LODS,
        ensures
            r == self.mesh_task_spec(idx as int, lod as int),
    {
        proof {
            lemma_low_slot_bounds(self.sizes, idx as int, lod as int);
        }
        if lod == 0 {
            self.full_tasks[idx]
        } else {
            self.low_tasks[6 * idx + lod as usize]
        }
    }

    /// Books a voxel-generation task for the chunk at `idx`. At most one
    /// task per chunk: the slot must be free.
    pub fn start_task_gen_voxels(&mut self, idx: usize)
        requires
            old(self).wf(),
            idx < volume_spec(old(self).sizes),
            !old(self).voxels_gen_tasks@[idx as int],
        ensures
            final(self).wf(),
            *final(self) == (ChunkArray {
                voxels_gen_tasks: final(self).voxels_gen_tasks,
                ..*old(self)
            }),
            final(self).voxels_gen_tasks@ == old(self).voxels_gen_tasks@.update(idx as int, true),
            final(self).in_flight_spec() == old(self).in_flight_spec() + 1,
    {
        proof {
            lemma_count_trues_update(self.voxels_gen_tasks@, idx as int, true);
        }
        self.voxels_gen_tasks.set(idx, true);
    }

    /// Books a mesh task for `(idx, lod)` if the chunk and all its present
    /// neighbors are generated (see `mesh_task_allowed`); reports whether
    /// it booked one. At most one task per key: the slot must be free.
    pub fn start_task_gen_vertices(&mut self, idx: usize, lod: u32) -> (started: bool)
        requires
            old(self).wf(),
            idx < volume_spec(old(self).sizes),
            lod < N_LODS,
            !old(self).mesh_task_spec(idx as int, lod as int),
        ensures
            final(self).wf(),
            final(self).chunks == old(self).chunks,
            final(self).sizes == old(self).sizes,
            final(self).voxels_gen_tasks == old(self).voxels_gen_tasks,
            final(self).saving == old(self).saving && final(self).reading == old(self).reading,
            final(self).max_tasks == old(self).max_tasks,
            final(self).lod_dist_threshold == old(self).lod_dist_threshold,
            started ==> final(self).mesh_task_spec(idx as int, lod as int)
                && final(self).in_flight_spec() == old(self).in_flight_spec() + 1,
            started && lod == 0 ==> final(self).full_tasks@ == old(self).full_tasks@.update(
                idx as int,
                true,
            ) && final(self).low_tasks == old(self).low_tasks,
            started && lod != 0 ==> final(self).low_tasks@ == old(self).low_tasks@.update(
                6 * idx as int + lod as int,
                true,
            ) && final(self).full_tasks == old(self).full_tasks,
            !started ==> *final(self) == *old(self),
            started == mesh_task_allowed(old(self).models(), old(self).sizes, idx as int),
            forall|i2: int, l2: int|
                0 <= i2 < volume_spec(old(self).sizes) && 0 <= l2 < 6 && (i2 != idx || l2 != lod)
                    ==> final(self).mesh_task_spec(i2, l2) == old(self).mesh_task_spec(i2, l2),
    {
        proof {
            lemma_grid_pos_bounded(self.sizes, idx as int);
        }
        if !self.chunks[idx].is_generated() {
            return false;
        }
        let adj = self.get_adj_chunks(idx);
        let mut all_gen: bool = true;
        let mut d: u8 = 0;
        while d < 6
            invariant
                self.wf(),
                idx < volume_spec(self.sizes),
                adj.wf(),
                forall|dd: int|
                    0 <= dd < 6 ==> (#[trigger] adj.side(dd) is Some <==> pos_to_idx_spec(
                        self.sizes,
                        crate::space::shifted(
                            idx_to_pos_spec(idx as int, self.sizes),
                            crate::space::adj_offsets()[dd],
                        ),
                    ) is Some),
                forall|dd: int|
                    0 <= dd < 6 ==> (#[trigger] adj.side(dd) matches Some(c) ==> pos_to_idx_spec(
                        self.sizes,
                        crate::space::shifted(
                            idx_to_pos_spec(idx as int, self.sizes),
                            crate::space::adj_offsets()[dd],
                        ),
                    ) matches Some(i) && c == &self.chunks@[i]),
                d <= 6,
                all_gen == forall|dd: int|
                    0 <= dd < d ==> (pos_to_idx_spec(
                        self.sizes,
                        #[trigger] crate::space::shifted(
                            idx_to_pos_spec(idx as int, self.sizes),
                            crate::space::adj_offsets()[dd],
                        ),
                    ) matches Some(j) ==> self.models()[j].generated),
            decreases 6 - d,
        {
            let before_gen: bool = all_gen;
            match adj.get_side(d) {
                Some(c) => {
                    if !c.is_generated() {
                        all_gen = false;
                    }
                },
                None => {
                },
            }
            proof {
                lemma_neighbor_step(self, idx as int, adj, d as int, before_gen, all_gen);
            }
            d += 1;
        }
        if !all_gen {
            return false;
        }
        proof {
            lemma_low_slot_bounds(self.sizes, idx as int, lod as int);
        }
        if lod == 0 {
            proof {
                lemma_count_trues_update(self.full_tasks@, idx as int, true);
            }
            self.full_tasks.set(idx, true);
            proof {
                lemma_mesh_slots_distinct(self.sizes, idx as int, lod as int);
            }
        } else {
            proof {
                lemma_count_trues_update(self.low_tasks@, 6 * idx as int + lod as int, true);
            }
            self.low_tasks.set(6 * idx + lod as usize, true);
            proof {
                lemma_mesh_slots_distinct(self.sizes, idx as int, lod as int);
            }
        }
        true
    }

    /// Clears the task slot of `(idx, lod)`.
    pub fn drop_task(&mut self, idx: usize, lod: u32)
        requires
            old(self).wf(),
            idx < volume_spec(old(self).sizes),
            lod < N_LODS,
        ensures
            final(self).wf(),
            final(self).chunks == old(self).chunks,
            final(self).sizes == old(self).sizes,
            final(self).voxels_gen_tasks == old(self).voxels_gen_tasks,
            final(self).saving == old(self).saving && final(self).reading == old(self).reading,
            final(self).max_tasks == old(self).max_tasks,
            final(self).lod_dist_threshold == old(self).lod_dist_threshold,
            !final(self).mesh_task_spec(idx as int, lod as int),
            final(self).in_flight_spec() <= old(self).in_flight_spec(),
            lod == 0 ==> final(self).full_tasks@ == old(self).full_tasks@.update(idx as int, false)
                && final(self).low_tasks == old(self).low_tasks,
            lod != 0 ==> final(self).low_tasks@ == old(self).low_tasks@.update(
                6 * idx as int + lod as int,
                false,
            ) && final(self).full_tasks == old(self).full_tasks,
            forall|i2: int, l2: int|
                0 <= i2 < volume_spec(old(self).sizes) && 0 <= l2 < 6 && (i2 != idx || l2 != lod)
                    ==> final(self).mesh_task_spec(i2, l2) == old(self).mesh_task_spec(i2, l2),
    {
        proof {
            lemma_low_slot_bounds(self.sizes, idx as int, lod as int);
        }
        if lod == 0 {
            proof {
                lemma_count_trues_update(self.full_tasks@, idx as int, false);
            }
            self.full_tasks.set(idx, false);
        } else {
            proof {
                lemma_count_trues_update(self.low_tasks@, 6 * idx as int + lod as int, false);
            }
            self.low_tasks.set(6 * idx + lod as usize, false);
        }
        proof {
            lemma_mesh_slots_distinct(self.sizes, idx as int, lod as int);
        }
    }

    /// Drops every queued mesh task of this chunk whose level is more
    /// than two steps away from the level the selector now wants.
    pub fn drop_all_useless_tasks(&mut self, useful_lod: u32, idx: usize)
        requires
            old(self).wf(),
            idx < volume_spec(old(self).sizes),
            useful_lod < N_LODS,
        ensures
            final(self).wf(),
            final(self).chunks == old(self).chunks,
            final(self).sizes == old(self).sizes,
            final(self).voxels_gen_tasks == old(self).voxels_gen_tasks,
            final(self).saving == old(self).saving && final(self).reading == old(self).reading,
            final(self).max_tasks == old(self).max_tasks,
            final(self).lod_dist_threshold == old(self).lod_dist_threshold,
            final(self).in_flight_spec() <= old(self).in_flight_spec(),
            forall|l2: int|
                0 <= l2 < 6 && crate::chunk::abs_diff(l2, useful_lod as int) > 2
                    ==> !final(self).mesh_task_spec(idx as int, l2),
            forall|i2: int, l2: int|
                0 <= i2 < volume_spec(old(self).sizes) && 0 <= l2 < 6 && (i2 != idx
                    || crate::chunk::abs_diff(l2, useful_lod as int) <= 2)
                    ==> final(self).mesh_task_spec(i2, l2) == old(self).mesh_task_spec(i2, l2),
            forall|k: int|
                0 <= k < old(self).full_tasks@.len() && k != idx ==> #[trigger] final(self).full_tasks@[k] == old(self).full_tasks@[k],
            forall|sl: int|
                0 <= sl < old(self).low_tasks@.len() && !(6 * idx <= sl < 6 * idx + 6)
                    ==> #[trigger] final(self).low_tasks@[sl] == old(self).low_tasks@[sl],
    {
        let mut lod: u32 = 0;
        while lod < 6
            invariant
                old(self).wf(),
                self.full_tasks@.len() == old(self).full_tasks@.len(),
                self.low_tasks@.len() == old(self).low_tasks@.len(),
                forall|k: int|
                    0 <= k < old(self).full_tasks@.len() && k != idx
                        ==> #[trigger] self.full_tasks@[k] == old(self).full_tasks@[k],
                forall|sl: int|
                    0 <= sl < old(self).low_tasks@.len() && !(6 * idx <= sl < 6 * idx + 6)
                        ==> #[trigger] self.low_tasks@[sl] == old(self).low_tasks@[sl],
                self.wf(),
                self.chunks == old(self).chunks,
                self.sizes == old(self).sizes,
                self.voxels_gen_tasks == old(self).voxels_gen_tasks,
                self.saving == old(self).saving && self.reading == old(self).reading,
                self.max_tasks == old(self).max_tasks,
                self.lod_dist_threshold == old(self).lod_dist_threshold,
                self.in_flight_spec() <= old(self).in_flight_spec(),
                idx < volume_spec(self.sizes),
                useful_lod < N_LODS,
                lod <= 6,
                forall|l2: int|
                    0 <= l2 < lod && crate::chunk::abs_diff(l2, useful_lod as int) > 2 ==> !self.mesh_task_spec(
                        idx as int,
                        l2,
                    ),
                forall|i2: int, l2: int|
                    0 <= i2 < volume_spec(old(self).sizes) && 0 <= l2 < 6 && (i2 != idx
                        || crate::chunk::abs_diff(l2, useful_lod as int) <= 2) ==> self.mesh_task_spec(
                        i2,
                        l2,
                    ) == old(self).mesh_task_spec(i2, l2),
            decreases 6 - lod,
        {
            let diff: u32 = if lod >= useful_lod {
                lod - useful_lod
            } else {
                useful_lod - lod
            };
            if diff > 2 {
                self.drop_task(idx, lod);
            }
            lod += 1;
        }
    }

    /// Tears every task book down at once.
    pub fn drop_tasks(&mut self)
        requires
            old(self).wf(),
        ensures
            final(self).wf(),
            final(self).chunks == old(self).chunks,
            final(self).sizes == old(self).sizes,
            final(self).saving == old(self).saving && final(self).reading == old(self).reading,
            final(self).max_tasks == old(self).max_tasks,
            final(self).lod_dist_threshold == old(self).lod_dist_threshold,
            final(self).in_flight_spec() == 0,
    {
        let vol: usize = Self::volume(self.sizes);
        self.voxels_gen_tasks = bool_slots(vol);
        self.full_tasks = bool_slots(vol);
        self.low_tasks = bool_slots(6 * vol);
        proof {
            lemma_count_all_false(self.voxels_gen_tasks@);
            lemma_count_all_false(self.full_tasks@);
            lemma_count_all_false(self.low_tasks@);
        }
    }

    /// Marks a whole-grid save as in flight, unless one already is: at
    /// most one save runs at a time, and a second request is declined
    /// until the first completes.
    pub fn begin_save(&mut self) -> (started: bool)
        requires
            old(self).wf(),
        ensures
            final(self).wf(),
            started == !old(self).saving,
            final(self).saving,
            *final(self) == (ChunkArray { saving: true, ..*old(self) }),
    {
        let started = !self.saving;
        self.saving = true;
        started
    }

    /// Clears the save-in-flight mark once the save future completed.
    pub fn end_save(&mut self)
        requires
            old(self).wf(),
        ensures
            final(self).wf(),
            !final(self).saving,
            *final(self) == (ChunkArray { saving: false, ..*old(self) }),
    {
        self.saving = false;
    }

    /// Marks a whole-grid load as in flight, unless one already is.
    pub fn begin_read(&mut self) -> (started: bool)
        requires
            old(self).wf(),
        ensures
            final(self).wf(),
            started == !old(self).reading,
            final(self).reading,
            *final(self) == (ChunkArray { reading: true, ..*old(self) }),
    {
        let started = !self.reading;
        self.reading = true;
        started
    }

    /// Clears the load-in-flight mark once the new grid was applied or
    /// the load failed.
    pub fn end_read(&mut self)
        requires
            old(self).wf(),
        ensures
            final(self).wf(),
            !final(self).reading,
            *final(self) == (ChunkArray { reading: false, ..*old(self) }),
    {
        self.reading = false;
    }

    pub fn any_task_running(&self) -> (r: bool)
        requires
            self.wf(),
        ensures
            r == (self.in_flight_spec() > 0),
    {
        proof {
            lemma_count_trues_bounds(self.voxels_gen_tasks@);
            lemma_count_trues_bounds(self.full_tasks@);
            lemma_count_trues_bounds(self.low_tasks@);
        }
        self.in_flight() > 0
    }
}

/// One step of the neighbor scan: the conjunction so far extends by side
/// `d`.
proof fn lemma_neighbor_step(
    arr: &ChunkArray,
    idx: int,
    adj: crate::meshing::ChunkAdj<'_>,
    d: int,
    before_gen: bool,
    after_gen: bool,
)
    requires
        arr.wf(),
        0 <= idx < volume_spec(arr.sizes),
        0 <= d < 6,
        forall|dd: int|
            0 <= dd < 6 ==> (#[trigger] adj.side(dd) is Some <==> pos_to_idx_spec(
                arr.sizes,
                crate::space::shifted(
                    idx_to_pos_spec(idx, arr.sizes),
                    crate::space::adj_offsets()[dd],
                ),
            ) is Some),
        forall|dd: int|
            0 <= dd < 6 ==> (#[trigger] adj.side(dd) matches Some(c) ==> pos_to_idx_spec(
                arr.sizes,
                crate::space::shifted(
                    idx_to_pos_spec(idx, arr.sizes),
                    crate::space::adj_offsets()[dd],
                ),
            ) matches Some(i) && c == &arr.chunks@[i]),
        before_gen == forall|dd: int|
            0 <= dd < d ==> (pos_to_idx_spec(
                arr.sizes,
                #[trigger] crate::space::shifted(
                    idx_to_pos_spec(idx, arr.sizes),
                    crate::space::adj_offsets()[dd],
                ),
            ) matches Some(j) ==> arr.models()[j].generated),
        after_gen == (before_gen && (adj.side(d) matches Some(c) ==> c.generated)),
    ensures
        after_gen == forall|dd: int|
            0 <= dd < d + 1 ==> (pos_to_idx_spec(
                arr.sizes,
                #[trigger] crate::space::shifted(
                    idx_to_pos_spec(idx, arr.sizes),
                    crate::space::adj_offsets()[dd],
                ),
            ) matches Some(j) ==> arr.models()[j].generated),
{
    let p = idx_to_pos_spec(idx, arr.sizes);
    let q = crate::space::shifted(p, crate::space::adj_offsets()[d]);
    if after_gen {
        assert forall|dd: int|
            0 <= dd < d + 1 implies (pos_to_idx_spec(
            arr.sizes,
            #[trigger] crate::space::shifted(p, crate::space::adj_offsets()[dd]),
        ) matches Some(j) ==> arr.models()[j].generated) by {
            if dd == d {
                if pos_to_idx_spec(arr.sizes, q) is Some {
                    lemma_pos_idx_bounds(arr.sizes, q);
                    let j = pos_to_idx_spec(arr.sizes, q)->Some_0;
                    assert(adj.side(d) is Some);
                    let c = adj.side(d)->0;
                    assert(c == &arr.chunks@[j]);
                    assert(arr.models()[j] == arr.chunks@[j].model());
                }
            }
        }
    } else {
        if before_gen {
            assert(adj.side(d) matches Some(c) && !c.generated);
            let c = adj.side(d)->0;
            assert(pos_to_idx_spec(arr.sizes, q) is Some);
            lemma_pos_idx_bounds(arr.sizes, q);
            let j = pos_to_idx_spec(arr.sizes, q)->Some_0;
            assert(c == &arr.chunks@[j]);
            assert(arr.models()[j] == arr.chunks@[j].model());
            assert(!arr.models()[j].generated);
        }
    }
}

/// The low-book slot of `(idx, lod)` is in range and distinct per key.
proof fn lemma_low_slot_bounds(sizes: USize3, idx: int, lod: int)
    requires
        sizes_ok(sizes),
        0 <= idx < volume_spec(sizes),
        0 <= lod < 6,
    ensures
        0 <= 6 * idx + lod < 6 * volume_spec(sizes),
{
    assert(6 * idx + lod < 6 * volume_spec(sizes)) by (nonlinear_arith)
        requires 0 <= idx < volume_spec(sizes) && 0 <= lod < 6;
}

/// Distinct `(idx, lod)` keys use distinct slots.
proof fn lemma_mesh_slots_distinct(sizes: USize3, idx: int, lod: int)
    requires
        sizes_ok(sizes),
        0 <= idx < volume_spec(sizes),
        0 <= lod < 6,
    ensures
        forall|i2: int, l2: int|
            0 <= i2 < volume_spec(sizes) && 0 <= l2 < 6 && (i2 != idx || l2 != lod) ==> #[trigger] (
            6 * i2 + l2) != 6 * idx + lod,
{
    assert forall|i2: int, l2: int|
        0 <= i2 < volume_spec(sizes) && 0 <= l2 < 6 && (i2 != idx || l2 != lod) implies #[trigger] (
        6 * i2 + l2) != 6 * idx + lod by {
        if 6 * i2 + l2 == 6 * idx + lod {
            assert(i2 == idx && l2 == lod) by (nonlinear_arith)
                requires 6 * i2 + l2 == 6 * idx + lod && 0 <= l2 < 6 && 0 <= lod < 6;
        }
    }
}

proof fn lemma_count_all_false(s: Seq<bool>)
    requires
        forall|i: int| 0 <= i < s.len() ==> !(#[trigger] s[i]),
    ensures
        count_trues(s) == 0,
    decreases s.len(),
{
    if s.len() > 0 {
        lemma_count_all_false(s.drop_last());
    }
}

/// What the driver decided this frame: tasks to run on the pool and
/// chunks to draw.
pub struct RenderPlan {
    pub tasks: Vec<TaskRequest>,
    pub draws: Vec<DrawCall>,
}

/// One draw: the chunk at `idx`, at its active level of detail.
#[derive(Clone, Copy, Debug, PartialEq, Eq, Structural)]
pub struct DrawCall {
    pub idx: usize,
    pub lod: u32,
}

impl ChunkArray {
    /// Applies a finished voxel-generation result to its chunk and clears
    /// the task; reports a missing task or a result not yet ready.
    pub fn try_finish_voxels_gen_task(&mut self, pos: Int3, result: Option<Vec<u16>>) -> (r:
        Result<(), TaskError>)
        requires
            old(self).wf(),
            result matches Some(ids) ==> ids@.len() == CHUNK_VOLUME && forall|i: int|
                0 <= i < ids@.len() ==> is_id_valid_spec(#[trigger] ids@[i]),
        ensures
            final(self).wf(),
            final(self).sizes == old(self).sizes,
            final(self).in_flight_spec() <= old(self).in_flight_spec(),
            final(self).full_tasks == old(self).full_tasks,
            final(self).low_tasks == old(self).low_tasks,
            final(self).saving == old(self).saving && final(self).reading == old(self).reading,
            final(self).max_tasks == old(self).max_tasks,
            final(self).lod_dist_threshold == old(self).lod_dist_threshold,
            match r {
                Ok(()) => ({
                    &&& pos_to_idx_spec(old(self).sizes, pos) matches Some(i)
                    &&& old(self).voxels_gen_tasks@[i]
                    &&& result matches Some(ids)
                    &&& final(self).chunks@[i].generated
                    &&& final(self).chunks@[i].ids() == ids@
                    &&& final(self).chunks@[i].active_lod is None
                    &&& forall|l: int|
                        0 <= l < N_LODS ==> (#[trigger] final(self).chunks@[i].meshes@[l]) is None
                    &&& final(self).chunks@ == old(self).chunks@.update(i, final(self).chunks@[i])
                    &&& final(self).voxels_gen_tasks@ == old(self).voxels_gen_tasks@.update(
                        i,
                        false,
                    )
                }),
                Err(TaskError::TaskNotFound { .. }) => *final(self) == *old(self) && (
                pos_to_idx_spec(old(self).sizes, pos) is None || !old(self).voxels_gen_tasks@[
                    pos_to_idx_spec(old(self).sizes, pos)->Some_0
                ]),
                Err(TaskError::TaskNotReady) => *final(self) == *old(self) && result is None,
            },
    {
        let idx = match Self::pos_to_idx(self.sizes, pos) {
            Some(i) => i,
            None => {
                return Err(TaskError::TaskNotFound { lod: 0, pos });
            },
        };
        if !self.voxels_gen_tasks[idx] {
            return Err(TaskError::TaskNotFound { lod: 0, pos });
        }
        match result {
            None => Err(TaskError::TaskNotReady),
            Some(ids) => {
                proof {
                    lemma_grid_pos_bounded(self.sizes, idx as int);
                    lemma_pos_idx_pos(self.sizes, pos);
                    lemma_count_trues_update(self.voxels_gen_tasks@, idx as int, false);
                }
                let cpos = Self::idx_to_pos(idx, self.sizes);
                let fresh = Chunk::from_voxels(ids, cpos);
                replace_chunk(&mut self.chunks, idx, fresh);
                self.voxels_gen_tasks.set(idx, false);
                Ok(())
            },
        }
    }

    /// Applies a finished full-detail mesh (its vertex count) to its
    /// chunk and clears the task. A result for a chunk that lost its
    /// generation meanwhile is discarded.
    pub fn try_finish_full_mesh_task(&mut self, pos: Int3, result: Option<usize>) -> (r: Result<
        (),
        TaskError,
    >)
        requires
            old(self).wf(),
        ensures
            final(self).wf(),
            final(self).sizes == old(self).sizes,
            final(self).in_flight_spec() <= old(self).in_flight_spec(),
            final(self).voxels_gen_tasks == old(self).voxels_gen_tasks,
            final(self).low_tasks == old(self).low_tasks,
            final(self).saving == old(self).saving && final(self).reading == old(self).reading,
            final(self).max_tasks == old(self).max_tasks,
            final(self).lod_dist_threshold == old(self).lod_dist_threshold,
            match r {
                Ok(()) => ({
                    &&& pos_to_idx_spec(old(self).sizes, pos) matches Some(i)
                    &&& old(self).full_tasks@[i]
                    &&& result matches Some(vc)
                    &&& final(self).full_tasks@ == old(self).full_tasks@.update(i, false)
                    &&& final(self).chunks@ == old(self).chunks@.update(i, final(self).chunks@[i])
                    &&& old(self).chunks@[i].generated ==> final(self).chunks@[i].model() == (
                    ChunkModel {
                        meshes: old(self).chunks@[i].model().meshes.update(
                            0,
                            Some(Mesh { vertex_count: vc }),
                        ),
                        ..old(self).chunks@[i].model()
                    })
                    &&& !old(self).chunks@[i].generated ==> final(self).chunks@ == old(self).chunks@
                }),
                Err(TaskError::TaskNotFound { .. }) => *final(self) == *old(self) && (
                pos_to_idx_spec(old(self).sizes, pos) is None || !old(self).full_tasks@[
                    pos_to_idx_spec(old(self).sizes, pos)->Some_0
                ]),
                Err(TaskError::TaskNotReady) => *final(self) == *old(self) && result is None,
            },
    {
        let idx = match Self::pos_to_idx(self.sizes, pos) {
            Some(i) => i,
            None => {
                return Err(TaskError::TaskNotFound { lod: 0, pos });
            },
        };
        if !self.full_tasks[idx] {
            return Err(TaskError::TaskNotFound { lod: 0, pos });
        }
        match result {
            None => Err(TaskError::TaskNotReady),
            Some(vertex_count) => {
                proof {
                    lemma_count_trues_update(self.full_tasks@, idx as int, false);
                }
                if self.chunks[idx].is_generated() {
                    let c = &mut self.chunks[idx];
                    c.upload_full_detail_vertices(vertex_count);
                    proof {
                        assert(self.chunks@ =~= old(self).chunks@.update(
                            idx as int,
                            self.chunks@[idx as int],
                        ));
                    }
                }
                self.full_tasks.set(idx, false);
                Ok(())
            },
        }
    }

    /// Applies a finished low-detail mesh to its chunk at `lod` and
    /// clears the task; results for ungenerated chunks are discarded.
    pub fn try_finish_low_mesh_task(&mut self, pos: Int3, lod: u32, result: Option<usize>) -> (r:
        Result<(), TaskError>)
        requires
            old(self).wf(),
            1 <= lod < N_LODS,
        ensures
            final(self).wf(),
            final(self).sizes == old(self).sizes,
            final(self).in_flight_spec() <= old(self).in_flight_spec(),
            final(self).voxels_gen_tasks == old(self).voxels_gen_tasks,
            final(self).full_tasks == old(self).full_tasks,
            final(self).saving == old(self).saving && final(self).reading == old(self).reading,
            final(self).max_tasks == old(self).max_tasks,
            final(self).lod_dist_threshold == old(self).lod_dist_threshold,
            match r {
                Ok(()) => ({
                    &&& pos_to_idx_spec(old(self).sizes, pos) matches Some(i)
                    &&& old(self).mesh_task_spec(i, lod as int)
                    &&& result matches Some(vc)
                    &&& !final(self).mesh_task_spec(i, lod as int)
                    &&& forall|i2: int, l2: int|
                        0 <= i2 < volume_spec(old(self).sizes) && 0 <= l2 < 6 && (i2 != i || l2
                            != lod) ==> final(self).mesh_task_spec(i2, l2) == old(self).mesh_task_spec(i2, l2)
                    &&& final(self).chunks@ == old(self).chunks@.update(i, final(self).chunks@[i])
                    &&& old(self).chunks@[i].generated ==> final(self).chunks@[i].model() == (
                    ChunkModel {
                        meshes: old(self).chunks@[i].model().meshes.update(
                            lod as int,
                            Some(Mesh { vertex_count: vc }),
                        ),
                        ..old(self).chunks@[i].model()
                    })
                    &&& !old(self).chunks@[i].generated ==> final(self).chunks@ == old(self).chunks@
                }),
                Err(TaskError::TaskNotFound { .. }) => *final(self) == *old(self) && (
                pos_to_idx_spec(old(self).sizes, pos) is None || !old(self).mesh_task_spec(
                    pos_to_idx_spec(old(self).sizes, pos)->Some_0,
                    lod as int,
                )),
                Err(TaskError::TaskNotReady) => *final(self) == *old(self) && result is None,
            },
    {
        let idx = match Self::pos_to_idx(self.sizes, pos) {
            Some(i) => i,
            None => {
                return Err(TaskError::TaskNotFound { lod, pos });
            },
        };
        proof {
            lemma_low_slot_bounds(self.sizes, idx as int, lod as int);
        }
        if !self.low_tasks[6 * idx + lod as usize] {
            return Err(TaskError::TaskNotFound { lod, pos });
        }
        match result {
            None => Err(TaskError::TaskNotReady),
            Some(vertex_count) => {
                proof {
                    lemma_count_trues_update(self.low_tasks@, 6 * idx as int + lod as int, false);
                    lemma_mesh_slots_distinct(self.sizes, idx as int, lod as int);
                }
                if self.chunks[idx].is_generated() {
                    let c = &mut self.chunks[idx];
                    c.upload_low_detail_vertices(vertex_count, lod);
                    proof {
                        assert(self.chunks@ =~= old(self).chunks@.update(
                            idx as int,
                            self.chunks@[idx as int],
                        ));
                    }
                }
                self.low_tasks.set(6 * idx + lod as usize, false);
                Ok(())
            },
        }
    }

    /// Applies a finished mesh result at any level of detail.
    pub fn try_finish_mesh_task(&mut self, pos: Int3, lod: u32, result: Option<usize>) -> (r:
        Result<(), TaskError>)
        requires
            old(self).wf(),
            lod < N_LODS,
        ensures
            final(self).wf(),
            final(self).sizes == old(self).sizes,
            final(self).in_flight_spec() <= old(self).in_flight_spec(),
            final(self).voxels_gen_tasks == old(self).voxels_gen_tasks,
            final(self).saving == old(self).saving && final(self).reading == old(self).reading,
            final(self).max_tasks == old(self).max_tasks,
            final(self).lod_dist_threshold == old(self).lod_dist_threshold,
            lod == 0 ==> final(self).low_tasks == old(self).low_tasks,
            lod != 0 ==> final(self).full_tasks == old(self).full_tasks,
            match r {
                Ok(()) => ({
                    &&& pos_to_idx_spec(old(self).sizes, pos) matches Some(i)
                    &&& old(self).mesh_task_spec(i, lod as int)
                    &&& result matches Some(vc)
                    &&& !final(self).mesh_task_spec(i, lod as int)
                    &&& final(self).chunks@ == old(self).chunks@.update(i, final(self).chunks@[i])
                    &&& old(self).chunks@[i].generated ==> final(self).chunks@[i].model() == (
                    ChunkModel {
                        meshes: old(self).chunks@[i].model().meshes.update(
                            lod as int,
                            Some(Mesh { vertex_count: vc }),
                        ),
                        ..old(self).chunks@[i].model()
                    })
                    &&& !old(self).chunks@[i].generated ==> final(self).chunks@ == old(self).chunks@
                }),
                Err(TaskError::TaskNotFound { .. }) => *final(self) == *old(self) && (
                pos_to_idx_spec(old(self).sizes, pos) is None || !old(self).mesh_task_spec(
                    pos_to_idx_spec(old(self).sizes, pos)->Some_0,
                    lod as int,
                )),
                Err(TaskError::TaskNotReady) => *final(self) == *old(self) && result is None,
            },
    {
        if lod == 0 {
            let r = self.try_finish_full_mesh_task(pos, result);
            proof {
                if r is Ok {
                    lemma_pos_idx_bounds(old(self).sizes, pos);
                }
            }
            r
        } else {
            let r = self.try_finish_low_mesh_task(pos, lod, result);
            proof {
                if r is Ok {
                    lemma_pos_idx_bounds(old(self).sizes, pos);
                }
            }
            r
        }
    }

    /// The per-frame driver: walks the chunks front to back, books
    /// generation and meshing work within the task budget, keeps the best
    /// cached level of detail active, and plans the draws. It touches
    /// nothing of a chunk but its active level; it never holds more than
    /// `max_tasks` tasks in flight; a generated chunk whose desired level
    /// is cached adopts it, one without it keeps its active level or, if
    /// it had none, falls back to the best cached fit; every visible
    /// chunk with an active level is drawn; bookings and draws run
    /// nearest-first; and with room in the budget for every chunk, every
    /// ungenerated chunk ends with a generation task booked.
    #[verifier::rlimit(100)]
    pub fn render(&mut self, cam: (i64, i64, i64), visible: &Vec<bool>) -> (r: RenderPlan)
        requires
            old(self).wf(),
            cam_ok(cam),
            visible@.len() == volume_spec(old(self).sizes),
            old(self).in_flight_spec() <= old(self).max_tasks,
        ensures
            final(self).wf(),
            final(self).sizes == old(self).sizes,
            final(self).saving == old(self).saving && final(self).reading == old(self).reading,
            final(self).max_tasks == old(self).max_tasks,
            final(self).lod_dist_threshold == old(self).lod_dist_threshold,
            final(self).in_flight_spec() <= old(self).max_tasks,
            forall|k: int|
                0 <= k < volume_spec(old(self).sizes) ==> #[trigger] final(self).models()[k] == (
                ChunkModel {
                    active_lod: final(self).models()[k].active_lod,
                    ..old(self).models()[k]
                }),
            forall|k: int|
                0 <= k < volume_spec(old(self).sizes) && visible@[k] ==> (#[trigger] final(self).chunks@[k].active_lod matches Some(al) ==> exists|j: int|
                    0 <= j < r.draws@.len() && (#[trigger] r.draws@[j]).idx == k
                        && r.draws@[j].lod == al),
            forall|k: int|
                0 <= k < volume_spec(old(self).sizes) && !old(self).chunks@[k].generated
                    ==> #[trigger] final(self).chunks@[k] == old(self).chunks@[k],
            forall|k: int, l: u32|
                0 <= k < volume_spec(old(self).sizes) && old(self).chunks@[k].generated
                    && #[trigger] lod_matches_dist(
                    l,
                    dist_sq_spec(old(self).sizes, k, cam),
                    old(self).lod_dist_threshold as int,
                ) && old(self).chunks@[k].meshes@[l as int] is Some ==> final(self).chunks@[k].active_lod == Some(l),
            forall|k: int, l: u32|
                0 <= k < volume_spec(old(self).sizes) && old(self).chunks@[k].generated
                    && #[trigger] lod_matches_dist(
                    l,
                    dist_sq_spec(old(self).sizes, k, cam),
                    old(self).lod_dist_threshold as int,
                ) && old(self).chunks@[k].meshes@[l as int] is None
                    ==> crate::chunk::best_fit_rel(
                    old(self).chunks@[k].meshes@,
                    l as int,
                    final(self).chunks@[k].active_lod,
                ),
            forall|j: int|
                0 <= j < r.draws@.len() ==> ({
                    let d = #[trigger] r.draws@[j];
                    &&& d.idx < volume_spec(final(self).sizes)
                    &&& visible@[d.idx as int]
                    &&& final(self).chunks@[d.idx as int].active_lod == Some(d.lod)
                }),
            forall|j: int|
                0 <= j < r.tasks@.len() ==> match #[trigger] r.tasks@[j] {
                    TaskRequest::GenVoxels { pos } => pos_to_idx_spec(old(self).sizes, pos)
                        matches Some(i) && 0 <= i < volume_spec(old(self).sizes) && final(self).voxels_gen_tasks@[i] && !old(self).voxels_gen_tasks@[i] && !old(self).chunks@[i].generated,
                    TaskRequest::FullMesh { pos } => pos_to_idx_spec(old(self).sizes, pos)
                        matches Some(i) && 0 <= i < volume_spec(old(self).sizes) && final(self).full_tasks@[i] && old(self).chunks@[i].generated,
                    TaskRequest::LowMesh { pos, lod } => pos_to_idx_spec(old(self).sizes, pos)
                        matches Some(i) && 0 <= i < volume_spec(old(self).sizes) && 1 <= lod
                        < N_LODS && final(self).mesh_task_spec(i, lod as int) && old(self).chunks@[i].generated,
                },
            forall|k: int|
                0 <= k < volume_spec(old(self).sizes) && final(self).voxels_gen_tasks@[k] && !old(self).voxels_gen_tasks@[k] ==> exists|j: int|
                    0 <= j < r.tasks@.len() && #[trigger] r.tasks@[j] == (TaskRequest::GenVoxels {
                        pos: idx_to_pos_spec(k, old(self).sizes),
                    }),
            (old(self).in_flight_spec() + volume_spec(old(self).sizes) <= old(self).max_tasks
                && !old(self).saving && !old(self).reading) ==> forall|k: int|
                0 <= k < volume_spec(old(self).sizes) && !old(self).chunks@[k].generated
                    ==> final(self).voxels_gen_tasks@[k],
            forall|a: int, b: int|
                0 <= a < b < r.draws@.len() ==> dist_sq_spec(
                    old(self).sizes,
                    (#[trigger] r.draws@[a]).idx as int,
                    cam,
                ) <= dist_sq_spec(old(self).sizes, (#[trigger] r.draws@[b]).idx as int, cam),
            forall|j: int|
                0 <= j < r.tasks@.len() ==> pos_to_idx_spec(
                    old(self).sizes,
                    plan_pos(#[trigger] r.tasks@[j]),
                ) is Some,
            forall|a: int, b: int|
                0 <= a < b < r.tasks@.len() ==> dist_sq_spec(
                    old(self).sizes,
                    pos_to_idx_spec(old(self).sizes, plan_pos(#[trigger] r.tasks@[a]))->Some_0,
                    cam,
                ) <= dist_sq_spec(
                    old(self).sizes,
                    pos_to_idx_spec(old(self).sizes, plan_pos(#[trigger] r.tasks@[b]))->Some_0,
                    cam,
                ),
    {
        let order = Self::get_targets_sorted(self.sizes, cam);
        let threshold = self.lod_dist_threshold;
        let mut tasks: Vec<TaskRequest> = Vec::new();
        let n: usize = order.len();
        let ghost vol = volume_spec(old(self).sizes);
        let mut t: usize = 0;
        while t < n
            invariant
                old(self).wf(),
                self.wf(),
                self.sizes == old(self).sizes,
                cam_ok(cam),
                visible@.len() == vol,
                vol == volume_spec(self.sizes),
                1 <= threshold <= 1_000_000,
                threshold == self.lod_dist_threshold,
                self.lod_dist_threshold == old(self).lod_dist_threshold,
                self.saving == old(self).saving && self.reading == old(self).reading,
                self.max_tasks == old(self).max_tasks,
                n == order@.len(),
                n == vol,
                t <= n,
                forall|q: int| 0 <= q < n ==> (#[trigger] order@[q]).1 < vol,
                forall|q: int|
                    0 <= q < n ==> (#[trigger] order@[q]).0 == dist_sq_spec(
                        self.sizes,
                        order@[q].1 as int,
                        cam,
                    ),
                forall|a: int, b: int| 0 <= a < b < n ==> (#[trigger] order@[a]).0 <= (
                #[trigger] order@[b]).0,
                forall|a: int, b: int| 0 <= a < b < n ==> (#[trigger] order@[a]).1 != (
                #[trigger] order@[b]).1,
                forall|k: int| 0 <= k < vol ==> #[trigger] target_occurs(order@, k),
                old(self).in_flight_spec() <= old(self).max_tasks,
                self.in_flight_spec() <= self.max_tasks,
                self.in_flight_spec() <= old(self).in_flight_spec() + t,
                forall|k: int|
                    0 <= k < vol && old(self).voxels_gen_tasks@[k]
                        ==> #[trigger] self.voxels_gen_tasks@[k],
                forall|k: int|
                    0 <= k < vol && !processed_in(order@, t as int, k)
                        ==> #[trigger] self.chunks@[k] == old(self).chunks@[k],
                forall|k: int|
                    0 <= k < vol ==> #[trigger] same_but_active(
                        self.chunks@[k],
                        old(self).chunks@[k],
                    ),
                forall|k: int|
                    0 <= k < vol && !old(self).chunks@[k].generated
                        ==> #[trigger] self.chunks@[k] == old(self).chunks@[k],
                forall|k: int, l: u32|
                    0 <= k < vol && processed_in(order@, t as int, k) && old(self).chunks@[k].generated && #[trigger] lod_matches_dist(
                        l,
                        dist_sq_spec(self.sizes, k, cam),
                        threshold as int,
                    ) && old(self).chunks@[k].meshes@[l as int] is Some
                        ==> self.chunks@[k].active_lod == Some(l),
                forall|k: int, l: u32|
                    0 <= k < vol && processed_in(order@, t as int, k) && old(self).chunks@[k].generated && #[trigger] lod_matches_dist(
                        l,
                        dist_sq_spec(self.sizes, k, cam),
                        threshold as int,
                    ) && old(self).chunks@[k].meshes@[l as int] is None
                        ==> crate::chunk::best_fit_rel(
                        old(self).chunks@[k].meshes@,
                        l as int,
                        self.chunks@[k].active_lod,
                    ),
                forall|j: int|
                    0 <= j < tasks@.len() ==> match #[trigger] tasks@[j] {
                        TaskRequest::GenVoxels { pos } => pos_to_idx_spec(self.sizes, pos)
                            matches Some(i) && 0 <= i < vol && self.voxels_gen_tasks@[i] && !old(self).voxels_gen_tasks@[i] && !old(self).chunks@[i].generated,
                        TaskRequest::FullMesh { pos } => pos_to_idx_spec(self.sizes, pos)
                            matches Some(i) && 0 <= i < vol && self.full_tasks@[i] && old(self).chunks@[i].generated && processed_in(order@, t as int, i),
                        TaskRequest::LowMesh { pos, lod } => pos_to_idx_spec(self.sizes, pos)
                            matches Some(i) && 0 <= i < vol && 1 <= lod < N_LODS
                            && self.mesh_task_spec(i, lod as int) && old(self).chunks@[i].generated && processed_in(order@, t as int, i),
                    },
                forall|k: int|
                    0 <= k < vol && #[trigger] self.voxels_gen_tasks@[k] && !old(self).voxels_gen_tasks@[k] ==> exists|j: int|
                        0 <= j < tasks@.len() && #[trigger] tasks@[j]
                            == (TaskRequest::GenVoxels { pos: idx_to_pos_spec(k, self.sizes) }),
                (old(self).in_flight_spec() + vol <= old(self).max_tasks && !old(self).saving
                    && !old(self).reading) ==> forall|k: int|
                    0 <= k < vol && processed_in(order@, t as int, k) && !old(self).chunks@[k].generated ==> #[trigger] self.voxels_gen_tasks@[k],
                forall|j: int|
                    0 <= j < tasks@.len() ==> pos_to_idx_spec(
                        self.sizes,
                        plan_pos(#[trigger] tasks@[j]),
                    ) is Some,
                forall|a: int, b: int|
                    0 <= a < b < tasks@.len() ==> dist_sq_spec(
                        self.sizes,
                        pos_to_idx_spec(self.sizes, plan_pos(#[trigger] tasks@[a]))->Some_0,
                        cam,
                    ) <= dist_sq_spec(
                        self.sizes,
                        pos_to_idx_spec(self.sizes, plan_pos(#[trigger] tasks@[b]))->Some_0,
                        cam,
                    ),
                forall|j: int, q: int|
                    0 <= j < tasks@.len() && t <= q < n ==> dist_sq_spec(
                        self.sizes,
                        pos_to_idx_spec(self.sizes, plan_pos(#[trigger] tasks@[j]))->Some_0,
                        cam,
                    ) <= (#[trigger] order@[q]).0,
            decreases n - t,
        {
            let (dist_sq, idx) = order[t];
            let ghost tasks_before = tasks@;
            let ghost chunks_before = self.chunks@;
            let ghost gen_before = self.voxels_gen_tasks@;
            let ghost full_before = self.full_tasks@;
            let ghost low_before = self.low_tasks@;
            proof {
                assert(!processed_in(order@, t as int, idx as int)) by {
                    if processed_in(order@, t as int, idx as int) {
                        let q = choose|q: int|
                            0 <= q < t && (#[trigger] order@[q]).1 == idx as int;
                        assert(order@[q].1 == order@[t as int].1);
                        assert(false);
                    }
                }
                assert(self.chunks@[idx as int] == old(self).chunks@[idx as int]);
                lemma_grid_pos_bounded(self.sizes, idx as int);
                lemma_idx_pos_idx(self.sizes, idx as int);
            }
            if !self.chunks[idx].is_generated() {
                proof {
                    assert(self.chunks@[idx as int].active_lod is None);
                }
                if !self.is_voxels_gen_task_running(idx) && self.can_start_tasks() {
                    self.start_task_gen_voxels(idx);
                    let pos = Self::idx_to_pos(idx, self.sizes);
                    tasks.push(TaskRequest::GenVoxels { pos });
                    proof {
                        assert(tasks@[tasks@.len() - 1] == (TaskRequest::GenVoxels {
                            pos: idx_to_pos_spec(idx as int, self.sizes),
                        }));
                    }
                }
            } else {
                self.step_generated(idx, dist_sq, &mut tasks);
            }
            proof {
                lemma_processed_extend(order@, t as int);
                assert forall|k: int|
                    0 <= k < vol && k != idx as int implies #[trigger] self.chunks@[k]
                    == chunks_before[k] by {}
                assert forall|k: int|
                    0 <= k < vol && k != idx as int implies #[trigger] self.voxels_gen_tasks@[k]
                    == gen_before[k] && self.full_tasks@[k] == full_before[k] by {}
                assert forall|j: int|
                    0 <= j < tasks@.len() && j < tasks_before.len() implies #[trigger] tasks@[j]
                    == tasks_before[j] by {}
                assert forall|k: int|
                    0 <= k < vol && #[trigger] self.voxels_gen_tasks@[k] && !old(self).voxels_gen_tasks@[k] implies exists|j: int|
                    0 <= j < tasks@.len() && #[trigger] tasks@[j] == (TaskRequest::GenVoxels {
                        pos: idx_to_pos_spec(k, self.sizes),
                    }) by {
                    if gen_before[k] {
                        let j = choose|j: int|
                            0 <= j < tasks_before.len() && #[trigger] tasks_before[j] == (
                            TaskRequest::GenVoxels { pos: idx_to_pos_spec(k, self.sizes) });
                        assert(tasks@[j] == tasks_before[j]);
                    } else {
                        assert(k == idx as int);
                        assert(tasks@[tasks@.len() - 1] == (TaskRequest::GenVoxels {
                            pos: idx_to_pos_spec(k, self.sizes),
                        }));
                    }
                }
            }
            t += 1;
        }
        let mut draws: Vec<DrawCall> = Vec::new();
        let mut t2: usize = 0;
        while t2 < n
            invariant
                self.wf(),
                cam_ok(cam),
                visible@.len() == vol,
                vol == volume_spec(self.sizes),
                n == order@.len(),
                n == vol,
                t2 <= n,
                forall|q: int| 0 <= q < n ==> (#[trigger] order@[q]).1 < vol,
                forall|q: int|
                    0 <= q < n ==> (#[trigger] order@[q]).0 == dist_sq_spec(
                        self.sizes,
                        order@[q].1 as int,
                        cam,
                    ),
                forall|a: int, b: int| 0 <= a < b < n ==> (#[trigger] order@[a]).0 <= (
                #[trigger] order@[b]).0,
                forall|a: int, b: int| 0 <= a < b < n ==> (#[trigger] order@[a]).1 != (
                #[trigger] order@[b]).1,
                forall|j: int|
                    0 <= j < draws@.len() ==> ({
                        let d = #[trigger] draws@[j];
                        &&& d.idx < vol
                        &&& visible@[d.idx as int]
                        &&& self.chunks@[d.idx as int].active_lod == Some(d.lod)
                    }),
                forall|k: int|
                    0 <= k < vol && processed_in(order@, t2 as int, k) && visible@[k] ==> (
                    #[trigger] self.chunks@[k].active_lod matches Some(al) ==> exists|j: int|
                        0 <= j < draws@.len() && (#[trigger] draws@[j]).idx == k && draws@[j].lod
                            == al),
                forall|a: int, b: int|
                    0 <= a < b < draws@.len() ==> dist_sq_spec(
                        self.sizes,
                        (#[trigger] draws@[a]).idx as int,
                        cam,
                    ) <= dist_sq_spec(self.sizes, (#[trigger] draws@[b]).idx as int, cam),
                forall|j: int, q: int|
                    0 <= j < draws@.len() && t2 <= q < n ==> dist_sq_spec(
                        self.sizes,
                        (#[trigger] draws@[j]).idx as int,
                        cam,
                    ) <= (#[trigger] order@[q]).0,
            decreases n - t2,
        {
            let (_, idx) = order[t2];
            let ghost draws_before = draws@;
            let active = active_lod_at(&self.chunks, idx);
            match active {
                Some(alod) => {
                    if visible[idx] {
                        draws.push(DrawCall { idx, lod: alod });
                    }
                },
                None => {
                },
            }
            proof {
                lemma_processed_extend(order@, t2 as int);
                assert forall|j: int|
                    0 <= j < draws@.len() && j < draws_before.len() implies #[trigger] draws@[j]
                    == draws_before[j] by {}
                assert forall|k: int|
                    0 <= k < vol && processed_in(order@, t2 as int + 1, k) && visible@[k]
                    implies (#[trigger] self.chunks@[k].active_lod matches Some(al) ==> exists|
                    j: int,
                |
                    0 <= j < draws@.len() && (#[trigger] draws@[j]).idx == k && draws@[j].lod
                        == al) by {
                    if self.chunks@[k].active_lod is Some {
                        let al = self.chunks@[k].active_lod->0;
                        if k == idx as int {
                            assert(draws@[draws@.len() - 1].idx == k);
                        } else {
                            if processed_in(order@, t2 as int, k) {
                                let j = choose|j: int|
                                    0 <= j < draws_before.len() && (
                                    #[trigger] draws_before[j]).idx == k && draws_before[j].lod
                                        == al;
                                assert(draws@[j].idx == k && draws@[j].lod == al);
                            }
                        }
                    }
                }
            }
            t2 += 1;
        }
        proof {
            assert forall|k: int|
                0 <= k < vol implies #[trigger] processed_in(order@, n as int, k) by {
                assert(target_occurs(order@, k));
                let q = choose|q: int| 0 <= q < order@.len() && (#[trigger] order@[q]).1 == k;
                assert(0 <= q < n && order@[q].1 == k);
            }
            assert forall|k: int|
                0 <= k < vol implies #[trigger] final(self).models()[k] == (ChunkModel {
                active_lod: final(self).models()[k].active_lod,
                ..old(self).models()[k]
            }) by {
                assert(same_but_active(self.chunks@[k], old(self).chunks@[k]));
                assert(final(self).models()[k] == self.chunks@[k].model());
                assert(old(self).models()[k] == old(self).chunks@[k].model());
                assert(final(self).models()[k] =~= (ChunkModel {
                    active_lod: final(self).models()[k].active_lod,
                    ..old(self).models()[k]
                }));
            }
        }
        RenderPlan { tasks, draws }
    }

    /// One driver step for a generated chunk: adopt the desired level if
    /// cached; otherwise book a mesh task within the budget, drop far-off
    /// queued levels, and re-fit the active level to the cached level
    /// nearest the desired one. Touches nothing of the chunk but its
    /// active level, and no other chunk or book slot.
    #[verifier::rlimit(100)]
    fn step_generated(&mut self, idx: usize, dist_sq: u64, tasks: &mut Vec<TaskRequest>)
        requires
            old(self).wf(),
            idx < volume_spec(old(self).sizes),
            old(self).chunks@[idx as int].generated,
            old(self).in_flight_spec() <= old(self).max_tasks,
        ensures
            final(self).wf(),
            final(self).sizes == old(self).sizes,
            final(self).saving == old(self).saving && final(self).reading == old(self).reading,
            final(self).max_tasks == old(self).max_tasks,
            final(self).lod_dist_threshold == old(self).lod_dist_threshold,
            final(self).voxels_gen_tasks == old(self).voxels_gen_tasks,
            final(self).in_flight_spec() <= final(self).max_tasks,
            final(self).in_flight_spec() <= old(self).in_flight_spec() + 1,
            final(self).chunks@ == old(self).chunks@.update(
                idx as int,
                final(self).chunks@[idx as int],
            ),
            final(self).chunks@[idx as int].model() == (ChunkModel {
                active_lod: final(self).chunks@[idx as int].active_lod,
                ..old(self).chunks@[idx as int].model()
            }),
            same_but_active(final(self).chunks@[idx as int], old(self).chunks@[idx as int]),
            forall|l: u32|
                #[trigger] lod_matches_dist(
                    l,
                    dist_sq as int,
                    old(self).lod_dist_threshold as int,
                ) && old(self).chunks@[idx as int].meshes@[l as int] is Some ==> final(self).chunks@[idx as int].active_lod == Some(l),
            forall|l: u32|
                #[trigger] lod_matches_dist(
                    l,
                    dist_sq as int,
                    old(self).lod_dist_threshold as int,
                ) && old(self).chunks@[idx as int].meshes@[l as int] is None
                    ==> crate::chunk::best_fit_rel(
                    old(self).chunks@[idx as int].meshes@,
                    l as int,
                    final(self).chunks@[idx as int].active_lod,
                ),
            forall|k: int|
                0 <= k < old(self).full_tasks@.len() && k != idx ==> #[trigger] final(self).full_tasks@[k] == old(self).full_tasks@[k],
            forall|sl: int|
                0 <= sl < old(self).low_tasks@.len() && !(6 * idx <= sl < 6 * idx + 6)
                    ==> #[trigger] final(self).low_tasks@[sl] == old(self).low_tasks@[sl],
            final(tasks)@.len() == old(tasks)@.len() || final(tasks)@.len() == old(tasks)@.len()
                + 1,
            forall|j: int|
                0 <= j < old(tasks)@.len() ==> #[trigger] final(tasks)@[j] == old(tasks)@[j],
            forall|j: int|
                old(tasks)@.len() <= j < final(tasks)@.len() ==> match #[trigger] final(tasks)@[j] {
                    TaskRequest::GenVoxels { pos } => false,
                    TaskRequest::FullMesh { pos } => pos == idx_to_pos_spec(
                        idx as int,
                        old(self).sizes,
                    ) && final(self).full_tasks@[idx as int],
                    TaskRequest::LowMesh { pos, lod } => pos == idx_to_pos_spec(
                        idx as int,
                        old(self).sizes,
                    ) && 1 <= lod < N_LODS && final(self).mesh_task_spec(idx as int, lod as int),
                },
    {
        let threshold = self.lod_dist_threshold;
        let ghost meshes_before = self.chunks@[idx as int].meshes@;
        let lod = desired_lod(dist_sq, threshold);
        let cached = self.chunks[idx].has_mesh(lod);
        if cached {
            set_active_lod_at(&mut self.chunks, idx, lod);
        } else if !self.is_mesh_task_running(idx, lod) && self.can_start_tasks() {
            let started = self.start_task_gen_vertices(idx, lod);
            if started {
                let pos = Self::idx_to_pos(idx, self.sizes);
                if lod == 0 {
                    tasks.push(TaskRequest::FullMesh { pos });
                } else {
                    tasks.push(TaskRequest::LowMesh { pos, lod });
                }
            }
        }
        self.drop_all_useless_tasks(lod, idx);
        if !cached {
            best_fit_at(&mut self.chunks, idx, lod);
        }
        proof {
            assert forall|l: u32|
                #[trigger] lod_matches_dist(l, dist_sq as int, threshold as int) implies l
                == lod by {
                lemma_lod_unique(l, lod, dist_sq as int, threshold as int);
            }
            assert(final(self).chunks@ =~= old(self).chunks@.update(
                idx as int,
                final(self).chunks@[idx as int],
            ));
            if meshes_before[lod as int] is Some {
                assert(self.chunks@[idx as int].active_lod == Some(lod));
            } else {
                assert(crate::chunk::best_fit_rel(
                    meshes_before,
                    lod as int,
                    self.chunks@[idx as int].active_lod,
                ));
            }
        }
    }

    /// All chunks paired with their squared camera distance, nearest
    /// first; every chunk occurs (see `target_occurs`).
    pub fn get_targets_sorted(sizes: USize3, cam: (i64, i64, i64)) -> (r: Vec<(u64, usize)>)
        requires
            sizes_ok(sizes),
            cam_ok(cam),
        ensures
            r@.len() == volume_spec(sizes),
            forall|q: int| 0 <= q < r@.len() ==> (#[trigger] r@[q]).1 < volume_spec(sizes),
            forall|q: int|
                0 <= q < r@.len() ==> (#[trigger] r@[q]).0 == dist_sq_spec(
                    sizes,
                    r@[q].1 as int,
                    cam,
                ),
            forall|a: int, b: int| 0 <= a < b < r@.len() ==> (#[trigger] r@[a]).0 <= (
            #[trigger] r@[b]).0,
            forall|k: int| 0 <= k < volume_spec(sizes) ==> #[trigger] target_occurs(r@, k),
            forall|a: int, b: int| 0 <= a < b < r@.len() ==> (#[trigger] r@[a]).1 != (
            #[trigger] r@[b]).1,
    {
        let vol: usize = Self::volume(sizes);
        let mut r: Vec<(u64, usize)> = Vec::new();
        let mut i: usize = 0;
        while i < vol
            invariant
                sizes_ok(sizes),
                cam_ok(cam),
                vol == volume_spec(sizes),
                i <= vol,
                r@.len() == i,
                forall|q: int| 0 <= q < r@.len() ==> (#[trigger] r@[q]).1 < volume_spec(sizes),
                forall|q: int|
                    0 <= q < r@.len() ==> (#[trigger] r@[q]).0 == dist_sq_spec(
                        sizes,
                        r@[q].1 as int,
                        cam,
                    ),
                forall|a: int, b: int| 0 <= a < b < r@.len() ==> (#[trigger] r@[a]).0 <= (
                #[trigger] r@[b]).0,
                forall|k: int| 0 <= k < i ==> #[trigger] target_occurs(r@, k),
                forall|q: int| 0 <= q < r@.len() ==> (#[trigger] r@[q]).1 < i,
                forall|a: int, b: int| 0 <= a < b < r@.len() ==> (#[trigger] r@[a]).1 != (
                #[trigger] r@[b]).1,
            decreases vol - i,
        {
            let d = Self::dist_sq_to(sizes, i, cam);
            let mut p: usize = 0;
            while p < r.len() && r[p].0 <= d
                invariant
                    p <= r@.len(),
                    forall|a: int, b: int| 0 <= a < b < r@.len() ==> (#[trigger] r@[a]).0 <= (
                    #[trigger] r@[b]).0,
                    forall|a: int| 0 <= a < p ==> (#[trigger] r@[a]).0 <= d,
                decreases r@.len() - p,
            {
                p += 1;
            }
            let ghost before = r@;
            r.insert(p, (d, i));
            proof {
                assert forall|a: int, b: int| 0 <= a < b < r@.len() implies (#[trigger] r@[a]).0
                    <= (#[trigger] r@[b]).0 by {
                    if b < p {
                    } else if a > p {
                        assert(r@[a] == before[a - 1] && r@[b] == before[b - 1]);
                    } else if a < p && b == p {
                        assert(r@[a] == before[a]);
                    } else if a == p && b > p {
                        assert(r@[b] == before[b - 1]);
                        assert(before[b - 1].0 >= d) by {
                            if b - 1 < p {
                                assert(false);
                            } else if p < before.len() {
                                assert(before[p as int].0 > d || !((p as int) < before.len()));
                                if b - 1 > p {
                                    assert(before[p as int].0 <= before[b - 1].0);
                                }
                            }
                        }
                    } else if a < p && b > p {
                        assert(r@[a] == before[a] && r@[b] == before[b - 1]);
                        if b - 1 == a {
                        } else {
                            assert(before[a].0 <= before[b - 1].0);
                        }
                    }
                }
                assert forall|a: int, b: int|
                    0 <= a < b < r@.len() implies (#[trigger] r@[a]).1 != (#[trigger] r@[b]).1 by {
                    let av: (u64, usize) = if a < p {
                        before[a]
                    } else if a == p {
                        (d, i)
                    } else {
                        before[a - 1]
                    };
                    let bv: (u64, usize) = if b < p {
                        before[b]
                    } else if b == p {
                        (d, i)
                    } else {
                        before[b - 1]
                    };
                    assert(r@[a] == av && r@[b] == bv);
                }
                assert forall|q: int|
                    0 <= q < r@.len() implies (#[trigger] r@[q]).1 < i + 1 by {
                    if q < p {
                        assert(r@[q] == before[q]);
                    } else if q > p {
                        assert(r@[q] == before[q - 1]);
                    }
                }
                assert forall|k: int| 0 <= k < i + 1 implies #[trigger] target_occurs(r@, k) by {
                    if k == i {
                        assert(r@[p as int].1 == k);
                    } else {
                        assert(target_occurs(before, k));
                        let q0 = choose|q: int|
                            0 <= q < before.len() && (#[trigger] before[q]).1 == k;
                        if q0 < p {
                            assert(r@[q0].1 == k);
                        } else {
                            assert(r@[q0 + 1].1 == k);
                        }
                    }
                }
            }
            i += 1;
        }
        r
    }
}

/// Whether some entry of the target list names the chunk at linear
/// index `k`.
pub open spec fn target_occurs(r: Seq<(u64, usize)>, k: int) -> bool {
    exists|q: int| 0 <= q < r.len() && (#[trigger] r[q]).1 == k
}

/// Whether the first `t` entries of the target list name cell `k`.
pub open spec fn processed_in(order: Seq<(u64, usize)>, t: int, k: int) -> bool {
    exists|q: int| 0 <= q < t && (#[trigger] order[q]).1 == k
}

/// Two chunk states that agree on everything but the active level.
pub open spec fn same_but_active(a: Chunk, b: Chunk) -> bool {
    a.pos == b.pos && a.fill_type == b.fill_type && a.voxel_ids == b.voxel_ids && a.meshes
        == b.meshes && a.generated == b.generated
}

/// The chunk position a task request concerns.
pub open spec fn plan_pos(req: TaskRequest) -> Int3 {
    match req {
        TaskRequest::GenVoxels { pos } => pos,
        TaskRequest::FullMesh { pos } => pos,
        TaskRequest::LowMesh { pos, lod } => pos,
    }
}

/// One more processed entry extends the processed set by exactly that
/// entry's cell.
pub proof fn lemma_processed_extend(order: Seq<(u64, usize)>, t: int)
    requires
        0 <= t < order.len(),
    ensures
        forall|k: int|
            #[trigger] processed_in(order, t + 1, k) == (processed_in(order, t, k) || k
                == order[t].1),
{
    assert forall|k: int|
        #[trigger] processed_in(order, t + 1, k) == (processed_in(order, t, k) || k
            == order[t].1) by {
        if processed_in(order, t + 1, k) {
            let q = choose|q: int| 0 <= q < t + 1 && (#[trigger] order[q]).1 == k;
            if q < t {
                assert(processed_in(order, t, k));
            }
        }
        if processed_in(order, t, k) {
            let q = choose|q: int| 0 <= q < t && (#[trigger] order[q]).1 == k;
            assert(0 <= q < t + 1 && order[q].1 == k);
        }
        if k == order[t].1 {
            assert(0 <= t < t + 1 && order[t].1 == k);
            assert(processed_in(order, t + 1, k));
        }
    }
}

/// A position read off a cell index maps back to that index.
pub proof fn lemma_idx_pos_idx(sizes: USize3, idx: int)
    requires
        sizes_ok(sizes),
        0 <= idx < volume_spec(sizes),
    ensures
        pos_to_idx_spec(sizes, idx_to_pos_spec(idx, sizes)) == Some(idx),
{
    lemma_idx_round_trip(sizes, idx);
    lemma_pos_round_trip(sizes, idx_to_coord_idx_spec(idx, sizes));
}

/// Only one level of detail matches a distance.
pub proof fn lemma_lod_unique(l1: u32, l2: u32, dist_sq: int, threshold: int)
    requires
        threshold >= 1,
        lod_matches_dist(l1, dist_sq, threshold),
        lod_matches_dist(l2, dist_sq, threshold),
    ensures
        l1 == l2,
{
    if l1 < l2 {
        assert(((l1 + 1) * (l1 + 1)) * (threshold * threshold) <= (l2 * l2) * (threshold
            * threshold)) by (nonlinear_arith)
            requires l1 + 1 <= l2 && threshold >= 1;
        assert(false);
    }
    if l2 < l1 {
        assert(((l2 + 1) * (l2 + 1)) * (threshold * threshold) <= (l1 * l1) * (threshold
            * threshold)) by (nonlinear_arith)
            requires l2 + 1 <= l1 && threshold >= 1;
        assert(false);
    }
}

/// Makes `lod` active on the chunk at `idx`; the mesh must be cached.
fn set_active_lod_at(chunks: &mut Vec<Chunk>, idx: usize, lod: u32)
    requires
        idx < old(chunks)@.len(),
        old(chunks)@[idx as int].wf(),
        lod < N_LODS,
        old(chunks)@[idx as int].meshes@[lod as int] is Some,
    ensures
        final(chunks)@ == old(chunks)@.update(idx as int, final(chunks)@[idx as int]),
        final(chunks)@[idx as int].wf(),
        final(chunks)@[idx as int] == (Chunk {
            active_lod: Some(lod),
            ..old(chunks)@[idx as int]
        }),
        same_but_active(final(chunks)@[idx as int], old(chunks)@[idx as int]),
        final(chunks)@[idx as int].model() == (ChunkModel {
            active_lod: Some(lod),
            ..old(chunks)@[idx as int].model()
        }),
{
    let c = &mut chunks[idx];
    c.set_active_lod(lod);
    proof {
        assert(final(chunks)@ =~= old(chunks)@.update(idx as int, final(chunks)@[idx as int]));
    }
}

/// Adopts the cached level nearest to `target` on the chunk at `idx`,
/// touching nothing of it but the active level.
fn best_fit_at(chunks: &mut Vec<Chunk>, idx: usize, target: u32)
    requires
        idx < old(chunks)@.len(),
        old(chunks)@[idx as int].wf(),
        target < N_LODS,
    ensures
        final(chunks)@ == old(chunks)@.update(idx as int, final(chunks)@[idx as int]),
        final(chunks)@[idx as int].wf(),
        final(chunks)@[idx as int] == (Chunk {
            active_lod: final(chunks)@[idx as int].active_lod,
            ..old(chunks)@[idx as int]
        }),
        same_but_active(final(chunks)@[idx as int], old(chunks)@[idx as int]),
        final(chunks)@[idx as int].model() == (ChunkModel {
            active_lod: final(chunks)@[idx as int].active_lod,
            ..old(chunks)@[idx as int].model()
        }),
        crate::chunk::best_fit_rel(
            old(chunks)@[idx as int].meshes@,
            target as int,
            final(chunks)@[idx as int].active_lod,
        ),
{
    let c = &mut chunks[idx];
    c.try_set_best_fit_lod(target);
    proof {
        assert(final(chunks)@ =~= old(chunks)@.update(idx as int, final(chunks)@[idx as int]));
        assert(final(chunks)@[idx as int].model() =~= (ChunkModel {
            active_lod: final(chunks)@[idx as int].active_lod,
            ..old(chunks)@[idx as int].model()
        }));
    }
}

fn active_lod_at(chunks: &Vec<Chunk>, idx: usize) -> (r: Option<u32>)
    requires
        idx < chunks@.len(),
    ensures
        r == chunks@[idx as int].active_lod,
{
    chunks[idx].active_lod
}

/// Replaces the chunk at `idx` wholesale.
fn replace_chunk(chunks: &mut Vec<Chunk>, idx: usize, fresh: Chunk)
    requires
        idx < old(chunks)@.len(),
    ensures
        final(chunks)@ == old(chunks)@.update(idx as int, fresh),
{
    let c = &mut chunks[idx];
    *c = fresh;
    proof {
        assert(final(chunks)@ =~= old(chunks)@.update(idx as int, final(chunks)@[idx as int]));
    }
}

/// The ids of one chunk after a box fill.
pub open spec fn fill_ids(m: ChunkModel, from: Int3, to: Int3, new_id: u16) -> Seq<u16> {
    Seq::new(
        CHUNK_VOLUME as nat,
        |l: int|
            if crate::chunk::lidx_in_box(m.pos, from, to, l) {
                new_id
            } else {
                m.ids[l]
            },
    )
}

/// Whether a box fill changes anything in one chunk.
pub open spec fn chunk_box_changed(m: ChunkModel, from: Int3, to: Int3, new_id: u16) -> bool {
    exists|l: int|
        0 <= l < CHUNK_VOLUME && #[trigger] crate::chunk::lidx_in_box(m.pos, from, to, l)
            && m.ids[l] != new_id
}

/// The chunk of the box's inclusive upper corner.
pub open spec fn to_corner_spec(to: Int3) -> Int3 {
    Int3 {
        x: ((to.x - 1) as int / 32) as i32,
        y: ((to.y - 1) as int / 32) as i32,
        z: ((to.z - 1) as int / 32) as i32,
    }
}

/// Whether both corner chunks of the box lie in the grid.
pub open spec fn corners_ok(sizes: USize3, from: Int3, to: Int3) -> bool {
    &&& pos_to_idx_spec(sizes, crate::chunk::chunk_pos_of_spec(from)) is Some
    &&& pos_to_idx_spec(sizes, to_corner_spec(to)) is Some
}

/// What a grid-level box fill does: every chunk takes the fill, chunks the
/// box actually changed and all their in-grid face neighbors drop their
/// cached meshes, and the result says whether anything changed. An empty
/// box is a no-op; an invalid id or an out-of-grid corner refuses the
/// edit.
pub open spec fn array_fill_model(
    ms: Seq<ChunkModel>,
    sizes: USize3,
    from: Int3,
    to: Int3,
    new_id: u16,
) -> (Seq<ChunkModel>, Result<bool, EditError>) {
    if !is_id_valid_spec(new_id) {
        (ms, Err(EditError::InvalidId(new_id)))
    } else if pos_to_idx_spec(sizes, crate::chunk::chunk_pos_of_spec(from)) is None {
        (ms, Err(EditError::PosIdConversion(from)))
    } else if pos_to_idx_spec(sizes, to_corner_spec(to)) is None {
        (ms, Err(EditError::PosIdConversion(to)))
    } else {
        (
            Seq::new(
                ms.len(),
                |q: int|
                    if exists|c: int|
                        0 <= c < ms.len() && #[trigger] chunk_box_changed(ms[c], from, to, new_id)
                            && is_adjacent_idx(sizes, c, q) {
                        cleared(fill_voxels_model(ms[q], from, to, new_id).0)
                    } else {
                        fill_voxels_model(ms[q], from, to, new_id).0
                    },
            ),
            Ok(
                exists|c: int|
                    0 <= c < ms.len() && #[trigger] chunk_box_changed(ms[c], from, to, new_id),
            ),
        )
    }
}

impl ChunkArray {
    /// Sets every voxel of the grid inside `[pos_from, pos_to)` to
    /// `new_id` and reports whether anything changed. Chunks the box
    /// actually changed drop their cached meshes, and so do all their
    /// in-grid face neighbors. The edit fails when the id is invalid or a
    /// corner chunk lies outside the grid; a box that is empty on some
    /// axis changes nothing.
    pub fn fill_voxels(&mut self, pos_from: Int3, pos_to: Int3, new_id: u16) -> (r: Result<
        bool,
        EditError,
    >)
        requires
            old(self).wf(),
        ensures
            final(self).wf(),
            final(self).sizes == old(self).sizes,
            final(self).voxels_gen_tasks == old(self).voxels_gen_tasks,
            final(self).full_tasks == old(self).full_tasks,
            final(self).low_tasks == old(self).low_tasks,
            final(self).saving == old(self).saving && final(self).reading == old(self).reading,
            final(self).max_tasks == old(self).max_tasks,
            final(self).lod_dist_threshold == old(self).lod_dist_threshold,
            final(self).models() == array_fill_model(
                old(self).models(),
                old(self).sizes,
                pos_from,
                pos_to,
                new_id,
            ).0,
            r == array_fill_model(old(self).models(), old(self).sizes, pos_from, pos_to, new_id).1,
            r is Err ==> *final(self) == *old(self),
    {
        let ghost ms = old(self).models();
        if !crate::voxel::is_id_valid(new_id) {
            proof {
                assert(final(self).models() =~= array_fill_model(
                    ms,
                    old(self).sizes,
                    pos_from,
                    pos_to,
                    new_id,
                ).0);
            }
            return Err(EditError::InvalidId(new_id));
        }
        let cp_from = chunk_pos_of(pos_from);
        let to_corner = Int3 {
            x: div32_i64(pos_to.x as i64 - 1),
            y: div32_i64(pos_to.y as i64 - 1),
            z: div32_i64(pos_to.z as i64 - 1),
        };
        if Self::pos_to_idx(self.sizes, cp_from).is_none() {
            proof {
                assert(final(self).models() =~= array_fill_model(
                    ms,
                    old(self).sizes,
                    pos_from,
                    pos_to,
                    new_id,
                ).0);
            }
            return Err(EditError::PosIdConversion(pos_from));
        }
        if Self::pos_to_idx(self.sizes, to_corner).is_none() {
            proof {
                assert(final(self).models() =~= array_fill_model(
                    ms,
                    old(self).sizes,
                    pos_from,
                    pos_to,
                    new_id,
                ).0);
            }
            return Err(EditError::PosIdConversion(pos_to));
        }
        let vol: usize = Self::volume(self.sizes);
        let mut flags: Vec<bool> = Vec::new();
        let mut changed_any: bool = false;
        let mut k: usize = 0;
        while k < vol
            invariant
                self.sizes == old(self).sizes,
                sizes_ok(self.sizes),
                is_id_valid_spec(new_id),
                vol == volume_spec(self.sizes),
                ms == old(self).models(),
                ms.len() == vol,
                k <= vol,
                self.chunks@.len() == vol,
                self.voxels_gen_tasks == old(self).voxels_gen_tasks,
                self.full_tasks == old(self).full_tasks,
                self.low_tasks == old(self).low_tasks,
                self.saving == old(self).saving && self.reading == old(self).reading,
                self.max_tasks == old(self).max_tasks,
                self.lod_dist_threshold == old(self).lod_dist_threshold,
                forall|q: int| 0 <= q < vol ==> (#[trigger] self.chunks@[q]).wf(),
                forall|q: int|
                    0 <= q < vol ==> (#[trigger] self.chunks@[q]).pos == idx_to_pos_spec(
                        q,
                        self.sizes,
                    ),
                flags@.len() == k,
                forall|q: int|
                    0 <= q < k ==> #[trigger] flags@[q] == chunk_box_changed(
                        ms[q],
                        pos_from,
                        pos_to,
                        new_id,
                    ),
                forall|q: int|
                    0 <= q < k ==> (#[trigger] self.chunks@[q].model()) == fill_voxels_model(
                        ms[q],
                        pos_from,
                        pos_to,
                        new_id,
                    ).0,
                forall|q: int| k <= q < vol ==> (#[trigger] self.chunks@[q].model()) == ms[q],
                changed_any == exists|q: int|
                    0 <= q < k && #[trigger] chunk_box_changed(ms[q], pos_from, pos_to, new_id),
            decreases vol - k,
        {
            let ch = fill_chunk_at(&mut self.chunks, k, pos_from, pos_to, new_id);
            flags.push(ch);
            if ch {
                changed_any = true;
                proof {
                    assert(chunk_box_changed(ms[k as int], pos_from, pos_to, new_id));
                }
            }
            proof {
                if exists|q: int|
                    0 <= q < k && #[trigger] chunk_box_changed(ms[q], pos_from, pos_to, new_id) {
                    let q = choose|q: int|
                        0 <= q < k && #[trigger] chunk_box_changed(ms[q], pos_from, pos_to, new_id);
                    assert(0 <= q < k + 1 && chunk_box_changed(ms[q], pos_from, pos_to, new_id));
                }
            }
            k += 1;
        }
        let ghost filled = self.models();
        let mut k2: usize = 0;
        while k2 < vol
            invariant
                self.sizes == old(self).sizes,
                sizes_ok(self.sizes),
                is_id_valid_spec(new_id),
                vol == volume_spec(self.sizes),
                ms == old(self).models(),
                ms.len() == vol,
                filled.len() == vol,
                forall|q: int|
                    0 <= q < vol ==> #[trigger] filled[q] == fill_voxels_model(
                        ms[q],
                        pos_from,
                        pos_to,
                        new_id,
                    ).0,
                k2 <= vol,
                self.chunks@.len() == vol,
                flags@.len() == vol,
                forall|q: int|
                    0 <= q < vol ==> #[trigger] flags@[q] == chunk_box_changed(
                        ms[q],
                        pos_from,
                        pos_to,
                        new_id,
                    ),
                self.voxels_gen_tasks == old(self).voxels_gen_tasks,
                self.full_tasks == old(self).full_tasks,
                self.low_tasks == old(self).low_tasks,
                self.saving == old(self).saving && self.reading == old(self).reading,
                self.max_tasks == old(self).max_tasks,
                self.lod_dist_threshold == old(self).lod_dist_threshold,
                forall|q: int| 0 <= q < vol ==> (#[trigger] self.chunks@[q]).wf(),
                forall|q: int|
                    0 <= q < vol ==> (#[trigger] self.chunks@[q]).pos == idx_to_pos_spec(
                        q,
                        self.sizes,
                    ),
                forall|q: int|
                    0 <= q < vol ==> #[trigger] self.chunks@[q].model() == (if exists|c: int|
                        0 <= c < k2 && #[trigger] chunk_box_changed(
                            ms[c],
                            pos_from,
                            pos_to,
                            new_id,
                        ) && is_adjacent_idx(self.sizes, c, q) {
                        cleared(filled[q])
                    } else {
                        filled[q]
                    }),
            decreases vol - k2,
        {
            if flags[k2] {
                let ghost prev = self.models();
                clear_neighbors_of(&mut self.chunks, self.sizes, k2);
                proof {
                    assert forall|q: int|
                        0 <= q < vol implies #[trigger] self.chunks@[q].model() == (if exists|
                        c: int,
                    |
                        0 <= c < k2 + 1 && #[trigger] chunk_box_changed(
                            ms[c],
                            pos_from,
                            pos_to,
                            new_id,
                        ) && is_adjacent_idx(self.sizes, c, q) {
                        cleared(filled[q])
                    } else {
                        filled[q]
                    }) by {
                        assert(prev[q] == self.chunks@.map_values(|c: Chunk| c.model())[q] || true);
                        if is_adjacent_idx(self.sizes, k2 as int, q) {
                            assert(self.chunks@[q].model() == cleared(prev[q]));
                            if exists|c: int|
                                0 <= c < k2 && #[trigger] chunk_box_changed(
                                    ms[c],
                                    pos_from,
                                    pos_to,
                                    new_id,
                                ) && is_adjacent_idx(self.sizes, c, q) {
                                assert(prev[q] == cleared(filled[q]));
                                assert(cleared(cleared(filled[q])) =~= cleared(filled[q]));
                            } else {
                                assert(prev[q] == filled[q]);
                            }
                            assert(chunk_box_changed(ms[k2 as int], pos_from, pos_to, new_id)
                                && is_adjacent_idx(self.sizes, k2 as int, q));
                        } else {
                            assert(self.chunks@[q].model() == prev[q]);
                            assert((exists|c: int|
                                0 <= c < k2 + 1 && #[trigger] chunk_box_changed(
                                    ms[c],
                                    pos_from,
                                    pos_to,
                                    new_id,
                                ) && is_adjacent_idx(self.sizes, c, q)) == (exists|c: int|
                                0 <= c < k2 && #[trigger] chunk_box_changed(
                                    ms[c],
                                    pos_from,
                                    pos_to,
                                    new_id,
                                ) && is_adjacent_idx(self.sizes, c, q))) by {
                                if exists|c: int|
                                    0 <= c < k2 + 1 && #[trigger] chunk_box_changed(
                                        ms[c],
                                        pos_from,
                                        pos_to,
                                        new_id,
                                    ) && is_adjacent_idx(self.sizes, c, q) {
                                    let c = choose|c: int|
                                        0 <= c < k2 + 1 && #[trigger] chunk_box_changed(
                                            ms[c],
                                            pos_from,
                                            pos_to,
                                            new_id,
                                        ) && is_adjacent_idx(self.sizes, c, q);
                                    assert(c != k2);
                                }
                            }
                        }
                    }
                }
            } else {
                proof {
                    assert forall|q: int|
                        0 <= q < vol implies #[trigger] self.chunks@[q].model() == (if exists|
                        c: int,
                    |
                        0 <= c < k2 + 1 && #[trigger] chunk_box_changed(
                            ms[c],
                            pos_from,
                            pos_to,
                            new_id,
                        ) && is_adjacent_idx(self.sizes, c, q) {
                        cleared(filled[q])
                    } else {
                        filled[q]
                    }) by {
                        if exists|c: int|
                            0 <= c < k2 + 1 && #[trigger] chunk_box_changed(
                                ms[c],
                                pos_from,
                                pos_to,
                                new_id,
                            ) && is_adjacent_idx(self.sizes, c, q) {
                            let c = choose|c: int|
                                0 <= c < k2 + 1 && #[trigger] chunk_box_changed(
                                    ms[c],
                                    pos_from,
                                    pos_to,
                                    new_id,
                                ) && is_adjacent_idx(self.sizes, c, q);
                            assert(c != k2);
                        }
                    }
                }
            }
            k2 += 1;
        }
        proof {
            assert(final(self).models() =~= array_fill_model(
                ms,
                old(self).sizes,
                pos_from,
                pos_to,
                new_id,
            ).0);
        }
        Ok(changed_any)
    }

    /// Drops every cached mesh of every chunk.
    pub fn drop_all_meshes(&mut self)
        requires
            old(self).wf(),
        ensures
            final(self).wf(),
            final(self).sizes == old(self).sizes,
            final(self).voxels_gen_tasks == old(self).voxels_gen_tasks,
            final(self).full_tasks == old(self).full_tasks,
            final(self).low_tasks == old(self).low_tasks,
            final(self).saving == old(self).saving && final(self).reading == old(self).reading,
            final(self).max_tasks == old(self).max_tasks,
            final(self).lod_dist_threshold == old(self).lod_dist_threshold,
            final(self).models().len() == old(self).models().len(),
            forall|k: int|
                0 <= k < final(self).models().len() ==> #[trigger] final(self).models()[k]
                    == cleared(old(self).models()[k]),
    {
        let vol: usize = Self::volume(self.sizes);
        let mut k: usize = 0;
        while k < vol
            invariant
                self.sizes == old(self).sizes,
                sizes_ok(self.sizes),
                vol == volume_spec(self.sizes),
                k <= vol,
                self.chunks@.len() == vol,
                self.voxels_gen_tasks == old(self).voxels_gen_tasks,
                self.full_tasks == old(self).full_tasks,
                self.low_tasks == old(self).low_tasks,
                self.saving == old(self).saving && self.reading == old(self).reading,
                self.max_tasks == old(self).max_tasks,
                self.lod_dist_threshold == old(self).lod_dist_threshold,
                self.voxels_gen_tasks@.len() == vol,
                self.full_tasks@.len() == vol,
                self.low_tasks@.len() == 6 * vol,
                1 <= self.lod_dist_threshold <= 1_000_000,
                self.max_tasks <= 1_000_000,
                forall|q: int| 0 <= q < vol ==> (#[trigger] self.chunks@[q]).wf(),
                forall|q: int|
                    0 <= q < vol ==> (#[trigger] self.chunks@[q]).pos == idx_to_pos_spec(
                        q,
                        self.sizes,
                    ),
                forall|q: int|
                    0 <= q < k ==> #[trigger] self.chunks@[q].model() == cleared(
                        old(self).models()[q],
                    ),
                forall|q: int|
                    k <= q < vol ==> #[trigger] self.chunks@[q].model() == old(self).models()[q],
            decreases vol - k,
        {
            drop_meshes_at(&mut self.chunks, k);
            k += 1;
        }
    }

    /// Serializes one chunk to its blob.
    pub fn chunk_as_bytes(chunk: &Chunk) -> (r: Vec<u8>)
        requires
            chunk.wf(),
        ensures
            r@ == crate::codec::chunk_blob(chunk.fill_type, chunk.ids()),
            crate::codec::blob_fits(chunk.fill_type, chunk.ids()),
    {
        crate::codec::encode_chunk(chunk)
    }

    /// Reads one chunk blob back as its id buffer and fill type.
    pub fn array_filltype_from_bytes(bytes: &Vec<u8>) -> (r: Result<
        (Vec<u16>, FillType),
        crate::voxel::ReinterpretError,
    >)
        ensures
            match r {
                Ok(p) => crate::codec::blob_ok(p.1, p.0@) && (p.1 is Default ==> p.0@.len()
                    == CHUNK_VOLUME) && (p.1 is AllSame ==> p.0@.len() == 0),
                Err(_) => true,
            },
            forall|ft: FillType, ids0: Seq<u16>|
                crate::codec::blob_ok(ft, ids0) && crate::codec::blob_fits(ft, ids0) && bytes@
                    == #[trigger] crate::codec::chunk_blob(ft, ids0)
                    ==> crate::codec::decode_good(r, ft, ids0),
    {
        crate::codec::decode_chunk(bytes)
    }

    /// Replaces the whole grid with freshly decoded contents, discarding
    /// every task.
    pub fn apply_new(&mut self, sizes: USize3, chunk_arr: Vec<(Vec<u16>, FillType)>)
        requires
            old(self).wf(),
            sizes_ok(sizes),
            chunk_arr@.len() == volume_spec(sizes),
            forall|k: int|
                0 <= k < chunk_arr@.len() ==> match (#[trigger] chunk_arr@[k]).1 {
                    FillType::AllSame(id) => is_id_valid_spec(id),
                    FillType::Default => chunk_arr@[k].0@.len() == CHUNK_VOLUME && forall|l: int|
                        0 <= l < chunk_arr@[k].0@.len() ==> is_id_valid_spec(
                            #[trigger] chunk_arr@[k].0@[l],
                        ),
                },
        ensures
            final(self).wf(),
            final(self).sizes == sizes,
            final(self).in_flight_spec() == 0,
            forall|k: int|
                0 <= k < final(self).chunks@.len() ==> (#[trigger] final(self).chunks@[k]).generated,
            forall|k: int|
                0 <= k < final(self).chunks@.len() ==> (#[trigger] final(self).chunks@[k]).ids()
                    == match chunk_arr@[k].1 {
                    FillType::AllSame(id) => Seq::new(CHUNK_VOLUME as nat, |l: int| id),
                    FillType::Default => chunk_arr@[k].0@,
                },
    {
        let vol: usize = Self::volume(sizes);
        let mut contents = chunk_arr;
        let mut chunks: Vec<Chunk> = Vec::new();
        let mut k: usize = 0;
        while k < vol
            invariant
                sizes_ok(sizes),
                vol == volume_spec(sizes),
                k <= vol,
                contents@ == chunk_arr@.skip(k as int),
                chunk_arr@.len() == vol,
                forall|q: int|
                    0 <= q < chunk_arr@.len() ==> match (#[trigger] chunk_arr@[q]).1 {
                        FillType::AllSame(id) => is_id_valid_spec(id),
                        FillType::Default => chunk_arr@[q].0@.len() == CHUNK_VOLUME && forall|
                            l: int,
                        |
                            0 <= l < chunk_arr@[q].0@.len() ==> is_id_valid_spec(
                                #[trigger] chunk_arr@[q].0@[l],
                            ),
                    },
                chunks@.len() == k,
                forall|q: int| 0 <= q < k ==> (#[trigger] chunks@[q]).wf(),
                forall|q: int|
                    0 <= q < k ==> (#[trigger] chunks@[q]).pos == idx_to_pos_spec(q, sizes),
                forall|q: int| 0 <= q < k ==> (#[trigger] chunks@[q]).generated,
                forall|q: int|
                    0 <= q < k ==> (#[trigger] chunks@[q]).ids() == match chunk_arr@[q].1 {
                        FillType::AllSame(id) => Seq::new(CHUNK_VOLUME as nat, |l: int| id),
                        FillType::Default => chunk_arr@[q].0@,
                    },
            decreases vol - k,
        {
            proof {
                lemma_grid_pos_bounded(sizes, k as int);
                assert(chunk_arr@.skip(k as int)[0] == chunk_arr@[k as int]);
                assert(chunk_arr@.skip(k as int).skip(1) =~= chunk_arr@.skip(k as int + 1));
            }
            let pos = Self::idx_to_pos(k, sizes);
            let (ids, ft) = contents.remove(0);
            proof {
                assert(contents@ =~= chunk_arr@.skip(k as int + 1));
            }
            let fresh = match ft {
                FillType::Default => Chunk::from_voxels(ids, pos),
                FillType::AllSame(id) => Chunk::new_same_filled(pos, id),
            };
            chunks.push(fresh);
            k += 1;
        }
        self.chunks = chunks;
        self.sizes = sizes;
        self.voxels_gen_tasks = bool_slots(vol);
        self.full_tasks = bool_slots(vol);
        self.low_tasks = bool_slots(6 * vol);
        self.saving = false;
        self.reading = false;
        proof {
            lemma_count_all_false(self.voxels_gen_tasks@);
            lemma_count_all_false(self.full_tasks@);
            lemma_count_all_false(self.low_tasks@);
        }
    }

    /// The first sample position, in order, that holds a solid voxel of
    /// the grid.
    pub fn first_solid(&self, samples: &Vec<Int3>) -> (r: Option<Voxel>)
        requires
            self.wf(),
        ensures
            match r {
                Some(v) => exists|j: int|
                    0 <= j < samples@.len() && #[trigger] sample_solid(self, samples@[j]) && v.pos
                        == samples@[j],
                None => forall|j: int|
                    0 <= j < samples@.len() ==> !#[trigger] sample_solid(self, samples@[j]),
            },
    {
        let n: usize = samples.len();
        let mut j: usize = 0;
        while j < n
            invariant
                self.wf(),
                n == samples@.len(),
                j <= n,
                forall|q: int| 0 <= q < j ==> !#[trigger] sample_solid(self, samples@[q]),
            decreases n - j,
        {
            match self.get_voxel(samples[j]) {
                Some(v) => {
                    if v.id != crate::voxel::AIR_ID {
                        proof {
                            assert(sample_solid(self, samples@[j as int]));
                        }
                        return Some(v);
                    }
                },
                None => {
                },
            }
            j += 1;
        }
        None
    }
}

/// Whether the grid holds a solid (non-air) voxel at `p`.
pub open spec fn sample_solid(arr: &ChunkArray, p: Int3) -> bool {
    let cp = crate::chunk::chunk_pos_of_spec(p);
    match pos_to_idx_spec(arr.sizes, cp) {
        Some(i) => arr.models()[i].ids[local_lidx(cp, p)] != crate::voxel::AIR_ID,
        None => false,
    }
}

/// Applies a box fill to the chunk at `k` of the grid's chunk vector and
/// reports whether it changed.
fn fill_chunk_at(chunks: &mut Vec<Chunk>, k: usize, from: Int3, to: Int3, new_id: u16) -> (r:
    bool)
    requires
        k < old(chunks)@.len(),
        old(chunks)@[k as int].wf(),
        is_id_valid_spec(new_id),
    ensures
        final(chunks)@.len() == old(chunks)@.len(),
        final(chunks)@ == old(chunks)@.update(k as int, final(chunks)@[k as int]),
        final(chunks)@[k as int].wf(),
        final(chunks)@[k as int].model() == fill_voxels_model(
            old(chunks)@[k as int].model(),
            from,
            to,
            new_id,
        ).0,
        final(chunks)@[k as int].pos == old(chunks)@[k as int].pos,
        r == chunk_box_changed(old(chunks)@[k as int].model(), from, to, new_id),
{
    let c = &mut chunks[k];
    let res = c.fill_voxels(from, to, new_id);
    proof {
        assert(final(chunks)@ =~= old(chunks)@.update(k as int, final(chunks)@[k as int]));
    }
    match res {
        Ok(changed) => changed,
        Err(_) => false,
    }
}

/// Floor division by the chunk side over a widened coordinate.
fn div32_i64(x: i64) -> (r: i32)
    requires
        -0x1_0000_0000 <= x <= 0x1_0000_0000,
    ensures
        r == x as int / 32,
{
    if x >= 0 {
        (x / 32) as i32
    } else {
        let n: i64 = -x;
        let q: i64 = n / 32;
        let rem: i64 = n % 32;
        proof {
            crate::math::lemma_neg_floor_div(x as int, 32);
        }
        if rem == 0 {
            (-q) as i32
        } else {
            (-q - 1) as i32
        }
    }
}

/// What one command does to the grid's chunk models, and which voxel
/// positions it adds to the change tracker: only a state-changing
/// `SetVoxel` is tracked.
pub open spec fn apply_command_model(ms: Seq<ChunkModel>, sizes: USize3, cmd: Command) -> (
    Seq<ChunkModel>,
    Seq<Int3>,
) {
    match cmd {
        Command::SetVoxel { pos, new_id } => {
            let (ms2, r) = array_set_voxel_model(ms, sizes, pos, new_id);
            (
                ms2,
                if r matches Ok(o) && o != new_id {
                    seq![pos]
                } else {
                    Seq::empty()
                },
            )
        },
        Command::FillVoxels { pos_from, pos_to, new_id } => (
            array_fill_model(ms, sizes, pos_from, pos_to, new_id).0,
            Seq::empty(),
        ),
        Command::DropAllMeshes => (Seq::new(ms.len(), |k: int| cleared(ms[k])), Seq::empty()),
    }
}

/// The left fold of a command list over the grid's chunk models, with the
/// tracked voxel positions in command order.
pub open spec fn apply_commands_model(ms: Seq<ChunkModel>, sizes: USize3, cmds: Seq<Command>) -> (
    Seq<ChunkModel>,
    Seq<Int3>,
)
    decreases cmds.len(),
{
    if cmds.len() == 0 {
        (ms, Seq::<Int3>::empty())
    } else {
        let (ms1, tr1) = apply_command_model(ms, sizes, cmds[0]);
        let (ms2, tr2) = apply_commands_model(ms1, sizes, cmds.skip(1));
        (ms2, tr1 + tr2)
    }
}

/// Whether the voxel edit at `p` obliges the grid cell `idx` to rebuild
/// its mesh: `idx` owns `p`, or `p` sits on a border that `idx` touches.
pub open spec fn reload_hits(sizes: USize3, p: Int3, idx: int) -> bool {
    let cp = crate::chunk::chunk_pos_of_spec(p);
    let local = Int3 {
        x: (p.x - 32 * cp.x) as i32,
        y: (p.y - 32 * cp.y) as i32,
        z: (p.z - 32 * cp.z) as i32,
    };
    let offs = crate::space::border_offsets_spec(
        local,
        Int3 { x: 0i32, y: 0i32, z: 0i32 },
        Int3 { x: 32i32, y: 32i32, z: 32i32 },
    );
    pos_to_idx_spec(sizes, cp) is Some && (pos_to_idx_spec(sizes, cp) == Some(idx) || exists|
        d: int,
    |
        0 <= d < offs.len() && pos_to_idx_spec(sizes, crate::space::shifted(cp, #[trigger] offs[d]))
            == Some(idx))
}

/// Whether any of the tracked voxel edits obliges cell `idx`.
pub open spec fn any_tracked_hits(sizes: USize3, poses: Seq<Int3>, idx: int) -> bool {
    exists|t: int| 0 <= t < poses.len() && reload_hits(sizes, #[trigger] poses[t], idx)
}

/// Whether `idx` occurs in the reload list.
pub open spec fn idx_listed(r: Seq<usize>, idx: int) -> bool {
    exists|q: int| 0 <= q < r.len() && (#[trigger] r[q]) == idx
}

/// Batches the voxel positions edited within one tick and says which
/// chunks must rebuild their meshes: each owner, and each face neighbor a
/// border voxel touches.
pub struct ChangeTracker {
    pub sizes: USize3,
    pub voxel_poses: Vec<Int3>,
}

impl ChangeTracker {
    pub fn new(sizes: USize3) -> (r: ChangeTracker)
        ensures
            r.sizes == sizes,
            r.voxel_poses@ == Seq::<Int3>::empty(),
    {
        ChangeTracker { sizes, voxel_poses: Vec::new() }
    }

    pub fn track_voxel(&mut self, voxel_pos: Int3)
        ensures
            final(self).sizes == old(self).sizes,
            final(self).voxel_poses@ == old(self).voxel_poses@.push(voxel_pos),
    {
        self.voxel_poses.push(voxel_pos);
    }

    /// The grid cells whose meshes the batched edits invalidate, in
    /// ascending order without repetition: exactly those some tracked
    /// voxel obliges.
    pub fn idxs_to_reload(&self) -> (r: Vec<usize>)
        requires
            sizes_ok(self.sizes),
        ensures
            forall|a: int, b: int| 0 <= a < b < r@.len() ==> (#[trigger] r@[a]) < (
            #[trigger] r@[b]),
            forall|q: int| 0 <= q < r@.len() ==> (#[trigger] r@[q]) < volume_spec(self.sizes),
            forall|idx: int|
                0 <= idx < volume_spec(self.sizes) ==> (#[trigger] any_tracked_hits(
                    self.sizes,
                    self.voxel_poses@,
                    idx,
                ) <==> idx_listed(r@, idx)),
    {
        let vol: usize = ChunkArray::volume(self.sizes);
        let mut r: Vec<usize> = Vec::new();
        let mut idx: usize = 0;
        while idx < vol
            invariant
                sizes_ok(self.sizes),
                vol == volume_spec(self.sizes),
                idx <= vol,
                forall|a: int, b: int| 0 <= a < b < r@.len() ==> (#[trigger] r@[a]) < (
                #[trigger] r@[b]),
                forall|q: int| 0 <= q < r@.len() ==> (#[trigger] r@[q]) < idx,
                forall|i2: int|
                    0 <= i2 < idx ==> (#[trigger] any_tracked_hits(
                        self.sizes,
                        self.voxel_poses@,
                        i2,
                    ) <==> idx_listed(r@, i2)),
            decreases vol - idx,
        {
            let hit = self.any_hit(idx);
            let ghost before = r@;
            if hit {
                r.push(idx);
            }
            proof {
                assert forall|i2: int|
                    0 <= i2 < idx + 1 implies (#[trigger] any_tracked_hits(
                        self.sizes,
                        self.voxel_poses@,
                        i2,
                    ) <==> idx_listed(r@, i2)) by {
                    if i2 < idx {
                        if idx_listed(before, i2) {
                            let q0 = choose|q: int|
                                0 <= q < before.len() && (#[trigger] before[q]) == i2;
                            assert(r@[q0] == i2);
                            assert(idx_listed(r@, i2));
                        }
                        if idx_listed(r@, i2) {
                            let q0 = choose|q: int| 0 <= q < r@.len() && (#[trigger] r@[q]) == i2;
                            assert(q0 < before.len() && before[q0] == i2);
                            assert(idx_listed(before, i2));
                        }
                    } else {
                        if hit {
                            assert(r@[r@.len() - 1] == i2);
                            assert(idx_listed(r@, i2));
                        } else {
                            if idx_listed(r@, i2) {
                                let q0 = choose|q: int|
                                    0 <= q < r@.len() && (#[trigger] r@[q]) == i2;
                                assert(before[q0] == i2 && before[q0] < idx);
                                assert(false);
                            }
                        }
                    }
                }
            }
            idx += 1;
        }
        r
    }

    /// Whether any tracked voxel obliges cell `idx` to rebuild.
    fn any_hit(&self, idx: usize) -> (r: bool)
        requires
            sizes_ok(self.sizes),
        ensures
            r == any_tracked_hits(self.sizes, self.voxel_poses@, idx as int),
    {
        let n: usize = self.voxel_poses.len();
        let mut t: usize = 0;
        while t < n
            invariant
                sizes_ok(self.sizes),
                n == self.voxel_poses@.len(),
                t <= n,
                forall|q: int|
                    0 <= q < t ==> !reload_hits(
                        self.sizes,
                        #[trigger] self.voxel_poses@[q],
                        idx as int,
                    ),
            decreases n - t,
        {
            let p = self.voxel_poses[t];
            if hits_exec(self.sizes, p, idx) {
                proof {
                    assert(any_tracked_hits(self.sizes, self.voxel_poses@, idx as int)) by {
                        assert(reload_hits(self.sizes, self.voxel_poses@[t as int], idx as int));
                    }
                }
                return true;
            }
            t += 1;
        }
        false
    }
}

/// Whether the edit at `p` obliges cell `idx` to rebuild.
fn hits_exec(sizes: USize3, p: Int3, idx: usize) -> (r: bool)
    requires
        sizes_ok(sizes),
    ensures
        r == reload_hits(sizes, p, idx as int),
{
    let cp = chunk_pos_of(p);
    proof {
        lemma_chunk_pos_small(p);
        lemma_in_own_chunk(p);
    }
    let owner = ChunkArray::pos_to_idx(sizes, cp);
    if owner.is_none() {
        return false;
    }
    if owner == Some(idx) {
        return true;
    }
    let local = Int3 { x: p.x - 32 * cp.x, y: p.y - 32 * cp.y, z: p.z - 32 * cp.z };
    let offs = crate::space::offsets_from_border(
        local,
        Int3 { x: 0, y: 0, z: 0 },
        Int3 { x: 32, y: 32, z: 32 },
    );
    let m: usize = offs.len();
    let mut d: usize = 0;
    while d < m
        invariant
            sizes_ok(sizes),
            cp == crate::chunk::chunk_pos_of_spec(p),
            -0x8000000 <= cp.x <= 0x8000000 && -0x8000000 <= cp.y <= 0x8000000 && -0x8000000
                <= cp.z <= 0x8000000,
            offs@ == crate::space::border_offsets_spec(
                Int3 { x: (p.x - 32 * cp.x) as i32, y: (p.y - 32 * cp.y) as i32, z: (p.z - 32 * cp.z) as i32 },
                Int3 { x: 0i32, y: 0i32, z: 0i32 },
                Int3 { x: 32i32, y: 32i32, z: 32i32 },
            ),
            m == offs@.len(),
            d <= m,
            pos_to_idx_spec(sizes, cp) is Some,
            pos_to_idx_spec(sizes, cp) != Some(idx as int),
            forall|q: int|
                0 <= q < d ==> pos_to_idx_spec(
                    sizes,
                    crate::space::shifted(cp, #[trigger] offs@[q]),
                ) != Some(idx as int),
        decreases m - d,
    {
        proof {
            lemma_border_offset_unit(offs@, d as int);
        }
        let o = offs[d];
        let q = Int3 { x: cp.x + o.x, y: cp.y + o.y, z: cp.z + o.z };
        match ChunkArray::pos_to_idx(sizes, q) {
            Some(i2) => {
                if i2 == idx {
                    return true;
                }
            },
            None => {
            },
        }
        d += 1;
    }
    false
}

/// Every border offset is a unit step along one axis.
proof fn lemma_border_offset_unit(offs: Seq<Int3>, d: int)
    requires
        exists|local: Int3, lo: Int3, hi: Int3|
            offs == crate::space::border_offsets_spec(local, lo, hi),
        0 <= d < offs.len(),
    ensures
        -1 <= offs[d].x <= 1 && -1 <= offs[d].y <= 1 && -1 <= offs[d].z <= 1,
{
    let (local, lo, hi) = choose|local: Int3, lo: Int3, hi: Int3|
        offs == crate::space::border_offsets_spec(local, lo, hi);
}

/// What the mesher may read of the six neighbors of cell `idx`, stated
/// over the grid's chunk models: the ids of each present, generated
/// neighbor.
pub open spec fn adj_ids_of(ms: Seq<ChunkModel>, sizes: USize3, idx: int) -> Seq<
    Option<Seq<u16>>,
> {
    Seq::new(
        6,
        |d: int|
            match pos_to_idx_spec(
                sizes,
                crate::space::shifted(
                    idx_to_pos_spec(idx, sizes),
                    crate::space::adj_offsets()[d],
                ),
            ) {
                Some(j) => if ms[j].generated {
                    Some(ms[j].ids)
                } else {
                    None
                },
                None => None,
            },
    )
}

/// The full-detail mesh a reload owes the listed cell: one slot-0 upload
/// of six vertices per visible face, everything else untouched.
pub open spec fn reloaded(ms: Seq<ChunkModel>, sizes: USize3, q: int) -> ChunkModel {
    ChunkModel {
        meshes: ms[q].meshes.update(
            0,
            Some(
                Mesh {
                    vertex_count: (6 * crate::meshing::detailed_faces(
                        ms[q].ids,
                        adj_ids_of(ms, sizes, q),
                    ).len()) as usize,
                },
            ),
        ),
        ..ms[q]
    }
}

/// Whether the reload list names cell `q`.
pub open spec fn reload_listed(indices: Seq<usize>, q: int) -> bool {
    exists|t: int| 0 <= t < indices.len() && (#[trigger] indices[t]) == q
}

/// The mesher reads only ids and generation, so grids that agree on them
/// show their neighbors identically.
proof fn lemma_adj_view_stable(cur: Seq<ChunkModel>, ms: Seq<ChunkModel>, sizes: USize3, idx: int)
    requires
        sizes_ok(sizes),
        cur.len() == ms.len(),
        ms.len() == volume_spec(sizes),
        forall|q: int|
            0 <= q < cur.len() ==> (#[trigger] cur[q]).ids == ms[q].ids && cur[q].generated
                == ms[q].generated,
    ensures
        adj_ids_of(cur, sizes, idx) == adj_ids_of(ms, sizes, idx),
{
    assert forall|d: int|
        0 <= d < 6 implies #[trigger] adj_ids_of(cur, sizes, idx)[d] == adj_ids_of(
        ms,
        sizes,
        idx,
    )[d] by {
        let qq = crate::space::shifted(
            idx_to_pos_spec(idx, sizes),
            crate::space::adj_offsets()[d],
        );
        if pos_to_idx_spec(sizes, qq) is Some {
            lemma_pos_idx_bounds(sizes, qq);
        }
    }
    assert(adj_ids_of(cur, sizes, idx) =~= adj_ids_of(ms, sizes, idx));
}

/// A prefix one entry longer lists a cell other than that entry exactly
/// when the shorter prefix does.
proof fn lemma_listed_extend(indices: Seq<usize>, t: int, q: int)
    requires
        0 <= t < indices.len(),
        indices[t] != q,
    ensures
        reload_listed(indices.take(t + 1), q) == reload_listed(indices.take(t), q),
{
    if reload_listed(indices.take(t + 1), q) {
        let tt = choose|tt: int|
            0 <= tt < indices.take(t + 1).len() && (#[trigger] indices.take(t + 1)[tt]) == q;
        assert(tt != t);
        assert(indices.take(t)[tt] == q);
    }
    if reload_listed(indices.take(t), q) {
        let tt = choose|tt: int|
            0 <= tt < indices.take(t).len() && (#[trigger] indices.take(t)[tt]) == q;
        assert(indices.take(t + 1)[tt] == q);
    }
}

/// Per-chunk contents a save file may carry: a valid fill and id buffer
/// for every cell of a grid within bounds.
pub open spec fn world_contents_ok(sizes: USize3, cs: Seq<(FillType, Seq<u16>)>) -> bool {
    &&& sizes_ok(sizes)
    &&& cs.len() == volume_spec(sizes)
    &&& forall|k: int|
        0 <= k < cs.len() ==> crate::codec::blob_ok((#[trigger] cs[k]).0, cs[k].1)
            && crate::codec::blob_fits(cs[k].0, cs[k].1)
}

/// The serialized blobs of per-chunk contents.
pub open spec fn world_blobs_of(cs: Seq<(FillType, Seq<u16>)>) -> Seq<Seq<u8>> {
    Seq::new(cs.len(), |k: int| crate::codec::chunk_blob(cs[k].0, cs[k].1))
}

/// The per-chunk contents of a grid, as the save file carries them.
pub open spec fn world_contents(arr: &ChunkArray) -> Seq<(FillType, Seq<u16>)> {
    Seq::new(arr.chunks@.len(), |k: int| (arr.chunks@[k].fill_type, arr.chunks@[k].ids()))
}

/// The whole-file round trip, spelled out: a well-formed grid whose bit
/// streams fit (which `save_to_file` guarantees of its output) has
/// contents the reader's round-trip clause applies to, and its blobs are
/// exactly the file's. With these two facts, `read_from_file` on
/// `save_to_file`'s bytes returns the grid's own sizes and contents.
pub proof fn lemma_save_load_round_trip(arr: &ChunkArray)
    requires
        arr.wf(),
        forall|k: int|
            0 <= k < arr.chunks@.len() ==> crate::codec::blob_fits(
                (#[trigger] arr.chunks@[k]).fill_type,
                arr.chunks@[k].ids(),
            ),
    ensures
        world_contents_ok(arr.sizes, world_contents(arr)),
        world_blobs_of(world_contents(arr)) == arr.world_blobs(),
{
    let cs = world_contents(arr);
    assert forall|k: int|
        0 <= k < cs.len() implies crate::codec::blob_ok((#[trigger] cs[k]).0, cs[k].1)
        && crate::codec::blob_fits(cs[k].0, cs[k].1) by {
        assert(arr.chunks@[k].wf());
        match arr.chunks@[k].fill_type {
            FillType::AllSame(id) => {
            },
            FillType::Default => {
            },
        }
    }
    assert(world_blobs_of(cs) =~= arr.world_blobs());
}

/// What a successful load owes for given saved contents: the saved sizes
/// and, per cell, the saved fill type with its id buffer (empty for a
/// uniform fill).
pub open spec fn load_good(
    r: Result<(USize3, Vec<(Vec<u16>, FillType)>), crate::voxel::ReinterpretError>,
    sizes: USize3,
    cs: Seq<(FillType, Seq<u16>)>,
) -> bool {
    match r {
        Ok(p) => p.0 == sizes && p.1@.len() == cs.len() && forall|k: int|
            0 <= k < cs.len() ==> (#[trigger] p.1@[k]).1 == cs[k].0 && p.1@[k].0@ == (
            if cs[k].0 is Default {
                cs[k].1
            } else {
                Seq::<u16>::empty()
            }),
        Err(_) => false,
    }
}

impl ChunkArray {
    /// Rebuilds the full-detail mesh of each listed in-grid, generated
    /// chunk synchronously, so an edit shows on the next frame; listed
    /// cells outside the grid or not yet generated, and every unlisted
    /// cell, stay untouched.
    pub fn reload_chunks_by_indices(&mut self, indices: &Vec<usize>)
        requires
            old(self).wf(),
        ensures
            final(self).wf(),
            final(self).sizes == old(self).sizes,
            final(self).voxels_gen_tasks == old(self).voxels_gen_tasks,
            final(self).full_tasks == old(self).full_tasks,
            final(self).low_tasks == old(self).low_tasks,
            final(self).saving == old(self).saving && final(self).reading == old(self).reading,
            final(self).max_tasks == old(self).max_tasks,
            final(self).lod_dist_threshold == old(self).lod_dist_threshold,
            forall|q: int|
                0 <= q < final(self).models().len() ==> #[trigger] final(self).models()[q] == (
                if reload_listed(indices@, q) && old(self).models()[q].generated {
                    reloaded(old(self).models(), old(self).sizes, q)
                } else {
                    old(self).models()[q]
                }),
    {
        let ghost ms = old(self).models();
        let n: usize = indices.len();
        let vol = Self::volume(self.sizes);
        let mut t: usize = 0;
        while t < n
            invariant
                old(self).wf(),
                self.wf(),
                self.sizes == old(self).sizes,
                ms == old(self).models(),
                ms.len() == vol,
                vol == volume_spec(self.sizes),
                self.voxels_gen_tasks == old(self).voxels_gen_tasks,
                self.full_tasks == old(self).full_tasks,
                self.low_tasks == old(self).low_tasks,
                self.saving == old(self).saving && self.reading == old(self).reading,
                self.max_tasks == old(self).max_tasks,
                self.lod_dist_threshold == old(self).lod_dist_threshold,
                n == indices@.len(),
                t <= n,
                forall|q: int|
                    0 <= q < vol ==> #[trigger] self.models()[q] == (if reload_listed(
                        indices@.take(t as int),
                        q,
                    ) && ms[q].generated {
                        reloaded(ms, self.sizes, q)
                    } else {
                        ms[q]
                    }),
            decreases n - t,
        {
            let idx = indices[t];
            if idx < vol {
                if self.chunks[idx].is_generated() {
                    let ghost prev = self.models();
                    let mesh = {
                        let adj = self.get_adj_chunks(idx);
                        proof {
                            assert forall|d: int|
                                0 <= d < 6 implies #[trigger] adj.ids_view()[d] == adj_ids_of(
                                prev,
                                self.sizes,
                                idx as int,
                            )[d] by {
                                let p = idx_to_pos_spec(idx as int, self.sizes);
                                let qq = crate::space::shifted(
                                    p,
                                    crate::space::adj_offsets()[d],
                                );
                                if pos_to_idx_spec(self.sizes, qq) is Some {
                                    lemma_pos_idx_bounds(self.sizes, qq);
                                    let j = pos_to_idx_spec(self.sizes, qq)->Some_0;
                                    assert(adj.side(d) is Some);
                                    let c = adj.side(d)->0;
                                    assert(c == &self.chunks@[j]);
                                    assert(prev[j] == self.chunks@[j].model());
                                } else {
                                    assert(adj.side(d) is None);
                                }
                            }
                            assert(adj.ids_view() =~= adj_ids_of(prev, self.sizes, idx as int));
                            lemma_adj_view_stable(prev, ms, self.sizes, idx as int);
                        }
                        self.chunks[idx].make_vertices_detailed(&adj)
                    };
                    proof {
                        assert(mesh.faces@.len() * 6 <= 196608 * 6) by (nonlinear_arith)
                            requires mesh.faces@.len() <= 196608;
                        assert(self.models()[idx as int] == self.chunks@[idx as int].model());
                        assert(self.models()[idx as int].ids == ms[idx as int].ids) by {
                            if reload_listed(indices@.take(t as int), idx as int)
                                && ms[idx as int].generated {
                                assert(self.models()[idx as int] == reloaded(
                                    ms,
                                    self.sizes,
                                    idx as int,
                                ));
                            } else {
                                assert(self.models()[idx as int] == ms[idx as int]);
                            }
                        }
                        assert(self.chunks@[idx as int].ids() == ms[idx as int].ids);
                        assert(mesh.faces@ == crate::meshing::detailed_faces(
                            ms[idx as int].ids,
                            adj_ids_of(ms, self.sizes, idx as int),
                        ));
                    }
                    let vc: usize = mesh.faces.len() * 6;
                    let ghost before = self.chunks@;
                    let c = &mut self.chunks[idx];
                    c.upload_full_detail_vertices(vc);
                    proof {
                        assert forall|q: int|
                            0 <= q < self.chunks@.len() implies (#[trigger] self.chunks@[q]).wf()
                            && self.chunks@[q].pos == idx_to_pos_spec(q, self.sizes) by {
                            if q != idx {
                                assert(self.chunks@[q] == before[q]);
                            }
                        }
                        assert forall|q: int|
                            0 <= q < vol implies #[trigger] self.models()[q] == (
                        if reload_listed(indices@.take(t as int + 1), q) && ms[q].generated {
                            reloaded(ms, self.sizes, q)
                        } else {
                            ms[q]
                        }) by {
                            if q == idx {
                                assert(indices@.take(t as int + 1)[t as int] == idx);
                                assert(reload_listed(indices@.take(t as int + 1), q));
                                assert(self.models()[q] == (ChunkModel {
                                    meshes: prev[q].meshes.update(
                                        0,
                                        Some(Mesh { vertex_count: vc }),
                                    ),
                                    ..prev[q]
                                }));
                                if reload_listed(indices@.take(t as int), q) {
                                    assert(prev[q] == reloaded(ms, self.sizes, q));
                                } else {
                                    assert(prev[q] == ms[q]);
                                }
                                assert(mesh.faces@.len() == crate::meshing::detailed_faces(
                                    ms[q].ids,
                                    adj_ids_of(ms, self.sizes, q),
                                ).len());
                                assert(vc == mesh.faces@.len() * 6);
                                assert(mesh.faces@.len() <= 196608);
                                assert((6 * mesh.faces@.len()) as usize == 6 * mesh.faces@.len());
                                assert(vc == (6 * crate::meshing::detailed_faces(
                                    ms[q].ids,
                                    adj_ids_of(ms, self.sizes, q),
                                ).len()) as usize);
                                assert(Some(Mesh { vertex_count: vc }) == Some(
                                    Mesh {
                                        vertex_count: (6 * crate::meshing::detailed_faces(
                                            ms[q].ids,
                                            adj_ids_of(ms, self.sizes, q),
                                        ).len()) as usize,
                                    },
                                ));
                                assert(ms[q] == old(self).chunks@[q].model());
                                assert(old(self).chunks@[q].wf());
                                assert(ms[q].meshes.len() == 6);
                                if reload_listed(indices@.take(t as int), q) {
                                    assert(prev[q].meshes == ms[q].meshes.update(
                                        0,
                                        Some(Mesh { vertex_count: vc }),
                                    ));
                                    assert(prev[q].meshes.update(0, Some(Mesh { vertex_count: vc }))
                                        =~= ms[q].meshes.update(
                                        0,
                                        Some(Mesh { vertex_count: vc }),
                                    ));
                                }
                                assert(reloaded(ms, self.sizes, q).meshes =~= prev[q].meshes.update(
                                    0,
                                    Some(Mesh { vertex_count: vc }),
                                ));
                                assert(self.models()[q] =~= reloaded(ms, self.sizes, q));
                            } else {
                                assert(self.chunks@[q] == before[q]);
                                assert(self.models()[q] == prev[q]);
                                lemma_listed_extend(indices@, t as int, q);
                            }
                        }
                    }
                } else {
                    proof {
                        assert forall|q: int|
                            0 <= q < vol implies #[trigger] self.models()[q] == (
                        if reload_listed(indices@.take(t as int + 1), q) && ms[q].generated {
                            reloaded(ms, self.sizes, q)
                        } else {
                            ms[q]
                        }) by {
                            if q == idx as int {
                                assert(self.chunks@[q].model() == self.models()[q]);
                                assert(!self.chunks@[q].generated);
                                assert(self.models()[q].generated == ms[q].generated);
                                assert(!ms[q].generated);
                            } else {
                                lemma_listed_extend(indices@, t as int, q);
                            }
                        }
                    }
                }
            } else {
                proof {
                    assert forall|q: int|
                        0 <= q < vol implies #[trigger] self.models()[q] == (if reload_listed(
                        indices@.take(t as int + 1),
                        q,
                    ) && ms[q].generated {
                        reloaded(ms, self.sizes, q)
                    } else {
                        ms[q]
                    }) by {
                        lemma_listed_extend(indices@, t as int, q);
                    }
                }
            }
            t += 1;
        }
        proof {
            assert(indices@.take(n as int) =~= indices@);
        }
    }

    /// Runs one tick's worth of queued commands against the grid in
    /// order, then synchronously rebuilds the full-detail mesh of every
    /// chunk a state-changing voxel edit obliges — the owner and the face
    /// neighbors the edited border voxels touch.
    pub fn process_commands(&mut self, commands: Vec<Command>)
        requires
            old(self).wf(),
        ensures
            final(self).wf(),
            final(self).sizes == old(self).sizes,
            final(self).voxels_gen_tasks == old(self).voxels_gen_tasks,
            final(self).full_tasks == old(self).full_tasks,
            final(self).low_tasks == old(self).low_tasks,
            final(self).saving == old(self).saving && final(self).reading == old(self).reading,
            final(self).max_tasks == old(self).max_tasks,
            final(self).lod_dist_threshold == old(self).lod_dist_threshold,
            ({
                let (folded, noted) = apply_commands_model(
                    old(self).models(),
                    old(self).sizes,
                    commands@,
                );
                forall|q: int|
                    0 <= q < final(self).models().len() ==> #[trigger] final(self).models()[q]
                        == (if any_tracked_hits(old(self).sizes, noted, q)
                        && folded[q].generated {
                        reloaded(folded, old(self).sizes, q)
                    } else {
                        folded[q]
                    })
            }),
    {
        let ghost ms0 = old(self).models();
        let mut tracker = ChangeTracker::new(self.sizes);
        let n: usize = commands.len();
        let mut t: usize = 0;
        proof {
            assert(commands@.skip(0) =~= commands@);
        }
        while t < n
            invariant
                old(self).wf(),
                self.wf(),
                self.sizes == old(self).sizes,
                ms0 == old(self).models(),
                tracker.sizes == self.sizes,
                self.voxels_gen_tasks == old(self).voxels_gen_tasks,
                self.full_tasks == old(self).full_tasks,
                self.low_tasks == old(self).low_tasks,
                self.saving == old(self).saving && self.reading == old(self).reading,
                self.max_tasks == old(self).max_tasks,
                self.lod_dist_threshold == old(self).lod_dist_threshold,
                n == commands@.len(),
                t <= n,
                apply_commands_model(ms0, self.sizes, commands@).0 == apply_commands_model(
                    self.models(),
                    self.sizes,
                    commands@.skip(t as int),
                ).0,
                apply_commands_model(ms0, self.sizes, commands@).1 == tracker.voxel_poses@
                    + apply_commands_model(self.models(), self.sizes, commands@.skip(t as int)).1,
            decreases n - t,
        {
            let ghost pre = self.models();
            let ghost rest = commands@.skip(t as int);
            proof {
                assert(rest[0] == commands@[t as int]);
                assert(rest.skip(1) =~= commands@.skip(t as int + 1));
            }
            let cmd = commands[t];
            match cmd {
                Command::SetVoxel { pos, new_id } => {
                    let r = self.set_voxel(pos, new_id);
                    match r {
                        Ok(old_id) => {
                            if old_id != new_id {
                                tracker.track_voxel(pos);
                            }
                        },
                        Err(_) => {
                        },
                    }
                    proof {
                        assert(apply_command_model(pre, self.sizes, rest[0]).0 == self.models());
                    }
                },
                Command::FillVoxels { pos_from, pos_to, new_id } => {
                    let _ = self.fill_voxels(pos_from, pos_to, new_id);
                    proof {
                        assert(apply_command_model(pre, self.sizes, rest[0]).0 == self.models());
                    }
                },
                Command::DropAllMeshes => {
                    self.drop_all_meshes();
                    proof {
                        assert(self.models() =~= Seq::new(
                            pre.len(),
                            |k: int| cleared(pre[k]),
                        ));
                        assert(apply_command_model(pre, self.sizes, rest[0]).0 == self.models());
                    }
                },
            }
            t += 1;
        }
        proof {
            assert(commands@.skip(n as int) =~= Seq::<Command>::empty());
        }
        let idxs = tracker.idxs_to_reload();
        let ghost folded = self.models();
        self.reload_chunks_by_indices(&idxs);
        proof {
            let noted = apply_commands_model(ms0, old(self).sizes, commands@).1;
            assert forall|q: int|
                0 <= q < final(self).models().len() implies #[trigger] final(self).models()[q]
                == (if any_tracked_hits(old(self).sizes, noted, q) && folded[q].generated {
                reloaded(folded, old(self).sizes, q)
            } else {
                folded[q]
            }) by {
                assert(final(self).models()[q] == (if reload_listed(idxs@, q)
                    && folded[q].generated {
                    reloaded(folded, old(self).sizes, q)
                } else {
                    folded[q]
                }));
                assert(noted =~= tracker.voxel_poses@);
                assert(reload_listed(idxs@, q) == any_tracked_hits(
                    old(self).sizes,
                    noted,
                    q,
                )) by {
                    if reload_listed(idxs@, q) {
                        assert(idx_listed(idxs@, q));
                    }
                    if idx_listed(idxs@, q) {
                        assert(reload_listed(idxs@, q));
                    }
                }
            }
        }
    }

    /// The blobs of every chunk, in linear order.
    pub open spec fn world_blobs(&self) -> Seq<Seq<u8>> {
        Seq::new(
            self.chunks@.len(),
            |k: int| crate::codec::chunk_blob(self.chunks@[k].fill_type, self.chunks@[k].ids()),
        )
    }

    /// Serializes the whole grid to one save file. Every chunk must be
    /// generated. `None` only when the file would not fit in memory.
    pub fn save_to_file(&self) -> (r: Option<Vec<u8>>)
        requires
            self.wf(),
            forall|k: int| 0 <= k < self.chunks@.len() ==> (#[trigger] self.chunks@[k]).generated,
        ensures
            match r {
                Some(b) => b@ == crate::save::save_file_spec(self.sizes, self.world_blobs())
                    && crate::save::save_ok(self.sizes, self.world_blobs()) && forall|k: int|
                    0 <= k < self.chunks@.len() ==> crate::codec::blob_fits(
                        (#[trigger] self.chunks@[k]).fill_type,
                        self.chunks@[k].ids(),
                    ),
                None => 72 + 16 * self.world_blobs().len() + crate::save::sum_lens(
                    self.world_blobs(),
                ) > usize::MAX,
            },
    {
        let vol: usize = Self::volume(self.sizes);
        let mut blobs: Vec<Vec<u8>> = Vec::new();
        let mut total: u128 = 72;
        let mut k: usize = 0;
        proof {
            crate::save::lemma_sum_lens_nonneg(self.world_blobs());
        }
        while k < vol
            invariant
                self.wf(),
                vol == volume_spec(self.sizes),
                k <= vol,
                blobs@.len() == k,
                forall|q: int|
                    0 <= q < k ==> (#[trigger] blobs@[q])@ == self.world_blobs()[q],
                forall|q: int|
                    0 <= q < k ==> crate::codec::blob_fits(
                        (#[trigger] self.chunks@[q]).fill_type,
                        self.chunks@[q].ids(),
                    ),
                total == 72 + 16 * k + crate::save::sum_lens(
                    self.world_blobs().take(k as int),
                ),
                total <= 72 + k * 0x1_0000_0000_0000_0010,
            decreases vol - k,
        {
            proof {
                lemma_sum_lens_take_world(self.world_blobs(), k as int);
                assert((k + 1) * 0x1_0000_0000_0000_0010 == k * 0x1_0000_0000_0000_0010
                    + 0x1_0000_0000_0000_0010) by (nonlinear_arith);
                assert(72 + 4096 * 0x1_0000_0000_0000_0010 < 0xffff_ffff_ffff_ffff_ffff_ffff_ffff_ffff)
                    by (nonlinear_arith);
                assert(k * 0x1_0000_0000_0000_0010 <= 4096 * 0x1_0000_0000_0000_0010)
                    by (nonlinear_arith)
                    requires 0 <= k <= 4096;
            }
            let blob = crate::codec::encode_chunk(&self.chunks[k]);
            proof {
                assert(blob@ == self.world_blobs()[k as int]);
            }
            total = total + 16 + blob.len() as u128;
            blobs.push(blob);
            k += 1;
        }
        proof {
            assert(self.world_blobs().take(vol as int) =~= self.world_blobs());
        }
        if total > usize::MAX as u128 {
            return None;
        }
        proof {
            assert(blobs@.map_values(|b: Vec<u8>| b@) =~= self.world_blobs());
        }
        Some(crate::save::save_bytes(self.sizes, &blobs))
    }

    /// Reads a save file back into grid dimensions and per-chunk
    /// contents, ready for `apply_new`. Fails on damaged files.
    pub fn read_from_file(bytes: &Vec<u8>) -> (r: Result<
        (USize3, Vec<(Vec<u16>, FillType)>),
        crate::voxel::ReinterpretError,
    >)
        ensures
            match r {
                Ok(p) => {
                    &&& sizes_ok(p.0)
                    &&& p.1@.len() == volume_spec(p.0)
                    &&& forall|k: int|
                        0 <= k < p.1@.len() ==> match (#[trigger] p.1@[k]).1 {
                            FillType::AllSame(id) => is_id_valid_spec(id),
                            FillType::Default => p.1@[k].0@.len() == CHUNK_VOLUME && forall|
                                l: int,
                            |
                                0 <= l < p.1@[k].0@.len() ==> is_id_valid_spec(
                                    #[trigger] p.1@[k].0@[l],
                                ),
                        }
                },
                Err(_) => true,
            },
            forall|sizes0: USize3, cs: Seq<(FillType, Seq<u16>)>|
                world_contents_ok(sizes0, cs) && crate::save::save_ok(sizes0, world_blobs_of(cs))
                    && bytes@ == #[trigger] crate::save::save_file_spec(
                    sizes0,
                    world_blobs_of(cs),
                ) ==> load_good(r, sizes0, cs),
    {
        let pair = crate::save::read_save(bytes);
        let (sizes, raw) = match pair {
            Ok(p) => p,
            Err(e) => {
                proof {
                    assert forall|sizes0: USize3, cs: Seq<(FillType, Seq<u16>)>|
                        world_contents_ok(sizes0, cs) && crate::save::save_ok(
                            sizes0,
                            world_blobs_of(cs),
                        ) && bytes@ == #[trigger] crate::save::save_file_spec(
                            sizes0,
                            world_blobs_of(cs),
                        ) implies false by {
                        assert(crate::save::read_good(pair, sizes0, world_blobs_of(cs)));
                    }
                }
                return Err(e);
            },
        };
        let vol: usize = raw.len();
        let mut out: Vec<(Vec<u16>, FillType)> = Vec::new();
        let mut k: usize = 0;
        while k < vol
            invariant
                pair matches Ok(p) && p == (sizes, raw),
                forall|sizes0: USize3, bs: Seq<Seq<u8>>|
                    crate::save::save_ok(sizes0, bs) && bytes@
                        == #[trigger] crate::save::save_file_spec(sizes0, bs)
                        ==> crate::save::read_good(pair, sizes0, bs),
                vol == raw@.len(),
                k <= vol,
                out@.len() == k,
                forall|q: int|
                    0 <= q < k ==> match (#[trigger] out@[q]).1 {
                        FillType::AllSame(id) => is_id_valid_spec(id),
                        FillType::Default => out@[q].0@.len() == CHUNK_VOLUME && forall|l: int|
                            0 <= l < out@[q].0@.len() ==> is_id_valid_spec(
                                #[trigger] out@[q].0@[l],
                            ),
                    },
                forall|q: int, ft: FillType, ids0: Seq<u16>|
                    0 <= q < k && crate::codec::blob_ok(ft, ids0) && crate::codec::blob_fits(
                        ft,
                        ids0,
                    ) && raw@[q]@ == #[trigger] crate::codec::chunk_blob(ft, ids0) ==> (
                    #[trigger] out@[q]).1 == ft && out@[q].0@ == (if ft is Default {
                        ids0
                    } else {
                        Seq::<u16>::empty()
                    }),
            decreases vol - k,
        {
            let dec = crate::codec::decode_chunk(&raw[k]);
            match dec {
                Ok(p) => {
                    proof {
                        assert forall|ft: FillType, ids0: Seq<u16>|
                            crate::codec::blob_ok(ft, ids0) && crate::codec::blob_fits(ft, ids0)
                                && raw@[k as int]@ == #[trigger] crate::codec::chunk_blob(
                                ft,
                                ids0,
                            ) implies p.1 == ft && p.0@ == (if ft is Default {
                            ids0
                        } else {
                            Seq::<u16>::empty()
                        }) by {
                            assert(crate::codec::decode_good(dec, ft, ids0));
                        }
                    }
                    out.push(p);
                },
                Err(e) => {
                    proof {
                        assert forall|sizes0: USize3, cs: Seq<(FillType, Seq<u16>)>|
                            world_contents_ok(sizes0, cs) && crate::save::save_ok(
                                sizes0,
                                world_blobs_of(cs),
                            ) && bytes@ == #[trigger] crate::save::save_file_spec(
                                sizes0,
                                world_blobs_of(cs),
                            ) implies false by {
                            assert(crate::save::read_good(pair, sizes0, world_blobs_of(cs)));
                            assert(raw@.map_values(|b: Vec<u8>| b@) == world_blobs_of(cs));
                            assert(raw@[k as int]@ == world_blobs_of(cs)[k as int]);
                            assert(raw@[k as int]@ == crate::codec::chunk_blob(
                                cs[k as int].0,
                                cs[k as int].1,
                            ));
                            assert(crate::codec::decode_good(dec, cs[k as int].0, cs[k as int].1));
                        }
                    }
                    return Err(e);
                },
            }
            k += 1;
        }
        proof {
            assert forall|sizes0: USize3, cs: Seq<(FillType, Seq<u16>)>|
                world_contents_ok(sizes0, cs) && crate::save::save_ok(sizes0, world_blobs_of(cs))
                    && bytes@ == #[trigger] crate::save::save_file_spec(
                    sizes0,
                    world_blobs_of(cs),
                ) implies load_good(
                Ok::<(USize3, Vec<(Vec<u16>, FillType)>), crate::voxel::ReinterpretError>(
                    (sizes, out),
                ),
                sizes0,
                cs,
            ) by {
                assert(crate::save::read_good(pair, sizes0, world_blobs_of(cs)));
                assert(raw@.map_values(|b: Vec<u8>| b@) == world_blobs_of(cs));
                assert(sizes == sizes0);
                assert(out@.len() == cs.len());
                assert forall|q: int|
                    0 <= q < cs.len() implies (#[trigger] out@[q]).1 == cs[q].0 && out@[q].0@ == (
                if cs[q].0 is Default {
                    cs[q].1
                } else {
                    Seq::<u16>::empty()
                }) by {
                    assert(raw@[q]@ == world_blobs_of(cs)[q]);
                    assert(raw@[q]@ == crate::codec::chunk_blob(cs[q].0, cs[q].1));
                }
            }
        }
        Ok((sizes, out))
    }
}

/// One more blob in the prefix adds its length to the world sum.
proof fn lemma_sum_lens_take_world(bs: Seq<Seq<u8>>, j: int)
    requires
        0 <= j < bs.len(),
    ensures
        crate::save::sum_lens(bs.take(j + 1)) == crate::save::sum_lens(bs.take(j)) + bs[j].len(),
    decreases j,
{
    if j == 0 {
        assert(bs.take(1)[0] == bs[0]);
        assert(bs.take(1).skip(1) =~= Seq::<Seq<u8>>::empty());
        assert(bs.take(0) =~= Seq::<Seq<u8>>::empty());
    } else {
        lemma_sum_lens_take_world(bs.skip(1), j - 1);
        crate::save::lemma_sum_lens_take_step(bs, j + 1);
        crate::save::lemma_sum_lens_take_step(bs, j);
        assert(bs.skip(1)[j - 1] == bs[j]);
        assert(bs.skip(1).take(j) =~= bs.take(j + 1).skip(1));
        assert(bs.skip(1).take(j - 1) =~= bs.take(j).skip(1));
    }
}

} // verus!
