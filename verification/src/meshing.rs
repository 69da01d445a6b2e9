//! Mesh building: which cube faces a chunk exposes, at full detail and at
//! the downsampled low-detail levels.
//!
//! A face of a solid voxel is emitted exactly when the face's neighbor is
//! transparent: air in the same chunk, air in the face-adjacent chunk, or a
//! neighbor that cannot be consulted at all because the adjacent chunk is
//! absent or not yet generated.

use vstd::prelude::*;

use crate::cfg::CHUNK_VOLUME;
use crate::chunk::{lidx_of, lx_of, ly_of, lz_of, lemma_lidx, Chunk};
use crate::mesh::{FullFace, FullMesh, LowFace, LowMesh};
use crate::space::adj_offsets;
use crate::voxel::AIR_ID;

verus! {

/// Read-only views of the six face-adjacent chunks, in the fixed
/// `+X, -X, +Y, -Y, +Z, -Z` order; a side is `None` where the grid has no
/// chunk.
pub struct ChunkAdj<'a> {
    pub plus_x: Option<&'a Chunk>,
    pub minus_x: Option<&'a Chunk>,
    pub plus_y: Option<&'a Chunk>,
    pub minus_y: Option<&'a Chunk>,
    pub plus_z: Option<&'a Chunk>,
    pub minus_z: Option<&'a Chunk>,
}

impl<'a> ChunkAdj<'a> {
    pub open spec fn side(&self, d: int) -> Option<&'a Chunk> {
        if d == 0 {
            self.plus_x
        } else if d == 1 {
            self.minus_x
        } else if d == 2 {
            self.plus_y
        } else if d == 3 {
            self.minus_y
        } else if d == 4 {
            self.plus_z
        } else {
            self.minus_z
        }
    }

    pub open spec fn wf(&self) -> bool {
        forall|d: int| 0 <= d < 6 ==> (#[trigger] self.side(d) matches Some(c) ==> c.wf())
    }

    /// What the mesher may read of each side: the ids of a present,
    /// generated neighbor; nothing otherwise.
    pub open spec fn ids_view(&self) -> Seq<Option<Seq<u16>>> {
        Seq::new(
            6,
            |d: int|
                match self.side(d) {
                    Some(c) => if c.generated {
                        Some(c.ids())
                    } else {
                        None
                    },
                    None => None,
                },
        )
    }

    pub fn get_side(&self, d: u8) -> (r: Option<&'a Chunk>)
        requires
            d < 6,
        ensures
            r == self.side(d as int),
    {
        if d == 0 {
            self.plus_x
        } else if d == 1 {
            self.minus_x
        } else if d == 2 {
            self.plus_y
        } else if d == 3 {
            self.minus_y
        } else if d == 4 {
            self.plus_z
        } else {
            self.minus_z
        }
    }

    /// An adjacency with no neighbors at all.
    pub fn empty() -> (r: ChunkAdj<'a>)
        ensures
            forall|d: int| 0 <= d < 6 ==> #[trigger] r.side(d) is None,
            r.wf(),
    {
        ChunkAdj {
            plus_x: None,
            minus_x: None,
            plus_y: None,
            minus_y: None,
            plus_z: None,
            minus_z: None,
        }
    }
}

/// A coordinate that stepped one voxel over the chunk border, folded into
/// the adjacent chunk's local range.
pub open spec fn wrap32(x: int) -> int {
    if x < 0 {
        x + 32
    } else if x >= 32 {
        x - 32
    } else {
        x
    }
}

/// Whether the face-`d` neighbor of the voxel at linear index `l` is
/// transparent: air in this chunk, air in the adjacent chunk, or out of
/// reach entirely (adjacent chunk absent or not generated).
pub open spec fn neighbor_transparent_at(
    ids: Seq<u16>,
    adj: Seq<Option<Seq<u16>>>,
    l: int,
    d: int,
) -> bool {
    let o = adj_offsets()[d];
    let nx = lx_of(l) + o.x;
    let ny = ly_of(l) + o.y;
    let nz = lz_of(l) + o.z;
    if 0 <= nx < 32 && 0 <= ny < 32 && 0 <= nz < 32 {
        ids[lidx_of(nx, ny, nz)] == AIR_ID
    } else {
        match adj[d] {
            None => true,
            Some(nids) => nids[lidx_of(wrap32(nx), wrap32(ny), wrap32(nz))] == AIR_ID,
        }
    }
}

/// Whether the full-detail mesh holds the face `d` of the voxel at linear
/// index `l`: the voxel is solid and its neighbor there is transparent.
pub open spec fn face_visible_at(
    ids: Seq<u16>,
    adj: Seq<Option<Seq<u16>>>,
    l: int,
    d: int,
) -> bool {
    ids[l] != AIR_ID && neighbor_transparent_at(ids, adj, l, d)
}

pub open spec fn face_at(ids: Seq<u16>, l: int, d: int) -> FullFace {
    FullFace {
        x: lx_of(l) as u8,
        y: ly_of(l) as u8,
        z: lz_of(l) as u8,
        dir: d as u8,
        id: ids[l],
    }
}

/// The faces of the full-detail mesh from the flattened position `i`
/// (voxel `i / 6`, direction `i % 6`) on, in emission order.
pub open spec fn detailed_faces_from(
    ids: Seq<u16>,
    adj: Seq<Option<Seq<u16>>>,
    i: int,
) -> Seq<FullFace>
    decreases 196608 - i,
{
    if i < 0 || i >= 196608 {
        Seq::empty()
    } else {
        (if face_visible_at(ids, adj, i / 6, i % 6) {
            seq![face_at(ids, i / 6, i % 6)]
        } else {
            Seq::empty()
        }) + detailed_faces_from(ids, adj, i + 1)
    }
}

/// All faces of the full-detail mesh of a chunk with contents `ids` and
/// neighbors `adj`.
pub open spec fn detailed_faces(ids: Seq<u16>, adj: Seq<Option<Seq<u16>>>) -> Seq<FullFace> {
    detailed_faces_from(ids, adj, 0)
}

/// Whether `f` is the face of some visible voxel face of the chunk.
pub open spec fn is_visible_face(ids: Seq<u16>, adj: Seq<Option<Seq<u16>>>, f: FullFace) -> bool {
    exists|l2: int, d2: int|
        0 <= l2 < CHUNK_VOLUME && 0 <= d2 < 6 && f == face_at(ids, l2, d2) && #[trigger]
        face_visible_at(ids, adj, l2, d2)
}

/// The face list holds exactly the visible faces: membership in
/// `detailed_faces` coincides with `face_visible_at`.
pub proof fn lemma_detailed_faces_complete(
    ids: Seq<u16>,
    adj: Seq<Option<Seq<u16>>>,
    l: int,
    d: int,
)
    requires
        0 <= l < CHUNK_VOLUME,
        0 <= d < 6,
    ensures
        detailed_faces(ids, adj).contains(face_at(ids, l, d)) <== face_visible_at(ids, adj, l, d),
        forall|j: int|
            0 <= j < detailed_faces(ids, adj).len() ==> is_visible_face(
                ids,
                adj,
                #[trigger] detailed_faces(ids, adj)[j],
            ),
{
    if face_visible_at(ids, adj, l, d) {
        let i = 6 * l + d;
        assert(i / 6 == l && i % 6 == d) by (nonlinear_arith)
            requires 0 <= d < 6 && i == 6 * l + d && 0 <= l;
        lemma_detailed_faces_member(ids, adj, i);
        lemma_detailed_faces_prefix(ids, adj, 0, i);
    }
    lemma_detailed_faces_sound(ids, adj, 0);
}

/// The face at flattened position `i`, when visible, is in the tail list
/// that starts at `i`.
proof fn lemma_detailed_faces_member(ids: Seq<u16>, adj: Seq<Option<Seq<u16>>>, i: int)
    requires
        0 <= i < 196608,
        face_visible_at(ids, adj, i / 6, i % 6),
    ensures
        detailed_faces_from(ids, adj, i).contains(face_at(ids, i / 6, i % 6)),
{
    assert(detailed_faces_from(ids, adj, i)[0] == face_at(ids, i / 6, i % 6));
}

/// Every member of a later tail is a member of an earlier one.
proof fn lemma_detailed_faces_prefix(ids: Seq<u16>, adj: Seq<Option<Seq<u16>>>, i: int, j: int)
    requires
        0 <= i <= j,
    ensures
        forall|f: FullFace|
            detailed_faces_from(ids, adj, j).contains(f) ==> #[trigger] detailed_faces_from(
                ids,
                adj,
                i,
            ).contains(f),
    decreases j - i,
{
    if i < j {
        lemma_detailed_faces_prefix(ids, adj, i + 1, j);
        assert forall|f: FullFace|
            detailed_faces_from(ids, adj, i + 1).contains(f) implies #[trigger]
        detailed_faces_from(ids, adj, i).contains(f) by {
            if 0 <= i < 196608 {
                let k = choose|k: int|
                    0 <= k < detailed_faces_from(ids, adj, i + 1).len() && #[trigger]
                    detailed_faces_from(ids, adj, i + 1)[k] == f;
                let head: Seq<FullFace> = if face_visible_at(ids, adj, i / 6, i % 6) {
                    seq![face_at(ids, i / 6, i % 6)]
                } else {
                    Seq::empty()
                };
                assert(detailed_faces_from(ids, adj, i)[head.len() + k] == f);
            }
        }
    }
}

/// Every face in a tail list is a visible face.
proof fn lemma_detailed_faces_sound(ids: Seq<u16>, adj: Seq<Option<Seq<u16>>>, i: int)
    requires
        0 <= i,
    ensures
        forall|j: int|
            0 <= j < detailed_faces_from(ids, adj, i).len() ==> is_visible_face(
                ids,
                adj,
                #[trigger] detailed_faces_from(ids, adj, i)[j],
            ),
    decreases 196608 - i,
{
    if i < 196608 {
        lemma_detailed_faces_sound(ids, adj, i + 1);
        let s = detailed_faces_from(ids, adj, i);
        let tail = detailed_faces_from(ids, adj, i + 1);
        assert forall|j: int| 0 <= j < s.len() implies is_visible_face(ids, adj, s[j]) by {
            if face_visible_at(ids, adj, i / 6, i % 6) {
                if j == 0 {
                    let l2 = i / 6;
                    let d2 = i % 6;
                    assert(0 <= l2 < CHUNK_VOLUME && 0 <= d2 < 6) by (nonlinear_arith)
                        requires 0 <= i < 196608 && l2 == i / 6 && d2 == i % 6;
                    assert(s[j] == face_at(ids, l2, d2) && face_visible_at(ids, adj, l2, d2));
                } else {
                    assert(s[j] == tail[j - 1]);
                }
            } else {
                assert(s[j] == tail[j]);
            }
        }
    }
}

impl Chunk {
    /// Builds the full-detail face list of this chunk against its
    /// neighbors. An all-air chunk yields an empty mesh, and a uniform
    /// solid chunk walled in by generated uniform solid neighbors exposes
    /// nothing.
    pub fn make_vertices_detailed(&self, adj: &ChunkAdj<'_>) -> (r: FullMesh)
        requires
            self.wf(),
            adj.wf(),
        ensures
            r.faces@ == detailed_faces(self.ids(), adj.ids_view()),
            r.faces@.len() <= 196608,
    {
        let ghost ids = self.ids();
        let ghost adjv = adj.ids_view();
        let mut faces: Vec<FullFace> = Vec::new();
        let mut l: usize = 0;
        proof {
            lemma_detailed_faces_bound(ids, adjv, 0);
        }
        while l < CHUNK_VOLUME
            invariant
                self.wf(),
                adj.wf(),
                ids == self.ids(),
                adjv == adj.ids_view(),
                l <= CHUNK_VOLUME,
                faces@.len() <= 6 * l,
                detailed_faces(ids, adjv) == faces@ + detailed_faces_from(ids, adjv, 6 * l as int),
            decreases CHUNK_VOLUME - l,
        {
            let mut d: u8 = 0;
            while d < 6
                invariant
                    self.wf(),
                    adj.wf(),
                    ids == self.ids(),
                    adjv == adj.ids_view(),
                    l < CHUNK_VOLUME,
                    d <= 6,
                    faces@.len() <= 6 * l + d,
                    detailed_faces(ids, adjv) == faces@ + detailed_faces_from(
                        ids,
                        adjv,
                        6 * l as int + d as int,
                    ),
                decreases 6 - d,
            {
                let ghost i = 6 * l as int + d as int;
                proof {
                    assert(i / 6 == l as int && i % 6 == d as int) by (nonlinear_arith)
                        requires 0 <= (d as int) < 6 && i == 6 * (l as int) + d && 0 <= (l as int);
                }
                if self.face_visible_exec(adj, l, d) {
                    let x: u8 = (l % 32) as u8;
                    let y: u8 = ((l / 32) % 32) as u8;
                    let z: u8 = (l / 1024) as u8;
                    let id: u16 = self.id_at(l);
                    proof {
                        assert(seq![face_at(ids, l as int, d as int)] + detailed_faces_from(
                            ids,
                            adjv,
                            i + 1,
                        ) =~= detailed_faces_from(ids, adjv, i));
                        assert(faces@.push(face_at(ids, l as int, d as int))
                            + detailed_faces_from(ids, adjv, i + 1) =~= faces@
                            + detailed_faces_from(ids, adjv, i));
                    }
                    faces.push(FullFace { x, y, z, dir: d, id });
                } else {
                    proof {
                        assert(detailed_faces_from(ids, adjv, i + 1) =~= detailed_faces_from(
                            ids,
                            adjv,
                            i,
                        ));
                    }
                }
                d += 1;
            }
            l += 1;
        }
        proof {
            assert(detailed_faces_from(ids, adjv, 6 * CHUNK_VOLUME as int) =~= Seq::<
                FullFace,
            >::empty());
            assert(faces@ =~= detailed_faces(ids, adjv));
        }
        FullMesh { faces }
    }

    /// Whether face `d` of the voxel at linear index `l` is emitted.
    fn face_visible_exec(&self, adj: &ChunkAdj<'_>, l: usize, d: u8) -> (r: bool)
        requires
            self.wf(),
            adj.wf(),
            l < CHUNK_VOLUME,
            d < 6,
        ensures
            r == face_visible_at(self.ids(), adj.ids_view(), l as int, d as int),
    {
        let own: u16 = self.id_at(l);
        if own == AIR_ID {
            return false;
        }
        let x: usize = l % 32;
        let y: usize = (l / 32) % 32;
        let z: usize = l / 1024;
        proof {
            lemma_lidx(x as int, y as int, z as int);
            assert(lidx_of(x as int, y as int, z as int) == l) by (nonlinear_arith)
                requires
                    x == l % 32 && y == (l / 32) % 32 && z == l / 1024 && l < 32768;
        }
        let o = offset_of(d);
        let nx: i32 = x as i32 + o.0;
        let ny: i32 = y as i32 + o.1;
        let nz: i32 = z as i32 + o.2;
        if 0 <= nx && nx < 32 && 0 <= ny && ny < 32 && 0 <= nz && nz < 32 {
            let nl: usize = nx as usize + 32 * ny as usize + 1024 * nz as usize;
            proof {
                lemma_lidx(nx as int, ny as int, nz as int);
            }
            self.id_at(nl) == AIR_ID
        } else {
            match adj.get_side(d) {
                None => true,
                Some(c) => {
                    if !c.is_generated() {
                        true
                    } else {
                        let wx: i32 = wrap32_exec(nx);
                        let wy: i32 = wrap32_exec(ny);
                        let wz: i32 = wrap32_exec(nz);
                        let nl: usize = wx as usize + 32 * wy as usize + 1024 * wz as usize;
                        proof {
                            lemma_lidx(wx as int, wy as int, wz as int);
                        }
                        c.id_at(nl) == AIR_ID
                    }
                },
            }
        }
    }
}

/// The unit offset of face direction `d`, as a tuple.
fn offset_of(d: u8) -> (r: (i32, i32, i32))
    requires
        d < 6,
    ensures
        adj_offsets()[d as int].x == r.0,
        adj_offsets()[d as int].y == r.1,
        adj_offsets()[d as int].z == r.2,
{
    if d == 0 {
        (1, 0, 0)
    } else if d == 1 {
        (-1, 0, 0)
    } else if d == 2 {
        (0, 1, 0)
    } else if d == 3 {
        (0, -1, 0)
    } else if d == 4 {
        (0, 0, 1)
    } else {
        (0, 0, -1)
    }
}

fn wrap32_exec(x: i32) -> (r: i32)
    requires
        -1 <= x <= 32,
    ensures
        r == wrap32(x as int),
        0 <= r < 32,
    {
    if x < 0 {
        x + 32
    } else if x >= 32 {
        x - 32
    } else {
        x
    }
}

/// The tail face list from position `i` holds at most one face per
/// remaining position.
proof fn lemma_detailed_faces_bound(ids: Seq<u16>, adj: Seq<Option<Seq<u16>>>, i: int)
    requires
        0 <= i,
    ensures
        detailed_faces_from(ids, adj, i).len() <= if i <= 196608 {
            196608 - i
        } else {
            0
        },
    decreases 196608 - i,
{
    if i < 196608 {
        lemma_detailed_faces_bound(ids, adj, i + 1);
    }
}

/// Group-grid side of a low-detail level: `32 / 2^lod` groups per axis.
pub open spec fn gside(lod: int) -> int {
    if lod == 1 {
        16
    } else if lod == 2 {
        8
    } else if lod == 3 {
        4
    } else if lod == 4 {
        2
    } else {
        1
    }
}

/// Voxels per group axis of a low-detail level: `2^lod`.
pub open spec fn gvox(lod: int) -> int {
    if lod == 1 {
        2
    } else if lod == 2 {
        4
    } else if lod == 3 {
        8
    } else if lod == 4 {
        16
    } else {
        32
    }
}

/// The ids of one `2^lod`-cube group, in x-fastest order.
pub open spec fn group_ids(ids: Seq<u16>, lod: int, gx: int, gy: int, gz: int) -> Seq<u16> {
    let v = gvox(lod);
    Seq::new(
        (v * v * v) as nat,
        |j: int|
            ids[lidx_of(gx * v + j % v, gy * v + (j / v) % v, gz * v + j / (v * v))],
    )
}

/// How many of the group's voxels are air.
pub open spec fn air_of(s: Seq<u16>) -> int
    decreases s.len(),
{
    if s.len() == 0 {
        0
    } else {
        air_of(s.drop_last()) + if s.last() == AIR_ID {
            1int
        } else {
            0int
        }
    }
}

/// The red channels of the group's solid voxels added up; air adds
/// nothing. `csum_of` with selectors 1 and 2 gives green and blue.
pub open spec fn csum_of(s: Seq<u16>, channel: int) -> int
    decreases s.len(),
{
    if s.len() == 0 {
        0
    } else {
        csum_of(s.drop_last(), channel) + if s.last() == AIR_ID {
            0int
        } else {
            let c = crate::voxel::voxel_data_spec(s.last()).color;
            if channel == 0 {
                c.r as int
            } else if channel == 1 {
                c.g as int
            } else {
                c.b as int
            }
        }
    }
}

/// A group drawn away entirely: more than half its voxels are air.
pub open spec fn group_transparent(s: Seq<u16>) -> bool {
    2 * air_of(s) > s.len()
}

/// The averaged color of a group that is not transparent.
pub open spec fn group_color(s: Seq<u16>) -> crate::voxel::Color {
    let solid = s.len() - air_of(s);
    crate::voxel::Color {
        r: (csum_of(s, 0) / solid) as u8,
        g: (csum_of(s, 1) / solid) as u8,
        b: (csum_of(s, 2) / solid) as u8,
    }
}

/// Whether the neighbor group of `(gx, gy, gz)` in direction `d` is
/// transparent: a majority-air group here or next door, or no consultable
/// neighbor chunk at all.
pub open spec fn low_neighbor_transparent(
    ids: Seq<u16>,
    adj: Seq<Option<Seq<u16>>>,
    lod: int,
    gx: int,
    gy: int,
    gz: int,
    d: int,
) -> bool {
    let o = adj_offsets()[d];
    let nx = gx + o.x;
    let ny = gy + o.y;
    let nz = gz + o.z;
    let g = gside(lod);
    if 0 <= nx < g && 0 <= ny < g && 0 <= nz < g {
        group_transparent(group_ids(ids, lod, nx, ny, nz))
    } else {
        match adj[d] {
            None => true,
            Some(nids) => group_transparent(
                group_ids(nids, lod, wrapg(nx, g), wrapg(ny, g), wrapg(nz, g)),
            ),
        }
    }
}

/// A group coordinate that stepped over the chunk border, folded into the
/// adjacent chunk's group range.
pub open spec fn wrapg(x: int, g: int) -> int {
    if x < 0 {
        x + g
    } else if x >= g {
        x - g
    } else {
        x
    }
}

/// Whether the low-detail mesh holds face `d` of the group at the
/// flattened group index `gi`: the group is solid by majority and its
/// neighbor there is transparent by majority.
pub open spec fn low_face_visible(
    ids: Seq<u16>,
    adj: Seq<Option<Seq<u16>>>,
    lod: int,
    gi: int,
    d: int,
) -> bool {
    let g = gside(lod);
    let gx = gi % g;
    let gy = (gi / g) % g;
    let gz = gi / (g * g);
    !group_transparent(group_ids(ids, lod, gx, gy, gz)) && low_neighbor_transparent(
        ids,
        adj,
        lod,
        gx,
        gy,
        gz,
        d,
    )
}

pub open spec fn low_face_at(ids: Seq<u16>, lod: int, gi: int, d: int) -> LowFace {
    let g = gside(lod);
    let gx = gi % g;
    let gy = (gi / g) % g;
    let gz = gi / (g * g);
    LowFace {
        x: gx as u8,
        y: gy as u8,
        z: gz as u8,
        dir: d as u8,
        color: group_color(group_ids(ids, lod, gx, gy, gz)),
    }
}

/// The faces of the low-detail mesh from flattened position `i` (group
/// `i / 6`, direction `i % 6`) on, in emission order.
pub open spec fn low_faces_from(
    ids: Seq<u16>,
    adj: Seq<Option<Seq<u16>>>,
    lod: int,
    i: int,
) -> Seq<LowFace>
    decreases 24576 - i,
{
    let g = gside(lod);
    let count = 6 * (g * g * g);
    if i < 0 || i >= count || i >= 24576 {
        Seq::empty()
    } else {
        (if low_face_visible(ids, adj, lod, i / 6, i % 6) {
            seq![low_face_at(ids, lod, i / 6, i % 6)]
        } else {
            Seq::empty()
        }) + low_faces_from(ids, adj, lod, i + 1)
    }
}

/// All faces of the low-detail mesh at level `lod`.
pub open spec fn low_faces(ids: Seq<u16>, adj: Seq<Option<Seq<u16>>>, lod: int) -> Seq<LowFace> {
    low_faces_from(ids, adj, lod, 0)
}

impl Chunk {
    /// Builds the low-detail face list of this chunk at level `lod`:
    /// voxels grouped into `2^lod`-cubes, one averaged color per solid
    /// group, a face wherever a solid group meets a majority-air
    /// neighbor.
    pub fn make_vertices_low(&self, adj: &ChunkAdj<'_>, lod: u32) -> (r: LowMesh)
        requires
            self.wf(),
            adj.wf(),
            1 <= lod <= 5,
        ensures
            r.lod == lod,
            r.faces@ == low_faces(self.ids(), adj.ids_view(), lod as int),
    {
        let ghost ids = self.ids();
        let ghost adjv = adj.ids_view();
        let g: usize = match lod {
            1 => 16,
            2 => 8,
            3 => 4,
            4 => 2,
            _ => 1,
        };
        let count: usize = 6 * (g * g * g);
        let mut faces: Vec<LowFace> = Vec::new();
        let mut gi: usize = 0;
        while gi < g * g * g
            invariant
                self.wf(),
                adj.wf(),
                ids == self.ids(),
                adjv == adj.ids_view(),
                1 <= lod <= 5,
                g == gside(lod as int),
                gi <= g * g * g,
                g * g * g <= 4096,
                low_faces(ids, adjv, lod as int) == faces@ + low_faces_from(
                    ids,
                    adjv,
                    lod as int,
                    6 * gi as int,
                ),
            decreases g * g * g - gi,
        {
            let mut d: u8 = 0;
            while d < 6
                invariant
                    self.wf(),
                    adj.wf(),
                    ids == self.ids(),
                    adjv == adj.ids_view(),
                    1 <= lod <= 5,
                    g == gside(lod as int),
                    gi < g * g * g,
                    g * g * g <= 4096,
                    d <= 6,
                    low_faces(ids, adjv, lod as int) == faces@ + low_faces_from(
                        ids,
                        adjv,
                        lod as int,
                        6 * gi as int + d as int,
                    ),
                decreases 6 - d,
            {
                let ghost i = 6 * gi as int + d as int;
                proof {
                    assert(i / 6 == gi as int && i % 6 == d as int) by (nonlinear_arith)
                        requires 0 <= (d as int) < 6 && i == 6 * (gi as int) + d && 0 <= (
                        gi as int);
                    assert(i < 6 * ((g as int) * (g as int) * (g as int)) && 6 * ((g as int) * (
                    g as int) * (g as int)) <= 24576) by (nonlinear_arith)
                        requires
                            (gi as int) < (g as int) * (g as int) * (g as int) && (g as int) * (
                            g as int) * (g as int) <= 4096 && i == 6 * (gi as int) + d && 0 <= (
                            d as int) < 6;
                }
                match self.low_face_exec(adj, lod, g, gi, d) {
                    Some(face) => {
                        proof {
                            assert(seq![low_face_at(ids, lod as int, gi as int, d as int)]
                                + low_faces_from(ids, adjv, lod as int, i + 1) =~= low_faces_from(
                                ids,
                                adjv,
                                lod as int,
                                i,
                            ));
                            assert(faces@.push(face) + low_faces_from(ids, adjv, lod as int, i + 1)
                                =~= faces@ + low_faces_from(ids, adjv, lod as int, i));
                        }
                        faces.push(face);
                    },
                    None => {
                        proof {
                            assert(low_faces_from(ids, adjv, lod as int, i + 1) =~= low_faces_from(
                                ids,
                                adjv,
                                lod as int,
                                i,
                            ));
                        }
                    },
                }
                d += 1;
            }
            gi += 1;
        }
        proof {
            assert(low_faces_from(ids, adjv, lod as int, 6 * (g * g * g) as int) =~= Seq::<
                LowFace,
            >::empty());
            assert(faces@ =~= low_faces(ids, adjv, lod as int));
        }
        LowMesh { lod, faces }
    }

    /// The face of group `gi` in direction `d`, if the mesh holds it.
    fn low_face_exec(&self, adj: &ChunkAdj<'_>, lod: u32, g: usize, gi: usize, d: u8) -> (r:
        Option<LowFace>)
        requires
            self.wf(),
            adj.wf(),
            1 <= lod <= 5,
            g == gside(lod as int),
            gi < g * g * g,
            d < 6,
        ensures
            r is Some <==> low_face_visible(
                self.ids(),
                adj.ids_view(),
                lod as int,
                gi as int,
                d as int,
            ),
            r matches Some(f) ==> f == low_face_at(self.ids(), lod as int, gi as int, d as int),
    {
        let gx: usize = gi % g;
        let gy: usize = (gi / g) % g;
        let gz: usize = gi / (g * g);
        proof {
            lemma_gidx(g as int, gi as int);
        }
        let (air, rs, gs2, bs) = self.group_stats(lod, g, gx, gy, gz);
        let v0: u32 = gvox_exec(lod) as u32;
        proof {
            assert(8 <= v0 * v0 * v0 && v0 * v0 <= 1024 && v0 * v0 * v0 <= 32768)
                by (nonlinear_arith)
                requires 2 <= v0 <= 32;
        }
        let total: u32 = v0 * v0 * v0;
        proof {
            lemma_group_len(self.ids(), lod as int, gx as int, gy as int, gz as int);
            assert(total == group_ids(
                self.ids(),
                lod as int,
                gx as int,
                gy as int,
                gz as int,
            ).len());
        }
        if 2 * air > total {
            return None;
        }
        if !self.low_neighbor_transparent_exec(adj, lod, g, gx, gy, gz, d) {
            return None;
        }
        let solid: u32 = total - air;
        proof {
            assert(1 <= solid) by {
                assert(2 * air <= total && 8 <= total);
            }
            assert(rs / solid <= 255 && gs2 / solid <= 255 && bs / solid <= 255)
                by (nonlinear_arith)
                requires
                    1 <= solid,
                    rs <= 255 * solid,
                    gs2 <= 255 * solid,
                    bs <= 255 * solid,
            ;
        }
        let color = crate::voxel::Color {
            r: (rs / solid) as u8,
            g: (gs2 / solid) as u8,
            b: (bs / solid) as u8,
        };
        Some(LowFace { x: gx as u8, y: gy as u8, z: gz as u8, dir: d, color })
    }

    /// Air count and per-channel color sums of one group.
    fn group_stats(&self, lod: u32, g: usize, gx: usize, gy: usize, gz: usize) -> (r: (
        u32,
        u32,
        u32,
        u32,
    ))
        requires
            self.wf(),
            1 <= lod <= 5,
            g == gside(lod as int),
            gx < g && gy < g && gz < g,
        ensures
            ({
                let s = group_ids(self.ids(), lod as int, gx as int, gy as int, gz as int);
                &&& r.0 == air_of(s) && r.1 == csum_of(s, 0) && r.2 == csum_of(s, 1) && r.3
                    == csum_of(s, 2)
                &&& r.0 <= s.len()
                &&& r.1 <= 255 * (s.len() - r.0) && r.2 <= 255 * (s.len() - r.0) && r.3 <= 255 * (
                s.len() - r.0)
            }),
    {
        let v: usize = gvox_exec(lod);
        let ghost s = group_ids(self.ids(), lod as int, gx as int, gy as int, gz as int);
        proof {
            lemma_group_len(self.ids(), lod as int, gx as int, gy as int, gz as int);
        }
        let mut air: u32 = 0;
        let mut rs: u32 = 0;
        let mut gs2: u32 = 0;
        let mut bs: u32 = 0;
        let mut j: usize = 0;
        while j < v * v * v
            invariant
                self.wf(),
                1 <= lod <= 5,
                g == gside(lod as int),
                v == gvox(lod as int),
                gx < g && gy < g && gz < g,
                s == group_ids(self.ids(), lod as int, gx as int, gy as int, gz as int),
                s.len() == v * v * v <= 32768,
                j <= v * v * v,
                air == air_of(s.take(j as int)),
                rs == csum_of(s.take(j as int), 0),
                gs2 == csum_of(s.take(j as int), 1),
                bs == csum_of(s.take(j as int), 2),
                air <= j && rs <= 255 * (j - air) && gs2 <= 255 * (j - air) && bs <= 255 * (j
                    - air),
            decreases v * v * v - j,
        {
            let jx: usize = j % v;
            let jy: usize = (j / v) % v;
            let jz: usize = j / (v * v);
            proof {
                lemma_gidx(v as int, j as int);
                lemma_group_cell(
                    self.ids(),
                    lod as int,
                    gx as int,
                    gy as int,
                    gz as int,
                    j as int,
                );
                assert(s.take(j + 1).drop_last() =~= s.take(j as int));
                assert(s.take(j + 1).last() == s[j as int]);
            }
            let lx: usize = gx * v + jx;
            let ly: usize = gy * v + jy;
            let lz: usize = gz * v + jz;
            let l: usize = lx + 32 * ly + 1024 * lz;
            let id = self.id_at(l);
            if id == AIR_ID {
                air = air + 1;
            } else {
                let data = crate::voxel::voxel_data(id);
                rs = rs + data.color.r as u32;
                gs2 = gs2 + data.color.g as u32;
                bs = bs + data.color.b as u32;
            }
            j += 1;
        }
        proof {
            assert(s.take((v * v * v) as int) =~= s);
        }
        (air, rs, gs2, bs)
    }

    /// Whether the neighbor group in direction `d` is transparent.
    fn low_neighbor_transparent_exec(
        &self,
        adj: &ChunkAdj<'_>,
        lod: u32,
        g: usize,
        gx: usize,
        gy: usize,
        gz: usize,
        d: u8,
    ) -> (r: bool)
        requires
            self.wf(),
            adj.wf(),
            1 <= lod <= 5,
            g == gside(lod as int),
            gx < g && gy < g && gz < g,
            d < 6,
        ensures
            r == low_neighbor_transparent(
                self.ids(),
                adj.ids_view(),
                lod as int,
                gx as int,
                gy as int,
                gz as int,
                d as int,
            ),
    {
        let o = offset_of(d);
        let nx: i32 = gx as i32 + o.0;
        let ny: i32 = gy as i32 + o.1;
        let nz: i32 = gz as i32 + o.2;
        let gi: i32 = g as i32;
        if 0 <= nx && nx < gi && 0 <= ny && ny < gi && 0 <= nz && nz < gi {
            let (air, _, _, _) = self.group_stats(lod, g, nx as usize, ny as usize, nz as usize);
            let v0: u32 = gvox_exec(lod) as u32;
            proof {
                assert(v0 * v0 <= 1024 && v0 * v0 * v0 <= 32768) by (nonlinear_arith)
                    requires 2 <= v0 <= 32;
            }
            let total: u32 = v0 * v0 * v0;
            proof {
                lemma_group_len(self.ids(), lod as int, nx as int, ny as int, nz as int);
            }
            2 * air > total
        } else {
            match adj.get_side(d) {
                None => true,
                Some(c) => {
                    if !c.is_generated() {
                        true
                    } else {
                        let wx: usize = wrapg_exec(nx, g);
                        let wy: usize = wrapg_exec(ny, g);
                        let wz: usize = wrapg_exec(nz, g);
                        let (air, _, _, _) = c.group_stats(lod, g, wx, wy, wz);
                        let v0: u32 = gvox_exec(lod) as u32;
                        proof {
                            assert(v0 * v0 <= 1024 && v0 * v0 * v0 <= 32768) by (nonlinear_arith)
                                requires 2 <= v0 <= 32;
                        }
                        let total: u32 = v0 * v0 * v0;
                        proof {
                            lemma_group_len(c.ids(), lod as int, wx as int, wy as int, wz as int);
                        }
                        2 * air > total
                    }
                },
            }
        }
    }
}

fn gvox_exec(lod: u32) -> (r: usize)
    requires
        1 <= lod <= 5,
    ensures
        r == gvox(lod as int),
        2 <= r <= 32,
{
    match lod {
        1 => 2,
        2 => 4,
        3 => 8,
        4 => 16,
        _ => 32,
    }
}

fn wrapg_exec(x: i32, g: usize) -> (r: usize)
    requires
        1 <= g <= 16,
        -1 <= x <= g,
    ensures
        r == wrapg(x as int, g as int),
        r < g,
{
    if x < 0 {
        (x + g as i32) as usize
    } else if x >= g as i32 {
        (x - g as i32) as usize
    } else {
        x as usize
    }
}

/// A flattened base-`v` index decomposes into its three digits.
proof fn lemma_gidx(v: int, j: int)
    requires
        1 <= v,
        0 <= j < v * v * v,
    ensures
        0 <= j % v < v,
        0 <= (j / v) % v < v,
        0 <= j / (v * v) < v,
        j == (j % v) + v * ((j / v) % v) + (v * v) * (j / (v * v)),
{
    let jx = j % v;
    let q = j / v;
    assert(j == q * v + jx && 0 <= jx < v) by (nonlinear_arith)
        requires 1 <= v && 0 <= j && q == j / v && jx == j % v;
    let jy = q % v;
    let jz = q / v;
    assert(q == jz * v + jy && 0 <= jy < v) by (nonlinear_arith)
        requires 1 <= v && 0 <= q && jz == q / v && jy == q % v;
    assert(j / (v * v) == jz) by {
        vstd::arithmetic::div_mod::lemma_div_denominator(j, v, v);
    }
    assert(0 <= jz && jz < v) by (nonlinear_arith)
        requires
            0 <= j < v * v * v,
            j == (jz * v + jy) * v + jx,
            0 <= jx < v,
            0 <= jy < v,
            1 <= v;
    assert(j == jx + v * jy + (v * v) * jz) by (nonlinear_arith)
        requires j == (jz * v + jy) * v + jx;
}

/// A group's id string has one entry per voxel of the `2^lod` cube.
proof fn lemma_group_len(ids: Seq<u16>, lod: int, gx: int, gy: int, gz: int)
    requires
        1 <= lod <= 5,
    ensures
        group_ids(ids, lod, gx, gy, gz).len() == gvox(lod) * gvox(lod) * gvox(lod),
        8 <= group_ids(ids, lod, gx, gy, gz).len() <= 32768,
{
    let v = gvox(lod);
    assert(8 <= v * v * v <= 32768) by (nonlinear_arith)
        requires 2 <= v <= 32;
}

/// Each entry of a group's id string is the chunk id at the matching
/// voxel.
proof fn lemma_group_cell(ids: Seq<u16>, lod: int, gx: int, gy: int, gz: int, j: int)
    requires
        1 <= lod <= 5,
        0 <= gx < gside(lod) && 0 <= gy < gside(lod) && 0 <= gz < gside(lod),
        0 <= j < gvox(lod) * gvox(lod) * gvox(lod),
    ensures
        ({
            let v = gvox(lod);
            let lx = gx * v + j % v;
            let ly = gy * v + (j / v) % v;
            let lz = gz * v + j / (v * v);
            &&& 0 <= lx < 32 && 0 <= ly < 32 && 0 <= lz < 32
            &&& group_ids(ids, lod, gx, gy, gz)[j] == ids[lidx_of(lx, ly, lz)]
            &&& 0 <= lidx_of(lx, ly, lz) < 32768
        }),
{
    let v = gvox(lod);
    lemma_gidx(v, j);
    assert(0 <= gx * v + j % v < 32 && 0 <= gy * v + (j / v) % v < 32 && 0 <= gz * v + j / (v * v)
        < 32) by (nonlinear_arith)
        requires
            0 <= gx < gside(lod) && 0 <= gy < gside(lod) && 0 <= gz < gside(lod),
            0 <= j % v < v && 0 <= (j / v) % v < v && 0 <= j / (v * v) < v,
            v == gvox(lod),
            gside(lod) * gvox(lod) == 32,
    ;
    lemma_lidx(gx * v + j % v, gy * v + (j / v) % v, gz * v + j / (v * v));
}

/// Channel sums stay below one byte per voxel.
proof fn lemma_csum_bound(s: Seq<u16>, channel: int)
    ensures
        0 <= csum_of(s, channel) <= 255 * s.len(),
        0 <= air_of(s) <= s.len(),
    decreases s.len(),
{
    if s.len() > 0 {
        lemma_csum_bound(s.drop_last(), channel);
    }
}

} // verus!
