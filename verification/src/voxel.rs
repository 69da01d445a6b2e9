//! Voxel identity, the static voxel-data table, and the voxel byte layout.

use vstd::prelude::*;

use crate::bytes::{le_bytes, le_val, lemma_le_bytes_len, lemma_le_roundtrip, pow256, push_le,
    read_le};
use crate::math::Int3;

verus! {

/// Identifier of a voxel kind: an index into the static voxel-data table.
/// Id 0 is air.
pub type Id = u16;

pub const AIR_ID: u16 = 0;

pub const STONE_ID: u16 = 1;

pub const GRASS_ID: u16 = 2;

pub const LOG_ID: u16 = 3;

/// Number of records in the static voxel-data table.
pub const VOXEL_DATA_LEN: u16 = 4;

/// A color with 8-bit channels.
#[derive(Clone, Copy, Debug, PartialEq, Eq, Structural, Hash)]
pub struct Color {
    pub r: u8,
    pub g: u8,
    pub b: u8,
}

/// One record of the static voxel-data table: everything per-kind behavior
/// needs. Voxels themselves carry only the id.
#[derive(Clone, Copy, Debug, PartialEq, Eq, Structural)]
pub struct VoxelData {
    pub id: u16,
    pub transparent: bool,
    pub color: Color,
    pub texture_tile: u32,
}

pub open spec fn is_id_valid_spec(id: u16) -> bool {
    id < VOXEL_DATA_LEN
}

/// Whether `id` indexes a record of the static voxel-data table.
pub fn is_id_valid(id: u16) -> (r: bool)
    ensures
        r == is_id_valid_spec(id),
{
    id < VOXEL_DATA_LEN
}

pub open spec fn voxel_data_spec(id: u16) -> VoxelData {
    if id == STONE_ID {
        VoxelData {
            id: STONE_ID,
            transparent: false,
            color: Color { r: 127u8, g: 127u8, b: 127u8 },
            texture_tile: 1u32,
        }
    } else if id == GRASS_ID {
        VoxelData {
            id: GRASS_ID,
            transparent: false,
            color: Color { r: 64u8, g: 142u8, b: 52u8 },
            texture_tile: 2u32,
        }
    } else if id == LOG_ID {
        VoxelData {
            id: LOG_ID,
            transparent: false,
            color: Color { r: 110u8, g: 82u8, b: 48u8 },
            texture_tile: 3u32,
        }
    } else {
        VoxelData {
            id: AIR_ID,
            transparent: true,
            color: Color { r: 0u8, g: 0u8, b: 0u8 },
            texture_tile: 0u32,
        }
    }
}

/// The static voxel-data record behind `id`.
pub fn voxel_data(id: u16) -> (r: VoxelData)
    requires
        is_id_valid_spec(id),
    ensures
        r == voxel_data_spec(id),
        r.id == id,
{
    if id == STONE_ID {
        VoxelData {
            id: STONE_ID,
            transparent: false,
            color: Color { r: 127, g: 127, b: 127 },
            texture_tile: 1,
        }
    } else if id == GRASS_ID {
        VoxelData {
            id: GRASS_ID,
            transparent: false,
            color: Color { r: 64, g: 142, b: 52 },
            texture_tile: 2,
        }
    } else if id == LOG_ID {
        VoxelData {
            id: LOG_ID,
            transparent: false,
            color: Color { r: 110, g: 82, b: 48 },
            texture_tile: 3,
        }
    } else {
        VoxelData { id: AIR_ID, transparent: true, color: Color { r: 0, g: 0, b: 0 }, texture_tile: 0 }
    }
}

/// A voxel: a global position paired with the id of its record in the
/// static voxel-data table.
#[derive(Clone, Copy, Debug, PartialEq, Eq, Structural)]
pub struct Voxel {
    pub pos: Int3,
    pub id: u16,
}

/// Reading bytes back as a value found them damaged.
#[derive(Clone, Copy, Debug, PartialEq, Eq, Structural)]
pub enum ReinterpretError {
    /// The byte string is shorter than the layout asks for.
    Truncated,
    /// A field holds a value the layout does not allow.
    InvalidData,
}

/// A signed coordinate shifted into the unsigned 32-bit range, the form in
/// which coordinates are written to bytes.
pub open spec fn biased(x: i32) -> int {
    x + 0x8000_0000
}

/// The 14-byte layout of a voxel: the id, then the three biased
/// little-endian coordinates.
pub open spec fn voxel_bytes(v: Voxel) -> Seq<u8> {
    le_bytes(v.id as int, 2) + le_bytes(biased(v.pos.x), 4) + le_bytes(biased(v.pos.y), 4)
        + le_bytes(biased(v.pos.z), 4)
}

impl Voxel {
    pub fn new(position: Int3, id: u16) -> (r: Voxel)
        ensures
            r == (Voxel { pos: position, id }),
    {
        Voxel { pos: position, id }
    }

    pub fn is_air(&self) -> (r: bool)
        ensures
            r == (self.id == AIR_ID),
    {
        self.id == AIR_ID
    }

    /// The static voxel-data record of this voxel.
    pub fn data(&self) -> (r: VoxelData)
        requires
            is_id_valid_spec(self.id),
        ensures
            r == voxel_data_spec(self.id),
    {
        voxel_data(self.id)
    }

    /// Writes the voxel in its 14-byte layout.
    pub fn as_bytes(&self) -> (r: Vec<u8>)
        ensures
            r@ == voxel_bytes(*self),
    {
        let mut out: Vec<u8> = Vec::new();
        proof {
            lemma_pow256_small();
        }
        push_le(&mut out, self.id as u64, 2);
        push_le(&mut out, (self.pos.x as i64 + 0x8000_0000i64) as u64, 4);
        push_le(&mut out, (self.pos.y as i64 + 0x8000_0000i64) as u64, 4);
        push_le(&mut out, (self.pos.z as i64 + 0x8000_0000i64) as u64, 4);
        proof {
            assert(out@ =~= voxel_bytes(*self));
        }
        out
    }

    /// Reads a voxel back from its 14-byte layout. Fails when the string is
    /// not exactly 14 bytes or the id is not in the static table.
    pub fn from_bytes(source: &Vec<u8>) -> (r: Result<Voxel, ReinterpretError>)
        ensures
            match r {
                Ok(v) => {
                    &&& source@.len() == 14
                    &&& is_id_valid_spec(v.id)
                    &&& v.id == le_val(source@.subrange(0, 2))
                    &&& biased(v.pos.x) == le_val(source@.subrange(2, 6))
                    &&& biased(v.pos.y) == le_val(source@.subrange(6, 10))
                    &&& biased(v.pos.z) == le_val(source@.subrange(10, 14))
                },
                Err(ReinterpretError::Truncated) => source@.len() != 14,
                Err(ReinterpretError::InvalidData) => source@.len() == 14 && !is_id_valid_spec(
                    le_val(source@.subrange(0, 2)) as u16,
                ),
            },
    {
        if source.len() != 14 {
            return Err(ReinterpretError::Truncated);
        }
        proof {
            lemma_pow256_small();
            lemma_le_val_small(source@);
        }
        let id: u16 = read_le(source, 0, 2) as u16;
        if !is_id_valid(id) {
            return Err(ReinterpretError::InvalidData);
        }
        let x: i32 = (read_le(source, 2, 4) as i64 - 0x8000_0000i64) as i32;
        let y: i32 = (read_le(source, 6, 4) as i64 - 0x8000_0000i64) as i32;
        let z: i32 = (read_le(source, 10, 4) as i64 - 0x8000_0000i64) as i32;
        Ok(Voxel { pos: Int3 { x, y, z }, id })
    }
}

/// The values of the low powers of 256 that the voxel layout uses.
pub proof fn lemma_pow256_small()
    ensures
        pow256(2) == 0x1_0000,
        pow256(4) == 0x1_0000_0000,
{
    reveal_with_fuel(pow256, 5);
}

/// The fields read back out of a 14-byte voxel string are in range.
proof fn lemma_le_val_small(s: Seq<u8>)
    requires
        s.len() == 14,
    ensures
        0 <= le_val(s.subrange(0, 2)) < 0x1_0000,
        0 <= le_val(s.subrange(2, 6)) < 0x1_0000_0000,
        0 <= le_val(s.subrange(6, 10)) < 0x1_0000_0000,
        0 <= le_val(s.subrange(10, 14)) < 0x1_0000_0000,
{
    crate::bytes::lemma_le_val_bound(s.subrange(0, 2));
    crate::bytes::lemma_le_val_bound(s.subrange(2, 6));
    crate::bytes::lemma_le_val_bound(s.subrange(6, 10));
    crate::bytes::lemma_le_val_bound(s.subrange(10, 14));
    lemma_pow256_small();
}

/// A voxel kind as the low-detail mesher sees it: invisible, or a solid
/// block of one color.
#[derive(Clone, Copy, Debug, PartialEq, Eq, Structural)]
pub enum LoweredVoxel {
    Transparent,
    Colored(Color),
}

} // verus!
