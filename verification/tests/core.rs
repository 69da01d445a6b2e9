use voxel_core::bytes::{pack_bits, push_le, read_le, unpack_bits};
use voxel_core::chunk::{Chunk, ChunkOption, EditError, FillType};
use voxel_core::codec::{decode_chunk, encode_chunk};
use voxel_core::math::Int3;
use voxel_core::mesh::Mesh;
use voxel_core::meshing::ChunkAdj;
use voxel_core::voxel::{ReinterpretError, Voxel, AIR_ID, LOG_ID, STONE_ID};

#[test]
fn reinterpret_voxel1() {
    let before = Voxel::new(Int3::new(123, 4212, 11), STONE_ID);
    let after = Voxel::from_bytes(&before.as_bytes()).unwrap();
    assert_eq!(before, after);
}

#[test]
fn reinterpret_voxel2() {
    let before = Voxel::new(Int3::new(-213, 4212, 11), LOG_ID);
    let after = Voxel::from_bytes(&before.as_bytes()).unwrap();
    assert_eq!(before, after);
}

#[test]
fn voxel_from_bytes_rejects_damage() {
    let v = Voxel::new(Int3::new(1, 2, 3), STONE_ID);
    let mut b = v.as_bytes();
    b.pop();
    assert_eq!(Voxel::from_bytes(&b), Err(ReinterpretError::Truncated));
    let mut bad = v.as_bytes();
    bad[0] = 0xff;
    bad[1] = 0xff;
    assert_eq!(Voxel::from_bytes(&bad), Err(ReinterpretError::InvalidData));
}

#[test]
fn le_field_round_trip() {
    let mut out: Vec<u8> = Vec::new();
    push_le(&mut out, 0xdead_beef_0042, 8);
    push_le(&mut out, 777, 2);
    assert_eq!(out.len(), 10);
    assert_eq!(read_le(&out, 0, 8), 0xdead_beef_0042);
    assert_eq!(read_le(&out, 8, 2), 777);
}

#[test]
fn bit_packing_round_trip() {
    let bits = vec![true, false, false, true, true, true, false, true, true, false, true];
    let packed = pack_bits(&bits);
    assert_eq!(packed.len(), 2);
    let unpacked = unpack_bits(&packed, bits.len());
    assert_eq!(unpacked, bits);
}

#[test]
fn fill_collapse_reads_without_array() {
    let chunk = Chunk::new_same_filled(Int3::new(0, 0, 0), STONE_ID);
    assert_eq!(chunk.voxel_ids.len(), 0);
    match chunk.get_voxel_global(Int3::new(17, 3, 29)) {
        ChunkOption::Item(v) => assert_eq!(v.id, STONE_ID),
        ChunkOption::OutsideChunk => panic!("position is inside the chunk"),
    }
    match chunk.get_voxel_global(Int3::new(32, 0, 0)) {
        ChunkOption::Item(_) => panic!("position is outside the chunk"),
        ChunkOption::OutsideChunk => {}
    }
}

#[test]
fn edit_idempotence() {
    let mut chunk = Chunk::new_same_filled(Int3::new(0, 0, 0), AIR_ID);
    let p = Int3::new(5, 6, 7);
    let first = chunk.set_voxel(p, STONE_ID).unwrap();
    assert_eq!(first, AIR_ID);
    let snapshot_fill = chunk.fill_type;
    let snapshot_ids = chunk.voxel_ids.clone();
    let second = chunk.set_voxel(p, STONE_ID).unwrap();
    assert_eq!(second, STONE_ID);
    assert_eq!(chunk.fill_type, snapshot_fill);
    assert_eq!(chunk.voxel_ids, snapshot_ids);
}

#[test]
fn set_voxel_error_variants() {
    let mut chunk = Chunk::new_same_filled(Int3::new(0, 0, 0), AIR_ID);
    assert_eq!(chunk.set_voxel(Int3::new(0, 0, 0), 999), Err(EditError::InvalidId(999)));
    assert_eq!(
        chunk.set_voxel(Int3::new(-1, 0, 0), STONE_ID),
        Err(EditError::PosIdConversion(Int3::new(-1, 0, 0)))
    );
}

#[test]
fn edit_drops_meshes() {
    let mut chunk = Chunk::new_same_filled(Int3::new(0, 0, 0), AIR_ID);
    chunk.upload_full_detail_vertices(36);
    chunk.set_active_lod(0);
    assert!(chunk.can_render_active_lod());
    chunk.set_voxel(Int3::new(1, 1, 1), STONE_ID).unwrap();
    assert_eq!(chunk.active_lod, None);
    assert!(chunk.meshes.iter().all(|m| m.is_none()));
}

#[test]
fn deterministic_generation() {
    let pos = Int3::new(-2, -1, 3);
    let a = Chunk::generate_voxels(pos);
    let b = Chunk::generate_voxels(pos);
    assert_eq!(a, b);
    assert_eq!(a.len(), 32768);
}

#[test]
fn generator_fills_below_ground() {
    let below = Chunk::generate_voxels(Int3::new(0, -2, 0));
    assert!(below.iter().all(|&id| id == STONE_ID));
    let above = Chunk::generate_voxels(Int3::new(0, 0, 0));
    assert!(above.iter().all(|&id| id == AIR_ID));
}

#[test]
fn codec_round_trip_all_same() {
    let chunk = Chunk::new_same_filled(Int3::new(1, 2, 3), STONE_ID);
    let blob = encode_chunk(&chunk);
    assert_eq!(blob.len(), 3);
    let (ids, ft) = decode_chunk(&blob).unwrap();
    assert_eq!(ft, FillType::AllSame(STONE_ID));
    assert_eq!(ids.len(), 0);
}

#[test]
fn codec_round_trip_mixed() {
    let mut chunk = Chunk::new_same_filled(Int3::new(0, 0, 0), AIR_ID);
    chunk.set_voxel(Int3::new(0, 0, 0), STONE_ID).unwrap();
    chunk.set_voxel(Int3::new(9, 20, 3), LOG_ID).unwrap();
    let blob = encode_chunk(&chunk);
    let (ids, ft) = decode_chunk(&blob).unwrap();
    assert_eq!(ft, FillType::Default);
    assert_eq!(ids, chunk.voxel_ids);
}

#[test]
fn codec_round_trip_uniform_dense() {
    let chunk = Chunk::from_voxels(vec![LOG_ID; 32768], Int3::new(0, 0, 0));
    let blob = encode_chunk(&chunk);
    let (ids, ft) = decode_chunk(&blob).unwrap();
    assert_eq!(ft, FillType::Default);
    assert_eq!(ids, vec![LOG_ID; 32768]);
}

#[test]
fn codec_rejects_damage() {
    assert_eq!(decode_chunk(&vec![]), Err(ReinterpretError::Truncated));
    assert!(decode_chunk(&vec![7u8, 0, 0]).is_err());
    let chunk = Chunk::new_same_filled(Int3::new(0, 0, 0), STONE_ID);
    let mut blob = encode_chunk(&chunk);
    blob.pop();
    assert_eq!(decode_chunk(&blob), Err(ReinterpretError::Truncated));
}

#[test]
fn single_stone_block_has_36_vertices() {
    let mut chunk = Chunk::new_same_filled(Int3::new(0, 0, 0), AIR_ID);
    chunk.set_voxel(Int3::new(0, 0, 0), STONE_ID).unwrap();
    let mesh = chunk.make_vertices_detailed(&ChunkAdj::empty());
    assert_eq!(mesh.faces.len(), 6);
    assert_eq!(mesh.vertex_count(), 36);
}

#[test]
fn air_chunk_mesh_is_empty() {
    let chunk = Chunk::new_same_filled(Int3::new(0, 0, 0), AIR_ID);
    let mesh = chunk.make_vertices_detailed(&ChunkAdj::empty());
    assert_eq!(mesh.vertex_count(), 0);
}

#[test]
fn walled_in_uniform_chunk_exposes_nothing() {
    let center = Chunk::new_same_filled(Int3::new(0, 0, 0), STONE_ID);
    let px = Chunk::new_same_filled(Int3::new(1, 0, 0), STONE_ID);
    let nx = Chunk::new_same_filled(Int3::new(-1, 0, 0), STONE_ID);
    let py = Chunk::new_same_filled(Int3::new(0, 1, 0), STONE_ID);
    let ny = Chunk::new_same_filled(Int3::new(0, -1, 0), STONE_ID);
    let pz = Chunk::new_same_filled(Int3::new(0, 0, 1), STONE_ID);
    let nz = Chunk::new_same_filled(Int3::new(0, 0, -1), STONE_ID);
    let adj = ChunkAdj {
        plus_x: Some(&px),
        minus_x: Some(&nx),
        plus_y: Some(&py),
        minus_y: Some(&ny),
        plus_z: Some(&pz),
        minus_z: Some(&nz),
    };
    let mesh = center.make_vertices_detailed(&adj);
    assert_eq!(mesh.vertex_count(), 0);
}

#[test]
fn best_fit_prefers_nearest_then_lower() {
    let mut chunk = Chunk::new_same_filled(Int3::new(0, 0, 0), STONE_ID);
    chunk.upload_full_detail_vertices(10);
    chunk.upload_low_detail_vertices(4, 3);
    chunk.try_set_best_fit_lod(2);
    assert_eq!(chunk.active_lod, Some(3));
    let mut tie = Chunk::new_same_filled(Int3::new(0, 0, 0), STONE_ID);
    tie.upload_low_detail_vertices(4, 1);
    tie.upload_low_detail_vertices(4, 3);
    tie.try_set_best_fit_lod(2);
    assert_eq!(tie.active_lod, Some(1));
}

#[test]
fn best_fit_with_empty_cache_stays_none() {
    let mut chunk = Chunk::new_same_filled(Int3::new(0, 0, 0), STONE_ID);
    chunk.try_set_best_fit_lod(2);
    assert_eq!(chunk.active_lod, None);
}

#[test]
fn mesh_handle_emptiness() {
    let m = Mesh::new(0);
    assert!(m.is_empty());
    let m2 = Mesh::new(36);
    assert!(!m2.is_empty());
}

#[test]
fn fill_voxels_intersects_chunk() {
    let mut chunk = Chunk::new_same_filled(Int3::new(0, 0, 0), AIR_ID);
    let changed = chunk.fill_voxels(Int3::new(-5, 0, 0), Int3::new(2, 2, 1), STONE_ID).unwrap();
    assert!(changed);
    for x in 0..2 {
        for y in 0..2 {
            match chunk.get_voxel_global(Int3::new(x, y, 0)) {
                ChunkOption::Item(v) => assert_eq!(v.id, STONE_ID),
                ChunkOption::OutsideChunk => panic!("inside"),
            }
        }
    }
    match chunk.get_voxel_global(Int3::new(2, 0, 0)) {
        ChunkOption::Item(v) => assert_eq!(v.id, AIR_ID),
        ChunkOption::OutsideChunk => panic!("inside"),
    }
    let again = chunk.fill_voxels(Int3::new(-5, 0, 0), Int3::new(2, 2, 1), STONE_ID).unwrap();
    assert!(!again);
}

#[test]
fn low_mesh_of_solid_cube_at_coarsest_level() {
    let chunk = Chunk::new_same_filled(Int3::new(0, 0, 0), STONE_ID);
    let mesh = chunk.make_vertices_low(&ChunkAdj::empty(), 5);
    assert_eq!(mesh.lod, 5);
    assert_eq!(mesh.faces.len(), 6);
    assert_eq!(mesh.vertex_count(), 36);
    let face = mesh.faces[0];
    assert_eq!((face.color.r, face.color.g, face.color.b), (127, 127, 127));
}

#[test]
fn low_mesh_of_air_is_empty() {
    let chunk = Chunk::new_same_filled(Int3::new(0, 0, 0), AIR_ID);
    let mesh = chunk.make_vertices_low(&ChunkAdj::empty(), 1);
    assert_eq!(mesh.vertex_count(), 0);
}

#[test]
fn low_mesh_drops_minority_solids() {
    let mut chunk = Chunk::new_same_filled(Int3::new(0, 0, 0), AIR_ID);
    chunk.set_voxel(Int3::new(0, 0, 0), STONE_ID).unwrap();
    let mesh = chunk.make_vertices_low(&ChunkAdj::empty(), 1);
    assert_eq!(mesh.vertex_count(), 0);
}
