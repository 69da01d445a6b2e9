use voxel_core::chunk::Chunk;
use voxel_core::chunk_array::{desired_lod, ChunkArray, Command, TaskError, TaskRequest};
use voxel_core::logging::{recv_all, scope, LogGuard, Message, MessageQueue, MsgType};
use voxel_core::math::{Int3, USize3};
use voxel_core::space::adj_iter;
use voxel_core::voxel::{AIR_ID, STONE_ID};

fn generated_array(sizes: USize3, id: u16) -> ChunkArray {
    let vol = ChunkArray::volume(sizes);
    let mut chunks: Vec<Chunk> = Vec::new();
    for i in 0..vol {
        let pos = ChunkArray::idx_to_pos(i, sizes);
        chunks.push(Chunk::new_same_filled(pos, id));
    }
    ChunkArray::from_chunks(sizes, chunks)
}

#[test]
fn index_round_trip() {
    let sizes = USize3 { x: 2, y: 3, z: 4 };
    for i in 0..ChunkArray::volume(sizes) {
        let c = ChunkArray::idx_to_coord_idx(i, sizes);
        assert_eq!(ChunkArray::coord_idx_to_idx(sizes, c), i);
        let pos = ChunkArray::coord_idx_to_pos(sizes, c);
        assert_eq!(ChunkArray::pos_to_coord_idx(sizes, pos), Some(c));
        assert_eq!(ChunkArray::pos_to_idx(sizes, pos), Some(i));
    }
    assert_eq!(ChunkArray::pos_to_idx(sizes, Int3::new(5, 0, 0)), None);
}

#[test]
fn adjacency_symmetry() {
    let p = Int3::new(3, -7, 11);
    for q in adj_iter(p) {
        let back = adj_iter(q);
        assert!(back.contains(&p));
    }
}

#[test]
fn validate_sizes_bounds() {
    assert!(ChunkArray::validate_sizes(USize3 { x: 16, y: 16, z: 16 }));
    assert!(ChunkArray::validate_sizes(USize3 { x: 4096, y: 1, z: 1 }));
    assert!(!ChunkArray::validate_sizes(USize3 { x: 17, y: 16, z: 16 }));
    assert!(!ChunkArray::validate_sizes(USize3 { x: 4097, y: 1, z: 1 }));
}

#[test]
fn edit_invalidation_hits_neighbors() {
    let sizes = USize3 { x: 2, y: 1, z: 1 };
    let mut arr = generated_array(sizes, AIR_ID);
    for i in 0..2 {
        arr.chunks[i].upload_full_detail_vertices(0);
        arr.chunks[i].set_active_lod(0);
    }
    let old = arr.set_voxel(Int3::new(31, 0, 0), STONE_ID).unwrap();
    assert_eq!(old, AIR_ID);
    assert_eq!(arr.chunks[0].active_lod, None);
    assert_eq!(arr.chunks[1].active_lod, None);
}

#[test]
fn cross_chunk_edit() {
    let sizes = USize3 { x: 2, y: 1, z: 1 };
    let mut arr = generated_array(sizes, AIR_ID);
    for i in 0..2 {
        arr.chunks[i].upload_full_detail_vertices(0);
        arr.chunks[i].set_active_lod(0);
    }
    // The voxel at x = 31 lies in the +X chunk of the pair (chunk
    // position (0,0,0), linear index 1); its -X neighbor is index 0.
    arr.set_voxel(Int3::new(31, 0, 0), STONE_ID).unwrap();
    assert_eq!(arr.chunks[0].active_lod, None);
    let adj = arr.get_adj_chunks(1);
    let mesh = arr.chunks[1].make_vertices_detailed(&adj);
    assert_eq!(mesh.vertex_count(), 36);
}

#[test]
fn lod_selection() {
    // A chunk whose center sits 12 chunk sides away, with threshold 5.8:
    // min(floor(12 / 5.8), 5) is 2. Distances are in thousandths.
    let dist_sq: u64 = 12_000 * 12_000;
    assert_eq!(desired_lod(dist_sq, 5_800), 2);
    assert_eq!(desired_lod(0, 5_800), 0);
    assert_eq!(desired_lod(1_000_000_000_000, 5_800), 5);
}

#[test]
fn air_cube_renders_empty() {
    let sizes = USize3 { x: 1, y: 1, z: 1 };
    let mut arr = ChunkArray::new(sizes);
    let cam = (500i64, 500i64, 500i64);
    let visible = vec![true];
    let plan = arr.render(cam, &visible);
    assert_eq!(plan.tasks.len(), 1);
    match plan.tasks[0] {
        TaskRequest::GenVoxels { pos } => {
            let ids = Chunk::generate_voxels(pos);
            assert!(ids.iter().all(|&id| id == AIR_ID));
            arr.try_finish_voxels_gen_task(pos, Some(ids)).unwrap();
        }
        _ => panic!("the first tick should ask for voxel generation"),
    }
    let plan2 = arr.render(cam, &visible);
    assert_eq!(plan2.tasks.len(), 1);
    match plan2.tasks[0] {
        TaskRequest::FullMesh { pos } => {
            let adj = arr.get_adj_chunks(0);
            let mesh = arr.chunks[0].make_vertices_detailed(&adj);
            let vc = mesh.faces.len() * 6;
            assert_eq!(vc, 0);
            arr.try_finish_full_mesh_task(pos, Some(vc)).unwrap();
        }
        _ => panic!("the second tick should ask for the full mesh"),
    }
    let plan3 = arr.render(cam, &visible);
    assert_eq!(arr.chunks[0].active_lod, Some(0));
    assert_eq!(plan3.draws.len(), 1);
    assert_eq!(plan3.draws[0].lod, 0);
    assert!(arr.chunks[0].meshes[0].unwrap().is_empty());
}

#[test]
fn task_saturation() {
    let sizes = USize3 { x: 100, y: 1, z: 1 };
    let mut arr = ChunkArray::new(sizes);
    arr.max_tasks = 4;
    let cam = (0i64, 0i64, 0i64);
    let visible = vec![true; 100];
    let mut ticks = 0;
    loop {
        let plan = arr.render(cam, &visible);
        assert!(arr.in_flight() <= 4);
        for req in plan.tasks.iter() {
            match *req {
                TaskRequest::GenVoxels { pos } => {
                    let ids = Chunk::generate_voxels(pos);
                    arr.try_finish_voxels_gen_task(pos, Some(ids)).unwrap();
                }
                TaskRequest::FullMesh { pos } => {
                    arr.try_finish_full_mesh_task(pos, Some(0)).unwrap();
                }
                TaskRequest::LowMesh { pos, lod } => {
                    arr.try_finish_low_mesh_task(pos, lod, Some(0)).unwrap();
                }
            }
            assert!(arr.in_flight() <= 4);
        }
        let all_generated = arr.chunks.iter().all(|c| c.is_generated());
        if all_generated {
            break;
        }
        ticks += 1;
        assert!(ticks < 200, "generation should make progress every tick");
    }
}

#[test]
fn task_bookkeeping_errors() {
    let sizes = USize3 { x: 1, y: 1, z: 1 };
    let mut arr = ChunkArray::new(sizes);
    let pos = ChunkArray::idx_to_pos(0, sizes);
    assert!(matches!(
        arr.try_finish_voxels_gen_task(pos, None),
        Err(TaskError::TaskNotFound { .. })
    ));
    arr.start_task_gen_voxels(0);
    assert!(arr.is_voxels_gen_task_running(0));
    assert_eq!(arr.try_finish_voxels_gen_task(pos, None), Err(TaskError::TaskNotReady));
    arr.drop_tasks();
    assert!(!arr.is_voxels_gen_task_running(0));
    assert!(!arr.any_task_running());
}

#[test]
fn save_load_round_trip() {
    let sizes = USize3 { x: 2, y: 1, z: 2 };
    let mut arr = generated_array(sizes, AIR_ID);
    let stone_pos = ChunkArray::idx_to_pos(1, sizes);
    arr.chunks[1] = Chunk::new_same_filled(stone_pos, STONE_ID);
    arr.set_voxel(Int3::new(0, 0, 0), STONE_ID).unwrap();
    arr.set_voxel(Int3::new(3, 9, 2), STONE_ID).unwrap();
    let bytes = arr.save_to_file().unwrap();
    let (sizes2, contents) = ChunkArray::read_from_file(&bytes).unwrap();
    assert_eq!(sizes2, sizes);
    let mut arr2 = ChunkArray::new_empty();
    arr2.apply_new(sizes2, contents);
    for i in 0..ChunkArray::volume(sizes) {
        for l in (0..32768).step_by(97) {
            assert_eq!(arr2.chunks[i].id_at(l), arr.chunks[i].id_at(l));
        }
    }
    let v = arr2.get_voxel(Int3::new(3, 9, 2)).unwrap();
    assert_eq!(v.id, STONE_ID);
}

#[test]
fn save_rejects_damage() {
    let sizes = USize3 { x: 1, y: 1, z: 1 };
    let arr = generated_array(sizes, STONE_ID);
    let mut bytes = arr.save_to_file().unwrap();
    bytes.pop();
    assert!(ChunkArray::read_from_file(&bytes).is_err());
    assert!(ChunkArray::read_from_file(&vec![0u8; 10]).is_err());
}

#[test]
fn commands_apply_in_order() {
    let sizes = USize3 { x: 1, y: 1, z: 1 };
    let mut arr = generated_array(sizes, AIR_ID);
    let cmds = vec![
        Command::SetVoxel { pos: Int3::new(1, 1, 1), new_id: STONE_ID },
        Command::FillVoxels {
            pos_from: Int3::new(4, 0, 0),
            pos_to: Int3::new(6, 2, 1),
            new_id: STONE_ID,
        },
        Command::SetVoxel { pos: Int3::new(1, 1, 1), new_id: AIR_ID },
    ];
    arr.process_commands(cmds);
    assert_eq!(arr.get_voxel(Int3::new(1, 1, 1)).unwrap().id, AIR_ID);
    assert_eq!(arr.get_voxel(Int3::new(4, 0, 0)).unwrap().id, STONE_ID);
    assert_eq!(arr.get_voxel(Int3::new(5, 1, 0)).unwrap().id, STONE_ID);
    assert_eq!(arr.get_voxel(Int3::new(6, 0, 0)).unwrap().id, AIR_ID);
}

#[test]
fn first_solid_picks_earliest_sample() {
    let sizes = USize3 { x: 1, y: 1, z: 1 };
    let mut arr = generated_array(sizes, AIR_ID);
    arr.set_voxel(Int3::new(7, 0, 0), STONE_ID).unwrap();
    arr.set_voxel(Int3::new(9, 0, 0), STONE_ID).unwrap();
    let samples = vec![
        Int3::new(2, 0, 0),
        Int3::new(7, 0, 0),
        Int3::new(9, 0, 0),
    ];
    let hit = arr.first_solid(&samples).unwrap();
    assert_eq!(hit.pos, Int3::new(7, 0, 0));
    let miss = arr.first_solid(&vec![Int3::new(0, 0, 0)]);
    assert!(miss.is_none());
}

#[test]
fn log_queue_keeps_order() {
    let mut q = MessageQueue::new();
    let m1 = Message {
        content: String::from("hello"),
        from: String::from("driver"),
        msg_type: MsgType::Info,
    };
    let m2 = Message {
        content: String::from("oops"),
        from: String::from("driver"),
        msg_type: MsgType::Error,
    };
    recv_all(&mut q, vec![m1]);
    recv_all(&mut q, vec![m2]);
    assert_eq!(q.messages.len(), 2);
    assert_eq!(q.messages[0].content, "hello");
    assert_eq!(q.messages[1].msg_type, MsgType::Error);
}

#[test]
fn log_scope_writes_paired_messages() {
    let mut q = MessageQueue::new();
    let g: LogGuard = scope(&mut q, String::from("chunk array"), String::from("saving"));
    assert_eq!(g.from, "chunk array");
    assert_eq!(g.work, "saving");
    assert_eq!(q.messages.len(), 1);
    assert_eq!(q.messages[0].content, "start saving.");
    assert_eq!(q.messages[0].msg_type, MsgType::Info);
    g.finish(&mut q);
    assert_eq!(q.messages.len(), 2);
    assert_eq!(q.messages[1].content, "end saving.");
}

#[test]
fn stale_active_level_refits_to_nearest() {
    // One generated chunk with levels 0 and 4 cached and level 0 active;
    // a camera 20 chunk sides away asks for level 3, which is absent, so
    // the driver re-fits to the nearest cached level: 4.
    let sizes = USize3 { x: 1, y: 1, z: 1 };
    let mut arr = generated_array(sizes, STONE_ID);
    arr.chunks[0].upload_full_detail_vertices(36);
    arr.chunks[0].upload_low_detail_vertices(6, 4);
    arr.chunks[0].set_active_lod(0);
    let cam = (20_500i64, 500i64, 500i64);
    let visible = vec![true];
    let _plan = arr.render(cam, &visible);
    assert_eq!(arr.chunks[0].active_lod, Some(4));
}

#[test]
fn at_most_one_save_in_flight() {
    let sizes = USize3 { x: 1, y: 1, z: 1 };
    let mut arr = generated_array(sizes, STONE_ID);
    assert!(arr.begin_save());
    assert!(!arr.begin_save());
    assert!(!arr.can_start_tasks());
    arr.end_save();
    assert!(arr.begin_save());
    arr.end_save();
}

#[test]
fn fill_across_chunks_changes_both() {
    let sizes = USize3 { x: 2, y: 1, z: 1 };
    let mut arr = generated_array(sizes, AIR_ID);
    let changed = arr
        .fill_voxels(Int3::new(-2, 0, 0), Int3::new(2, 1, 1), STONE_ID)
        .unwrap();
    assert!(changed);
    assert_eq!(arr.get_voxel(Int3::new(-1, 0, 0)).unwrap().id, STONE_ID);
    assert_eq!(arr.get_voxel(Int3::new(1, 0, 0)).unwrap().id, STONE_ID);
    assert_eq!(arr.get_voxel(Int3::new(2, 0, 0)).unwrap().id, AIR_ID);
    let again = arr
        .fill_voxels(Int3::new(-2, 0, 0), Int3::new(2, 1, 1), STONE_ID)
        .unwrap();
    assert!(!again);
}

#[test]
fn generated_fill_matches_height_rule() {
    let ids = Chunk::generate_voxels(Int3::new(0, -1, 0));
    let chunk = Chunk::from_voxels(ids, Int3::new(0, -1, 0));
    assert!(chunk.is_generated());
    assert_eq!(chunk.id_at(0), STONE_ID);
}
