use std::sync::Arc;
use voxel_terrain::chunk::ChunkData;
use voxel_terrain::math::IVec3;
use voxel_terrain::scanner::{make_offset_vec, scan_data, scan_data_unload, scan_mesh, scan_mesh_unload, Scanner};
use voxel_terrain::voxel::{BlockData, BlockType};
use voxel_terrain::voxel_engine::{
    join_data, join_mesh, start_data_tasks, start_mesh_tasks, start_modifications, unload_all_meshes,
    unload_data, unload_mesh, ChunkModification, VoxelEngine,
};

fn uniform(b: BlockType) -> ChunkData {
    ChunkData { voxels: vec![BlockData { block_type: b }] }
}

fn clear_pending(s: &mut Scanner) {
    s.unresolved_data_load.clear();
    s.unresolved_mesh_load.clear();
    s.unresolved_data_unload.clear();
    s.unresolved_mesh_unload.clear();
}

#[test]
fn offsets_cover_the_cube_nearest_first() {
    let offs = make_offset_vec(1);
    assert_eq!(offs.len(), 27);
    assert_eq!(offs[0], IVec3::new(0, 0, 0));
    let d = |p: &IVec3| p.x * p.x + p.y * p.y + p.z * p.z;
    assert!(offs.windows(2).all(|w| d(&w[0]) <= d(&w[1])));
    assert_eq!(d(&offs[26]), 3);
}

#[test]
fn scanner_sets_and_moves() {
    let mut scanner = Scanner::new(1);
    assert_eq!(scanner.data_sampling_offsets.len(), 125);
    assert_eq!(scanner.mesh_sampling_offsets.len(), 27);
    let mut engine = VoxelEngine::new();
    scanner.detect_move(&mut engine, IVec3::new(0, 0, 0));
    assert_eq!(scanner.unresolved_data_load.len(), 125);
    assert_eq!(scanner.unresolved_mesh_load.len(), 27);
    assert_eq!(scanner.unresolved_mesh_load[0], IVec3::new(0, 0, 0));
    clear_pending(&mut scanner);

    // no movement: nothing queued
    scanner.detect_move(&mut engine, IVec3::new(0, 0, 0));
    assert!(scanner.unresolved_data_load.is_empty());
    assert!(scanner.unresolved_mesh_load.is_empty());
    assert!(scanner.unresolved_data_unload.is_empty());
    assert!(scanner.unresolved_mesh_unload.is_empty());

    scanner.detect_move(&mut engine, IVec3::new(1, 0, 0));
    assert_eq!(scanner.unresolved_mesh_load.len(), 9);
    assert_eq!(scanner.unresolved_mesh_unload.len(), 9);
    assert_eq!(scanner.unresolved_data_load.len(), 25);
    assert_eq!(scanner.unresolved_data_unload.len(), 25);
    assert!(scanner.unresolved_mesh_load.iter().all(|p| p.x == 2));
    assert!(scanner.unresolved_mesh_unload.iter().all(|p| p.x == -1));
    assert_eq!(scanner.unresolved_mesh_load[0], IVec3::new(2, 0, 0));
}

#[test]
fn move_cancels_queued_loads_that_leave() {
    let mut scanner = Scanner::new(1);
    let mut engine = VoxelEngine::new();
    scanner.detect_move(&mut engine, IVec3::new(0, 0, 0));
    clear_pending(&mut scanner);
    engine.load_mesh_queue.push(IVec3::new(-1, 0, 0));
    engine.load_mesh_queue.push(IVec3::new(0, 0, 0));
    scanner.detect_move(&mut engine, IVec3::new(1, 0, 0));
    assert_eq!(engine.load_mesh_queue, vec![IVec3::new(0, 0, 0)]);
}

#[test]
fn data_scans_queue_and_unload() {
    let mut scanner = Scanner::new(0);
    let mut engine = VoxelEngine::new();
    scanner.detect_move(&mut engine, IVec3::new(0, 0, 0));
    scan_data(&mut scanner, &mut engine);
    assert_eq!(engine.load_data_queue.len(), 27);
    assert!(scanner.unresolved_data_load.is_empty());
    // already queued: not queued twice
    scanner.unresolved_data_load.push(IVec3::new(0, 0, 0));
    scan_data(&mut scanner, &mut engine);
    assert_eq!(engine.load_data_queue.len(), 27);

    let started = start_data_tasks(&mut engine, IVec3::new(0, 0, 0));
    assert_eq!(started.len(), 27);
    assert_eq!(started[0], IVec3::new(0, 0, 0));
    assert_eq!(engine.data_tasks.len(), 27);
    for p in started {
        join_data(&mut engine, p, uniform(BlockType::Air));
    }
    assert!(engine.data_tasks.is_empty());
    assert_eq!(engine.world_data.len(), 27);

    scanner.unresolved_data_unload.push(IVec3::new(1, 1, 1));
    scanner.unresolved_data_unload.push(IVec3::new(9, 9, 9));
    scan_data_unload(&mut scanner, &mut engine);
    assert_eq!(engine.unload_data_queue, vec![IVec3::new(1, 1, 1)]);
    unload_data(&mut engine);
    assert_eq!(engine.world_data.len(), 26);
    assert!(!engine.world_data.contains_key(&IVec3::new(1, 1, 1).key()));
}

#[test]
fn data_tasks_are_capped() {
    let mut engine = VoxelEngine::new();
    for i in 0..100 {
        engine.load_data_queue.push(IVec3::new(100 - i, 0, 0));
    }
    let started = start_data_tasks(&mut engine, IVec3::new(0, 0, 0));
    assert_eq!(started.len(), 64);
    assert_eq!(started[0], IVec3::new(1, 0, 0));
    assert_eq!(engine.load_data_queue.len(), 36);
    assert_eq!(engine.load_data_queue[0], IVec3::new(65, 0, 0));
}

#[test]
fn mesh_waits_for_neighbourhood() {
    let mut scanner = Scanner::new(0);
    let mut engine = VoxelEngine::new();
    scanner.detect_move(&mut engine, IVec3::new(0, 0, 0));
    scan_mesh(&mut scanner, &mut engine);
    assert!(engine.load_mesh_queue.is_empty());
    assert_eq!(scanner.unresolved_mesh_load, vec![IVec3::new(0, 0, 0)]);
    for z in -1..=1 {
        for y in -1..=1 {
            for x in -1..=1 {
                join_data(&mut engine, IVec3::new(x, y, z), uniform(BlockType::Grass));
            }
        }
    }
    scan_mesh(&mut scanner, &mut engine);
    assert_eq!(engine.load_mesh_queue, vec![IVec3::new(0, 0, 0)]);
    assert!(scanner.unresolved_mesh_load.is_empty());

    let tasks = start_mesh_tasks(&mut engine, IVec3::new(0, 0, 0));
    assert_eq!(tasks.len(), 1);
    assert_eq!(tasks[0].0, IVec3::new(0, 0, 0));
    assert!(tasks[0].1.is_all_voxels_same());
    assert_eq!(engine.mesh_tasks, vec![IVec3::new(0, 0, 0)]);

    assert_eq!(join_mesh(&mut engine, IVec3::new(0, 0, 0), Some(7)), None);
    assert!(engine.mesh_tasks.is_empty());
    assert_eq!(join_mesh(&mut engine, IVec3::new(0, 0, 0), Some(8)), Some(7));

    // the first move also queued the never-seen previous position for unloading
    assert_eq!(scanner.unresolved_mesh_unload, vec![IVec3::new(i32::MAX, i32::MAX, i32::MAX)]);
    scanner.unresolved_mesh_unload.clear();
    scanner.unresolved_mesh_unload.push(IVec3::new(0, 0, 0));
    scan_mesh_unload(&mut scanner, &mut engine);
    assert_eq!(engine.unload_mesh_queue, vec![IVec3::new(0, 0, 0)]);
    assert_eq!(unload_mesh(&mut engine), vec![8]);
    assert!(engine.chunk_entities.is_empty());
    assert!(engine.unload_mesh_queue.is_empty());

    unload_all_meshes(&mut engine, &scanner, IVec3::new(4, 0, 0));
    assert_eq!(engine.load_mesh_queue, vec![IVec3::new(4, 0, 0)]);
}

#[test]
fn corner_modification_remeshes_seven_neighbours() {
    let mut engine = VoxelEngine::new();
    engine.world_data.insert(IVec3::new(0, 0, 0).key(), Arc::new(uniform(BlockType::Grass)));
    engine
        .chunk_modifications
        .push((IVec3::new(0, 0, 0), vec![ChunkModification(IVec3::new(0, 0, 0), BlockType::Air)]));
    start_modifications(&mut engine);
    assert!(engine.chunk_modifications.is_empty());
    let chunk = engine.world_data.get(&IVec3::new(0, 0, 0).key()).unwrap();
    assert_eq!(chunk.voxels.len(), 32768);
    assert_eq!(chunk.get_block(0).block_type, BlockType::Air);
    assert_eq!(chunk.get_block(1).block_type, BlockType::Grass);
    assert_eq!(engine.load_mesh_queue.len(), 8);
    assert_eq!(*engine.load_mesh_queue.last().unwrap(), IVec3::new(0, 0, 0));
    for p in [
        IVec3::new(-1, 0, 0),
        IVec3::new(0, -1, 0),
        IVec3::new(0, 0, -1),
        IVec3::new(-1, -1, 0),
        IVec3::new(-1, 0, -1),
        IVec3::new(0, -1, -1),
        IVec3::new(-1, -1, -1),
    ] {
        assert!(engine.load_mesh_queue.contains(&p));
    }
}

#[test]
fn inner_modification_remeshes_only_its_chunk() {
    let mut engine = VoxelEngine::new();
    engine.world_data.insert(IVec3::new(2, 0, 0).key(), Arc::new(uniform(BlockType::Grass)));
    engine.chunk_modifications.push((
        IVec3::new(2, 0, 0),
        vec![
            ChunkModification(IVec3::new(15, 15, 15), BlockType::Air),
            ChunkModification(IVec3::new(15, 15, 15), BlockType::Dirt),
        ],
    ));
    engine.chunk_modifications.push((IVec3::new(9, 9, 9), vec![ChunkModification(IVec3::new(0, 0, 0), BlockType::Air)]));
    start_modifications(&mut engine);
    assert_eq!(engine.load_mesh_queue, vec![IVec3::new(2, 0, 0)]);
    let chunk = engine.world_data.get(&IVec3::new(2, 0, 0).key()).unwrap();
    assert_eq!(chunk.get_block(15 + 15 * 32 + 15 * 1024).block_type, BlockType::Dirt);
    assert!(!engine.world_data.contains_key(&IVec3::new(9, 9, 9).key()));
}

#[test]
fn mesh_tasks_retry_missing_neighbourhoods() {
    let mut engine = VoxelEngine::new();
    for z in -1..=1 {
        for y in -1..=1 {
            for x in -1..=1 {
                join_data(&mut engine, IVec3::new(x, y, z), uniform(BlockType::Air));
            }
        }
    }
    engine.load_mesh_queue.push(IVec3::new(5, 0, 0));
    engine.load_mesh_queue.push(IVec3::new(0, 0, 0));
    let started = start_mesh_tasks(&mut engine, IVec3::new(0, 0, 0));
    assert_eq!(started.len(), 1);
    assert_eq!(started[0].0, IVec3::new(0, 0, 0));
    assert_eq!(engine.mesh_tasks, vec![IVec3::new(0, 0, 0)]);
    assert_eq!(engine.load_mesh_queue, vec![IVec3::new(5, 0, 0)]);
}

#[test]
fn scan_mesh_keeps_already_queued_for_retry() {
    let mut scanner = Scanner::new(0);
    let mut engine = VoxelEngine::new();
    for z in -1..=1 {
        for y in -1..=1 {
            for x in -1..=1 {
                join_data(&mut engine, IVec3::new(x, y, z), uniform(BlockType::Air));
            }
        }
    }
    engine.unload_mesh_queue.push(IVec3::new(0, 0, 0));
    scanner.unresolved_mesh_load = vec![IVec3::new(0, 0, 0), IVec3::new(0, 0, 0)];
    scan_mesh(&mut scanner, &mut engine);
    assert_eq!(engine.load_mesh_queue, vec![IVec3::new(0, 0, 0)]);
    assert!(engine.unload_mesh_queue.is_empty());
    assert_eq!(scanner.unresolved_mesh_load, vec![IVec3::new(0, 0, 0)]);
}

#[test]
fn scan_data_queues_each_position_once() {
    let mut scanner = Scanner::new(0);
    let mut engine = VoxelEngine::new();
    engine.unload_data_queue.push(IVec3::new(3, 0, 0));
    engine.unload_data_queue.push(IVec3::new(3, 0, 0));
    scanner.unresolved_data_load = vec![IVec3::new(3, 0, 0), IVec3::new(3, 0, 0), IVec3::new(4, 0, 0)];
    scan_data(&mut scanner, &mut engine);
    assert_eq!(engine.load_data_queue, vec![IVec3::new(3, 0, 0), IVec3::new(4, 0, 0)]);
    assert_eq!(engine.unload_data_queue, vec![IVec3::new(3, 0, 0)]);
}

#[test]
fn reentering_chunks_cancel_their_unload() {
    let mut scanner = Scanner::new(1);
    let mut engine = VoxelEngine::new();
    scanner.detect_move(&mut engine, IVec3::new(0, 0, 0));
    clear_pending(&mut scanner);
    scanner.detect_move(&mut engine, IVec3::new(1, 0, 0));
    assert!(scanner.unresolved_mesh_unload.contains(&IVec3::new(-1, 0, 0)));
    scanner.detect_move(&mut engine, IVec3::new(0, 0, 0));
    assert!(!scanner.unresolved_mesh_unload.contains(&IVec3::new(-1, 0, 0)));
    assert!(scanner.unresolved_mesh_load.contains(&IVec3::new(-1, 0, 0)));
    assert!(scanner.unresolved_mesh_unload.contains(&IVec3::new(2, 0, 0)));
    assert!(!scanner.unresolved_mesh_load.contains(&IVec3::new(2, 0, 0)));
    assert!(scanner.unresolved_data_load.iter().all(|p| !scanner.unresolved_data_unload.contains(p)));
}
