use std::sync::Arc;
use voxel_terrain::chunk::ChunkData;
use voxel_terrain::chunks_refs::ChunksRefs;
use voxel_terrain::face_direction::FaceDir;
use voxel_terrain::lod::Lod;
use voxel_terrain::math::IVec3;
use voxel_terrain::voxel::{meshable_block_types, BlockData, BlockType};

fn uniform(b: BlockType) -> ChunkData {
    ChunkData { voxels: vec![BlockData { block_type: b }] }
}

fn dense(b: BlockType) -> ChunkData {
    ChunkData { voxels: vec![BlockData { block_type: b }; 32 * 32 * 32] }
}

#[test]
fn block_types_solidity() {
    assert!(!BlockType::Air.is_solid());
    assert!(BlockType::Grass.is_solid());
    assert!(BlockType::Dirt.is_solid());
    assert!(BlockType::Air.is_air());
    assert!(!BlockType::Dirt.is_air());
    assert_eq!(BlockType::Dirt.id(), 2);
    assert_eq!(meshable_block_types(), vec![BlockType::Grass, BlockType::Dirt]);
}

#[test]
fn lod_sizes() {
    assert_eq!(Lod::L32.size(), 32);
    assert_eq!(Lod::L2.size(), 2);
    assert_eq!(Lod::L32.jump_index(), 1);
    assert_eq!(Lod::L4.jump_index(), 8);
}

#[test]
fn face_directions() {
    assert_eq!(FaceDir::Left.normal_index(), 0);
    assert_eq!(FaceDir::Back.normal_index(), 5);
    assert_eq!(FaceDir::Forward.air_sample_dir(), IVec3::new(0, 0, -1));
    assert_eq!(FaceDir::Up.world_to_sample(3, 4, 5, &Lod::L32), IVec3::new(4, 4, 5));
    assert_eq!(FaceDir::Right.world_to_sample(3, 4, 5, &Lod::L32), IVec3::new(4, 5, 4));
    assert_eq!(FaceDir::Forward.world_to_sample(3, 4, 5, &Lod::L32), IVec3::new(4, 5, 3));
    assert!(FaceDir::Up.reverse_order());
    assert!(!FaceDir::Back.reverse_order());
    assert_eq!(FaceDir::Back.negate_axis(), 1);
    assert_eq!(FaceDir::Up.negate_axis(), -1);
}

#[test]
fn uniform_and_dense_read_alike() {
    let u = uniform(BlockType::Grass);
    let d = dense(BlockType::Grass);
    for i in [0usize, 1, 31, 1024, 32767] {
        assert_eq!(u.get_block(i).block_type, d.get_block(i).block_type);
    }
    let mut promoted = uniform(BlockType::Dirt);
    promoted.make_dense();
    assert_eq!(promoted.voxels.len(), 32768);
    assert_eq!(promoted.get_block(12345).block_type, BlockType::Dirt);
}

#[test]
fn filled_only_when_uniform() {
    assert_eq!(uniform(BlockType::Dirt).get_block_if_filled().map(|b| b.block_type), Some(BlockType::Dirt));
    assert!(dense(BlockType::Dirt).get_block_if_filled().is_none());
}

#[test]
fn set_block_promotes_uniform_chunk() {
    let mut c = uniform(BlockType::Grass);
    c.set_block(IVec3::new(1, 2, 3), BlockType::Air);
    assert_eq!(c.voxels.len(), 32768);
    assert_eq!(c.get_block(1 + 2 * 32 + 3 * 1024).block_type, BlockType::Air);
    assert_eq!(c.get_block(0).block_type, BlockType::Grass);
}

#[test]
fn terrain_band_presets() {
    let above = ChunkData::generate_preset(IVec3::new(0, 1, 0)).unwrap();
    assert_eq!(above.voxels.len(), 1);
    assert_eq!(above.voxels[0].block_type, BlockType::Air);
    let below = ChunkData::generate_preset(IVec3::new(3, -2, 0)).unwrap();
    assert_eq!(below.voxels[0].block_type, BlockType::Grass);
    assert!(ChunkData::generate_preset(IVec3::new(0, 0, 0)).is_none());
    assert!(ChunkData::generate_preset(IVec3::new(0, -1, 0)).is_none());
}

fn slot_type(i: usize) -> BlockType {
    match i % 3 {
        0 => BlockType::Air,
        1 => BlockType::Grass,
        _ => BlockType::Dirt,
    }
}

fn mixed_refs() -> ChunksRefs {
    let mut chunks = vec![];
    for i in 0..27 {
        if i == 13 {
            let mut c = dense(BlockType::Air);
            c.set_block(IVec3::new(5, 6, 7), BlockType::Dirt);
            chunks.push(Arc::new(c));
        } else {
            chunks.push(Arc::new(uniform(slot_type(i))));
        }
    }
    ChunksRefs { chunks }
}

#[test]
fn get_block_picks_neighbour_by_slot() {
    let refs = mixed_refs();
    // slot = cx + 3 cy + 9 cz, each c in {0, 1, 2}
    assert_eq!(refs.get_block(IVec3::new(-1, 0, 0)).block_type, slot_type(12));
    assert_eq!(refs.get_block(IVec3::new(32, 0, 0)).block_type, slot_type(14));
    assert_eq!(refs.get_block(IVec3::new(0, -1, 0)).block_type, slot_type(10));
    assert_eq!(refs.get_block(IVec3::new(0, 0, 32)).block_type, slot_type(22));
    assert_eq!(refs.get_block(IVec3::new(-1, -1, -1)).block_type, slot_type(0));
    assert_eq!(refs.get_block(IVec3::new(32, 32, 32)).block_type, slot_type(26));
    assert_eq!(refs.get_block(IVec3::new(5, 6, 7)).block_type, BlockType::Dirt);
    assert_eq!(refs.get_block(IVec3::new(6, 6, 7)).block_type, BlockType::Air);
    assert_eq!(refs.get_block_no_neighbour(IVec3::new(5, 6, 7)).block_type, BlockType::Dirt);
}

#[test]
fn adjacent_and_von_neumann_samples() {
    let refs = mixed_refs();
    let (current, back, left, down) = refs.get_adjacent_blocks(IVec3::new(0, 0, 0));
    assert_eq!(current.block_type, BlockType::Air);
    assert_eq!(back.block_type, slot_type(4));
    assert_eq!(left.block_type, slot_type(12));
    assert_eq!(down.block_type, slot_type(10));
    let n = refs.get_von_neumann(IVec3::new(5, 6, 8)).unwrap();
    assert_eq!(n.len(), 6);
    assert_eq!(n[0].0, FaceDir::Forward);
    assert_eq!(n[0].1.block_type, BlockType::Dirt);
    assert_eq!(n[5].0, FaceDir::Right);
    let (a, b) = refs.get_2(IVec3::new(5, 6, 7), IVec3::new(0, 0, -8));
    assert_eq!(a.block_type, BlockType::Dirt);
    assert_eq!(b.block_type, slot_type(4));
}

#[test]
fn all_same_only_for_uniform_equal_chunks() {
    let grass = ChunksRefs { chunks: (0..27).map(|_| Arc::new(uniform(BlockType::Grass))).collect() };
    assert!(grass.is_all_voxels_same());
    let air = ChunksRefs { chunks: (0..27).map(|_| Arc::new(uniform(BlockType::Air))).collect() };
    assert!(air.is_all_voxels_same());
    assert!(!mixed_refs().is_all_voxels_same());
    let mut chunks: Vec<Arc<ChunkData>> = (0..27).map(|_| Arc::new(uniform(BlockType::Grass))).collect();
    chunks[26] = Arc::new(uniform(BlockType::Dirt));
    assert!(!ChunksRefs { chunks }.is_all_voxels_same());
}

#[test]
fn try_new_needs_every_neighbour() {
    let mut world = std::collections::HashMap::new();
    for z in -1..=1 {
        for y in -1..=1 {
            for x in -1..=1 {
                let c = if x == 1 { BlockType::Dirt } else { BlockType::Air };
                world.insert(IVec3::new(x, y, z).key(), Arc::new(uniform(c)));
            }
        }
    }
    let refs = ChunksRefs::try_new(&world, IVec3::new(0, 0, 0)).unwrap();
    assert_eq!(refs.chunks.len(), 27);
    assert!(refs.is_well_formed());
    assert_eq!(refs.get_block(IVec3::new(40, 0, 0)).block_type, BlockType::Dirt);
    world.remove(&IVec3::new(1, 1, 1).key());
    assert!(ChunksRefs::try_new(&world, IVec3::new(0, 0, 0)).is_none());
}
