use std::sync::Arc;
use voxel_terrain::chunk::ChunkData;
use voxel_terrain::chunks_refs::ChunksRefs;
use voxel_terrain::culled_mesher::{ambient_corner_voxels, ambient_corner_voxels_cloned, build_chunk_mesh_ao, build_chunk_mesh_no_ao};
use voxel_terrain::face_direction::FaceDir;
use voxel_terrain::greedy_mesher_optimized::build_chunk_mesh;
use voxel_terrain::lod::Lod;
use voxel_terrain::math::IVec3;
use voxel_terrain::voxel::{BlockData, BlockType};

fn refs_with_blocks(blocks: &[(i32, i32, i32)], around: BlockType) -> ChunksRefs {
    let mut center = ChunkData { voxels: vec![BlockData { block_type: BlockType::Air }] };
    for &(x, y, z) in blocks {
        center.set_block(IVec3::new(x, y, z), BlockType::Grass);
    }
    let mut chunks = vec![];
    for i in 0..27 {
        if i == 13 {
            chunks.push(Arc::new(center.clone()));
        } else {
            chunks.push(Arc::new(ChunkData { voxels: vec![BlockData { block_type: around }] }));
        }
    }
    ChunksRefs { chunks }
}

#[test]
fn culled_single_block_has_six_faces() {
    let refs = refs_with_blocks(&[(0, 0, 0)], BlockType::Air);
    let mesh = build_chunk_mesh_ao(&refs, Lod::L32).unwrap();
    assert_eq!(mesh.vertices.len(), 24);
    assert_eq!(mesh.indices.len(), 36);
    let greedy = build_chunk_mesh(&refs, Lod::L32).unwrap();
    let mut a = mesh.vertices.clone();
    let mut b = greedy.vertices.clone();
    a.sort();
    b.sort();
    assert_eq!(a, b);
}

#[test]
fn culled_leaves_high_sides_to_the_neighbours() {
    let refs = refs_with_blocks(&[(31, 31, 31)], BlockType::Air);
    let mesh = build_chunk_mesh_no_ao(refs, Lod::L32).unwrap();
    assert_eq!(mesh.vertices.len(), 12);
    assert!(mesh.vertices.iter().all(|v| (v >> 18) & 7 == 0));
}

#[test]
fn culled_emits_neighbour_faces_on_low_border() {
    let refs = refs_with_blocks(&[], BlockType::Grass);
    let mesh = build_chunk_mesh_ao(&refs, Lod::L32).unwrap();
    // the low x, y and z border planes face the air of this chunk
    assert_eq!(mesh.vertices.len(), 3 * 32 * 32 * 4);
    assert!(build_chunk_mesh_no_ao(refs_with_blocks(&[], BlockType::Air), Lod::L32).is_none());
}

#[test]
fn corner_ring_samples_in_order() {
    let refs = refs_with_blocks(&[(6, 5, 5), (4, 5, 4)], BlockType::Air);
    let ring = ambient_corner_voxels(&refs, FaceDir::Up, IVec3::new(5, 5, 5));
    assert_eq!(ring, [false, false, false, false, true, false, false, true]);
    assert_eq!(ambient_corner_voxels_cloned(&refs, FaceDir::Up, IVec3::new(5, 5, 5)), Some(ring));
    let down = ambient_corner_voxels(&refs, FaceDir::Down, IVec3::new(5, 6, 5));
    assert_eq!(down, [false, true, false, false, true, false, false, false]);
}

#[test]
fn culled_ao_and_plain_meshes_differ_only_in_occlusion() {
    let refs = refs_with_blocks(&[(5, 5, 5), (4, 4, 4)], BlockType::Air);
    let ao = build_chunk_mesh_ao(&refs, Lod::L32).unwrap();
    let plain = build_chunk_mesh_no_ao(refs, Lod::L32).unwrap();
    assert_eq!(ao.vertices.len(), plain.vertices.len());
    assert_eq!(ao.indices, plain.indices);
    for (a, p) in ao.vertices.iter().zip(plain.vertices.iter()) {
        assert_eq!(a & !(7 << 18), *p);
        assert_eq!((p >> 18) & 7, 0);
    }
    assert!(ao.vertices.iter().any(|v| (v >> 18) & 7 != 0));
}
