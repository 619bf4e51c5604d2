use std::sync::Arc;
use voxel_terrain::chunk::ChunkData;
use voxel_terrain::chunks_refs::ChunksRefs;
use voxel_terrain::face_direction::FaceDir;
use voxel_terrain::greedy_mesher::{
    build_chunk_mesh, build_chunk_mesh_no_ao, greedy_mesh_binary_plane, vertices_from_face,
    vertices_from_face_no_ao, GreedyQuad,
};
use voxel_terrain::lod::Lod;
use voxel_terrain::math::IVec3;
use voxel_terrain::voxel::{BlockData, BlockType};

fn refs_with(blocks: &[(i32, i32, i32, BlockType)]) -> ChunksRefs {
    let mut center = ChunkData { voxels: vec![BlockData { block_type: BlockType::Air }] };
    for &(x, y, z, b) in blocks {
        center.set_block(IVec3::new(x, y, z), b);
    }
    let mut chunks = vec![];
    for i in 0..27 {
        if i == 13 {
            chunks.push(Arc::new(center.clone()));
        } else {
            chunks.push(Arc::new(ChunkData { voxels: vec![BlockData { block_type: BlockType::Air }] }));
        }
    }
    ChunksRefs { chunks }
}

fn positions(words: &[u32]) -> Vec<(u32, u32, u32)> {
    let mut p: Vec<(u32, u32, u32)> = words.iter().map(|v| (v & 63, (v >> 6) & 63, (v >> 12) & 63)).collect();
    p.sort();
    p
}

#[test]
fn layered_plane_merge_matches_binary_merge() {
    let mut plane = [0u32; 32];
    plane[3] = 0b1111_0000;
    plane[4] = 0b1111_0000;
    plane[9] = 1;
    let quads = greedy_mesh_binary_plane(plane, 32);
    let got: Vec<(u32, u32, u32, u32)> = quads.iter().map(|q| (q.x, q.y, q.w, q.h)).collect();
    assert_eq!(got, vec![(3, 4, 2, 4), (9, 0, 1, 1)]);
}

#[test]
fn left_faces_of_one_block() {
    let refs = refs_with(&[(0, 0, 0, BlockType::Grass)]);
    let v = vertices_from_face(FaceDir::Left, &refs, &Lod::L32);
    assert_eq!(v.len(), 4);
    assert_eq!(positions(&v), vec![(0, 0, 0), (0, 0, 1), (0, 1, 0), (0, 1, 1)]);
    assert!(v.iter().all(|w| (w >> 21) & 15 == 0 && w >> 25 == 1));
}

#[test]
fn up_faces_sit_one_layer_back() {
    let refs = refs_with(&[(0, 1, 0, BlockType::Dirt)]);
    let v = vertices_from_face(FaceDir::Up, &refs, &Lod::L32);
    assert_eq!(v.len(), 4);
    assert!(positions(&v).iter().all(|p| p.1 == 0));
    // the bottom layer of the chunk is never sampled for up faces
    let low = refs_with(&[(0, 0, 0, BlockType::Dirt)]);
    assert!(vertices_from_face(FaceDir::Up, &low, &Lod::L32).is_empty());
}

#[test]
fn no_ao_faces_carry_no_occlusion_or_block() {
    let refs = refs_with(&[(5, 5, 5, BlockType::Grass), (5, 6, 5, BlockType::Grass)]);
    let v = vertices_from_face_no_ao(FaceDir::Left, &refs, &Lod::L32);
    assert_eq!(v.len(), 4);
    assert!(v.iter().all(|w| (w >> 18) & 7 == 0 && w >> 25 == 0));
}

#[test]
fn layered_meshes_of_one_block() {
    let refs = refs_with(&[(5, 5, 5, BlockType::Grass)]);
    let mesh = build_chunk_mesh(refs.clone(), Lod::L32).unwrap();
    assert_eq!(mesh.vertices.len(), 12);
    assert_eq!(mesh.indices.len(), 18);
    let all = build_chunk_mesh_no_ao(refs, Lod::L32).unwrap();
    assert_eq!(all.vertices.len(), 24);
    assert!(build_chunk_mesh(refs_with(&[]), Lod::L32).is_none());
}

#[test]
fn layered_quad_vertices() {
    let q = GreedyQuad { x: 1, y: 2, w: 3, h: 4 };
    let mut v = vec![];
    q.append_vertices(&mut v, FaceDir::Back, 5, &Lod::L32, 0, 1);
    // back faces move one layer forward
    assert!(positions(&v).iter().all(|p| p.2 == 7));
}
