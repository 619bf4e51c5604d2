use std::sync::Arc;
use voxel_terrain::chunk::ChunkData;
use voxel_terrain::chunks_refs::ChunksRefs;
use voxel_terrain::face_direction::FaceDir;
use voxel_terrain::greedy_mesher_optimized::{build_chunk_mesh, face_quads, greedy_mesh_binary_plane, GreedyQuad};
use voxel_terrain::lod::Lod;
use voxel_terrain::math::IVec3;
use voxel_terrain::voxel::{BlockData, BlockType};

fn uniform(b: BlockType) -> Arc<ChunkData> {
    Arc::new(ChunkData { voxels: vec![BlockData { block_type: b }] })
}

fn refs_with_center(center: ChunkData, around: BlockType) -> ChunksRefs {
    let mut chunks = vec![];
    for i in 0..27 {
        if i == 13 {
            chunks.push(Arc::new(center.clone()));
        } else {
            chunks.push(uniform(around));
        }
    }
    ChunksRefs { chunks }
}

fn air_chunk_with(blocks: &[(i32, i32, i32, BlockType)]) -> ChunkData {
    let mut c = ChunkData { voxels: vec![BlockData { block_type: BlockType::Air }] };
    for &(x, y, z, b) in blocks {
        c.set_block(IVec3::new(x, y, z), b);
    }
    c
}

fn rasterize(quads: &[GreedyQuad]) -> [u32; 32] {
    let mut plane = [0u32; 32];
    for q in quads {
        for r in q.x..q.x + q.w {
            for b in q.y..q.y + q.h {
                assert_eq!(plane[r as usize] >> b & 1, 0, "quads overlap");
                plane[r as usize] |= 1 << b;
            }
        }
    }
    plane
}

#[test]
fn all_air_gives_no_mesh() {
    let refs = ChunksRefs { chunks: (0..27).map(|_| uniform(BlockType::Air)).collect() };
    assert!(build_chunk_mesh(&refs, Lod::L32).is_none());
}

#[test]
fn all_grass_gives_no_mesh() {
    let refs = ChunksRefs { chunks: (0..27).map(|_| uniform(BlockType::Grass)).collect() };
    assert!(refs.is_all_voxels_same());
    assert!(build_chunk_mesh(&refs, Lod::L32).is_none());
}

#[test]
fn single_block_has_six_faces() {
    let refs = refs_with_center(air_chunk_with(&[(0, 0, 0, BlockType::Grass)]), BlockType::Air);
    let mesh = build_chunk_mesh(&refs, Lod::L32).unwrap();
    assert_eq!(mesh.vertices.len(), 24);
    assert_eq!(mesh.indices.len(), 36);
    let mut normals: Vec<u32> = mesh.vertices.iter().map(|v| (v >> 21) & 15).collect();
    normals.sort();
    normals.dedup();
    assert_eq!(normals, vec![0, 1, 2, 3, 4, 5]);
    assert!(mesh.vertices.iter().all(|v| v >> 25 == 1));
}

#[test]
fn slab_top_merges_into_one_quad() {
    let slab = [
        (0, 31, 0, BlockType::Grass),
        (1, 31, 0, BlockType::Grass),
        (0, 31, 1, BlockType::Grass),
        (1, 31, 1, BlockType::Grass),
    ];
    let refs = refs_with_center(air_chunk_with(&slab), BlockType::Air);
    let mesh = build_chunk_mesh(&refs, Lod::L32).unwrap();
    let up: Vec<u32> = mesh.vertices.iter().copied().filter(|v| (v >> 21) & 15 == FaceDir::Up.normal_index()).collect();
    assert_eq!(up.len(), 4);
    let mut corners: Vec<(u32, u32, u32)> = up.iter().map(|v| (v & 63, (v >> 6) & 63, (v >> 12) & 63)).collect();
    corners.sort();
    assert_eq!(corners, vec![(0, 32, 0), (0, 32, 2), (2, 32, 0), (2, 32, 2)]);
    let mut plane = [0u32; 32];
    plane[0] = 0b11;
    plane[1] = 0b11;
    let quads = greedy_mesh_binary_plane(plane, 32);
    assert_eq!(quads.len(), 1);
    assert_eq!((quads[0].x, quads[0].y, quads[0].w, quads[0].h), (0, 0, 2, 2));
}

#[test]
fn greedy_quads_partition_the_plane() {
    let mut plane = [0u32; 32];
    let mut s: u32 = 0x1234_5678;
    for row in plane.iter_mut() {
        s ^= s << 13;
        s ^= s >> 17;
        s ^= s << 5;
        *row = s & 0xF0F0_FF3C;
    }
    plane[4] = 0;
    plane[5] = u32::MAX;
    plane[6] = u32::MAX;
    plane[31] = 0x8000_0001;
    let quads = greedy_mesh_binary_plane(plane, 32);
    assert_eq!(rasterize(&quads), plane);
    assert!(quads.iter().any(|q| q.h == 32 && q.w == 2));
    assert!(greedy_mesh_binary_plane([0u32; 32], 32).is_empty());
    let full = greedy_mesh_binary_plane([u32::MAX; 32], 32);
    assert_eq!(full.len(), 1);
    assert_eq!((full[0].x, full[0].y, full[0].w, full[0].h), (0, 0, 32, 32));
}

#[test]
fn greedy_runs_grow_while_rows_hold_them() {
    let mut plane = [0u32; 32];
    plane[0] = 0b0110;
    plane[1] = 0b1110;
    plane[2] = 0b0100;
    let quads = greedy_mesh_binary_plane(plane, 32);
    let got: Vec<(u32, u32, u32, u32)> = quads.iter().map(|q| (q.x, q.y, q.w, q.h)).collect();
    assert_eq!(got, vec![(0, 1, 2, 2), (1, 3, 1, 1), (2, 2, 1, 1)]);
}

fn ao_of(words: &[u32]) -> Vec<u32> {
    words.iter().map(|v| (v >> 18) & 7).collect()
}

#[test]
fn mirrored_occlusion_swaps_second_and_fourth_corner() {
    let q = GreedyQuad { x: 1, y: 2, w: 3, h: 4 };
    let mut a = vec![];
    q.append_vertices(&mut a, FaceDir::Down, 5, &Lod::L32, 1 << 6, 1);
    let mut b = vec![];
    q.append_vertices(&mut b, FaceDir::Down, 5, &Lod::L32, 1 << 2, 1);
    assert_eq!(ao_of(&a), vec![0, 1, 0, 0]);
    assert_eq!(ao_of(&b), vec![0, 0, 0, 1]);
}

#[test]
fn quad_vertices_positions_winding_and_flip() {
    let q = GreedyQuad { x: 1, y: 2, w: 3, h: 4 };
    let mut v = vec![];
    q.append_vertices(&mut v, FaceDir::Down, 5, &Lod::L32, 0, 2);
    let pos: Vec<(u32, u32, u32)> = v.iter().map(|w| (w & 63, (w >> 6) & 63, (w >> 12) & 63)).collect();
    assert_eq!(pos, vec![(1, 5, 2), (4, 5, 2), (4, 5, 6), (1, 5, 6)]);
    let mut up = vec![];
    q.append_vertices(&mut up, FaceDir::Up, 5, &Lod::L32, 0, 2);
    let pos: Vec<(u32, u32, u32)> = up.iter().map(|w| (w & 63, (w >> 6) & 63, (w >> 12) & 63)).collect();
    assert_eq!(pos, vec![(1, 6, 2), (1, 6, 6), (4, 6, 6), (4, 6, 2)]);
    // bit 0 alone occludes only the first corner: the quad rotates by one
    let mut flipped = vec![];
    q.append_vertices(&mut flipped, FaceDir::Down, 5, &Lod::L32, 1, 2);
    assert_eq!(ao_of(&flipped), vec![0, 0, 0, 1]);
    // both sides of the first corner solid: fully occluded
    let mut sat = vec![];
    q.append_vertices(&mut sat, FaceDir::Down, 5, &Lod::L32, (1 << 1) | (1 << 3), 2);
    assert_eq!(ao_of(&sat)[3], 3);
}

#[test]
fn mesh_indices_stay_in_range() {
    let mut c = ChunkData { voxels: vec![BlockData { block_type: BlockType::Air }; 32768] };
    for z in 0..32 {
        for x in 0..32 {
            let h = (x * 7 + z * 3) % 20 + 2;
            for y in 0..h {
                let b = if y + 1 == h { BlockType::Grass } else { BlockType::Dirt };
                c.set_block(IVec3::new(x, y, z), b);
            }
        }
    }
    let refs = refs_with_center(c, BlockType::Air);
    let mesh = build_chunk_mesh(&refs, Lod::L32).unwrap();
    assert_eq!(mesh.vertices.len() % 4, 0);
    assert_eq!(mesh.indices.len(), mesh.vertices.len() / 4 * 6);
    let max = *mesh.indices.iter().max().unwrap() as usize;
    assert!(max < mesh.vertices.len());
    assert!(mesh.vertices.iter().all(|v| v & 63 <= 32 && (v >> 6) & 63 <= 32 && (v >> 12) & 63 <= 32));
}

#[test]
fn face_quads_group_faces_by_layer_and_key() {
    let slab = [
        (0, 31, 0, BlockType::Grass),
        (1, 31, 0, BlockType::Grass),
        (0, 31, 1, BlockType::Grass),
        (1, 31, 1, BlockType::Grass),
    ];
    let refs = refs_with_center(air_chunk_with(&slab), BlockType::Air);
    let quads = face_quads(&refs, Lod::L32);
    // up faces are face axis 1
    let up: Vec<_> = quads.iter().filter(|q| q.axis6 == 1).collect();
    assert_eq!(up.len(), 1);
    assert_eq!(up[0].layer, 31);
    assert_eq!(up[0].key, 1 << 9);
    assert_eq!((up[0].quad.x, up[0].quad.y, up[0].quad.w, up[0].quad.h), (0, 0, 2, 2));
    // the slab's down faces share one key as well
    assert_eq!(quads.iter().filter(|q| q.axis6 == 0).count(), 1);
    let single = refs_with_center(air_chunk_with(&[(3, 4, 5, BlockType::Dirt)]), BlockType::Air);
    let quads = face_quads(&single, Lod::L32);
    assert_eq!(quads.len(), 6);
    assert!(quads.iter().all(|q| q.key == 2 << 9 && q.quad.w == 1 && q.quad.h == 1));
}

#[test]
fn greedy_quads_come_row_major() {
    let mut plane = [0u32; 32];
    plane[0] = 0b1001;
    plane[2] = 0b0110;
    let quads = greedy_mesh_binary_plane(plane, 32);
    let got: Vec<(u32, u32, u32, u32)> = quads.iter().map(|q| (q.x, q.y, q.w, q.h)).collect();
    assert_eq!(got, vec![(0, 0, 1, 1), (0, 3, 1, 1), (2, 1, 1, 2)]);
}

#[test]
fn lower_detail_quads_are_scaled() {
    let q = GreedyQuad { x: 1, y: 0, w: 2, h: 3 };
    let mut v = vec![];
    q.append_vertices(&mut v, FaceDir::Down, 4, &Lod::L16, 0, 1);
    let pos: Vec<(u32, u32, u32)> = v.iter().map(|w| (w & 63, (w >> 6) & 63, (w >> 12) & 63)).collect();
    assert_eq!(pos, vec![(2, 8, 0), (6, 8, 0), (6, 8, 6), (2, 8, 6)]);
}
