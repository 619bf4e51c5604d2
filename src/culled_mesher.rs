use vstd::prelude::*;
use crate::chunk_mesh::ChunkMesh;
use crate::chunks_refs::{offset_pos, ChunksRefs};
use crate::greedy_mesher_optimized::{
    ao_key, ao_offset, face_dir_of_axis, face_of_axis, quad_fits, quad_mesh, quad_vertex_words,
    quad_words_unflipped, GreedyQuad,
};
use crate::bitplane::{ao_bit, lemma_nine_bits, nine_bits};
use crate::face_direction::FaceDir;
use crate::lod::Lod;
use crate::math::IVec3;
use crate::utils::generate_indices;
use crate::voxel::{block_id, BlockType};

verus! {

broadcast use crate::greedy_mesher_optimized::lemma_quad_words_unflipped_len;

/// The local position of index `i` of the middle chunk, x fastest.
pub open spec fn local_of(i: int) -> IVec3 {
    IVec3 { x: (i % 32) as i32, y: ((i / 32) % 32) as i32, z: (i / 1024) as i32 }
}

#[verifier::opaque]
/// The occlusion key that a face of voxel `v` on face axis `axis6` carries: the
/// solid pattern one layer outside the face, or nothing without occlusion.
pub open spec fn face_key(refs: ChunksRefs, axis6: int, v: IVec3, with_ao: bool) -> u32 {
    if with_ao {
        let s = |i: int| refs.solid_at(offset_pos(v, ao_offset(axis6, i)));
        nine_bits(s(0), s(1), s(2), s(3), s(4), s(5), s(6), s(7), s(8))
    } else {
        0
    }
}

/// The plane coordinates and layer of the face of voxel `v` on face axis `axis6`.
pub open spec fn face_place(axis6: int, v: IVec3) -> (int, int, int) {
    if axis6 < 2 {
        (v.x as int, v.z as int, v.y as int)
    } else if axis6 < 4 {
        (v.z as int, v.y as int, v.x as int)
    } else {
        (v.x as int, v.y as int, v.z as int)
    }
}

#[verifier::opaque]
/// The four vertex words of the face of voxel `v`, of block type `b`, on face axis `axis6`,
/// in corner order without the anisotropy flip.
pub open spec fn face_words(refs: ChunksRefs, axis6: int, v: IVec3, b: BlockType, with_ao: bool) -> Seq<u32> {
    let (cx, cy, axis) = face_place(axis6, v);
    quad_words_unflipped(
        GreedyQuad { x: cx as u32, y: cy as u32, w: 1, h: 1 },
        face_of_axis(axis6),
        axis,
        1,
        face_key(refs, axis6, v, with_ao),
        block_id(b) as int,
    )
}

#[verifier::opaque]
/// The faces on the three low sides of the cell at local position `p`: towards -x,
/// -z and -y. A face belongs to the solid one of two cells and faces the air; from a
/// solid cell come its Left, Forward and Down faces, from an air cell the Right, Back
/// and Up faces of its solid neighbours.
pub open spec fn cell_words(refs: ChunksRefs, p: IVec3, with_ao: bool) -> Seq<u32> {
    let current = refs.block_at_pos(p).block_type;
    let back_p = IVec3 { x: p.x, y: p.y, z: (p.z - 1) as i32 };
    let left_p = IVec3 { x: (p.x - 1) as i32, y: p.y, z: p.z };
    let down_p = IVec3 { x: p.x, y: (p.y - 1) as i32, z: p.z };
    let back = refs.block_at_pos(back_p).block_type;
    let left = refs.block_at_pos(left_p).block_type;
    let down = refs.block_at_pos(down_p).block_type;
    if current != BlockType::Air {
        (if left == BlockType::Air { face_words(refs, 2, p, current, with_ao) } else { Seq::empty() })
            + (if back == BlockType::Air { face_words(refs, 4, p, current, with_ao) } else { Seq::empty() })
            + (if down == BlockType::Air { face_words(refs, 0, p, current, with_ao) } else { Seq::empty() })
    } else {
        (if left != BlockType::Air { face_words(refs, 3, left_p, left, with_ao) } else { Seq::empty() })
            + (if back != BlockType::Air { face_words(refs, 5, back_p, back, with_ao) } else { Seq::empty() })
            + (if down != BlockType::Air { face_words(refs, 1, down_p, down, with_ao) } else { Seq::empty() })
    }
}

/// The vertices of the cells of indices below `n`, in index order.
pub open spec fn culled_words(refs: ChunksRefs, n: int, with_ao: bool) -> Seq<u32>
    decreases n,
{
    if n <= 0 {
        Seq::empty()
    } else {
        culled_words(refs, n - 1, with_ao) + cell_words(refs, local_of(n - 1), with_ao)
    }
}

/// Appends the four vertices of one face of voxel `v` on face axis `axis6`.
fn push_face(
    refs: &ChunksRefs,
    vertices: &mut Vec<u32>,
    axis6: usize,
    v: IVec3,
    block_type: BlockType,
    with_ao: bool,
)
    requires
        refs.wf(),
        axis6 < 6,
        -1 <= v.x < 32,
        -1 <= v.y < 32,
        -1 <= v.z < 32,
        axis6 % 2 == 0 ==> 0 <= v.x && 0 <= v.y && 0 <= v.z,
        axis6 == 1 ==> 0 <= v.x && 0 <= v.z,
        axis6 == 3 ==> 0 <= v.y && 0 <= v.z,
        axis6 == 5 ==> 0 <= v.x && 0 <= v.y,
        old(vertices).len() + 4 <= usize::MAX,
    ensures
        final(vertices)@ == old(vertices)@ + face_words(*refs, axis6 as int, v, block_type, with_ao),
{
    let face_dir = face_dir_of_axis(axis6);
    let ao = if with_ao {
        let k = ao_key(refs, axis6, v);
        proof {
            lemma_key_is_face_key(*refs, axis6 as int, v, k);
        }
        k
    } else {
        0
    };
    let (cx, cy, axis) = if axis6 < 2 {
        (v.x, v.z, v.y)
    } else if axis6 < 4 {
        (v.z, v.y, v.x)
    } else {
        (v.x, v.y, v.z)
    };
    let q = GreedyQuad { x: cx as u32, y: cy as u32, w: 1, h: 1 };
    let block = block_type.id();
    let lod = Lod::L32;
    proof {
        assert(quad_fits(q, face_dir, axis as int, 1));
    }
    let quad = quad_vertex_words(&q, face_dir, axis, &lod, ao, block, false);
    vertices.push(quad[0]);
    vertices.push(quad[1]);
    vertices.push(quad[2]);
    vertices.push(quad[3]);
    proof {
        if !with_ao {
            reveal(face_key);
        }
        lemma_face_words_is(*refs, axis6 as int, v, block_type, with_ao);
        assert(final(vertices)@ =~= old(vertices)@ + quad@);
    }
}

proof fn lemma_face_words_is(refs: ChunksRefs, axis6: int, v: IVec3, b: BlockType, with_ao: bool)
    ensures
        face_words(refs, axis6, v, b, with_ao) == quad_words_unflipped(
            GreedyQuad { x: face_place(axis6, v).0 as u32, y: face_place(axis6, v).1 as u32, w: 1, h: 1 },
            face_of_axis(axis6),
            face_place(axis6, v).2,
            1,
            face_key(refs, axis6, v, with_ao),
            block_id(b) as int,
        ),
{
    reveal(face_words);
}

proof fn lemma_key_is_face_key(refs: ChunksRefs, axis6: int, v: IVec3, k: u32)
    requires
        k < 0x200,
        forall|i: u32| i < 9 ==> (#[trigger] ao_bit(k, i) <==> refs.solid_at(offset_pos(v, ao_offset(axis6, i as int)))),
    ensures
        k == face_key(refs, axis6, v, true),
{
    reveal(face_key);
    let key = face_key(refs, axis6, v, true);
    let s = |i: int| refs.solid_at(offset_pos(v, ao_offset(axis6, i)));
    lemma_nine_bits(s(0), s(1), s(2), s(3), s(4), s(5), s(6), s(7), s(8));
    assert(ao_bit(k, 0) == s(0));
    assert(ao_bit(k, 1) == s(1));
    assert(ao_bit(k, 2) == s(2));
    assert(ao_bit(k, 3) == s(3));
    assert(ao_bit(k, 4) == s(4));
    assert(ao_bit(k, 5) == s(5));
    assert(ao_bit(k, 6) == s(6));
    assert(ao_bit(k, 7) == s(7));
    assert(ao_bit(k, 8) == s(8));
    assert forall|i: u32| i < 9 implies #[trigger] ao_bit(key, i) == ao_bit(k, i) by {
        if i == 0 {} else if i == 1 {} else if i == 2 {} else if i == 3 {} else if i == 4 {}
        else if i == 5 {} else if i == 6 {} else if i == 7 {} else {}
    }
    crate::bitplane::lemma_key_bits_unique_low(key, k);
}

/// The faces of one cell, appended in the order of `cell_words`.
fn push_cell(refs: &ChunksRefs, vertices: &mut Vec<u32>, p: IVec3, with_ao: bool)
    requires
        refs.wf(),
        0 <= p.x < 32,
        0 <= p.y < 32,
        0 <= p.z < 32,
        old(vertices).len() + 12 <= usize::MAX,
    ensures
        final(vertices)@ == old(vertices)@ + cell_words(*refs, p, with_ao),
        final(vertices).len() <= old(vertices).len() + 12,
{
    let (current, back, left, down) = refs.get_adjacent_blocks(p);
    let current = current.block_type;
    let back = back.block_type;
    let left = left.block_type;
    let down = down.block_type;
    let ghost v0 = vertices@;
    proof {
        reveal(cell_words);
        lemma_face_words_len(*refs, 2, p, current, with_ao);
        lemma_face_words_len(*refs, 4, p, current, with_ao);
        lemma_face_words_len(*refs, 0, p, current, with_ao);
        lemma_face_words_len(*refs, 3, IVec3 { x: (p.x - 1) as i32, y: p.y, z: p.z }, left, with_ao);
        lemma_face_words_len(*refs, 5, IVec3 { x: p.x, y: p.y, z: (p.z - 1) as i32 }, back, with_ao);
        lemma_face_words_len(*refs, 1, IVec3 { x: p.x, y: (p.y - 1) as i32, z: p.z }, down, with_ao);
    }
    if current.is_solid() {
        if !left.is_solid() {
            push_face(refs, vertices, 2, p, current, with_ao);
        }
        let ghost v1 = vertices@;
        if !back.is_solid() {
            push_face(refs, vertices, 4, p, current, with_ao);
        }
        let ghost v2 = vertices@;
        if !down.is_solid() {
            push_face(refs, vertices, 0, p, current, with_ao);
        }
        proof {
            assert(vertices@ =~= v0 + cell_words(*refs, p, with_ao));
        }
    } else {
        if left.is_solid() {
            push_face(refs, vertices, 3, IVec3::new(p.x - 1, p.y, p.z), left, with_ao);
        }
        if back.is_solid() {
            push_face(refs, vertices, 5, IVec3::new(p.x, p.y, p.z - 1), back, with_ao);
        }
        if down.is_solid() {
            push_face(refs, vertices, 1, IVec3::new(p.x, p.y - 1, p.z), down, with_ao);
        }
        proof {
            assert(vertices@ =~= v0 + cell_words(*refs, p, with_ao));
        }
    }
}

/// Culled meshing: one quad per face between a solid and an air cell on the low
/// sides of each cell of the middle chunk, in cell order.
fn culled_mesh(chunks_refs: &ChunksRefs, with_ao: bool) -> (r: Option<ChunkMesh>)
    requires
        chunks_refs.wf(),
    ensures
        r is None <==> culled_words(*chunks_refs, 32768, with_ao).len() == 0,
        r matches Some(m) ==> m.vertices@ == culled_words(*chunks_refs, 32768, with_ao) && quad_mesh(m),
{
    let mut vertices: Vec<u32> = Vec::new();
    let mut i: i32 = 0;
    while i < 32768
        invariant
            chunks_refs.wf(),
            0 <= i <= 32768,
            vertices@ == culled_words(*chunks_refs, i as int, with_ao),
            vertices.len() <= 12 * i,
            vertices.len() % 4 == 0,
        decreases 32768 - i,
    {
        let p = crate::utils::index_to_ivec3(i);
        assert(p == local_of(i as int));
        proof {
            lemma_cell_words_quads(*chunks_refs, p, with_ao);
        }
        push_cell(chunks_refs, &mut vertices, p, with_ao);
        i = i + 1;
    }
    if vertices.len() == 0 {
        None
    } else {
        let indices = generate_indices(vertices.len());
        Some(ChunkMesh { vertices, indices })
    }
}

proof fn lemma_face_words_len(refs: ChunksRefs, axis6: int, v: IVec3, b: BlockType, with_ao: bool)
    ensures
        face_words(refs, axis6, v, b, with_ao).len() == 4,
{
    reveal(face_words);
}

proof fn lemma_cell_words_quads(refs: ChunksRefs, p: IVec3, with_ao: bool)
    ensures
        cell_words(refs, p, with_ao).len() % 4 == 0,
        cell_words(refs, p, with_ao).len() <= 12,
{
    reveal(cell_words);
    let back_p = IVec3 { x: p.x, y: p.y, z: (p.z - 1) as i32 };
    let left_p = IVec3 { x: (p.x - 1) as i32, y: p.y, z: p.z };
    let down_p = IVec3 { x: p.x, y: (p.y - 1) as i32, z: p.z };
    let current = refs.block_at_pos(p).block_type;
    lemma_face_words_len(refs, 2, p, current, with_ao);
    lemma_face_words_len(refs, 4, p, current, with_ao);
    lemma_face_words_len(refs, 0, p, current, with_ao);
    lemma_face_words_len(refs, 3, left_p, refs.block_at_pos(left_p).block_type, with_ao);
    lemma_face_words_len(refs, 5, back_p, refs.block_at_pos(back_p).block_type, with_ao);
    lemma_face_words_len(refs, 1, down_p, refs.block_at_pos(down_p).block_type, with_ao);
}

/// Culled meshing with per-vertex ambient occlusion.
pub fn build_chunk_mesh_ao(chunks_refs: &ChunksRefs, _lod: Lod) -> (r: Option<ChunkMesh>)
    requires
        chunks_refs.wf(),
    ensures
        r is None <==> culled_words(*chunks_refs, 32768, true).len() == 0,
        r matches Some(m) ==> m.vertices@ == culled_words(*chunks_refs, 32768, true) && quad_mesh(m),
{
    culled_mesh(chunks_refs, true)
}

/// Culled meshing without ambient occlusion.
pub fn build_chunk_mesh_no_ao(chunks_refs: ChunksRefs, _lod: Lod) -> (r: Option<ChunkMesh>)
    requires
        chunks_refs.wf(),
    ensures
        r is None <==> culled_words(chunks_refs, 32768, false).len() == 0,
        r matches Some(m) ==> m.vertices@ == culled_words(chunks_refs, 32768, false) && quad_mesh(m),
{
    culled_mesh(&chunks_refs, false)
}


/// The k-th of the eight cells around a face of direction `d`, relative to the cell
/// the face is emitted from, going round the face.
pub open spec fn ring_offset(d: FaceDir, k: int) -> IVec3 {
    let t: Seq<(int, int, int)> = match d {
        FaceDir::Left => seq![(-1, 0, -1), (-1, -1, -1), (-1, -1, 0), (-1, -1, 1), (-1, 0, 1), (-1, 1, 1), (-1, 1, 0), (-1, 1, -1)],
        FaceDir::Down => seq![(-1, -1, 0), (-1, -1, -1), (0, -1, -1), (1, -1, -1), (1, -1, 0), (1, -1, 1), (0, -1, 1), (-1, -1, 1)],
        FaceDir::Forward => seq![(0, -1, -1), (-1, -1, -1), (-1, 0, -1), (-1, 1, -1), (0, 1, -1), (1, 1, -1), (1, 0, -1), (1, -1, -1)],
        FaceDir::Right => seq![(0, 0, -1), (0, 1, -1), (0, 1, 0), (0, 1, 1), (0, 0, 1), (0, -1, 1), (0, -1, 0), (0, -1, -1)],
        FaceDir::Up => seq![(-1, 0, 0), (-1, 0, 1), (0, 0, 1), (1, 0, 1), (1, 0, 0), (1, 0, -1), (0, 0, -1), (-1, 0, -1)],
        FaceDir::Back => seq![(0, -1, 0), (1, -1, 0), (1, 0, 0), (1, 1, 0), (0, 1, 0), (-1, 1, 0), (-1, 0, 0), (-1, -1, 0)],
    };
    IVec3 { x: t[k].0 as i32, y: t[k].1 as i32, z: t[k].2 as i32 }
}

/// Whether each of the eight cells around a face of direction `direction`, emitted
/// from `local_pos`, is solid, going round the face.
pub fn ambient_corner_voxels(chunks_refs: &ChunksRefs, direction: FaceDir, local_pos: IVec3) -> (r: [bool; 8])
    requires
        chunks_refs.wf(),
        0 <= local_pos.x < 32,
        0 <= local_pos.y < 32,
        0 <= local_pos.z < 32,
    ensures
        forall|k: int| 0 <= k < 8 ==> #[trigger] r@[k] == chunks_refs.solid_at(offset_pos(local_pos, ring_offset(direction, k))),
{
    let t: [(i32, i32, i32); 8] = match direction {
        FaceDir::Left => [(-1, 0, -1), (-1, -1, -1), (-1, -1, 0), (-1, -1, 1), (-1, 0, 1), (-1, 1, 1), (-1, 1, 0), (-1, 1, -1)],
        FaceDir::Down => [(-1, -1, 0), (-1, -1, -1), (0, -1, -1), (1, -1, -1), (1, -1, 0), (1, -1, 1), (0, -1, 1), (-1, -1, 1)],
        FaceDir::Forward => [(0, -1, -1), (-1, -1, -1), (-1, 0, -1), (-1, 1, -1), (0, 1, -1), (1, 1, -1), (1, 0, -1), (1, -1, -1)],
        FaceDir::Right => [(0, 0, -1), (0, 1, -1), (0, 1, 0), (0, 1, 1), (0, 0, 1), (0, -1, 1), (0, -1, 0), (0, -1, -1)],
        FaceDir::Up => [(-1, 0, 0), (-1, 0, 1), (0, 0, 1), (1, 0, 1), (1, 0, 0), (1, 0, -1), (0, 0, -1), (-1, 0, -1)],
        FaceDir::Back => [(0, -1, 0), (1, -1, 0), (1, 0, 0), (1, 1, 0), (0, 1, 0), (-1, 1, 0), (-1, 0, 0), (-1, -1, 0)],
    };
    let mut result = [false; 8];
    let mut k: usize = 0;
    while k < 8
        invariant
            chunks_refs.wf(),
            0 <= local_pos.x < 32,
            0 <= local_pos.y < 32,
            0 <= local_pos.z < 32,
            k <= 8,
            forall|m: int| 0 <= m < 8 ==> ({
                let o = #[trigger] ring_offset(direction, m);
                t@[m].0 == o.x && t@[m].1 == o.y && t@[m].2 == o.z && -1 <= o.x <= 1 && -1 <= o.y <= 1 && -1 <= o.z <= 1
            }),
            forall|m: int| 0 <= m < k ==> #[trigger] result@[m] == chunks_refs.solid_at(offset_pos(local_pos, ring_offset(direction, m))),
        decreases 8 - k,
    {
        let (dx, dy, dz) = t[k];
        let ghost o = ring_offset(direction, k as int);
        assert(dx == o.x && dy == o.y && dz == o.z);
        let p = local_pos.add(IVec3::new(dx, dy, dz));
        assert(p == offset_pos(local_pos, ring_offset(direction, k as int)));
        result[k] = chunks_refs.get_block(p).block_type.is_solid();
        k = k + 1;
    }
    result
}

/// `ambient_corner_voxels`, always available.
pub fn ambient_corner_voxels_cloned(chunks_refs: &ChunksRefs, direction: FaceDir, local_pos: IVec3) -> (r: Option<[bool; 8]>)
    requires
        chunks_refs.wf(),
        0 <= local_pos.x < 32,
        0 <= local_pos.y < 32,
        0 <= local_pos.z < 32,
    ensures
        r matches Some(a) && forall|k: int| 0 <= k < 8 ==> #[trigger] a@[k] == chunks_refs.solid_at(offset_pos(local_pos, ring_offset(direction, k))),
{
    Some(ambient_corner_voxels(chunks_refs, direction, local_pos))
}

} // verus!
