use vstd::prelude::*;
use crate::bitplane::{ao_bit, lemma_key_bits_unique, lemma_key_compose, lemma_set_row_bit, lemma_zero_row, row_bit};
use crate::chunk_mesh::ChunkMesh;
use crate::chunks_refs::{offset_pos, ChunksRefs};
use crate::face_direction::{air_dir_of, negate_of, sample_of, FaceDir};
use crate::greedy_mesher_optimized::{
    covered, covers, greedy_mesh_binary_plane as merge_plane, pairwise_disjoint, quad_fits,
    quad_in_plane, quad_mesh, quad_vertex_words, quad_words, row_major, sweep_step, GreedyQuad as PlaneQuad, PlaneSlot,
};
use crate::lod::Lod;
use crate::math::IVec3;
use crate::utils::generate_indices;
use crate::voxel::{block_id, meshable_block_types, BlockType};

verus! {

broadcast use crate::greedy_mesher_optimized::lemma_quad_words_len;

/// A rectangle of a binary plane: rows `x .. x + w`, bits `y .. y + h`.
#[derive(Copy, Clone, Debug)]
pub struct GreedyQuad {
    pub x: u32,
    pub y: u32,
    pub w: u32,
    pub h: u32,
}

/// The same rectangle as a plane quad.
pub open spec fn plane_quad(q: GreedyQuad) -> PlaneQuad {
    PlaneQuad { x: q.x, y: q.y, w: q.w, h: q.h }
}

/// The plane quads of a list of rectangles.
pub open spec fn plane_quads(qs: Seq<GreedyQuad>) -> Seq<PlaneQuad> {
    qs.map_values(|q: GreedyQuad| plane_quad(q))
}

impl GreedyQuad {
    /// Appends the four packed vertices of this quad, placed one layer back along the
    /// face axis as `negate_axis` says, with occlusion key `ao` and block type id
    /// `block_type`.
    pub fn append_vertices(
        &self,
        vertices: &mut Vec<u32>,
        face_dir: FaceDir,
        axis: u32,
        lod: &Lod,
        ao: u32,
        block_type: u32,
    )
        requires
            quad_in_plane(plane_quad(*self)),
            axis < 32,
            *lod == Lod::L32,
            ao < 0x200,
            block_type < 128,
            old(vertices).len() + 4 <= usize::MAX,
        ensures
            final(vertices)@ == old(vertices)@ + quad_words(
                plane_quad(*self),
                face_dir,
                axis + negate_of(face_dir),
                1,
                ao,
                block_type as int,
            ),
    {
        let axis = axis as i32 + face_dir.negate_axis();
        let q = PlaneQuad { x: self.x, y: self.y, w: self.w, h: self.h };
        assert(quad_fits(q, face_dir, axis as int, 1));
        let quad = quad_vertex_words(&q, face_dir, axis, lod, ao, block_type, true);
        vertices.push(quad[0]);
        vertices.push(quad[1]);
        vertices.push(quad[2]);
        vertices.push(quad[3]);
        proof {
            assert(final(vertices)@ =~= old(vertices)@ + quad@);
        }
    }
}

/// Merges the set bits of a plane into rectangles, as the binary greedy mesher does.
pub fn greedy_mesh_binary_plane(data: [u32; 32], lod_size: u32) -> (r: Vec<GreedyQuad>)
    requires
        lod_size <= 32,
    ensures
        r.len() <= 1024,
        forall|k: int| 0 <= k < r.len() ==> quad_in_plane(plane_quad(#[trigger] r[k])),
        pairwise_disjoint(plane_quads(r@)),
        forall|row: int, b: u32|
            0 <= row < 32 && b < 32 && #[trigger] covered(plane_quads(r@), row, b as int) ==> row_bit(
                data@[row],
                b,
            ),
        forall|row: int, b: u32|
            0 <= row < 32 && b < lod_size && #[trigger] row_bit(data@[row], b) ==> covered(
                plane_quads(r@),
                row,
                b as int,
            ),
        forall|i: int, j: int| 0 <= i < j < r.len() ==> row_major(plane_quad(#[trigger] r@[i]), plane_quad(#[trigger] r@[j])),
        forall|k: int| 0 <= k < r.len() ==> #[trigger] sweep_step(data@, plane_quads(r@), k, lod_size as int),
{
    let quads = merge_plane(data, lod_size);
    let mut r: Vec<GreedyQuad> = Vec::new();
    let mut i: usize = 0;
    while i < quads.len()
        invariant
            i <= quads.len(),
            r.len() == i,
            forall|k: int| 0 <= k < i ==> plane_quad(#[trigger] r@[k]) == quads@[k],
        decreases quads.len() - i,
    {
        let q = quads[i];
        r.push(GreedyQuad { x: q.x, y: q.y, w: q.w, h: q.h });
        i = i + 1;
    }
    assert(plane_quads(r@) =~= quads@);
    assert forall|i: int, j: int| 0 <= i < j < r.len() implies row_major(plane_quad(#[trigger] r@[i]), plane_quad(#[trigger] r@[j])) by {
        assert(plane_quad(r@[i]) == quads@[i] && plane_quad(r@[j]) == quads@[j]);
    }
    r
}


/// The voxel at row `x`, column `y` of layer `axis` of the planes facing `d`.
pub open spec fn cell_voxel(d: FaceDir, axis: int, x: int, y: int) -> IVec3 {
    let p = sample_of(d, axis, x, y);
    IVec3 { x: p.0 as i32, y: p.1 as i32, z: p.2 as i32 }
}

/// Whether that voxel is solid and the cell next to it towards `d` is air.
pub open spec fn layer_face(refs: ChunksRefs, d: FaceDir, axis: int, x: int, y: int) -> bool {
    refs.solid_at(cell_voxel(d, axis, x, y)) && !refs.solid_at(offset_pos(cell_voxel(d, axis, x, y), air_dir_of(d)))
}

/// Whether the i-th cell of the 3 x 3 pattern around `(x, y)`, `(i / 3 - 1, i % 3 - 1)`
/// in plane coordinates, is solid on the air side of the layer.
pub open spec fn ring_solid(refs: ChunksRefs, d: FaceDir, axis: int, x: int, y: int, i: int) -> bool {
    refs.solid_at(offset_pos(cell_voxel(d, axis, x + i / 3 - 1, y + i % 3 - 1), air_dir_of(d)))
}

/// Whether `key` is the merge key of cell `(x, y)`: with occlusion, the solid ring
/// pattern in its low nine bits and the block type id above them; without, the block
/// type id alone.
pub open spec fn cell_matches(key: u32, refs: ChunksRefs, d: FaceDir, axis: int, x: int, y: int, with_ao: bool) -> bool {
    if with_ao {
        &&& key < 0x800
        &&& key >> 9u32 == block_id(refs.block_at_pos(cell_voxel(d, axis, x, y)).block_type)
        &&& forall|i: u32| i < 9 ==> (#[trigger] ao_bit(key, i) <==> ring_solid(refs, d, axis, x, y, i as int))
    } else {
        key == block_id(refs.block_at_pos(cell_voxel(d, axis, x, y)).block_type)
    }
}

/// The merge key of one cell.
fn cell_key(refs: &ChunksRefs, d: FaceDir, axis: i32, x: i32, y: i32, with_ao: bool) -> (r: u32)
    requires
        refs.wf(),
        0 <= axis < 32,
        0 <= x < 32,
        0 <= y < 32,
    ensures
        cell_matches(r, *refs, d, axis as int, x as int, y as int, with_ao),
        r < 0x800,
{
    let lod = Lod::L32;
    let pos = d.world_to_sample(axis, x, y, &lod);
    let block = refs.get_block(pos).block_type.id();
    assert(pos == cell_voxel(d, axis as int, x as int, y as int));
    if !with_ao {
        return block;
    }
    let air = d.air_sample_dir();
    let mut ao: u32 = 0;
    let mut i: u32 = 0;
    proof {
        assert forall|j: u32| j < 32 implies !ao_bit(ao, j) by {
            lemma_zero_row(j);
        }
    }
    while i < 9
        invariant
            refs.wf(),
            0 <= axis < 32,
            0 <= x < 32,
            0 <= y < 32,
            air == air_dir_of(d),
            i <= 9,
            ao < 0x200,
            forall|j: u32| i <= j < 32 ==> !#[trigger] ao_bit(ao, j),
            forall|j: u32| j < i ==> (#[trigger] ao_bit(ao, j) <==> ring_solid(*refs, d, axis as int, x as int, y as int, j as int)),
        decreases 9 - i,
    {
        let dx = (i / 3) as i32 - 1;
        let dy = (i % 3) as i32 - 1;
        let p = d.world_to_sample(axis, x + dx, y + dy, &lod);
        let q = p.add(air);
        assert(q == offset_pos(cell_voxel(d, axis as int, x + i / 3 - 1, y + i % 3 - 1), air_dir_of(d)));
        let solid = refs.get_block(q).block_type.is_solid();
        let ghost before = ao;
        if solid {
            ao = ao | (1u32 << i);
        }
        proof {
            if solid {
                assert(before | (1u32 << i) < 0x200) by (bit_vector)
                    requires
                        before < 0x200,
                        i < 9,
                ;
            }
            assert forall|j: u32| j < 32 implies (#[trigger] ao_bit(ao, j) <==> (ao_bit(before, j) || (solid && j == i))) by {
                if solid {
                    lemma_set_row_bit(before, i, j);
                }
            }
        }
        i = i + 1;
    }
    proof {
        lemma_key_compose(ao, block);
    }
    ao | (block << 9u32)
}

/// Two keys that match one cell are equal.
proof fn lemma_cell_key_unique(k1: u32, k2: u32, refs: ChunksRefs, d: FaceDir, axis: int, x: int, y: int, with_ao: bool)
    requires
        cell_matches(k1, refs, d, axis, x, y, with_ao),
        cell_matches(k2, refs, d, axis, x, y, with_ao),
    ensures
        k1 == k2,
{
    if with_ao {
        assert(ao_bit(k1, 0) == ao_bit(k2, 0));
        assert(ao_bit(k1, 1) == ao_bit(k2, 1));
        assert(ao_bit(k1, 2) == ao_bit(k2, 2));
        assert(ao_bit(k1, 3) == ao_bit(k2, 3));
        assert(ao_bit(k1, 4) == ao_bit(k2, 4));
        assert(ao_bit(k1, 5) == ao_bit(k2, 5));
        assert(ao_bit(k1, 6) == ao_bit(k2, 6));
        assert(ao_bit(k1, 7) == ao_bit(k2, 7));
        assert(ao_bit(k1, 8) == ao_bit(k2, 8));
        lemma_key_bits_unique(k1, k2);
    }
}

/// Whether cell `(x, y)` comes before flat cell index `i` (rows vary fastest).
pub open spec fn cell_before(i: int, x: int, y: int) -> bool {
    y * 32 + x < i
}

pub open spec fn layer_inv(refs: ChunksRefs, d: FaceDir, axis: int, with_ao: bool, slots: Seq<PlaneSlot>, i: int) -> bool {
    &&& forall|e: int| 0 <= e < slots.len() ==> (#[trigger] slots[e]).axis_pos == axis && slots[e].key < 0x800
    &&& forall|e1: int, e2: int| 0 <= e1 < e2 < slots.len() ==> (#[trigger] slots[e1]).key != (#[trigger] slots[e2]).key
    &&& forall|e: int, x: int, y: u32|
        0 <= e < slots.len() && 0 <= x < 32 && y < 32 ==> (#[trigger] row_bit(slots[e].rows[x], y) <==> (cell_before(
            i,
            x,
            y as int,
        ) && layer_face(refs, d, axis, x, y as int) && cell_matches(slots[e].key, refs, d, axis, x, y as int, with_ao)))
    &&& forall|x: int, y: int|
        0 <= x < 32 && 0 <= y < 32 && #[trigger] cell_before(i, x, y) ==> exists|e: int|
            0 <= e < slots.len() && cell_matches(#[trigger] slots[e].key, refs, d, axis, x, y, with_ao)
}

/// The planes of layer `axis` facing `d`, one per merge key: bit `y` of row `x` is set
/// iff cell `(x, y)` shows a face and has that key.
fn layer_planes(refs: &ChunksRefs, d: FaceDir, axis: u32, with_ao: bool) -> (r: Vec<PlaneSlot>)
    requires
        refs.wf(),
        axis < 32,
    ensures
        r.len() <= 1024,
        layer_inv(*refs, d, axis as int, with_ao, r@, 1024),
{
    let mut slots: Vec<PlaneSlot> = Vec::new();
    let mut i: u32 = 0;
    while i < 1024
        invariant
            refs.wf(),
            axis < 32,
            i <= 1024,
            slots.len() <= i,
            layer_inv(*refs, d, axis as int, with_ao, slots@, i as int),
        decreases 1024 - i,
    {
        let x = i % 32;
        let y = i / 32;
        assert(y * 32 + x == i);
        let lod = Lod::L32;
        let pos = d.world_to_sample(axis as i32, x as i32, y as i32, &lod);
        assert(pos == cell_voxel(d, axis as int, x as int, y as int));
        let neighbour = pos.add(d.air_sample_dir());
        let is_face = refs.get_block(pos).block_type.is_solid() && !refs.get_block(neighbour).block_type.is_solid();
        let key = cell_key(refs, d, axis as i32, x as i32, y as i32, with_ao);
        let mut e: usize = 0;
        while e < slots.len() && slots[e].key != key
            invariant
                e <= slots.len(),
                forall|f: int| 0 <= f < e ==> (#[trigger] slots@[f]).key != key,
            decreases slots.len() - e,
        {
            e = e + 1;
        }
        let ghost s0 = slots@;
        if e == slots.len() {
            slots.push(PlaneSlot { axis_pos: axis, key, rows: [0u32; 32] });
            proof {
                assert(slots@.subrange(0, e as int) =~= s0);
                assert forall|xx: int, yy: u32| 0 <= xx < 32 && yy < 32 implies !row_bit(slots@[e as int].rows[xx], yy) by {
                    lemma_zero_row(yy);
                }
            }
        }
        let ghost s1 = slots@;
        if is_face {
            let mut slot = slots[e];
            let row = slot.rows[x as usize];
            slot.rows[x as usize] = row | (1u32 << y);
            slots.set(e, slot);
        }
        proof {
            lemma_layer_step(*refs, d, axis as int, with_ao, s0, s1, slots@, i as int, x as int, y as int, e as int, key, is_face);
        }
        i = i + 1;
    }
    slots
}

proof fn lemma_layer_step(
    refs: ChunksRefs,
    d: FaceDir,
    axis: int,
    with_ao: bool,
    s0: Seq<PlaneSlot>,
    s1: Seq<PlaneSlot>,
    s2: Seq<PlaneSlot>,
    i: int,
    x: int,
    y: int,
    e: int,
    key: u32,
    is_face: bool,
)
    requires
        0 <= i < 1024,
        0 <= x < 32,
        0 <= y < 32,
        y * 32 + x == i,
        0 <= axis < 32,
        key < 0x800,
        layer_inv(refs, d, axis, with_ao, s0, i),
        cell_matches(key, refs, d, axis, x, y, with_ao),
        is_face == layer_face(refs, d, axis, x, y),
        0 <= e <= s0.len(),
        forall|f: int| 0 <= f < e ==> (#[trigger] s0[f]).key != key,
        e < s0.len() ==> s0[e].key == key && s1 == s0,
        e == s0.len() ==> s1.len() == s0.len() + 1 && s1.subrange(0, e) == s0 && s1[e].axis_pos == axis
            && s1[e].key == key && forall|xx: int, yy: u32| 0 <= xx < 32 && yy < 32 ==> !row_bit(s1[e].rows[xx], yy),
        !is_face ==> s2 == s1,
        is_face ==> s2.len() == s1.len() && (forall|f: int| 0 <= f < s1.len() && f != e ==> s2[f] == s1[f])
            && s2[e].axis_pos == s1[e].axis_pos && s2[e].key == s1[e].key
            && (forall|xx: int| 0 <= xx < 32 && xx != x ==> s2[e].rows[xx] == s1[e].rows[xx])
            && s2[e].rows[x] == s1[e].rows[x] | (1u32 << y as u32),
    ensures
        layer_inv(refs, d, axis, with_ao, s2, i + 1),
        s2.len() <= s0.len() + 1,
{
    assert(0 <= e < s1.len());
    assert forall|f: int| 0 <= f < s1.len() implies (#[trigger] s1[f]).axis_pos == axis && s1[f].key < 0x800
        && (f < s0.len() ==> s1[f] == s0[f]) by {
        if e == s0.len() && f < e {
            assert(s1[f] == s1.subrange(0, e)[f]);
        }
    }
    assert forall|f: int| 0 <= f < s2.len() implies (#[trigger] s2[f]).axis_pos == axis && s2[f].key == s1[f].key by {
    }
    assert forall|e1: int, e2: int| 0 <= e1 < e2 < s2.len() implies (#[trigger] s2[e1]).key != (#[trigger] s2[e2]).key by {
        assert(s2[e1].key == s1[e1].key && s2[e2].key == s1[e2].key);
        if e2 == s0.len() {
            assert(s1[e1] == s0[e1]);
        } else {
            assert(s1[e1] == s0[e1] && s1[e2] == s0[e2]);
        }
    }
    assert forall|f: int, xx: int, yy: u32|
        0 <= f < s2.len() && 0 <= xx < 32 && yy < 32 implies (#[trigger] row_bit(s2[f].rows[xx], yy) <==> (cell_before(
            i + 1,
            xx,
            yy as int,
        ) && layer_face(refs, d, axis, xx, yy as int) && cell_matches(s2[f].key, refs, d, axis, xx, yy as int, with_ao))) by {
        let yi = yy as int;
        // the bit before this step
        let b1 = row_bit(s1[f].rows[xx], yy);
        if is_face && f == e && xx == x {
            lemma_set_row_bit(s1[e].rows[x], y as u32, yy);
        }
        assert(row_bit(s2[f].rows[xx], yy) == (b1 || (is_face && f == e && xx == x && yi == y)));
        if f < s0.len() {
            assert(s1[f] == s0[f]);
            assert(b1 <==> (cell_before(i, xx, yi) && layer_face(refs, d, axis, xx, yi) && cell_matches(s0[f].key, refs, d, axis, xx, yi, with_ao)));
        } else {
            assert(f == e && e == s0.len());
            assert(!b1);
            if cell_before(i, xx, yi) && layer_face(refs, d, axis, xx, yi) && cell_matches(key, refs, d, axis, xx, yi, with_ao) {
                assert(cell_before(i, xx, yi));
                let g = choose|g: int| 0 <= g < s0.len() && cell_matches(#[trigger] s0[g].key, refs, d, axis, xx, yi, with_ao);
                lemma_cell_key_unique(s0[g].key, key, refs, d, axis, xx, yi, with_ao);
                assert(s0[g].key != key);
            }
        }
        if xx == x && yi == y {
            assert(!cell_before(i, xx, yi));
            if cell_matches(s2[f].key, refs, d, axis, xx, yi, with_ao) {
                lemma_cell_key_unique(s2[f].key, key, refs, d, axis, x, y, with_ao);
                if f != e {
                    if f < e {
                        assert(s0[f].key != key);
                    } else {
                        assert(s1[f] == s0[f]);
                        assert(s0[e].key == key);
                        assert(s2[f].key != s2[e].key);
                    }
                }
            }
        } else {
            assert(cell_before(i + 1, xx, yi) == cell_before(i, xx, yi));
        }
    }
    assert forall|xx: int, yy: int|
        0 <= xx < 32 && 0 <= yy < 32 && #[trigger] cell_before(i + 1, xx, yy) implies exists|f: int|
            0 <= f < s2.len() && cell_matches(#[trigger] s2[f].key, refs, d, axis, xx, yy, with_ao) by {
        if cell_before(i, xx, yy) {
            assert(cell_before(i, xx, yy));
            let f = choose|f: int| 0 <= f < s0.len() && cell_matches(#[trigger] s0[f].key, refs, d, axis, xx, yy, with_ao);
            assert(s1[f] == s0[f]);
            assert(s2[f].key == s0[f].key);
        } else {
            assert(xx == x && yy == y);
            assert(s2[e].key == key);
        }
    }
}


/// A merged rectangle of one layer of the planes facing a direction, with its merge key.
#[derive(Copy, Clone, Debug)]
pub struct LayerQuad {
    pub layer: u32,
    pub key: u32,
    pub quad: PlaneQuad,
}

/// Whether a layer quad covers cell `(x, y)` of layer `layer`.
pub open spec fn on_cell(lq: LayerQuad, layer: int, x: int, y: int) -> bool {
    lq.layer == layer && covers(lq.quad, x, y)
}

/// Every quad lies in its plane, covers only faces whose key it carries, and no cell is
/// covered twice.
pub open spec fn layer_sound(refs: ChunksRefs, d: FaceDir, with_ao: bool, qs: Seq<LayerQuad>) -> bool {
    &&& forall|j: int| 0 <= j < qs.len() ==> (#[trigger] qs[j]).layer < 32 && qs[j].key < 0x800 && quad_in_plane(qs[j].quad)
    &&& forall|j: int, x: int, y: int|
        0 <= j < qs.len() && #[trigger] covers(qs[j].quad, x, y) ==> layer_face(refs, d, qs[j].layer as int, x, y)
            && cell_matches(qs[j].key, refs, d, qs[j].layer as int, x, y, with_ao)
    &&& forall|i: int, j: int, layer: int, x: int, y: int|
        0 <= i < j < qs.len() && #[trigger] on_cell(qs[i], layer, x, y) ==> !#[trigger] on_cell(qs[j], layer, x, y)
}

/// Every face of the planes facing `d` is covered.
pub open spec fn layer_complete(refs: ChunksRefs, d: FaceDir, qs: Seq<LayerQuad>) -> bool {
    forall|layer: int, x: int, y: int|
        0 <= layer < 32 && 0 <= x < 32 && 0 <= y < 32 && #[trigger] layer_face(refs, d, layer, x, y) ==> exists|j: int|
            0 <= j < qs.len() && #[trigger] on_cell(qs[j], layer, x, y)
}

/// The vertex words of layer quads facing `d`, four per quad, in order; without
/// occlusion both the occlusion and the block type fields are zero.
pub open spec fn layer_words(d: FaceDir, qs: Seq<LayerQuad>, with_ao: bool) -> Seq<u32>
    decreases qs.len(),
{
    if qs.len() == 0 {
        Seq::empty()
    } else {
        let q = qs.last();
        layer_words(d, qs.drop_last(), with_ao) + quad_words(
            q.quad,
            d,
            q.layer + negate_of(d),
            1,
            if with_ao { q.key & 0x1ffu32 } else { 0u32 },
            if with_ao { (q.key >> 9u32) as int } else { 0int },
        )
    }
}

proof fn lemma_layer_words_len(d: FaceDir, qs: Seq<LayerQuad>, with_ao: bool)
    ensures
        layer_words(d, qs, with_ao).len() == 4 * qs.len(),
    decreases qs.len(),
{
    if qs.len() > 0 {
        lemma_layer_words_len(d, qs.drop_last(), with_ao);
    }
}

proof fn lemma_on_cell_persists(qs: Seq<LayerQuad>, lq: LayerQuad, layer: int, x: int, y: int)
    ensures
        (exists|j: int| 0 <= j < qs.len() && #[trigger] on_cell(qs[j], layer, x, y)) ==> exists|j: int|
            0 <= j < qs.push(lq).len() && #[trigger] on_cell(qs.push(lq)[j], layer, x, y),
{
    if exists|j: int| 0 <= j < qs.len() && #[trigger] on_cell(qs[j], layer, x, y) {
        let j = choose|j: int| 0 <= j < qs.len() && #[trigger] on_cell(qs[j], layer, x, y);
        assert(qs.push(lq)[j] == qs[j]);
    }
}

/// Every quad pushed since `layer_start` lies on `layer` and carries the key of the slot
/// it came from, `origin`: an earlier slot than `e` before `slot_start`, at most `e` after.
pub open spec fn origin_ok(
    qs: Seq<LayerQuad>,
    origin: Seq<int>,
    slots: Seq<PlaneSlot>,
    layer_start: int,
    slot_start: int,
    e: int,
    layer: int,
) -> bool {
    forall|j: int|
        layer_start <= j < qs.len() ==> (#[trigger] qs[j]).layer == layer && 0 <= origin[j - layer_start] <= e
            && (j < slot_start ==> origin[j - layer_start] < e) && qs[j].key == slots[origin[j - layer_start]].key
}

proof fn lemma_push_layer_quad(
    refs: ChunksRefs,
    d: FaceDir,
    with_ao: bool,
    qs: Seq<LayerQuad>,
    lq: LayerQuad,
    origin: Seq<int>,
    layer_start: int,
    slot_start: int,
    slots: Seq<PlaneSlot>,
    e: int,
    quads: Seq<PlaneQuad>,
    k: int,
)
    requires
        0 <= e < slots.len(),
        0 <= k < quads.len(),
        lq == (LayerQuad { layer: slots[e].axis_pos, key: slots[e].key, quad: quads[k] }),
        forall|m: int| 0 <= m < quads.len() ==> quad_in_plane(#[trigger] quads[m]),
        pairwise_disjoint(quads),
        forall|row: int, b: u32|
            0 <= row < 32 && b < 32 && #[trigger] covered(quads, row, b as int) ==> row_bit(slots[e].rows@[row], b),
        0 <= layer_start <= slot_start,
        qs.len() == slot_start + k,
        origin.len() == qs.len() - layer_start,
        forall|m: int| 0 <= m < k ==> #[trigger] qs[slot_start + m] == (LayerQuad {
            layer: slots[e].axis_pos,
            key: slots[e].key,
            quad: quads[m],
        }),
        layer_inv(refs, d, slots[e].axis_pos as int, with_ao, slots, 1024),
        slots[e].axis_pos < 32,
        layer_sound(refs, d, with_ao, qs),
        forall|j: int| 0 <= j < layer_start ==> (#[trigger] qs[j]).layer < slots[e].axis_pos,
        origin_ok(qs, origin, slots, layer_start, slot_start, e, slots[e].axis_pos as int),
    ensures
        layer_sound(refs, d, with_ao, qs.push(lq)),
{
    let q1 = qs.push(lq);
    let layer = slots[e].axis_pos as int;
    assert(quad_in_plane(quads[k]));
    assert forall|j: int| 0 <= j < q1.len() implies (#[trigger] q1[j]).layer < 32 && q1[j].key < 0x800 && quad_in_plane(q1[j].quad) by {
        if j < qs.len() {
            assert(q1[j] == qs[j]);
        }
    }
    assert forall|j: int, x: int, y: int|
        0 <= j < q1.len() && #[trigger] covers(q1[j].quad, x, y) implies layer_face(refs, d, q1[j].layer as int, x, y)
            && cell_matches(q1[j].key, refs, d, q1[j].layer as int, x, y, with_ao) by {
        if j < qs.len() {
            assert(q1[j] == qs[j]);
        } else {
            assert(covers(quads[k], x, y));
            assert(covered(quads, x, (y as u32) as int));
            assert(row_bit(slots[e].rows@[x], y as u32));
        }
    }
    assert forall|i: int, j: int, l: int, x: int, y: int|
        0 <= i < j < q1.len() && #[trigger] on_cell(q1[i], l, x, y) implies !#[trigger] on_cell(q1[j], l, x, y) by {
        if j < qs.len() {
            assert(q1[i] == qs[i] && q1[j] == qs[j]);
        } else if on_cell(q1[j], l, x, y) {
            assert(q1[i] == qs[i]);
            if i >= slot_start {
                let m = i - slot_start;
                assert(qs[slot_start + m] == (LayerQuad { layer: slots[e].axis_pos, key: slots[e].key, quad: quads[m] }));
                assert(covers(quads[m], x, y));
                assert(!covers(quads[k], x, y));
            } else if i >= layer_start {
                let o = origin[i - layer_start];
                assert(qs[i].layer == slots[e].axis_pos);
                assert(covers(qs[i].quad, x, y));
                assert(cell_matches(qs[i].key, refs, d, layer, x, y, with_ao));
                assert(covers(quads[k], x, y));
                assert(covered(quads, x, (y as u32) as int));
                assert(row_bit(slots[e].rows@[x], y as u32));
                lemma_cell_key_unique(qs[i].key, slots[e].key, refs, d, layer, x, y, with_ao);
                assert(slots[o].key == slots[e].key);
                assert(o < e);
                assert(slots[o].key != slots[e].key);
            }
        }
    }
}

proof fn lemma_origin_push(
    qs: Seq<LayerQuad>,
    lq: LayerQuad,
    origin: Seq<int>,
    slots: Seq<PlaneSlot>,
    layer_start: int,
    slot_start: int,
    e: int,
    layer: int,
)
    requires
        origin_ok(qs, origin, slots, layer_start, slot_start, e, layer),
        origin.len() == qs.len() - layer_start,
        0 <= layer_start <= slot_start <= qs.len(),
        0 <= e < slots.len(),
        lq.layer == layer,
        lq.key == slots[e].key,
    ensures
        origin_ok(qs.push(lq), origin.push(e), slots, layer_start, slot_start, e, layer),
{
    let q1 = qs.push(lq);
    let o1 = origin.push(e);
    assert forall|j: int| layer_start <= j < q1.len() implies (#[trigger] q1[j]).layer == layer && 0 <= o1[j - layer_start] <= e
        && (j < slot_start ==> o1[j - layer_start] < e) && q1[j].key == slots[o1[j - layer_start]].key by {
        if j < qs.len() {
            assert(q1[j] == qs[j]);
            assert(o1[j - layer_start] == origin[j - layer_start]);
        } else {
            assert(o1[j - layer_start] == e);
        }
    }
}

proof fn lemma_origin_next(
    qs: Seq<LayerQuad>,
    origin: Seq<int>,
    slots: Seq<PlaneSlot>,
    layer_start: int,
    slot_start: int,
    e: int,
    layer: int,
)
    requires
        origin_ok(qs, origin, slots, layer_start, slot_start, e, layer),
    ensures
        origin_ok(qs, origin, slots, layer_start, qs.len() as int, e + 1, layer),
{
}

/// The merged quads of all planes facing `d`, layer by layer and key by key.
fn layer_quads(refs: &ChunksRefs, d: FaceDir, with_ao: bool) -> (r: Vec<LayerQuad>)
    requires
        refs.wf(),
    ensures
        layer_sound(*refs, d, with_ao, r@),
        layer_complete(*refs, d, r@),
        r.len() <= 32 * 0x10_0000,
{
    let mut qs: Vec<LayerQuad> = Vec::new();
    let mut axis: u32 = 0;
    while axis < 32
        invariant
            refs.wf(),
            axis <= 32,
            qs.len() <= axis * 0x10_0000,
            layer_sound(*refs, d, with_ao, qs@),
            forall|j: int| 0 <= j < qs.len() ==> (#[trigger] qs@[j]).layer < axis,
            forall|l: int, x: int, y: int|
                0 <= l < axis && 0 <= x < 32 && 0 <= y < 32 && #[trigger] layer_face(*refs, d, l, x, y) ==> exists|j: int|
                    0 <= j < qs.len() && #[trigger] on_cell(qs@[j], l, x, y),
        decreases 32 - axis,
    {
        let slots = layer_planes(refs, d, axis, with_ao);
        let layer_start = qs.len();
        let ghost mut origin: Seq<int> = Seq::empty();
        let mut e: usize = 0;
        while e < slots.len()
            invariant
                refs.wf(),
                axis < 32,
                slots.len() <= 1024,
                layer_inv(*refs, d, axis as int, with_ao, slots@, 1024),
                e <= slots.len(),
                layer_start <= axis * 0x10_0000,
                layer_start <= qs.len() <= layer_start + e * 1024,
                origin.len() == qs.len() - layer_start,
                layer_sound(*refs, d, with_ao, qs@),
                forall|j: int| 0 <= j < layer_start ==> (#[trigger] qs@[j]).layer < axis,
                origin_ok(qs@, origin, slots@, layer_start as int, qs.len() as int, e as int, axis as int),
                forall|l: int, x: int, y: int|
                    0 <= l < axis && 0 <= x < 32 && 0 <= y < 32 && #[trigger] layer_face(*refs, d, l, x, y) ==> exists|j: int|
                        0 <= j < qs.len() && #[trigger] on_cell(qs@[j], l, x, y),
                forall|f: int, x: int, y: u32|
                    0 <= f < e && 0 <= x < 32 && y < 32 && #[trigger] row_bit(slots[f].rows[x], y) ==> exists|j: int|
                        0 <= j < qs.len() && #[trigger] on_cell(qs@[j], axis as int, x, y as int),
            decreases slots.len() - e,
        {
            let slot = slots[e];
            let quads = merge_plane(slot.rows, 32);
            let slot_start = qs.len();
            let mut k: usize = 0;
            while k < quads.len()
                invariant
                    refs.wf(),
                    axis < 32,
                    e < slots.len(),
                    slot == slots[e as int],
                    slots.len() <= 1024,
                    layer_inv(*refs, d, axis as int, with_ao, slots@, 1024),
                    quads.len() <= 1024,
                    forall|m: int| 0 <= m < quads.len() ==> quad_in_plane(#[trigger] quads[m]),
                    pairwise_disjoint(quads@),
                    forall|row: int, b: u32|
                        0 <= row < 32 && b < 32 && #[trigger] covered(quads@, row, b as int) ==> row_bit(slot.rows@[row], b),
                    layer_start <= slot_start <= layer_start + e * 1024,
                    k <= quads.len(),
                    qs.len() == slot_start + k,
                    origin.len() == qs.len() - layer_start,
                    forall|m: int| 0 <= m < k ==> #[trigger] qs@[slot_start + m] == (LayerQuad {
                        layer: slot.axis_pos,
                        key: slot.key,
                        quad: quads@[m],
                    }),
                    layer_sound(*refs, d, with_ao, qs@),
                    forall|j: int| 0 <= j < layer_start ==> (#[trigger] qs@[j]).layer < axis,
                    origin_ok(qs@, origin, slots@, layer_start as int, slot_start as int, e as int, axis as int),
                    forall|l: int, x: int, y: int|
                        0 <= l < axis && 0 <= x < 32 && 0 <= y < 32 && #[trigger] layer_face(*refs, d, l, x, y) ==> exists|j: int|
                            0 <= j < qs.len() && #[trigger] on_cell(qs@[j], l, x, y),
                    forall|f: int, x: int, y: u32|
                        0 <= f < e && 0 <= x < 32 && y < 32 && #[trigger] row_bit(slots[f].rows[x], y) ==> exists|j: int|
                            0 <= j < qs.len() && #[trigger] on_cell(qs@[j], axis as int, x, y as int),
                decreases quads.len() - k,
            {
                let lq = LayerQuad { layer: slot.axis_pos, key: slot.key, quad: quads[k] };
                let ghost q0 = qs@;
                proof {
                    assert(slots@[e as int].axis_pos == axis);
                    lemma_push_layer_quad(*refs, d, with_ao, q0, lq, origin, layer_start as int, slot_start as int, slots@, e as int, quads@, k as int);
                }
                qs.push(lq);
                proof {
                    lemma_origin_push(q0, lq, origin, slots@, layer_start as int, slot_start as int, e as int, axis as int);
                    origin = origin.push(e as int);
                    assert(qs@ == q0.push(lq));
                    assert forall|l: int, x: int, y: int|
                        0 <= l < axis && 0 <= x < 32 && 0 <= y < 32 && #[trigger] layer_face(*refs, d, l, x, y) implies exists|j: int|
                            0 <= j < qs.len() && #[trigger] on_cell(qs@[j], l, x, y) by {
                        lemma_on_cell_persists(q0, lq, l, x, y);
                    }
                    assert forall|f: int, x: int, y: u32|
                        0 <= f < e && 0 <= x < 32 && y < 32 && #[trigger] row_bit(slots[f].rows[x], y) implies exists|j: int|
                            0 <= j < qs.len() && #[trigger] on_cell(qs@[j], axis as int, x, y as int) by {
                        lemma_on_cell_persists(q0, lq, axis as int, x, y as int);
                    }
                }
                k = k + 1;
            }
            proof {
                assert forall|f: int, x: int, y: u32|
                    0 <= f < e + 1 && 0 <= x < 32 && y < 32 && #[trigger] row_bit(slots[f].rows[x], y) implies exists|j: int|
                        0 <= j < qs.len() && #[trigger] on_cell(qs@[j], axis as int, x, y as int) by {
                    if f == e {
                        assert(covered(quads@, x, y as int));
                        let m = choose|m: int| 0 <= m < quads.len() && covers(#[trigger] quads@[m], x, y as int);
                        assert(on_cell(qs@[slot_start + m], axis as int, x, y as int));
                    }
                }
            }
            proof {
                lemma_origin_next(qs@, origin, slots@, layer_start as int, slot_start as int, e as int, axis as int);
            }
            e = e + 1;
        }
        proof {
            assert forall|l: int, x: int, y: int|
                0 <= l < axis + 1 && 0 <= x < 32 && 0 <= y < 32 && #[trigger] layer_face(*refs, d, l, x, y) implies exists|j: int|
                    0 <= j < qs.len() && #[trigger] on_cell(qs@[j], l, x, y) by {
                if l == axis {
                    assert(cell_before(1024, x, y));
                    let f = choose|f: int| 0 <= f < slots.len() && cell_matches(#[trigger] slots@[f].key, *refs, d, l, x, y, with_ao);
                    assert(row_bit(slots@[f].rows[x], y as u32));
                }
            }
        }
        axis = axis + 1;
    }
    qs
}

proof fn lemma_layer_words_step(d: FaceDir, qs: Seq<LayerQuad>, j: int, with_ao: bool)
    requires
        0 <= j < qs.len(),
    ensures
        layer_words(d, qs.subrange(0, j + 1), with_ao) == layer_words(d, qs.subrange(0, j), with_ao) + quad_words(
            qs[j].quad,
            d,
            qs[j].layer + negate_of(d),
            1,
            if with_ao { qs[j].key & 0x1ffu32 } else { 0u32 },
            if with_ao { (qs[j].key >> 9u32) as int } else { 0int },
        ),
{
    let s1 = qs.subrange(0, j + 1);
    assert(s1.drop_last() =~= qs.subrange(0, j));
    assert(s1.last() == qs[j]);
}

/// The words of a list of layer quads.
fn emit_layer_quads(qs: &Vec<LayerQuad>, d: FaceDir, with_ao: bool) -> (r: Vec<u32>)
    requires
        forall|j: int| 0 <= j < qs.len() ==> (#[trigger] qs@[j]).layer < 32 && qs@[j].key < 0x800 && quad_in_plane(qs@[j].quad),
        qs.len() <= 32 * 0x10_0000,
    ensures
        r@ == layer_words(d, qs@, with_ao),
{
    let lod = Lod::L32;
    let mut vertices: Vec<u32> = Vec::new();
    let mut j: usize = 0;
    while j < qs.len()
        invariant
            j <= qs.len(),
            lod == Lod::L32,
            qs.len() <= 32 * 0x10_0000,
            forall|i: int| 0 <= i < qs.len() ==> (#[trigger] qs@[i]).layer < 32 && qs@[i].key < 0x800 && quad_in_plane(qs@[i].quad),
            vertices@ == layer_words(d, qs@.subrange(0, j as int), with_ao),
            vertices.len() == 4 * j,
        decreases qs.len() - j,
    {
        let lq = qs[j];
        let (ao, block_type) = if with_ao {
            let key = lq.key;
            let ao = key & 0x1ff;
            let block_type = key >> 9;
            assert(ao < 0x200 && block_type < 4) by (bit_vector)
                requires
                    ao == key & 0x1ff,
                    block_type == key >> 9,
                    key < 0x800,
            ;
            (ao, block_type)
        } else {
            (0u32, 0u32)
        };
        let q = GreedyQuad { x: lq.quad.x, y: lq.quad.y, w: lq.quad.w, h: lq.quad.h };
        assert(plane_quad(q) == lq.quad);
        proof {
            lemma_layer_words_step(d, qs@, j as int, with_ao);
        }
        q.append_vertices(&mut vertices, d, lq.layer, &lod, ao, block_type);
        j = j + 1;
    }
    proof {
        assert(qs@.subrange(0, qs.len() as int) =~= qs@);
    }
    vertices
}

/// Whether `w` is the vertex words of some list of layer quads facing `d` that covers
/// every face once and nothing else.
pub open spec fn dir_words(refs: ChunksRefs, d: FaceDir, with_ao: bool, w: Seq<u32>) -> bool {
    exists|qs: Seq<LayerQuad>|
        layer_sound(refs, d, with_ao, qs) && layer_complete(refs, d, qs) && #[trigger] layer_words(d, qs, with_ao) == w
}

/// Whether some voxel shows a face towards `d`.
pub open spec fn has_layer_face(refs: ChunksRefs, d: FaceDir) -> bool {
    exists|layer: int, x: int, y: int| 0 <= layer < 32 && 0 <= x < 32 && 0 <= y < 32 && #[trigger] layer_face(refs, d, layer, x, y)
}

proof fn lemma_dir_words_empty(refs: ChunksRefs, d: FaceDir, with_ao: bool, qs: Seq<LayerQuad>)
    requires
        layer_sound(refs, d, with_ao, qs),
        layer_complete(refs, d, qs),
    ensures
        layer_words(d, qs, with_ao).len() == 0 <==> !has_layer_face(refs, d),
{
    lemma_layer_words_len(d, qs, with_ao);
    if qs.len() > 0 {
        let q = qs[0];
        assert(covers(q.quad, q.quad.x as int, q.quad.y as int));
        assert(layer_face(refs, d, q.layer as int, q.quad.x as int, q.quad.y as int));
    }
    if has_layer_face(refs, d) {
        let (l, x, y) = choose|l: int, x: int, y: int| 0 <= l < 32 && 0 <= x < 32 && 0 <= y < 32 && #[trigger] layer_face(refs, d, l, x, y);
        assert(layer_face(refs, d, l, x, y));
    }
}

/// Greedy meshes the planes facing `face_dir`, layer by layer: in each layer the faces
/// are grouped by occlusion pattern and material and each group is merged into quads.
/// Only full detail is taken: coarser levels would sample outside the neighbourhood.
pub fn vertices_from_face(face_dir: FaceDir, chunks_refs: &ChunksRefs, lod: &Lod) -> (r: Vec<u32>)
    requires
        chunks_refs.wf(),
        *lod == Lod::L32,
    ensures
        r.len() <= 4 * 32 * 0x10_0000,
        r.len() % 4 == 0,
        dir_words(*chunks_refs, face_dir, true, r@),
        r.len() == 0 <==> !has_layer_face(*chunks_refs, face_dir),
{
    let qs = layer_quads(chunks_refs, face_dir, true);
    let vertices = emit_layer_quads(&qs, face_dir, true);
    proof {
        lemma_layer_words_len(face_dir, qs@, true);
        lemma_dir_words_empty(*chunks_refs, face_dir, true, qs@);
        assert(layer_words(face_dir, qs@, true) == vertices@);
    }
    vertices
}

/// As `vertices_from_face`, grouping faces by material alone and leaving the occlusion
/// and block type fields of the vertices zero.
pub fn vertices_from_face_no_ao(face_dir: FaceDir, chunks_refs: &ChunksRefs, lod: &Lod) -> (r: Vec<u32>)
    requires
        chunks_refs.wf(),
        *lod == Lod::L32,
    ensures
        r.len() <= 4 * 32 * 0x10_0000,
        r.len() % 4 == 0,
        dir_words(*chunks_refs, face_dir, false, r@),
        r.len() == 0 <==> !has_layer_face(*chunks_refs, face_dir),
{
    let qs = layer_quads(chunks_refs, face_dir, false);
    let vertices = emit_layer_quads(&qs, face_dir, false);
    proof {
        lemma_layer_words_len(face_dir, qs@, false);
        lemma_dir_words_empty(*chunks_refs, face_dir, false, qs@);
        assert(layer_words(face_dir, qs@, false) == vertices@);
    }
    vertices
}


/// Greedy meshes the up, left and forward faces of the middle chunk.
pub fn build_chunk_mesh(chunks_refs: ChunksRefs, lod: Lod) -> (r: Option<ChunkMesh>)
    requires
        chunks_refs.wf(),
        lod == Lod::L32,
    ensures
        r is None <==> !(has_layer_face(chunks_refs, FaceDir::Up) || has_layer_face(chunks_refs, FaceDir::Left)
            || has_layer_face(chunks_refs, FaceDir::Forward)),
        r matches Some(m) ==> quad_mesh(m) && exists|a: Seq<u32>, b: Seq<u32>, c: Seq<u32>|
            dir_words(chunks_refs, FaceDir::Up, true, a) && dir_words(chunks_refs, FaceDir::Left, true, b)
                && dir_words(chunks_refs, FaceDir::Forward, true, c) && #[trigger] m.vertices@ == a + b + c,
{
    let mut vertices = vertices_from_face(FaceDir::Up, &chunks_refs, &lod);
    let mut left = vertices_from_face(FaceDir::Left, &chunks_refs, &lod);
    let mut forward = vertices_from_face(FaceDir::Forward, &chunks_refs, &lod);
    let ghost (a, b, c) = (vertices@, left@, forward@);
    vertices.append(&mut left);
    vertices.append(&mut forward);
    if vertices.len() == 0 {
        None
    } else {
        let indices = generate_indices(vertices.len());
        Some(ChunkMesh { vertices, indices })
    }
}

/// Greedy meshes the faces of the middle chunk in all six directions, without
/// ambient occlusion.
pub fn build_chunk_mesh_no_ao(chunks_refs: ChunksRefs, lod: Lod) -> (r: Option<ChunkMesh>)
    requires
        chunks_refs.wf(),
        lod == Lod::L32,
    ensures
        r is None <==> !(has_layer_face(chunks_refs, FaceDir::Up) || has_layer_face(chunks_refs, FaceDir::Left)
            || has_layer_face(chunks_refs, FaceDir::Right) || has_layer_face(chunks_refs, FaceDir::Down)
            || has_layer_face(chunks_refs, FaceDir::Forward) || has_layer_face(chunks_refs, FaceDir::Back)),
        r matches Some(m) ==> quad_mesh(m) && exists|w: Seq<Seq<u32>>|
            w.len() == 6 && dir_words(chunks_refs, FaceDir::Up, false, w[0]) && dir_words(chunks_refs, FaceDir::Left, false, w[1])
                && dir_words(chunks_refs, FaceDir::Right, false, w[2]) && dir_words(chunks_refs, FaceDir::Down, false, w[3])
                && dir_words(chunks_refs, FaceDir::Forward, false, w[4]) && dir_words(chunks_refs, FaceDir::Back, false, w[5])
                && #[trigger] m.vertices@ == w[0] + w[1] + w[2] + w[3] + w[4] + w[5],
{
    let dirs = [FaceDir::Up, FaceDir::Left, FaceDir::Right, FaceDir::Down, FaceDir::Forward, FaceDir::Back];
    let mut vertices: Vec<u32> = Vec::new();
    let ghost mut w: Seq<Seq<u32>> = Seq::empty();
    let mut i: usize = 0;
    while i < 6
        invariant
            chunks_refs.wf(),
            lod == Lod::L32,
            dirs@ == seq![FaceDir::Up, FaceDir::Left, FaceDir::Right, FaceDir::Down, FaceDir::Forward, FaceDir::Back],
            i <= 6,
            w.len() == i,
            vertices.len() <= i * 4 * 32 * 0x10_0000,
            vertices.len() % 4 == 0,
            forall|k: int| 0 <= k < i ==> dir_words(chunks_refs, #[trigger] dirs@[k], false, w[k]),
            forall|k: int| 0 <= k < i ==> (w[k].len() == 0 <==> !has_layer_face(chunks_refs, #[trigger] dirs@[k])),
            vertices@ == concat_words(w),
        decreases 6 - i,
    {
        let mut more = vertices_from_face_no_ao(dirs[i], &chunks_refs, &lod);
        let ghost m = more@;
        vertices.append(&mut more);
        proof {
            let w0 = w;
            w = w.push(m);
            assert(w.drop_last() =~= w0);
        }
        i = i + 1;
    }
    proof {
        assert(w =~= seq![w[0], w[1], w[2], w[3], w[4], w[5]]);
        lemma_concat_six(w);
    }
    if vertices.len() == 0 {
        None
    } else {
        let indices = generate_indices(vertices.len());
        Some(ChunkMesh { vertices, indices })
    }
}

/// The words of each direction, one after the other.
pub open spec fn concat_words(w: Seq<Seq<u32>>) -> Seq<u32>
    decreases w.len(),
{
    if w.len() == 0 {
        Seq::empty()
    } else {
        concat_words(w.drop_last()) + w.last()
    }
}

proof fn lemma_concat_six(w: Seq<Seq<u32>>)
    requires
        w.len() == 6,
    ensures
        concat_words(w) == w[0] + w[1] + w[2] + w[3] + w[4] + w[5],
        concat_words(w).len() == 0 <==> (w[0].len() == 0 && w[1].len() == 0 && w[2].len() == 0 && w[3].len() == 0
            && w[4].len() == 0 && w[5].len() == 0),
{
    let w5 = w.drop_last();
    let w4 = w5.drop_last();
    let w3 = w4.drop_last();
    let w2 = w3.drop_last();
    let w1 = w2.drop_last();
    let w0 = w1.drop_last();
    assert(w0.len() == 0);
    assert(concat_words(w0) == Seq::<u32>::empty());
    assert(w1.last() == w[0] && w2.last() == w[1] && w3.last() == w[2] && w4.last() == w[3] && w5.last() == w[4]);
    assert(w1.drop_last() == w0 && w2.drop_last() == w1 && w3.drop_last() == w2);
    assert(concat_words(w1) =~= w[0]);
    assert(concat_words(w2) =~= w[0] + w[1]);
    assert(concat_words(w3) =~= w[0] + w[1] + w[2]);
    assert(concat_words(w4) =~= w[0] + w[1] + w[2] + w[3]);
    assert(concat_words(w5) =~= w[0] + w[1] + w[2] + w[3] + w[4]);
    assert(concat_words(w) =~= w[0] + w[1] + w[2] + w[3] + w[4] + w[5]);
}

} // verus!
