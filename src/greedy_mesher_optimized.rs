use vstd::prelude::*;
use std::collections::HashMap;
use crate::bitplane::{
    col_bit, lemma_ascending_face_mask, lemma_descending_face_mask, lemma_key_bits_unique,
    lemma_key_compose, lemma_set_col_bit, lemma_set_row_bit, lemma_zero_col,
    lemma_zero_row, lemma_nine_bits, nine_bits, bit_value, quad_occlusion, ao_bit, lemma_clear_bit, lemma_run_all_set, lemma_run_mask_bit, lemma_run_matches, lemma_shift_compose,
    lemma_shift_high_clear, lemma_shifted_bit, low_mask, row_bit, run_mask,
};

use crate::face_direction::{normal_of, reversed, sample_of, FaceDir};
use crate::lod::{lod_jump, Lod};
use crate::chunk_mesh::ChunkMesh;
use crate::chunks_refs::{offset_pos, ChunksRefs};
use crate::face_direction::air_dir_of;
use crate::math::IVec3;
use crate::utils::{generate_indices, quad_index_pattern};
use crate::voxel::block_id;
use crate::utils::{make_vertex_u32, vertex_word};

verus! {

broadcast use vstd::std_specs::bits::group_bits_axioms;

/// A rectangle of a binary plane: rows `x .. x + w`, bits `y .. y + h`.
#[derive(Copy, Clone, Debug)]
pub struct GreedyQuad {
    pub x: u32,
    pub y: u32,
    pub w: u32,
    pub h: u32,
}

/// Whether a quad covers bit `b` of row `r`.
pub open spec fn covers(q: GreedyQuad, r: int, b: int) -> bool {
    q.x <= r < q.x + q.w && q.y <= b < q.y + q.h
}

/// Whether some quad of `qs` covers bit `b` of row `r`.
pub open spec fn covered(qs: Seq<GreedyQuad>, r: int, b: int) -> bool {
    exists|i: int| 0 <= i < qs.len() && covers(#[trigger] qs[i], r, b)
}

/// A non-empty quad inside a 32 x 32 plane.
pub open spec fn quad_in_plane(q: GreedyQuad) -> bool {
    1 <= q.w && q.x + q.w <= 32 && 1 <= q.h && q.y + q.h <= 32
}

/// No bit is covered by two quads.
pub open spec fn pairwise_disjoint(qs: Seq<GreedyQuad>) -> bool {
    forall|i: int, j: int, r: int, b: int|
        0 <= i < j < qs.len() && #[trigger] covers(qs[i], r, b) ==> !#[trigger] covers(qs[j], r, b)
}

/// The vertex word of corner `(cx, cy)` of a face plane, scaled by `jump`.
pub open spec fn corner_word(
    d: FaceDir,
    axis: int,
    cx: int,
    cy: int,
    jump: int,
    occlusion: int,
    block: int,
) -> u32 {
    let p = sample_of(d, axis, cx, cy);
    vertex_word(p.0 * jump, p.1 * jump, p.2 * jump, occlusion, normal_of(d) as int, block) as u32
}

#[verifier::opaque]
/// The four vertex words of a quad, in emission order: corners (x, y), (x + w, y),
/// (x + w, y + h), (x, y + h); the last three reversed for directions that ask for it;
/// then rotated left by one when exactly one of the first and third corners is occluded.
pub open spec fn quad_words(q: GreedyQuad, d: FaceDir, axis: int, jump: int, ao: u32, block: int) -> Seq<u32> {
    let occ = quad_occlusion(ao);
    let v1 = corner_word(d, axis, q.x as int, q.y as int, jump, occ.0, block);
    let v2 = corner_word(d, axis, q.x + q.w, q.y as int, jump, occ.1, block);
    let v3 = corner_word(d, axis, q.x + q.w, q.y + q.h, jump, occ.2, block);
    let v4 = corner_word(d, axis, q.x as int, q.y + q.h, jump, occ.3, block);
    let base = if reversed(d) {
        seq![v1, v4, v3, v2]
    } else {
        seq![v1, v2, v3, v4]
    };
    if (occ.0 > 0) != (occ.2 > 0) {
        seq![base[1], base[2], base[3], base[0]]
    } else {
        base
    }
}

#[verifier::opaque]
/// The four vertex words of a quad without the anisotropy flip: corners (x, y),
/// (x + w, y), (x + w, y + h), (x, y + h), the last three reversed for directions that
/// ask for it.
pub open spec fn quad_words_unflipped(q: GreedyQuad, d: FaceDir, axis: int, jump: int, ao: u32, block: int) -> Seq<u32> {
    let occ = quad_occlusion(ao);
    let v1 = corner_word(d, axis, q.x as int, q.y as int, jump, occ.0, block);
    let v2 = corner_word(d, axis, q.x + q.w, q.y as int, jump, occ.1, block);
    let v3 = corner_word(d, axis, q.x + q.w, q.y + q.h, jump, occ.2, block);
    let v4 = corner_word(d, axis, q.x as int, q.y + q.h, jump, occ.3, block);
    if reversed(d) {
        seq![v1, v4, v3, v2]
    } else {
        seq![v1, v2, v3, v4]
    }
}

/// Every quad has four unflipped vertex words.
pub broadcast proof fn lemma_quad_words_unflipped_len(q: GreedyQuad, d: FaceDir, axis: int, jump: int, ao: u32, block: int)
    ensures
        #[trigger] quad_words_unflipped(q, d, axis, jump, ao, block).len() == 4,
{
    reveal(quad_words_unflipped);
}

/// Every quad has four vertex words.
pub broadcast proof fn lemma_quad_words_len(q: GreedyQuad, d: FaceDir, axis: int, jump: int, ao: u32, block: int)
    ensures
        #[trigger] quad_words(q, d, axis, jump, ao, block).len() == 4,
{
    reveal(quad_words);
}

/// Occlusion of one corner from two side bits and a corner bit, each 0 or 1.
fn corner_ao(side_a: u32, side_b: u32, corner: u32) -> (r: u32)
    requires
        side_a <= 1,
        side_b <= 1,
        corner <= 1,
    ensures
        r == if side_a == 1 && side_b == 1 {
            3
        } else {
            side_a + side_b + corner
        },
{
    if side_a == 1 && side_b == 1 {
        3
    } else {
        side_a + side_b + corner
    }
}

/// Whether corner `(cx, cy)` of layer `axis` of face `d`, scaled by `jump`, fits the
/// six-bit position fields of a vertex word.
pub open spec fn corner_fits(d: FaceDir, axis: int, cx: int, cy: int, jump: int) -> bool {
    let p = sample_of(d, axis, cx, cy);
    &&& 0 <= p.0 * jump < 64
    &&& 0 <= p.1 * jump < 64
    &&& 0 <= p.2 * jump < 64
}

/// Whether all four corners of a quad fit the position fields.
pub open spec fn quad_fits(q: GreedyQuad, d: FaceDir, axis: int, jump: int) -> bool {
    &&& corner_fits(d, axis, q.x as int, q.y as int, jump)
    &&& corner_fits(d, axis, q.x + q.w, q.y as int, jump)
    &&& corner_fits(d, axis, q.x + q.w, q.y + q.h, jump)
    &&& corner_fits(d, axis, q.x as int, q.y + q.h, jump)
}

/// The four vertex words of a quad, in emission order, with or without the
/// anisotropy flip.
pub(crate) fn quad_vertex_words(
    q: &GreedyQuad,
    face_dir: FaceDir,
    axis: i32,
    lod: &Lod,
    ao: u32,
    block_type: u32,
    flip: bool,
) -> (r: [u32; 4])
    requires
        quad_fits(*q, face_dir, axis as int, lod_jump(*lod) as int),
        q.x + q.w <= 64,
        q.y + q.h <= 64,
        -1 <= axis < 64,
        ao < 0x200,
        block_type < 128,
    ensures
        flip ==> r@ == quad_words(*q, face_dir, axis as int, lod_jump(*lod) as int, ao, block_type as int),
        !flip ==> r@ == quad_words_unflipped(*q, face_dir, axis as int, lod_jump(*lod) as int, ao, block_type as int),
{
    let jump = lod.jump_index();
    let b0 = bit_value(ao, 0);
    let b1 = bit_value(ao, 1);
    let b2 = bit_value(ao, 2);
    let b3 = bit_value(ao, 3);
    let b5 = bit_value(ao, 5);
    let b6 = bit_value(ao, 6);
    let b7 = bit_value(ao, 7);
    let b8 = bit_value(ao, 8);
    let v1ao = corner_ao(b1, b3, b0);
    let v2ao = corner_ao(b3, b7, b6);
    let v3ao = corner_ao(b5, b7, b8);
    let v4ao = corner_ao(b1, b5, b2);
    let ghost occ = quad_occlusion(ao);
    assert(v1ao == occ.0 && v2ao == occ.1 && v3ao == occ.2 && v4ao == occ.3);
    let x = q.x as i32;
    let y = q.y as i32;
    let xw = q.x as i32 + q.w as i32;
    let yh = q.y as i32 + q.h as i32;
    let normal = face_dir.normal_index();
    let p1 = face_dir.world_to_sample(axis, x, y, lod);
    let p2 = face_dir.world_to_sample(axis, xw, y, lod);
    let p3 = face_dir.world_to_sample(axis, xw, yh, lod);
    let p4 = face_dir.world_to_sample(axis, x, yh, lod);
    let v1 = make_vertex_u32(p1.scale(jump), v1ao, normal, block_type);
    let v2 = make_vertex_u32(p2.scale(jump), v2ao, normal, block_type);
    let v3 = make_vertex_u32(p3.scale(jump), v3ao, normal, block_type);
    let v4 = make_vertex_u32(p4.scale(jump), v4ao, normal, block_type);
    let mut quad: [u32; 4] = [v1, v2, v3, v4];
    if face_dir.reverse_order() {
        quad = [v1, v4, v3, v2];
    }
    proof {
        reveal(quad_words_unflipped);
        assert(quad@ =~= quad_words_unflipped(*q, face_dir, axis as int, jump as int, ao, block_type as int));
    }
    if flip && (v1ao > 0) != (v3ao > 0) {
        quad = [quad[1], quad[2], quad[3], quad[0]];
    }
    proof {
        reveal(quad_words);
        if flip {
            let words = quad_words(*q, face_dir, axis as int, jump as int, ao, block_type as int);
            assert(quad@ =~= words);
        }
    }
    quad
}

impl GreedyQuad {
    /// Appends the four packed vertices of this quad, on layer `axis` of the planes
    /// facing `face_dir`, with occlusion key `ao` and block type id `block_type`.
    pub fn append_vertices(
        &self,
        vertices: &mut Vec<u32>,
        face_dir: FaceDir,
        axis: u32,
        lod: &Lod,
        ao: u32,
        block_type: u32,
    )
        requires
            quad_in_plane(*self),
            quad_fits(*self, face_dir, axis as int, lod_jump(*lod) as int),
            ao < 0x200,
            block_type < 128,
            old(vertices).len() + 4 <= usize::MAX,
        ensures
            final(vertices)@ == old(vertices)@ + quad_words(
                *self,
                face_dir,
                axis as int,
                lod_jump(*lod) as int,
                ao,
                block_type as int,
            ),
    {
        let jump = lod.jump_index();
        proof {
            lemma_axis_fits(face_dir, axis as int, self.x as int, self.y as int, jump as int);
        }
        let quad = quad_vertex_words(self, face_dir, axis as i32, lod, ao, block_type, true);
        vertices.push(quad[0]);
        vertices.push(quad[1]);
        vertices.push(quad[2]);
        vertices.push(quad[3]);
        proof {
            assert(final(vertices)@ =~= old(vertices)@ + quad@);
        }
    }
}

/// A corner that fits the position fields lies on a layer below 64.
proof fn lemma_axis_fits(d: FaceDir, axis: int, x: int, y: int, jump: int)
    requires
        corner_fits(d, axis, x, y, jump),
        0 <= axis,
        1 <= jump,
    ensures
        axis < 64,
{
    let p = sample_of(d, axis, x, y);
    let a = match d {
        FaceDir::Up => p.1 - 1,
        FaceDir::Down => p.1,
        FaceDir::Left => p.0,
        FaceDir::Right => p.0 - 1,
        FaceDir::Forward => p.2,
        FaceDir::Back => p.2 - 1,
    };
    assert(a == axis);
    assert(0 <= axis && axis * jump < 64 ==> axis < 64) by (nonlinear_arith)
        requires
            1 <= jump,
    ;
    assert(axis * jump <= p.0 * jump || axis * jump <= p.1 * jump || axis * jump <= p.2 * jump) by (nonlinear_arith)
        requires
            axis == p.0 || axis + 1 == p.0 || axis == p.1 || axis + 1 == p.1 || axis == p.2 || axis + 1 == p.2,
            1 <= jump,
            0 <= axis,
    ;
}

/// A corner of a quad inside the plane lies in `[0, 64)` on every axis once scaled.
proof fn lemma_corner_scaled(d: FaceDir, axis: int, cx: int, cy: int, jump: int)
    requires
        0 <= axis,
        0 <= cx <= 32,
        0 <= cy <= 32,
        1 <= jump,
        (axis + 1) * jump < 64,
        32 * jump < 64,
    ensures
        ({
            let p = sample_of(d, axis, cx, cy);
            &&& 0 <= p.0 * jump < 64
            &&& 0 <= p.1 * jump < 64
            &&& 0 <= p.2 * jump < 64
        }),
{
    let p = sample_of(d, axis, cx, cy);
    assert(0 <= p.0 <= 32 || p.0 == axis || p.0 == axis + 1);
    assert(0 <= cx * jump <= 32 * jump && 0 <= cy * jump <= 32 * jump && 0 <= axis * jump <= (axis
        + 1) * jump) by (nonlinear_arith)
        requires
            0 <= axis,
            0 <= cx <= 32,
            0 <= cy <= 32,
            1 <= jump,
    ;
}

/// Whether bit `b` of row `r` is set in the plane and covered by none of the first `k`
/// quads.
pub open spec fn in_rem(plane: Seq<u32>, qs: Seq<GreedyQuad>, k: int, r: int, b: int) -> bool {
    0 <= b < 32 && row_bit(plane[r], b as u32) && !covered(qs.subrange(0, k), r, b)
}

/// The k-th quad is a step of the sweep: its run of bits cannot be extended down or
/// up within what the earlier quads left, and it grew over the following rows until
/// a row lacked part of the run or the plane ended at `lod`.
pub open spec fn sweep_step(plane: Seq<u32>, qs: Seq<GreedyQuad>, k: int, lod: int) -> bool {
    let q = qs[k];
    &&& (q.y == 0 || !in_rem(plane, qs, k, q.x as int, q.y - 1))
    &&& (q.y + q.h == 32 || !in_rem(plane, qs, k, q.x as int, q.y + q.h))
    &&& (q.x + q.w >= lod || exists|b: int| q.y <= b < q.y + q.h && !#[trigger] in_rem(plane, qs, k, q.x + q.w, b))
}

/// Quad `a` comes before quad `b` in the sweep: an earlier row, or the same row below it.
pub open spec fn row_major(a: GreedyQuad, b: GreedyQuad) -> bool {
    a.x < b.x || (a.x == b.x && a.y + a.h <= b.y)
}

proof fn lemma_sweep_prefix(plane: Seq<u32>, qs: Seq<GreedyQuad>, q: GreedyQuad, lod: int, k: int)
    requires
        0 <= k < qs.len(),
        sweep_step(plane, qs, k, lod),
    ensures
        sweep_step(plane, qs.push(q), k, lod),
{
    let q1 = qs.push(q);
    assert(q1.subrange(0, k) =~= qs.subrange(0, k));
    assert(q1[k] == qs[k]);
    let qk = qs[k];
    if !(qk.x + qk.w >= lod) {
        let b = choose|b: int| qk.y <= b < qk.y + qk.h && !#[trigger] in_rem(plane, qs, k, qk.x + qk.w, b);
        assert(!in_rem(plane, q1, k, qk.x + qk.w, b));
    }
}

proof fn lemma_covered_push(qs: Seq<GreedyQuad>, q: GreedyQuad, r: int, b: int)
    ensures
        covered(qs.push(q), r, b) <==> covered(qs, r, b) || covers(q, r, b),
{
    let s = qs.push(q);
    if covered(qs, r, b) {
        let i = choose|i: int| 0 <= i < qs.len() && covers(#[trigger] qs[i], r, b);
        assert(s[i] == qs[i]);
    }
    if covers(q, r, b) {
        assert(s[qs.len() as int] == q);
    }
    if covered(s, r, b) {
        let i = choose|i: int| 0 <= i < s.len() && covers(#[trigger] s[i], r, b);
        if i < qs.len() {
            assert(s[i] == qs[i]);
        }
    }
}

/// Merges the set bits of a plane of 32 rows into rectangles, row by row and from
/// the low bits up: each run of set bits grows over the following rows for as long
/// as they hold the whole run, and those bits are then taken. Rows and bits at or
/// above `lod_size` start no run.
pub fn greedy_mesh_binary_plane(plane: [u32; 32], lod_size: u32) -> (r: Vec<GreedyQuad>)
    requires
        lod_size <= 32,
    ensures
        r.len() <= 1024,
        forall|k: int| 0 <= k < r.len() ==> quad_in_plane(#[trigger] r[k]),
        pairwise_disjoint(r@),
        forall|row: int, b: u32|
            0 <= row < 32 && b < 32 && #[trigger] covered(r@, row, b as int) ==> row_bit(
                plane@[row],
                b,
            ),
        forall|row: int, b: u32|
            0 <= row < 32 && b < lod_size && #[trigger] row_bit(plane@[row], b) ==> covered(
                r@,
                row,
                b as int,
            ),
        forall|i: int, j: int| 0 <= i < j < r.len() ==> row_major(#[trigger] r@[i], #[trigger] r@[j]),
        forall|k: int| 0 <= k < r.len() ==> #[trigger] sweep_step(plane@, r@, k, lod_size as int),
{
    let ghost orig = plane@;
    let mut data = plane;
    let mut greedy_quads: Vec<GreedyQuad> = Vec::new();
    let mut row: usize = 0;
    while row < 32
        invariant
            row <= 32,
            lod_size <= 32,
            orig == plane@,
            greedy_quads.len() <= row * 32,
            forall|i: int, j: int| 0 <= i < j < greedy_quads.len() ==> row_major(#[trigger] greedy_quads@[i], #[trigger] greedy_quads@[j]),
            forall|k: int| 0 <= k < greedy_quads.len() ==> #[trigger] sweep_step(orig, greedy_quads@, k, lod_size as int),
            forall|k: int| 0 <= k < greedy_quads.len() ==> (#[trigger] greedy_quads@[k]).x < row,
            forall|k: int| 0 <= k < greedy_quads.len() ==> quad_in_plane(#[trigger] greedy_quads[k]),
            pairwise_disjoint(greedy_quads@),
            forall|r: int, b: u32|
                0 <= r < 32 && b < 32 && #[trigger] covered(greedy_quads@, r, b as int) ==> row_bit(
                    orig[r],
                    b,
                ),
            forall|r: int, b: u32|
                row <= r < 32 && b < 32 ==> (#[trigger] row_bit(data@[r], b) <==> (row_bit(orig[r], b)
                    && !covered(greedy_quads@, r, b as int))),
            forall|r: int, b: u32|
                0 <= r < row && b < lod_size && #[trigger] row_bit(orig[r], b) ==> covered(
                    greedy_quads@,
                    r,
                    b as int,
                ),
        decreases 32 - row,
    {
        let mut y: u32 = 0;
        while y < lod_size
            invariant
                row < 32,
                y <= 32,
                lod_size <= 32,
                orig == plane@,
                greedy_quads.len() <= row * 32 + y,
                forall|i: int, j: int| 0 <= i < j < greedy_quads.len() ==> row_major(#[trigger] greedy_quads@[i], #[trigger] greedy_quads@[j]),
                forall|k: int| 0 <= k < greedy_quads.len() ==> #[trigger] sweep_step(orig, greedy_quads@, k, lod_size as int),
                forall|k: int| 0 <= k < greedy_quads.len() ==> (#[trigger] greedy_quads@[k]).x < row
                    || (greedy_quads@[k].x == row && greedy_quads@[k].y + greedy_quads@[k].h <= y),
                forall|k: int|
                    0 <= k < greedy_quads.len() ==> quad_in_plane(#[trigger] greedy_quads[k]),
                pairwise_disjoint(greedy_quads@),
                forall|r: int, b: u32|
                    0 <= r < 32 && b < 32 && #[trigger] covered(greedy_quads@, r, b as int) ==> row_bit(
                        orig[r],
                        b,
                    ),
                forall|r: int, b: u32|
                    (row < r < 32 || (r == row && y <= b)) && b < 32 ==> (#[trigger] row_bit(
                        data@[r],
                        b,
                    ) <==> (row_bit(orig[r], b) && !covered(greedy_quads@, r, b as int))),
                forall|r: int, b: u32|
                    (0 <= r < row || (r == row && b < y)) && b < lod_size && #[trigger] row_bit(
                        orig[r],
                        b,
                    ) ==> covered(greedy_quads@, r, b as int),
            ensures
                forall|b: u32| y <= b < lod_size ==> !row_bit(data@[row as int], b),
            decreases 32 - y,
        {
            let y0 = y;
            let shifted = data[row] >> y;
            let tz = shifted.trailing_zeros();
            proof {
                assert forall|b: u32| y0 <= b < y0 + tz && b < 32 implies !row_bit(data@[row as int], b) by {
                    lemma_shifted_bit(data@[row as int], y0, (b - y0) as u32);
                    assert(((data@[row as int] >> y0) >> ((b - y0) as u32)) & 1u32 == 0u32);
                }
            }
            if y + tz >= lod_size {
                assert(forall|b: u32| y <= b < lod_size ==> !row_bit(data@[row as int], b));
                break;
            }
            y = y + tz;
            let run = data[row] >> y;
            let h = run.trailing_ones();
            proof {
                lemma_shift_compose(data@[row as int], y0, tz);
                assert(run & 1u32 == 1u32) by {
                    assert((shifted >> tz) & 1u32 == 1u32);
                }
                if h == 0 {
                    assert((run >> 0u32) & 1u32 == 0u32);
                    assert(run >> 0u32 == run) by (bit_vector);
                }
                if y + h > 32 {
                    let j = (32 - y) as u32;
                    lemma_shift_high_clear(data@[row as int], y, j);
                    assert((run >> j) & 1u32 == 1u32);
                }
                assert forall|b: u32| y <= b < y + h implies row_bit(data@[row as int], b) by {
                    lemma_shifted_bit(data@[row as int], y, (b - y) as u32);
                    assert((run >> ((b - y) as u32)) & 1u32 == 1u32);
                }
            }
            let h_as_mask: u32 = if h >= 32 {
                0xffff_ffffu32
            } else {
                assert(1u32 << h >= 1u32) by (bit_vector)
                    requires
                        h < 32,
                ;
                (1u32 << h) - 1
            };
            let mask = h_as_mask << y;
            assert(h_as_mask == low_mask(h));
            assert(mask == run_mask(y, h));
            proof {
                if y + h < 32 {
                    assert((run >> h) & 1u32 == 0u32);
                    lemma_shifted_bit(data@[row as int], y, h);
                    assert(!row_bit(data@[row as int], (y + h) as u32));
                }
            }
            let ghost d0 = data@;
            let mut w: usize = 1;
            while row + w < lod_size as usize
                invariant
                    row < 32,
                    lod_size <= 32,
                    d0.len() == 32,
                    1 <= w,
                    row + w <= 32,
                    y + h <= 32,
                    1 <= h,
                    h_as_mask == low_mask(h),
                    mask == run_mask(y, h),
                    forall|r: int|
                        row < r < row + w ==> #[trigger] data@[r] == d0[r] & !mask && (d0[r] >> y)
                            & h_as_mask == h_as_mask,
                    forall|r: int| 0 <= r < 32 && !(row < r < row + w) ==> #[trigger] data@[r] == d0[r],
                ensures
                    row + w >= lod_size || (row + w < 32 && (d0[row + w] >> y) & h_as_mask != h_as_mask),
                decreases 32 - w,
            {
                let next_row_h = (data[row + w] >> y) & h_as_mask;
                if next_row_h != h_as_mask {
                    break;
                }
                data[row + w] = data[row + w] & !mask;
                w = w + 1;
            }
            let q = GreedyQuad { y, w: w as u32, h, x: row as u32 };
            let ghost qs0 = greedy_quads@;
            greedy_quads.push(q);
            proof {
                let qs1 = greedy_quads@;
                assert(qs1 == qs0.push(q));
                let k0 = qs0.len() as int;
                assert(qs1.subrange(0, k0) =~= qs0);
                assert(qs1[k0] == q);
                // the run cannot be extended downwards
                if y > 0 {
                    let b = (y - 1) as u32;
                    if b < y0 {
                        if row_bit(orig[row as int], b) {
                            assert(covered(qs0, row as int, b as int));
                        }
                    } else {
                        assert(!row_bit(d0[row as int], b));
                    }
                    assert(!in_rem(orig, qs1, k0, row as int, y - 1));
                }
                // nor upwards
                if y + h < 32 {
                    let b = (y + h) as u32;
                    assert(!row_bit(d0[row as int], b));
                    assert(!in_rem(orig, qs1, k0, row as int, y + h));
                }
                // and the next row lacks part of it
                if row + w < lod_size {
                    let nr = (row + w) as int;
                    if forall|b: u32| y <= b < y + h ==> #[trigger] row_bit(d0[nr], b) {
                        lemma_run_all_set(d0[nr], y, h);
                    }
                    let b = choose|b: u32| y <= b < y + h && !#[trigger] row_bit(d0[nr], b);
                    assert(!in_rem(orig, qs1, k0, nr, b as int));
                    assert(q.x + q.w == nr);
                }
                assert(sweep_step(orig, qs1, k0, lod_size as int));
                assert forall|k: int| 0 <= k < qs1.len() implies #[trigger] sweep_step(orig, qs1, k, lod_size as int) by {
                    if k < k0 {
                        lemma_sweep_prefix(orig, qs0, q, lod_size as int, k);
                    }
                }
                assert forall|i: int, j: int| 0 <= i < j < qs1.len() implies row_major(#[trigger] qs1[i], #[trigger] qs1[j]) by {
                    assert(qs1[i] == qs0[i]);
                    if j < k0 {
                        assert(qs1[j] == qs0[j]);
                    }
                }
                assert forall|k: int| 0 <= k < qs1.len() implies (#[trigger] qs1[k]).x < row
                    || (qs1[k].x == row && qs1[k].y + qs1[k].h <= y + h) by {
                    if k < k0 {
                        assert(qs1[k] == qs0[k]);
                    }
                }
                // every bit of the new quad was set and uncovered
                assert forall|r: int, b: u32| b < 32 && covers(q, r, b as int) implies row_bit(orig[r], b)
                    && !covered(qs0, r, b as int) by {
                    if r == row {
                        assert(row_bit(d0[r], b));
                    } else {
                        assert(row < r < row + w);
                        assert(data@[r] == d0[r] & !mask);
                        assert((d0[r] >> y) & h_as_mask == h_as_mask);
                        lemma_run_matches(d0[r], y, h, b);
                    }
                }
                assert(pairwise_disjoint(qs1)) by {
                    assert forall|i: int, j: int, r: int, b: int|
                        0 <= i < j < qs1.len() && #[trigger] covers(qs1[i], r, b) implies !#[trigger] covers(
                        qs1[j],
                        r,
                        b,
                    ) by {
                        if j == qs0.len() && covers(q, r, b) {
                            assert(qs1[i] == qs0[i]);
                            assert(covered(qs0, r, b));
                            assert(0 <= b < 32);
                            assert(!covered(qs0, r, (b as u32) as int));
                        } else if j < qs0.len() {
                            assert(qs1[i] == qs0[i] && qs1[j] == qs0[j]);
                        }
                    }
                }
                assert forall|k: int| 0 <= k < qs1.len() implies quad_in_plane(#[trigger] qs1[k]) by {
                    if k < qs0.len() {
                        assert(qs1[k] == qs0[k]);
                    }
                }
                assert forall|r: int, b: u32|
                    0 <= r < 32 && b < 32 && #[trigger] covered(qs1, r, b as int) implies row_bit(orig[r], b) by {
                    lemma_covered_push(qs0, q, r, b as int);
                }
                assert forall|r: int, b: u32|
                    (row < r < 32 || (r == row && y + h <= b)) && b < 32 implies (#[trigger] row_bit(
                        data@[r],
                        b,
                    ) <==> (row_bit(orig[r], b) && !covered(qs1, r, b as int))) by {
                    lemma_covered_push(qs0, q, r, b as int);
                    lemma_run_mask_bit(y, h, b);
                    if row < r < row + w {
                        lemma_clear_bit(d0[r], mask, b);
                    }
                }
                assert forall|r: int, b: u32|
                    (0 <= r < row || (r == row && b < y + h)) && b < lod_size && #[trigger] row_bit(
                        orig[r],
                        b,
                    ) implies covered(qs1, r, b as int) by {
                    lemma_covered_push(qs0, q, r, b as int);
                    if r == row && y0 <= b < y {
                        assert(!row_bit(d0[r], b));
                    }
                }
            }
            y = y + h;
        }
        proof {
            assert forall|r: int, b: u32|
                0 <= r < row + 1 && b < lod_size && #[trigger] row_bit(orig[r], b) implies covered(
                greedy_quads@,
                r,
                b as int,
            ) by {
                if r == row && y <= b {
                    assert(!row_bit(data@[r], b));
                }
            }
        }
        row = row + 1;
    }
    greedy_quads
}


/// The face direction of face axis `a`: Down, Up, Left, Right, Forward, Back.
pub open spec fn face_of_axis(a: int) -> FaceDir {
    if a == 0 {
        FaceDir::Down
    } else if a == 1 {
        FaceDir::Up
    } else if a == 2 {
        FaceDir::Left
    } else if a == 3 {
        FaceDir::Right
    } else if a == 4 {
        FaceDir::Forward
    } else {
        FaceDir::Back
    }
}

/// Position `k - 1` along a padded column `(a, b)` of a column axis: axis 0 runs
/// along y (indexed `[z][x]`), axis 1 along x (`[y][z]`), axis 2 along z (`[y][x]`).
pub open spec fn column_pos(axis: int, a: int, b: int, k: int) -> IVec3 {
    if axis == 0 {
        IVec3 { x: (b - 1) as i32, y: (k - 1) as i32, z: (a - 1) as i32 }
    } else if axis == 1 {
        IVec3 { x: (k - 1) as i32, y: (a - 1) as i32, z: (b - 1) as i32 }
    } else {
        IVec3 { x: (b - 1) as i32, y: (a - 1) as i32, z: (k - 1) as i32 }
    }
}

/// The voxel of a face plane: layer `y` of face axis `axis6`, row `x`, bit `z`.
pub open spec fn slice_voxel(axis6: int, y: int, z: int, x: int) -> IVec3 {
    if axis6 < 2 {
        IVec3 { x: x as i32, y: y as i32, z: z as i32 }
    } else if axis6 < 4 {
        IVec3 { x: y as i32, y: z as i32, z: x as i32 }
    } else {
        IVec3 { x: x as i32, y: z as i32, z: y as i32 }
    }
}

/// Whether that voxel is solid and shows a face towards the air of face axis `axis6`.
pub open spec fn is_face(refs: ChunksRefs, axis6: int, y: int, z: int, x: int) -> bool {
    let p = slice_voxel(axis6, y, z, x);
    refs.solid_at(p) && !refs.solid_at(offset_pos(p, air_dir_of(face_of_axis(axis6))))
}

/// Whether the middle chunk shows any face.
pub open spec fn has_face(refs: ChunksRefs) -> bool {
    exists|axis6: int, y: int, z: int, x: int|
        0 <= axis6 < 6 && 0 <= y < 32 && 0 <= z < 32 && 0 <= x < 32 && #[trigger] is_face(
            refs,
            axis6,
            y,
            z,
            x,
        )
}

/// The i-th cell of the 3 x 3 occlusion pattern of face axis `axis6`, relative to
/// the voxel: the pattern `(i / 3 - 1, i % 3 - 1)` laid in the plane one cell
/// outside the face.
pub open spec fn ao_offset(axis6: int, i: int) -> IVec3 {
    let ox = (i / 3 - 1) as i32;
    let oy = (i % 3 - 1) as i32;
    if axis6 == 0 {
        IVec3 { x: ox, y: -1i32, z: oy }
    } else if axis6 == 1 {
        IVec3 { x: ox, y: 1i32, z: oy }
    } else if axis6 == 2 {
        IVec3 { x: -1i32, y: oy, z: ox }
    } else if axis6 == 3 {
        IVec3 { x: 1i32, y: oy, z: ox }
    } else if axis6 == 4 {
        IVec3 { x: ox, y: oy, z: -1i32 }
    } else {
        IVec3 { x: ox, y: oy, z: 1i32 }
    }
}

/// Whether a merge key names the material of voxel `p` and the occlusion pattern
/// around it on face axis `axis6`.
pub open spec fn key_matches(key: u32, refs: ChunksRefs, axis6: int, p: IVec3) -> bool {
    &&& key < 0x800
    &&& key >> 9u32 == block_id(refs.block_at_pos(p).block_type)
    &&& forall|i: u32| i < 9 ==> (#[trigger] ao_bit(key, i) <==> refs.solid_at(offset_pos(p, ao_offset(axis6, i as int))))
}

/// One binary plane: layer `axis_pos`, for one merge key.
#[derive(Copy, Clone, Debug)]
pub struct PlaneSlot {
    pub axis_pos: u32,
    pub key: u32,
    pub rows: [u32; 32],
}

/// A solid column: bit k is set iff position `k - 1` along the column is solid.
fn solid_column(refs: &ChunksRefs, axis: usize, a: usize, b: usize) -> (col: u64)
    requires
        refs.wf(),
        axis < 3,
        a < 34,
        b < 34,
    ensures
        forall|k: u64|
            k < 64 ==> (#[trigger] col_bit(col, k) <==> (k < 34 && refs.solid_at(
                column_pos(axis as int, a as int, b as int, k as int),
            ))),
{
    let mut col: u64 = 0;
    let mut k: usize = 0;
    proof {
        assert forall|j: u64| j < 64 implies !col_bit(col, j) by {
            lemma_zero_col(j);
        }
    }
    while k < 34
        invariant
            refs.wf(),
            axis < 3,
            a < 34,
            b < 34,
            k <= 34,
            forall|j: u64|
                j < 64 ==> (#[trigger] col_bit(col, j) <==> (j < k && refs.solid_at(
                    column_pos(axis as int, a as int, b as int, j as int),
                ))),
        decreases 34 - k,
    {
        let ai = a as i32 - 1;
        let bi = b as i32 - 1;
        let ki = k as i32 - 1;
        let p = if axis == 0 {
            IVec3::new(bi, ki, ai)
        } else if axis == 1 {
            IVec3::new(ki, ai, bi)
        } else {
            IVec3::new(bi, ai, ki)
        };
        assert(p == column_pos(axis as int, a as int, b as int, k as int));
        let solid = refs.get_block(p).block_type.is_solid();
        let ghost before = col;
        if solid {
            col = col | (1u64 << k as u64);
        }
        proof {
            assert forall|j: u64|
                j < 64 implies (#[trigger] col_bit(col, j) <==> (j < k + 1 && refs.solid_at(
                column_pos(axis as int, a as int, b as int, j as int),
            ))) by {
                if solid {
                    lemma_set_col_bit(before, k as u64, j);
                }
            }
        }
        k = k + 1;
    }
    col
}

/// The face bits of layer `y` in a solid column, for face axis `axis6`: descending
/// faces (`col & !(col << 1)`) on even axes, ascending (`col & !(col >> 1)`) on odd ones,
/// with the padding stripped.
fn face_bits(col: u64, axis6: usize) -> (m: u64)
    ensures
        forall|y: u64|
            y < 32 ==> (#[trigger] col_bit(m, y) <==> (col_bit(col, (y + 1) as u64) && if axis6 % 2
                == 0 {
                !col_bit(col, y)
            } else {
                !col_bit(col, (y + 2) as u64)
            })),
{
    let mask = if axis6 % 2 == 0 {
        col & !(col << 1u64)
    } else {
        col & !(col >> 1u64)
    };
    let m = (mask >> 1u64) & !(1u64 << 32u64);
    proof {
        assert forall|y: u64| y < 32 implies (#[trigger] col_bit(m, y) <==> (col_bit(
            col,
            (y + 1) as u64,
        ) && if axis6 % 2 == 0 {
            !col_bit(col, y)
        } else {
            !col_bit(col, (y + 2) as u64)
        })) by {
            assert(col_bit((mask >> 1u64) & !(1u64 << 32u64), y) <==> col_bit(mask, (y + 1) as u64))
                by (bit_vector)
                requires
                    y < 32,
            ;
            if axis6 % 2 == 0 {
                lemma_descending_face_mask(col, (y + 1) as u64);
            } else {
                lemma_ascending_face_mask(col, (y + 1) as u64);
            }
        }
    }
    m
}

/// The nine-bit occlusion key of voxel `p` on face axis `axis6`: bit i is set iff the
/// i-th pattern cell is solid.
pub(crate) fn ao_key(refs: &ChunksRefs, axis6: usize, p: IVec3) -> (r: u32)
    requires
        refs.wf(),
        axis6 < 6,
        -1 <= p.x < 32,
        -1 <= p.y < 32,
        -1 <= p.z < 32,
    ensures
        r < 0x200,
        forall|i: u32| i < 9 ==> (#[trigger] ao_bit(r, i) <==> refs.solid_at(offset_pos(p, ao_offset(axis6 as int, i as int)))),
{
    let mut ao_index: u32 = 0;
    let mut i: u32 = 0;
    proof {
        assert forall|j: u32| j < 32 implies !ao_bit(ao_index, j) by {
            lemma_zero_row(j);
        }
    }
    while i < 9
        invariant
            refs.wf(),
            axis6 < 6,
            -1 <= p.x < 32,
            -1 <= p.y < 32,
            -1 <= p.z < 32,
            i <= 9,
            ao_index < 0x200,
            forall|j: u32| i <= j < 32 ==> !#[trigger] ao_bit(ao_index, j),
            forall|j: u32|
                j < i ==> (#[trigger] ao_bit(ao_index, j) <==> refs.solid_at(offset_pos(p, ao_offset(axis6 as int, j as int)))),
        decreases 9 - i,
    {
        let ox = (i / 3) as i32 - 1;
        let oy = (i % 3) as i32 - 1;
        let offset = if axis6 == 0 {
            IVec3::new(ox, -1, oy)
        } else if axis6 == 1 {
            IVec3::new(ox, 1, oy)
        } else if axis6 == 2 {
            IVec3::new(-1, oy, ox)
        } else if axis6 == 3 {
            IVec3::new(1, oy, ox)
        } else if axis6 == 4 {
            IVec3::new(ox, oy, -1)
        } else {
            IVec3::new(ox, oy, 1)
        };
        assert(offset == ao_offset(axis6 as int, i as int));
        let q = p.add(offset);
        assert(q == offset_pos(p, ao_offset(axis6 as int, i as int)));
        let solid = refs.get_block(q).block_type.is_solid();
        let ghost before = ao_index;
        if solid {
            ao_index = ao_index | (1u32 << i);
        }
        proof {
            if solid {
                assert(before | (1u32 << i) < 0x200) by (bit_vector)
                    requires
                        before < 0x200,
                        i < 9,
                ;
            }
            assert forall|j: u32| j < 32 implies (#[trigger] ao_bit(ao_index, j) <==> (ao_bit(before, j) || (solid && j == i))) by {
                if solid {
                    lemma_set_row_bit(before, i, j);
                }
            }
        }
        i = i + 1;
    }
    ao_index
}

/// The planes of one face axis: for every voxel face, bit `z` of row `x` is set in
/// the plane of its layer and of its merge key (occlusion pattern and material).
fn bucket_faces(refs: &ChunksRefs, axis6: usize) -> (r: (Vec<PlaneSlot>, Ghost<Seq<(int, int)>>))
    requires
        refs.wf(),
        axis6 < 6,
    ensures
        r.0.len() <= 32768,
        r.1@.len() == r.0.len(),
        forall|e: int|
            0 <= e < r.0.len() ==> {
                let s = #[trigger] r.0[e];
                &&& s.axis_pos < 32
                &&& s.key < 0x800
                &&& 0 <= r.1@[e].0 < 32
                &&& 0 <= r.1@[e].1 < 32
                &&& row_bit(s.rows[r.1@[e].0], r.1@[e].1 as u32)
            },
        forall|e: int, x: int, z: u32|
            0 <= e < r.0.len() && 0 <= x < 32 && z < 32 ==> (#[trigger] row_bit(r.0[e].rows[x], z)
                <==> (is_face(*refs, axis6 as int, r.0[e].axis_pos as int, z as int, x) && key_matches(
                r.0[e].key,
                *refs,
                axis6 as int,
                slice_voxel(axis6 as int, r.0[e].axis_pos as int, z as int, x),
            ))),
        r.0.len() == 0 <==> !exists|y: int, z: int, x: int|
            0 <= y < 32 && 0 <= z < 32 && 0 <= x < 32 && #[trigger] is_face(*refs, axis6 as int, y, z, x),
        forall|e1: int, e2: int|
            0 <= e1 < r.0.len() && 0 <= e2 < r.0.len() && e1 != e2 ==> slot_key(#[trigger] r.0[e1])
                != slot_key(#[trigger] r.0[e2]),
        forall|y: int, z: int, x: int|
            0 <= y < 32 && 0 <= z < 32 && 0 <= x < 32 && #[trigger] is_face(*refs, axis6 as int, y, z, x) ==> exists|e: int|
                0 <= e < r.0.len() && (#[trigger] r.0[e]).axis_pos == y && row_bit(r.0[e].rows[x], z as u32),
{
    let mut slots: Vec<PlaneSlot> = Vec::new();
    let mut index: HashMap<u32, usize> = HashMap::new();
    let ghost mut witness: Seq<(int, int)> = Seq::empty();
    let column_axis = axis6 / 2;
    let mut z: usize = 0;
    while z < 32
        invariant
            refs.wf(),
            axis6 < 6,
            column_axis == axis6 / 2,
            z <= 32,
            slots.len() <= z * 1024,
            witness.len() == slots.len(),
            bucket_inv(*refs, axis6 as int, slots@, index@, witness, z as int, 0, 0),
        decreases 32 - z,
    {
        let mut x: usize = 0;
        while x < 32
            invariant
                refs.wf(),
                axis6 < 6,
                column_axis == axis6 / 2,
                z < 32,
                x <= 32,
                slots.len() <= z * 1024 + x * 32,
                witness.len() == slots.len(),
                bucket_inv(*refs, axis6 as int, slots@, index@, witness, z as int, x as int, 0),
            decreases 32 - x,
        {
            let col = solid_column(refs, column_axis, z + 1, x + 1);
            let m = face_bits(col, axis6);
            proof {
                assert forall|yy: u64| yy < 32 implies (#[trigger] col_bit(m, yy) <==> is_face(*refs, axis6 as int, yy as int, z as int, x as int)) by {
                    lemma_column_face(axis6 as int, yy as int, z as int, x as int);
                    assert(col_bit(col, (yy + 1) as u64) <==> refs.solid_at(column_pos(column_axis as int, z + 1, x + 1, yy + 1)));
                    assert(col_bit(col, yy) <==> refs.solid_at(column_pos(column_axis as int, z + 1, x + 1, yy as int)));
                    assert(col_bit(col, (yy + 2) as u64) <==> refs.solid_at(column_pos(column_axis as int, z + 1, x + 1, yy + 2)));
                }
            }
            let mut y: u32 = 0;
            while y < 32
                invariant
                    refs.wf(),
                    axis6 < 6,
                    column_axis == axis6 / 2,
                    z < 32,
                    x < 32,
                    y <= 32,
                    slots.len() <= z * 1024 + x * 32 + y,
                    witness.len() == slots.len(),
                    forall|yy: u64| yy < 32 ==> (#[trigger] col_bit(m, yy) <==> is_face(*refs, axis6 as int, yy as int, z as int, x as int)),
                    bucket_inv(*refs, axis6 as int, slots@, index@, witness, z as int, x as int, y as int),
                decreases 32 - y,
            {
                assert(col_bit(m, y as u64) <==> is_face(*refs, axis6 as int, y as int, z as int, x as int));
                if (m >> y as u64) & 1u64 == 1u64 {
                    let voxel_pos = if axis6 < 2 {
                        IVec3::new(x as i32, y as i32, z as i32)
                    } else if axis6 < 4 {
                        IVec3::new(y as i32, z as i32, x as i32)
                    } else {
                        IVec3::new(x as i32, z as i32, y as i32)
                    };
                    assert(voxel_pos == slice_voxel(axis6 as int, y as int, z as int, x as int));
                    let ao = ao_key(refs, axis6, voxel_pos);
                    let current_voxel = refs.get_block_no_neighbour(voxel_pos);
                    let block = current_voxel.block_type.id();
                    let key = ao | (block << 9u32);
                    proof {
                        lemma_key_compose(ao, block);
                    }
                    assert(key_matches(key, *refs, axis6 as int, voxel_pos));
                    let slot_key = y * 0x800 + key;
                    let ghost old_slots = slots@;
                    let ghost old_index = index@;
                    let ghost old_witness = witness;
                    match index.get(&slot_key) {
                        Some(e) => {
                            let e = *e;
                            let mut slot = slots[e];
                            let row = slot.rows[x];
                            slot.rows[x] = row | (1u32 << z as u32);
                            slots.set(e, slot);
                            proof {
                                lemma_bucket_set(*refs, axis6 as int, old_slots, old_index, old_witness, slots@, z as int, x as int, y as int, e as int, key);
                            }
                        },
                        None => {
                            let mut rows = [0u32; 32];
                            rows[x] = 1u32 << z as u32;
                            let e = slots.len();
                            slots.push(PlaneSlot { axis_pos: y, key, rows });
                            index.insert(slot_key, e);
                            proof {
                                assert forall|xx: int, zz: u32|
                                    0 <= xx < 32 && zz < 32 implies (#[trigger] row_bit(slots@[old_slots.len() as int].rows[xx], zz)
                                        <==> (xx == x && zz == z)) by {
                                    lemma_zero_row(zz);
                                    if xx == x {
                                        lemma_set_row_bit(0u32, z as u32, zz);
                                        assert(0u32 | (1u32 << z as u32) == 1u32 << z as u32) by (bit_vector);
                                    }
                                }
                                witness = witness.push((x as int, z as int));
                                lemma_bucket_new(*refs, axis6 as int, old_slots, old_index, old_witness, slots@, index@, witness, z as int, x as int, y as int, key);
                            }
                        },
                    }
                } else {
                    proof {
                        lemma_bucket_skip(*refs, axis6 as int, slots@, index@, witness, z as int, x as int, y as int);
                    }
                }
                y = y + 1;
            }
            proof {
                lemma_bucket_next_x(*refs, axis6 as int, slots@, index@, witness, z as int, x as int);
            }
            x = x + 1;
        }
        proof {
            lemma_bucket_next_z(*refs, axis6 as int, slots@, index@, witness, z as int);
        }
        z = z + 1;
    }
    proof {
        lemma_bucket_done(*refs, axis6 as int, slots@, index@, witness);
    }
    (slots, Ghost(witness))
}


/// Whether cell `(zz, xx)` of layer `yy` comes before cell `(z, x)`, layer `y`, in the
/// bucketing order (z, then x, then layer).
pub open spec fn processed(z: int, x: int, y: int, zz: int, xx: int, yy: int) -> bool {
    zz < z || (zz == z && xx < x) || (zz == z && xx == x && yy < y)
}

/// The map key of a plane: its layer and merge key.
pub open spec fn slot_key(s: PlaneSlot) -> u32 {
    (s.axis_pos * 0x800 + s.key) as u32
}

pub open spec fn slot_ok(s: PlaneSlot, w: (int, int)) -> bool {
    &&& s.axis_pos < 32
    &&& s.key < 0x800
    &&& 0 <= w.0 < 32
    &&& 0 <= w.1 < 32
    &&& row_bit(s.rows[w.0], w.1 as u32)
}

/// The state of bucketing once every cell before `(z, x, y)` has been visited.
pub open spec fn bucket_inv(
    refs: ChunksRefs,
    axis6: int,
    slots: Seq<PlaneSlot>,
    index: Map<u32, usize>,
    witness: Seq<(int, int)>,
    z: int,
    x: int,
    y: int,
) -> bool {
    &&& witness.len() == slots.len()
    &&& forall|e: int| 0 <= e < slots.len() ==> slot_ok(#[trigger] slots[e], witness[e])
    &&& forall|e: int, xx: int, zz: u32|
        0 <= e < slots.len() && 0 <= xx < 32 && zz < 32 ==> (#[trigger] row_bit(slots[e].rows[xx], zz)
            <==> (processed(z, x, y, zz as int, xx, slots[e].axis_pos as int) && is_face(
            refs,
            axis6,
            slots[e].axis_pos as int,
            zz as int,
            xx,
        ) && key_matches(
            slots[e].key,
            refs,
            axis6,
            slice_voxel(axis6, slots[e].axis_pos as int, zz as int, xx),
        )))
    &&& forall|e: int|
        0 <= e < slots.len() ==> index.contains_key(slot_key(#[trigger] slots[e])) && index[slot_key(
            slots[e],
        )] == e
    &&& forall|k: u32| #[trigger]
        index.contains_key(k) ==> index[k] < slots.len() && slot_key(slots[index[k] as int]) == k
    &&& forall|yy: int, zz: int, xx: int, k: u32|
        0 <= yy < 32 && 0 <= zz < 32 && 0 <= xx < 32 && processed(z, x, y, zz, xx, yy) && is_face(
            refs,
            axis6,
            yy,
            zz,
            xx,
        ) && #[trigger] key_matches(k, refs, axis6, slice_voxel(axis6, yy, zz, xx))
            ==> index.contains_key((yy * 0x800 + k) as u32)
    &&& (slots.len() == 0 <==> !exists|yy: int, zz: int, xx: int|
        0 <= yy < 32 && 0 <= zz < 32 && 0 <= xx < 32 && processed(z, x, y, zz, xx, yy)
            && #[trigger] is_face(refs, axis6, yy, zz, xx))
}

/// The padded column positions around bit `y + 1` of the column under cell `(z, x)`
/// are the voxel of that cell and its two neighbours along the column.
proof fn lemma_column_face(axis6: int, y: int, z: int, x: int)
    requires
        0 <= axis6 < 6,
        0 <= y < 32,
        0 <= z < 32,
        0 <= x < 32,
    ensures
        column_pos(axis6 / 2, z + 1, x + 1, y + 1) == slice_voxel(axis6, y, z, x),
        axis6 % 2 == 0 ==> column_pos(axis6 / 2, z + 1, x + 1, y) == offset_pos(
            slice_voxel(axis6, y, z, x),
            air_dir_of(face_of_axis(axis6)),
        ),
        axis6 % 2 == 1 ==> column_pos(axis6 / 2, z + 1, x + 1, y + 2) == offset_pos(
            slice_voxel(axis6, y, z, x),
            air_dir_of(face_of_axis(axis6)),
        ),
{
}

/// Two keys that both match one voxel are equal.
proof fn lemma_key_unique(k1: u32, k2: u32, refs: ChunksRefs, axis6: int, p: IVec3)
    requires
        key_matches(k1, refs, axis6, p),
        key_matches(k2, refs, axis6, p),
    ensures
        k1 == k2,
{
    assert(ao_bit(k1, 0) == ao_bit(k2, 0));
    assert(ao_bit(k1, 1) == ao_bit(k2, 1));
    assert(ao_bit(k1, 2) == ao_bit(k2, 2));
    assert(ao_bit(k1, 3) == ao_bit(k2, 3));
    assert(ao_bit(k1, 4) == ao_bit(k2, 4));
    assert(ao_bit(k1, 5) == ao_bit(k2, 5));
    assert(ao_bit(k1, 6) == ao_bit(k2, 6));
    assert(ao_bit(k1, 7) == ao_bit(k2, 7));
    assert(ao_bit(k1, 8) == ao_bit(k2, 8));
    lemma_key_bits_unique(k1, k2);
}

proof fn lemma_bucket_skip(
    refs: ChunksRefs,
    axis6: int,
    slots: Seq<PlaneSlot>,
    index: Map<u32, usize>,
    witness: Seq<(int, int)>,
    z: int,
    x: int,
    y: int,
)
    requires
        0 <= z < 32,
        0 <= x < 32,
        0 <= y < 32,
        bucket_inv(refs, axis6, slots, index, witness, z, x, y),
        !is_face(refs, axis6, y, z, x),
    ensures
        bucket_inv(refs, axis6, slots, index, witness, z, x, y + 1),
{
    assert forall|e: int, xx: int, zz: u32|
        0 <= e < slots.len() && 0 <= xx < 32 && zz < 32 implies (#[trigger] row_bit(slots[e].rows[xx], zz)
            <==> (processed(z, x, y + 1, zz as int, xx, slots[e].axis_pos as int) && is_face(
            refs,
            axis6,
            slots[e].axis_pos as int,
            zz as int,
            xx,
        ) && key_matches(
            slots[e].key,
            refs,
            axis6,
            slice_voxel(axis6, slots[e].axis_pos as int, zz as int, xx),
        ))) by {
    }
    if slots.len() == 0 {
        assert forall|yy: int, zz: int, xx: int|
            0 <= yy < 32 && 0 <= zz < 32 && 0 <= xx < 32 && processed(z, x, y + 1, zz, xx, yy) implies !#[trigger] is_face(refs, axis6, yy, zz, xx) by {
            if !(zz == z && xx == x && yy == y) {
                assert(processed(z, x, y, zz, xx, yy));
            }
        }
    }
}

proof fn lemma_bucket_set(
    refs: ChunksRefs,
    axis6: int,
    slots0: Seq<PlaneSlot>,
    index: Map<u32, usize>,
    witness: Seq<(int, int)>,
    slots: Seq<PlaneSlot>,
    z: int,
    x: int,
    y: int,
    e: int,
    key: u32,
)
    requires
        0 <= z < 32,
        0 <= x < 32,
        0 <= y < 32,
        bucket_inv(refs, axis6, slots0, index, witness, z, x, y),
        is_face(refs, axis6, y, z, x),
        key_matches(key, refs, axis6, slice_voxel(axis6, y, z, x)),
        index.contains_key((y * 0x800 + key) as u32),
        index[(y * 0x800 + key) as u32] == e,
        slots.len() == slots0.len(),
        0 <= e < slots.len(),
        forall|f: int| 0 <= f < slots.len() && f != e ==> #[trigger] slots[f] == slots0[f],
        slots[e].axis_pos == slots0[e].axis_pos,
        slots[e].key == slots0[e].key,
        forall|xx: int| 0 <= xx < 32 && xx != x ==> #[trigger] slots[e].rows[xx] == slots0[e].rows[xx],
        slots[e].rows[x] == slots0[e].rows[x] | (1u32 << z as u32),
    ensures
        bucket_inv(refs, axis6, slots, index, witness, z, x, y + 1),
{
    let s0 = slots0[e];
    assert(slot_key(s0) == (y * 0x800 + key) as u32);
    assert(s0.axis_pos == y && s0.key == key);
    assert forall|f: int| 0 <= f < slots.len() implies slot_ok(#[trigger] slots[f], witness[f]) by {
        if f == e {
            assert(slot_ok(slots0[f], witness[f]));
            lemma_set_row_bit(slots0[e].rows[witness[f].0], z as u32, witness[f].1 as u32);
        } else {
            assert(slot_ok(slots0[f], witness[f]));
        }
    }
    assert forall|f: int, xx: int, zz: u32|
        0 <= f < slots.len() && 0 <= xx < 32 && zz < 32 implies (#[trigger] row_bit(slots[f].rows[xx], zz)
            <==> (processed(z, x, y + 1, zz as int, xx, slots[f].axis_pos as int) && is_face(
            refs,
            axis6,
            slots[f].axis_pos as int,
            zz as int,
            xx,
        ) && key_matches(
            slots[f].key,
            refs,
            axis6,
            slice_voxel(axis6, slots[f].axis_pos as int, zz as int, xx),
        ))) by {
        assert(row_bit(slots0[f].rows[xx], zz) <==> (processed(z, x, y, zz as int, xx, slots0[f].axis_pos as int) && is_face(
            refs,
            axis6,
            slots0[f].axis_pos as int,
            zz as int,
            xx,
        ) && key_matches(
            slots0[f].key,
            refs,
            axis6,
            slice_voxel(axis6, slots0[f].axis_pos as int, zz as int, xx),
        )));
        if f == e {
            if xx == x {
                lemma_set_row_bit(slots0[e].rows[x], z as u32, zz);
            }
        } else {
            if xx == x && zz == z && slots[f].axis_pos == y && key_matches(
                slots[f].key,
                refs,
                axis6,
                slice_voxel(axis6, y, z, x),
            ) {
                lemma_key_unique(slots[f].key, key, refs, axis6, slice_voxel(axis6, y, z, x));
                assert(slot_key(slots0[f]) == slot_key(s0));
                assert(index[slot_key(slots0[f])] == f);
            }
        }
    }
    assert forall|f: int|
        0 <= f < slots.len() implies index.contains_key(slot_key(#[trigger] slots[f])) && index[slot_key(
            slots[f],
        )] == f by {
        assert(slot_key(slots0[f]) == slot_key(slots[f]));
    }
    assert forall|k: u32| #[trigger]
        index.contains_key(k) implies index[k] < slots.len() && slot_key(slots[index[k] as int]) == k by {
        assert(slot_key(slots0[index[k] as int]) == slot_key(slots[index[k] as int]));
    }
    assert forall|yy: int, zz: int, xx: int, k: u32|
        0 <= yy < 32 && 0 <= zz < 32 && 0 <= xx < 32 && processed(z, x, y + 1, zz, xx, yy) && is_face(
            refs,
            axis6,
            yy,
            zz,
            xx,
        ) && #[trigger] key_matches(k, refs, axis6, slice_voxel(axis6, yy, zz, xx))
            implies index.contains_key((yy * 0x800 + k) as u32) by {
        if zz == z && xx == x && yy == y {
            lemma_key_unique(k, key, refs, axis6, slice_voxel(axis6, y, z, x));
        }
    }
}

proof fn lemma_bucket_new(
    refs: ChunksRefs,
    axis6: int,
    slots0: Seq<PlaneSlot>,
    index0: Map<u32, usize>,
    witness0: Seq<(int, int)>,
    slots: Seq<PlaneSlot>,
    index: Map<u32, usize>,
    witness: Seq<(int, int)>,
    z: int,
    x: int,
    y: int,
    key: u32,
)
    requires
        0 <= z < 32,
        0 <= x < 32,
        0 <= y < 32,
        bucket_inv(refs, axis6, slots0, index0, witness0, z, x, y),
        slots0.len() <= 32768,
        is_face(refs, axis6, y, z, x),
        key_matches(key, refs, axis6, slice_voxel(axis6, y, z, x)),
        !index0.contains_key((y * 0x800 + key) as u32),
        index == index0.insert((y * 0x800 + key) as u32, slots0.len() as usize),
        witness == witness0.push((x, z)),
        slots.len() == slots0.len() + 1,
        forall|f: int| 0 <= f < slots0.len() ==> #[trigger] slots[f] == slots0[f],
        slots[slots0.len() as int].axis_pos == y,
        slots[slots0.len() as int].key == key,
        forall|xx: int, zz: u32|
            0 <= xx < 32 && zz < 32 ==> (#[trigger] row_bit(slots[slots0.len() as int].rows[xx], zz)
                <==> (xx == x && zz == z)),
    ensures
        bucket_inv(refs, axis6, slots, index, witness, z, x, y + 1),
{
    let n = slots0.len() as int;
    let sk = (y * 0x800 + key) as u32;
    assert(slot_key(slots[n]) == sk);
    assert forall|f: int| 0 <= f < slots.len() implies slot_ok(#[trigger] slots[f], witness[f]) by {
        if f < n {
            assert(slot_ok(slots0[f], witness0[f]));
        } else {
            assert(row_bit(slots[n].rows[x], z as u32));
        }
    }
    assert forall|f: int, xx: int, zz: u32|
        0 <= f < slots.len() && 0 <= xx < 32 && zz < 32 implies (#[trigger] row_bit(slots[f].rows[xx], zz)
            <==> (processed(z, x, y + 1, zz as int, xx, slots[f].axis_pos as int) && is_face(
            refs,
            axis6,
            slots[f].axis_pos as int,
            zz as int,
            xx,
        ) && key_matches(
            slots[f].key,
            refs,
            axis6,
            slice_voxel(axis6, slots[f].axis_pos as int, zz as int, xx),
        ))) by {
        if f < n {
            assert(row_bit(slots0[f].rows[xx], zz) <==> (processed(z, x, y, zz as int, xx, slots0[f].axis_pos as int) && is_face(
                refs,
                axis6,
                slots0[f].axis_pos as int,
                zz as int,
                xx,
            ) && key_matches(
                slots0[f].key,
                refs,
                axis6,
                slice_voxel(axis6, slots0[f].axis_pos as int, zz as int, xx),
            )));
            if xx == x && zz == z && slots[f].axis_pos == y && key_matches(
                slots[f].key,
                refs,
                axis6,
                slice_voxel(axis6, y, z, x),
            ) {
                lemma_key_unique(slots[f].key, key, refs, axis6, slice_voxel(axis6, y, z, x));
                assert(slot_key(slots0[f]) == sk);
                assert(index0.contains_key(slot_key(slots0[f])));
            }
        } else {
            if processed(z, x, y + 1, zz as int, xx, y) && is_face(refs, axis6, y, zz as int, xx)
                && key_matches(key, refs, axis6, slice_voxel(axis6, y, zz as int, xx)) && !(xx == x && zz
                == z) {
                assert(processed(z, x, y, zz as int, xx, y));
                assert(index0.contains_key((y * 0x800 + key) as u32));
            }
        }
    }
    assert forall|f: int|
        0 <= f < slots.len() implies index.contains_key(slot_key(#[trigger] slots[f])) && index[slot_key(
            slots[f],
        )] == f by {
        if f < n {
            assert(slots[f] == slots0[f]);
            assert(index0.contains_key(slot_key(slots0[f])));
            assert(slot_key(slots0[f]) != sk);
        } else {
            assert(index[sk] == n as usize);
        }
    }
    assert forall|k: u32| #[trigger]
        index.contains_key(k) implies index[k] < slots.len() && slot_key(slots[index[k] as int]) == k by {
        if k != sk {
            assert(index0.contains_key(k));
        }
    }
    assert forall|yy: int, zz: int, xx: int, k: u32|
        0 <= yy < 32 && 0 <= zz < 32 && 0 <= xx < 32 && processed(z, x, y + 1, zz, xx, yy) && is_face(
            refs,
            axis6,
            yy,
            zz,
            xx,
        ) && #[trigger] key_matches(k, refs, axis6, slice_voxel(axis6, yy, zz, xx))
            implies index.contains_key((yy * 0x800 + k) as u32) by {
        if zz == z && xx == x && yy == y {
            lemma_key_unique(k, key, refs, axis6, slice_voxel(axis6, y, z, x));
        } else {
            assert(processed(z, x, y, zz, xx, yy));
        }
    }
    assert(processed(z, x, y + 1, z, x, y));
}

proof fn lemma_bucket_next_x(
    refs: ChunksRefs,
    axis6: int,
    slots: Seq<PlaneSlot>,
    index: Map<u32, usize>,
    witness: Seq<(int, int)>,
    z: int,
    x: int,
)
    requires
        0 <= z < 32,
        0 <= x < 32,
        bucket_inv(refs, axis6, slots, index, witness, z, x, 32),
    ensures
        bucket_inv(refs, axis6, slots, index, witness, z, x + 1, 0),
{
    assert forall|zz: int, xx: int, yy: int|
        0 <= yy < 32 implies processed(z, x, 32, zz, xx, yy) == processed(z, x + 1, 0, zz, xx, yy) by {
    }
    assert forall|e: int| 0 <= e < slots.len() implies (#[trigger] slots[e]).axis_pos < 32 by {
        assert(slot_ok(slots[e], witness[e]));
    }
}

proof fn lemma_bucket_next_z(
    refs: ChunksRefs,
    axis6: int,
    slots: Seq<PlaneSlot>,
    index: Map<u32, usize>,
    witness: Seq<(int, int)>,
    z: int,
)
    requires
        0 <= z < 32,
        bucket_inv(refs, axis6, slots, index, witness, z, 32, 0),
    ensures
        bucket_inv(refs, axis6, slots, index, witness, z + 1, 0, 0),
{
    assert forall|zz: int, xx: int, yy: int|
        0 <= xx < 32 && 0 <= yy implies #[trigger] processed(z, 32, 0, zz, xx, yy) == processed(z + 1, 0, 0, zz, xx, yy) by {
        if zz == z {
            assert(processed(z, 32, 0, zz, xx, yy));
            assert(processed(z + 1, 0, 0, zz, xx, yy));
        }
    }
}

proof fn lemma_bucket_done(
    refs: ChunksRefs,
    axis6: int,
    slots: Seq<PlaneSlot>,
    index: Map<u32, usize>,
    witness: Seq<(int, int)>,
)
    requires
        bucket_inv(refs, axis6, slots, index, witness, 32, 0, 0),
    ensures
        forall|e: int| 0 <= e < slots.len() ==> slot_ok(#[trigger] slots[e], witness[e]),
        forall|e: int, x: int, z: u32|
            0 <= e < slots.len() && 0 <= x < 32 && z < 32 ==> (#[trigger] row_bit(slots[e].rows[x], z)
                <==> (is_face(refs, axis6, slots[e].axis_pos as int, z as int, x) && key_matches(
                slots[e].key,
                refs,
                axis6,
                slice_voxel(axis6, slots[e].axis_pos as int, z as int, x),
            ))),
        slots.len() == 0 <==> !exists|y: int, z: int, x: int|
            0 <= y < 32 && 0 <= z < 32 && 0 <= x < 32 && #[trigger] is_face(refs, axis6, y, z, x),
        forall|e1: int, e2: int|
            0 <= e1 < slots.len() && 0 <= e2 < slots.len() && e1 != e2 ==> slot_key(#[trigger] slots[e1])
                != slot_key(#[trigger] slots[e2]),
        forall|y: int, z: int, x: int|
            0 <= y < 32 && 0 <= z < 32 && 0 <= x < 32 && #[trigger] is_face(refs, axis6, y, z, x) ==> exists|e: int|
                0 <= e < slots.len() && (#[trigger] slots[e]).axis_pos == y && row_bit(slots[e].rows[x], z as u32),
{
    if slots.len() == 0 {
        assert forall|y: int, z: int, x: int|
            0 <= y < 32 && 0 <= z < 32 && 0 <= x < 32 implies !#[trigger] is_face(refs, axis6, y, z, x) by {
            assert(processed(32, 0, 0, z, x, y));
        }
    }
    assert forall|y: int, z: int, x: int|
        0 <= y < 32 && 0 <= z < 32 && 0 <= x < 32 && #[trigger] is_face(refs, axis6, y, z, x) implies exists|e: int|
            0 <= e < slots.len() && (#[trigger] slots[e]).axis_pos == y && row_bit(slots[e].rows[x], z as u32) by {
        let p = slice_voxel(axis6, y, z, x);
        let k = lemma_matching_key(refs, axis6, p);
        assert(processed(32, 0, 0, z, x, y));
        let sk = (y * 0x800 + k) as u32;
        assert(index.contains_key(sk));
        let e = index[sk] as int;
        assert(slot_key(slots[e]) == sk);
        assert(slot_ok(slots[e], witness[e]));
        assert(slots[e].axis_pos == y && slots[e].key == k);
        assert(row_bit(slots[e].rows[x], z as u32));
    }
}

/// Some key matches every voxel: its occlusion pattern and material.
proof fn lemma_matching_key(refs: ChunksRefs, axis6: int, p: IVec3) -> (k: u32)
    ensures
        key_matches(k, refs, axis6, p),
{
    let s = |i: int| refs.solid_at(offset_pos(p, ao_offset(axis6, i)));
    let ao = nine_bits(s(0), s(1), s(2), s(3), s(4), s(5), s(6), s(7), s(8));
    lemma_nine_bits(s(0), s(1), s(2), s(3), s(4), s(5), s(6), s(7), s(8));
    let b = block_id(refs.block_at_pos(p).block_type);
    lemma_key_compose(ao, b);
    let k = ao | (b << 9u32);
    assert forall|i: u32| i < 9 implies (#[trigger] ao_bit(k, i) <==> refs.solid_at(offset_pos(p, ao_offset(axis6, i as int)))) by {
        assert(ao_bit(k, i) == ao_bit(ao, i));
        if i == 0 {} else if i == 1 {} else if i == 2 {} else if i == 3 {} else if i == 4 {}
        else if i == 5 {} else if i == 6 {} else if i == 7 {} else {}
    }
    k
}


/// A mesh whose vertices come in quads and whose indices draw each quad as the two
/// triangles `[i, i+1, i+2, i, i+2, i+3]`.
pub open spec fn quad_mesh(m: ChunkMesh) -> bool {
    &&& m.vertices.len() % 4 == 0
    &&& m.indices.len() == m.vertices.len() / 4 * 6
    &&& forall|q: int, k: int|
        0 <= q < m.vertices.len() / 4 && 0 <= k < 6 ==> #[trigger] m.indices@[q * 6 + k] == 4 * q
            + quad_index_pattern(k)
}

/// In a quad mesh, every index names one of its vertices.
pub proof fn lemma_indices_in_range(m: ChunkMesh)
    requires
        quad_mesh(m),
    ensures
        forall|i: int| 0 <= i < m.indices.len() ==> m.indices@[i] < m.vertices.len(),
{
    assert forall|i: int| 0 <= i < m.indices.len() implies m.indices@[i] < m.vertices.len() by {
        let q = i / 6;
        let k = i % 6;
        assert(i == q * 6 + k);
        assert(0 <= q < m.vertices.len() / 4) by (nonlinear_arith)
            requires
                0 <= i < m.vertices.len() / 4 * 6,
                q == i / 6,
        ;
        assert(m.indices@[q * 6 + k] == 4 * q + quad_index_pattern(k));
        assert(4 * q + 3 < m.vertices.len()) by (nonlinear_arith)
            requires
                0 <= q < m.vertices.len() / 4,
                m.vertices.len() % 4 == 0,
        ;
    }
}

/// A neighbourhood of chunks that are all uniform and of one block type shows no face.
pub proof fn lemma_all_same_no_face(refs: ChunksRefs)
    requires
        refs.wf(),
        refs.all_same(),
    ensures
        !has_face(refs),
{
    assert forall|axis6: int, y: int, z: int, x: int|
        0 <= axis6 < 6 && 0 <= y < 32 && 0 <= z < 32 && 0 <= x < 32 implies !#[trigger] is_face(
        refs,
        axis6,
        y,
        z,
        x,
    ) by {
        let p = slice_voxel(axis6, y, z, x);
        let n = offset_pos(p, air_dir_of(face_of_axis(axis6)));
        let sp = ChunksRefs::slot_of(p);
        let sn = ChunksRefs::slot_of(n);
        assert(0 <= sp < 27 && 0 <= sn < 27);
        assert(refs.chunks[sp].is_uniform() && refs.chunks[sn].is_uniform());
        assert(refs.block_at_pos(p).block_type == refs.chunks[0].voxels[0].block_type);
        assert(refs.block_at_pos(n).block_type == refs.chunks[0].voxels[0].block_type);
    }
}

/// The direction of face axis `axis6`.
pub(crate) fn face_dir_of_axis(axis6: usize) -> (r: FaceDir)
    requires
        axis6 < 6,
    ensures
        r == face_of_axis(axis6 as int),
{
    match axis6 {
        0 => FaceDir::Down,
        1 => FaceDir::Up,
        2 => FaceDir::Left,
        3 => FaceDir::Right,
        4 => FaceDir::Forward,
        _ => FaceDir::Back,
    }
}

/// A merged rectangle of faces: face axis, layer, merge key, and the rectangle of the
/// plane (rows are x, bits are z of the plane coordinates).
#[derive(Copy, Clone, Debug)]
pub struct FaceQuad {
    pub axis6: u32,
    pub layer: u32,
    pub key: u32,
    pub quad: GreedyQuad,
}

/// Whether a face quad covers the face at layer `y`, cell `(z, x)` of face axis `axis6`.
pub open spec fn on_face(fq: FaceQuad, axis6: int, y: int, z: int, x: int) -> bool {
    fq.axis6 == axis6 && fq.layer == y && covers(fq.quad, x, z)
}

pub open spec fn face_quad_ok(fq: FaceQuad) -> bool {
    fq.axis6 < 6 && fq.layer < 32 && fq.key < 0x800 && quad_in_plane(fq.quad)
}

/// Every quad lies in a plane, covers only faces whose material and occlusion pattern
/// match its key, and no face is covered twice.
pub open spec fn sound_quads(refs: ChunksRefs, qs: Seq<FaceQuad>) -> bool {
    &&& forall|j: int| 0 <= j < qs.len() ==> face_quad_ok(#[trigger] qs[j])
    &&& forall|j: int, x: int, z: int|
        0 <= j < qs.len() && #[trigger] covers(qs[j].quad, x, z) ==> is_face(
            refs,
            qs[j].axis6 as int,
            qs[j].layer as int,
            z,
            x,
        ) && key_matches(qs[j].key, refs, qs[j].axis6 as int, slice_voxel(qs[j].axis6 as int, qs[j].layer as int, z, x))
    &&& forall|i: int, j: int, axis6: int, y: int, z: int, x: int|
        0 <= i < j < qs.len() && #[trigger] on_face(qs[i], axis6, y, z, x) ==> !#[trigger] on_face(qs[j], axis6, y, z, x)
}

/// Whether two face quads belong to one plane: same face axis, layer and merge key.
pub open spec fn same_group(a: FaceQuad, b: FaceQuad) -> bool {
    a.axis6 == b.axis6 && a.layer == b.layer && a.key == b.key
}

/// Whether an earlier quad of the j-th quad's plane covers cell `(x, z)`.
pub open spec fn group_covered(qs: Seq<FaceQuad>, j: int, x: int, z: int) -> bool {
    exists|i: int| 0 <= i < j && same_group(#[trigger] qs[i], qs[j]) && covers(qs[i].quad, x, z)
}

/// Whether cell `(x, z)` of the j-th quad's plane is a face with the quad's key that no
/// earlier quad of that plane covers.
pub open spec fn group_rem(refs: ChunksRefs, qs: Seq<FaceQuad>, j: int, x: int, z: int) -> bool {
    let g = qs[j];
    &&& 0 <= z < 32
    &&& is_face(refs, g.axis6 as int, g.layer as int, z, x)
    &&& key_matches(g.key, refs, g.axis6 as int, slice_voxel(g.axis6 as int, g.layer as int, z, x))
    &&& !group_covered(qs, j, x, z)
}

/// The j-th quad is a sweep step of its plane: its run cannot be extended down or up
/// among the faces its plane's earlier quads left, and it grew over the following rows
/// until one lacked part of the run or the plane ended.
pub open spec fn face_sweep_step(refs: ChunksRefs, qs: Seq<FaceQuad>, j: int) -> bool {
    let q = qs[j].quad;
    &&& (q.y == 0 || !group_rem(refs, qs, j, q.x as int, q.y - 1))
    &&& (q.y + q.h == 32 || !group_rem(refs, qs, j, q.x as int, q.y + q.h))
    &&& (q.x + q.w >= 32 || exists|b: int| q.y <= b < q.y + q.h && !#[trigger] group_rem(refs, qs, j, q.x + q.w, b))
}

/// Whether the middle chunk shows a face whose plane bit lies below `n`.
pub open spec fn has_face_within(refs: ChunksRefs, n: int) -> bool {
    exists|axis6: int, y: int, z: int, x: int|
        0 <= axis6 < 6 && 0 <= y < 32 && 0 <= z < n && 0 <= x < 32 && #[trigger] is_face(refs, axis6, y, z, x)
}

/// Every face of the middle chunk whose plane bit lies below `n` is covered by some quad.
pub open spec fn complete_quads_below(refs: ChunksRefs, qs: Seq<FaceQuad>, n: int) -> bool {
    forall|axis6: int, y: int, z: int, x: int|
        0 <= axis6 < 6 && 0 <= y < 32 && 0 <= z < n && 0 <= x < 32 && #[trigger] is_face(refs, axis6, y, z, x)
            ==> exists|j: int| 0 <= j < qs.len() && #[trigger] on_face(qs[j], axis6, y, z, x)
}

/// Every face of the middle chunk is covered by some quad.
pub open spec fn complete_quads(refs: ChunksRefs, qs: Seq<FaceQuad>) -> bool {
    forall|axis6: int, y: int, z: int, x: int|
        0 <= axis6 < 6 && 0 <= y < 32 && 0 <= z < 32 && 0 <= x < 32 && #[trigger] is_face(refs, axis6, y, z, x)
            ==> exists|j: int| 0 <= j < qs.len() && #[trigger] on_face(qs[j], axis6, y, z, x)
}

/// The vertex words of a list of face quads, four per quad, in order.
pub open spec fn mesh_words(qs: Seq<FaceQuad>) -> Seq<u32>
    decreases qs.len(),
{
    if qs.len() == 0 {
        Seq::empty()
    } else {
        let q = qs.last();
        mesh_words(qs.drop_last()) + quad_words(
            q.quad,
            face_of_axis(q.axis6 as int),
            q.layer as int,
            1,
            q.key & 0x1ffu32,
            (q.key >> 9u32) as int,
        )
    }
}

proof fn lemma_mesh_words_len(qs: Seq<FaceQuad>)
    ensures
        mesh_words(qs).len() == 4 * qs.len(),
    decreases qs.len(),
{
    if qs.len() > 0 {
        let q = qs.last();
        lemma_quad_words_len(q.quad, face_of_axis(q.axis6 as int), q.layer as int, 1, q.key & 0x1ffu32, (q.key >> 9u32) as int);
        lemma_mesh_words_len(qs.drop_last());
    }
}

/// Binary greedy meshing up to the quads: per face axis, the faces are bucketed into
/// planes by layer and merge key, and each plane is merged into rectangles. The quads
/// cover only faces and none twice; at full detail they cover every face.
pub fn face_quads(chunks_refs: &ChunksRefs, lod: Lod) -> (r: Vec<FaceQuad>)
    requires
        chunks_refs.wf(),
    ensures
        sound_quads(*chunks_refs, r@),
        lod == Lod::L32 ==> complete_quads(*chunks_refs, r@),
        complete_quads_below(*chunks_refs, r@, crate::lod::lod_size(lod) as int),
        lod == Lod::L32 ==> forall|j: int| 0 <= j < r.len() ==> #[trigger] face_sweep_step(*chunks_refs, r@, j),
        lod == Lod::L32 ==> forall|a: int, b: int| 0 <= a < b < r.len() && same_group(#[trigger] r@[a], #[trigger] r@[b])
            ==> row_major(r@[a].quad, r@[b].quad),
        r.len() <= 6 * 0x200_0000,
{
    let plane_size = lod.size() as u32;
    let mut qs: Vec<FaceQuad> = Vec::new();
    let mut axis6: usize = 0;
    while axis6 < 6
        invariant
            chunks_refs.wf(),
            axis6 <= 6,
            plane_size == crate::lod::lod_size(lod),
            qs.len() <= axis6 * 0x200_0000,
            sound_quads(*chunks_refs, qs@),
            lod == Lod::L32 ==> forall|j: int| 0 <= j < qs.len() ==> #[trigger] face_sweep_step(*chunks_refs, qs@, j),
            lod == Lod::L32 ==> forall|a: int, b: int| 0 <= a < b < qs.len() && same_group(#[trigger] qs@[a], #[trigger] qs@[b])
                ==> row_major(qs@[a].quad, qs@[b].quad),
            forall|j: int| 0 <= j < qs.len() ==> (#[trigger] qs@[j]).axis6 < axis6,
            forall|a: int, y: int, z: int, x: int|
                 0 <= a < axis6 && 0 <= y < 32 && 0 <= z < plane_size && 0 <= x < 32 && #[trigger] is_face(*chunks_refs, a, y, z, x)
                    ==> exists|j: int| 0 <= j < qs.len() && #[trigger] on_face(qs@[j], a, y, z, x),
        decreases 6 - axis6,
    {
        let (slots, Ghost(witness)) = bucket_faces(chunks_refs, axis6);
        let axis_start = qs.len();
        let ghost mut origin: Seq<int> = Seq::empty();
        let mut e: usize = 0;
        while e < slots.len()
            invariant
                chunks_refs.wf(),
                axis6 < 6,
                plane_size == crate::lod::lod_size(lod),
                slots.len() <= 32768,
                e <= slots.len(),
                axis_start <= axis6 * 0x200_0000,
                axis_start <= qs.len() <= axis_start + e * 1024,
                origin.len() == qs.len() - axis_start,
                forall|f: int|
                    0 <= f < slots.len() ==> {
                        let s = #[trigger] slots[f];
                        &&& s.axis_pos < 32
                        &&& s.key < 0x800
                    },
                forall|f: int, x: int, z: u32|
                    0 <= f < slots.len() && 0 <= x < 32 && z < 32 ==> (#[trigger] row_bit(slots[f].rows[x], z)
                        <==> (is_face(*chunks_refs, axis6 as int, slots[f].axis_pos as int, z as int, x) && key_matches(
                        slots[f].key,
                        *chunks_refs,
                        axis6 as int,
                        slice_voxel(axis6 as int, slots[f].axis_pos as int, z as int, x),
                    ))),
                forall|e1: int, e2: int|
                    0 <= e1 < slots.len() && 0 <= e2 < slots.len() && e1 != e2 ==> slot_key(#[trigger] slots[e1])
                        != slot_key(#[trigger] slots[e2]),
                sound_quads(*chunks_refs, qs@),
                lod == Lod::L32 ==> forall|j: int| 0 <= j < qs.len() ==> #[trigger] face_sweep_step(*chunks_refs, qs@, j),
                lod == Lod::L32 ==> forall|a: int, b: int| 0 <= a < b < qs.len() && same_group(#[trigger] qs@[a], #[trigger] qs@[b])
                    ==> row_major(qs@[a].quad, qs@[b].quad),
                forall|j: int| 0 <= j < axis_start ==> (#[trigger] qs@[j]).axis6 < axis6,
                forall|j: int|
                    axis_start <= j < qs.len() ==> {
                        let o = origin[j - axis_start];
                        &&& (#[trigger] qs@[j]).axis6 == axis6
                        &&& 0 <= o < e
                        &&& qs@[j].layer == slots[o].axis_pos
                        &&& qs@[j].key == slots[o].key
                    },
                forall|a: int, y: int, z: int, x: int|
                     0 <= a < axis6 && 0 <= y < 32 && 0 <= z < plane_size && 0 <= x < 32 && #[trigger] is_face(*chunks_refs, a, y, z, x)
                        ==> exists|j: int| 0 <= j < qs.len() && #[trigger] on_face(qs@[j], a, y, z, x),
                forall|f: int, x: int, z: u32|
                     0 <= f < e && 0 <= x < 32 && z < plane_size && #[trigger] row_bit(slots[f].rows[x], z)
                        ==> exists|j: int| 0 <= j < qs.len() && #[trigger] on_face(qs@[j], axis6 as int, slots[f].axis_pos as int, z as int, x),
            decreases slots.len() - e,
        {
            let slot = slots[e];
            let quads = greedy_mesh_binary_plane(slot.rows, plane_size);
            let slot_start = qs.len();
            let mut k: usize = 0;
            while k < quads.len()
                invariant
                    chunks_refs.wf(),
                    axis6 < 6,
                    e < slots.len(),
                    slot == slots[e as int],
                    slots.len() <= 32768,
                    quads.len() <= 1024,
                    forall|m: int| 0 <= m < quads.len() ==> quad_in_plane(#[trigger] quads[m]),
                    pairwise_disjoint(quads@),
                    forall|row: int, b: u32|
                        0 <= row < 32 && b < 32 && #[trigger] covered(quads@, row, b as int) ==> row_bit(slot.rows@[row], b),
                    axis_start <= slot_start <= axis_start + e * 1024,
                    k <= quads.len(),
                    qs.len() == slot_start + k,
                    origin.len() == qs.len() - axis_start,
                    forall|m: int| 0 <= m < k ==> #[trigger] qs@[slot_start + m] == (FaceQuad {
                        axis6: axis6 as u32,
                        layer: slot.axis_pos,
                        key: slot.key,
                        quad: quads@[m],
                    }),
                    forall|f: int|
                        0 <= f < slots.len() ==> {
                            let s = #[trigger] slots[f];
                            &&& s.axis_pos < 32
                            &&& s.key < 0x800
                        },
                    forall|f: int, x: int, z: u32|
                        0 <= f < slots.len() && 0 <= x < 32 && z < 32 ==> (#[trigger] row_bit(slots[f].rows[x], z)
                            <==> (is_face(*chunks_refs, axis6 as int, slots[f].axis_pos as int, z as int, x) && key_matches(
                            slots[f].key,
                            *chunks_refs,
                            axis6 as int,
                            slice_voxel(axis6 as int, slots[f].axis_pos as int, z as int, x),
                        ))),
                    forall|e1: int, e2: int|
                        0 <= e1 < slots.len() && 0 <= e2 < slots.len() && e1 != e2 ==> slot_key(#[trigger] slots[e1])
                            != slot_key(#[trigger] slots[e2]),
                    sound_quads(*chunks_refs, qs@),
                    lod == Lod::L32 ==> forall|j: int| 0 <= j < qs.len() ==> #[trigger] face_sweep_step(*chunks_refs, qs@, j),
                    lod == Lod::L32 ==> forall|a: int, b: int| 0 <= a < b < qs.len() && same_group(#[trigger] qs@[a], #[trigger] qs@[b])
                        ==> row_major(qs@[a].quad, qs@[b].quad),
                    lod == Lod::L32 ==> forall|a: int, b: int| 0 <= a < b < quads.len() ==> row_major(#[trigger] quads@[a], #[trigger] quads@[b]),
                    lod == Lod::L32 ==> forall|m: int| 0 <= m < quads.len() ==> #[trigger] sweep_step(slot.rows@, quads@, m, 32),
                    forall|j: int| 0 <= j < axis_start ==> (#[trigger] qs@[j]).axis6 < axis6,
                    forall|j: int|
                        axis_start <= j < qs.len() ==> {
                            let o = origin[j - axis_start];
                            &&& (#[trigger] qs@[j]).axis6 == axis6
                            &&& 0 <= o <= e
                            &&& (j < slot_start ==> o < e)
                            &&& (j >= slot_start ==> o == e)
                            &&& qs@[j].layer == slots[o].axis_pos
                            &&& qs@[j].key == slots[o].key
                        },
                    forall|a: int, y: int, z: int, x: int|
                         0 <= a < axis6 && 0 <= y < 32 && 0 <= z < plane_size && 0 <= x < 32 && #[trigger] is_face(*chunks_refs, a, y, z, x)
                            ==> exists|j: int| 0 <= j < qs.len() && #[trigger] on_face(qs@[j], a, y, z, x),
                    forall|f: int, x: int, z: u32|
                         0 <= f < e && 0 <= x < 32 && z < plane_size && #[trigger] row_bit(slots[f].rows[x], z)
                            ==> exists|j: int| 0 <= j < qs.len() && #[trigger] on_face(qs@[j], axis6 as int, slots[f].axis_pos as int, z as int, x),
                decreases quads.len() - k,
            {
                let fq = FaceQuad { axis6: axis6 as u32, layer: slot.axis_pos, key: slot.key, quad: quads[k] };
                let ghost q0 = qs@;
                proof {
                    lemma_push_face_quad(*chunks_refs, q0, fq, origin, axis_start as int, slot_start as int, slots@, e as int, quads@, k as int);
                    if lod == Lod::L32 {
                        lemma_push_face_sweep(*chunks_refs, q0, fq, origin, axis_start as int, slot_start as int, slots@, e as int, quads@, k as int);
                    }
                }
                qs.push(fq);
                proof {
                    origin = origin.push(e as int);
                    assert(qs@ == q0.push(fq));
                    {
                        assert forall|a: int, y: int, z: int, x: int|
                            0 <= a < axis6 && 0 <= y < 32 && 0 <= z < plane_size && 0 <= x < 32 && #[trigger] is_face(*chunks_refs, a, y, z, x)
                                implies exists|j: int| 0 <= j < qs.len() && #[trigger] on_face(qs@[j], a, y, z, x) by {
                            lemma_on_face_persists(q0, fq, a, y, z, x);
                        }
                        assert forall|f: int, x: int, z: u32|
                            0 <= f < e && 0 <= x < 32 && z < plane_size && #[trigger] row_bit(slots[f].rows[x], z)
                                implies exists|j: int| 0 <= j < qs.len() && #[trigger] on_face(qs@[j], axis6 as int, slots[f].axis_pos as int, z as int, x) by {
                            lemma_on_face_persists(q0, fq, axis6 as int, slots[f].axis_pos as int, z as int, x);
                        }
                    }
                }
                k = k + 1;
            }
            proof {
                assert forall|j: int| axis_start <= j < qs.len() implies {
                    let o = origin[j - axis_start];
                    &&& (#[trigger] qs@[j]).axis6 == axis6
                    &&& 0 <= o < e + 1
                    &&& qs@[j].layer == slots[o].axis_pos
                    &&& qs@[j].key == slots[o].key
                } by {
                    let o = origin[j - axis_start];
                    assert((qs@[j]).axis6 == axis6);
                    assert(0 <= o <= e);
                    assert(qs@[j].layer == slots[o].axis_pos);
                    assert(qs@[j].key == slots[o].key);
                }
                {
                    assert forall|f: int, x: int, z: u32|
                        0 <= f < e + 1 && 0 <= x < 32 && z < plane_size && #[trigger] row_bit(slots[f].rows[x], z)
                            implies exists|j: int| 0 <= j < qs.len() && #[trigger] on_face(qs@[j], axis6 as int, slots[f].axis_pos as int, z as int, x) by {
                        if f == e {
                            assert(covered(quads@, x, z as int));
                            let m = choose|m: int| 0 <= m < quads.len() && covers(#[trigger] quads@[m], x, z as int);
                            assert(on_face(qs@[slot_start + m], axis6 as int, slots[f].axis_pos as int, z as int, x));
                        }
                    }
                }
            }
            e = e + 1;
            proof {
                assert forall|j: int| axis_start <= j < qs.len() implies {
                    let o = origin[j - axis_start];
                    &&& (#[trigger] qs@[j]).axis6 == axis6
                    &&& 0 <= o < e
                    &&& qs@[j].layer == slots[o].axis_pos
                    &&& qs@[j].key == slots[o].key
                } by {
                    assert((qs@[j]).axis6 == axis6);
                }
            }
        }
        proof {
            {
                assert forall|a: int, y: int, z: int, x: int|
                    0 <= a < axis6 + 1 && 0 <= y < 32 && 0 <= z < plane_size && 0 <= x < 32 && #[trigger] is_face(*chunks_refs, a, y, z, x)
                        implies exists|j: int| 0 <= j < qs.len() && #[trigger] on_face(qs@[j], a, y, z, x) by {
                    if a == axis6 {
                        let f = choose|f: int| 0 <= f < slots.len() && (#[trigger] slots[f]).axis_pos == y && row_bit(slots[f].rows[x], z as u32);
                        assert(row_bit(slots[f].rows[x], z as u32));
                    }
                }
            }
        }
        axis6 = axis6 + 1;
    }
    qs
}

proof fn lemma_on_face_persists(qs: Seq<FaceQuad>, fq: FaceQuad, a: int, y: int, z: int, x: int)
    ensures
        (exists|j: int| 0 <= j < qs.len() && #[trigger] on_face(qs[j], a, y, z, x)) ==> exists|j: int|
            0 <= j < qs.push(fq).len() && #[trigger] on_face(qs.push(fq)[j], a, y, z, x),
{
    if exists|j: int| 0 <= j < qs.len() && #[trigger] on_face(qs[j], a, y, z, x) {
        let j = choose|j: int| 0 <= j < qs.len() && #[trigger] on_face(qs[j], a, y, z, x);
        assert(qs.push(fq)[j] == qs[j]);
    }
}

proof fn lemma_push_face_sweep(
    refs: ChunksRefs,
    qs: Seq<FaceQuad>,
    fq: FaceQuad,
    origin: Seq<int>,
    axis_start: int,
    slot_start: int,
    slots: Seq<PlaneSlot>,
    e: int,
    quads: Seq<GreedyQuad>,
    k: int,
)
    requires
        forall|a: int, b: int| 0 <= a < b < quads.len() ==> row_major(#[trigger] quads[a], #[trigger] quads[b]),
        forall|m: int| 0 <= m < quads.len() ==> #[trigger] sweep_step(slots[e].rows@, quads, m, 32),
        forall|j: int| 0 <= j < qs.len() ==> #[trigger] face_sweep_step(refs, qs, j),
        forall|a: int, b: int| 0 <= a < b < qs.len() && same_group(#[trigger] qs[a], #[trigger] qs[b]) ==> row_major(qs[a].quad, qs[b].quad),
        refs.wf(),
        0 <= e < slots.len(),
        0 <= k < quads.len(),
        fq.axis6 < 6,
        fq == (FaceQuad { axis6: fq.axis6, layer: slots[e].axis_pos, key: slots[e].key, quad: quads[k] }),
        forall|m: int| 0 <= m < quads.len() ==> quad_in_plane(#[trigger] quads[m]),
        pairwise_disjoint(quads),
        forall|row: int, b: u32|
            0 <= row < 32 && b < 32 && #[trigger] covered(quads, row, b as int) ==> row_bit(slots[e].rows@[row], b),
        0 <= axis_start <= slot_start,
        qs.len() == slot_start + k,
        origin.len() == qs.len() - axis_start,
        forall|m: int| 0 <= m < k ==> #[trigger] qs[slot_start + m] == (FaceQuad {
            axis6: fq.axis6,
            layer: slots[e].axis_pos,
            key: slots[e].key,
            quad: quads[m],
        }),
        forall|f: int|
            0 <= f < slots.len() ==> {
                let s = #[trigger] slots[f];
                &&& s.axis_pos < 32
                &&& s.key < 0x800
            },
        forall|f: int, x: int, z: u32|
            0 <= f < slots.len() && 0 <= x < 32 && z < 32 ==> (#[trigger] row_bit(slots[f].rows[x], z)
                <==> (is_face(refs, fq.axis6 as int, slots[f].axis_pos as int, z as int, x) && key_matches(
                slots[f].key,
                refs,
                fq.axis6 as int,
                slice_voxel(fq.axis6 as int, slots[f].axis_pos as int, z as int, x),
            ))),
        forall|e1: int, e2: int|
            0 <= e1 < slots.len() && 0 <= e2 < slots.len() && e1 != e2 ==> slot_key(#[trigger] slots[e1])
                != slot_key(#[trigger] slots[e2]),
        sound_quads(refs, qs),
        forall|j: int| 0 <= j < axis_start ==> (#[trigger] qs[j]).axis6 < fq.axis6,
        forall|j: int|
            axis_start <= j < qs.len() ==> {
                let o = origin[j - axis_start];
                &&& (#[trigger] qs[j]).axis6 == fq.axis6
                &&& 0 <= o <= e
                &&& (j < slot_start ==> o < e)
                &&& qs[j].layer == slots[o].axis_pos
                &&& qs[j].key == slots[o].key
            },
    ensures
        forall|j: int| 0 <= j < qs.len() + 1 ==> #[trigger] face_sweep_step(refs, qs.push(fq), j),
        forall|a: int, b: int| 0 <= a < b < qs.len() + 1 && same_group(#[trigger] qs.push(fq)[a], #[trigger] qs.push(fq)[b])
            ==> row_major(qs.push(fq)[a].quad, qs.push(fq)[b].quad),
{
    let q1 = qs.push(fq);
    let jn = qs.len() as int;
    assert(q1[jn] == fq);
    // the earlier quads of the new quad's group are those of its slot
    assert forall|i: int| 0 <= i < jn && same_group(q1[i], fq) implies slot_start <= i by {
        assert(q1[i] == qs[i]);
        if i >= axis_start && i < slot_start {
            let o = origin[i - axis_start];
            assert(qs[i].axis6 == fq.axis6);
            assert(slot_key(slots[o]) == slot_key(slots[e]));
        }
    }
    assert forall|x: int, z: int| #[trigger] group_covered(q1, jn, x, z) <==> covered(quads.subrange(0, k), x, z) by {
        if group_covered(q1, jn, x, z) {
            let i = choose|i: int| 0 <= i < jn && same_group(#[trigger] q1[i], q1[jn]) && covers(q1[i].quad, x, z);
            let m = i - slot_start;
            assert(qs[slot_start + m] == q1[i]);
            assert(quads.subrange(0, k)[m] == quads[m]);
        }
        if covered(quads.subrange(0, k), x, z) {
            let m = choose|m: int| 0 <= m < k && covers(#[trigger] quads.subrange(0, k)[m], x, z);
            assert(quads.subrange(0, k)[m] == quads[m]);
            assert(q1[slot_start + m] == qs[slot_start + m]);
            assert(same_group(q1[slot_start + m], q1[jn]) && covers(q1[slot_start + m].quad, x, z));
        }
    }
    assert forall|x: int, z: int| 0 <= x < 32 implies #[trigger] group_rem(refs, q1, jn, x, z) == in_rem(slots[e].rows@, quads, k, x, z) by {
        if 0 <= z < 32 {
            assert(row_bit(slots[e].rows[x], z as u32) <==> (is_face(refs, fq.axis6 as int, slots[e].axis_pos as int, z, x) && key_matches(
                slots[e].key,
                refs,
                fq.axis6 as int,
                slice_voxel(fq.axis6 as int, slots[e].axis_pos as int, z, x),
            )));
        }
    }
    let q = quads[k];
    assert(sweep_step(slots[e].rows@, quads, k, 32));
    assert(quad_in_plane(q));
    if q.y > 0 {
        assert(group_rem(refs, q1, jn, q.x as int, q.y - 1) == in_rem(slots[e].rows@, quads, k, q.x as int, q.y - 1));
    }
    if q.y + q.h < 32 {
        assert(group_rem(refs, q1, jn, q.x as int, q.y + q.h) == in_rem(slots[e].rows@, quads, k, q.x as int, q.y + q.h));
    }
    if q.x + q.w < 32 {
        let b = choose|b: int| q.y <= b < q.y + q.h && !#[trigger] in_rem(slots[e].rows@, quads, k, q.x + q.w, b);
        assert(group_rem(refs, q1, jn, q.x + q.w, b) == in_rem(slots[e].rows@, quads, k, q.x + q.w, b));
    }
    assert(face_sweep_step(refs, q1, jn));
    assert forall|j: int| 0 <= j < qs.len() + 1 implies #[trigger] face_sweep_step(refs, q1, j) by {
        if j < jn {
            assert(face_sweep_step(refs, qs, j));
            assert(q1[j] == qs[j]);
            assert forall|x: int, z: int| #[trigger] group_covered(q1, j, x, z) == group_covered(qs, j, x, z) by {
                if group_covered(q1, j, x, z) {
                    let i = choose|i: int| 0 <= i < j && same_group(#[trigger] q1[i], q1[j]) && covers(q1[i].quad, x, z);
                    assert(q1[i] == qs[i]);
                }
                if group_covered(qs, j, x, z) {
                    let i = choose|i: int| 0 <= i < j && same_group(#[trigger] qs[i], qs[j]) && covers(qs[i].quad, x, z);
                    assert(q1[i] == qs[i]);
                }
            }
            let g = qs[j].quad;
            if g.x + g.w < 32 {
                let b = choose|b: int| g.y <= b < g.y + g.h && !#[trigger] group_rem(refs, qs, j, g.x + g.w, b);
                assert(!group_rem(refs, q1, j, g.x + g.w, b));
            }
        }
    }
    assert forall|a: int, b: int| 0 <= a < b < qs.len() + 1 && same_group(#[trigger] q1[a], #[trigger] q1[b])
        implies row_major(q1[a].quad, q1[b].quad) by {
        assert(q1[a] == qs[a]);
        if b < jn {
            assert(q1[b] == qs[b]);
        } else {
            assert(slot_start <= a);
            let m = a - slot_start;
            assert(qs[slot_start + m].quad == quads[m]);
            assert(row_major(quads[m], quads[k]));
        }
    }
}

proof fn lemma_push_face_quad(
    refs: ChunksRefs,
    qs: Seq<FaceQuad>,
    fq: FaceQuad,
    origin: Seq<int>,
    axis_start: int,
    slot_start: int,
    slots: Seq<PlaneSlot>,
    e: int,
    quads: Seq<GreedyQuad>,
    k: int,
)
    requires
        refs.wf(),
        0 <= e < slots.len(),
        0 <= k < quads.len(),
        fq.axis6 < 6,
        fq == (FaceQuad { axis6: fq.axis6, layer: slots[e].axis_pos, key: slots[e].key, quad: quads[k] }),
        forall|m: int| 0 <= m < quads.len() ==> quad_in_plane(#[trigger] quads[m]),
        pairwise_disjoint(quads),
        forall|row: int, b: u32|
            0 <= row < 32 && b < 32 && #[trigger] covered(quads, row, b as int) ==> row_bit(slots[e].rows@[row], b),
        0 <= axis_start <= slot_start,
        qs.len() == slot_start + k,
        origin.len() == qs.len() - axis_start,
        forall|m: int| 0 <= m < k ==> #[trigger] qs[slot_start + m] == (FaceQuad {
            axis6: fq.axis6,
            layer: slots[e].axis_pos,
            key: slots[e].key,
            quad: quads[m],
        }),
        forall|f: int|
            0 <= f < slots.len() ==> {
                let s = #[trigger] slots[f];
                &&& s.axis_pos < 32
                &&& s.key < 0x800
            },
        forall|f: int, x: int, z: u32|
            0 <= f < slots.len() && 0 <= x < 32 && z < 32 ==> (#[trigger] row_bit(slots[f].rows[x], z)
                <==> (is_face(refs, fq.axis6 as int, slots[f].axis_pos as int, z as int, x) && key_matches(
                slots[f].key,
                refs,
                fq.axis6 as int,
                slice_voxel(fq.axis6 as int, slots[f].axis_pos as int, z as int, x),
            ))),
        forall|e1: int, e2: int|
            0 <= e1 < slots.len() && 0 <= e2 < slots.len() && e1 != e2 ==> slot_key(#[trigger] slots[e1])
                != slot_key(#[trigger] slots[e2]),
        sound_quads(refs, qs),
        forall|j: int| 0 <= j < axis_start ==> (#[trigger] qs[j]).axis6 < fq.axis6,
        forall|j: int|
            axis_start <= j < qs.len() ==> {
                let o = origin[j - axis_start];
                &&& (#[trigger] qs[j]).axis6 == fq.axis6
                &&& 0 <= o <= e
                &&& (j < slot_start ==> o < e)
                &&& qs[j].layer == slots[o].axis_pos
                &&& qs[j].key == slots[o].key
            },
    ensures
        sound_quads(refs, qs.push(fq)),
{
    let q1 = qs.push(fq);
    let a = fq.axis6 as int;
    assert(quad_in_plane(quads[k]));
    assert forall|j: int| 0 <= j < q1.len() implies face_quad_ok(#[trigger] q1[j]) by {
        if j < qs.len() {
            assert(q1[j] == qs[j]);
        }
    }
    assert forall|j: int, x: int, z: int|
        0 <= j < q1.len() && #[trigger] covers(q1[j].quad, x, z) implies is_face(
            refs,
            q1[j].axis6 as int,
            q1[j].layer as int,
            z,
            x,
        ) && key_matches(q1[j].key, refs, q1[j].axis6 as int, slice_voxel(q1[j].axis6 as int, q1[j].layer as int, z, x)) by {
        if j < qs.len() {
            assert(q1[j] == qs[j]);
        } else {
            assert(covers(quads[k], x, z));
            assert(covered(quads, x, (z as u32) as int));
            assert(row_bit(slots[e].rows@[x], z as u32));
        }
    }
    assert forall|i: int, j: int, axis6: int, y: int, z: int, x: int|
        0 <= i < j < q1.len() && #[trigger] on_face(q1[i], axis6, y, z, x) implies !#[trigger] on_face(q1[j], axis6, y, z, x) by {
        if j < qs.len() {
            assert(q1[i] == qs[i] && q1[j] == qs[j]);
        } else if on_face(q1[j], axis6, y, z, x) {
            assert(q1[i] == qs[i]);
            // both cover (x, z) on the same axis and layer
            if i >= slot_start {
                let m = i - slot_start;
                assert(qs[slot_start + m] == (FaceQuad { axis6: fq.axis6, layer: slots[e].axis_pos, key: slots[e].key, quad: quads[m] }));
                assert(covers(quads[m], x, z));
                assert(!covers(quads[k], x, z));
            } else if i >= axis_start {
                let o = origin[i - axis_start];
                assert(covers(qs[i].quad, x, z));
                let p = slice_voxel(a, y, z, x);
                assert(key_matches(qs[i].key, refs, a, p));
                assert(covers(quads[k], x, z));
                assert(covered(quads, x, (z as u32) as int));
                assert(row_bit(slots[e].rows@[x], z as u32));
                assert(key_matches(slots[e].key, refs, a, p));
                lemma_key_unique(qs[i].key, slots[e].key, refs, a, p);
                assert(slot_key(slots[o]) == slot_key(slots[e]));
            }
        }
    }
}

/// Meshes the middle chunk of a neighbourhood with binary greedy meshing: the vertices
/// are those of the face quads, four per quad, each with the direction, layer,
/// occlusion pattern and material of its quad. At full detail the quads of each plane
/// are that plane's greedy sweep, so equal blocks give equal quads. `None` when the
/// chunk shows no face.
pub fn build_chunk_mesh(chunks_refs: &ChunksRefs, lod: Lod) -> (r: Option<ChunkMesh>)
    requires
        chunks_refs.wf(),
    ensures
        chunks_refs.all_same() ==> r is None,
        r is Some ==> has_face(*chunks_refs),
        lod == Lod::L32 ==> (r is Some <==> has_face(*chunks_refs)),
        has_face_within(*chunks_refs, crate::lod::lod_size(lod) as int) ==> r is Some,
        r matches Some(m) ==> quad_mesh(m) && m.vertices.len() > 0 && exists|qs: Seq<FaceQuad>|
            sound_quads(*chunks_refs, qs) && (lod == Lod::L32 ==> complete_quads(*chunks_refs, qs))
                && complete_quads_below(*chunks_refs, qs, crate::lod::lod_size(lod) as int)
                && (lod == Lod::L32 ==> forall|j: int| 0 <= j < qs.len() ==> #[trigger] face_sweep_step(*chunks_refs, qs, j))
                && (lod == Lod::L32 ==> forall|a: int, b: int| 0 <= a < b < qs.len() && same_group(#[trigger] qs[a], #[trigger] qs[b])
                    ==> row_major(qs[a].quad, qs[b].quad))
                && #[trigger] mesh_words(qs) == m.vertices@,
{
    if chunks_refs.is_all_voxels_same() {
        proof {
            lemma_all_same_no_face(*chunks_refs);
            if has_face_within(*chunks_refs, crate::lod::lod_size(lod) as int) {
                let (a, y, z, x) = choose|a: int, y: int, z: int, x: int|
                    0 <= a < 6 && 0 <= y < 32 && 0 <= z < crate::lod::lod_size(lod) && 0 <= x < 32 && #[trigger] is_face(*chunks_refs, a, y, z, x);
                assert(is_face(*chunks_refs, a, y, z, x));
            }
        }
        return None;
    }
    let qs = face_quads(chunks_refs, lod);
    let mut vertices: Vec<u32> = Vec::new();
    let mut j: usize = 0;
    while j < qs.len()
        invariant
            j <= qs.len(),
            qs.len() <= 6 * 0x200_0000,
            forall|i: int| 0 <= i < qs.len() ==> face_quad_ok(#[trigger] qs@[i]),
            vertices@ == mesh_words(qs@.subrange(0, j as int)),
            vertices.len() == 4 * j,
        decreases qs.len() - j,
    {
        let fq = qs[j];
        assert(face_quad_ok(fq));
        let key = fq.key;
        let ao = key & 0x1ff;
        let block_type = key >> 9;
        assert(ao < 0x200 && block_type < 4) by (bit_vector)
            requires
                ao == key & 0x1ff,
                block_type == key >> 9,
                key < 0x800,
        ;
        let face_dir = face_dir_of_axis(fq.axis6 as usize);
        proof {
            lemma_quad_words_len(fq.quad, face_dir, fq.layer as int, 1, ao, block_type as int);
            let (ax, x, y, xw, yh) = (fq.layer as int, fq.quad.x as int, fq.quad.y as int, fq.quad.x + fq.quad.w, fq.quad.y + fq.quad.h);
            lemma_corner_scaled(face_dir, ax, x, y, 1);
            lemma_corner_scaled(face_dir, ax, xw, y, 1);
            lemma_corner_scaled(face_dir, ax, xw, yh, 1);
            lemma_corner_scaled(face_dir, ax, x, yh, 1);
        }
        fq.quad.append_vertices(&mut vertices, face_dir, fq.layer, &Lod::L32, ao, block_type);
        proof {
            let s1 = qs@.subrange(0, j + 1);
            assert(s1.drop_last() =~= qs@.subrange(0, j as int));
            assert(s1.last() == fq);
        }
        j = j + 1;
    }
    proof {
        assert(qs@.subrange(0, qs.len() as int) =~= qs@);
        lemma_mesh_words_len(qs@);
        if vertices.len() > 0 {
            let q = qs@[0];
            assert(face_quad_ok(q));
            assert(covers(q.quad, q.quad.x as int, q.quad.y as int));
            assert(is_face(*chunks_refs, q.axis6 as int, q.layer as int, q.quad.y as int, q.quad.x as int));
        }
        if lod == Lod::L32 && has_face(*chunks_refs) {
            let (a, y, z, x) = choose|a: int, y: int, z: int, x: int|
                0 <= a < 6 && 0 <= y < 32 && 0 <= z < 32 && 0 <= x < 32 && #[trigger] is_face(*chunks_refs, a, y, z, x);
            assert(is_face(*chunks_refs, a, y, z, x));
        }
        if has_face_within(*chunks_refs, crate::lod::lod_size(lod) as int) {
            let (a, y, z, x) = choose|a: int, y: int, z: int, x: int|
                0 <= a < 6 && 0 <= y < 32 && 0 <= z < crate::lod::lod_size(lod) && 0 <= x < 32 && #[trigger] is_face(*chunks_refs, a, y, z, x);
            assert(is_face(*chunks_refs, a, y, z, x));
        }
    }
    if vertices.len() == 0 {
        None
    } else {
        let indices = generate_indices(vertices.len());
        Some(ChunkMesh { vertices, indices })
    }
}

} // verus!
