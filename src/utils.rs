use vstd::prelude::*;
use crate::math::IVec3;

verus! {

/// Packed vertex word: 6 bits each of x, y and z, 3 bits of ambient occlusion,
/// 4 bits of normal index and 7 bits of block type id.
pub open spec fn vertex_word(x: int, y: int, z: int, ao: int, normal: int, block: int) -> int {
    x + y * 0x40 + z * 0x1000 + ao * 0x4_0000 + normal * 0x20_0000 + block * 0x200_0000
}

/// The components of a position, as `vec3_to_index` flattens it.
pub open spec fn flat_index(x: int, y: int, z: int, bounds: int) -> int {
    x + y * bounds + z * bounds * bounds
}

/// The offset to the chunk that shares a face, edge or corner with a local position
/// on the border of a chunk; zero on an axis where the position is inside.
pub open spec fn edge_step(c: i32) -> i32 {
    if c == 0 {
        -1i32
    } else if c == 31 {
        1
    } else {
        0
    }
}

/// The index pattern of one quad, made of two triangles.
pub open spec fn quad_index_pattern(k: int) -> int {
    if k == 0 {
        0
    } else if k == 1 {
        1
    } else if k == 2 {
        2
    } else if k == 3 {
        0
    } else if k == 4 {
        2
    } else {
        3
    }
}

/// Splits a flat index over a cube of side 32 into (x, y, z), x varying fastest.
pub fn index_to_ivec3(i: i32) -> (r: IVec3)
    requires
        0 <= i,
    ensures
        r.x == i % 32,
        r.y == (i / 32) % 32,
        r.z == i / 1024,
{
    let x = i % 32;
    let y = (i / 32) % 32;
    let z = i / (32 * 32);
    IVec3::new(x, y, z)
}

/// Splits a flat index over a cube of side `bounds` into (x, y, z), x varying fastest.
pub fn index_to_ivec3_bounds(i: i32, bounds: i32) -> (r: IVec3)
    requires
        0 <= i,
        0 < bounds <= 46340,
    ensures
        r.x == i as int % bounds as int,
        r.y == (i as int / bounds as int) % bounds as int,
        r.z == i as int / (bounds as int * bounds as int),
{
    assert(0 < bounds * bounds <= 46340 * 46340) by (nonlinear_arith)
        requires
            0 < bounds <= 46340,
    ;
    let x = i % bounds;
    let y = (i / bounds) % bounds;
    let z = i / (bounds * bounds);
    IVec3::new(x, y, z)
}

/// Splits a flat index over a cube of side `bounds` into (x, y, z), z varying fastest.
pub fn index_to_ivec3_bounds_reverse(i: i32, bounds: i32) -> (r: IVec3)
    requires
        0 <= i,
        0 < bounds <= 46340,
    ensures
        r.z == i as int % bounds as int,
        r.y == (i as int / bounds as int) % bounds as int,
        r.x == i as int / (bounds as int * bounds as int),
{
    assert(0 < bounds * bounds <= 46340 * 46340) by (nonlinear_arith)
        requires
            0 < bounds <= 46340,
    ;
    let z = i % bounds;
    let y = (i / bounds) % bounds;
    let x = i / (bounds * bounds);
    IVec3::new(x, y, z)
}

/// Whether a position lies on a boundary plane of a chunk, 0 or 32 on some axis.
pub fn is_on_edge(pos: IVec3) -> (r: bool)
    ensures
        r == (pos.x == 0 || pos.x == 32 || pos.y == 0 || pos.y == 32 || pos.z == 0 || pos.z
            == 32),
{
    if pos.x == 0 || pos.x == 32 {
        return true;
    }
    if pos.y == 0 || pos.y == 32 {
        return true;
    }
    if pos.z == 0 || pos.z == 32 {
        return true;
    }
    false
}

/// For a local position on the border of its chunk, the offset of the chunk whose
/// padding reads it.
pub fn get_edging_chunk(pos: IVec3) -> (r: Option<IVec3>)
    ensures
        ({
            let d = IVec3 { x: edge_step(pos.x), y: edge_step(pos.y), z: edge_step(pos.z) };
            if d == (IVec3 { x: 0, y: 0, z: 0 }) {
                r is None
            } else {
                r == Some(d)
            }
        }),
{
    let mut chunk_dir = IVec3::splat(0);
    if pos.x == 0 {
        chunk_dir.x = -1;
    } else if pos.x == 31 {
        chunk_dir.x = 1;
    }
    if pos.y == 0 {
        chunk_dir.y = -1;
    } else if pos.y == 31 {
        chunk_dir.y = 1;
    }
    if pos.z == 0 {
        chunk_dir.z = -1;
    } else if pos.z == 31 {
        chunk_dir.z = 1;
    }
    if chunk_dir == IVec3::splat(0) {
        None
    } else {
        Some(chunk_dir)
    }
}

proof fn lemma_vertex_bits(x: u32, y: u32, z: u32, ao: u32, normal: u32, block: u32)
    requires
        x < 64,
        y < 64,
        z < 64,
        ao < 8,
        normal < 16,
        block < 128,
    ensures
        x | y << 6u32 | z << 12u32 | ao << 18u32 | normal << 21u32 | block << 25u32 == x + y
            * 0x40 + z * 0x1000 + ao * 0x4_0000 + normal * 0x20_0000 + block * 0x200_0000,
{
    assert(x | y << 6u32 | z << 12u32 | ao << 18u32 | normal << 21u32 | block << 25u32 == x + y
        * 0x40 + z * 0x1000 + ao * 0x4_0000 + normal * 0x20_0000 + block * 0x200_0000)
        by (bit_vector)
        requires
            x < 64,
            y < 64,
            z < 64,
            ao < 8,
            normal < 16,
            block < 128,
    ;
}

/// Packs a vertex position, its ambient occlusion, normal index and block type.
pub fn make_vertex_u32(pos: IVec3, ao: u32, normal: u32, block_type: u32) -> (r: u32)
    requires
        0 <= pos.x < 64,
        0 <= pos.y < 64,
        0 <= pos.z < 64,
        ao < 8,
        normal < 16,
        block_type < 128,
    ensures
        r == vertex_word(pos.x as int, pos.y as int, pos.z as int, ao as int, normal as int, block_type as int),
{
    proof {
        lemma_vertex_bits(pos.x as u32, pos.y as u32, pos.z as u32, ao, normal, block_type);
    }
    pos.x as u32 | (pos.y as u32) << 6u32 | (pos.z as u32) << 12u32 | ao << 18u32 | normal
        << 21u32 | block_type << 25u32
}

/// The index list for `vertex_count` vertices grouped in quads of four: two
/// triangles `[i, i+1, i+2, i, i+2, i+3]` per quad.
pub fn generate_indices(vertex_count: usize) -> (r: Vec<u32>)
    requires
        vertex_count <= 0xffff_fff0,
    ensures
        r@.len() == (vertex_count / 4) * 6,
        forall|q: int, k: int|
            0 <= q < vertex_count / 4 && 0 <= k < 6 ==> #[trigger] r@[q * 6 + k] == 4 * q
                + quad_index_pattern(k),
{
    let indices_count = vertex_count / 4;
    let mut indices: Vec<u32> = Vec::with_capacity(indices_count);
    let mut q: usize = 0;
    while q < indices_count
        invariant
            indices_count == vertex_count / 4,
            vertex_count <= 0xffff_fff0,
            q <= indices_count,
            indices@.len() == q * 6,
            forall|p: int, k: int|
                0 <= p < q && 0 <= k < 6 ==> #[trigger] indices@[p * 6 + k] == 4 * p
                    + quad_index_pattern(k),
        decreases indices_count - q,
    {
        let vert_index = q as u32 * 4u32;
        indices.push(vert_index);
        indices.push(vert_index + 1);
        indices.push(vert_index + 2);
        indices.push(vert_index);
        indices.push(vert_index + 2);
        indices.push(vert_index + 3);
        assert forall|p: int, k: int| 0 <= p < q + 1 && 0 <= k < 6 implies #[trigger] indices@[p
            * 6 + k] == 4 * p + quad_index_pattern(k) by {
            if p == q {
                assert(p * 6 + k == q * 6 + k);
            } else {
                assert(p * 6 + k < q * 6) by (nonlinear_arith)
                    requires
                        p < q,
                        k < 6,
                ;
            }
        }
        q = q + 1;
    }
    indices
}

/// Flattens a position inside a cube of side `bounds`, x varying fastest.
pub fn vec3_to_index(pos: IVec3, bounds: i32) -> (r: usize)
    requires
        0 < bounds <= 1290,
        0 <= pos.x < bounds,
        0 <= pos.y < bounds,
        0 <= pos.z < bounds,
    ensures
        r == flat_index(pos.x as int, pos.y as int, pos.z as int, bounds as int),
{
    assert(0 <= pos.y * bounds <= bounds * bounds - bounds) by (nonlinear_arith)
        requires
            0 < bounds,
            0 <= pos.y < bounds,
    ;
    assert(bounds * bounds <= 1290 * 1290) by (nonlinear_arith)
        requires
            0 < bounds <= 1290,
    ;
    assert(0 <= pos.z * (bounds * bounds) <= bounds * bounds * bounds - bounds * bounds)
        by (nonlinear_arith)
        requires
            0 < bounds,
            0 <= pos.z < bounds,
    ;
    assert(bounds * bounds * bounds <= 1290 * 1290 * 1290) by (nonlinear_arith)
        requires
            0 < bounds <= 1290,
    ;
    let x_i = pos.x % bounds;
    assert(x_i == pos.x) by {
        vstd::arithmetic::div_mod::lemma_small_mod(pos.x as nat, bounds as nat);
    }
    let y_i = pos.y * bounds;
    let z_i = pos.z * (bounds * bounds);
    assert(pos.z * (bounds * bounds) == pos.z * bounds * bounds) by (nonlinear_arith);
    (x_i + y_i + z_i) as usize
}

/// Splitting a flattened position gives the position back: `index_to_ivec3_bounds`
/// inverts `vec3_to_index` inside the cube of side `bounds`.
pub proof fn lemma_index_round_trip(x: int, y: int, z: int, bounds: int)
    requires
        0 < bounds,
        0 <= x < bounds,
        0 <= y < bounds,
        0 <= z < bounds,
    ensures
        ({
            let i = flat_index(x, y, z, bounds);
            &&& i % bounds == x
            &&& (i / bounds) % bounds == y
            &&& i / (bounds * bounds) == z
        }),
{
    let i = flat_index(x, y, z, bounds);
    let q = y + z * bounds;
    assert(i == q * bounds + x) by (nonlinear_arith)
        requires
            i == x + y * bounds + z * bounds * bounds,
            q == y + z * bounds,
    ;
    vstd::arithmetic::div_mod::lemma_fundamental_div_mod_converse(i, bounds, q, x);
    assert(q == z * bounds + y) by (nonlinear_arith)
        requires
            q == y + z * bounds,
    ;
    vstd::arithmetic::div_mod::lemma_fundamental_div_mod_converse(q, bounds, z, y);
    assert(0 <= i) by (nonlinear_arith)
        requires
            i == x + y * bounds + z * bounds * bounds,
            0 <= x,
            0 <= y,
            0 <= z,
            0 < bounds,
    ;
    vstd::arithmetic::div_mod::lemma_div_denominator(i, bounds, bounds);
}

} // verus!
