use vstd::prelude::*;

verus! {

/// Bit `b` of a plane row.
pub open spec fn row_bit(v: u32, b: u32) -> bool {
    (v >> b) & 1u32 == 1u32
}

/// Bit `k` of a 64-bit column.
pub open spec fn col_bit(c: u64, k: u64) -> bool {
    (c >> k) & 1u64 == 1u64
}

/// `h` low bits set, all 32 when `h` is 32.
pub open spec fn low_mask(h: u32) -> u32 {
    if h >= 32 {
        0xffff_ffffu32
    } else {
        ((1u32 << h) - 1u32) as u32
    }
}

/// A run of `h` set bits starting at `y`.
pub open spec fn run_mask(y: u32, h: u32) -> u32 {
    low_mask(h) << y
}

pub proof fn lemma_shift_compose(v: u32, y: u32, j: u32)
    requires
        y + j < 32,
    ensures
        (v >> y) >> j == v >> ((y + j) as u32),
{
    assert((v >> y) >> j == v >> ((y + j) as u32)) by (bit_vector)
        requires
            y + j < 32,
    ;
}

/// Bits of `v >> y` at or above `32 - y` are clear.
pub proof fn lemma_shift_high_clear(v: u32, y: u32, j: u32)
    requires
        y < 32,
        32 - y <= j < 32,
    ensures
        ((v >> y) >> j) & 1u32 == 0u32,
{
    assert(((v >> y) >> j) & 1u32 == 0u32) by (bit_vector)
        requires
            y < 32,
            32 - y <= j < 32,
    ;
}

/// A run mask has exactly the bits `[y, y + h)`.
pub proof fn lemma_run_mask_bit(y: u32, h: u32, b: u32)
    requires
        1 <= h,
        y + h <= 32,
        b < 32,
    ensures
        row_bit(run_mask(y, h), b) <==> (y <= b && b < y + h),
{
    if h >= 32 {
        assert(row_bit(0xffff_ffffu32 << y, b) <==> (y <= b && b < y + h)) by (bit_vector)
            requires
                h >= 32,
                y + h <= 32,
                b < 32,
        ;
    } else {
        assert(row_bit((((1u32 << h) - 1u32) as u32) << y, b) <==> (y <= b && b < y + h)) by (bit_vector)
            requires
                1 <= h < 32,
                y + h <= 32,
                b < 32,
        ;
    }
}

/// When the `h` bits of `v` from `y` up all match the mask, bit `b` of that run is set.
pub proof fn lemma_run_matches(v: u32, y: u32, h: u32, b: u32)
    requires
        1 <= h,
        y + h <= 32,
        y <= b < y + h,
        (v >> y) & low_mask(h) == low_mask(h),
    ensures
        row_bit(v, b),
{
    if h >= 32 {
        assert(row_bit(v, b)) by (bit_vector)
            requires
                y + h <= 32,
                h >= 32,
                y <= b < y + h,
                (v >> y) & 0xffff_ffffu32 == 0xffff_ffffu32,
        ;
    } else {
        assert(row_bit(v, b)) by (bit_vector)
            requires
                1 <= h < 32,
                y + h <= 32,
                y <= b < y + h,
                (v >> y) & (((1u32 << h) - 1u32) as u32) == ((1u32 << h) - 1u32) as u32,
        ;
    }
}

/// Clearing a mask keeps exactly the bits outside it.
pub proof fn lemma_clear_bit(v: u32, m: u32, b: u32)
    requires
        b < 32,
    ensures
        row_bit(v & !m, b) <==> (row_bit(v, b) && !row_bit(m, b)),
{
    assert(row_bit(v & !m, b) <==> (row_bit(v, b) && !row_bit(m, b))) by (bit_vector)
        requires
            b < 32,
    ;
}

/// Bit `j` of `v >> y` is bit `y + j` of `v`.
pub proof fn lemma_shifted_bit(v: u32, y: u32, j: u32)
    requires
        y + j < 32,
    ensures
        ((v >> y) >> j) & 1u32 == 1u32 <==> row_bit(v, (y + j) as u32),
{
    lemma_shift_compose(v, y, j);
}

/// The face mask `c & !(c << 1)` has bit `k` exactly where `c` has bit `k` and
/// lacks bit `k - 1` (bit 0 only needs bit 0 of `c`).
pub proof fn lemma_descending_face_mask(c: u64, k: u64)
    requires
        k < 64,
    ensures
        col_bit(c & !(c << 1u64), k) <==> (col_bit(c, k) && (k == 0 || !col_bit(c, (k - 1) as u64))),
{
    if k == 0 {
        assert(col_bit(c & !(c << 1u64), k) <==> col_bit(c, k)) by (bit_vector)
            requires
                k == 0,
        ;
    } else {
        assert(col_bit(c & !(c << 1u64), k) <==> (col_bit(c, k) && !col_bit(c, (k - 1) as u64)))
            by (bit_vector)
            requires
                1 <= k < 64,
        ;
    }
}

/// The face mask `c & !(c >> 1)` has bit `k` exactly where `c` has bit `k` and
/// lacks bit `k + 1` (bit 63 only needs bit 63 of `c`).
pub proof fn lemma_ascending_face_mask(c: u64, k: u64)
    requires
        k < 64,
    ensures
        col_bit(c & !(c >> 1u64), k) <==> (col_bit(c, k) && (k == 63 || !col_bit(c, (k + 1) as u64))),
{
    if k == 63 {
        assert(col_bit(c & !(c >> 1u64), k) <==> col_bit(c, k)) by (bit_vector)
            requires
                k == 63,
        ;
    } else {
        assert(col_bit(c & !(c >> 1u64), k) <==> (col_bit(c, k) && !col_bit(c, (k + 1) as u64)))
            by (bit_vector)
            requires
                k < 63,
        ;
    }
}

/// Bit `i` of a nine-bit ambient occlusion key: whether the i-th cell of the 3 x 3
/// face-plane pattern, `(i / 3 - 1, i % 3 - 1)`, is solid.
pub open spec fn ao_bit(ao: u32, i: u32) -> bool {
    (ao >> i) & 1u32 == 1u32
}

/// 1 when the bit is set, else 0.
pub open spec fn ao_count(ao: u32, i: u32) -> int {
    if ao_bit(ao, i) {
        1
    } else {
        0
    }
}

/// Occlusion of a quad corner from its two side cells and its corner cell: the
/// number of those that are solid, and 3 when both sides are.
pub open spec fn corner_occlusion(ao: u32, side_a: u32, side_b: u32, corner: u32) -> int {
    if ao_bit(ao, side_a) && ao_bit(ao, side_b) {
        3
    } else {
        ao_count(ao, side_a) + ao_count(ao, side_b) + ao_count(ao, corner)
    }
}

/// Occlusion of the four quad corners (x, y), (x + w, y), (x + w, y + h), (x, y + h).
pub open spec fn quad_occlusion(ao: u32) -> (int, int, int, int) {
    (
        corner_occlusion(ao, 1, 3, 0),
        corner_occlusion(ao, 3, 7, 6),
        corner_occlusion(ao, 5, 7, 8),
        corner_occlusion(ao, 1, 5, 2),
    )
}

/// The key of the pattern mirrored across its diagonal: cell (a, b) takes the value
/// of cell (b, a).
pub open spec fn mirror_key(ao: u32) -> u32 {
    (ao & 0x111u32) | (((ao >> 1u32) & 1u32) << 3u32) | (((ao >> 3u32) & 1u32) << 1u32) | (((ao
        >> 2u32) & 1u32) << 6u32) | (((ao >> 6u32) & 1u32) << 2u32) | (((ao >> 5u32) & 1u32)
        << 7u32) | (((ao >> 7u32) & 1u32) << 5u32)
}

proof fn lemma_mirror_bits(ao: u32)
    ensures
        ao_bit(mirror_key(ao), 0) == ao_bit(ao, 0),
        ao_bit(mirror_key(ao), 1) == ao_bit(ao, 3),
        ao_bit(mirror_key(ao), 2) == ao_bit(ao, 6),
        ao_bit(mirror_key(ao), 3) == ao_bit(ao, 1),
        ao_bit(mirror_key(ao), 4) == ao_bit(ao, 4),
        ao_bit(mirror_key(ao), 5) == ao_bit(ao, 7),
        ao_bit(mirror_key(ao), 6) == ao_bit(ao, 2),
        ao_bit(mirror_key(ao), 7) == ao_bit(ao, 5),
        ao_bit(mirror_key(ao), 8) == ao_bit(ao, 8),
{
    assert(ao_bit(mirror_key(ao), 0) == ao_bit(ao, 0)) by (bit_vector);
    assert(ao_bit(mirror_key(ao), 1) == ao_bit(ao, 3)) by (bit_vector);
    assert(ao_bit(mirror_key(ao), 2) == ao_bit(ao, 6)) by (bit_vector);
    assert(ao_bit(mirror_key(ao), 3) == ao_bit(ao, 1)) by (bit_vector);
    assert(ao_bit(mirror_key(ao), 4) == ao_bit(ao, 4)) by (bit_vector);
    assert(ao_bit(mirror_key(ao), 5) == ao_bit(ao, 7)) by (bit_vector);
    assert(ao_bit(mirror_key(ao), 6) == ao_bit(ao, 2)) by (bit_vector);
    assert(ao_bit(mirror_key(ao), 7) == ao_bit(ao, 5)) by (bit_vector);
    assert(ao_bit(mirror_key(ao), 8) == ao_bit(ao, 8)) by (bit_vector);
}

/// Mirroring the occlusion pattern across the face-plane diagonal keeps the
/// occlusion of the first and third corners and swaps that of the second and fourth.
pub proof fn lemma_ao_mirror(ao: u32)
    ensures
        mirror_key(ao) >> 9u32 == ao >> 9u32 || ao >= 0x200,
        quad_occlusion(mirror_key(ao)).0 == quad_occlusion(ao).0,
        quad_occlusion(mirror_key(ao)).1 == quad_occlusion(ao).3,
        quad_occlusion(mirror_key(ao)).2 == quad_occlusion(ao).2,
        quad_occlusion(mirror_key(ao)).3 == quad_occlusion(ao).1,
        0 <= quad_occlusion(ao).0 <= 3 && 0 <= quad_occlusion(ao).1 <= 3,
        0 <= quad_occlusion(ao).2 <= 3 && 0 <= quad_occlusion(ao).3 <= 3,
{
    lemma_mirror_bits(ao);
    if ao < 0x200 {
        assert(mirror_key(ao) >> 9u32 == ao >> 9u32) by (bit_vector)
            requires
                ao < 0x200,
        ;
    }
}

/// Bit `i` of `v` as 0 or 1.
pub fn bit_value(v: u32, i: u32) -> (r: u32)
    requires
        i < 32,
    ensures
        r == ao_count(v, i),
        r <= 1,
{
    let r = (v >> i) & 1;
    assert(r <= 1u32 && (r == 1u32 <==> (v >> i) & 1u32 == 1u32)) by (bit_vector)
        requires
            r == (v >> i) & 1u32,
    ;
    r
}

/// Setting bit `k` of a row keeps the others.
pub proof fn lemma_set_row_bit(v: u32, k: u32, b: u32)
    requires
        k < 32,
        b < 32,
    ensures
        row_bit(v | (1u32 << k), b) <==> (row_bit(v, b) || b == k),
{
    assert(row_bit(v | (1u32 << k), b) <==> (row_bit(v, b) || b == k)) by (bit_vector)
        requires
            k < 32,
            b < 32,
    ;
}

/// Setting bit `k` of a column keeps the others.
pub proof fn lemma_set_col_bit(v: u64, k: u64, b: u64)
    requires
        k < 64,
        b < 64,
    ensures
        col_bit(v | (1u64 << k), b) <==> (col_bit(v, b) || b == k),
{
    assert(col_bit(v | (1u64 << k), b) <==> (col_bit(v, b) || b == k)) by (bit_vector)
        requires
            k < 64,
            b < 64,
    ;
}

/// The zero column has no bit.
pub proof fn lemma_zero_col(b: u64)
    requires
        b < 64,
    ensures
        !col_bit(0u64, b),
{
    assert(!col_bit(0u64, b)) by (bit_vector);
}

/// The zero row has no bit.
pub proof fn lemma_zero_row(b: u32)
    requires
        b < 32,
    ensures
        !row_bit(0u32, b),
{
    assert(!row_bit(0u32, b)) by (bit_vector);
}

/// A key below `0x800` is fixed by its nine low bits and the bits above them.
pub proof fn lemma_key_bits_unique(k1: u32, k2: u32)
    requires
        k1 < 0x800,
        k2 < 0x800,
        k1 >> 9u32 == k2 >> 9u32,
        ao_bit(k1, 0) == ao_bit(k2, 0),
        ao_bit(k1, 1) == ao_bit(k2, 1),
        ao_bit(k1, 2) == ao_bit(k2, 2),
        ao_bit(k1, 3) == ao_bit(k2, 3),
        ao_bit(k1, 4) == ao_bit(k2, 4),
        ao_bit(k1, 5) == ao_bit(k2, 5),
        ao_bit(k1, 6) == ao_bit(k2, 6),
        ao_bit(k1, 7) == ao_bit(k2, 7),
        ao_bit(k1, 8) == ao_bit(k2, 8),
    ensures
        k1 == k2,
{
    assert(k1 == k2) by (bit_vector)
        requires
            k1 < 0x800,
            k2 < 0x800,
            k1 >> 9u32 == k2 >> 9u32,
            ao_bit(k1, 0) == ao_bit(k2, 0),
            ao_bit(k1, 1) == ao_bit(k2, 1),
            ao_bit(k1, 2) == ao_bit(k2, 2),
            ao_bit(k1, 3) == ao_bit(k2, 3),
            ao_bit(k1, 4) == ao_bit(k2, 4),
            ao_bit(k1, 5) == ao_bit(k2, 5),
            ao_bit(k1, 6) == ao_bit(k2, 6),
            ao_bit(k1, 7) == ao_bit(k2, 7),
            ao_bit(k1, 8) == ao_bit(k2, 8),
    ;
}

/// Combining a nine-bit key with a block id keeps both readable.
pub proof fn lemma_key_compose(ao: u32, block: u32)
    requires
        ao < 0x200,
        block < 4,
    ensures
        (ao | (block << 9u32)) < 0x800,
        (ao | (block << 9u32)) >> 9u32 == block,
        (ao | (block << 9u32)) & 0x1ffu32 == ao,
        forall|i: u32| i < 9 ==> #[trigger] ao_bit(ao | (block << 9u32), i) == ao_bit(ao, i),
{
    assert((ao | (block << 9u32)) < 0x800 && (ao | (block << 9u32)) >> 9u32 == block && (ao | (block
        << 9u32)) & 0x1ffu32 == ao) by (bit_vector)
        requires
            ao < 0x200,
            block < 4,
    ;
    assert forall|i: u32| i < 9 implies #[trigger] ao_bit(ao | (block << 9u32), i) == ao_bit(ao, i) by {
        assert(ao_bit(ao | (block << 9u32), i) == ao_bit(ao, i)) by (bit_vector)
            requires
                ao < 0x200,
                block < 4,
                i < 9,
        ;
    }
}

/// Two nine-bit keys with the same bits are equal.
pub proof fn lemma_key_bits_unique_low(k1: u32, k2: u32)
    requires
        k1 < 0x200,
        k2 < 0x200,
        forall|i: u32| i < 9 ==> #[trigger] ao_bit(k1, i) == ao_bit(k2, i),
    ensures
        k1 == k2,
{
    assert(ao_bit(k1, 0) == ao_bit(k2, 0));
    assert(ao_bit(k1, 1) == ao_bit(k2, 1));
    assert(ao_bit(k1, 2) == ao_bit(k2, 2));
    assert(ao_bit(k1, 3) == ao_bit(k2, 3));
    assert(ao_bit(k1, 4) == ao_bit(k2, 4));
    assert(ao_bit(k1, 5) == ao_bit(k2, 5));
    assert(ao_bit(k1, 6) == ao_bit(k2, 6));
    assert(ao_bit(k1, 7) == ao_bit(k2, 7));
    assert(ao_bit(k1, 8) == ao_bit(k2, 8));
    assert(k1 >> 9u32 == k2 >> 9u32) by (bit_vector)
        requires
            k1 < 0x200,
            k2 < 0x200,
    ;
    lemma_key_bits_unique(k1, k2);
}

/// The nine-bit key whose bit i is `b_i`.
pub open spec fn nine_bits(b0: bool, b1: bool, b2: bool, b3: bool, b4: bool, b5: bool, b6: bool, b7: bool, b8: bool) -> u32 {
    ((if b0 { 1u32 } else { 0u32 }) | (if b1 { 2u32 } else { 0u32 }) | (if b2 { 4u32 } else { 0u32 })
        | (if b3 { 8u32 } else { 0u32 }) | (if b4 { 16u32 } else { 0u32 }) | (if b5 { 32u32 } else { 0u32 })
        | (if b6 { 64u32 } else { 0u32 }) | (if b7 { 128u32 } else { 0u32 }) | (if b8 { 256u32 } else { 0u32 }))
}

pub proof fn lemma_nine_bits(b0: bool, b1: bool, b2: bool, b3: bool, b4: bool, b5: bool, b6: bool, b7: bool, b8: bool)
    ensures
        nine_bits(b0, b1, b2, b3, b4, b5, b6, b7, b8) < 0x200,
        ao_bit(nine_bits(b0, b1, b2, b3, b4, b5, b6, b7, b8), 0) == b0,
        ao_bit(nine_bits(b0, b1, b2, b3, b4, b5, b6, b7, b8), 1) == b1,
        ao_bit(nine_bits(b0, b1, b2, b3, b4, b5, b6, b7, b8), 2) == b2,
        ao_bit(nine_bits(b0, b1, b2, b3, b4, b5, b6, b7, b8), 3) == b3,
        ao_bit(nine_bits(b0, b1, b2, b3, b4, b5, b6, b7, b8), 4) == b4,
        ao_bit(nine_bits(b0, b1, b2, b3, b4, b5, b6, b7, b8), 5) == b5,
        ao_bit(nine_bits(b0, b1, b2, b3, b4, b5, b6, b7, b8), 6) == b6,
        ao_bit(nine_bits(b0, b1, b2, b3, b4, b5, b6, b7, b8), 7) == b7,
        ao_bit(nine_bits(b0, b1, b2, b3, b4, b5, b6, b7, b8), 8) == b8,
{
    let k = nine_bits(b0, b1, b2, b3, b4, b5, b6, b7, b8);
    let (c0, c1, c2, c3, c4, c5, c6, c7, c8) = (
        if b0 { 1u32 } else { 0u32 },
        if b1 { 2u32 } else { 0u32 },
        if b2 { 4u32 } else { 0u32 },
        if b3 { 8u32 } else { 0u32 },
        if b4 { 16u32 } else { 0u32 },
        if b5 { 32u32 } else { 0u32 },
        if b6 { 64u32 } else { 0u32 },
        if b7 { 128u32 } else { 0u32 },
        if b8 { 256u32 } else { 0u32 },
    );
    assert(k == c0 | c1 | c2 | c3 | c4 | c5 | c6 | c7 | c8);
    assert(k < 0x200 && ((k >> 0u32) & 1u32 == 1u32 <==> c0 == 1u32) && ((k >> 1u32) & 1u32 == 1u32 <==> c1 == 2u32)
        && ((k >> 2u32) & 1u32 == 1u32 <==> c2 == 4u32) && ((k >> 3u32) & 1u32 == 1u32 <==> c3 == 8u32)
        && ((k >> 4u32) & 1u32 == 1u32 <==> c4 == 16u32) && ((k >> 5u32) & 1u32 == 1u32 <==> c5 == 32u32)
        && ((k >> 6u32) & 1u32 == 1u32 <==> c6 == 64u32) && ((k >> 7u32) & 1u32 == 1u32 <==> c7 == 128u32)
        && ((k >> 8u32) & 1u32 == 1u32 <==> c8 == 256u32)) by (bit_vector)
        requires
            k == c0 | c1 | c2 | c3 | c4 | c5 | c6 | c7 | c8,
            c0 == 0u32 || c0 == 1u32,
            c1 == 0u32 || c1 == 2u32,
            c2 == 0u32 || c2 == 4u32,
            c3 == 0u32 || c3 == 8u32,
            c4 == 0u32 || c4 == 16u32,
            c5 == 0u32 || c5 == 32u32,
            c6 == 0u32 || c6 == 64u32,
            c7 == 0u32 || c7 == 128u32,
            c8 == 0u32 || c8 == 256u32,
    ;
}

/// When bits `[y, y + h)` of `v` are all set, the `h` bits from `y` up match the mask.
pub proof fn lemma_run_all_set(v: u32, y: u32, h: u32)
    requires
        1 <= h,
        y + h <= 32,
        forall|b: u32| y <= b < y + h ==> #[trigger] row_bit(v, b),
    ensures
        (v >> y) & low_mask(h) == low_mask(h),
    decreases h,
{
    if h == 1 {
        assert(row_bit(v, y));
        assert((v >> y) & 1u32 == 1u32 ==> (v >> y) & (((1u32 << 1u32) - 1u32) as u32) == ((1u32 << 1u32) - 1u32) as u32)
            by (bit_vector);
    } else {
        let g = (h - 1) as u32;
        lemma_run_all_set(v, y, g);
        let t = (y + g) as u32;
        assert(row_bit(v, t));
        if h == 32 {
            assert((v >> y) & (((1u32 << g) - 1u32) as u32) == ((1u32 << g) - 1u32) as u32 && (v >> t) & 1u32 == 1u32
                ==> (v >> y) & 0xffff_ffffu32 == 0xffff_ffffu32) by (bit_vector)
                requires
                    g == 31,
                    y == 0,
                    t == 31,
            ;
        } else {
            assert((v >> y) & (((1u32 << g) - 1u32) as u32) == ((1u32 << g) - 1u32) as u32 && (v >> t) & 1u32 == 1u32
                ==> (v >> y) & (((1u32 << h) - 1u32) as u32) == ((1u32 << h) - 1u32) as u32) by (bit_vector)
                requires
                    1 <= g < 31,
                    h == g + 1,
                    t == y + g,
                    y + h <= 32,
            ;
        }
    }
}

} // verus!
