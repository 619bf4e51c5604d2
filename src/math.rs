use vstd::prelude::*;

verus! {

/// A vector of three signed integers: a voxel or chunk coordinate.
#[derive(PartialEq, Eq, Structural, Copy, Clone, Debug, Hash)]
pub struct IVec3 {
    pub x: i32,
    pub y: i32,
    pub z: i32,
}

pub const I32_MIN: i32 = -2147483648;

pub const I32_MAX: i32 = 2147483647;

/// The vector with components (x, y, z), when each fits an `i32`.
pub open spec fn fits(x: int, y: int, z: int) -> bool {
    I32_MIN <= x <= I32_MAX && I32_MIN <= y <= I32_MAX && I32_MIN <= z <= I32_MAX
}

/// Squared euclidean distance between two vectors.
pub open spec fn dist2(a: IVec3, b: IVec3) -> int {
    (a.x - b.x) * (a.x - b.x) + (a.y - b.y) * (a.y - b.y) + (a.z - b.z) * (a.z - b.z)
}

/// The integer that keys a chunk position in a map: x, then y, then z, each in
/// its own 32-bit field.
pub open spec fn key_of(p: IVec3) -> i128 {
    (p.x * 0x1_0000_0000_0000_0000 + (p.y + 0x8000_0000) * 0x1_0000_0000 + (p.z + 0x8000_0000)) as i128
}

/// Two positions share a key only when they are equal.
pub proof fn lemma_key_injective(a: IVec3, b: IVec3)
    ensures
        key_of(a) == key_of(b) <==> a == b,
{
    let ua = a.y + 0x8000_0000;
    let va = a.z + 0x8000_0000;
    let ub = b.y + 0x8000_0000;
    let vb = b.z + 0x8000_0000;
    let ka = a.x * 0x1_0000_0000_0000_0000 + ua * 0x1_0000_0000 + va;
    let kb = b.x * 0x1_0000_0000_0000_0000 + ub * 0x1_0000_0000 + vb;
    assert(-0x8000_0000_0000_0000_0000_0000 <= ka < 0x8000_0000_0000_0000_0000_0000) by (nonlinear_arith)
        requires
            -0x8000_0000 <= a.x < 0x8000_0000,
            0 <= ua < 0x1_0000_0000,
            0 <= va < 0x1_0000_0000,
            ka == a.x * 0x1_0000_0000_0000_0000 + ua * 0x1_0000_0000 + va,
    ;
    assert(-0x8000_0000_0000_0000_0000_0000 <= kb < 0x8000_0000_0000_0000_0000_0000) by (nonlinear_arith)
        requires
            -0x8000_0000 <= b.x < 0x8000_0000,
            0 <= ub < 0x1_0000_0000,
            0 <= vb < 0x1_0000_0000,
            kb == b.x * 0x1_0000_0000_0000_0000 + ub * 0x1_0000_0000 + vb,
    ;
    if ka == kb {
        assert(a.x == b.x && ua == ub && va == vb) by (nonlinear_arith)
            requires
                0 <= ua < 0x1_0000_0000,
                0 <= va < 0x1_0000_0000,
                0 <= ub < 0x1_0000_0000,
                0 <= vb < 0x1_0000_0000,
                a.x * 0x1_0000_0000_0000_0000 + ua * 0x1_0000_0000 + va == b.x * 0x1_0000_0000_0000_0000
                    + ub * 0x1_0000_0000 + vb,
        ;
    }
}

impl IVec3 {
    /// The map key of this position.
    pub fn key(&self) -> (r: i128)
        ensures
            r == key_of(*self),
    {
        (self.x as i128) * 0x1_0000_0000_0000_0000i128 + (self.y as i128 + 0x8000_0000i128)
            * 0x1_0000_0000i128 + (self.z as i128 + 0x8000_0000i128)
    }

    pub fn new(x: i32, y: i32, z: i32) -> (r: IVec3)
        ensures
            r == (IVec3 { x, y, z }),
    {
        IVec3 { x, y, z }
    }

    pub fn splat(v: i32) -> (r: IVec3)
        ensures
            r == (IVec3 { x: v, y: v, z: v }),
    {
        IVec3 { x: v, y: v, z: v }
    }

    /// Component-wise sum.
    pub fn add(&self, o: IVec3) -> (r: IVec3)
        requires
            fits(self.x + o.x, self.y + o.y, self.z + o.z),
        ensures
            r.x == self.x + o.x,
            r.y == self.y + o.y,
            r.z == self.z + o.z,
    {
        IVec3 { x: self.x + o.x, y: self.y + o.y, z: self.z + o.z }
    }

    /// Every component multiplied by `k`.
    pub fn scale(&self, k: i32) -> (r: IVec3)
        requires
            fits(self.x * k, self.y * k, self.z * k),
        ensures
            r.x == self.x * k,
            r.y == self.y * k,
            r.z == self.z * k,
    {
        IVec3 { x: self.x * k, y: self.y * k, z: self.z * k }
    }
}

} // verus!
