use vstd::prelude::*;

verus! {

/// Level of detail of a chunk mesh.
#[derive(PartialEq, Eq, Structural, Copy, Clone, Debug)]
pub enum Lod {
    L32,
    L16,
    L8,
    L4,
    L2,
}

/// How many voxels lie along one axis at a level of detail.
pub open spec fn lod_size(l: Lod) -> i32 {
    match l {
        Lod::L32 => 32,
        Lod::L16 => 16,
        Lod::L8 => 8,
        Lod::L4 => 4,
        Lod::L2 => 2,
    }
}

/// The stride between two sampled voxels at a level of detail.
pub open spec fn lod_jump(l: Lod) -> i32 {
    match l {
        Lod::L32 => 1,
        Lod::L16 => 2,
        Lod::L8 => 4,
        Lod::L4 => 8,
        Lod::L2 => 16,
    }
}

impl Lod {
    /// The amount of voxels per axis.
    pub fn size(&self) -> (r: i32)
        ensures
            r == lod_size(*self),
            r * lod_jump(*self) == 32,
    {
        match self {
            Lod::L32 => 32,
            Lod::L16 => 16,
            Lod::L8 => 8,
            Lod::L4 => 4,
            Lod::L2 => 2,
        }
    }

    /// How far apart two sampled voxels are; a lower detail jumps further.
    pub fn jump_index(&self) -> (r: i32)
        ensures
            r == lod_jump(*self),
            r * lod_size(*self) == 32,
    {
        match self {
            Lod::L32 => 1,
            Lod::L16 => 2,
            Lod::L8 => 4,
            Lod::L4 => 8,
            Lod::L2 => 16,
        }
    }
}

} // verus!
