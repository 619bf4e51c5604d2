use vstd::prelude::*;
use crate::lod::Lod;
use crate::math::IVec3;

verus! {

/// The six directions a voxel face can point to.
#[derive(PartialEq, Eq, Structural, Copy, Clone, Debug, Hash)]
pub enum FaceDir {
    Up,
    Down,
    Left,
    Right,
    Forward,
    Back,
}

/// The normal index packed into vertex words.
pub open spec fn normal_of(d: FaceDir) -> u32 {
    match d {
        FaceDir::Left => 0,
        FaceDir::Right => 1,
        FaceDir::Down => 2,
        FaceDir::Up => 3,
        FaceDir::Forward => 4,
        FaceDir::Back => 5,
    }
}

/// The unit step from a solid voxel towards the air that shows its face.
pub open spec fn air_dir_of(d: FaceDir) -> IVec3 {
    match d {
        FaceDir::Up => IVec3 { x: 0, y: 1, z: 0 },
        FaceDir::Down => IVec3 { x: 0, y: -1i32, z: 0 },
        FaceDir::Left => IVec3 { x: -1i32, y: 0, z: 0 },
        FaceDir::Right => IVec3 { x: 1, y: 0, z: 0 },
        FaceDir::Forward => IVec3 { x: 0, y: 0, z: -1i32 },
        FaceDir::Back => IVec3 { x: 0, y: 0, z: 1 },
    }
}

/// A point of a face plane: `axis` is the layer along the face normal, `(x, y)` the
/// coordinates within the plane.
pub open spec fn sample_of(d: FaceDir, axis: int, x: int, y: int) -> (int, int, int) {
    match d {
        FaceDir::Up => (x, axis + 1, y),
        FaceDir::Down => (x, axis, y),
        FaceDir::Left => (axis, y, x),
        FaceDir::Right => (axis + 1, y, x),
        FaceDir::Forward => (x, y, axis),
        FaceDir::Back => (x, y, axis + 1),
    }
}

/// Whether the last three vertices of a quad are emitted in reverse.
pub open spec fn reversed(d: FaceDir) -> bool {
    match d {
        FaceDir::Up | FaceDir::Right | FaceDir::Forward => true,
        _ => false,
    }
}

/// The delta that steps back to the previous layer along a face's axis.
pub open spec fn negate_of(d: FaceDir) -> i32 {
    match d {
        FaceDir::Up | FaceDir::Right => -1i32,
        FaceDir::Back => 1i32,
        _ => 0i32,
    }
}

impl FaceDir {
    /// Normal data is packed in the shader by this index.
    pub fn normal_index(&self) -> (r: u32)
        ensures
            r == normal_of(*self),
            r < 6,
    {
        match self {
            FaceDir::Left => 0u32,
            FaceDir::Right => 1u32,
            FaceDir::Down => 2u32,
            FaceDir::Up => 3u32,
            FaceDir::Forward => 4u32,
            FaceDir::Back => 5u32,
        }
    }

    /// Direction to sample for face culling.
    pub fn air_sample_dir(&self) -> (r: IVec3)
        ensures
            r == air_dir_of(*self),
    {
        match self {
            FaceDir::Up => IVec3::new(0, 1, 0),
            FaceDir::Down => IVec3::new(0, -1, 0),
            FaceDir::Left => IVec3::new(-1, 0, 0),
            FaceDir::Right => IVec3::new(1, 0, 0),
            FaceDir::Forward => IVec3::new(0, 0, -1),
            FaceDir::Back => IVec3::new(0, 0, 1),
        }
    }

    /// Place plane coordinates `(x, y)` of layer `axis` in chunk space.
    pub fn world_to_sample(&self, axis: i32, x: i32, y: i32, _lod: &Lod) -> (r: IVec3)
        requires
            axis < 0x7fff_ffff,
        ensures
            (r.x as int, r.y as int, r.z as int) == sample_of(*self, axis as int, x as int, y as int),
    {
        match self {
            FaceDir::Up => IVec3::new(x, axis + 1, y),
            FaceDir::Down => IVec3::new(x, axis, y),
            FaceDir::Left => IVec3::new(axis, y, x),
            FaceDir::Right => IVec3::new(axis + 1, y, x),
            FaceDir::Forward => IVec3::new(x, y, axis),
            FaceDir::Back => IVec3::new(x, y, axis + 1),
        }
    }

    /// True if the vertices should be reversed, since indices always follow one pattern.
    pub fn reverse_order(&self) -> (r: bool)
        ensures
            r == reversed(*self),
    {
        match self {
            FaceDir::Up => true,
            FaceDir::Down => false,
            FaceDir::Left => false,
            FaceDir::Right => true,
            FaceDir::Forward => true,
            FaceDir::Back => false,
        }
    }

    /// The delta that steps back to the previous layer along this face's axis.
    pub fn negate_axis(&self) -> (r: i32)
        ensures
            r == negate_of(*self),
    {
        match self {
            FaceDir::Up => -1,
            FaceDir::Down => 0,
            FaceDir::Left => 0,
            FaceDir::Right => -1,
            FaceDir::Forward => 0,
            FaceDir::Back => 1,
        }
    }
}

} // verus!
