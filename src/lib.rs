use vstd::prelude::*;

pub mod bitplane;
pub mod chunk;
pub mod chunk_mesh;
pub mod chunks_refs;
pub mod culled_mesher;
pub mod face_direction;
pub mod greedy_mesher;
pub mod greedy_mesher_optimized;
pub mod lod;
pub mod math;
pub mod scanner;
pub mod sort;
pub mod utils;
pub mod voxel;
pub mod voxel_engine;

verus! {

} // verus!
