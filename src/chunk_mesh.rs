use vstd::prelude::*;

verus! {

/// Packed vertex words and the triangle indices over them.
#[derive(Clone, Debug, Default)]
pub struct ChunkMesh {
    pub vertices: Vec<u32>,
    pub indices: Vec<u32>,
}

} // verus!
