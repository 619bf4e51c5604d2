use vstd::prelude::*;
use crate::math::IVec3;
use crate::utils::{flat_index, vec3_to_index};
use crate::voxel::{BlockData, BlockType};

verus! {

/// Voxels along one side of a chunk.
pub const CHUNK_SIZE: usize = 32;

/// Voxels in a whole chunk.
pub const CHUNK_SIZE3: usize = 32768;

/// The voxels of a 32 x 32 x 32 chunk: either one voxel that stands for all of them
/// (a uniform chunk), or all of them in the order `(z * 32 + y) * 32 + x`.
#[derive(Clone, Debug)]
pub struct ChunkData {
    pub voxels: Vec<BlockData>,
}

/// Whether `i` addresses a voxel of a chunk.
pub open spec fn in_chunk(i: int) -> bool {
    0 <= i < CHUNK_SIZE3
}

/// Whether a local position lies inside a chunk.
pub open spec fn local_in_chunk(p: IVec3) -> bool {
    0 <= p.x < 32 && 0 <= p.y < 32 && 0 <= p.z < 32
}

/// The index of a local position inside a chunk.
pub open spec fn local_index(p: IVec3) -> int {
    flat_index(p.x as int, p.y as int, p.z as int, 32)
}

impl ChunkData {
    /// Uniform chunks hold one voxel, dense chunks one per cell.
    pub open spec fn wf(&self) -> bool {
        self.voxels.len() == 1 || self.voxels.len() == CHUNK_SIZE3
    }

    pub open spec fn is_uniform(&self) -> bool {
        self.voxels.len() == 1
    }

    /// The voxel at index `i`, whatever the storage.
    pub open spec fn block_at(&self, i: int) -> BlockData {
        if self.voxels.len() == 1 {
            self.voxels[0]
        } else {
            self.voxels[i]
        }
    }

    /// A chunk whose every voxel is `b`, stored as one voxel.
    pub fn uniform(b: BlockType) -> (r: ChunkData)
        ensures
            r.wf(),
            r.is_uniform(),
            r.voxels[0].block_type == b,
            forall|i: int| in_chunk(i) ==> (#[trigger] r.block_at(i)).block_type == b,
    {
        ChunkData { voxels: vec![BlockData { block_type: b }] }
    }

    /// The voxel at `index`: the single voxel of a uniform chunk, else the indexed one.
    pub fn get_block(&self, index: usize) -> (r: &BlockData)
        requires
            self.voxels.len() == 1 || index < self.voxels.len(),
        ensures
            *r == self.block_at(index as int),
    {
        if self.voxels.len() == 1 {
            &self.voxels[0]
        } else {
            &self.voxels[index]
        }
    }

    /// The voxel that fills the whole chunk, when the chunk is uniform.
    pub fn get_block_if_filled(&self) -> (r: Option<&BlockData>)
        ensures
            r is Some <==> self.voxels.len() == 1,
            r is Some ==> *r->0 == self.voxels[0],
    {
        if self.voxels.len() == 1 {
            Some(&self.voxels[0])
        } else {
            None
        }
    }

    /// The chunks that terrain generation fixes without sampling noise: all air
    /// above the terrain band, all grass below it, and none inside it.
    pub fn generate_preset(chunk_pos: IVec3) -> (r: Option<ChunkData>)
        ensures
            chunk_pos.y * 32 + 32 > 53 ==> (r matches Some(c) && c.wf() && c.is_uniform()
                && c.voxels[0].block_type == BlockType::Air),
            chunk_pos.y * 32 + 32 <= 53 && chunk_pos.y * 32 < -53 ==> (r matches Some(c) && c.wf()
                && c.is_uniform() && c.voxels[0].block_type == BlockType::Grass),
            chunk_pos.y * 32 + 32 <= 53 && chunk_pos.y * 32 >= -53 ==> r is None,
    {
        let y = chunk_pos.y as i64;
        if y * 32 + 32 > 21 + 32 {
            return Some(ChunkData::uniform(BlockType::Air));
        }
        if y * 32 < -21 - 32 {
            return Some(ChunkData::uniform(BlockType::Grass));
        }
        None
    }

    /// Promotes a uniform chunk to dense storage; every voxel keeps its value.
    pub fn make_dense(&mut self)
        requires
            old(self).wf(),
        ensures
            final(self).voxels.len() == CHUNK_SIZE3,
            forall|i: int| in_chunk(i) ==> #[trigger] final(self).block_at(i) == old(self).block_at(i),
    {
        if self.voxels.len() == 1 {
            let fill = self.voxels[0];
            let mut voxels: Vec<BlockData> = Vec::with_capacity(CHUNK_SIZE3);
            let mut i: usize = 0;
            while i < CHUNK_SIZE3
                invariant
                    i <= CHUNK_SIZE3,
                    voxels.len() == i,
                    forall|j: int| 0 <= j < i ==> voxels[j] == fill,
                decreases CHUNK_SIZE3 - i,
            {
                voxels.push(BlockData { block_type: fill.block_type });
                i = i + 1;
            }
            self.voxels = voxels;
        }
    }

    /// Writes one voxel, promoting a uniform chunk to dense storage first; every other
    /// voxel keeps its value.
    pub fn set_block(&mut self, local: IVec3, block_type: BlockType)
        requires
            old(self).wf(),
            local_in_chunk(local),
        ensures
            final(self).voxels.len() == CHUNK_SIZE3,
            final(self).block_at(local_index(local)).block_type == block_type,
            forall|i: int|
                in_chunk(i) && i != local_index(local) ==> #[trigger] final(self).block_at(i)
                    == old(self).block_at(i),
    {
        self.make_dense();
        let ghost mid = self.voxels@;
        let ghost dense = *self;
        let i = vec3_to_index(local, 32);
        self.voxels.set(i, BlockData { block_type });
        assert forall|j: int|
            in_chunk(j) && j != local_index(local) implies #[trigger] self.block_at(j)
                == old(self).block_at(j) by {
            assert(dense.block_at(j) == old(self).block_at(j));
            assert(self.voxels[j] == mid[j]);
        }
    }

    /// Whether the storage is uniform or dense, as `wf` asks.
    pub fn is_well_formed(&self) -> (r: bool)
        ensures
            r == self.wf(),
    {
        self.voxels.len() == 1 || self.voxels.len() == CHUNK_SIZE3
    }

    /// A copy of this chunk.
    pub fn snapshot(&self) -> (r: ChunkData)
        ensures
            r.voxels@ == self.voxels@,
    {
        let mut voxels: Vec<BlockData> = Vec::with_capacity(self.voxels.len());
        let mut i: usize = 0;
        while i < self.voxels.len()
            invariant
                i <= self.voxels.len(),
                voxels@ == self.voxels@.subrange(0, i as int),
            decreases self.voxels.len() - i,
        {
            voxels.push(self.voxels[i]);
            i = i + 1;
            assert(voxels@ =~= self.voxels@.subrange(0, i as int));
        }
        assert(voxels@ =~= self.voxels@);
        ChunkData { voxels }
    }
}

/// Reading a chunk does not depend on its storage: a uniform chunk and a dense chunk
/// that repeats its voxel give the same block at every index.
pub proof fn lemma_uniform_equivalence(u: ChunkData, d: ChunkData)
    requires
        u.is_uniform(),
        d.voxels.len() == CHUNK_SIZE3,
        forall|i: int| in_chunk(i) ==> #[trigger] d.voxels[i] == u.voxels[0],
    ensures
        forall|i: int| in_chunk(i) ==> #[trigger] u.block_at(i) == d.block_at(i),
{
}

} // verus!
