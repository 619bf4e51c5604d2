use std::collections::HashMap;
use std::sync::Arc;
use vstd::prelude::*;
use crate::chunk::ChunkData;
use crate::face_direction::FaceDir;
use crate::math::{fits, key_of, IVec3};
use crate::utils::{flat_index, index_to_ivec3_bounds, vec3_to_index};
use crate::voxel::{BlockData, BlockType};

verus! {

/// Relies on `Arc::clone`: the new handle shares the same chunk.
#[verifier::external_body]
fn share(c: &Arc<ChunkData>) -> (r: Arc<ChunkData>)
    ensures
        r == *c,
{
    Arc::clone(c)
}

/// Which of the three neighbour slots a local coordinate falls in along one axis,
/// and the coordinate inside that neighbour.
pub open spec fn split_coord(c: int) -> (int, int) {
    if c <= -1 {
        (0, c + 32)
    } else if c >= 32 {
        (2, c - 32)
    } else {
        (1, c)
    }
}

/// Whether a position relative to the middle chunk lies in the 27-chunk neighbourhood.
pub open spec fn in_band(p: IVec3) -> bool {
    -32 <= p.x < 64 && -32 <= p.y < 64 && -32 <= p.z < 64
}

/// The chunk offset of neighbour slot `i`, slots ordered by `cx + cy * 3 + cz * 9`.
pub open spec fn slot_offset(i: int) -> IVec3 {
    IVec3 { x: (i % 3 - 1) as i32, y: ((i / 3) % 3 - 1) as i32, z: (i / 9 - 1) as i32 }
}

/// The 27 chunks around a middle chunk (slot 13), shared with the world.
#[derive(Clone)]
pub struct ChunksRefs {
    pub chunks: Vec<Arc<ChunkData>>,
}

impl ChunksRefs {
    pub open spec fn wf(&self) -> bool {
        &&& self.chunks.len() == 27
        &&& forall|i: int| 0 <= i < 27 ==> (#[trigger] self.chunks[i]).wf()
    }

    /// The slot of the chunk that holds position `p`.
    pub open spec fn slot_of(p: IVec3) -> int {
        split_coord(p.x as int).0 + split_coord(p.y as int).0 * 3 + split_coord(p.z as int).0 * 9
    }

    /// The index of position `p` inside the chunk that holds it.
    pub open spec fn inner_index(p: IVec3) -> int {
        flat_index(split_coord(p.x as int).1, split_coord(p.y as int).1, split_coord(p.z as int).1, 32)
    }

    /// The block at position `p`, relative to the middle chunk.
    pub open spec fn block_at_pos(&self, p: IVec3) -> BlockData {
        self.chunks[Self::slot_of(p)].block_at(Self::inner_index(p))
    }

    /// Whether the block at `p` is solid.
    pub open spec fn solid_at(&self, p: IVec3) -> bool {
        self.block_at_pos(p).block_type != BlockType::Air
    }

    /// Every chunk is uniform and of the same block type.
    pub open spec fn all_same(&self) -> bool {
        forall|i: int|
            0 <= i < 27 ==> (#[trigger] self.chunks[i]).is_uniform() && self.chunks[i].voxels[0].block_type
                == self.chunks[0].voxels[0].block_type
    }

    /// Whether there are 27 chunks and each is well formed, as `wf` asks.
    pub fn is_well_formed(&self) -> (r: bool)
        ensures
            r == self.wf(),
    {
        if self.chunks.len() != 27 {
            return false;
        }
        let mut i: usize = 0;
        while i < 27
            invariant
                self.chunks.len() == 27,
                i <= 27,
                forall|j: int| 0 <= j < i ==> (#[trigger] self.chunks[j]).wf(),
            decreases 27 - i,
        {
            if !self.chunks[i].is_well_formed() {
                return false;
            }
            i = i + 1;
        }
        true
    }

    /// Gathers the 27 chunks around `middle_chunk`; `None` when one is missing.
    pub fn try_new(world_data: &HashMap<i128, Arc<ChunkData>>, middle_chunk: IVec3) -> (r: Option<Self>)
        requires
            fits(middle_chunk.x - 1, middle_chunk.y - 1, middle_chunk.z - 1),
            fits(middle_chunk.x + 1, middle_chunk.y + 1, middle_chunk.z + 1),
        ensures
            r is Some <==> forall|i: int|
                0 <= i < 27 ==> world_data@.contains_key(
                    key_of(#[trigger] offset_pos(middle_chunk, slot_offset(i))),
                ),
            r matches Some(refs) ==> refs.chunks.len() == 27 && forall|i: int|
                0 <= i < 27 ==> #[trigger] refs.chunks[i] == world_data@[key_of(
                    offset_pos(middle_chunk, slot_offset(i)),
                )],
    {
        let mut chunks: Vec<Arc<ChunkData>> = Vec::new();
        let mut i: i32 = 0;
        while i < 27
            invariant
                0 <= i <= 27,
                fits(middle_chunk.x - 1, middle_chunk.y - 1, middle_chunk.z - 1),
                fits(middle_chunk.x + 1, middle_chunk.y + 1, middle_chunk.z + 1),
                chunks.len() == i,
                forall|j: int|
                    0 <= j < i ==> world_data@.contains_key(
                        key_of(#[trigger] offset_pos(middle_chunk, slot_offset(j))),
                    ),
                forall|j: int|
                    0 <= j < i ==> #[trigger] chunks[j] == world_data@[key_of(
                        offset_pos(middle_chunk, slot_offset(j)),
                    )],
            decreases 27 - i,
        {
            let o = index_to_ivec3_bounds(i, 3);
            let offset = IVec3::new(o.x - 1, o.y - 1, o.z - 1);
            assert(offset == slot_offset(i as int));
            let pos = middle_chunk.add(offset);
            assert(pos == offset_pos(middle_chunk, slot_offset(i as int)));
            let key = pos.key();
            match world_data.get(&key) {
                Some(c) => {
                    chunks.push(share(c));
                },
                None => {
                    return None;
                },
            }
            i = i + 1;
        }
        Some(ChunksRefs { chunks })
    }

    /// Whether all 27 chunks are uniform and of one block type; one sample per chunk.
    pub fn is_all_voxels_same(&self) -> (r: bool)
        requires
            self.chunks.len() == 27,
        ensures
            r == self.all_same(),
    {
        let first_block = self.chunks[0].get_block_if_filled();
        let block = match first_block {
            Some(b) => b,
            None => {
                return false;
            },
        };
        let mut i: usize = 1;
        while i < self.chunks.len()
            invariant
                1 <= i <= 27,
                self.chunks.len() == 27,
                self.chunks[0].is_uniform(),
                *block == self.chunks[0].voxels[0],
                forall|j: int|
                    0 <= j < i ==> (#[trigger] self.chunks[j]).is_uniform()
                        && self.chunks[j].voxels[0].block_type == self.chunks[0].voxels[0].block_type,
            decreases 27 - i,
        {
            let option = self.chunks[i].get_block_if_filled();
            match option {
                Some(v) => {
                    if block.block_type != v.block_type {
                        return false;
                    }
                },
                None => {
                    return false;
                },
            }
            i = i + 1;
        }
        true
    }

    /// The block at a position relative to the middle chunk, which may lie in a neighbour.
    pub fn get_block(&self, pos: IVec3) -> (r: &BlockData)
        requires
            self.wf(),
            in_band(pos),
        ensures
            *r == self.block_at_pos(pos),
    {
        let (x_chunk, x) = if pos.x <= -1 {
            (0i32, 32 + pos.x)
        } else if pos.x >= 32 {
            (2i32, pos.x - 32)
        } else {
            (1i32, pos.x)
        };
        let (y_chunk, y) = if pos.y <= -1 {
            (0i32, 32 + pos.y)
        } else if pos.y >= 32 {
            (2i32, pos.y - 32)
        } else {
            (1i32, pos.y)
        };
        let (z_chunk, z) = if pos.z <= -1 {
            (0i32, 32 + pos.z)
        } else if pos.z >= 32 {
            (2i32, pos.z - 32)
        } else {
            (1i32, pos.z)
        };
        let chunk_index = vec3_to_index(IVec3::new(x_chunk, y_chunk, z_chunk), 3);
        let chunk_data = &self.chunks[chunk_index];
        let i = vec3_to_index(IVec3::new(x, y, z), 32);
        chunk_data.get_block(i)
    }

    /// The block at a position inside the middle chunk.
    pub fn get_block_no_neighbour(&self, pos: IVec3) -> (r: &BlockData)
        requires
            self.wf(),
            0 <= pos.x < 32,
            0 <= pos.y < 32,
            0 <= pos.z < 32,
        ensures
            *r == self.block_at_pos(pos),
            *r == self.chunks[13].block_at(flat_index(pos.x as int, pos.y as int, pos.z as int, 32)),
    {
        let chunk_data = &self.chunks[13];
        let i = vec3_to_index(pos, 32);
        chunk_data.get_block(i)
    }

    /// The blocks at `pos` and behind (-z), left of (-x) and below (-y) it.
    pub fn get_adjacent_blocks(&self, pos: IVec3) -> (r: (&BlockData, &BlockData, &BlockData, &BlockData))
        requires
            self.wf(),
            in_band(pos),
            in_band(IVec3 { x: pos.x, y: pos.y, z: (pos.z - 1) as i32 }),
            in_band(IVec3 { x: (pos.x - 1) as i32, y: pos.y, z: pos.z }),
            in_band(IVec3 { x: pos.x, y: (pos.y - 1) as i32, z: pos.z }),
        ensures
            *r.0 == self.block_at_pos(pos),
            *r.1 == self.block_at_pos(IVec3 { x: pos.x, y: pos.y, z: (pos.z - 1) as i32 }),
            *r.2 == self.block_at_pos(IVec3 { x: (pos.x - 1) as i32, y: pos.y, z: pos.z }),
            *r.3 == self.block_at_pos(IVec3 { x: pos.x, y: (pos.y - 1) as i32, z: pos.z }),
    {
        let current = self.get_block(pos);
        let back = self.get_block(pos.add(IVec3::new(0, 0, -1)));
        let left = self.get_block(pos.add(IVec3::new(-1, 0, 0)));
        let down = self.get_block(pos.add(IVec3::new(0, -1, 0)));
        (current, back, left, down)
    }

    /// The six face neighbours of `pos`, each with the direction that points to it:
    /// -z, +z, -y, +y, -x, +x in that order.
    pub fn get_von_neumann(&self, pos: IVec3) -> (r: Option<Vec<(FaceDir, &BlockData)>>)
        requires
            self.wf(),
            -31 <= pos.x < 63,
            -31 <= pos.y < 63,
            -31 <= pos.z < 63,
        ensures
            r matches Some(v) && v.len() == 6 && forall|k: int|
                0 <= k < 6 ==> {
                    let d = (#[trigger] v[k]).0;
                    &&& d == von_neumann_dir(k)
                    &&& *v[k].1 == self.block_at_pos(offset_pos(pos, crate::face_direction::air_dir_of(d)))
                },
    {
        let mut result: Vec<(FaceDir, &BlockData)> = Vec::new();
        result.push((FaceDir::Forward, self.get_block(pos.add(IVec3::new(0, 0, -1)))));
        result.push((FaceDir::Back, self.get_block(pos.add(IVec3::new(0, 0, 1)))));
        result.push((FaceDir::Down, self.get_block(pos.add(IVec3::new(0, -1, 0)))));
        result.push((FaceDir::Up, self.get_block(pos.add(IVec3::new(0, 1, 0)))));
        result.push((FaceDir::Left, self.get_block(pos.add(IVec3::new(-1, 0, 0)))));
        result.push((FaceDir::Right, self.get_block(pos.add(IVec3::new(1, 0, 0)))));
        Some(result)
    }

    /// The blocks at `pos` and at `pos + offset`.
    pub fn get_2(&self, pos: IVec3, offset: IVec3) -> (r: (&BlockData, &BlockData))
        requires
            self.wf(),
            in_band(pos),
            fits(pos.x + offset.x, pos.y + offset.y, pos.z + offset.z),
            in_band(offset_pos(pos, offset)),
        ensures
            *r.0 == self.block_at_pos(pos),
            *r.1 == self.block_at_pos(offset_pos(pos, offset)),
    {
        let first = self.get_block(pos);
        let second = self.get_block(pos.add(offset));
        (first, second)
    }
}

/// `p + o`, component-wise.
pub open spec fn offset_pos(p: IVec3, o: IVec3) -> IVec3 {
    IVec3 { x: (p.x + o.x) as i32, y: (p.y + o.y) as i32, z: (p.z + o.z) as i32 }
}

/// The direction of the k-th entry of a von Neumann neighbourhood.
pub open spec fn von_neumann_dir(k: int) -> FaceDir {
    if k == 0 {
        FaceDir::Forward
    } else if k == 1 {
        FaceDir::Back
    } else if k == 2 {
        FaceDir::Down
    } else if k == 3 {
        FaceDir::Up
    } else if k == 4 {
        FaceDir::Left
    } else {
        FaceDir::Right
    }
}

} // verus!
