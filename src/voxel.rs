use vstd::prelude::*;

verus! {

/// The material of one voxel.
#[derive(PartialEq, Eq, Structural, Default, Copy, Clone, Debug)]
pub enum BlockType {
    #[default]
    Air,
    Grass,
    Dirt,
}

/// Numeric tag of a block type, as packed into vertex words.
pub open spec fn block_id(b: BlockType) -> u32 {
    match b {
        BlockType::Air => 0,
        BlockType::Grass => 1,
        BlockType::Dirt => 2,
    }
}

/// Whether a block type occludes its neighbours.
pub open spec fn solid(b: BlockType) -> bool {
    b != BlockType::Air
}

impl BlockType {
    pub fn is_solid(&self) -> (r: bool)
        ensures
            r == solid(*self),
    {
        match self {
            BlockType::Air => false,
            BlockType::Grass => true,
            BlockType::Dirt => true,
        }
    }

    pub fn is_air(&self) -> (r: bool)
        ensures
            r == !solid(*self),
    {
        !self.is_solid()
    }

    /// The stable numeric tag of this block type.
    pub fn id(&self) -> (r: u32)
        ensures
            r == block_id(*self),
            r < 3,
    {
        match self {
            BlockType::Air => 0,
            BlockType::Grass => 1,
            BlockType::Dirt => 2,
        }
    }
}

/// The block types that produce geometry.
pub fn meshable_block_types() -> (r: Vec<BlockType>)
    ensures
        r@ == seq![BlockType::Grass, BlockType::Dirt],
{
    vec![BlockType::Grass, BlockType::Dirt]
}

/// The data held by one voxel.
#[derive(PartialEq, Eq, Structural, Default, Copy, Clone, Debug)]
pub struct BlockData {
    pub block_type: BlockType,
}

} // verus!
