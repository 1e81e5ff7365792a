//! The material palette and the in-world block value.

use vstd::prelude::*;

verus! {

/// The material held by one voxel.
#[derive(Debug, Clone, Copy, PartialEq, Eq, Structural)]
pub enum BlockName {
    Air,
    Stone,
    Grass,
}

impl BlockName {
    /// The byte that stands for this material in exported chunk data.
    pub open spec fn spec_id(self) -> u8 {
        match self {
            BlockName::Air => 0,
            BlockName::Stone => 1,
            BlockName::Grass => 2,
        }
    }

    /// Air is the one transparent material.
    pub open spec fn spec_is_transparent(self) -> bool {
        self == BlockName::Air
    }

    pub fn id(self) -> (r: u8)
        ensures
            r == self.spec_id(),
    {
        match self {
            BlockName::Air => 0,
            BlockName::Stone => 1,
            BlockName::Grass => 2,
        }
    }

    pub fn is_transparent(self) -> (r: bool)
        ensures
            r == self.spec_is_transparent(),
    {
        match self {
            BlockName::Air => true,
            _ => false,
        }
    }
}

/// One in-world block. It is deliberately neither `Copy` nor `Clone`: a block
/// leaves a slot only when another block takes its place.
#[must_use]
pub struct Block(BlockName);

impl View for Block {
    type V = BlockName;

    closed spec fn view(&self) -> BlockName {
        self.0
    }
}

impl Block {
    pub fn create(block: BlockName) -> (r: Self)
        ensures
            r@ == block,
    {
        Block(block)
    }

    /// The material of this block, read without duplicating the block.
    pub fn name(&self) -> (r: BlockName)
        ensures
            r == self@,
    {
        self.0
    }

    pub fn is_transparent(&self) -> (r: bool)
        ensures
            r == self@.spec_is_transparent(),
    {
        self.0.is_transparent()
    }
}

impl PartialEq<BlockName> for Block {
    fn eq(&self, other: &BlockName) -> (r: bool)
        ensures
            r == (self@ == *other),
    {
        self.0 == *other
    }
}

impl vstd::std_specs::cmp::PartialEqSpecImpl<BlockName> for Block {
    open spec fn obeys_eq_spec() -> bool {
        true
    }

    open spec fn eq_spec(&self, other: &BlockName) -> bool {
        self@ == *other
    }
}

} // verus!
