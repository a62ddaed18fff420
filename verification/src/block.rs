use vstd::prelude::*;

verus! {

/// Identifier of the air block.
pub const AIR_ID: u8 = 240;
/// Identifier of the water block.
pub const WATER_ID: u8 = 3;

/// The named block kinds and their numeric identifiers.
#[allow(non_camel_case_types)]
#[derive(Clone, Copy, Debug, PartialEq, Eq, Structural)]
pub enum BlockId {
    GRASS,
    STONE,
    DIRT,
    WATER,
    AIR,
}

impl BlockId {
    pub open spec fn spec_id(self) -> u8 {
        match self {
            BlockId::GRASS => 0,
            BlockId::STONE => 1,
            BlockId::DIRT => 2,
            BlockId::WATER => 3,
            BlockId::AIR => 240,
        }
    }

    /// The numeric identifier that blocks of this kind carry.
    pub fn id(&self) -> (r: u8)
        ensures
            r == self.spec_id(),
    {
        match self {
            BlockId::GRASS => 0,
            BlockId::STONE => 1,
            BlockId::DIRT => 2,
            BlockId::WATER => 3,
            BlockId::AIR => 240,
        }
    }
}

/// The abstract value of a block.
#[verifier::ext_equal]
pub struct BlockView {
    pub id: u8,
    pub visible: bool,
    pub sides: Seq<bool>,
}

/// One block of a chunk: its kind, whether it is drawn, and which of its
/// six faces are exposed.
pub struct Block {
    pub id: u8,
    pub visible: bool,
    pub sides: Vec<bool>,
}

impl View for Block {
    type V = BlockView;

    open spec fn view(&self) -> BlockView {
        BlockView { id: self.id, visible: self.visible, sides: self.sides@ }
    }
}

impl DeepView for Block {
    type V = BlockView;

    open spec fn deep_view(&self) -> BlockView {
        self@
    }
}

impl Block {
    /// A fresh visible block of kind `id` with no face list.
    pub fn init(id: u8) -> (b: Block)
        ensures
            b@ == (BlockView { id, visible: true, sides: Seq::empty() }),
    {
        Block { id, visible: true, sides: Vec::new() }
    }

    /// Gives the block a new kind; visibility and faces stay.
    pub fn regenerate(&mut self, id: u8)
        ensures
            final(self)@ == (BlockView { id, ..old(self)@ }),
    {
        self.id = id;
    }

    pub fn set_invisible(&mut self)
        ensures
            final(self)@ == (BlockView { visible: false, ..old(self)@ }),
    {
        self.visible = false;
    }

    pub fn is_air(&self) -> (r: bool)
        ensures
            r == (self.id == AIR_ID),
    {
        self.id == AIR_ID
    }

    pub fn is_water(&self) -> (r: bool)
        ensures
            r == (self.id == WATER_ID),
    {
        self.id == WATER_ID
    }

    pub fn is_transparent(&self) -> (r: bool)
        ensures
            r == (self.id == WATER_ID),
    {
        if self.is_water() {
            true
        } else {
            false
        }
    }
}

} // verus!
