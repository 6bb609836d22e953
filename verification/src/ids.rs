use vstd::prelude::*;

verus! {

/// The value of the largest id, which no instruction is ever given.
pub const INVALID_ID: u32 = 0xffff_ffff;

/// Names an instruction of a module, and so the value it defines.
#[derive(Clone, Copy, Debug, PartialEq, Eq, Hash, Structural)]
pub struct ValueId(pub u32);

impl ValueId {
    /// The id that stands for "no value", as an absent depth attachment or name.
    pub fn invalid() -> (r: ValueId)
        ensures
            !r.valid(),
    {
        ValueId(INVALID_ID)
    }

    pub open spec fn valid(self) -> bool {
        self.0 != INVALID_ID
    }

    pub fn is_valid(&self) -> (r: bool)
        ensures
            r == self.valid(),
    {
        self.0 != INVALID_ID
    }

    pub fn is_invalid(&self) -> (r: bool)
        ensures
            r == !self.valid(),
    {
        self.0 == INVALID_ID
    }
}

/// Names a block of a module's control flow.
#[derive(Clone, Copy, Debug, PartialEq, Eq, Hash, PartialOrd, Ord, Structural)]
pub struct LabelId(pub u32);

/// Names a pipeline a render graph declared.
#[derive(Clone, Copy, Debug, PartialEq, Eq, Hash, Structural)]
pub struct PipelineId(pub u32);

impl PipelineId {
    /// The pipeline a draw recorded with none bound refers to.
    pub fn invalid() -> (r: PipelineId)
        ensures
            !r.valid(),
    {
        PipelineId(INVALID_ID)
    }

    pub open spec fn valid(self) -> bool {
        self.0 != INVALID_ID
    }

    pub fn is_valid(&self) -> (r: bool)
        ensures
            r == self.valid(),
    {
        self.0 != INVALID_ID
    }

    pub fn is_invalid(&self) -> (r: bool)
        ensures
            r == !self.valid(),
    {
        self.0 == INVALID_ID
    }
}

} // verus!
