use vstd::prelude::*;

verus! {

/// Each op occupies this many slots of the flat output buffer:
/// `[opcode, d0, d1, d2, d3, d4, d5]`. Move and LineTo use `d0..d1`;
/// BCurveTo uses all six.
pub const OP_STRIDE: usize = 7;

/// The kind of a drawing op; its code is written into slot 0 of the op.
#[derive(Clone, Copy, Debug, PartialEq, Eq, Structural)]
pub enum OpType {
    Move,
    BCurveTo,
    LineTo,
}

impl OpType {
    pub open spec fn spec_code(self) -> u8 {
        match self {
            OpType::Move => 0,
            OpType::BCurveTo => 1,
            OpType::LineTo => 2,
        }
    }

    /// The numeric tag of this op kind: Move = 0, BCurveTo = 1, LineTo = 2.
    pub fn code(&self) -> (c: u8)
        ensures
            c == self.spec_code(),
    {
        match self {
            OpType::Move => 0,
            OpType::BCurveTo => 1,
            OpType::LineTo => 2,
        }
    }
}

/// The kind of an op set (a path, a filled path, or a fill sketch).
#[derive(Clone, Copy, Debug, PartialEq, Eq, Structural)]
pub enum OpSetType {
    Path,
    FillPath,
    FillSketch,
}

impl OpSetType {
    pub open spec fn spec_code(self) -> u8 {
        match self {
            OpSetType::Path => 0,
            OpSetType::FillPath => 1,
            OpSetType::FillSketch => 2,
        }
    }

    /// The numeric tag of this op-set kind: Path = 0, FillPath = 1, FillSketch = 2.
    pub fn code(&self) -> (c: u8)
        ensures
            c == self.spec_code(),
    {
        match self {
            OpSetType::Path => 0,
            OpSetType::FillPath => 1,
            OpSetType::FillSketch => 2,
        }
    }
}

/// Distinct op kinds carry distinct tags, so a decoder can tell them apart.
pub proof fn op_codes_are_distinct(a: OpType, b: OpType)
    ensures
        a.spec_code() == b.spec_code() <==> a == b,
{
}

/// Distinct op-set kinds carry distinct tags.
pub proof fn op_set_codes_are_distinct(a: OpSetType, b: OpSetType)
    ensures
        a.spec_code() == b.spec_code() <==> a == b,
{
}

} // verus!
