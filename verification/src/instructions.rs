use vstd::prelude::*;

verus! {

/// The closed instruction set. Jump targets are absolute indices into
/// the instruction sequence, not relative offsets.
#[derive(Clone, Copy, Debug, PartialEq, Eq, Structural)]
pub enum ByteCode {
    LoadVal(i32),
    WriteVar(char),
    ReadVar(char),
    Add,
    Sub,
    Mul,
    Div,
    Return,
    // Comparisons
    Greater,
    Lower,
    Eq,
    GreaterEq,
    LowerEq,
    // Jumps with target location
    Jump(u32),
    JumpI(u32),
}

} // verus!
