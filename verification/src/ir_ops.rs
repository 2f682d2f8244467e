use vstd::prelude::*;

verus! {

/// Arithmetic operators of the IR (the `D` forms are the 64-bit-safe
/// variants that the coefficient pass emits; `Min` and `Max` select the
/// smaller and the larger `i32`).
#[derive(PartialEq, Eq, Structural, Clone, Copy, Debug)]
pub enum ArithOp {
    Add,
    Sub,
    Div,
    Mul,
    Rem,
    Fadd,
    Fsub,
    Fdiv,
    Fmul,
    Shl,
    Lshr,
    Ashr,
    And,
    Or,
    Xor,
    AddD,
    SubD,
    DivD,
    MulD,
    RemD,
    ShlD,
    LshrD,
    AshrD,
    Min,
    Max,
}

/// Comparison operators of the IR: signed integer and ordered float
/// comparisons.
#[derive(PartialEq, Eq, Structural, Clone, Copy, Debug)]
pub enum CompOp {
    EQ,
    NE,
    SGT,
    SGE,
    SLT,
    SLE,
    OEQ,
    ONE,
    OGT,
    OGE,
    OLT,
    OLE,
}

} // verus!
