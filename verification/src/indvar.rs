use vstd::prelude::*;
use crate::compute_graph::Value;

verus! {

/// An induction variable of a loop: its value `a` starts at `base` and
/// follows `a_{n+1} = scale * a_n + step`; `is_zfp` holds the value it has
/// where it reaches zero, where that is known.
pub struct IndVar {
    pub base: Value,
    pub scale: Value,
    pub step: Value,
    pub is_zfp: Option<Value>,
}

impl IndVar {
    /// The induction variable of order zero for a loop invariant: it keeps
    /// `base` (scale one, step zero).
    pub fn from_loop_invariant(base: Value) -> (r: Self)
        ensures
            r == (IndVar { base, scale: Value::Int(1), step: Value::Int(0), is_zfp: None }),
    {
        IndVar { base, scale: Value::Int(1), step: Value::Int(0), is_zfp: None }
    }

    /// An induction variable; its scale is never the literal zero.
    pub fn new(base: Value, scale: Value, step: Value, zfp: Option<Value>) -> (r: Self)
        requires
            !(scale matches Value::Int(0)),
        ensures
            r == (IndVar { base, scale, step, is_zfp: zfp }),
    {
        IndVar { base, scale, step, is_zfp: zfp }
    }
}

} // verus!
