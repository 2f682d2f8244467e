use vstd::prelude::*;
use crate::calc_coef::dup_value;
use crate::compute_graph::{LlvmTemp, Value, VarType};
use crate::ir_ops::{ArithOp, CompOp};
use crate::rearrange::{operand, ArithInstr};

verus! {

/// A phi instruction at the join of a two-way branch: the temporary it
/// writes, the value it takes from the branch taken when the condition
/// holds, and the one from the other branch.
pub struct PhiPair {
    pub target: LlvmTemp,
    pub on_true: Value,
    pub on_false: Value,
}

/// The two operands are the same literal or the same temporary.
pub open spec fn same_operand(a: Value, b: Value) -> bool {
    match (a, b) {
        (Value::Int(x), Value::Int(y)) => x == y,
        (Value::Float(x), Value::Float(y)) => x == y,
        (Value::Temp(s), Value::Temp(t)) => s.name@ == t.name@ && s.is_global == t.is_global && s.var_type == t.var_type,
        _ => false,
    }
}

fn operands_equal(a: &Value, b: &Value) -> (r: bool)
    ensures
        r == same_operand(*a, *b),
{
    match (a, b) {
        (Value::Int(x), Value::Int(y)) => *x == *y,
        (Value::Float(x), Value::Float(y)) => *x == *y,
        (Value::Temp(s), Value::Temp(t)) => s.name == t.name && s.is_global == t.is_global && s.var_type == t.var_type,
        _ => false,
    }
}

/// Whether the signed comparison `a op b` holds.
pub open spec fn comp_holds(op: CompOp, a: int, b: int) -> bool {
    match op {
        CompOp::SLT => a < b,
        CompOp::SLE => a <= b,
        CompOp::SGT => a > b,
        CompOp::SGE => a >= b,
        _ => false,
    }
}

/// What `Min` or `Max` stores.
pub open spec fn select_result(op: ArithOp, a: int, b: int) -> int {
    if op == ArithOp::Min {
        if a <= b { a } else { b }
    } else {
        if a >= b { a } else { b }
    }
}

/// The operator that computes a phi of the operands of an ordering
/// comparison: the phi takes `lhs` where the comparison holds and `rhs`
/// where it does not (`same` is true), or the other way round.
pub open spec fn select_op(op: CompOp, same: bool) -> ArithOp {
    if (op == CompOp::SLT || op == CompOp::SLE) == same {
        ArithOp::Min
    } else {
        ArithOp::Max
    }
}

/// The phi takes the comparison's left operand where it holds and its right
/// one where it does not, or the other way round.
pub open spec fn phi_matches(lhs: Value, rhs: Value, p: PhiPair) -> bool {
    (same_operand(p.on_true, lhs) && same_operand(p.on_false, rhs))
        || (same_operand(p.on_true, rhs) && same_operand(p.on_false, lhs))
}

/// An ordering comparison of integers.
pub open spec fn ordering(op: CompOp) -> bool {
    op == CompOp::SLT || op == CompOp::SLE || op == CompOp::SGT || op == CompOp::SGE
}

/// The instruction that replaces the phi `p`.
pub open spec fn select_instr(op: CompOp, lhs: Value, rhs: Value, p: PhiPair) -> ArithInstr {
    ArithInstr {
        target: p.target,
        op: select_op(op, same_operand(p.on_true, lhs) && same_operand(p.on_false, rhs)),
        var_type: VarType::I32,
        lhs: p.on_true,
        rhs: p.on_false,
    }
}

/// What the phi `p` takes after a branch on `lhs op rhs`.
pub open spec fn phi_value(op: CompOp, lhs: Value, rhs: Value, p: PhiPair, env: spec_fn(Seq<char>) -> int) -> int {
    if comp_holds(op, operand(lhs, env), operand(rhs, env)) {
        operand(p.on_true, env)
    } else {
        operand(p.on_false, env)
    }
}

/// What a `Min` or `Max` instruction stores.
pub open spec fn select_value(i: ArithInstr, env: spec_fn(Seq<char>) -> int) -> int {
    select_result(i.op, operand(i.lhs, env), operand(i.rhs, env))
}

/// Same operands have the same values.
pub proof fn lemma_same_operand(a: Value, b: Value, env: spec_fn(Seq<char>) -> int)
    requires
        same_operand(a, b),
    ensures
        operand(a, env) == operand(b, env),
{
}

/// Where a branch on `lhs op rhs` joins, turns its phis into `Min` and
/// `Max` of the two values: gives the instructions, or nothing where the
/// comparison is no ordering or a phi does not choose between its operands.
pub fn phis_to_selects(op: CompOp, lhs: &Value, rhs: &Value, phis: &Vec<PhiPair>) -> (r: Option<Vec<ArithInstr>>)
    ensures
        r is Some <==> ordering(op) && forall|i: int| 0 <= i < phis@.len() ==> phi_matches(*lhs, *rhs, #[trigger] phis@[i]),
        r matches Some(v) ==> v@.len() == phis@.len()
            && forall|i: int| 0 <= i < phis@.len() ==> #[trigger] v@[i] == select_instr(op, *lhs, *rhs, phis@[i]),
        r matches Some(v) ==> forall|env: spec_fn(Seq<char>) -> int, i: int| 0 <= i < v@.len()
            ==> #[trigger] select_value(v@[i], env) == phi_value(op, *lhs, *rhs, phis@[i], env),
{
    if !(op == CompOp::SLT || op == CompOp::SLE || op == CompOp::SGT || op == CompOp::SGE) {
        return None;
    }
    let mut out: Vec<ArithInstr> = Vec::new();
    let mut i: usize = 0;
    while i < phis.len()
        invariant
            i <= phis@.len(),
            ordering(op),
            out@.len() == i,
            forall|j: int| 0 <= j < i ==> phi_matches(*lhs, *rhs, #[trigger] phis@[j]),
            forall|j: int| 0 <= j < i ==> #[trigger] out@[j] == select_instr(op, *lhs, *rhs, phis@[j]),
        decreases phis.len() - i,
    {
        let p = &phis[i];
        let same = operands_equal(&p.on_true, lhs) && operands_equal(&p.on_false, rhs);
        let swapped = operands_equal(&p.on_true, rhs) && operands_equal(&p.on_false, lhs);
        if !same && !swapped {
            return None;
        }
        let small_first = (op == CompOp::SLT || op == CompOp::SLE) == same;
        let sel = if small_first { ArithOp::Min } else { ArithOp::Max };
        out.push(ArithInstr {
            target: p.target.dup(),
            op: sel,
            var_type: VarType::I32,
            lhs: dup_value(&p.on_true),
            rhs: dup_value(&p.on_false),
        });
        i = i + 1;
    }
    proof {
        assert forall|env: spec_fn(Seq<char>) -> int, j: int| 0 <= j < out@.len() implies
            #[trigger] select_value(out@[j], env) == phi_value(op, *lhs, *rhs, phis@[j], env) by {
            let p = phis@[j];
            let a = operand(*lhs, env);
            let b = operand(*rhs, env);
            if same_operand(p.on_true, *lhs) && same_operand(p.on_false, *rhs) {
                lemma_same_operand(p.on_true, *lhs, env);
                lemma_same_operand(p.on_false, *rhs, env);
            } else {
                lemma_same_operand(p.on_true, *rhs, env);
                lemma_same_operand(p.on_false, *lhs, env);
            }
        }
    }
    Some(out)
}

} // verus!
