use vstd::prelude::*;
use crate::calc_coef::dup_value;
use crate::compute_graph::{LlvmTemp, Value, VarType};
use crate::ir_ops::{ArithOp, CompOp};
use crate::emit::{lemma_avoids_mono, lemma_fresh_agree};
use crate::rearrange::{
    add_expression_tree, appended, avoids, fresh_writes, cong, factors_ok, get_arith_type, get_neg, get_op_for_lhs, lemma_cong_add,
    lemma_cong_mul, lemma_signed_sum_frame, lemma_wrap32, modeled_op, operand,
    product, run, signed_sum, step, term, terms_avoid, terms_ok, wrap32, ArithInstr, ArithType,
};

verus! {

/// A conversion between `i32` and `f32`.
#[derive(PartialEq, Eq, Structural, Clone, Copy, Debug)]
pub enum ConvertOp {
    Int2Float,
    Float2Int,
}

/// What an instruction that is not arithmetic does.
#[derive(PartialEq, Eq, Structural, Clone, Copy, Debug)]
pub enum OtherKind {
    Comp(CompOp),
    Convert(ConvertOp),
    Jump,
    JumpCond,
    Phi,
    Ret,
    Alloc,
    Store,
    Load,
    Gep,
    Call,
}

/// An instruction of a basic block that is not arithmetic: what it is, the
/// operands it reads (a store reads its address, then the value it
/// stores; a call reads its arguments), the temporary it writes, if any,
/// and, for a call, the name of the function it calls.
pub struct OtherInstr {
    pub kind: OtherKind,
    pub reads: Vec<Value>,
    pub target: Option<LlvmTemp>,
    pub callee: Option<String>,
}

/// An instruction of a basic block.
pub enum BlockInstr {
    Arith(ArithInstr),
    Other(OtherInstr),
}

/// The instructions the pass rewrites: `i32` additions, subtractions and
/// multiplications.
pub open spec fn rewritten(i: BlockInstr) -> bool {
    i matches BlockInstr::Arith(a) && a.var_type == VarType::I32 && modeled_op(a.op)
}

/// Whether an operator builds a sum or a product.
pub open spec fn arith_type_of(op: ArithOp) -> ArithType {
    if op == ArithOp::Mul {
        ArithType::Multiplitive
    } else {
        ArithType::Addicative
    }
}

/// The operator a left operand enters a calculation with.
pub open spec fn lhs_op(op: ArithOp) -> ArithOp {
    if op == ArithOp::Sub {
        ArithOp::Add
    } else {
        op
    }
}

/// Addition and subtraction swapped.
pub open spec fn neg_op(op: ArithOp) -> ArithOp {
    if op == ArithOp::Sub {
        ArithOp::Add
    } else if op == ArithOp::Add {
        ArithOp::Sub
    } else {
        op
    }
}

/// A list of terms with every sign flipped.
pub open spec fn negated(s: Seq<(ArithOp, Value)>) -> Seq<(ArithOp, Value)> {
    Seq::new(s.len(), |i: int| (neg_op(s[i].0), s[i].1))
}

/// The calculations recorded so far: by the name of the temporary that
/// holds one, its kind and its flattened terms.
pub type Calcs = Map<Seq<char>, (ArithType, Seq<(ArithOp, Value)>)>;

/// The terms the left operand of `a` contributes: the recorded calculation
/// of the same kind that it names, or the operand itself.
pub open spec fn lhs_terms(calcs: Calcs, a: ArithInstr) -> Seq<(ArithOp, Value)> {
    match a.lhs {
        Value::Temp(t) => if calcs.contains_key(t.name@) && calcs[t.name@].0 == arith_type_of(a.op) {
            calcs[t.name@].1
        } else {
            seq![(lhs_op(a.op), a.lhs)]
        },
        _ => seq![(lhs_op(a.op), a.lhs)],
    }
}

/// The terms the right operand of `a` contributes: the recorded calculation
/// of the same kind that it names (with its signs flipped under a
/// subtraction), or the operand itself.
pub open spec fn rhs_terms(calcs: Calcs, a: ArithInstr) -> Seq<(ArithOp, Value)> {
    match a.rhs {
        Value::Temp(t) => if calcs.contains_key(t.name@) && calcs[t.name@].0 == arith_type_of(a.op) {
            if a.op == ArithOp::Sub {
                negated(calcs[t.name@].1)
            } else {
                calcs[t.name@].1
            }
        } else {
            seq![(a.op, a.rhs)]
        },
        _ => seq![(a.op, a.rhs)],
    }
}

/// The flattened terms of the calculation `a` performs.
pub open spec fn flat_terms(calcs: Calcs, a: ArithInstr) -> Seq<(ArithOp, Value)> {
    lhs_terms(calcs, a) + rhs_terms(calcs, a)
}

/// The calculations recorded after the first `k` instructions of `b`.
pub open spec fn calcs_after(b: Seq<BlockInstr>, k: int) -> Calcs
    decreases k,
{
    if k <= 0 || k > b.len() {
        Map::empty()
    } else {
        let c = calcs_after(b, k - 1);
        if rewritten(b[k - 1]) {
            let a = b[k - 1]->Arith_0;
            c.insert(a.target.name@, (arith_type_of(a.op), flat_terms(c, a)))
        } else {
            c
        }
    }
}

/// How many terms the rewritten instructions among the first `k` of `b`
/// are built from: a bound on the fresh temporaries they need.
pub open spec fn terms_needed(b: Seq<BlockInstr>, k: int) -> int
    decreases k,
{
    if k <= 0 || k > b.len() {
        0
    } else {
        terms_needed(b, k - 1) + if rewritten(b[k - 1]) {
            flat_terms(calcs_after(b, k - 1), b[k - 1]->Arith_0).len() as int
        } else {
            0
        }
    }
}

/// The operands of the rewritten instructions of `b` are no float literals.
pub open spec fn no_float_operands(b: Seq<BlockInstr>) -> bool {
    forall|i: int| 0 <= i < b.len() && rewritten(#[trigger] b[i]) ==> !(b[i]->Arith_0.lhs is Float) && !(b[i]->Arith_0.rhs is Float)
}

pub proof fn lemma_terms_needed_mono(b: Seq<BlockInstr>, j: int, k: int)
    requires
        0 <= j <= k <= b.len(),
    ensures
        terms_needed(b, j) <= terms_needed(b, k),
    decreases k - j,
{
    if j < k {
        lemma_terms_needed_mono(b, j, k - 1);
    }
}

/// The temporary an instruction writes, by name.
pub open spec fn write_name(i: BlockInstr) -> Option<Seq<char>> {
    match i {
        BlockInstr::Arith(a) => Some(a.target.name@),
        BlockInstr::Other(o) => match o.target {
            Some(t) => Some(t.name@),
            None => None,
        },
    }
}

/// `v` is the temporary named `n`.
pub open spec fn names(v: Value, n: Seq<char>) -> bool {
    v matches Value::Temp(t) && t.name@ == n
}

/// The instruction reads the temporary named `n`.
pub open spec fn reads_name(i: BlockInstr, n: Seq<char>) -> bool {
    match i {
        BlockInstr::Arith(a) => names(a.lhs, n) || names(a.rhs, n),
        BlockInstr::Other(o) => exists|j: int| 0 <= j < o.reads@.len() && names(#[trigger] o.reads@[j], n),
    }
}

/// A block in static single assignment form: no temporary is written
/// twice, and none is read by an instruction at or before the one that
/// writes it.
pub open spec fn block_ssa(b: Seq<BlockInstr>) -> bool {
    &&& forall|j1: int, j2: int| 0 <= j1 < j2 < b.len() && (#[trigger] write_name(b[j1])) is Some
        ==> write_name(b[j1]) != #[trigger] write_name(b[j2])
    &&& forall|i: int, j: int, n: Seq<char>| 0 <= i <= j < b.len() && #[trigger] reads_name(b[i], n)
        ==> #[trigger] write_name(b[j]) != Some(n)
}

/// No temporary the block reads or writes bears the name of a temporary
/// numbered `k` or more.
pub open spec fn block_names_avoid(b: Seq<BlockInstr>, k: nat) -> bool {
    &&& forall|i: int, n: Seq<char>| 0 <= i < b.len() && #[trigger] reads_name(b[i], n) ==> avoids(n, k)
    &&& forall|i: int| 0 <= i < b.len() && (#[trigger] write_name(b[i])) is Some ==> avoids(write_name(b[i])->0, k)
}

/// The values after one instruction: `i32` additions, subtractions and
/// multiplications wrap as the machine does; what other instructions
/// store is given by `asem` (arithmetic) and `osem` (the rest), from the
/// values of their operands.
pub open spec fn block_step(
    e: spec_fn(Seq<char>) -> int,
    i: BlockInstr,
    asem: spec_fn(ArithInstr, int, int) -> int,
    osem: spec_fn(OtherInstr, Seq<int>) -> int,
) -> spec_fn(Seq<char>) -> int {
    match i {
        BlockInstr::Arith(a) => if a.var_type == VarType::I32 && modeled_op(a.op) {
            step(e, a)
        } else {
            |n: Seq<char>| if n == a.target.name@ { asem(a, operand(a.lhs, e), operand(a.rhs, e)) } else { e(n) }
        },
        BlockInstr::Other(o) => match o.target {
            Some(t) => |n: Seq<char>| if n == t.name@ {
                osem(o, Seq::new(o.reads@.len(), |j: int| operand(o.reads@[j], e)))
            } else {
                e(n)
            },
            None => e,
        },
    }
}

/// The values after running a block.
pub open spec fn run_block(
    s: Seq<BlockInstr>,
    env: spec_fn(Seq<char>) -> int,
    asem: spec_fn(ArithInstr, int, int) -> int,
    osem: spec_fn(OtherInstr, Seq<int>) -> int,
) -> spec_fn(Seq<char>) -> int
    decreases s.len(),
{
    if s.len() == 0 {
        env
    } else {
        block_step(run_block(s.drop_last(), env, asem, osem), s.last(), asem, osem)
    }
}

/// The value of a recorded calculation.
pub open spec fn calc_value(e: (ArithType, Seq<(ArithOp, Value)>), env: spec_fn(Seq<char>) -> int) -> int {
    if e.0 == ArithType::Addicative {
        signed_sum(e.1, env)
    } else {
        product(e.1, env)
    }
}

/// What an `i32` operation computes, before wrapping.
pub open spec fn exact_result(op: ArithOp, a: int, b: int) -> int {
    if op == ArithOp::Mul {
        a * b
    } else if op == ArithOp::Sub {
        a - b
    } else {
        a + b
    }
}

/// Every temporary among the terms is read by one of the first `k`
/// instructions of `b`.
pub open spec fn read_before(s: Seq<(ArithOp, Value)>, b: Seq<BlockInstr>, k: int) -> bool {
    forall|j: int| 0 <= j < s.len() && (#[trigger] s[j]).1 is Temp
        ==> exists|i: int| 0 <= i < k && reads_name(b[i], s[j].1->Temp_0.name@)
}

pub proof fn lemma_signed_sum_append(a: Seq<(ArithOp, Value)>, b: Seq<(ArithOp, Value)>, env: spec_fn(Seq<char>) -> int)
    ensures
        signed_sum(a + b, env) == signed_sum(a, env) + signed_sum(b, env),
    decreases b.len(),
{
    if b.len() == 0 {
        assert(a + b =~= a);
    } else {
        assert((a + b).drop_last() =~= a + b.drop_last());
        assert((a + b).last() == b.last());
        lemma_signed_sum_append(a, b.drop_last(), env);
    }
}

pub proof fn lemma_product_append(a: Seq<(ArithOp, Value)>, b: Seq<(ArithOp, Value)>, env: spec_fn(Seq<char>) -> int)
    ensures
        product(a + b, env) == product(a, env) * product(b, env),
    decreases b.len(),
{
    if b.len() == 0 {
        assert(a + b =~= a);
    } else {
        assert((a + b).drop_last() =~= a + b.drop_last());
        assert((a + b).last() == b.last());
        lemma_product_append(a, b.drop_last(), env);
        let x = product(a, env);
        let y = product(b.drop_last(), env);
        let z = operand(b.last().1, env);
        assert(x * y * z == x * (y * z)) by (nonlinear_arith);
    }
}

pub proof fn lemma_signed_sum_negated(s: Seq<(ArithOp, Value)>, env: spec_fn(Seq<char>) -> int)
    requires
        terms_ok(s),
    ensures
        signed_sum(negated(s), env) == -signed_sum(s, env),
    decreases s.len(),
{
    if s.len() > 0 {
        let s0 = s.drop_last();
        assert(negated(s).drop_last() =~= negated(s0));
        assert(terms_ok(s0));
        lemma_signed_sum_negated(s0, env);
        assert(s.last() == s[s.len() - 1]);
    } else {
        assert(negated(s) =~= Seq::<(ArithOp, Value)>::empty());
    }
}

/// Two valuations that agree on the temporaries of a list of factors give
/// it the same product.
pub proof fn lemma_product_frame(s: Seq<(ArithOp, Value)>, e1: spec_fn(Seq<char>) -> int, e2: spec_fn(Seq<char>) -> int)
    requires
        forall|i: int| 0 <= i < s.len() ==> ((#[trigger] s[i]).1 matches Value::Temp(t) ==> e1(t.name@) == e2(t.name@)),
    ensures
        product(s, e1) == product(s, e2),
    decreases s.len(),
{
    if s.len() > 0 {
        assert(s.last() == s[s.len() - 1]);
        assert forall|i: int| 0 <= i < s.drop_last().len() implies ((#[trigger] s.drop_last()[i]).1 matches Value::Temp(t) ==> e1(t.name@) == e2(t.name@)) by {
            assert(s.drop_last()[i] == s[i]);
        }
        lemma_product_frame(s.drop_last(), e1, e2);
    }
}

pub proof fn lemma_calc_value_frame(e: (ArithType, Seq<(ArithOp, Value)>), e1: spec_fn(Seq<char>) -> int, e2: spec_fn(Seq<char>) -> int)
    requires
        forall|i: int| 0 <= i < e.1.len() ==> ((#[trigger] e.1[i]).1 matches Value::Temp(t) ==> e1(t.name@) == e2(t.name@)),
    ensures
        calc_value(e, e1) == calc_value(e, e2),
{
    lemma_signed_sum_frame(e.1, e1, e2);
    lemma_product_frame(e.1, e1, e2);
}

/// Every recorded calculation holds, in `e`, the `i32` of its value.
pub open spec fn calcs_hold_values(c: Calcs, e: spec_fn(Seq<char>) -> int) -> bool {
    forall|n: Seq<char>| #[trigger] c.contains_key(n) ==> e(n) == wrap32(calc_value(c[n], e))
}

/// The flattened terms of a rewritten instruction have, up to wrapping, the
/// value of the instruction's own operation.
pub proof fn lemma_flat_value(c: Calcs, a: ArithInstr, e: spec_fn(Seq<char>) -> int)
    requires
        calcs_ok(c),
        calcs_hold_values(c, e),
        modeled_op(a.op),
        !(a.lhs is Float),
        !(a.rhs is Float),
    ensures
        cong(calc_value((arith_type_of(a.op), flat_terms(c, a)), e), exact_result(a.op, operand(a.lhs, e), operand(a.rhs, e))),
{
    let ty = arith_type_of(a.op);
    let l = lhs_terms(c, a);
    let r = rhs_terms(c, a);
    let x = operand(a.lhs, e);
    let y = operand(a.rhs, e);
    lemma_signed_sum_append(l, r, e);
    lemma_product_append(l, r, e);
    // the left operand
    let lf = a.lhs is Temp && c.contains_key(a.lhs->Temp_0.name@) && c[a.lhs->Temp_0.name@].0 == ty;
    assert(cong(calc_value((ty, l), e), x)) by {
        if lf {
            let t = a.lhs->Temp_0;
            let v = calc_value(c[t.name@], e);
            assert(l == c[t.name@].1);
            assert(calc_value((ty, l), e) == v);
            assert(e(t.name@) == wrap32(v));
            assert(x == wrap32(v));
            lemma_wrap32(v, 0);
            lemma_wrap32(wrap32(v), v);
        } else {
            let p = (lhs_op(a.op), a.lhs);
            assert(l == seq![p]);
            assert(seq![p].drop_last() =~= Seq::<(ArithOp, Value)>::empty());
            assert(seq![p].last() == p);
            assert(signed_sum(l, e) == signed_sum(Seq::<(ArithOp, Value)>::empty(), e) + term(p, e));
            assert(product(l, e) == product(Seq::<(ArithOp, Value)>::empty(), e) * operand(p.1, e));
            assert(signed_sum(Seq::<(ArithOp, Value)>::empty(), e) == 0);
            assert(product(Seq::<(ArithOp, Value)>::empty(), e) == 1);
            assert(p.0 != ArithOp::Sub);
            assert(term(p, e) == x);
            assert(calc_value((ty, l), e) == x);
            lemma_wrap32(x, 0);
        }
    }
    // the right operand
    let ry = if a.op == ArithOp::Sub { -y } else { y };
    let rf = a.rhs is Temp && c.contains_key(a.rhs->Temp_0.name@) && c[a.rhs->Temp_0.name@].0 == ty;
    assert(cong(calc_value((ty, r), e), ry)) by {
        if rf {
            let t = a.rhs->Temp_0;
            let v = calc_value(c[t.name@], e);
            assert(y == wrap32(v));
            assert(e(t.name@) == wrap32(v));
            lemma_wrap32(v, 0);
            lemma_wrap32(wrap32(v), v);
            if a.op == ArithOp::Sub {
                assert(calc_ok(c[t.name@]));
                lemma_signed_sum_negated(c[t.name@].1, e);
                lemma_cong_add(0, 0, v, wrap32(v));
            }
        } else {
            let p = (a.op, a.rhs);
            assert(r == seq![p]);
            assert(seq![p].drop_last() =~= Seq::<(ArithOp, Value)>::empty());
            assert(seq![p].last() == p);
            assert(signed_sum(r, e) == signed_sum(Seq::<(ArithOp, Value)>::empty(), e) + term(p, e));
            assert(product(r, e) == product(Seq::<(ArithOp, Value)>::empty(), e) * operand(p.1, e));
            assert(calc_value((ty, r), e) == ry);
            lemma_wrap32(ry, 0);
        }
    }
    if a.op == ArithOp::Mul {
        lemma_cong_mul(calc_value((ty, l), e), x, calc_value((ty, r), e), y);
    } else {
        lemma_cong_add(calc_value((ty, l), e), x, calc_value((ty, r), e), ry);
    }
}

/// An instruction leaves every temporary but the one it writes alone.
pub proof fn lemma_step_keeps(
    e: spec_fn(Seq<char>) -> int,
    i: BlockInstr,
    asem: spec_fn(ArithInstr, int, int) -> int,
    osem: spec_fn(OtherInstr, Seq<int>) -> int,
    m: Seq<char>,
)
    requires
        write_name(i) != Some(m),
    ensures
        block_step(e, i, asem, osem)(m) == e(m),
{
}

pub proof fn lemma_run_block_take(
    b: Seq<BlockInstr>,
    k: int,
    env: spec_fn(Seq<char>) -> int,
    asem: spec_fn(ArithInstr, int, int) -> int,
    osem: spec_fn(OtherInstr, Seq<int>) -> int,
)
    requires
        0 <= k < b.len(),
    ensures
        run_block(b.take(k + 1), env, asem, osem) == block_step(run_block(b.take(k), env, asem, osem), b[k], asem, osem),
{
    assert(b.take(k + 1).drop_last() =~= b.take(k));
    assert(b.take(k + 1).last() == b[k]);
}

/// What the first `k` instructions of a block leave in the temporaries
/// of its recorded calculations: each the `i32` of its calculation, whose
/// temporaries were read before and whose name was written before.
pub proof fn lemma_old_calcs(
    b: Seq<BlockInstr>,
    k: int,
    env: spec_fn(Seq<char>) -> int,
    asem: spec_fn(ArithInstr, int, int) -> int,
    osem: spec_fn(OtherInstr, Seq<int>) -> int,
)
    requires
        block_ssa(b),
        no_float_operands(b),
        0 <= k <= b.len(),
    ensures
        calcs_hold_values(calcs_after(b, k), run_block(b.take(k), env, asem, osem)),
        forall|n: Seq<char>| #[trigger] calcs_after(b, k).contains_key(n) ==> read_before(calcs_after(b, k)[n].1, b, k)
            && exists|i: int| 0 <= i < k && write_name(b[i]) == Some(n),
    decreases k,
{
    if k == 0 {
        assert(calcs_after(b, 0) == Map::<Seq<char>, (ArithType, Seq<(ArithOp, Value)>)>::empty());
    } else {
        lemma_old_calcs(b, k - 1, env, asem, osem);
        lemma_calcs_ok(b, k - 1);
        let c = calcs_after(b, k - 1);
        let old = run_block(b.take(k - 1), env, asem, osem);
        let i = b[k - 1];
        lemma_run_block_take(b, k - 1, env, asem, osem);
        let now = run_block(b.take(k), env, asem, osem);
        assert(now == block_step(old, i, asem, osem));
        // the temporaries of earlier calculations keep their values
        assert forall|n: Seq<char>| #[trigger] c.contains_key(n) implies now(n) == old(n)
            && calc_value(c[n], now) == calc_value(c[n], old)
            && (write_name(i) != Some(n)) by {
            let j = choose|j: int| 0 <= j < k - 1 && write_name(b[j]) == Some(n);
            assert(write_name(b[j]) is Some);
            assert(write_name(b[j]) != write_name(b[k - 1]));
            lemma_step_keeps(old, i, asem, osem, n);
            assert forall|q: int| 0 <= q < c[n].1.len() implies ((#[trigger] c[n].1[q]).1 matches Value::Temp(t) ==> now(t.name@) == old(t.name@)) by {
                if c[n].1[q].1 is Temp {
                    let t = c[n].1[q].1->Temp_0;
                    let p = choose|p: int| 0 <= p < k - 1 && reads_name(b[p], t.name@);
                    assert(reads_name(b[p], t.name@));
                    assert(write_name(b[k - 1]) != Some(t.name@));
                    lemma_step_keeps(old, i, asem, osem, t.name@);
                }
            }
            lemma_calc_value_frame(c[n], now, old);
        }
        if rewritten(i) {
            let a = i->Arith_0;
            let flat = flat_terms(c, a);
            let ty = arith_type_of(a.op);
            assert(!(a.lhs is Float) && !(a.rhs is Float));
            lemma_flat_value(c, a, old);
            // the flattened terms read what instruction `k - 1` and earlier ones read
            assert(read_before(flat, b, k)) by {
                let l = lhs_terms(c, a);
                let r = rhs_terms(c, a);
                assert forall|j: int| 0 <= j < flat.len() && (#[trigger] flat[j]).1 is Temp
                    implies exists|p: int| 0 <= p < k && reads_name(b[p], flat[j].1->Temp_0.name@) by {
                    if j < l.len() {
                        assert(flat[j] == l[j]);
                        if let Value::Temp(t) = a.lhs {
                            if c.contains_key(t.name@) && c[t.name@].0 == ty {
                                assert(read_before(c[t.name@].1, b, k - 1));
                                assert(c[t.name@].1[j] == l[j]);
                            } else {
                                assert(reads_name(b[k - 1], flat[j].1->Temp_0.name@));
                            }
                        }
                    } else {
                        assert(flat[j] == r[j - l.len()]);
                        if let Value::Temp(t) = a.rhs {
                            if c.contains_key(t.name@) && c[t.name@].0 == ty {
                                assert(read_before(c[t.name@].1, b, k - 1));
                                if a.op == ArithOp::Sub {
                                    assert(r[j - l.len()].1 == c[t.name@].1[j - l.len()].1);
                                } else {
                                    assert(r[j - l.len()] == c[t.name@].1[j - l.len()]);
                                }
                            } else {
                                assert(reads_name(b[k - 1], flat[j].1->Temp_0.name@));
                            }
                        }
                    }
                }
            }
            // so instruction `k - 1` does not change them
            assert(calc_value((ty, flat), now) == calc_value((ty, flat), old)) by {
                assert forall|q: int| 0 <= q < flat.len() implies ((#[trigger] flat[q]).1 matches Value::Temp(t) ==> now(t.name@) == old(t.name@)) by {
                    if flat[q].1 is Temp {
                        let t = flat[q].1->Temp_0;
                        let p = choose|p: int| 0 <= p < k && reads_name(b[p], t.name@);
                        assert(reads_name(b[p], t.name@));
                        assert(write_name(b[k - 1]) != Some(t.name@));
                        lemma_step_keeps(old, i, asem, osem, t.name@);
                    }
                }
                lemma_calc_value_frame((ty, flat), now, old);
            }
            let xv = operand(a.lhs, old);
            let yv = operand(a.rhs, old);
            assert(now(a.target.name@) == crate::rearrange::instr_result(a.op, xv, yv));
            assert(crate::rearrange::instr_result(a.op, xv, yv) == wrap32(exact_result(a.op, xv, yv)));
            lemma_wrap32(calc_value((ty, flat), old), exact_result(a.op, xv, yv));
            assert(calcs_after(b, k) == c.insert(a.target.name@, (ty, flat)));
            assert forall|n: Seq<char>| #[trigger] calcs_after(b, k).contains_key(n) implies now(n) == wrap32(calc_value(calcs_after(b, k)[n], now)) by {
                if n != a.target.name@ {
                    assert(c.contains_key(n));
                }
            }
            assert forall|n: Seq<char>| #[trigger] calcs_after(b, k).contains_key(n) implies read_before(calcs_after(b, k)[n].1, b, k)
                && exists|q: int| 0 <= q < k && write_name(b[q]) == Some(n) by {
                if n != a.target.name@ {
                    assert(c.contains_key(n));
                    let j = choose|j: int| 0 <= j < k - 1 && write_name(b[j]) == Some(n);
                    assert(read_before(c[n].1, b, k - 1));
                } else {
                    assert(write_name(b[k - 1]) == Some(n));
                }
            }
        } else {
            assert(calcs_after(b, k) == c);
            assert forall|n: Seq<char>| #[trigger] calcs_after(b, k).contains_key(n) implies read_before(calcs_after(b, k)[n].1, b, k)
                && exists|q: int| 0 <= q < k && write_name(b[q]) == Some(n) by {
                let j = choose|j: int| 0 <= j < k - 1 && write_name(b[j]) == Some(n);
                assert(read_before(c[n].1, b, k - 1));
            }
        }
    }
}

/// Arithmetic instructions as instructions of a block.
pub open spec fn arith_block(s: Seq<ArithInstr>) -> Seq<BlockInstr> {
    Seq::new(s.len(), |i: int| BlockInstr::Arith(s[i]))
}

/// Running `new` leaves every temporary that avoids the numbers from `k`
/// with the value running `old` leaves it.
pub open spec fn agrees(new: Seq<BlockInstr>, old: Seq<BlockInstr>, k: nat) -> bool {
    forall|env: spec_fn(Seq<char>) -> int, asem: spec_fn(ArithInstr, int, int) -> int, osem: spec_fn(OtherInstr, Seq<int>) -> int, n: Seq<char>|
        avoids(n, k) ==> #[trigger] run_block(new, env, asem, osem)(n) == run_block(old, env, asem, osem)(n)
}

pub proof fn lemma_run_block_append(
    a: Seq<BlockInstr>,
    b: Seq<BlockInstr>,
    env: spec_fn(Seq<char>) -> int,
    asem: spec_fn(ArithInstr, int, int) -> int,
    osem: spec_fn(OtherInstr, Seq<int>) -> int,
)
    ensures
        run_block(a + b, env, asem, osem) == run_block(b, run_block(a, env, asem, osem), asem, osem),
    decreases b.len(),
{
    if b.len() == 0 {
        assert(a + b =~= a);
    } else {
        assert((a + b).drop_last() =~= a + b.drop_last());
        assert((a + b).last() == b.last());
        lemma_run_block_append(a, b.drop_last(), env, asem, osem);
    }
}

/// `i32` additions, subtractions and multiplications run in a block as
/// they run on their own.
pub proof fn lemma_run_block_arith(
    s: Seq<ArithInstr>,
    env: spec_fn(Seq<char>) -> int,
    asem: spec_fn(ArithInstr, int, int) -> int,
    osem: spec_fn(OtherInstr, Seq<int>) -> int,
)
    requires
        forall|i: int| 0 <= i < s.len() ==> (#[trigger] s[i]).var_type == VarType::I32 && modeled_op(s[i].op),
    ensures
        run_block(arith_block(s), env, asem, osem) == run(s, env),
    decreases s.len(),
{
    if s.len() > 0 {
        assert(arith_block(s).drop_last() =~= arith_block(s.drop_last()));
        assert(arith_block(s).last() == BlockInstr::Arith(s.last()));
        assert(s.last() == s[s.len() - 1]);
        assert forall|i: int| 0 <= i < s.drop_last().len() implies (#[trigger] s.drop_last()[i]).var_type == VarType::I32
            && modeled_op(s.drop_last()[i].op) by {
            assert(s.drop_last()[i] == s[i]);
        }
        lemma_run_block_arith(s.drop_last(), env, asem, osem);
    }
}

/// Keeping an instruction that is not rewritten keeps the agreement.
pub proof fn lemma_copy_step(b: Seq<BlockInstr>, k: int, t0: nat, nb: Seq<BlockInstr>)
    requires
        block_names_avoid(b, t0),
        0 <= k < b.len(),
        agrees(nb, b.take(k), t0),
    ensures
        agrees(nb.push(b[k]), b.take(k + 1), t0),
{
    let i = b[k];
    assert forall|env: spec_fn(Seq<char>) -> int, asem: spec_fn(ArithInstr, int, int) -> int, osem: spec_fn(OtherInstr, Seq<int>) -> int, n: Seq<char>|
        avoids(n, t0) implies #[trigger] run_block(nb.push(i), env, asem, osem)(n) == run_block(b.take(k + 1), env, asem, osem)(n) by {
        let e1 = run_block(nb, env, asem, osem);
        let e2 = run_block(b.take(k), env, asem, osem);
        assert(nb.push(i).drop_last() =~= nb);
        lemma_run_block_take(b, k, env, asem, osem);
        // the operands it reads have the same values
        assert forall|v: Value| #[trigger] operand(v, e1) != operand(v, e2) implies !(v is Temp && reads_name(i, v->Temp_0.name@)) by {
            if v is Temp && reads_name(i, v->Temp_0.name@) {
                assert(avoids(v->Temp_0.name@, t0));
                assert(e1(v->Temp_0.name@) == e2(v->Temp_0.name@));
            }
        }
        match i {
            BlockInstr::Arith(a) => {
                if a.lhs is Temp {
                    assert(reads_name(i, a.lhs->Temp_0.name@));
                }
                if a.rhs is Temp {
                    assert(reads_name(i, a.rhs->Temp_0.name@));
                }
                assert(operand(a.lhs, e1) == operand(a.lhs, e2));
                assert(operand(a.rhs, e1) == operand(a.rhs, e2));
            },
            BlockInstr::Other(o) => {
                let s1 = Seq::new(o.reads@.len(), |j: int| operand(o.reads@[j], e1));
                let s2 = Seq::new(o.reads@.len(), |j: int| operand(o.reads@[j], e2));
                assert forall|j: int| 0 <= j < o.reads@.len() implies s1[j] == s2[j] by {
                    if o.reads@[j] is Temp {
                        assert(names(o.reads@[j], o.reads@[j]->Temp_0.name@));
                        assert(reads_name(i, o.reads@[j]->Temp_0.name@));
                    }
                }
                assert(s1 =~= s2);
            },
        }
    }
}

/// Replacing a rewritten instruction by code that leaves in its target the
/// `i32` of its flattened terms, through fresh temporaries numbered from
/// `counter` on, keeps the agreement.
pub proof fn lemma_rewrite_step(b: Seq<BlockInstr>, k: int, t0: nat, counter: nat, nb: Seq<BlockInstr>, em: Seq<ArithInstr>)
    requires
        block_ssa(b),
        no_float_operands(b),
        block_names_avoid(b, t0),
        0 <= k < b.len(),
        rewritten(b[k]),
        t0 <= counter,
        agrees(nb, b.take(k), t0),
        em.len() >= 1,
        fresh_writes(em.drop_last(), counter, VarType::I32),
        em.last().target == b[k]->Arith_0.target,
        em.last().var_type == VarType::I32,
        modeled_op(em.last().op),
        terms_avoid(flat_terms(calcs_after(b, k), b[k]->Arith_0), counter) ==> forall|env: spec_fn(Seq<char>) -> int|
            #[trigger] run(em, env)(b[k]->Arith_0.target.name@)
                == wrap32(calc_value((arith_type_of(b[k]->Arith_0.op), flat_terms(calcs_after(b, k), b[k]->Arith_0)), env)),
    ensures
        agrees(nb + arith_block(em), b.take(k + 1), t0),
{
    let a = b[k]->Arith_0;
    let c = calcs_after(b, k);
    let flat = flat_terms(c, a);
    let ty = arith_type_of(a.op);
    let tn = a.target.name@;
    lemma_calcs_ok(b, k);
    assert(!(a.lhs is Float) && !(a.rhs is Float));
    assert forall|q: int| 0 <= q < em.len() implies (#[trigger] em[q]).var_type == VarType::I32 && modeled_op(em[q].op) by {
        if q < em.len() - 1 {
            assert(em[q] == em.drop_last()[q]);
        }
    }
    // the temporaries of the flattened terms avoid the fresh numbers
    assert(forall|q: int| 0 <= q < flat.len() && (#[trigger] flat[q]).1 is Temp ==> avoids(flat[q].1->Temp_0.name@, t0)) by {
        let env0 = |n: Seq<char>| 0int;
        let asem0 = |a: ArithInstr, x: int, y: int| 0int;
        let osem0 = |o: OtherInstr, v: Seq<int>| 0int;
        lemma_old_calcs(b, k + 1, env0, asem0, osem0);
        assert(calcs_after(b, k + 1) == c.insert(tn, (ty, flat)));
        assert(calcs_after(b, k + 1).contains_key(tn));
        assert forall|q: int| 0 <= q < flat.len() && (#[trigger] flat[q]).1 is Temp implies avoids(flat[q].1->Temp_0.name@, t0) by {
            assert(read_before(flat, b, k + 1));
            let p = choose|p: int| 0 <= p < k + 1 && reads_name(b[p], flat[q].1->Temp_0.name@);
            assert(reads_name(b[p], flat[q].1->Temp_0.name@));
        }
    }
    assert(terms_avoid(flat, counter)) by {
        assert forall|q: int| 0 <= q < flat.len() implies ((#[trigger] flat[q]).1 matches Value::Temp(t) ==> avoids(t.name@, counter)) by {
            if flat[q].1 is Temp {
                lemma_avoids_mono(flat[q].1->Temp_0.name@, t0, counter);
            }
        }
    }
    assert(write_name(b[k]) == Some(tn));
    assert(avoids(tn, t0));
    assert forall|env: spec_fn(Seq<char>) -> int, asem: spec_fn(ArithInstr, int, int) -> int, osem: spec_fn(OtherInstr, Seq<int>) -> int, n: Seq<char>|
        avoids(n, t0) implies #[trigger] run_block(nb + arith_block(em), env, asem, osem)(n) == run_block(b.take(k + 1), env, asem, osem)(n) by {
        let e1 = run_block(nb, env, asem, osem);
        let e2 = run_block(b.take(k), env, asem, osem);
        lemma_run_block_append(nb, arith_block(em), env, asem, osem);
        lemma_run_block_arith(em, e1, asem, osem);
        lemma_run_block_take(b, k, env, asem, osem);
        let after = run(em, e1);
        assert(run_block(nb + arith_block(em), env, asem, osem) == after);
        if n == tn {
            lemma_old_calcs(b, k, env, asem, osem);
            lemma_flat_value(c, a, e2);
            // the flattened terms have the same values before the new code as before the old instruction
            assert forall|q: int| 0 <= q < flat.len() implies ((#[trigger] flat[q]).1 matches Value::Temp(t) ==> e1(t.name@) == e2(t.name@)) by {
                if flat[q].1 is Temp {
                    assert(avoids(flat[q].1->Temp_0.name@, t0));
                }
            }
            lemma_calc_value_frame((ty, flat), e1, e2);
            let x = operand(a.lhs, e2);
            let y = operand(a.rhs, e2);
            assert(after(tn) == wrap32(calc_value((ty, flat), e1)));
            lemma_wrap32(calc_value((ty, flat), e2), exact_result(a.op, x, y));
            assert(run_block(b.take(k + 1), env, asem, osem)(tn) == crate::rearrange::instr_result(a.op, x, y));
        } else {
            assert(em =~= em.drop_last().push(em.last()));
            assert(em.drop_last().push(em.last()).drop_last() =~= em.drop_last());
            assert(after == step(run(em.drop_last(), e1), em.last()));
            lemma_fresh_agree(em.drop_last(), counter, e1);
            lemma_avoids_mono(n, t0, counter);
            assert(after(n) == e1(n));
            lemma_step_keeps(e2, b[k], asem, osem, n);
        }
    }
}

/// Where the recorded calculation named `name` stands.
fn find_calc(calcs: &Vec<(String, ArithType, Vec<(ArithOp, Value)>)>, name: &String) -> (r: Option<usize>)
    ensures
        r matches Some(i) ==> i < calcs@.len() && calcs@[i as int].0@ == name@,
        r is None ==> forall|i: int| 0 <= i < calcs@.len() ==> (#[trigger] calcs@[i]).0@ != name@,
{
    let mut i: usize = 0;
    while i < calcs.len()
        invariant
            i <= calcs@.len(),
            forall|j: int| 0 <= j < i ==> (#[trigger] calcs@[j]).0@ != name@,
        decreases calcs.len() - i,
    {
        if calcs[i].0 == *name {
            return Some(i);
        }
        i = i + 1;
    }
    None
}

/// A copy of a list of terms.
fn dup_terms(s: &Vec<(ArithOp, Value)>) -> (r: Vec<(ArithOp, Value)>)
    ensures
        r@ == s@,
{
    let mut out: Vec<(ArithOp, Value)> = Vec::new();
    let mut i: usize = 0;
    while i < s.len()
        invariant
            i <= s@.len(),
            out@ == s@.take(i as int),
        decreases s.len() - i,
    {
        let e = (s[i].0, dup_value(&s[i].1));
        out.push(e);
        proof {
            assert(s@.take(i + 1) =~= s@.take(i as int).push(s@[i as int]));
        }
        i = i + 1;
    }
    proof {
        assert(s@.take(s@.len() as int) =~= s@);
    }
    out
}

/// The recorded calculations, by name, hold `c`.
pub open spec fn calcs_hold(calcs: Seq<(String, ArithType, Vec<(ArithOp, Value)>)>, c: Calcs) -> bool {
    &&& forall|i: int, j: int| 0 <= i < j < calcs.len() ==> (#[trigger] calcs[i]).0@ != (#[trigger] calcs[j]).0@
    &&& forall|n: Seq<char>| #[trigger] c.contains_key(n) <==> exists|i: int| 0 <= i < calcs.len() && calcs[i].0@ == n
    &&& forall|i: int| 0 <= i < calcs.len() ==> c[(#[trigger] calcs[i]).0@] == (calcs[i].1, calcs[i].2@)
}

/// Calculations of each kind are well formed: a sum adds or subtracts
/// non-float operands, a product multiplies them.
pub open spec fn calc_ok(e: (ArithType, Seq<(ArithOp, Value)>)) -> bool {
    &&& e.0 == ArithType::Addicative ==> terms_ok(e.1)
    &&& e.0 == ArithType::Multiplitive ==> factors_ok(e.1)
}

pub open spec fn calcs_ok(c: Calcs) -> bool {
    forall|n: Seq<char>| #[trigger] c.contains_key(n) ==> calc_ok(c[n])
}

/// The flattened terms of a rewritten instruction are well formed.
pub proof fn lemma_flat_terms_ok(c: Calcs, a: ArithInstr)
    requires
        calcs_ok(c),
        modeled_op(a.op),
        !(a.lhs is Float),
        !(a.rhs is Float),
    ensures
        calc_ok((arith_type_of(a.op), flat_terms(c, a))),
{
    let l = lhs_terms(c, a);
    let r = rhs_terms(c, a);
    let f = flat_terms(c, a);
    if let Value::Temp(t) = a.rhs {
        if c.contains_key(t.name@) && c[t.name@].0 == arith_type_of(a.op) && a.op == ArithOp::Sub {
            assert(calc_ok(c[t.name@]));
            assert(terms_ok(r));
        }
    }
    if let Value::Temp(t) = a.lhs {
        if c.contains_key(t.name@) && c[t.name@].0 == arith_type_of(a.op) {
            assert(calc_ok(c[t.name@]));
        }
    }
    if a.op == ArithOp::Mul {
        assert forall|i: int| 0 <= i < f.len() implies (#[trigger] f[i]).0 == ArithOp::Mul && !(f[i].1 is Float) by {
            if i < l.len() {
                assert(f[i] == l[i]);
            } else {
                assert(f[i] == r[i - l.len()]);
            }
        }
    } else {
        assert forall|i: int| 0 <= i < f.len() implies ((#[trigger] f[i]).0 == ArithOp::Add || f[i].0 == ArithOp::Sub)
            && !(f[i].1 is Float) by {
            if i < l.len() {
                assert(f[i] == l[i]);
            } else {
                assert(f[i] == r[i - l.len()]);
            }
        }
    }
}

/// The recorded calculations are well formed.
pub proof fn lemma_calcs_ok(b: Seq<BlockInstr>, k: int)
    requires
        no_float_operands(b),
    ensures
        calcs_ok(calcs_after(b, k)),
    decreases k,
{
    if 0 < k <= b.len() {
        lemma_calcs_ok(b, k - 1);
        let c = calcs_after(b, k - 1);
        if rewritten(b[k - 1]) {
            let a = b[k - 1]->Arith_0;
            lemma_flat_terms_ok(c, a);
        }
    }
}

/// A copy of the recorded calculation named `name`, where it is of the
/// kind `arith_type`.
fn lookup_terms(
    calcs: &Vec<(String, ArithType, Vec<(ArithOp, Value)>)>,
    name: &String,
    arith_type: ArithType,
    Ghost(c): Ghost<Calcs>,
) -> (r: Option<Vec<(ArithOp, Value)>>)
    requires
        calcs_hold(calcs@, c),
    ensures
        r is Some <==> (c.contains_key(name@) && c[name@].0 == arith_type),
        r matches Some(l) ==> l@ == c[name@].1,
{
    match find_calc(calcs, name) {
        Some(i) => {
            proof {
                assert(c.contains_key(calcs@[i as int].0@));
            }
            if calcs[i].1 == arith_type {
                Some(dup_terms(&calcs[i].2))
            } else {
                None
            }
        },
        None => {
            proof {
                if c.contains_key(name@) {
                    let i = choose|i: int| 0 <= i < calcs@.len() && calcs@[i].0@ == name@;
                    assert(calcs@[i].0@ != name@);
                }
            }
            None
        },
    }
}

/// Records (or replaces) the calculation named `name`.
fn record_calc(
    calcs: &mut Vec<(String, ArithType, Vec<(ArithOp, Value)>)>,
    name: String,
    arith_type: ArithType,
    terms: Vec<(ArithOp, Value)>,
    Ghost(c): Ghost<Calcs>,
)
    requires
        calcs_hold(old(calcs)@, c),
    ensures
        calcs_hold(final(calcs)@, c.insert(name@, (arith_type, terms@))),
{
    let ghost nm = name@;
    let ghost tm = terms@;
    let ghost c2 = c.insert(nm, (arith_type, tm));
    match find_calc(calcs, &name) {
        Some(i) => {
            let ghost old_calcs = calcs@;
            calcs.set(i, (name, arith_type, terms));
            proof {
                assert forall|n: Seq<char>| #[trigger] c2.contains_key(n) <==> exists|j: int| 0 <= j < calcs@.len() && calcs@[j].0@ == n by {
                    if n == nm {
                        assert(calcs@[i as int].0@ == n);
                    } else if c.contains_key(n) {
                        let j = choose|j: int| 0 <= j < old_calcs.len() && old_calcs[j].0@ == n;
                        assert(calcs@[j].0@ == n);
                    } else {
                        if exists|j: int| 0 <= j < calcs@.len() && calcs@[j].0@ == n {
                            let j = choose|j: int| 0 <= j < calcs@.len() && calcs@[j].0@ == n;
                            assert(j != i);
                            assert(old_calcs[j].0@ == n);
                        }
                    }
                }
                assert forall|j: int| 0 <= j < calcs@.len() implies c2[(#[trigger] calcs@[j]).0@] == (calcs@[j].1, calcs@[j].2@) by {
                    if j != i {
                        assert(calcs@[j] == old_calcs[j]);
                        assert(old_calcs[j].0@ != nm);
                    }
                }
            }
        },
        None => {
            let ghost old_calcs = calcs@;
            calcs.push((name, arith_type, terms));
            proof {
                assert forall|n: Seq<char>| #[trigger] c2.contains_key(n) <==> exists|j: int| 0 <= j < calcs@.len() && calcs@[j].0@ == n by {
                    if n == nm {
                        assert(calcs@[old_calcs.len() as int].0@ == n);
                    } else if c.contains_key(n) {
                        let j = choose|j: int| 0 <= j < old_calcs.len() && old_calcs[j].0@ == n;
                        assert(calcs@[j].0@ == n);
                    } else {
                        if exists|j: int| 0 <= j < calcs@.len() && calcs@[j].0@ == n {
                            let j = choose|j: int| 0 <= j < calcs@.len() && calcs@[j].0@ == n;
                            assert(j < old_calcs.len());
                            assert(old_calcs[j].0@ == n);
                        }
                    }
                }
                assert forall|j: int| 0 <= j < calcs@.len() implies c2[(#[trigger] calcs@[j]).0@] == (calcs@[j].1, calcs@[j].2@) by {
                    if j < old_calcs.len() {
                        assert(calcs@[j] == old_calcs[j]);
                        assert(old_calcs[j].0@ != nm);
                    }
                }
                assert forall|i: int, j: int| 0 <= i < j < calcs@.len() implies (#[trigger] calcs@[i]).0@ != (#[trigger] calcs@[j]).0@ by {
                    if j < old_calcs.len() {
                        assert(calcs@[i] == old_calcs[i]);
                        assert(calcs@[j] == old_calcs[j]);
                    } else {
                        assert(calcs@[i] == old_calcs[i]);
                    }
                }
            }
        },
    }
}

/// Rewrites the `i32` additions, subtractions and multiplications of one
/// basic block: each is flattened into the terms of the calculation it
/// completes within the block (an operand computed earlier in the block by
/// an operation of the same kind contributes that operation's terms), and
/// replaced by the balanced tree `add_expression_tree` builds for them,
/// through fresh temporaries numbered from `temp_counter` on. Other
/// instructions are kept. Gives the block and the next unused number.
pub fn rearrange_block(block: Vec<BlockInstr>, temp_counter: u32) -> (r: (Vec<BlockInstr>, u32))
    requires
        no_float_operands(block@),
        temp_counter as int + terms_needed(block@, block@.len() as int) <= u32::MAX,
    ensures
        temp_counter <= r.1,
        r.1 as int <= temp_counter as int + terms_needed(block@, block@.len() as int),
        block_ssa(block@) && block_names_avoid(block@, temp_counter as nat) ==> agrees(r.0@, block@, temp_counter as nat),
{
    let ghost b = block@;
    let ghost t0 = temp_counter;
    let ghost ok = block_ssa(b) && block_names_avoid(b, t0 as nat);
    let mut calcs: Vec<(String, ArithType, Vec<(ArithOp, Value)>)> = Vec::new();
    let mut counter = temp_counter;
    let mut new_instr: Vec<BlockInstr> = Vec::new();
    let mut src = block;
    let ghost mut k: int = 0;
    proof {
        assert(b.subrange(0, b.len() as int) =~= b);
        assert(calcs_after(b, 0) == Map::<Seq<char>, (ArithType, Seq<(ArithOp, Value)>)>::empty());
        assert(b.take(0) =~= Seq::<BlockInstr>::empty());
        assert(new_instr@ =~= Seq::<BlockInstr>::empty());
    }
    while src.len() > 0
        invariant
            0 <= k <= b.len(),
            src@ == b.subrange(k, b.len() as int),
            calcs_hold(calcs@, calcs_after(b, k)),
            t0 <= counter,
            counter as int <= t0 + terms_needed(b, k),
            t0 + terms_needed(b, b.len() as int) <= u32::MAX,
            no_float_operands(b),
            ok == (block_ssa(b) && block_names_avoid(b, t0 as nat)),
            ok ==> agrees(new_instr@, b.take(k), t0 as nat),
        decreases src.len(),
    {
        let ghost c = calcs_after(b, k);
        let ghost nb = new_instr@;
        let instr = src.remove(0);
        proof {
            assert(instr == b[k]);
            assert(src@ =~= b.subrange(k + 1, b.len() as int));
            lemma_terms_needed_mono(b, k + 1, b.len() as int);
            lemma_calcs_ok(b, k);
        }
        match instr {
            BlockInstr::Arith(arith) => {
                if arith.var_type == VarType::I32 && (arith.op == ArithOp::Mul || arith.op == ArithOp::Add || arith.op == ArithOp::Sub) {
                    let ghost ga = arith;
                    let arith_type = get_arith_type(&arith.op);
                    let neg = arith.op == ArithOp::Sub;
                    let mut to_insert: Vec<(ArithOp, Value)> = Vec::new();
                    let lhs_found = match &arith.lhs {
                        Value::Temp(t) => lookup_terms(&calcs, &t.name, arith_type, Ghost(c)),
                        _ => None,
                    };
                    match lhs_found {
                        Some(l) => {
                            let mut l = l;
                            to_insert.append(&mut l);
                        },
                        None => {
                            to_insert.push((get_op_for_lhs(arith.op), dup_value(&arith.lhs)));
                        },
                    }
                    let ghost lpart = to_insert@;
                    proof {
                        assert(lpart =~= lhs_terms(c, ga));
                    }
                    let rhs_found = match &arith.rhs {
                        Value::Temp(t) => lookup_terms(&calcs, &t.name, arith_type, Ghost(c)),
                        _ => None,
                    };
                    match rhs_found {
                        Some(l) => {
                            if neg {
                                let mut i: usize = 0;
                                while i < l.len()
                                    invariant
                                        i <= l@.len(),
                                        to_insert@ == lpart + negated(l@).take(i as int),
                                    decreases l.len() - i,
                                {
                                    let item = (get_neg(l[i].0), dup_value(&l[i].1));
                                    to_insert.push(item);
                                    proof {
                                        assert(negated(l@).take(i + 1) =~= negated(l@).take(i as int).push(item));
                                    }
                                    i = i + 1;
                                }
                                proof {
                                    assert(negated(l@).take(l@.len() as int) =~= negated(l@));
                                }
                            } else {
                                let mut l = l;
                                to_insert.append(&mut l);
                            }
                        },
                        None => {
                            to_insert.push((arith.op, dup_value(&arith.rhs)));
                        },
                    }
                    proof {
                        assert(to_insert@ =~= flat_terms(c, ga));
                        lemma_flat_terms_ok(c, ga);
                    }
                    let mut emitted: Vec<ArithInstr> = Vec::new();
                    let ghost cb = counter;
                    counter = add_expression_tree(counter, &mut emitted, arith.target.dup(), arith.var_type, arith_type, &to_insert);
                    let ghost em = emitted@;
                    proof {
                        assert(emitted@.subrange(0, 0) =~= Seq::<ArithInstr>::empty());
                        assert(appended(Seq::<ArithInstr>::empty(), emitted@) =~= em);
                        if ok {
                            lemma_rewrite_step(b, k, t0 as nat, cb as nat, nb, em);
                        }
                    }
                    let ghost mut moved: int = 0;
                    while emitted.len() > 0
                        invariant
                            0 <= moved <= em.len(),
                            emitted@ == em.subrange(moved, em.len() as int),
                            new_instr@ == nb + arith_block(em.take(moved)),
                        decreases emitted.len(),
                    {
                        let e = emitted.remove(0);
                        new_instr.push(BlockInstr::Arith(e));
                        proof {
                            assert(e == em[moved]);
                            assert(emitted@ =~= em.subrange(moved + 1, em.len() as int));
                            assert(arith_block(em.take(moved + 1)) =~= arith_block(em.take(moved)).push(BlockInstr::Arith(e)));
                            moved = moved + 1;
                        }
                    }
                    proof {
                        assert(em.take(moved) =~= em);
                    }
                    record_calc(&mut calcs, arith.target.name.clone(), arith_type, to_insert, Ghost(c));
                } else {
                    new_instr.push(BlockInstr::Arith(arith));
                    proof {
                        if ok {
                            lemma_copy_step(b, k, t0 as nat, nb);
                        }
                    }
                }
            },
            other => {
                new_instr.push(other);
                proof {
                    if ok {
                        lemma_copy_step(b, k, t0 as nat, nb);
                    }
                }
            },
        }
        proof {
            k = k + 1;
        }
    }
    proof {
        assert(b.take(b.len() as int) =~= b);
    }
    (new_instr, counter)
}

/// Agreement on the temporaries that avoid the numbers from `k2` gives
/// agreement on those that avoid the numbers from any `k1 <= k2`.
pub proof fn lemma_agrees_mono(new: Seq<BlockInstr>, old: Seq<BlockInstr>, k1: nat, k2: nat)
    requires
        agrees(new, old, k2),
        k1 <= k2,
    ensures
        agrees(new, old, k1),
{
    assert forall|env: spec_fn(Seq<char>) -> int, asem: spec_fn(ArithInstr, int, int) -> int, osem: spec_fn(OtherInstr, Seq<int>) -> int, n: Seq<char>|
        avoids(n, k1) implies #[trigger] run_block(new, env, asem, osem)(n) == run_block(old, env, asem, osem)(n) by {
        lemma_avoids_mono(n, k1, k2);
    }
}

pub proof fn lemma_names_avoid_mono(b: Seq<BlockInstr>, k1: nat, k2: nat)
    requires
        block_names_avoid(b, k1),
        k1 <= k2,
    ensures
        block_names_avoid(b, k2),
{
    assert forall|i: int, n: Seq<char>| 0 <= i < b.len() && #[trigger] reads_name(b[i], n) implies avoids(n, k2) by {
        lemma_avoids_mono(n, k1, k2);
    }
    assert forall|i: int| 0 <= i < b.len() && (#[trigger] write_name(b[i])) is Some implies avoids(write_name(b[i])->0, k2) by {
        lemma_avoids_mono(write_name(b[i])->0, k1, k2);
    }
}

/// The terms the blocks of a control-flow graph need, in all.
pub open spec fn blocks_terms_needed(blocks: Seq<Vec<BlockInstr>>) -> int
    decreases blocks.len(),
{
    if blocks.len() == 0 {
        0
    } else {
        blocks_terms_needed(blocks.drop_last()) + terms_needed(blocks.last()@, blocks.last()@.len() as int)
    }
}

pub proof fn lemma_blocks_terms_needed_nonneg(blocks: Seq<Vec<BlockInstr>>)
    ensures
        blocks_terms_needed(blocks) >= 0,
    decreases blocks.len(),
{
    if blocks.len() > 0 {
        lemma_blocks_terms_needed_nonneg(blocks.drop_last());
        let b = blocks.last()@;
        lemma_terms_needed_nonneg(b, b.len() as int);
    }
}

pub proof fn lemma_terms_needed_nonneg(b: Seq<BlockInstr>, k: int)
    ensures
        terms_needed(b, k) >= 0,
    decreases k,
{
    if 0 < k <= b.len() {
        lemma_terms_needed_nonneg(b, k - 1);
    }
}

/// What the pass needs of every block: no float literal among the operands
/// it rewrites.
pub open spec fn blocks_no_float(blocks: Seq<Vec<BlockInstr>>) -> bool {
    forall|i: int| 0 <= i < blocks.len() ==> no_float_operands(#[trigger] blocks[i]@)
}

/// Rewrites every block of a control-flow graph (`rearrange_block`), the
/// fresh temporaries numbered on from `next_temp` across the blocks. Gives
/// `false` (the pass does not report a change) and the next unused number.
pub fn solve(blocks: &mut Vec<Vec<BlockInstr>>, next_temp: u32) -> (r: (bool, u32))
    requires
        blocks_no_float(old(blocks)@),
        next_temp as int + blocks_terms_needed(old(blocks)@) <= u32::MAX,
    ensures
        !r.0,
        next_temp <= r.1,
        r.1 as int <= next_temp as int + blocks_terms_needed(old(blocks)@),
        final(blocks)@.len() == old(blocks)@.len(),
        forall|i: int| 0 <= i < old(blocks)@.len() && block_ssa(#[trigger] old(blocks)@[i]@)
            && block_names_avoid(old(blocks)@[i]@, next_temp as nat) ==> agrees(final(blocks)@[i]@, old(blocks)@[i]@, next_temp as nat),
{
    let ghost ob = blocks@;
    let mut temp_counter = next_temp;
    let mut i: usize = 0;
    proof {
        lemma_blocks_terms_needed_nonneg(ob);
        assert(ob.take(0) =~= Seq::<Vec<BlockInstr>>::empty());
    }
    while i < blocks.len()
        invariant
            i <= blocks@.len(),
            blocks@.len() == ob.len(),
            forall|j: int| i <= j < ob.len() ==> #[trigger] blocks@[j] == ob[j],
            blocks_no_float(ob),
            next_temp <= temp_counter,
            temp_counter as int <= next_temp as int + blocks_terms_needed(ob.take(i as int)),
            next_temp as int + blocks_terms_needed(ob) <= u32::MAX,
            forall|j: int| 0 <= j < i && block_ssa(#[trigger] ob[j]@) && block_names_avoid(ob[j]@, next_temp as nat)
                ==> agrees(blocks@[j]@, ob[j]@, next_temp as nat),
        decreases blocks.len() - i,
    {
        let mut block: Vec<BlockInstr> = Vec::new();
        std::mem::swap(&mut block, &mut blocks[i]);
        let ghost bi = block@;
        proof {
            assert(bi == ob[i as int]@);
            assert(ob.take(i + 1).drop_last() =~= ob.take(i as int));
            assert(ob.take(i + 1).last() == ob[i as int]);
            lemma_blocks_terms_needed_prefix(ob, i as int + 1);
            lemma_terms_needed_nonneg(bi, bi.len() as int);
        }
        let (new_block, counter) = rearrange_block(block, temp_counter);
        proof {
            if block_ssa(bi) && block_names_avoid(bi, next_temp as nat) {
                lemma_names_avoid_mono(bi, next_temp as nat, temp_counter as nat);
                lemma_agrees_mono(new_block@, bi, next_temp as nat, temp_counter as nat);
            }
        }
        blocks.set(i, new_block);
        temp_counter = counter;
        i = i + 1;
    }
    proof {
        assert(ob.take(ob.len() as int) =~= ob);
    }
    (false, temp_counter)
}

/// The terms of a prefix of the blocks are no more than those of all.
pub proof fn lemma_blocks_terms_needed_prefix(blocks: Seq<Vec<BlockInstr>>, k: int)
    requires
        0 <= k <= blocks.len(),
    ensures
        blocks_terms_needed(blocks.take(k)) <= blocks_terms_needed(blocks),
    decreases blocks.len() - k,
{
    if k < blocks.len() {
        lemma_blocks_terms_needed_prefix(blocks, k + 1);
        assert(blocks.take(k + 1).drop_last() =~= blocks.take(k));
        let b = blocks[k]@;
        lemma_terms_needed_nonneg(b, b.len() as int);
    } else {
        assert(blocks.take(k) =~= blocks);
    }
}

/// A function of the program: the basic blocks of its control-flow graph.
pub struct BlockFunc {
    pub blocks: Vec<Vec<BlockInstr>>,
}

/// A program: its functions and the number of its next fresh temporary.
pub struct BlockProgram {
    pub funcs: Vec<BlockFunc>,
    pub next_temp: u32,
}

/// The terms all functions of a program need.
pub open spec fn funcs_terms_needed(funcs: Seq<BlockFunc>) -> int
    decreases funcs.len(),
{
    if funcs.len() == 0 {
        0
    } else {
        funcs_terms_needed(funcs.drop_last()) + blocks_terms_needed(funcs.last().blocks@)
    }
}

pub proof fn lemma_funcs_terms_needed_nonneg(funcs: Seq<BlockFunc>)
    ensures
        funcs_terms_needed(funcs) >= 0,
    decreases funcs.len(),
{
    if funcs.len() > 0 {
        lemma_funcs_terms_needed_nonneg(funcs.drop_last());
        lemma_blocks_terms_needed_nonneg(funcs.last().blocks@);
    }
}

pub proof fn lemma_funcs_terms_needed_prefix(funcs: Seq<BlockFunc>, k: int)
    requires
        0 <= k <= funcs.len(),
    ensures
        funcs_terms_needed(funcs.take(k)) <= funcs_terms_needed(funcs),
    decreases funcs.len() - k,
{
    if k < funcs.len() {
        lemma_funcs_terms_needed_prefix(funcs, k + 1);
        assert(funcs.take(k + 1).drop_last() =~= funcs.take(k));
        lemma_blocks_terms_needed_nonneg(funcs[k].blocks@);
    } else {
        assert(funcs.take(k) =~= funcs);
    }
}

/// The local expression rearrangement pass.
pub struct LocalExpressionRearrangement {}

impl LocalExpressionRearrangement {
    pub fn new() -> (r: Self)
        ensures
            r == (LocalExpressionRearrangement {}),
    {
        LocalExpressionRearrangement {}
    }

    /// Rearranges the calculations of every block of every function
    /// (`solve`), numbering the fresh temporaries on from the program's
    /// next number, which it advances. Reports no change.
    pub fn apply(self, program: &mut BlockProgram) -> (r: bool)
        requires
            forall|f: int| 0 <= f < old(program).funcs@.len() ==> blocks_no_float(#[trigger] old(program).funcs@[f].blocks@),
            old(program).next_temp as int + funcs_terms_needed(old(program).funcs@) <= u32::MAX,
        ensures
            !r,
            old(program).next_temp <= final(program).next_temp,
            final(program).next_temp as int <= old(program).next_temp as int + funcs_terms_needed(old(program).funcs@),
            final(program).funcs@.len() == old(program).funcs@.len(),
            forall|f: int| 0 <= f < old(program).funcs@.len()
                ==> (#[trigger] final(program).funcs@[f]).blocks@.len() == old(program).funcs@[f].blocks@.len(),
            forall|f: int, i: int| 0 <= f < old(program).funcs@.len() && 0 <= i < old(program).funcs@[f].blocks@.len()
                && block_ssa(#[trigger] old(program).funcs@[f].blocks@[i]@)
                && block_names_avoid(old(program).funcs@[f].blocks@[i]@, old(program).next_temp as nat)
                ==> agrees(final(program).funcs@[f].blocks@[i]@, old(program).funcs@[f].blocks@[i]@, old(program).next_temp as nat),
    {
        let ghost of = program.funcs@;
        let ghost t0 = program.next_temp;
        let mut valid = false;
        let mut f: usize = 0;
        proof {
            lemma_funcs_terms_needed_nonneg(of);
            assert(of.take(0) =~= Seq::<BlockFunc>::empty());
        }
        while f < program.funcs.len()
            invariant
                f <= program.funcs@.len(),
                program.funcs@.len() == of.len(),
                forall|j: int| f <= j < of.len() ==> #[trigger] program.funcs@[j] == of[j],
                forall|j: int| 0 <= j < of.len() ==> blocks_no_float(#[trigger] of[j].blocks@),
                t0 <= program.next_temp,
                program.next_temp as int <= t0 as int + funcs_terms_needed(of.take(f as int)),
                t0 as int + funcs_terms_needed(of) <= u32::MAX,
                !valid,
                forall|j: int| 0 <= j < f ==> (#[trigger] program.funcs@[j]).blocks@.len() == of[j].blocks@.len(),
                forall|j: int, i: int| 0 <= j < f && 0 <= i < of[j].blocks@.len()
                    && block_ssa(#[trigger] of[j].blocks@[i]@) && block_names_avoid(of[j].blocks@[i]@, t0 as nat)
                    ==> agrees(program.funcs@[j].blocks@[i]@, of[j].blocks@[i]@, t0 as nat),
            decreases program.funcs.len() - f,
        {
            let mut func = BlockFunc { blocks: Vec::new() };
            std::mem::swap(&mut func, &mut program.funcs[f]);
            let ghost fb = func.blocks@;
            let ghost tb = program.next_temp;
            proof {
                assert(fb == of[f as int].blocks@);
                assert(of.take(f + 1).drop_last() =~= of.take(f as int));
                assert(of.take(f + 1).last() == of[f as int]);
                lemma_funcs_terms_needed_prefix(of, f as int + 1);
                lemma_blocks_terms_needed_nonneg(fb);
            }
            let (changed, tmp_count) = solve(&mut func.blocks, program.next_temp);
            proof {
                assert forall|i: int| 0 <= i < fb.len() && block_ssa(#[trigger] fb[i]@) && block_names_avoid(fb[i]@, t0 as nat)
                    implies agrees(func.blocks@[i]@, fb[i]@, t0 as nat) by {
                    lemma_names_avoid_mono(fb[i]@, t0 as nat, tb as nat);
                    lemma_agrees_mono(func.blocks@[i]@, fb[i]@, t0 as nat, tb as nat);
                }
            }
            let ghost pf = program.funcs@;
            let ghost nf = func;
            program.funcs.set(f, func);
            program.next_temp = tmp_count;
            valid = changed;
            proof {
                assert(program.funcs@ == pf.update(f as int, nf));
                assert forall|j: int| 0 <= j < f + 1 implies (#[trigger] program.funcs@[j]).blocks@.len() == of[j].blocks@.len() by {
                    if j < f {
                        assert(program.funcs@[j] == pf[j]);
                    }
                }
                assert forall|j: int, i: int| 0 <= j < f + 1 && 0 <= i < of[j].blocks@.len()
                    && block_ssa(#[trigger] of[j].blocks@[i]@) && block_names_avoid(of[j].blocks@[i]@, t0 as nat)
                    implies agrees(program.funcs@[j].blocks@[i]@, of[j].blocks@[i]@, t0 as nat) by {
                    if j < f {
                        assert(program.funcs@[j] == pf[j]);
                    } else {
                        assert(program.funcs@[j] == nf);
                        assert(of[j].blocks@ == fb);
                    }
                }
            }
            f = f + 1;
        }
        proof {
            assert(of.take(of.len() as int) =~= of);
        }
        valid
    }
}

} // verus!
