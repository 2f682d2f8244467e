use vstd::prelude::*;
use crate::calc_coef::{dup_value, value_eq, value_same};
use crate::compute_graph::{LlvmTemp, Value, VarType};
use crate::ir_ops::{ArithOp, CompOp};
use crate::rearrange::{decimal, lemma_decimal_injective, number_name, ArithInstr};
use crate::rearrange::{modeled_op, operand};
use crate::rearrange_block::{block_ssa, block_step, run_block, write_name, BlockInstr, ConvertOp, OtherInstr, OtherKind};
use crate::simplify::{has_name, names_of};

verus! {

/// What an `i32` instruction of a select stores: wrapping addition and
/// subtraction, and bitwise and.
pub open spec fn select_op(op: ArithOp, a: i32, b: i32) -> i32 {
    match op {
        ArithOp::Add => (a + b) as i32,
        ArithOp::Sub => (a - b) as i32,
        ArithOp::And => a & b,
        _ => 0,
    }
}

/// The `i32` value of an operand when each temporary named `n` holds `env(n)`.
pub open spec fn value_i32(v: Value, env: spec_fn(Seq<char>) -> i32) -> i32 {
    match v {
        Value::Int(i) => i,
        Value::Temp(t) => env(t.name@),
        Value::Float(_) => 0,
    }
}

/// The values after one instruction.
pub open spec fn select_step(env: spec_fn(Seq<char>) -> i32, i: ArithInstr) -> spec_fn(Seq<char>) -> i32 {
    |n: Seq<char>| if n == i.target.name@ {
        select_op(i.op, value_i32(i.lhs, env), value_i32(i.rhs, env))
    } else {
        env(n)
    }
}

/// The values after running a list of instructions in order.
pub open spec fn select_run(s: Seq<ArithInstr>, env: spec_fn(Seq<char>) -> i32) -> spec_fn(Seq<char>) -> i32
    decreases s.len(),
{
    if s.len() == 0 {
        env
    } else {
        select_step(select_run(s.drop_last(), env), s.last())
    }
}

/// `a` where `c` is one and `b` where it is zero, by masking the
/// difference: `b + ((a - b) & (0 - c))`.
pub open spec fn masked_select(a: i32, b: i32, c: i32) -> i32 {
    (b + (((a - b) as i32) & ((0 - c) as i32))) as i32
}

/// The mask picks `a` for a true condition and `b` for a false one.
pub proof fn lemma_masked_select(a: i32, b: i32, c: i32)
    requires
        c == 0 || c == 1,
    ensures
        masked_select(a, b, c) == (if c == 1 { a } else { b }),
{
    assert(c == 0 || c == 1 ==> (b + (((a - b) as i32) & ((0 - c) as i32))) as i32 == (if c == 1 { a } else { b })) by (bit_vector);
}

/// A fresh `i32` temporary of the given number.
/// The instruction a building step gives, if any, as block instructions.
pub open spec fn opt_arith(i: Option<ArithInstr>) -> Seq<BlockInstr> {
    match i {
        Some(x) => seq![BlockInstr::Arith(x)],
        None => Seq::empty(),
    }
}

/// `res1`, `res2` and `res3` are what `f` may give for the three steps of
/// a boolean select: `v1 & cond` from the counter `t0 + 1` (after the
/// comparison `fc = cond == 0`), then `v2 & fc`, then the `|` of the two,
/// each from the counter the step before gave.
pub open spec fn bool_select<F: Fn(Value, Value, ArithOp, u32) -> (Value, Option<ArithInstr>, u32)>(
    f: F, v1: Value, v2: Value, cond: Value, t0: u32, fc: LlvmTemp,
    res1: (Value, Option<ArithInstr>, u32), res2: (Value, Option<ArithInstr>, u32),
    res3: (Value, Option<ArithInstr>, u32),
) -> bool {
    &&& f.ensures((v1, cond, ArithOp::And, (t0 + 1) as u32), res1)
    &&& f.ensures((v2, Value::Temp(fc), ArithOp::And, res1.2), res2)
    &&& f.ensures((res1.0, res2.0, ArithOp::Or, res2.2), res3)
}

pub open spec fn fresh_i32(t: LlvmTemp, k: nat) -> bool {
    t.name@ == decimal(k) && !t.is_global && t.var_type == VarType::I32
}

/// `s` is the select of `combine_i32`: with fresh temporaries numbered
/// `t0` to `t0 + 3`, `mask = 0 - c`, `diff = a - b`, `masked = diff & mask`
/// and `r = b + masked`.
pub open spec fn is_i32_select(s: Seq<ArithInstr>, a: Value, b: Value, c: Value, t0: nat, r: Value) -> bool {
    &&& s.len() == 4
    &&& forall|j: int| 0 <= j < 4 ==> fresh_i32((#[trigger] s[j]).target, (t0 + j) as nat) && s[j].var_type == VarType::I32
    &&& s[0].op == ArithOp::Sub && s[0].lhs == Value::Int(0) && s[0].rhs == c
    &&& s[1].op == ArithOp::Sub && s[1].lhs == a && s[1].rhs == b
    &&& s[2].op == ArithOp::And && s[2].lhs == Value::Temp(s[1].target) && s[2].rhs == Value::Temp(s[0].target)
    &&& s[3].op == ArithOp::Add && s[3].lhs == b && s[3].rhs == Value::Temp(s[2].target)
    &&& r == Value::Temp(s[3].target)
}

/// The operand names no temporary numbered `k` or more.
pub open spec fn value_avoids(v: Value, k: nat) -> bool {
    v matches Value::Temp(t) ==> forall|j: nat| j >= k ==> t.name@ != #[trigger] decimal(j)
}

proof fn lemma_apart(v: Value, s: Seq<ArithInstr>, t0: nat)
    requires
        value_avoids(v, t0),
        s.len() == 4,
        forall|j: int| 0 <= j < 4 ==> fresh_i32((#[trigger] s[j]).target, (t0 + j) as nat),
    ensures
        forall|k: int| 0 <= k < 4 ==> !(v matches Value::Temp(t) && t.name@ == #[trigger] s[k].target.name@),
{
    assert forall|k: int| 0 <= k < 4 implies !(v matches Value::Temp(t) && t.name@ == #[trigger] s[k].target.name@) by {
        assert(fresh_i32(s[k].target, (t0 + k) as nat));
        if let Value::Temp(t) = v {
            assert(t.name@ != decimal((t0 + k) as nat));
        }
    }
}

/// The select of `combine_i32` leaves in its result the first value where
/// the condition holds one and the second where it holds zero.
pub proof fn lemma_i32_select(s: Seq<ArithInstr>, a: Value, b: Value, c: Value, t0: nat, r: Value, env: spec_fn(Seq<char>) -> i32)
    requires
        is_i32_select(s, a, b, c, t0, r),
        value_avoids(a, t0),
        value_avoids(b, t0),
        value_avoids(c, t0),
        value_i32(c, env) == 0 || value_i32(c, env) == 1,
    ensures
        value_i32(r, select_run(s, env)) == (if value_i32(c, env) == 1 { value_i32(a, env) } else { value_i32(b, env) }),
{
    let e0 = env;
    let e1 = select_step(e0, s[0]);
    let e2 = select_step(e1, s[1]);
    let e3 = select_step(e2, s[2]);
    let e4 = select_step(e3, s[3]);
    assert(s.take(0) =~= Seq::<ArithInstr>::empty());
    assert(s.take(1).drop_last() =~= s.take(0));
    assert(s.take(2).drop_last() =~= s.take(1));
    assert(s.take(3).drop_last() =~= s.take(2));
    assert(s.take(4).drop_last() =~= s.take(3));
    assert(s.take(4) =~= s);
    assert(select_run(s.take(0), env) == env);
    assert(s.take(1).last() == s[0]);
    assert(s.take(2).last() == s[1]);
    assert(s.take(3).last() == s[2]);
    assert(s.take(4).last() == s[3]);
    assert(select_run(s.take(1), env) == e1);
    assert(select_run(s.take(2), env) == e2);
    assert(select_run(s.take(3), env) == e3);
    assert(select_run(s, env) == e4);
    assert forall|j: int, k: int| 0 <= j < k < 4 implies s[j].target.name@ != s[k].target.name@ by {
        assert(fresh_i32(s[j].target, (t0 + j) as nat));
        assert(fresh_i32(s[k].target, (t0 + k) as nat));
        if s[j].target.name@ == s[k].target.name@ {
            lemma_decimal_injective((t0 + j) as nat, (t0 + k) as nat);
        }
    }
    lemma_apart(a, s, t0);
    lemma_apart(b, s, t0);
    lemma_apart(c, s, t0);
    let ca = value_i32(a, env);
    let cb = value_i32(b, env);
    let cc = value_i32(c, env);
    assert(value_i32(c, e0) == cc);
    assert(e1(s[0].target.name@) == (0 - cc) as i32);
    assert(value_i32(a, e1) == ca);
    assert(value_i32(b, e1) == cb);
    assert(e2(s[1].target.name@) == (ca - cb) as i32);
    assert(e2(s[0].target.name@) == (0 - cc) as i32);
    assert(e3(s[2].target.name@) == ((ca - cb) as i32) & ((0 - cc) as i32));
    assert(value_i32(b, e3) == cb);
    assert(e4(s[3].target.name@) == masked_select(ca, cb, cc));
    lemma_masked_select(ca, cb, cc);
}

/// A fresh `i32` temporary numbered by the counter, which it advances.
fn fresh_i32_temp(temp_number: &mut u32) -> (r: LlvmTemp)
    requires
        *old(temp_number) < u32::MAX,
    ensures
        *final(temp_number) == *old(temp_number) + 1,
        fresh_i32(r, *old(temp_number) as nat),
{
    let name = number_name(*temp_number);
    *temp_number = *temp_number + 1;
    LlvmTemp { name, is_global: false, var_type: VarType::I32 }
}

/// Selects between two `i32` operands by a condition holding one or zero,
/// without a branch: appends `mask = 0 - cond`, `diff = value1 - value2`,
/// `masked = diff & mask` and `result = value2 + masked`, and gives the
/// result.
pub fn combine_i32(value1: Value, value2: Value, true_cond: &Value, instrs: &mut Vec<ArithInstr>, temp_number: &mut u32) -> (r: Value)
    requires
        *old(temp_number) as int + 4 <= u32::MAX,
    ensures
        *final(temp_number) == *old(temp_number) + 4,
        final(instrs)@.len() == old(instrs)@.len() + 4,
        final(instrs)@.take(old(instrs)@.len() as int) == old(instrs)@,
        is_i32_select(final(instrs)@.skip(old(instrs)@.len() as int), value1, value2, *true_cond, *old(temp_number) as nat, r),
{
    let ghost n = instrs@.len();
    let mask = fresh_i32_temp(temp_number);
    instrs.push(ArithInstr {
        op: ArithOp::Sub,
        target: mask.dup(),
        lhs: Value::Int(0),
        rhs: dup_value(true_cond),
        var_type: VarType::I32,
    });
    let diff = fresh_i32_temp(temp_number);
    let masked_diff = fresh_i32_temp(temp_number);
    instrs.push(ArithInstr {
        op: ArithOp::Sub,
        target: diff.dup(),
        lhs: dup_value(&value1),
        rhs: dup_value(&value2),
        var_type: VarType::I32,
    });
    instrs.push(ArithInstr {
        op: ArithOp::And,
        target: masked_diff.dup(),
        lhs: Value::Temp(diff),
        rhs: Value::Temp(mask),
        var_type: VarType::I32,
    });
    let target = fresh_i32_temp(temp_number);
    instrs.push(ArithInstr {
        op: ArithOp::Add,
        target: target.dup(),
        lhs: value2,
        rhs: Value::Temp(masked_diff),
        var_type: VarType::I32,
    });
    proof {
        let s = instrs@.skip(n as int);
        assert(s[0] == instrs@[n as int]);
        assert(s[1] == instrs@[n as int + 1]);
        assert(s[2] == instrs@[n as int + 2]);
        assert(s[3] == instrs@[n as int + 3]);
        assert(instrs@.take(n as int) =~= old(instrs)@);
    }
    Value::Temp(target)
}

/// A fresh `f32` temporary of the given number.
pub open spec fn fresh_f32(t: LlvmTemp, k: nat) -> bool {
    t.name@ == decimal(k) && !t.is_global && t.var_type == VarType::F32
}

/// `s` is the select of `combine_f32`: with fresh temporaries numbered
/// `t0` to `t0 + 3`, `coef = (f32) c`, `diff = a - b`, `masked = diff * coef`
/// and `r = b + masked`, in `f32`.
pub open spec fn is_f32_select(s: Seq<BlockInstr>, a: Value, b: Value, c: Value, t0: nat, r: Value) -> bool {
    let coef = other_of(s[0]);
    let d = arith_of(s[1]);
    let m = arith_of(s[2]);
    let t = arith_of(s[3]);
    &&& s.len() == 4
    &&& s[0] is Other && s[1] is Arith && s[2] is Arith && s[3] is Arith
    &&& coef.kind == OtherKind::Convert(ConvertOp::Int2Float) && coef.reads@ == seq![c]
    &&& coef.target is Some && fresh_f32(coef.target->0, t0)
    &&& d.op == ArithOp::Fsub && d.lhs == a && d.rhs == b && d.var_type == VarType::F32 && fresh_f32(d.target, t0 + 1)
    &&& m.op == ArithOp::Fmul && m.lhs == Value::Temp(d.target) && m.rhs == Value::Temp(coef.target->0)
        && m.var_type == VarType::F32 && fresh_f32(m.target, t0 + 2)
    &&& t.op == ArithOp::Fadd && t.lhs == b && t.rhs == Value::Temp(m.target)
        && t.var_type == VarType::F32 && fresh_f32(t.target, t0 + 3)
    &&& r == Value::Temp(t.target)
}

/// The arithmetic instruction `i` is, where it is one.
pub open spec fn arith_of(i: BlockInstr) -> ArithInstr {
    match i {
        BlockInstr::Arith(a) => a,
        BlockInstr::Other(_) => arbitrary(),
    }
}

/// The other instruction `i` is, where it is one.
pub open spec fn other_of(i: BlockInstr) -> OtherInstr {
    match i {
        BlockInstr::Other(o) => o,
        BlockInstr::Arith(_) => arbitrary(),
    }
}

/// A fresh `f32` temporary numbered by the counter, which it advances.
fn fresh_f32_temp(temp_number: &mut u32) -> (r: LlvmTemp)
    requires
        *old(temp_number) < u32::MAX,
    ensures
        *final(temp_number) == *old(temp_number) + 1,
        fresh_f32(r, *old(temp_number) as nat),
{
    let name = number_name(*temp_number);
    *temp_number = *temp_number + 1;
    LlvmTemp { name, is_global: false, var_type: VarType::F32 }
}

/// Selects between two `f32` operands by a condition holding one or zero:
/// appends `coef = (f32) cond`, `diff = value1 - value2`,
/// `masked = diff * coef` and `result = value2 + masked`, and gives the
/// result.
pub fn combine_f32(value1: Value, value2: Value, true_cond: &Value, instrs: &mut Vec<BlockInstr>, temp_number: &mut u32) -> (r: Value)
    requires
        *old(temp_number) as int + 4 <= u32::MAX,
    ensures
        *final(temp_number) == *old(temp_number) + 4,
        final(instrs)@.len() == old(instrs)@.len() + 4,
        final(instrs)@.take(old(instrs)@.len() as int) == old(instrs)@,
        is_f32_select(final(instrs)@.skip(old(instrs)@.len() as int), value1, value2, *true_cond, *old(temp_number) as nat, r),
{
    let ghost n = instrs@.len();
    let coef = fresh_f32_temp(temp_number);
    let mut reads: Vec<Value> = Vec::new();
    reads.push(dup_value(true_cond));
    instrs.push(BlockInstr::Other(OtherInstr {
        kind: OtherKind::Convert(ConvertOp::Int2Float),
        reads,
        target: Some(coef.dup()),
        callee: None,
    }));
    let diff = fresh_f32_temp(temp_number);
    let masked_diff = fresh_f32_temp(temp_number);
    instrs.push(BlockInstr::Arith(ArithInstr {
        op: ArithOp::Fsub,
        target: diff.dup(),
        lhs: dup_value(&value1),
        rhs: dup_value(&value2),
        var_type: VarType::F32,
    }));
    instrs.push(BlockInstr::Arith(ArithInstr {
        op: ArithOp::Fmul,
        target: masked_diff.dup(),
        lhs: Value::Temp(diff),
        rhs: Value::Temp(coef),
        var_type: VarType::F32,
    }));
    let target = fresh_f32_temp(temp_number);
    instrs.push(BlockInstr::Arith(ArithInstr {
        op: ArithOp::Fadd,
        target: target.dup(),
        lhs: value2,
        rhs: Value::Temp(masked_diff),
        var_type: VarType::F32,
    }));
    proof {
        let s = instrs@.skip(n as int);
        assert(s[0] == instrs@[n as int]);
        assert(s[1] == instrs@[n as int + 1]);
        assert(s[2] == instrs@[n as int + 2]);
        assert(s[3] == instrs@[n as int + 3]);
        assert(instrs@.take(n as int) =~= old(instrs)@);
        if let BlockInstr::Other(o) = s[0] {
            assert(o.reads@ =~= seq![*true_cond]);
        }
    }
    Value::Temp(target)
}

/// An operand that holds zero or one: the literals `0` and `1`, and the
/// temporaries named in `booleans`.
pub open spec fn boolean_value(v: Value, booleans: Seq<LlvmTemp>) -> bool {
    match v {
        Value::Int(i) => i == 0 || i == 1,
        Value::Temp(t) => names_of(booleans).contains(t.name@),
        Value::Float(_) => false,
    }
}

/// An operand of type `f32`.
pub open spec fn float_value(v: Value) -> bool {
    match v {
        Value::Float(_) => true,
        Value::Temp(t) => t.var_type == VarType::F32,
        Value::Int(_) => false,
    }
}

/// The instructions of `s` as arithmetic instructions.
pub open spec fn ariths(s: Seq<BlockInstr>) -> Seq<ArithInstr> {
    Seq::new(s.len(), |i: int| arith_of(s[i]))
}

/// Every instruction of `s` is arithmetic.
pub open spec fn all_arith(s: Seq<BlockInstr>) -> bool {
    forall|i: int| 0 <= i < s.len() ==> #[trigger] s[i] is Arith
}

/// An operand that holds zero or one, given the names of the temporaries
/// known to.
pub open spec fn boolean_in(v: Value, names: Set<Seq<char>>) -> bool {
    match v {
        Value::Int(i) => i == 0 || i == 1,
        Value::Temp(t) => names.contains(t.name@),
        Value::Float(_) => false,
    }
}

/// The names known to hold zero or one after `s`, from `init` on: the
/// target of a comparison, and that of a bitwise `and`, `or` or `xor` of
/// two such operands.
pub open spec fn booleans_after(s: Seq<BlockInstr>, init: Set<Seq<char>>) -> Set<Seq<char>>
    decreases s.len(),
{
    if s.len() == 0 {
        init
    } else {
        let b = booleans_after(s.drop_last(), init);
        match s.last() {
            BlockInstr::Arith(a) => if (a.op == ArithOp::And || a.op == ArithOp::Or || a.op == ArithOp::Xor)
                && boolean_in(a.lhs, b) && boolean_in(a.rhs, b) {
                b.insert(a.target.name@)
            } else {
                b
            },
            BlockInstr::Other(o) => if o.kind is Comp && o.target is Some {
                b.insert(o.target->0.name@)
            } else {
                b
            },
        }
    }
}

/// The names known to hold zero or one after the blocks, in order.
pub open spec fn booleans_in_blocks(blocks: Seq<Vec<BlockInstr>>, init: Set<Seq<char>>) -> Set<Seq<char>>
    decreases blocks.len(),
{
    if blocks.len() == 0 {
        init
    } else {
        booleans_after(blocks.last()@, booleans_in_blocks(blocks.drop_last(), init))
    }
}

/// Bitwise `and`, `or` and `xor` of zeros and ones give zero or one.
pub open spec fn bitwise_keeps_bits(asem: spec_fn(ArithInstr, int, int) -> int) -> bool {
    forall|a: ArithInstr, x: int, y: int|
        (a.op == ArithOp::And || a.op == ArithOp::Or || a.op == ArithOp::Xor) && (x == 0 || x == 1) && (y == 0 || y == 1)
        ==> #[trigger] asem(a, x, y) == 0 || asem(a, x, y) == 1
}

/// Comparisons give zero or one.
pub open spec fn comparisons_give_bits(osem: spec_fn(OtherInstr, Seq<int>) -> int) -> bool {
    forall|o: OtherInstr, v: Seq<int>| o.kind is Comp ==> #[trigger] osem(o, v) == 0 || osem(o, v) == 1
}

proof fn lemma_booleans_written(s: Seq<BlockInstr>, init: Set<Seq<char>>, n: Seq<char>)
    requires
        booleans_after(s, init).contains(n),
        !init.contains(n),
    ensures
        exists|j: int| 0 <= j < s.len() && #[trigger] write_name(s[j]) == Some(n),
    decreases s.len(),
{
    let p = s.drop_last();
    if booleans_after(p, init).contains(n) {
        lemma_booleans_written(p, init, n);
        let j = choose|j: int| 0 <= j < p.len() && #[trigger] write_name(p[j]) == Some(n);
        assert(s[j] == p[j]);
    } else {
        assert(write_name(s[s.len() - 1]) == Some(n));
    }
}

/// The temporaries `dfs` marks hold zero or one: in a block in SSA form
/// that writes none of the names in `init`, where those hold zero or one
/// and comparisons and bitwise operators on zeros and ones give zero or one,
/// every name in `booleans_after(s, init)` holds zero or one after the block.
pub proof fn lemma_booleans_hold_bits(
    s: Seq<BlockInstr>,
    init: Set<Seq<char>>,
    env: spec_fn(Seq<char>) -> int,
    asem: spec_fn(ArithInstr, int, int) -> int,
    osem: spec_fn(OtherInstr, Seq<int>) -> int,
)
    requires
        block_ssa(s),
        forall|j: int| 0 <= j < s.len() && (#[trigger] write_name(s[j])) is Some ==> !init.contains(write_name(s[j])->0),
        forall|n: Seq<char>| #[trigger] init.contains(n) ==> env(n) == 0 || env(n) == 1,
        bitwise_keeps_bits(asem),
        comparisons_give_bits(osem),
    ensures
        forall|n: Seq<char>| #[trigger] booleans_after(s, init).contains(n)
            ==> run_block(s, env, asem, osem)(n) == 0 || run_block(s, env, asem, osem)(n) == 1,
    decreases s.len(),
{
    if s.len() > 0 {
        let p = s.drop_last();
        let x = s.last();
        assert forall|j: int| 0 <= j < p.len() implies #[trigger] p[j] == s[j] by {}
        assert(block_ssa(p)) by {
            assert forall|j1: int, j2: int| 0 <= j1 < j2 < p.len() && (#[trigger] write_name(p[j1])) is Some
                implies write_name(p[j1]) != #[trigger] write_name(p[j2]) by {
                assert(p[j1] == s[j1] && p[j2] == s[j2]);
            }
            assert forall|i: int, j: int, n: Seq<char>| 0 <= i <= j < p.len() && #[trigger] crate::rearrange_block::reads_name(p[i], n)
                implies #[trigger] write_name(p[j]) != Some(n) by {
                assert(p[i] == s[i] && p[j] == s[j]);
            }
        }
        assert forall|j: int| 0 <= j < p.len() && (#[trigger] write_name(p[j])) is Some implies !init.contains(write_name(p[j])->0) by {
            assert(p[j] == s[j]);
        }
        lemma_booleans_hold_bits(p, init, env, asem, osem);
        let e = run_block(p, env, asem, osem);
        let b = booleans_after(p, init);
        assert(run_block(s, env, asem, osem) == block_step(e, x, asem, osem));
        assert(x == s[s.len() - 1]);
        assert forall|n: Seq<char>| #[trigger] booleans_after(s, init).contains(n) implies
            run_block(s, env, asem, osem)(n) == 0 || run_block(s, env, asem, osem)(n) == 1 by {
            if b.contains(n) {
                if write_name(x) == Some(n) {
                    if init.contains(n) {
                        assert(!init.contains(write_name(s[s.len() - 1])->0));
                    } else {
                        lemma_booleans_written(p, init, n);
                        let j = choose|j: int| 0 <= j < p.len() && #[trigger] write_name(p[j]) == Some(n);
                        assert(write_name(s[j]) == Some(n));
                        assert(write_name(s[j]) != write_name(s[s.len() - 1]));
                    }
                }
                match x {
                    BlockInstr::Arith(a) => {
                        assert(a.target.name@ != n);
                    },
                    BlockInstr::Other(o) => {
                        if let Some(t) = o.target {
                            assert(t.name@ != n);
                        }
                    },
                }
            } else {
                match x {
                    BlockInstr::Arith(a) => {
                        assert(a.op == ArithOp::And || a.op == ArithOp::Or || a.op == ArithOp::Xor);
                        assert(!modeled_op(a.op));
                        assert(boolean_in(a.lhs, b) && boolean_in(a.rhs, b));
                        let l = operand(a.lhs, e);
                        let r = operand(a.rhs, e);
                        assert(l == 0 || l == 1);
                        assert(r == 0 || r == 1);
                        assert(asem(a, l, r) == 0 || asem(a, l, r) == 1);
                    },
                    BlockInstr::Other(o) => {
                        let v = Seq::new(o.reads@.len(), |j: int| operand(o.reads@[j], e));
                        assert(osem(o, v) == 0 || osem(o, v) == 1);
                    },
                }
            }
        }
    }
}

/// Adds `t` to a set of temporaries kept by name.
fn add_boolean(set: &mut Vec<LlvmTemp>, t: LlvmTemp)
    ensures
        names_of(final(set)@) == names_of(old(set)@).insert(t.name@),
{
    if !has_name(set, &t.name) {
        let ghost n = t.name@;
        set.push(t);
        proof {
            assert(names_of(set@) =~= names_of(old(set)@).insert(n)) by {
                assert forall|m: Seq<char>| names_of(set@).contains(m) implies names_of(old(set)@).insert(n).contains(m) by {
                    let i = choose|i: int| 0 <= i < set@.len() && #[trigger] set@[i].name@ == m;
                    if i < old(set)@.len() {
                        assert(old(set)@[i] == set@[i]);
                    }
                }
                assert forall|m: Seq<char>| names_of(old(set)@).insert(n).contains(m) implies names_of(set@).contains(m) by {
                    if m == n {
                        assert(set@[old(set)@.len() as int].name@ == m);
                    } else {
                        let i = choose|i: int| 0 <= i < old(set)@.len() && #[trigger] old(set)@[i].name@ == m;
                        assert(set@[i] == old(set)@[i]);
                    }
                }
            }
        }
    } else {
        proof {
            assert(names_of(old(set)@).insert(t.name@) =~= names_of(old(set)@));
        }
    }
}

/// An instruction with an effect beyond the temporary it writes: a store
/// or a call.
pub open spec fn side_effect(i: BlockInstr) -> bool {
    i matches BlockInstr::Other(o) && (o.kind == OtherKind::Store || o.kind == OtherKind::Call)
}

/// Appends an arithmetic instruction.
fn push_arith(instrs: &mut Vec<BlockInstr>, i: ArithInstr)
    ensures
        final(instrs)@ == old(instrs)@.push(BlockInstr::Arith(i)),
{
    instrs.push(BlockInstr::Arith(i));
}

/// The stores and calls of `s`, in order.
pub open spec fn sides(s: Seq<BlockInstr>) -> Seq<OtherInstr>
    decreases s.len(),
{
    if s.len() == 0 {
        Seq::empty()
    } else if side_effect(s.last()) {
        sides(s.drop_last()).push(other_of(s.last()))
    } else {
        sides(s.drop_last())
    }
}

/// The instructions of `s` without side effects, in order.
pub open spec fn pures(s: Seq<BlockInstr>) -> Seq<BlockInstr>
    decreases s.len(),
{
    if s.len() == 0 {
        Seq::empty()
    } else if side_effect(s.last()) {
        pures(s.drop_last())
    } else {
        pures(s.drop_last()).push(s.last())
    }
}

/// `pos` places each instruction of `a` at a position of `b` that holds the
/// same instruction, in increasing order.
pub open spec fn placed(a: Seq<BlockInstr>, b: Seq<BlockInstr>, pos: Seq<int>) -> bool {
    &&& pos.len() == a.len()
    &&& forall|i: int| 0 <= i < a.len() ==> 0 <= #[trigger] pos[i] < b.len() && same_instr(b[pos[i]], a[i])
    &&& forall|i: int, j: int| 0 <= i < j < a.len() ==> #[trigger] pos[i] < #[trigger] pos[j]
}

/// The instructions of `a` occur in `b`, in the same order.
pub open spec fn embeds(a: Seq<BlockInstr>, b: Seq<BlockInstr>) -> bool {
    exists|pos: Seq<int>| #[trigger] placed(a, b, pos)
}

proof fn lemma_pures_step(s: Seq<BlockInstr>, i: int)
    requires
        0 <= i < s.len(),
    ensures
        pures(s.take(i + 1)) == (if side_effect(s[i]) { pures(s.take(i)) } else { pures(s.take(i)).push(s[i]) }),
{
    assert(s.take(i + 1).drop_last() =~= s.take(i));
    assert(s.take(i + 1).last() == s[i]);
}

/// Placements survive appending to `b`.
proof fn lemma_placed_extend(a: Seq<BlockInstr>, b: Seq<BlockInstr>, c: Seq<BlockInstr>, pos: Seq<int>)
    requires
        placed(a, b, pos),
        b.len() <= c.len(),
        c.take(b.len() as int) == b,
    ensures
        placed(a, c, pos),
{
    assert forall|i: int| 0 <= i < a.len() implies 0 <= #[trigger] pos[i] < c.len() && same_instr(c[pos[i]], a[i]) by {
        assert(c[pos[i]] == c.take(b.len() as int)[pos[i]]);
    }
}

/// Placing one more instruction, at the end of `b` pushed with it.
proof fn lemma_placed_push(a: Seq<BlockInstr>, b: Seq<BlockInstr>, pos: Seq<int>, x: BlockInstr, y: BlockInstr)
    requires
        placed(a, b, pos),
        same_instr(y, x),
    ensures
        placed(a.push(x), b.push(y), pos.push(b.len() as int)),
{
    let b2 = b.push(y);
    assert(b2.take(b.len() as int) =~= b);
    lemma_placed_extend(a, b, b2, pos);
    let a2 = a.push(x);
    let p2 = pos.push(b.len() as int);
    assert forall|i: int| 0 <= i < a2.len() implies 0 <= #[trigger] p2[i] < b2.len() && same_instr(b2[p2[i]], a2[i]) by {
        if i < a.len() {
            assert(p2[i] == pos[i]);
            assert(a2[i] == a[i]);
        }
    }
    assert forall|i: int, j: int| 0 <= i < j < a2.len() implies #[trigger] p2[i] < #[trigger] p2[j] by {
        if j < a.len() {
            assert(p2[i] == pos[i] && p2[j] == pos[j]);
        } else {
            assert(p2[i] == pos[i]);
        }
    }
}

/// Two callees are the same function (or both absent).
pub open spec fn same_callee(a: Option<String>, b: Option<String>) -> bool {
    match (a, b) {
        (Some(x), Some(y)) => x@ == y@,
        (None, None) => true,
        _ => false,
    }
}

/// Two stores to addresses `same_address` holds equal, or two calls of
/// the same function that write nothing.
pub open spec fn mergeable<G: Fn(Value, Value) -> bool>(a: OtherInstr, b: OtherInstr, same_address: G) -> bool {
    ||| a.kind == OtherKind::Store && b.kind == OtherKind::Store && a.reads@.len() == 2 && b.reads@.len() == 2
        && same_address.ensures((a.reads@[0], b.reads@[0]), true)
    ||| a.kind == OtherKind::Call && b.kind == OtherKind::Call && same_callee(a.callee, b.callee) && a.target is None
}

/// The stores and calls of two branches pair up, in order.
pub open spec fn branches_mergeable<G: Fn(Value, Value) -> bool>(t: Seq<BlockInstr>, f: Seq<BlockInstr>, same_address: G) -> bool {
    &&& sides(t).len() == sides(f).len()
    &&& forall|k: int| 0 <= k < sides(t).len() ==> mergeable(#[trigger] sides(t)[k], sides(f)[k], same_address)
}

/// How many operands the instructions of `s` read, over its stores and calls.
pub open spec fn side_reads(s: Seq<BlockInstr>) -> nat
    decreases s.len(),
{
    if s.len() == 0 {
        0
    } else {
        side_reads(s.drop_last()) + if side_effect(s.last()) { other_of(s.last()).reads@.len() } else { 0 }
    }
}

proof fn lemma_sides_take(s: Seq<BlockInstr>, i: int, j: int)
    requires
        0 <= i <= j <= s.len(),
    ensures
        sides(s.take(j)).len() >= sides(s.take(i)).len(),
        sides(s.take(j)).take(sides(s.take(i)).len() as int) == sides(s.take(i)),
        side_reads(s.take(i)) <= side_reads(s.take(j)),
    decreases j - i,
{
    if i < j {
        lemma_sides_take(s, i, j - 1);
        assert(s.take(j).drop_last() =~= s.take(j - 1));
        let a = sides(s.take(j - 1));
        let b = sides(s.take(i));
        assert(a.take(b.len() as int) == b);
        if side_effect(s.take(j).last()) {
            assert(a.push(other_of(s.take(j).last())).take(b.len() as int) =~= a.take(b.len() as int));
        }
    } else {
        assert(sides(s.take(j)).take(sides(s.take(i)).len() as int) =~= sides(s.take(i)));
    }
}

proof fn lemma_sides_step(s: Seq<BlockInstr>, i: int)
    requires
        0 <= i < s.len(),
    ensures
        sides(s.take(i + 1)) == (if side_effect(s[i]) { sides(s.take(i)).push(other_of(s[i])) } else { sides(s.take(i)) }),
        side_reads(s.take(i + 1)) == side_reads(s.take(i)) + (if side_effect(s[i]) { other_of(s[i]).reads@.len() } else { 0 }),
{
    assert(s.take(i + 1).drop_last() =~= s.take(i));
    assert(s.take(i + 1).last() == s[i]);
}

proof fn lemma_sides_push(s: Seq<BlockInstr>, x: BlockInstr)
    ensures
        sides(s.push(x)) == (if side_effect(x) { sides(s).push(other_of(x)) } else { sides(s) }),
{
    assert(s.push(x).drop_last() =~= s);
    assert(s.push(x).last() == x);
}

/// `a` and `b` are the same instruction (lists of operands compared by
/// their contents).
pub open spec fn same_instr(a: BlockInstr, b: BlockInstr) -> bool {
    match (a, b) {
        (BlockInstr::Arith(x), BlockInstr::Arith(y)) => x == y,
        (BlockInstr::Other(x), BlockInstr::Other(y)) => x.kind == y.kind && x.reads@ == y.reads@
            && x.target == y.target && x.callee == y.callee,
        _ => false,
    }
}

/// A copy of an instruction.
pub(crate) fn dup_instr(i: &BlockInstr) -> (r: BlockInstr)
    ensures
        side_effect(r) == side_effect(*i),
        same_instr(r, *i),
{
    match i {
        BlockInstr::Arith(a) => {
            let r = ArithInstr {
                target: a.target.dup(),
                op: a.op,
                var_type: a.var_type,
                lhs: dup_value(&a.lhs),
                rhs: dup_value(&a.rhs),
            };
            proof {
                assert(r.target == a.target && r.op == a.op && r.var_type == a.var_type && r.lhs == a.lhs && r.rhs == a.rhs);
                assert(r == *a);
            }
            BlockInstr::Arith(r)
        },
        BlockInstr::Other(o) => {
            let mut reads: Vec<Value> = Vec::new();
            let mut j: usize = 0;
            while j < o.reads.len()
                invariant
                    j <= o.reads@.len(),
                    reads@ == o.reads@.take(j as int),
                decreases o.reads.len() - j,
            {
                reads.push(dup_value(&o.reads[j]));
                proof {
                    assert(o.reads@.take(j + 1) =~= o.reads@.take(j as int).push(o.reads@[j as int]));
                }
                j = j + 1;
            }
            proof {
                assert(o.reads@.take(j as int) =~= o.reads@);
            }
            let target = match &o.target {
                Some(t) => Some(t.dup()),
                None => None,
            };
            let callee = match &o.callee {
                Some(c) => Some(c.clone()),
                None => None,
            };
            BlockInstr::Other(OtherInstr { kind: o.kind, reads, target, callee })
        },
    }
}

/// Whether two callees are the same function (or both absent).
fn callee_eq(a: &Option<String>, b: &Option<String>) -> (r: bool)
    ensures
        r == same_callee(*a, *b),
{
    match (a, b) {
        (Some(x), Some(y)) => *x == *y,
        (None, None) => true,
        _ => false,
    }
}

proof fn lemma_sides_extend(a: Seq<BlockInstr>, b: Seq<BlockInstr>)
    requires
        a.len() <= b.len(),
        b.take(a.len() as int) == a,
        forall|j: int| a.len() <= j < b.len() ==> !side_effect(#[trigger] b[j]),
    ensures
        sides(b) == sides(a),
    decreases b.len() - a.len(),
{
    if b.len() > a.len() {
        let c = b.drop_last();
        assert(c.take(a.len() as int) =~= b.take(a.len() as int));
        assert forall|j: int| a.len() <= j < c.len() implies !side_effect(#[trigger] c[j]) by {
            assert(c[j] == b[j]);
        }
        lemma_sides_extend(a, c);
        assert(!side_effect(b[b.len() - 1]));
    } else {
        assert(b =~= a);
    }
}

/// `m` is the merged form of the store or call `a`: the same kind, target
/// and callee, and for a store, the same address.
pub open spec fn merged_from(m: OtherInstr, a: OtherInstr) -> bool {
    &&& m.kind == a.kind
    &&& m.target == a.target
    &&& same_callee(m.callee, a.callee)
    &&& a.kind == OtherKind::Store ==> m.reads@.len() == 2 && m.reads@[0] == a.reads@[0]
}

/// Whether an instruction is a store or a call.
fn is_side_effect(i: &BlockInstr) -> (r: bool)
    ensures
        r == side_effect(*i),
{
    match i {
        BlockInstr::Other(o) => o.kind == OtherKind::Store || o.kind == OtherKind::Call,
        BlockInstr::Arith(_) => false,
    }
}

/// What the pass knows of a function: which temporaries hold zero or one.
pub struct Solver {
    pub boolean: Vec<LlvmTemp>,
}

impl Solver {
    pub fn new() -> (r: Self)
        ensures
            r.boolean@.len() == 0,
    {
        Solver { boolean: Vec::new() }
    }

    /// Records the temporaries that hold zero or one, walking the blocks in
    /// the order given (the pass hands them in a preorder of the dominator
    /// tree): the target of every comparison, and that of every bitwise
    /// `and`, `or` or `xor` of two operands known to.
    pub fn dfs(&mut self, blocks: &Vec<Vec<BlockInstr>>)
        ensures
            names_of(final(self).boolean@) == booleans_in_blocks(blocks@, names_of(old(self).boolean@)),
    {
        let ghost init = names_of(self.boolean@);
        let mut i: usize = 0;
        proof {
            assert(blocks@.take(0) =~= Seq::<Vec<BlockInstr>>::empty());
        }
        while i < blocks.len()
            invariant
                i <= blocks@.len(),
                init == names_of(old(self).boolean@),
                names_of(self.boolean@) == booleans_in_blocks(blocks@.take(i as int), init),
            decreases blocks.len() - i,
        {
            let block = &blocks[i];
            let ghost before = names_of(self.boolean@);
            let mut k: usize = 0;
            proof {
                assert(block@.take(0) =~= Seq::<BlockInstr>::empty());
            }
            while k < block.len()
                invariant
                    k <= block@.len(),
                    names_of(self.boolean@) == booleans_after(block@.take(k as int), before),
                decreases block.len() - k,
            {
                proof {
                    assert(block@.take(k + 1).drop_last() =~= block@.take(k as int));
                    assert(block@.take(k + 1).last() == block@[k as int]);
                }
                match &block[k] {
                    BlockInstr::Arith(a) => {
                        if (a.op == ArithOp::And || a.op == ArithOp::Or || a.op == ArithOp::Xor)
                            && self.is_boolean(&a.lhs) && self.is_boolean(&a.rhs) {
                            add_boolean(&mut self.boolean, a.target.dup());
                        }
                    },
                    BlockInstr::Other(o) => {
                        match (&o.kind, &o.target) {
                            (OtherKind::Comp(_), Some(t)) => {
                                add_boolean(&mut self.boolean, t.dup());
                            },
                            _ => {},
                        }
                    },
                }
                k = k + 1;
            }
            proof {
                assert(block@.take(block@.len() as int) =~= block@);
                assert(blocks@.take(i + 1).drop_last() =~= blocks@.take(i as int));
                assert(blocks@.take(i + 1).last() == blocks@[i as int]);
            }
            i = i + 1;
        }
        proof {
            assert(blocks@.take(blocks@.len() as int) =~= blocks@);
        }
    }

    /// Merges the bodies of the two branches of a conditional into one
    /// straight-line list: the instructions without side effects are taken
    /// as they come (those of the true branch first), and the stores and
    /// calls of the two branches are paired in order. Two stores to the same
    /// address (`same_address`) become one store of the value
    /// `combine_value` selects by `true_cond`; two calls of the same
    /// function that write nothing become one call on the selected
    /// arguments (as many as the shorter call has). `None` where the stores
    /// and calls do not pair up.
    pub fn merge_branches<F, G>(
        &self,
        true_instrs: &Vec<BlockInstr>,
        false_instrs: &Vec<BlockInstr>,
        true_cond: &Value,
        temp_number: &mut u32,
        same_address: G,
        compute_two_boolean: F,
    ) -> (r: Option<Vec<BlockInstr>>) where
        F: Fn(Value, Value, ArithOp, u32) -> (Value, Option<ArithInstr>, u32) + Copy,
        G: Fn(Value, Value) -> bool,
        requires
            *old(temp_number) as int + 4 * side_reads(true_instrs@) <= u32::MAX,
            forall|a: Value, b: Value, op: ArithOp, n: u32| #[trigger] compute_two_boolean.requires((a, b, op, n)),
            forall|a: Value, b: Value, op: ArithOp, n: u32, res: (Value, Option<ArithInstr>, u32)|
                #[trigger] compute_two_boolean.ensures((a, b, op, n), res) ==> n <= res.2 <= n + 1,
            forall|a: Value, b: Value| #[trigger] same_address.requires((a, b)),
            forall|a: Value, b: Value, x: bool, y: bool| #[trigger] same_address.ensures((a, b), x)
                && #[trigger] same_address.ensures((a, b), y) ==> x == y,
        ensures
            r is Some <==> branches_mergeable(true_instrs@, false_instrs@, same_address),
            r matches Some(out) ==> sides(out@).len() == sides(true_instrs@).len()
                && forall|k: int| 0 <= k < sides(out@).len() ==> merged_from(#[trigger] sides(out@)[k], sides(true_instrs@)[k]),
            r matches Some(out) ==> embeds(pures(true_instrs@), out@) && embeds(pures(false_instrs@), out@),
    {
        let ghost t = true_instrs@;
        let ghost f = false_instrs@;
        let ghost t0 = *temp_number;
        let n1 = true_instrs.len();
        let n2 = false_instrs.len();
        let mut out: Vec<BlockInstr> = Vec::new();
        let mut i1: usize = 0;
        let mut i2: usize = 0;
        let ghost mut pt: Seq<int> = Seq::empty();
        let ghost mut pf: Seq<int> = Seq::empty();
        proof {
            assert(t.take(0) =~= Seq::<BlockInstr>::empty());
            assert(f.take(0) =~= Seq::<BlockInstr>::empty());
            lemma_sides_take(t, 0, t.len() as int);
            assert(t.take(t.len() as int) =~= t);
        }
        while i1 < n1 || i2 < n2
            invariant
                i1 <= n1,
                i2 <= n2,
                n1 == t.len(),
                n2 == f.len(),
                t == true_instrs@,
                f == false_instrs@,
                sides(t.take(i1 as int)).len() == sides(f.take(i2 as int)).len(),
                forall|k: int| 0 <= k < sides(t.take(i1 as int)).len()
                    ==> mergeable(#[trigger] sides(t.take(i1 as int))[k], sides(f.take(i2 as int))[k], same_address),
                sides(out@).len() == sides(t.take(i1 as int)).len(),
                forall|k: int| 0 <= k < sides(out@).len() ==> merged_from(#[trigger] sides(out@)[k], sides(t.take(i1 as int))[k]),
                *temp_number <= t0 + 4 * side_reads(t.take(i1 as int)),
                t0 + 4 * side_reads(t) <= u32::MAX,
                placed(pures(t.take(i1 as int)), out@, pt),
                placed(pures(f.take(i2 as int)), out@, pf),
                forall|a: Value, b: Value, op: ArithOp, n: u32| #[trigger] compute_two_boolean.requires((a, b, op, n)),
                forall|a: Value, b: Value, op: ArithOp, n: u32, res: (Value, Option<ArithInstr>, u32)|
                    #[trigger] compute_two_boolean.ensures((a, b, op, n), res) ==> n <= res.2 <= n + 1,
                forall|a: Value, b: Value| #[trigger] same_address.requires((a, b)),
                forall|a: Value, b: Value, x: bool, y: bool| #[trigger] same_address.ensures((a, b), x)
                    && #[trigger] same_address.ensures((a, b), y) ==> x == y,
            decreases (n1 - i1) + (n2 - i2),
        {
            let side1 = i1 < n1 && is_side_effect(&true_instrs[i1]);
            let side2 = i2 < n2 && is_side_effect(&false_instrs[i2]);
            if i1 < n1 && !side1 {
                let c = dup_instr(&true_instrs[i1]);
                let ghost ob = out@;
                proof {
                    lemma_sides_step(t, i1 as int);
                    lemma_sides_push(out@, c);
                    lemma_pures_step(t, i1 as int);
                    lemma_placed_push(pures(t.take(i1 as int)), ob, pt, t[i1 as int], c);
                    assert(ob.push(c).take(ob.len() as int) =~= ob);
                    lemma_placed_extend(pures(f.take(i2 as int)), ob, ob.push(c), pf);
                    pt = pt.push(ob.len() as int);
                }
                out.push(c);
                i1 = i1 + 1;
            } else if i2 < n2 && !side2 {
                let c = dup_instr(&false_instrs[i2]);
                let ghost ob = out@;
                proof {
                    lemma_sides_step(f, i2 as int);
                    lemma_sides_push(out@, c);
                    lemma_pures_step(f, i2 as int);
                    lemma_placed_push(pures(f.take(i2 as int)), ob, pf, f[i2 as int], c);
                    assert(ob.push(c).take(ob.len() as int) =~= ob);
                    lemma_placed_extend(pures(t.take(i1 as int)), ob, ob.push(c), pt);
                    pf = pf.push(ob.len() as int);
                }
                out.push(c);
                i2 = i2 + 1;
            } else if i1 < n1 && i2 < n2 {
                let ghost pre_merge = out@;
                let ghost k = sides(t.take(i1 as int)).len() as int;
                proof {
                    lemma_sides_step(t, i1 as int);
                    lemma_sides_step(f, i2 as int);
                    lemma_sides_take(t, i1 + 1, t.len() as int);
                    lemma_sides_take(f, i2 + 1, f.len() as int);
                    assert(side_effect(t[i1 as int]));
                    assert(side_effect(f[i2 as int]));
                    assert(t.take(t.len() as int) =~= t);
                    assert(f.take(f.len() as int) =~= f);
                    let st = sides(t);
                    let sf = sides(f);
                    assert(st.take(k + 1)[k] == st[k]);
                    assert(sf.take(k + 1)[k] == sf[k]);
                    assert(sides(t)[k] == other_of(t[i1 as int]));
                    assert(sides(f)[k] == other_of(f[i2 as int]));
                }
                let merged = match (&true_instrs[i1], &false_instrs[i2]) {
                    (BlockInstr::Other(a), BlockInstr::Other(b)) => {
                        if a.kind == OtherKind::Store && b.kind == OtherKind::Store && a.reads.len() == 2 && b.reads.len() == 2 {
                            let same = same_address(dup_value(&a.reads[0]), dup_value(&b.reads[0]));
                            if !same {
                                return None;
                            }
                            let ghost before = out@;
                            let value = self.combine_value(dup_value(&a.reads[1]), dup_value(&b.reads[1]), true_cond, &mut out, temp_number, compute_two_boolean);
                            proof {
                                lemma_sides_extend(before, out@);
                            }
                            let mut reads: Vec<Value> = Vec::new();
                            reads.push(dup_value(&a.reads[0]));
                            reads.push(value);
                            let target = match &a.target {
                                Some(x) => Some(x.dup()),
                                None => None,
                            };
                            let callee = match &a.callee {
                                Some(c) => Some(c.clone()),
                                None => None,
                            };
                            OtherInstr { kind: OtherKind::Store, reads, target, callee }
                        } else if a.kind == OtherKind::Call && b.kind == OtherKind::Call && callee_eq(&a.callee, &b.callee)
                            && a.target.is_none() {
                            let m = if a.reads.len() <= b.reads.len() { a.reads.len() } else { b.reads.len() };
                            let mut params: Vec<Value> = Vec::new();
                            let mut j: usize = 0;
                            let ghost before = out@;
                            let ghost base = *temp_number;
                            while j < m
                                invariant
                                    j <= m,
                                    m <= a.reads@.len(),
                                    m <= b.reads@.len(),
                                    out@.len() >= before.len(),
                                    out@.take(before.len() as int) == before,
                                    forall|q: int| before.len() <= q < out@.len() ==> !side_effect(#[trigger] out@[q]),
                                    *temp_number <= base + 4 * j,
                                    base + 4 * a.reads@.len() <= u32::MAX,
                                    forall|a: Value, b: Value, op: ArithOp, n: u32| #[trigger] compute_two_boolean.requires((a, b, op, n)),
                                    forall|a: Value, b: Value, op: ArithOp, n: u32, res: (Value, Option<ArithInstr>, u32)|
                                        #[trigger] compute_two_boolean.ensures((a, b, op, n), res) ==> n <= res.2 <= n + 1,
                                decreases m - j,
                            {
                                let ghost o1 = out@;
                                let v = self.combine_value(dup_value(&a.reads[j]), dup_value(&b.reads[j]), true_cond, &mut out, temp_number, compute_two_boolean);
                                proof {
                                    assert(out@.take(before.len() as int) =~= o1.take(before.len() as int));
                                    assert forall|q: int| before.len() <= q < out@.len() implies !side_effect(#[trigger] out@[q]) by {
                                        if q < o1.len() {
                                            assert(out@[q] == o1.take(o1.len() as int)[q]);
                                            assert(out@.take(o1.len() as int) == o1);
                                        }
                                    }
                                }
                                params.push(v);
                                j = j + 1;
                            }
                            proof {
                                lemma_sides_extend(before, out@);
                            }
                            let callee = match &a.callee {
                                Some(c) => Some(c.clone()),
                                None => None,
                            };
                            OtherInstr { kind: OtherKind::Call, reads: params, target: None, callee }
                        } else {
                            return None;
                        }
                    },
                    _ => {
                        return None;
                    },
                };
                let c = BlockInstr::Other(merged);
                let ghost om = out@;
                proof {
                    lemma_sides_push(out@, c);
                }
                out.push(c);
                proof {
                    assert(om.take(pre_merge.len() as int) == pre_merge);
                    assert(out@.take(pre_merge.len() as int) =~= om.take(pre_merge.len() as int));
                    lemma_placed_extend(pures(t.take(i1 as int)), pre_merge, out@, pt);
                    lemma_placed_extend(pures(f.take(i2 as int)), pre_merge, out@, pf);
                    lemma_pures_step(t, i1 as int);
                    lemma_pures_step(f, i2 as int);
                }
                i1 = i1 + 1;
                i2 = i2 + 1;
            } else {
                proof {
                    if i1 < n1 {
                        lemma_sides_step(t, i1 as int);
                        lemma_sides_take(t, i1 + 1, t.len() as int);
                        assert(f.take(f.len() as int) =~= f);
                    } else {
                        lemma_sides_step(f, i2 as int);
                        lemma_sides_take(f, i2 + 1, f.len() as int);
                        assert(t.take(t.len() as int) =~= t);
                    }
                    assert(t.take(t.len() as int) =~= t);
                    assert(f.take(f.len() as int) =~= f);
                }
                return None;
            }
        }
        proof {
            assert(t.take(t.len() as int) =~= t);
            assert(f.take(f.len() as int) =~= f);
            assert(placed(pures(t), out@, pt));
            assert(placed(pures(f), out@, pf));
        }
        Some(out)
    }

    /// Whether an operand holds zero or one.
    pub fn is_boolean(&self, temp: &Value) -> (r: bool)
        ensures
            r == boolean_value(*temp, self.boolean@),
    {
        match temp {
            Value::Int(v) => *v == 0 || *v == 1,
            Value::Temp(t) => has_name(&self.boolean, &t.name),
            Value::Float(_) => false,
        }
    }

    /// Appends instructions that give `value1` where `true_cond` holds one
    /// and `value2` where it holds zero, and gives the operand that holds
    /// the choice: one of them where they are the same operand; for two
    /// operands that hold zero or one, `(value1 & cond) | (value2 & (cond == 0))`,
    /// with `compute_two_boolean` building (or folding) each `&` and `|` from
    /// the counter it is handed and giving the next one; otherwise
    /// `combine_f32` for `f32` operands and `combine_i32` for the rest.
    pub fn combine_value<F>(
        &self,
        value1: Value,
        value2: Value,
        true_cond: &Value,
        instrs: &mut Vec<BlockInstr>,
        temp_number: &mut u32,
        compute_two_boolean: F,
    ) -> (r: Value) where F: Fn(Value, Value, ArithOp, u32) -> (Value, Option<ArithInstr>, u32)
        requires
            *old(temp_number) as int + 4 <= u32::MAX,
            forall|a: Value, b: Value, op: ArithOp, n: u32| #[trigger] compute_two_boolean.requires((a, b, op, n)),
            forall|a: Value, b: Value, op: ArithOp, n: u32, res: (Value, Option<ArithInstr>, u32)|
                #[trigger] compute_two_boolean.ensures((a, b, op, n), res) ==> n <= res.2 <= n + 1,
        ensures
            value_same(value1, value2) ==> r == value1 && final(instrs)@ == old(instrs)@,
            final(instrs)@.take(old(instrs)@.len() as int) == old(instrs)@,
            final(instrs)@.len() >= old(instrs)@.len(),
            forall|j: int| old(instrs)@.len() <= j < final(instrs)@.len() ==> !side_effect(#[trigger] final(instrs)@[j]),
            *old(temp_number) <= *final(temp_number) <= *old(temp_number) + 4,
            !value_same(value1, value2) && boolean_value(value1, self.boolean@) && boolean_value(value2, self.boolean@) ==> {
                &&& final(instrs)@.len() > old(instrs)@.len()
                &&& final(instrs)@[old(instrs)@.len() as int] is Other
                &&& other_of(final(instrs)@[old(instrs)@.len() as int]).kind == OtherKind::Comp(CompOp::EQ)
                &&& other_of(final(instrs)@[old(instrs)@.len() as int]).reads@ == seq![*true_cond, Value::Int(0)]
                &&& other_of(final(instrs)@[old(instrs)@.len() as int]).target is Some
                &&& fresh_i32(other_of(final(instrs)@[old(instrs)@.len() as int]).target->0, *old(temp_number) as nat)
                &&& exists|res1: (Value, Option<ArithInstr>, u32), res2: (Value, Option<ArithInstr>, u32),
                    res3: (Value, Option<ArithInstr>, u32)|
                    #[trigger] bool_select(compute_two_boolean, value1, value2, *true_cond, *old(temp_number),
                        other_of(final(instrs)@[old(instrs)@.len() as int]).target->0, res1, res2, res3)
                    && r == res3.0 && *final(temp_number) == res3.2
                    && final(instrs)@.skip(old(instrs)@.len() + 1int) == opt_arith(res1.1) + opt_arith(res2.1) + opt_arith(res3.1)
            },
            !value_same(value1, value2) && !(boolean_value(value1, self.boolean@) && boolean_value(value2, self.boolean@))
                && !float_value(value1) ==> {
                let s = final(instrs)@.skip(old(instrs)@.len() as int);
                &&& *final(temp_number) == *old(temp_number) + 4
                &&& all_arith(s)
                &&& is_i32_select(ariths(s), value1, value2, *true_cond, *old(temp_number) as nat, r)
            },
            !value_same(value1, value2) && !(boolean_value(value1, self.boolean@) && boolean_value(value2, self.boolean@))
                && float_value(value1) ==> *final(temp_number) == *old(temp_number) + 4
                && is_f32_select(final(instrs)@.skip(old(instrs)@.len() as int), value1, value2, *true_cond, *old(temp_number) as nat, r),
    {
        let ghost n = instrs@.len();
        if value_eq(&value1, &value2) {
            proof {
                assert(instrs@.take(n as int) =~= instrs@);
            }
            value1
        } else if self.is_boolean(&value1) && self.is_boolean(&value2) {
            let false_cond = fresh_i32_temp(temp_number);
            let mut reads: Vec<Value> = Vec::new();
            reads.push(dup_value(true_cond));
            reads.push(Value::Int(0));
            instrs.push(BlockInstr::Other(OtherInstr {
                kind: OtherKind::Comp(CompOp::EQ),
                reads,
                target: Some(false_cond.dup()),
                callee: None,
            }));
            proof {
                assert(instrs@.take(n as int) =~= old(instrs)@);
                if let BlockInstr::Other(o) = instrs@[n as int] {
                    assert(o.reads@ =~= seq![*true_cond, Value::Int(0)]);
                }
            }
            let ghost after_comp = instrs@;
            let ghost fc = false_cond;
            let (lhs_val, lhs_instr, n1) = compute_two_boolean(value1, dup_value(true_cond), ArithOp::And, *temp_number);
            let ghost res1 = (lhs_val, lhs_instr, n1);
            if let Some(i) = lhs_instr {
                push_arith(instrs, i);
            }
            let ghost after1 = instrs@;
            let (rhs_val, rhs_instr, n2) = compute_two_boolean(value2, Value::Temp(false_cond), ArithOp::And, n1);
            let ghost res2 = (rhs_val, rhs_instr, n2);
            if let Some(i) = rhs_instr {
                push_arith(instrs, i);
            }
            let ghost after2 = instrs@;
            let (val, instr, n3) = compute_two_boolean(lhs_val, rhs_val, ArithOp::Or, n2);
            let ghost res3 = (val, instr, n3);
            if let Some(i) = instr {
                push_arith(instrs, i);
            }
            *temp_number = n3;
            proof {
                assert(instrs@.take(n as int) =~= old(instrs)@);
                assert(instrs@[n as int] == after_comp[n as int]);
                assert(after1 =~= after_comp + opt_arith(res1.1));
                assert(after2 =~= after1 + opt_arith(res2.1));
                assert(instrs@ =~= after2 + opt_arith(res3.1));
                assert(instrs@.skip(n + 1int) =~= opt_arith(res1.1) + opt_arith(res2.1) + opt_arith(res3.1));
                assert(bool_select(compute_two_boolean, value1, value2, *true_cond, *old(temp_number), fc, res1, res2, res3));
            }
            val
        } else if match &value1 {
            Value::Float(_) => false,
            Value::Temp(t) => t.var_type != VarType::F32,
            Value::Int(_) => true,
        } {
            let mut buf: Vec<ArithInstr> = Vec::new();
            let r = combine_i32(value1, value2, true_cond, &mut buf, temp_number);
            let ghost bs = buf@;
            proof {
                assert(buf@.skip(0) =~= buf@);
            }
            let mut k: usize = 0;
            while k < buf.len()
                invariant
                    k <= buf@.len(),
                    buf@ == bs,
                    bs.len() == 4,
                    instrs@.len() == n + k,
                    instrs@.take(n as int) == old(instrs)@,
                    forall|j: int| 0 <= j < k ==> #[trigger] instrs@[n as int + j] == BlockInstr::Arith(bs[j]),
                decreases buf.len() - k,
            {
                let e = ArithInstr {
                    op: buf[k].op,
                    target: buf[k].target.dup(),
                    lhs: dup_value(&buf[k].lhs),
                    rhs: dup_value(&buf[k].rhs),
                    var_type: buf[k].var_type,
                };
                let ghost before = instrs@;
                instrs.push(BlockInstr::Arith(e));
                proof {
                    assert(instrs@.take(n as int) =~= before.take(n as int));
                    assert forall|j: int| 0 <= j < k + 1 implies #[trigger] instrs@[n as int + j] == BlockInstr::Arith(bs[j]) by {
                        if j < k {
                            assert(instrs@[n as int + j] == before[n as int + j]);
                        }
                    }
                }
                k = k + 1;
            }
            proof {
                let s = instrs@.skip(n as int);
                assert(ariths(s) =~= bs) by {
                    assert forall|j: int| 0 <= j < 4 implies ariths(s)[j] == bs[j] by {
                        assert(s[j] == instrs@[n as int + j]);
                    }
                }
                assert forall|j: int| 0 <= j < s.len() implies #[trigger] s[j] is Arith by {
                    assert(s[j] == instrs@[n as int + j]);
                }
            }
            r
        } else {
            combine_f32(value1, value2, true_cond, instrs, temp_number)
        }
    }
}

} // verus!
