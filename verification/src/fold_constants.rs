use vstd::prelude::*;
use crate::calc_coef::dup_value;
use crate::compute_graph::{LlvmTemp, Value, VarType};
use crate::ir_ops::ArithOp;
use crate::rearrange::{cong, lemma_cong_add, lemma_wrap32, operand, wrap32, ArithInstr};
use crate::rearrange_block::{
    block_ssa, block_step, lemma_run_block_take, reads_name, run_block, write_name, BlockFunc, BlockInstr, BlockProgram,
    ConvertOp, OtherKind,
};

verus! {

/// What is known of the temporaries written so far, by name: a base
/// operand and a literal offset, the temporary holding `base + offset`.
pub type Offsets = Map<Seq<char>, (Value, i32)>;

/// What a temporary is known to hold: its recorded base and offset, or
/// itself plus nothing.
pub open spec fn base_of(sets: Offsets, t: LlvmTemp) -> (Value, i32) {
    if sets.contains_key(t.name@) {
        sets[t.name@]
    } else {
        (Value::Temp(t), 0i32)
    }
}

/// `1` for an addition, `-1` for a subtraction.
pub open spec fn sign(op: ArithOp) -> int {
    if op == ArithOp::Add {
        1
    } else {
        -1
    }
}

pub open spec fn in_i32(x: int) -> bool {
    i32::MIN <= x <= i32::MAX
}

/// An addition or subtraction.
pub open spec fn add_or_sub(op: ArithOp) -> bool {
    op == ArithOp::Add || op == ArithOp::Sub
}

/// Folding `a` computes its literals within `i32`.
pub open spec fn fold_fits(sets: Offsets, a: ArithInstr) -> bool {
    let w = sign(a.op);
    add_or_sub(a.op) ==> match (a.lhs, a.rhs) {
        (Value::Int(x), Value::Int(y)) => in_i32(y * w) && in_i32(x + y * w),
        (Value::Int(x), Value::Temp(t)) => {
            let o = base_of(sets, t).1;
            in_i32(o * w) && in_i32(x + o * w)
        },
        (Value::Temp(t), Value::Int(y)) => {
            let o = base_of(sets, t).1;
            in_i32(o * w) && in_i32(y + o * w) && in_i32(y * w) && in_i32(o + y * w)
        },
        _ => true,
    }
}

/// The instruction that replaces `a`: an addition or subtraction of two
/// literals becomes `literal + 0`; one of a literal and a temporary reads
/// the temporary's base and folds its offset into the literal.
pub open spec fn fold_arith(sets: Offsets, a: ArithInstr) -> ArithInstr {
    let w = sign(a.op);
    if !add_or_sub(a.op) {
        a
    } else {
        match (a.lhs, a.rhs) {
            (Value::Int(x), Value::Int(y)) => ArithInstr {
                target: a.target,
                op: ArithOp::Add,
                var_type: VarType::I32,
                lhs: Value::Int((x + y * w) as i32),
                rhs: Value::Int(0),
            },
            (Value::Int(x), Value::Temp(t)) => ArithInstr {
                target: a.target,
                op: a.op,
                var_type: VarType::I32,
                lhs: Value::Int((x + base_of(sets, t).1 * w) as i32),
                rhs: base_of(sets, t).0,
            },
            (Value::Temp(t), Value::Int(y)) => ArithInstr {
                target: a.target,
                op: a.op,
                var_type: VarType::I32,
                lhs: base_of(sets, t).0,
                rhs: Value::Int((y + base_of(sets, t).1 * w) as i32),
            },
            _ => a,
        }
    }
}

/// What is known after `a`.
pub open spec fn fold_sets(sets: Offsets, a: ArithInstr) -> Offsets {
    let w = sign(a.op);
    if !add_or_sub(a.op) {
        sets
    } else {
        match (a.lhs, a.rhs) {
            (Value::Int(x), Value::Int(y)) => sets.insert(a.target.name@, (Value::Int((x + y * w) as i32), 0i32)),
            (Value::Int(x), Value::Temp(t)) => if a.op == ArithOp::Add {
                sets.insert(a.target.name@, (base_of(sets, t).0, (x + base_of(sets, t).1) as i32))
            } else {
                sets
            },
            (Value::Temp(t), Value::Int(y)) => sets.insert(a.target.name@, (base_of(sets, t).0, (base_of(sets, t).1 + y * w) as i32)),
            _ => sets,
        }
    }
}

/// What is known after the first `k` instructions of `b`.
pub open spec fn sets_after(b: Seq<BlockInstr>, k: int) -> Offsets
    decreases k,
{
    if k <= 0 || k > b.len() {
        Map::empty()
    } else {
        let s = sets_after(b, k - 1);
        match b[k - 1] {
            BlockInstr::Arith(a) => fold_sets(s, a),
            _ => s,
        }
    }
}

/// Folding the block computes its literals within `i32`.
pub open spec fn block_fits(b: Seq<BlockInstr>) -> bool {
    forall|k: int| 0 <= k < b.len() && (#[trigger] b[k]) is Arith ==> fold_fits(sets_after(b, k), b[k]->Arith_0)
}

/// A conversion of a literal, which the pass folds.
pub open spec fn literal_convert(i: BlockInstr) -> bool {
    i matches BlockInstr::Other(o) && o.target is Some && o.reads@.len() == 1 && (
        (o.kind == OtherKind::Convert(ConvertOp::Int2Float) && o.reads@[0] is Int)
        || (o.kind == OtherKind::Convert(ConvertOp::Float2Int) && o.reads@[0] is Float))
}

/// The instruction that replaces `i`, a conversion of a literal aside.
pub open spec fn fold_one(sets: Offsets, i: BlockInstr) -> BlockInstr {
    match i {
        BlockInstr::Arith(a) => BlockInstr::Arith(fold_arith(sets, a)),
        _ => i,
    }
}

/// The additions and subtractions the pass folds are `i32` ones.
pub open spec fn literal_adds_i32(b: Seq<BlockInstr>) -> bool {
    forall|k: int| 0 <= k < b.len() && (#[trigger] b[k]) is Arith && add_or_sub(b[k]->Arith_0.op)
        && ((b[k]->Arith_0.lhs is Int && !(b[k]->Arith_0.rhs is Float)) || (b[k]->Arith_0.lhs is Temp && b[k]->Arith_0.rhs is Int))
        ==> b[k]->Arith_0.var_type == VarType::I32
}

/// The block converts no literal.
pub open spec fn no_literal_converts(b: Seq<BlockInstr>) -> bool {
    forall|k: int| 0 <= k < b.len() ==> !literal_convert(#[trigger] b[k])
}

/// The first `k` instructions of `b`, folded.
pub open spec fn folded_prefix(b: Seq<BlockInstr>, k: int) -> Seq<BlockInstr> {
    Seq::new(k as nat, |i: int| fold_one(sets_after(b, i), b[i]))
}

/// A literal, or a temporary read by one of the first `k` instructions.
pub open spec fn base_read_before(v: Value, b: Seq<BlockInstr>, k: int) -> bool {
    v is Temp ==> exists|i: int| 0 <= i < k && reads_name(b[i], v->Temp_0.name@)
}

/// Every recorded temporary holds, in `e`, its base plus its offset.
pub open spec fn offsets_valid(s: Offsets, e: spec_fn(Seq<char>) -> int) -> bool {
    forall|n: Seq<char>| #[trigger] s.contains_key(n) ==> e(n) == wrap32(operand(s[n].0, e) + s[n].1)
}

/// What the recorded bases say of a temporary, up to wrapping.
pub proof fn lemma_base_cong(s: Offsets, e: spec_fn(Seq<char>) -> int, t: LlvmTemp)
    requires
        offsets_valid(s, e),
    ensures
        cong(e(t.name@), operand(base_of(s, t).0, e) + base_of(s, t).1),
{
    if s.contains_key(t.name@) {
        lemma_wrap32(operand(s[t.name@].0, e) + s[t.name@].1, 0);
    } else {
        lemma_wrap32(e(t.name@), 0);
    }
}

/// The folded instruction stores what the instruction stores.
pub proof fn lemma_fold_step(
    s: Offsets,
    a: ArithInstr,
    e: spec_fn(Seq<char>) -> int,
    asem: spec_fn(ArithInstr, int, int) -> int,
    osem: spec_fn(crate::rearrange_block::OtherInstr, Seq<int>) -> int,
)
    requires
        offsets_valid(s, e),
        fold_fits(s, a),
        add_or_sub(a.op) && ((a.lhs is Int && !(a.rhs is Float)) || (a.lhs is Temp && a.rhs is Int)) ==> a.var_type == VarType::I32,
    ensures
        block_step(e, BlockInstr::Arith(fold_arith(s, a)), asem, osem) == block_step(e, BlockInstr::Arith(a), asem, osem),
{
    let new = block_step(e, BlockInstr::Arith(fold_arith(s, a)), asem, osem);
    let old = block_step(e, BlockInstr::Arith(a), asem, osem);
    let w = sign(a.op);
    assert forall|n: Seq<char>| #[trigger] new(n) == old(n) by {
        if add_or_sub(a.op) && n == a.target.name@ {
            match (a.lhs, a.rhs) {
                (Value::Int(x), Value::Int(y)) => {
                    lemma_wrap32(x + y * w, 0);
                },
                (Value::Int(x), Value::Temp(t)) => {
                    let v = base_of(s, t).0;
                    let o = base_of(s, t).1;
                    lemma_base_cong(s, e, t);
                    let et = e(t.name@);
                    let ev = operand(v, e);
                    lemma_cong_add(x as int, x as int, et, ev + o);
                    if a.op == ArithOp::Add {
                        lemma_wrap32(x + et, (x + o) + ev);
                    } else {
                        lemma_wrap32(x - et, (x - o) - ev);
                    }
                },
                (Value::Temp(t), Value::Int(y)) => {
                    let v = base_of(s, t).0;
                    let o = base_of(s, t).1;
                    lemma_base_cong(s, e, t);
                    let et = e(t.name@);
                    let ev = operand(v, e);
                    lemma_cong_add(et, ev + o, y as int, y as int);
                    if a.op == ArithOp::Add {
                        lemma_wrap32(et + y, ev + (y + o));
                    } else {
                        lemma_wrap32(et - y, ev - (y - o));
                    }
                },
                _ => {},
            }
        }
    }
    assert(new =~= old);
}

/// What the recorded bases and offsets of the block say, with where they
/// come from, after its first `k` instructions.
pub open spec fn offsets_facts(b: Seq<BlockInstr>, k: int, e: spec_fn(Seq<char>) -> int) -> bool {
    &&& offsets_valid(sets_after(b, k), e)
    &&& forall|n: Seq<char>| #[trigger] sets_after(b, k).contains_key(n) ==> {
        let v = sets_after(b, k)[n].0;
        &&& !(v is Float)
        &&& base_read_before(v, b, k)
        &&& exists|i: int| 0 <= i < k && write_name(b[i]) == Some(n)
    }
}

/// Instruction `k - 1` keeps the facts.
pub proof fn lemma_offsets_step(
    b: Seq<BlockInstr>,
    k: int,
    e: spec_fn(Seq<char>) -> int,
    asem: spec_fn(ArithInstr, int, int) -> int,
    osem: spec_fn(crate::rearrange_block::OtherInstr, Seq<int>) -> int,
)
    requires
        block_ssa(b),
        block_fits(b),
        literal_adds_i32(b),
        0 < k <= b.len(),
        offsets_facts(b, k - 1, e),
    ensures
        offsets_facts(b, k, block_step(e, b[k - 1], asem, osem)),
{
    let s = sets_after(b, k - 1);
    let i = b[k - 1];
    let old = block_step(e, i, asem, osem);
    let s2 = sets_after(b, k);
    assert(s2 == match i {
        BlockInstr::Arith(a) => fold_sets(s, a),
        _ => s,
    });
    // a base read before instruction `k - 1`, or by it, is not written by it
    assert forall|v: Value| #[trigger] base_read_before(v, b, k) && v is Temp implies operand(v, old) == operand(v, e) by {
        let p = choose|p: int| 0 <= p < k && reads_name(b[p], v->Temp_0.name@);
        assert(reads_name(b[p], v->Temp_0.name@));
        assert(write_name(b[k - 1]) != Some(v->Temp_0.name@));
        crate::rearrange_block::lemma_step_keeps(e, i, asem, osem, v->Temp_0.name@);
    }
    assert forall|n: Seq<char>| #[trigger] s2.contains_key(n) implies old(n) == wrap32(operand(s2[n].0, old) + s2[n].1)
        && !(s2[n].0 is Float) && base_read_before(s2[n].0, b, k)
        && exists|q: int| 0 <= q < k && write_name(b[q]) == Some(n) by {
        let v = s2[n].0;
        let o = s2[n].1;
        if s.contains_key(n) && s2[n] == s[n] && write_name(i) != Some(n) {
            let q = choose|q: int| 0 <= q < k - 1 && write_name(b[q]) == Some(n);
            crate::rearrange_block::lemma_step_keeps(e, i, asem, osem, n);
            assert(base_read_before(v, b, k - 1));
            assert(base_read_before(v, b, k));
            if v is Temp {
                assert(operand(v, old) == operand(v, e));
            }
        } else {
            let a = i->Arith_0;
            let w = sign(a.op);
            assert(i is Arith);
            assert(fold_fits(s, a));
            assert(add_or_sub(a.op));
            assert(n == a.target.name@);
            assert(write_name(b[k - 1]) == Some(n));
            assert(a.var_type == VarType::I32);
            match (a.lhs, a.rhs) {
                (Value::Int(x), Value::Int(y)) => {
                    lemma_wrap32(x + y * w, 0);
                },
                (Value::Int(x), Value::Temp(t)) => {
                    let bv = base_of(s, t).0;
                    let bo = base_of(s, t).1;
                    assert(a.op == ArithOp::Add);
                    assert(v == bv);
                    lemma_base_cong(s, e, t);
                    let et = e(t.name@);
                    let ev = operand(bv, e);
                    if s.contains_key(t.name@) {
                        assert(base_read_before(bv, b, k - 1));
                    } else {
                        assert(reads_name(b[k - 1], t.name@));
                    }
                    assert(base_read_before(bv, b, k));
                    if bv is Temp {
                        assert(operand(bv, old) == ev);
                    }
                    lemma_cong_add(x as int, x as int, et, ev + bo);
                    lemma_wrap32(x + et, ev + (x + bo));
                },
                (Value::Temp(t), Value::Int(y)) => {
                    let bv = base_of(s, t).0;
                    let bo = base_of(s, t).1;
                    assert(v == bv);
                    lemma_base_cong(s, e, t);
                    let et = e(t.name@);
                    let ev = operand(bv, e);
                    if s.contains_key(t.name@) {
                        assert(base_read_before(bv, b, k - 1));
                    } else {
                        assert(reads_name(b[k - 1], t.name@));
                    }
                    assert(base_read_before(bv, b, k));
                    if bv is Temp {
                        assert(operand(bv, old) == ev);
                    }
                    lemma_cong_add(et, ev + bo, y * w, y * w);
                    lemma_wrap32(et + y * w, ev + (bo + y * w));
                },
                _ => {},
            }
        }
    }
}

/// Running the folded instructions gives the values running the block
/// gives, and every temporary recorded holds its base plus its offset.
pub proof fn lemma_fold_values(
    b: Seq<BlockInstr>,
    k: int,
    env: spec_fn(Seq<char>) -> int,
    asem: spec_fn(ArithInstr, int, int) -> int,
    osem: spec_fn(crate::rearrange_block::OtherInstr, Seq<int>) -> int,
)
    requires
        block_ssa(b),
        block_fits(b),
        literal_adds_i32(b),
        no_literal_converts(b),
        0 <= k <= b.len(),
    ensures
        run_block(folded_prefix(b, k), env, asem, osem) == run_block(b.take(k), env, asem, osem),
        offsets_facts(b, k, run_block(b.take(k), env, asem, osem)),
    decreases k,
{
    if k == 0 {
        assert(folded_prefix(b, 0) =~= Seq::<BlockInstr>::empty());
        assert(b.take(0) =~= Seq::<BlockInstr>::empty());
        assert(sets_after(b, 0) == Map::<Seq<char>, (Value, i32)>::empty());
    } else {
        lemma_fold_values(b, k - 1, env, asem, osem);
        let s = sets_after(b, k - 1);
        let e = run_block(b.take(k - 1), env, asem, osem);
        let i = b[k - 1];
        lemma_run_block_take(b, k - 1, env, asem, osem);
        assert(folded_prefix(b, k).drop_last() =~= folded_prefix(b, k - 1));
        assert(folded_prefix(b, k).last() == fold_one(s, i));
        if let BlockInstr::Arith(a) = i {
            assert(fold_fits(s, a));
            lemma_fold_step(s, a, e, asem, osem);
        }
        lemma_offsets_step(b, k, e, asem, osem);
    }
}

/// `r` is the folded conversion `i`: an `i32` literal converted by
/// `int_to_float` and added to `0.0`, or an `f32` literal converted by
/// `float_to_int` and added to `0`.
pub open spec fn converted<F: Fn(i32) -> u32, G: Fn(u32) -> i32>(i: BlockInstr, r: BlockInstr, int_to_float: F, float_to_int: G) -> bool {
    match i {
        BlockInstr::Other(o) => match o.reads@[0] {
            Value::Int(t) => exists|bits: u32| call_ensures(int_to_float, (t,), bits) && r == BlockInstr::Arith(ArithInstr {
                target: o.target->0,
                op: ArithOp::Fadd,
                var_type: VarType::F32,
                lhs: Value::Float(bits),
                rhs: Value::Float(0),
            }),
            Value::Float(f) => exists|n: i32| call_ensures(float_to_int, (f,), n) && r == BlockInstr::Arith(ArithInstr {
                target: o.target->0,
                op: ArithOp::Add,
                var_type: VarType::I32,
                lhs: Value::Int(n),
                rhs: Value::Int(0),
            }),
            _ => false,
        },
        _ => false,
    }
}

/// The recorded offsets, by name, hold `s`.
pub open spec fn offsets_hold(sets: Seq<(String, Value, i32)>, s: Offsets) -> bool {
    &&& forall|i: int, j: int| 0 <= i < j < sets.len() ==> (#[trigger] sets[i]).0@ != (#[trigger] sets[j]).0@
    &&& forall|n: Seq<char>| #[trigger] s.contains_key(n) <==> exists|i: int| 0 <= i < sets.len() && sets[i].0@ == n
    &&& forall|i: int| 0 <= i < sets.len() ==> s[(#[trigger] sets[i]).0@] == (sets[i].1, sets[i].2)
}

fn find_offset(sets: &Vec<(String, Value, i32)>, name: &String) -> (r: Option<usize>)
    ensures
        r matches Some(i) ==> i < sets@.len() && sets@[i as int].0@ == name@,
        r is None ==> forall|i: int| 0 <= i < sets@.len() ==> (#[trigger] sets@[i]).0@ != name@,
{
    let mut i: usize = 0;
    while i < sets.len()
        invariant
            i <= sets@.len(),
            forall|j: int| 0 <= j < i ==> (#[trigger] sets@[j]).0@ != name@,
        decreases sets.len() - i,
    {
        if sets[i].0 == *name {
            return Some(i);
        }
        i = i + 1;
    }
    None
}

/// What the temporary `t` is known to hold.
fn lookup_base(sets: &Vec<(String, Value, i32)>, t: &LlvmTemp, Ghost(s): Ghost<Offsets>) -> (r: (Value, i32))
    requires
        offsets_hold(sets@, s),
    ensures
        r == base_of(s, *t),
{
    match find_offset(sets, &t.name) {
        Some(i) => {
            proof {
                assert(s.contains_key(sets@[i as int].0@));
            }
            (dup_value(&sets[i].1), sets[i].2)
        },
        None => {
            proof {
                if s.contains_key(t.name@) {
                    let i = choose|i: int| 0 <= i < sets@.len() && sets@[i].0@ == t.name@;
                    assert(sets@[i].0@ != t.name@);
                }
            }
            (Value::Temp(t.dup()), 0)
        },
    }
}

/// Records (or replaces) what the temporary named `name` holds.
fn record_offset(sets: &mut Vec<(String, Value, i32)>, name: String, base: Value, offset: i32, Ghost(s): Ghost<Offsets>)
    requires
        offsets_hold(old(sets)@, s),
    ensures
        offsets_hold(final(sets)@, s.insert(name@, (base, offset))),
{
    let ghost nm = name@;
    let ghost s2 = s.insert(nm, (base, offset));
    let ghost old_sets = sets@;
    match find_offset(sets, &name) {
        Some(i) => {
            sets.set(i, (name, base, offset));
            proof {
                assert forall|n: Seq<char>| #[trigger] s2.contains_key(n) <==> exists|j: int| 0 <= j < sets@.len() && sets@[j].0@ == n by {
                    if n == nm {
                        assert(sets@[i as int].0@ == n);
                    } else if s.contains_key(n) {
                        let j = choose|j: int| 0 <= j < old_sets.len() && old_sets[j].0@ == n;
                        assert(sets@[j].0@ == n);
                    } else {
                        if exists|j: int| 0 <= j < sets@.len() && sets@[j].0@ == n {
                            let j = choose|j: int| 0 <= j < sets@.len() && sets@[j].0@ == n;
                            assert(j != i);
                            assert(old_sets[j].0@ == n);
                        }
                    }
                }
                assert forall|j: int| 0 <= j < sets@.len() implies s2[(#[trigger] sets@[j]).0@] == (sets@[j].1, sets@[j].2) by {
                    if j != i {
                        assert(sets@[j] == old_sets[j]);
                        assert(old_sets[j].0@ != nm);
                    }
                }
            }
        },
        None => {
            sets.push((name, base, offset));
            proof {
                assert forall|n: Seq<char>| #[trigger] s2.contains_key(n) <==> exists|j: int| 0 <= j < sets@.len() && sets@[j].0@ == n by {
                    if n == nm {
                        assert(sets@[old_sets.len() as int].0@ == n);
                    } else if s.contains_key(n) {
                        let j = choose|j: int| 0 <= j < old_sets.len() && old_sets[j].0@ == n;
                        assert(sets@[j].0@ == n);
                    } else {
                        if exists|j: int| 0 <= j < sets@.len() && sets@[j].0@ == n {
                            let j = choose|j: int| 0 <= j < sets@.len() && sets@[j].0@ == n;
                            assert(j < old_sets.len());
                            assert(old_sets[j].0@ == n);
                        }
                    }
                }
                assert forall|j: int| 0 <= j < sets@.len() implies s2[(#[trigger] sets@[j]).0@] == (sets@[j].1, sets@[j].2) by {
                    if j < old_sets.len() {
                        assert(sets@[j] == old_sets[j]);
                        assert(old_sets[j].0@ != nm);
                    }
                }
                assert forall|i: int, j: int| 0 <= i < j < sets@.len() implies (#[trigger] sets@[i]).0@ != (#[trigger] sets@[j]).0@ by {
                    assert(sets@[i] == old_sets[i]);
                    if j < old_sets.len() {
                        assert(sets@[j] == old_sets[j]);
                    }
                }
            }
        },
    }
}

/// Folds the literal arithmetic of one basic block, instruction by
/// instruction: an addition or subtraction of two literals becomes
/// `literal + 0`; one of a literal and a temporary known to hold
/// `base + offset` reads the base and folds the offset into the literal;
/// a conversion of a literal becomes the converted literal plus zero.
/// Every other instruction is kept.
pub fn fold_block<F: Fn(i32) -> u32, G: Fn(u32) -> i32>(block: Vec<BlockInstr>, int_to_float: &F, float_to_int: &G)
    -> (r: Vec<BlockInstr>)
    requires
        block_fits(block@),
        forall|t: i32| call_requires(*int_to_float, (t,)),
        forall|f: u32| call_requires(*float_to_int, (f,)),
    ensures
        r@.len() == block@.len(),
        forall|k: int| 0 <= k < block@.len() && !literal_convert(block@[k])
            ==> #[trigger] r@[k] == fold_one(sets_after(block@, k), block@[k]),
        forall|k: int| 0 <= k < block@.len() && literal_convert(block@[k])
            ==> converted(block@[k], #[trigger] r@[k], *int_to_float, *float_to_int),
        block_ssa(block@) && literal_adds_i32(block@) && no_literal_converts(block@) ==>
            forall|env: spec_fn(Seq<char>) -> int, asem: spec_fn(ArithInstr, int, int) -> int,
                osem: spec_fn(crate::rearrange_block::OtherInstr, Seq<int>) -> int|
                #[trigger] run_block(r@, env, asem, osem) == run_block(block@, env, asem, osem),
{
    let ghost b = block@;
    let mut sets: Vec<(String, Value, i32)> = Vec::new();
    let mut out: Vec<BlockInstr> = Vec::new();
    let mut src = block;
    proof {
        assert(b.subrange(0, b.len() as int) =~= b);
        assert(sets_after(b, 0) == Map::<Seq<char>, (Value, i32)>::empty());
    }
    while src.len() > 0
        invariant
            out@.len() + src@.len() == b.len(),
            src@ == b.subrange(out@.len() as int, b.len() as int),
            offsets_hold(sets@, sets_after(b, out@.len() as int)),
            block_fits(b),
            forall|t: i32| call_requires(*int_to_float, (t,)),
            forall|f: u32| call_requires(*float_to_int, (f,)),
            forall|k: int| 0 <= k < out@.len() && !literal_convert(b[k]) ==> #[trigger] out@[k] == fold_one(sets_after(b, k), b[k]),
            forall|k: int| 0 <= k < out@.len() && literal_convert(b[k]) ==> converted(b[k], #[trigger] out@[k], *int_to_float, *float_to_int),
        decreases src.len(),
    {
        let ghost k = out@.len() as int;
        let ghost sk = sets_after(b, k);
        let ghost ob = out@;
        let instr = src.remove(0);
        proof {
            assert(instr == b[k]);
            assert(src@ =~= b.subrange(k + 1, b.len() as int));
        }
        let ghost gi = instr;
        match instr {
            BlockInstr::Arith(a) => {
                proof {
                    assert(fold_fits(sk, a));
                }
                if a.op == ArithOp::Add || a.op == ArithOp::Sub {
                    let w: i32 = if a.op == ArithOp::Add { 1 } else { -1 };
                    match &a.lhs {
                        Value::Int(x) => {
                            match &a.rhs {
                                Value::Int(y) => {
                                    let num = *x + *y * w;
                                    record_offset(&mut sets, a.target.name.clone(), Value::Int(num), 0, Ghost(sk));
                                    out.push(BlockInstr::Arith(ArithInstr {
                                        target: a.target.dup(),
                                        op: ArithOp::Add,
                                        var_type: VarType::I32,
                                        lhs: Value::Int(num),
                                        rhs: Value::Int(0),
                                    }));
                                },
                                Value::Temp(t) => {
                                    let (var, o) = lookup_base(&sets, t, Ghost(sk));
                                    if a.op == ArithOp::Add {
                                        record_offset(&mut sets, a.target.name.clone(), dup_value(&var), *x + o, Ghost(sk));
                                    }
                                    out.push(BlockInstr::Arith(ArithInstr {
                                        target: a.target.dup(),
                                        op: a.op,
                                        var_type: VarType::I32,
                                        lhs: Value::Int(*x + o * w),
                                        rhs: var,
                                    }));
                                },
                                Value::Float(_) => {
                                    out.push(BlockInstr::Arith(a));
                                },
                            }
                        },
                        Value::Temp(t) => {
                            match &a.rhs {
                                Value::Int(y) => {
                                    let (var, o) = lookup_base(&sets, t, Ghost(sk));
                                    record_offset(&mut sets, a.target.name.clone(), dup_value(&var), o + *y * w, Ghost(sk));
                                    out.push(BlockInstr::Arith(ArithInstr {
                                        target: a.target.dup(),
                                        op: a.op,
                                        var_type: VarType::I32,
                                        lhs: var,
                                        rhs: Value::Int(*y + o * w),
                                    }));
                                },
                                _ => {
                                    out.push(BlockInstr::Arith(a));
                                },
                            }
                        },
                        Value::Float(_) => {
                            out.push(BlockInstr::Arith(a));
                        },
                    }
                } else {
                    out.push(BlockInstr::Arith(a));
                }
            },
            BlockInstr::Other(o) => {
                let folded = match (o.kind, &o.target) {
                    (OtherKind::Convert(ConvertOp::Int2Float), Some(target)) => {
                        if o.reads.len() == 1 {
                            match &o.reads[0] {
                                Value::Int(t) => {
                                    let bits = int_to_float(*t);
                                    Some(BlockInstr::Arith(ArithInstr {
                                        target: target.dup(),
                                        op: ArithOp::Fadd,
                                        var_type: VarType::F32,
                                        lhs: Value::Float(bits),
                                        rhs: Value::Float(0),
                                    }))
                                },
                                _ => None,
                            }
                        } else {
                            None
                        }
                    },
                    (OtherKind::Convert(ConvertOp::Float2Int), Some(target)) => {
                        if o.reads.len() == 1 {
                            match &o.reads[0] {
                                Value::Float(f) => {
                                    let n = float_to_int(*f);
                                    Some(BlockInstr::Arith(ArithInstr {
                                        target: target.dup(),
                                        op: ArithOp::Add,
                                        var_type: VarType::I32,
                                        lhs: Value::Int(n),
                                        rhs: Value::Int(0),
                                    }))
                                },
                                _ => None,
                            }
                        } else {
                            None
                        }
                    },
                    _ => None,
                };
                match folded {
                    Some(f) => {
                        out.push(f);
                    },
                    None => {
                        out.push(BlockInstr::Other(o));
                    },
                }
            },
        }
        proof {
            assert(sets_after(b, k + 1) == match gi {
                BlockInstr::Arith(a) => fold_sets(sk, a),
                _ => sk,
            });
            assert forall|j: int| 0 <= j < out@.len() && !literal_convert(b[j]) implies #[trigger] out@[j] == fold_one(sets_after(b, j), b[j]) by {
                if j < k {
                    assert(out@[j] == ob[j]);
                }
            }
            assert forall|j: int| 0 <= j < out@.len() && literal_convert(b[j]) implies converted(b[j], #[trigger] out@[j], *int_to_float, *float_to_int) by {
                if j < k {
                    assert(out@[j] == ob[j]);
                }
            }
        }
    }
    proof {
        if block_ssa(b) && literal_adds_i32(b) && no_literal_converts(b) {
            assert(out@ =~= folded_prefix(b, b.len() as int)) by {
                assert forall|j: int| 0 <= j < b.len() implies out@[j] == folded_prefix(b, b.len() as int)[j] by {
                    assert(!literal_convert(b[j]));
                }
            }
            assert(b.take(b.len() as int) =~= b);
            assert forall|env: spec_fn(Seq<char>) -> int, asem: spec_fn(ArithInstr, int, int) -> int,
                osem: spec_fn(crate::rearrange_block::OtherInstr, Seq<int>) -> int|
                #[trigger] run_block(out@, env, asem, osem) == run_block(b, env, asem, osem) by {
                lemma_fold_values(b, b.len() as int, env, asem, osem);
            }
        }
    }
    out
}

/// `r` is what `fold_block` makes of `b`: each instruction folded against
/// the literal sets before it, each conversion of a literal converted.
pub open spec fn block_folded<F: Fn(i32) -> u32, G: Fn(u32) -> i32>(b: Seq<BlockInstr>, r: Seq<BlockInstr>, int_to_float: F, float_to_int: G) -> bool {
    &&& r.len() == b.len()
    &&& forall|k: int| 0 <= k < b.len() && !literal_convert(b[k]) ==> #[trigger] r[k] == fold_one(sets_after(b, k), b[k])
    &&& forall|k: int| 0 <= k < b.len() && literal_convert(b[k]) ==> converted(b[k], #[trigger] r[k], int_to_float, float_to_int)
}

/// The constant folding pass.
pub struct FoldConstants {}

impl FoldConstants {
    pub fn new() -> (r: Self)
        ensures
            r == (FoldConstants {}),
    {
        FoldConstants {}
    }

    /// Folds the literal arithmetic of every block of every function
    /// (`fold_block`), converting literals with `int_to_float` and
    /// `float_to_int`. Reports no change.
    pub fn apply<F: Fn(i32) -> u32, G: Fn(u32) -> i32>(self, program: &mut BlockProgram, int_to_float: &F, float_to_int: &G)
        -> (r: bool)
        requires
            forall|f: int, i: int| 0 <= f < old(program).funcs@.len() && 0 <= i < old(program).funcs@[f].blocks@.len()
                ==> block_fits(#[trigger] old(program).funcs@[f].blocks@[i]@),
            forall|t: i32| call_requires(*int_to_float, (t,)),
            forall|f: u32| call_requires(*float_to_int, (f,)),
        ensures
            !r,
            final(program).next_temp == old(program).next_temp,
            final(program).funcs@.len() == old(program).funcs@.len(),
            forall|f: int| 0 <= f < old(program).funcs@.len()
                ==> (#[trigger] final(program).funcs@[f]).blocks@.len() == old(program).funcs@[f].blocks@.len(),
            forall|f: int, i: int| 0 <= f < old(program).funcs@.len() && 0 <= i < old(program).funcs@[f].blocks@.len()
                ==> (#[trigger] final(program).funcs@[f].blocks@[i])@.len() == old(program).funcs@[f].blocks@[i]@.len(),
            forall|f: int, i: int| 0 <= f < old(program).funcs@.len() && 0 <= i < old(program).funcs@[f].blocks@.len()
                ==> block_folded(old(program).funcs@[f].blocks@[i]@, (#[trigger] final(program).funcs@[f].blocks@[i])@,
                    *int_to_float, *float_to_int),
            forall|f: int, i: int| 0 <= f < old(program).funcs@.len() && 0 <= i < old(program).funcs@[f].blocks@.len()
                && block_ssa(#[trigger] old(program).funcs@[f].blocks@[i]@)
                && literal_adds_i32(old(program).funcs@[f].blocks@[i]@)
                && no_literal_converts(old(program).funcs@[f].blocks@[i]@)
                ==> forall|env: spec_fn(Seq<char>) -> int, asem: spec_fn(ArithInstr, int, int) -> int,
                    osem: spec_fn(crate::rearrange_block::OtherInstr, Seq<int>) -> int|
                    #[trigger] run_block(final(program).funcs@[f].blocks@[i]@, env, asem, osem)
                        == run_block(old(program).funcs@[f].blocks@[i]@, env, asem, osem),
    {
        let ghost of = program.funcs@;
        let mut f: usize = 0;
        while f < program.funcs.len()
            invariant
                f <= program.funcs@.len(),
                program.funcs@.len() == of.len(),
                program.next_temp == old(program).next_temp,
                of == old(program).funcs@,
                forall|j: int| f <= j < of.len() ==> #[trigger] program.funcs@[j] == of[j],
                forall|j: int, i: int| 0 <= j < of.len() && 0 <= i < of[j].blocks@.len() ==> block_fits(#[trigger] of[j].blocks@[i]@),
                forall|t: i32| call_requires(*int_to_float, (t,)),
                forall|x: u32| call_requires(*float_to_int, (x,)),
                forall|j: int| 0 <= j < f ==> (#[trigger] program.funcs@[j]).blocks@.len() == of[j].blocks@.len(),
                forall|j: int, i: int| 0 <= j < f && 0 <= i < of[j].blocks@.len()
                    ==> (#[trigger] program.funcs@[j].blocks@[i])@.len() == of[j].blocks@[i]@.len(),
                forall|j: int, i: int| 0 <= j < f && 0 <= i < of[j].blocks@.len()
                    ==> block_folded(of[j].blocks@[i]@, (#[trigger] program.funcs@[j].blocks@[i])@, *int_to_float, *float_to_int),
                forall|j: int, i: int| 0 <= j < f && 0 <= i < of[j].blocks@.len() && block_ssa(#[trigger] of[j].blocks@[i]@)
                    && literal_adds_i32(of[j].blocks@[i]@) && no_literal_converts(of[j].blocks@[i]@)
                    ==> forall|env: spec_fn(Seq<char>) -> int, asem: spec_fn(ArithInstr, int, int) -> int,
                        osem: spec_fn(crate::rearrange_block::OtherInstr, Seq<int>) -> int|
                        #[trigger] run_block(program.funcs@[j].blocks@[i]@, env, asem, osem) == run_block(of[j].blocks@[i]@, env, asem, osem),
            decreases program.funcs.len() - f,
        {
            let mut func = BlockFunc { blocks: Vec::new() };
            std::mem::swap(&mut func, &mut program.funcs[f]);
            let ghost fb = func.blocks@;
            proof {
                assert(fb == of[f as int].blocks@);
            }
            let mut i: usize = 0;
            while i < func.blocks.len()
                invariant
                    i <= func.blocks@.len(),
                    func.blocks@.len() == fb.len(),
                    forall|q: int| i <= q < fb.len() ==> #[trigger] func.blocks@[q] == fb[q],
                    forall|q: int| 0 <= q < fb.len() ==> block_fits(#[trigger] fb[q]@),
                    forall|t: i32| call_requires(*int_to_float, (t,)),
                    forall|x: u32| call_requires(*float_to_int, (x,)),
                    forall|q: int| 0 <= q < i ==> (#[trigger] func.blocks@[q])@.len() == fb[q]@.len(),
                    forall|q: int| 0 <= q < i ==> block_folded(fb[q]@, (#[trigger] func.blocks@[q])@, *int_to_float, *float_to_int),
                    forall|q: int| 0 <= q < i && block_ssa(#[trigger] fb[q]@) && literal_adds_i32(fb[q]@) && no_literal_converts(fb[q]@)
                        ==> forall|env: spec_fn(Seq<char>) -> int, asem: spec_fn(ArithInstr, int, int) -> int,
                            osem: spec_fn(crate::rearrange_block::OtherInstr, Seq<int>) -> int|
                            #[trigger] run_block(func.blocks@[q]@, env, asem, osem) == run_block(fb[q]@, env, asem, osem),
                decreases func.blocks.len() - i,
            {
                let mut block: Vec<BlockInstr> = Vec::new();
                std::mem::swap(&mut block, &mut func.blocks[i]);
                proof {
                    assert(block@ == fb[i as int]@);
                }
                let folded = fold_block(block, int_to_float, float_to_int);
                let ghost pb = func.blocks@;
                func.blocks.set(i, folded);
                proof {
                    assert forall|q: int| 0 <= q < i + 1 implies (#[trigger] func.blocks@[q])@.len() == fb[q]@.len() by {
                        if q < i {
                            assert(func.blocks@[q] == pb[q]);
                        }
                    }
                    assert(block_folded(fb[i as int]@, folded@, *int_to_float, *float_to_int));
                    assert forall|q: int| 0 <= q < i + 1 implies block_folded(fb[q]@, (#[trigger] func.blocks@[q])@, *int_to_float, *float_to_int) by {
                        if q < i {
                            assert(func.blocks@[q] == pb[q]);
                        }
                    }
                    assert forall|q: int| 0 <= q < i + 1 && block_ssa(#[trigger] fb[q]@) && literal_adds_i32(fb[q]@) && no_literal_converts(fb[q]@)
                        implies forall|env: spec_fn(Seq<char>) -> int, asem: spec_fn(ArithInstr, int, int) -> int,
                            osem: spec_fn(crate::rearrange_block::OtherInstr, Seq<int>) -> int|
                            #[trigger] run_block(func.blocks@[q]@, env, asem, osem) == run_block(fb[q]@, env, asem, osem) by {
                        if q < i {
                            assert(func.blocks@[q] == pb[q]);
                        }
                    }
                }
                i = i + 1;
            }
            let ghost pf = program.funcs@;
            let ghost nf = func;
            program.funcs.set(f, func);
            proof {
                assert forall|j: int| 0 <= j < f + 1 implies (#[trigger] program.funcs@[j]).blocks@.len() == of[j].blocks@.len() by {
                    if j < f {
                        assert(program.funcs@[j] == pf[j]);
                    }
                }
                assert forall|j: int, q: int| 0 <= j < f + 1 && 0 <= q < of[j].blocks@.len()
                    implies (#[trigger] program.funcs@[j].blocks@[q])@.len() == of[j].blocks@[q]@.len() by {
                    if j < f {
                        assert(program.funcs@[j] == pf[j]);
                    } else {
                        assert(program.funcs@[j] == nf);
                    }
                }
                assert forall|j: int, q: int| 0 <= j < f + 1 && 0 <= q < of[j].blocks@.len()
                    implies block_folded(of[j].blocks@[q]@, (#[trigger] program.funcs@[j].blocks@[q])@, *int_to_float, *float_to_int) by {
                    if j < f {
                        assert(program.funcs@[j] == pf[j]);
                    } else {
                        assert(program.funcs@[j] == nf);
                        assert(of[j].blocks@ == fb);
                    }
                }
                assert forall|j: int, q: int| 0 <= j < f + 1 && 0 <= q < of[j].blocks@.len() && block_ssa(#[trigger] of[j].blocks@[q]@)
                    && literal_adds_i32(of[j].blocks@[q]@) && no_literal_converts(of[j].blocks@[q]@)
                    implies forall|env: spec_fn(Seq<char>) -> int, asem: spec_fn(ArithInstr, int, int) -> int,
                        osem: spec_fn(crate::rearrange_block::OtherInstr, Seq<int>) -> int|
                        #[trigger] run_block(program.funcs@[j].blocks@[q]@, env, asem, osem) == run_block(of[j].blocks@[q]@, env, asem, osem) by {
                    if j < f {
                        assert(program.funcs@[j] == pf[j]);
                    } else {
                        assert(program.funcs@[j] == nf);
                        assert(of[j].blocks@ == fb);
                    }
                }
            }
            f = f + 1;
        }
        false
    }
}

} // verus!
