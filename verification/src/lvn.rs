use vstd::prelude::*;
use rand::rngs::ThreadRng;
use rand::Rng;
use crate::ir_ops::ArithOp;
use crate::compute_graph::{LlvmTemp, Value, VarType};
use crate::rearrange_block::BlockInstr;

verus! {

#[verifier::external_type_specification]
#[verifier::external_body]
pub struct ExThreadRng(ThreadRng);

/// rand's `thread_rng()`: the thread-local generator, seeded by the system
/// on first use (rand panics there only where the system source cannot seed
/// it). Nothing is promised of its state.
#[verifier::external_body]
fn system_rng() -> ThreadRng {
    rand::thread_rng()
}

/// Draws a random `i32` from `rng` (rand's `Rng::gen::<i32>`); nothing is
/// promised of the value.
#[verifier::external_body]
fn gen_i32(rng: &mut ThreadRng) -> i32 {
    rng.gen::<i32>()
}

/// How many evaluation points the vector numbering of a block uses.
pub const LVN_VEC_LEN: usize = 16;

/// A vector of `len` random evaluations.
pub fn get_random_vec(len: usize) -> (r: Vec<i32>)
    ensures
        r@.len() == len,
{
    let mut rng = system_rng();
    let mut out: Vec<i32> = Vec::new();
    let mut i: usize = 0;
    while i < len
        invariant
            i <= len,
            out@.len() == i,
        decreases len - i,
    {
        out.push(gen_i32(&mut rng));
        i = i + 1;
    }
    out
}

/// The evaluation vector of an integer literal: the literal at every point.
pub fn literal_vec(value: i32) -> (r: Vec<i32>)
    ensures
        r@ == Seq::new(LVN_VEC_LEN as nat, |i: int| value),
{
    let mut out: Vec<i32> = Vec::new();
    let mut i: usize = 0;
    while i < LVN_VEC_LEN
        invariant
            i <= LVN_VEC_LEN,
            out@.len() == i,
            forall|j: int| 0 <= j < i ==> #[trigger] out@[j] == value,
        decreases LVN_VEC_LEN - i,
    {
        out.push(value);
        i = i + 1;
    }
    proof {
        assert(out@ =~= Seq::new(LVN_VEC_LEN as nat, |i: int| value));
    }
    out
}

/// Applies `f` pointwise to two evaluation vectors, up to the shorter one.
pub fn calculate_vecs<F: Fn(i32, i32) -> i32>(v1: Vec<i32>, v2: Vec<i32>, f: F) -> (r: Vec<i32>)
    requires
        forall|i: int| 0 <= i < v1@.len() && i < v2@.len() ==> call_requires(f, (#[trigger] v1@[i], v2@[i])),
    ensures
        r@.len() == if v1@.len() <= v2@.len() { v1@.len() } else { v2@.len() },
        forall|i: int| 0 <= i < r@.len() ==> call_ensures(f, (v1@[i], v2@[i]), #[trigger] r@[i]),
{
    let min_len = if v1.len() <= v2.len() { v1.len() } else { v2.len() };
    let mut out: Vec<i32> = Vec::new();
    let mut i: usize = 0;
    while i < min_len
        invariant
            min_len <= v1@.len(),
            min_len <= v2@.len(),
            min_len == v1@.len() || min_len == v2@.len(),
            i <= min_len,
            out@.len() == i,
            forall|j: int| 0 <= j < v1@.len() && j < v2@.len() ==> call_requires(f, (#[trigger] v1@[j], v2@[j])),
            forall|j: int| 0 <= j < i ==> call_ensures(f, (v1@[j], v2@[j]), #[trigger] out@[j]),
        decreases min_len - i,
    {
        let x = f(v1[i], v2[i]);
        out.push(x);
        i = i + 1;
    }
    out
}

/// The common value of a vector whose entries all agree; `None` for an
/// empty vector or one with two different entries.
pub fn check_all_equal(v: &[i32]) -> (r: Option<i32>)
    ensures
        r == (if v@.len() > 0 && (forall|i: int| 0 <= i < v@.len() ==> #[trigger] v@[i] == v@[0]) {
            Some(v@[0])
        } else {
            None
        }),
{
    if v.len() == 0 {
        return None;
    }
    let first = v[0];
    let mut i: usize = 1;
    while i < v.len()
        invariant
            1 <= i <= v@.len(),
            first == v@[0],
            forall|j: int| 0 <= j < i ==> #[trigger] v@[j] == first,
        decreases v.len() - i,
    {
        if v[i] != first {
            return None;
        }
        i = i + 1;
    }
    Some(first)
}

/// The evaluation vector of an `i32` addition, subtraction or
/// multiplication, from those of its operands, with wrapping arithmetic as
/// the machine computes it; `None` for other operators or types.
pub fn vector_lvn_arith(op: ArithOp, var_type: VarType, lhs: Vec<i32>, rhs: Vec<i32>) -> (r: Option<Vec<i32>>)
    ensures
        r is Some <==> var_type == VarType::I32 && (op == ArithOp::Add || op == ArithOp::Sub || op == ArithOp::Mul),
        r matches Some(v) ==> v@.len() == (if lhs@.len() <= rhs@.len() { lhs@.len() } else { rhs@.len() })
            && forall|i: int| 0 <= i < v@.len() ==> #[trigger] v@[i] == (match op {
                ArithOp::Add => lhs@[i].wrapping_add(rhs@[i]),
                ArithOp::Sub => lhs@[i].wrapping_sub(rhs@[i]),
                _ => lhs@[i].wrapping_mul(rhs@[i]),
            }),
{
    if var_type != VarType::I32 {
        return None;
    }
    match op {
        ArithOp::Add => Some(calculate_vecs(lhs, rhs, |x: i32, y: i32| -> (z: i32)
            ensures z == x.wrapping_add(y)
            { x.wrapping_add(y) })),
        ArithOp::Sub => Some(calculate_vecs(lhs, rhs, |x: i32, y: i32| -> (z: i32)
            ensures z == x.wrapping_sub(y)
            { x.wrapping_sub(y) })),
        ArithOp::Mul => Some(calculate_vecs(lhs, rhs, |x: i32, y: i32| -> (z: i32)
            ensures z == x.wrapping_mul(y)
            { x.wrapping_mul(y) })),
        _ => None,
    }
}

/// The vector recorded for the temporary named `n` (a later entry stands
/// in place of earlier ones).
pub open spec fn vec_of_temp(s: Seq<(LlvmTemp, Vec<i32>)>, n: Seq<char>) -> Option<Seq<i32>>
    decreases s.len(),
{
    if s.len() == 0 {
        None
    } else if s.last().0.name@ == n {
        Some(s.last().1@)
    } else {
        vec_of_temp(s.drop_last(), n)
    }
}

/// The operand recorded for the vector `k` (a later entry stands in place
/// of earlier ones).
pub open spec fn value_of_vec(s: Seq<(Vec<i32>, Value)>, k: Seq<i32>) -> Option<Value>
    decreases s.len(),
{
    if s.len() == 0 {
        None
    } else if s.last().0@ == k {
        Some(s.last().1)
    } else {
        value_of_vec(s.drop_last(), k)
    }
}

/// A copy of an evaluation vector.
fn copy_vec(v: &Vec<i32>) -> (r: Vec<i32>)
    ensures
        r@ == v@,
{
    let mut out: Vec<i32> = Vec::new();
    let mut i: usize = 0;
    while i < v.len()
        invariant
            i <= v@.len(),
            out@ == v@.take(i as int),
        decreases v.len() - i,
    {
        out.push(v[i]);
        proof {
            assert(v@.take(i + 1) =~= v@.take(i as int).push(v@[i as int]));
        }
        i = i + 1;
    }
    proof {
        assert(v@.take(i as int) =~= v@);
    }
    out
}

/// The evaluation vector of an operand: a literal's everywhere; the one
/// recorded for a temporary, or else a fresh random one, which is then
/// recorded for it and records the temporary as its operand.
pub fn get_value_vec(value: &Value, temp_to_vec: &mut Vec<(LlvmTemp, Vec<i32>)>, vec_table: &mut Vec<(Vec<i32>, Value)>) -> (r: Vec<i32>)
    requires
        !(value is Float),
    ensures
        *value matches Value::Int(v) ==> r@ == Seq::new(LVN_VEC_LEN as nat, |i: int| v)
            && final(temp_to_vec)@ == old(temp_to_vec)@ && final(vec_table)@ == old(vec_table)@,
        *value matches Value::Temp(t) ==> vec_of_temp(final(temp_to_vec)@, t.name@) == Some(r@),
        *value matches Value::Temp(t) ==> forall|n: Seq<char>| n != t.name@
            ==> #[trigger] vec_of_temp(final(temp_to_vec)@, n) == vec_of_temp(old(temp_to_vec)@, n),
        *value matches Value::Temp(t) ==> (vec_of_temp(old(temp_to_vec)@, t.name@) matches Some(k)
            ==> r@ == k && final(temp_to_vec)@ == old(temp_to_vec)@ && final(vec_table)@ == old(vec_table)@),
        *value matches Value::Temp(t) ==> (vec_of_temp(old(temp_to_vec)@, t.name@) is None
            ==> r@.len() == LVN_VEC_LEN && value_of_vec(final(vec_table)@, r@) == Some(*value)),
{
    match value {
        Value::Int(v) => literal_vec(*v),
        Value::Temp(t) => {
            let s = &*temp_to_vec;
            let ghost s0 = s@;
            let mut i: usize = s.len();
            proof {
                assert(s0.take(i as int) =~= s0);
            }
            while i > 0
                invariant
                    i <= s0.len(),
                    s@ == s0,
                    s0 == old(temp_to_vec)@,
                    *value == Value::Temp(*t),
                    vec_of_temp(s0, t.name@) == vec_of_temp(s0.take(i as int), t.name@),
                decreases i,
            {
                proof {
                    assert(s0.take(i as int).drop_last() =~= s0.take(i - 1));
                    assert(s0.take(i as int).last() == s0[i - 1]);
                }
                if s[i - 1].0.name == t.name {
                    return copy_vec(&s[i - 1].1);
                }
                i = i - 1;
            }
            proof {
                assert(s0.take(0) =~= Seq::<(LlvmTemp, Vec<i32>)>::empty());
            }
            let random = get_random_vec(LVN_VEC_LEN);
            let ghost t0 = temp_to_vec@;
            let ghost v0 = vec_table@;
            temp_to_vec.push((t.dup(), copy_vec(&random)));
            vec_table.push((copy_vec(&random), Value::Temp(t.dup())));
            proof {
                assert(temp_to_vec@.drop_last() =~= t0);
                assert(vec_table@.drop_last() =~= v0);
            }
            random
        },
        Value::Float(_) => Vec::new(),
    }
}

/// The evaluation vector of an operand, given the recorded vectors of
/// temporaries.
pub open spec fn operand_vec(temps: Seq<(LlvmTemp, Vec<i32>)>, v: Value) -> Seq<i32> {
    match v {
        Value::Int(i) => Seq::new(LVN_VEC_LEN as nat, |j: int| i),
        Value::Temp(t) => vec_of_temp(temps, t.name@)->0,
        Value::Float(_) => Seq::empty(),
    }
}

/// What an `i32` addition, subtraction or multiplication gives at each
/// point of two evaluation vectors (up to the shorter one).
pub open spec fn vec_arith(op: ArithOp, x: Seq<i32>, y: Seq<i32>) -> Seq<i32> {
    Seq::new(if x.len() <= y.len() { x.len() } else { y.len() }, |i: int| match op {
        ArithOp::Add => x[i].wrapping_add(y[i]),
        ArithOp::Sub => x[i].wrapping_sub(y[i]),
        _ => x[i].wrapping_mul(y[i]),
    })
}

/// The evaluation vector of an `i32` addition, subtraction or
/// multiplication of a block (its operands' vectors are fetched or drawn
/// first, `get_value_vec`), and the temporary it writes; `None` for the
/// vector of any other instruction, and for the target of one that is not
/// arithmetic.
pub fn get_vector_lvn_value(instr: &BlockInstr, temp_to_vec: &mut Vec<(LlvmTemp, Vec<i32>)>, vec_table: &mut Vec<(Vec<i32>, Value)>)
    -> (r: (Option<Vec<i32>>, Option<LlvmTemp>))
    requires
        *instr matches BlockInstr::Arith(a) ==> (a.var_type == VarType::I32 ==> !(a.lhs is Float) && !(a.rhs is Float)),
    ensures
        match *instr {
            BlockInstr::Arith(a) => {
                &&& r.1 == Some(a.target)
                &&& a.var_type != VarType::I32 ==> r.0 is None && final(temp_to_vec)@ == old(temp_to_vec)@
                    && final(vec_table)@ == old(vec_table)@
                &&& a.var_type == VarType::I32 ==> (r.0 is Some <==> (a.op == ArithOp::Add || a.op == ArithOp::Sub || a.op == ArithOp::Mul))
                &&& a.var_type == VarType::I32 && r.0 is Some ==> r.0->0@ == vec_arith(a.op,
                    operand_vec(final(temp_to_vec)@, a.lhs), operand_vec(final(temp_to_vec)@, a.rhs))
            },
            BlockInstr::Other(_) => r.0 is None && r.1 is None && final(temp_to_vec)@ == old(temp_to_vec)@
                && final(vec_table)@ == old(vec_table)@,
        },
{
    match instr {
        BlockInstr::Arith(a) => {
            let dst = Some(a.target.dup());
            if a.var_type == VarType::I32 {
                let ghost t0 = temp_to_vec@;
                let left = get_value_vec(&a.lhs, temp_to_vec, vec_table);
                let ghost t1 = temp_to_vec@;
                let right = get_value_vec(&a.rhs, temp_to_vec, vec_table);
                let ghost t2 = temp_to_vec@;
                proof {
                    assert(left@ == operand_vec(t2, a.lhs)) by {
                        if let Value::Temp(x) = a.lhs {
                            if let Value::Temp(y) = a.rhs {
                                if x.name@ != y.name@ {
                                    assert(vec_of_temp(t2, x.name@) == vec_of_temp(t1, x.name@));
                                }
                            }
                        }
                    }
                    assert(right@ == operand_vec(t2, a.rhs));
                }
                let v = vector_lvn_arith(a.op, a.var_type, left, right);
                proof {
                    if v is Some {
                        assert(v->0@ =~= vec_arith(a.op, operand_vec(t2, a.lhs), operand_vec(t2, a.rhs)));
                    }
                }
                (v, dst)
            } else {
                (None, dst)
            }
        },
        BlockInstr::Other(_) => (None, None),
    }
}

/// The value the rewrite map gives the temporary named `n` (a later entry
/// stands in place of earlier ones).
pub open spec fn rewrite_of(s: Seq<(LlvmTemp, Value)>, n: Seq<char>) -> Option<Value>
    decreases s.len(),
{
    if s.len() == 0 {
        None
    } else if s.last().0.name@ == n {
        Some(s.last().1)
    } else {
        rewrite_of(s.drop_last(), n)
    }
}

/// One step of rewriting: a temporary the map rewrites becomes its value.
pub open spec fn rewrite_step(s: Seq<(LlvmTemp, Value)>, v: Value) -> Value {
    match v {
        Value::Temp(t) => match rewrite_of(s, t.name@) {
            Some(w) => w,
            None => v,
        },
        _ => v,
    }
}

/// `v` after `k` steps of rewriting.
pub open spec fn follow(s: Seq<(LlvmTemp, Value)>, v: Value, k: nat) -> Value
    decreases k,
{
    if k == 0 {
        v
    } else {
        rewrite_step(s, follow(s, v, (k - 1) as nat))
    }
}

/// Rewriting `v` some number of times gives `w`.
pub open spec fn reaches(s: Seq<(LlvmTemp, Value)>, v: Value, w: Value) -> bool {
    exists|j: nat| #[trigger] follow(s, v, j) == w
}

/// The map does not rewrite `v`.
pub open spec fn settled(s: Seq<(LlvmTemp, Value)>, v: Value) -> bool {
    !(v matches Value::Temp(t) && rewrite_of(s, t.name@) is Some)
}

/// The value the rewrite map gives the temporary named `name`.
fn find_rewrite(rewrite: &Vec<(LlvmTemp, Value)>, name: &String) -> (r: Option<Value>)
    ensures
        r == rewrite_of(rewrite@, name@),
{
    let s = rewrite;
    let mut i: usize = s.len();
    proof {
        assert(s@.take(i as int) =~= s@);
    }
    while i > 0
        invariant
            i <= s@.len(),
            s@ == rewrite@,
            rewrite_of(s@, name@) == rewrite_of(s@.take(i as int), name@),
        decreases i,
    {
        proof {
            assert(s@.take(i as int).drop_last() =~= s@.take(i - 1));
            assert(s@.take(i as int).last() == s@[i - 1]);
        }
        if s[i - 1].0.name == *name {
            return Some(crate::calc_coef::dup_value(&s[i - 1].1));
        }
        i = i - 1;
    }
    proof {
        assert(s@.take(0) =~= Seq::<(LlvmTemp, Value)>::empty());
    }
    None
}

proof fn lemma_follow_settled(s: Seq<(LlvmTemp, Value)>, v: Value, k: nat)
    requires
        settled(s, v),
    ensures
        follow(s, v, k) == v,
    decreases k,
{
    if k > 0 {
        lemma_follow_settled(s, v, (k - 1) as nat);
    }
}

/// Follows the rewrite map from `value` until it reaches a value the map
/// does not rewrite, and says whether that took a step (always, for a
/// literal). The chain from `value` must end.
pub fn try_rewrite(value: &Value, rewrite: &Vec<(LlvmTemp, Value)>) -> (r: (bool, Value))
    requires
        exists|k: nat| #[trigger] settled(rewrite@, follow(rewrite@, *value, k)),
    ensures
        settled(rewrite@, r.1),
        reaches(rewrite@, *value, r.1),
        r.0 == (!(*value is Temp) || !settled(rewrite@, *value)),
{
    match value {
        Value::Temp(t) => {
            let ghost kk = choose|k: nat| #[trigger] settled(rewrite@, follow(rewrite@, *value, k));
            let mut changed = false;
            let mut cur = Value::Temp(t.dup());
            let ghost mut steps: nat = 0;
            loop
                invariant
                    cur == follow(rewrite@, *value, steps),
                    settled(rewrite@, follow(rewrite@, *value, kk)),
                    steps <= kk,
                    changed == (steps > 0),
                    *value is Temp,
                    steps == 0 ==> cur == *value,
                    steps > 0 ==> !settled(rewrite@, *value),
                ensures
                    cur == follow(rewrite@, *value, steps),
                    settled(rewrite@, cur),
                    changed == (steps > 0),
                    steps == 0 ==> cur == *value,
                    steps > 0 ==> !settled(rewrite@, *value),
                decreases kk - steps,
            {
                let next = match &cur {
                    Value::Temp(t0) => find_rewrite(rewrite, &t0.name),
                    _ => None,
                };
                match next {
                    Some(w) => {
                        proof {
                            if steps == 0 {
                                assert(rewrite_of(rewrite@, cur->Temp_0.name@) is Some);
                            }
                            if steps == kk {
                                assert(false);
                            }
                            steps = steps + 1;
                        }
                        cur = w;
                        changed = true;
                    },
                    None => {
                        proof {
                            if cur is Temp {
                                assert(rewrite_of(rewrite@, cur->Temp_0.name@) is None);
                            }
                        }
                        break;
                    },
                }
            }
            proof {
                assert(follow(rewrite@, *value, steps) == cur);
                assert(reaches(rewrite@, *value, cur));
            }
            (changed, cur)
        },
        _ => {
            proof {
                assert(follow(rewrite@, *value, 0) == *value);
            }
            (true, crate::calc_coef::dup_value(value))
        },
    }
}

} // verus!
