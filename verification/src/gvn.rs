use vstd::prelude::*;
use crate::calc::{int_arith, wrapping_div_i32, wrapping_rem_i32};
use crate::ir_ops::{ArithOp, CompOp};
use crate::compute_graph::{Value, VarType};
use crate::number::{constant_number, same_value_of, Number};

verus! {

/// `f` applied to the evaluations of two value numbers, point by point, up
/// to the shorter one.
pub open spec fn pointwise(x: Seq<u32>, y: Seq<u32>, f: spec_fn(u32, u32) -> u32) -> Seq<u32> {
    Seq::new(if x.len() <= y.len() { x.len() } else { y.len() }, |i: int| f(x[i], y[i]))
}

/// The bits of an `i32` division of two constants, taken as `i32`.
pub open spec fn div_bits(x: u32, y: u32) -> u32 {
    wrapping_div_i32(x as i32, y as i32) as u32
}

/// The bits of an `i32` remainder of two constants, taken as `i32`.
pub open spec fn rem_bits(x: u32, y: u32) -> u32 {
    wrapping_rem_i32(x as i32, y as i32) as u32
}

/// The value number of an integer arithmetic instruction that can be
/// computed from the numbers of its operands: additions, subtractions,
/// multiplications and exclusive ors point by point; divisions,
/// remainders and shifts where both operands are constants. `None` where
/// the number has to come from the table of expressions instead (float
/// operators are folded by the caller).
pub open spec fn arith_number_spec(op: ArithOp, lhs: Seq<u32>, rhs: Seq<u32>) -> Option<Seq<u32>> {
    let cx = same_value_of(lhs);
    let cy = same_value_of(rhs);
    match op {
        ArithOp::Add => Some(pointwise(lhs, rhs, |a: u32, b: u32| a.wrapping_add(b))),
        ArithOp::Sub => Some(pointwise(lhs, rhs, |a: u32, b: u32| a.wrapping_sub(b))),
        ArithOp::Mul => Some(pointwise(lhs, rhs, |a: u32, b: u32| a.wrapping_mul(b))),
        ArithOp::Xor => Some(pointwise(lhs, rhs, |a: u32, b: u32| a ^ b)),
        ArithOp::Div | ArithOp::Rem | ArithOp::Shl | ArithOp::Lshr | ArithOp::Ashr => {
            match (cx, cy) {
                (Some(x), Some(y)) => Some(constant_number(match op {
                    ArithOp::Div => div_bits(x, y),
                    ArithOp::Rem => rem_bits(x, y),
                    ArithOp::Shl => x << y,
                    ArithOp::Lshr => x >> y,
                    _ => ((x as i32) >> y) as u32,
                })),
                _ => None,
            }
        },
        _ => None,
    }
}

/// What `arith_number` needs: a constant division has a non-zero divisor
/// and does not overflow, a constant shift is by less than 32 bits.
pub open spec fn arith_number_ok(op: ArithOp, lhs: Seq<u32>, rhs: Seq<u32>) -> bool {
    match (same_value_of(lhs), same_value_of(rhs)) {
        (Some(x), Some(y)) => match op {
            ArithOp::Div | ArithOp::Rem => y != 0 && !(x == 0x8000_0000u32 && y == 0xffff_ffffu32),
            ArithOp::Shl | ArithOp::Lshr | ArithOp::Ashr => y < 32,
            _ => true,
        },
        _ => true,
    }
}

/// The comparisons of `i32` values (the others compare floats).
pub open spec fn is_signed_comp(op: CompOp) -> bool {
    op == CompOp::SLT || op == CompOp::SLE || op == CompOp::SGT || op == CompOp::SGE
        || op == CompOp::EQ || op == CompOp::NE
}

/// A constant value number has its constant as its common value.
pub proof fn lemma_constant_same(x: u32)
    ensures
        same_value_of(constant_number(x)) == Some(x),
{
    assert(constant_number(x).len() > 0);
    assert(constant_number(x)[0] == x);
}

/// Value numbers of comparisons agree with the comparison of the constants
/// as `i32`: `1` exactly where it holds; swapping the operands swaps the
/// orders; an order and its negation give opposite numbers.
pub proof fn law_comp_number(x: u32, y: u32)
    ensures
        comp_number_spec(CompOp::SGE, constant_number(x), constant_number(y))
            == Some(constant_number(if (x as i32) >= (y as i32) { 1 } else { 0 })),
        comp_number_spec(CompOp::SGT, constant_number(x), constant_number(y))
            == Some(constant_number(if (x as i32) > (y as i32) { 1 } else { 0 })),
        comp_number_spec(CompOp::SLE, constant_number(x), constant_number(y))
            == Some(constant_number(if (x as i32) <= (y as i32) { 1 } else { 0 })),
        comp_number_spec(CompOp::SLT, constant_number(x), constant_number(y))
            == Some(constant_number(if (x as i32) < (y as i32) { 1 } else { 0 })),
        comp_number_spec(CompOp::EQ, constant_number(x), constant_number(y))
            == Some(constant_number(if x == y { 1 } else { 0 })),
        comp_number_spec(CompOp::NE, constant_number(x), constant_number(y))
            == Some(constant_number(if x != y { 1 } else { 0 })),
        comp_number_spec(CompOp::SGE, constant_number(x), constant_number(y))
            == comp_number_spec(CompOp::SLE, constant_number(y), constant_number(x)),
        comp_number_spec(CompOp::SGT, constant_number(x), constant_number(y))
            == comp_number_spec(CompOp::SLT, constant_number(y), constant_number(x)),
        comp_number_spec(CompOp::SGE, constant_number(x), constant_number(x)) == Some(constant_number(1)),
{
    lemma_constant_same(x);
    lemma_constant_same(y);
    assert((x as i32 == y as i32) == (x == y)) by (bit_vector);
}

/// The value number of a signed comparison of two constants (`1` or `0`);
/// `None` where an operand is not constant or the comparison is on floats.
pub open spec fn comp_number_spec(op: CompOp, lhs: Seq<u32>, rhs: Seq<u32>) -> Option<Seq<u32>> {
    match (same_value_of(lhs), same_value_of(rhs)) {
        (Some(x), Some(y)) => {
            let a = x as i32;
            let b = y as i32;
            let c = match op {
                CompOp::EQ => Some(a == b),
                CompOp::NE => Some(a != b),
                CompOp::SGT => Some(a > b),
                CompOp::SGE => Some(a >= b),
                CompOp::SLT => Some(a < b),
                CompOp::SLE => Some(a <= b),
                _ => None,
            };
            match c {
                Some(true) => Some(constant_number(1)),
                Some(false) => Some(constant_number(0)),
                None => None,
            }
        },
        _ => None,
    }
}

/// Combines two value numbers point by point with `calculator`.
pub fn combine_numbers<F: Fn(u32, u32) -> u32>(x: &Number, y: &Number, calculator: F) -> (r: Number)
    requires
        forall|i: int| 0 <= i < x.value@.len() && i < y.value@.len() ==> call_requires(calculator, (#[trigger] x.value@[i], y.value@[i])),
    ensures
        r.value@.len() == if x.value@.len() <= y.value@.len() { x.value@.len() } else { y.value@.len() },
        forall|i: int| 0 <= i < r.value@.len() ==> call_ensures(calculator, (x.value@[i], y.value@[i]), #[trigger] r.value@[i]),
{
    let n = if x.value.len() <= y.value.len() { x.value.len() } else { y.value.len() };
    let mut out: Vec<u32> = Vec::new();
    let mut i: usize = 0;
    while i < n
        invariant
            n <= x.value@.len(),
            n <= y.value@.len(),
            n == x.value@.len() || n == y.value@.len(),
            i <= n,
            out@.len() == i,
            forall|j: int| 0 <= j < x.value@.len() && j < y.value@.len() ==> call_requires(calculator, (#[trigger] x.value@[j], y.value@[j])),
            forall|j: int| 0 <= j < i ==> call_ensures(calculator, (x.value@[j], y.value@[j]), #[trigger] out@[j]),
        decreases n - i,
    {
        let v = calculator(x.value[i], y.value[i]);
        out.push(v);
        i = i + 1;
    }
    Number { value: out }
}

/// The value number of an integer arithmetic instruction from those of its
/// operands (see `arith_number_spec`).
pub fn arith_number(op: ArithOp, lhs: &Number, rhs: &Number) -> (r: Option<Number>)
    requires
        arith_number_ok(op, lhs.value@, rhs.value@),
    ensures
        r matches Some(n) ==> arith_number_spec(op, lhs.value@, rhs.value@) == Some(n.value@),
        r is None ==> arith_number_spec(op, lhs.value@, rhs.value@) is None,
{
    match op {
        ArithOp::Add => {
            let n = combine_numbers(lhs, rhs, |a: u32, b: u32| -> (c: u32)
                ensures c == a.wrapping_add(b)
                { a.wrapping_add(b) });
            proof {
                assert(n.value@ =~= pointwise(lhs.value@, rhs.value@, |a: u32, b: u32| a.wrapping_add(b)));
            }
            Some(n)
        },
        ArithOp::Sub => {
            let n = combine_numbers(lhs, rhs, |a: u32, b: u32| -> (c: u32)
                ensures c == a.wrapping_sub(b)
                { a.wrapping_sub(b) });
            proof {
                assert(n.value@ =~= pointwise(lhs.value@, rhs.value@, |a: u32, b: u32| a.wrapping_sub(b)));
            }
            Some(n)
        },
        ArithOp::Mul => {
            let n = combine_numbers(lhs, rhs, |a: u32, b: u32| -> (c: u32)
                ensures c == a.wrapping_mul(b)
                { a.wrapping_mul(b) });
            proof {
                assert(n.value@ =~= pointwise(lhs.value@, rhs.value@, |a: u32, b: u32| a.wrapping_mul(b)));
            }
            Some(n)
        },
        ArithOp::Xor => {
            let n = combine_numbers(lhs, rhs, |a: u32, b: u32| -> (c: u32)
                ensures c == a ^ b
                { a ^ b });
            proof {
                assert(n.value@ =~= pointwise(lhs.value@, rhs.value@, |a: u32, b: u32| a ^ b));
            }
            Some(n)
        },
        ArithOp::Div | ArithOp::Rem | ArithOp::Shl | ArithOp::Lshr | ArithOp::Ashr => {
            match (lhs.same_value(), rhs.same_value()) {
                (Some(x), Some(y)) => {
                    proof {
                        if y != 0 {
                            assert((y as i32) != 0) by (bit_vector)
                                requires
                                    y != 0,
                            ;
                        }
                    }
                    let v: u32 = match op {
                        ArithOp::Div => {
                            let q = int_arith(x as i32, ArithOp::Div, y as i32);
                            q.unwrap() as u32
                        },
                        ArithOp::Rem => {
                            let q = int_arith(x as i32, ArithOp::Rem, y as i32);
                            q.unwrap() as u32
                        },
                        ArithOp::Shl => x << y,
                        ArithOp::Lshr => x >> y,
                        _ => ((x as i32) >> y) as u32,
                    };
                    Some(Number::constant(v))
                },
                _ => None,
            }
        },
        _ => None,
    }
}

/// The value number of a signed comparison of two constants (see
/// `comp_number_spec`).
pub fn comp_number(op: CompOp, lhs: &Number, rhs: &Number) -> (r: Option<Number>)
    ensures
        r matches Some(n) ==> comp_number_spec(op, lhs.value@, rhs.value@) == Some(n.value@),
        r is None ==> comp_number_spec(op, lhs.value@, rhs.value@) is None,
        (same_value_of(lhs.value@) is Some && same_value_of(rhs.value@) is Some && is_signed_comp(op)) ==> {
            let a = same_value_of(lhs.value@)->0 as i32;
            let b = same_value_of(rhs.value@)->0 as i32;
            &&& r is Some
            &&& op == CompOp::SGE ==> r->0.value@ == constant_number(if a >= b { 1 } else { 0 })
            &&& op == CompOp::SGT ==> r->0.value@ == constant_number(if a > b { 1 } else { 0 })
            &&& op == CompOp::SLE ==> r->0.value@ == constant_number(if a <= b { 1 } else { 0 })
            &&& op == CompOp::SLT ==> r->0.value@ == constant_number(if a < b { 1 } else { 0 })
            &&& op == CompOp::EQ ==> r->0.value@ == constant_number(if a == b { 1 } else { 0 })
            &&& op == CompOp::NE ==> r->0.value@ == constant_number(if a != b { 1 } else { 0 })
        },
        !(same_value_of(lhs.value@) is Some && same_value_of(rhs.value@) is Some && is_signed_comp(op)) ==> r is None,
{
    match (lhs.same_value(), rhs.same_value()) {
        (Some(x), Some(y)) => {
            let a = x as i32;
            let b = y as i32;
            let c = match op {
                CompOp::EQ => a == b,
                CompOp::NE => a != b,
                CompOp::SGT => a > b,
                CompOp::SGE => a >= b,
                CompOp::SLT => a < b,
                CompOp::SLE => a <= b,
                _ => {
                    return None;
                },
            };
            if c {
                Some(Number::constant(1))
            } else {
                Some(Number::constant(0))
            }
        },
        _ => None,
    }
}

/// The value number of a literal operand: the literal (its bits, for a
/// float) at every point; `None` for a temporary, whose number comes from
/// the table of temporaries.
pub fn literal_number(value: &Value) -> (r: Option<Number>)
    ensures
        r matches Some(n) ==> (match *value {
            Value::Int(v) => n.value@ == constant_number(v as u32),
            Value::Float(bits) => n.value@ == constant_number(bits),
            Value::Temp(_) => false,
        }),
        r is None <==> value is Temp,
{
    match value {
        Value::Int(v) => Some(Number::constant(*v as u32)),
        Value::Float(bits) => Some(Number::constant(*bits)),
        Value::Temp(_) => None,
    }
}

/// The literal operand that a constant value number stands for, of type
/// `var_type`; `None` where the number is not constant (the table of
/// values is consulted then).
pub fn constant_value(number: &Number, var_type: VarType) -> (r: Option<Value>)
    requires
        same_value_of(number.value@) is Some ==> var_type == VarType::I32 || var_type == VarType::F32,
    ensures
        r == (match same_value_of(number.value@) {
            Some(x) => Some(if var_type == VarType::I32 { Value::Int(x as i32) } else { Value::Float(x) }),
            None => None,
        }),
{
    match number.same_value() {
        Some(x) => {
            if var_type == VarType::I32 {
                Some(Value::Int(x as i32))
            } else {
                Some(Value::Float(x))
            }
        },
        None => None,
    }
}

} // verus!
