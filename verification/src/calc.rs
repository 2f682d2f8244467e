use vstd::prelude::*;
use crate::ir_ops::{ArithOp, CompOp};

verus! {

/// Integer division rounding toward zero.
pub open spec fn trunc_div(x: int, y: int) -> int {
    let q = (if x < 0 { -x } else { x }) / (if y < 0 { -y } else { y });
    // both operands of `/` are natural here, so `q` rounds toward zero
    if (x < 0) == (y < 0) { q } else { -q }
}

/// `i32` division as the machine wraps it: rounding toward zero, with
/// `i32::MIN / -1` wrapping to `i32::MIN`.
pub open spec fn wrapping_div_i32(x: i32, y: i32) -> i32 {
    if x == i32::MIN && y == -1 {
        i32::MIN
    } else {
        trunc_div(x as int, y as int) as i32
    }
}

/// `i32` remainder as the machine wraps it: the sign of the dividend, with
/// `i32::MIN % -1` giving `0`.
pub open spec fn wrapping_rem_i32(x: i32, y: i32) -> i32 {
    if x == i32::MIN && y == -1 {
        0
    } else {
        (x - y * trunc_div(x as int, y as int)) as i32
    }
}

/// The folded result of an integer arithmetic instruction on two literals.
pub open spec fn int_arith_spec(x: i32, op: ArithOp, y: i32) -> Option<i32> {
    match op {
        ArithOp::Add => Some(x.wrapping_add(y)),
        ArithOp::Sub => Some(x.wrapping_sub(y)),
        ArithOp::Mul => Some(x.wrapping_mul(y)),
        ArithOp::Div => Some(wrapping_div_i32(x, y)),
        ArithOp::Rem => Some(wrapping_rem_i32(x, y)),
        _ => None,
    }
}

/// The folded result (`1` or `0`) of a signed comparison of two literals.
pub open spec fn int_comp_spec(x: i32, op: CompOp, y: i32) -> Option<i32> {
    let b = match op {
        CompOp::SLT => Some(x < y),
        CompOp::SLE => Some(x <= y),
        CompOp::SGT => Some(x > y),
        CompOp::SGE => Some(x >= y),
        CompOp::EQ => Some(x == y),
        CompOp::NE => Some(x != y),
        _ => None,
    };
    match b {
        Some(true) => Some(1i32),
        Some(false) => Some(0i32),
        None => None,
    }
}

fn abs_u64(x: i32) -> (r: u64)
    ensures
        r == (if x < 0 { -(x as int) } else { x as int }),
{
    if x < 0 {
        (-(x as i64)) as u64
    } else {
        x as u64
    }
}

fn div_toward_zero(x: i32, y: i32) -> (r: i64)
    requires
        y != 0,
    ensures
        r == trunc_div(x as int, y as int),
        -0x8000_0000 <= r <= 0x8000_0000,
{
    let ax = abs_u64(x);
    let ay = abs_u64(y);
    let q = ax / ay;
    proof {
        assert(ay >= 1);
        assert(q <= ax) by (nonlinear_arith)
            requires
                q == ax / ay,
                ay >= 1,
        ;
    }
    if (x < 0) == (y < 0) {
        q as i64
    } else {
        -(q as i64)
    }
}

/// Folds an integer arithmetic instruction on two literals; `None` for the
/// operators that are not folded.
pub fn int_arith(x: i32, op: ArithOp, y: i32) -> (r: Option<i32>)
    requires
        op == ArithOp::Div || op == ArithOp::Rem ==> y != 0,
    ensures
        r == int_arith_spec(x, op, y),
{
    match op {
        ArithOp::Add => Some(x.wrapping_add(y)),
        ArithOp::Sub => Some(x.wrapping_sub(y)),
        ArithOp::Mul => Some(x.wrapping_mul(y)),
        ArithOp::Div => {
            if x == i32::MIN && y == -1 {
                Some(i32::MIN)
            } else {
                let q = div_toward_zero(x, y);
                proof {
                    assert(-0x8000_0000 <= q < 0x8000_0000) by {
                        if q == 0x8000_0000 {
                            assert(x == i32::MIN && y == -1) by (nonlinear_arith)
                                requires
                                    q == trunc_div(x as int, y as int),
                                    q == 0x8000_0000,
                                    -0x8000_0000 <= x < 0x8000_0000,
                                    -0x8000_0000 <= y < 0x8000_0000,
                                    y != 0,
                            ;
                        }
                    }
                }
                Some(q as i32)
            }
        },
        ArithOp::Rem => {
            if x == i32::MIN && y == -1 {
                Some(0)
            } else {
                let q = div_toward_zero(x, y);
                proof {
                    lemma_trunc_rem_bound(x as int, y as int);
                }
                let r = (x as i64) - (y as i64) * q;
                Some(r as i32)
            }
        },
        _ => None,
    }
}

/// The remainder of division toward zero is smaller than the divisor and
/// no larger than the dividend, in absolute value.
proof fn lemma_trunc_rem_bound(x: int, y: int)
    requires
        y != 0,
        -0x8000_0000 <= x < 0x8000_0000,
        -0x8000_0000 <= y < 0x8000_0000,
    ensures
        -0x8000_0000 < x - y * trunc_div(x, y) < 0x8000_0000,
        -0x8000_0000 <= y * trunc_div(x, y) <= 0x8000_0000,
{
    let ax = if x < 0 { -x } else { x };
    let ay = if y < 0 { -y } else { y };
    let q = ax / ay;
    assert(0 <= ax - ay * q < ay) by (nonlinear_arith)
        requires
            ay > 0,
            ax >= 0,
            q == ax / ay,
    ;
    assert(ay * q <= ax) by (nonlinear_arith)
        requires
            ay > 0,
            ax >= 0,
            q == ax / ay,
    ;
    assert(0 <= ay * q) by (nonlinear_arith)
        requires
            ay > 0,
            ax >= 0,
            q == ax / ay,
    ;
    if (x < 0) == (y < 0) {
        assert(y * q == (if x < 0 { -(ay * q) } else { ay * q })) by (nonlinear_arith)
            requires
                ay == (if y < 0 { -y } else { y }),
                (x < 0) == (y < 0),
        ;
    } else {
        assert(y * -q == (if x < 0 { -(ay * q) } else { ay * q })) by (nonlinear_arith)
            requires
                ay == (if y < 0 { -y } else { y }),
                (x < 0) != (y < 0),
        ;
    }
}

/// A folded comparison agrees with the comparison of the integers: a
/// literal comparison is `1` exactly where the integers compare so, `0`
/// otherwise; swapping the operands swaps the strict and the non-strict
/// orders; each order and its negation give opposite answers.
pub proof fn law_int_comp(x: i32, y: i32)
    ensures
        int_comp_spec(x, CompOp::SGE, y) == Some(if x >= y { 1i32 } else { 0i32 }),
        int_comp_spec(x, CompOp::SGT, y) == Some(if x > y { 1i32 } else { 0i32 }),
        int_comp_spec(x, CompOp::SLE, y) == Some(if x <= y { 1i32 } else { 0i32 }),
        int_comp_spec(x, CompOp::SLT, y) == Some(if x < y { 1i32 } else { 0i32 }),
        int_comp_spec(x, CompOp::EQ, y) == Some(if x == y { 1i32 } else { 0i32 }),
        int_comp_spec(x, CompOp::NE, y) == Some(if x != y { 1i32 } else { 0i32 }),
        int_comp_spec(x, CompOp::SGE, y) == int_comp_spec(y, CompOp::SLE, x),
        int_comp_spec(x, CompOp::SGT, y) == int_comp_spec(y, CompOp::SLT, x),
        int_comp_spec(x, CompOp::SGE, y)->0 + int_comp_spec(x, CompOp::SLT, y)->0 == 1,
        int_comp_spec(x, CompOp::SLE, y)->0 + int_comp_spec(x, CompOp::SGT, y)->0 == 1,
        int_comp_spec(x, CompOp::EQ, y)->0 + int_comp_spec(x, CompOp::NE, y)->0 == 1,
        int_comp_spec(x, CompOp::SGE, x) == Some(1i32),
        int_comp_spec(x, CompOp::SLE, x) == Some(1i32),
{
}

/// Folds a signed comparison of two literals to `1` or `0`; `None` for the
/// float comparisons.
pub fn int_comp(x: i32, op: CompOp, y: i32) -> (r: Option<i32>)
    ensures
        r == int_comp_spec(x, op, y),
        op == CompOp::SLT ==> (r == Some(1i32) <==> x < y) && (r == Some(0i32) <==> !(x < y)),
        op == CompOp::SLE ==> (r == Some(1i32) <==> x <= y) && (r == Some(0i32) <==> !(x <= y)),
        op == CompOp::SGT ==> (r == Some(1i32) <==> x > y) && (r == Some(0i32) <==> !(x > y)),
        op == CompOp::SGE ==> (r == Some(1i32) <==> x >= y) && (r == Some(0i32) <==> !(x >= y)),
        op == CompOp::EQ ==> (r == Some(1i32) <==> x == y) && (r == Some(0i32) <==> x != y),
        op == CompOp::NE ==> (r == Some(1i32) <==> x != y) && (r == Some(0i32) <==> x == y),
        r is None <==> !(op == CompOp::SLT || op == CompOp::SLE || op == CompOp::SGT || op == CompOp::SGE
            || op == CompOp::EQ || op == CompOp::NE),
{
    let b = match op {
        CompOp::SLT => x < y,
        CompOp::SLE => x <= y,
        CompOp::SGT => x > y,
        CompOp::SGE => x >= y,
        CompOp::EQ => x == y,
        CompOp::NE => x != y,
        _ => {
            return None;
        },
    };
    if b {
        Some(1)
    } else {
        Some(0)
    }
}

} // verus!
