use vstd::prelude::*;
use crate::calc_coef::dup_value;
use crate::compute_graph::{bytes_order, lemma_bytes_order_flip, lemma_bytes_order_trans, order_name, LlvmTemp, Order3, Value, VarType};
use vstd::utf8::encode_utf8;
use crate::ir_ops::ArithOp;

verus! {

/// An arithmetic instruction of the IR: `target = lhs op rhs`.
#[derive(Debug)]
pub struct ArithInstr {
    pub target: LlvmTemp,
    pub op: ArithOp,
    pub var_type: VarType,
    pub lhs: Value,
    pub rhs: Value,
}

/// Whether an `i32` calculation is a sum of terms or a product of factors.
#[derive(PartialEq, Eq, Structural, Clone, Copy, Debug)]
pub enum ArithType {
    Addicative,
    Multiplitive,
}

/// The number of values of a 32-bit integer.
pub open spec fn modulus() -> int {
    0x1_0000_0000
}

/// The `i32` that machine arithmetic leaves for the mathematical result `x`.
pub open spec fn wrap32(x: int) -> int {
    (x + 0x8000_0000) % modulus() - 0x8000_0000
}

/// `a` and `b` leave the same `i32`.
pub open spec fn cong(a: int, b: int) -> bool {
    (a - b) % modulus() == 0
}

pub proof fn lemma_wrap32(x: int, y: int)
    ensures
        -0x8000_0000 <= wrap32(x) < 0x8000_0000,
        cong(wrap32(x), x),
        cong(x, y) ==> wrap32(x) == wrap32(y),
        cong(x, y) ==> cong(y, x),
        cong(x, x),
{
}

pub proof fn lemma_cong_add(a: int, b: int, c: int, d: int)
    requires
        cong(a, b),
        cong(c, d),
    ensures
        cong(a + c, b + d),
        cong(a - c, b - d),
{
}

pub proof fn lemma_cong_trans(a: int, b: int, c: int)
    requires
        cong(a, b),
        cong(b, c),
    ensures
        cong(a, c),
{
}

pub proof fn lemma_cong_mul(a: int, b: int, c: int, d: int)
    requires
        cong(a, b),
        cong(c, d),
    ensures
        cong(a * c, b * d),
{
    let m = modulus();
    assert((a - b) % m == 0);
    assert((c - d) % m == 0);
    let p = (a - b) / m;
    let q = (c - d) / m;
    assert(a - b == m * p) by (nonlinear_arith)
        requires
            (a - b) % m == 0,
            m > 0,
            p == (a - b) / m,
    ;
    assert(c - d == m * q) by (nonlinear_arith)
        requires
            (c - d) % m == 0,
            m > 0,
            q == (c - d) / m,
    ;
    assert(a * c - b * d == m * (p * c + b * q)) by (nonlinear_arith)
        requires
            a - b == m * p,
            c - d == m * q,
    ;
    assert((m * (p * c + b * q)) % m == 0) by (nonlinear_arith)
        requires
            m > 0,
    ;
}

/// The decimal digits of `n`.
pub open spec fn decimal(n: nat) -> Seq<char>
    decreases n,
{
    if n < 10 {
        seq![digit(n)]
    } else {
        decimal(n / 10).push(digit(n % 10))
    }
}

pub open spec fn digit(d: nat) -> char {
    if d == 0 { '0' } else if d == 1 { '1' } else if d == 2 { '2' } else if d == 3 { '3' }
    else if d == 4 { '4' } else if d == 5 { '5' } else if d == 6 { '6' } else if d == 7 { '7' }
    else if d == 8 { '8' } else { '9' }
}

/// Different numbers have different decimal names.
pub proof fn lemma_decimal_injective(a: nat, b: nat)
    requires
        decimal(a) == decimal(b),
    ensures
        a == b,
    decreases a,
{
    lemma_decimal_len(a);
    lemma_decimal_len(b);
    if a < 10 || b < 10 {
        if a >= 10 {
            assert(decimal(a).len() >= 2);
        }
        if b >= 10 {
            assert(decimal(b).len() >= 2);
        }
        assert(decimal(a)[0] == digit(a));
        assert(decimal(b)[0] == digit(b));
    } else {
        assert(decimal(a).drop_last() == decimal(a / 10));
        assert(decimal(b).drop_last() == decimal(b / 10));
        assert(decimal(a).last() == digit(a % 10));
        assert(decimal(b).last() == digit(b % 10));
        lemma_decimal_injective(a / 10, b / 10);
    }
}

proof fn lemma_decimal_len(n: nat)
    ensures
        decimal(n).len() >= 1,
        n >= 10 ==> decimal(n).len() >= 2,
    decreases n,
{
    if n >= 10 {
        lemma_decimal_len(n / 10);
    }
}

/// The name `n.to_string()` gives a temporary numbered `n`: its decimal
/// digits, as std's `Display` for `u32` writes them.
#[verifier::external_body]
pub(crate) fn number_name(n: u32) -> (r: String)
    ensures
        r@ == decimal(n as nat),
{
    n.to_string()
}

/// A name that no temporary numbered `k` or more is given.
pub open spec fn avoids(name: Seq<char>, k: nat) -> bool {
    forall|j: nat| j >= k ==> name != #[trigger] decimal(j)
}

/// The value of an operand when each temporary named `n` holds `env(n)`.
pub open spec fn operand(v: Value, env: spec_fn(Seq<char>) -> int) -> int {
    match v {
        Value::Int(i) => i as int,
        Value::Temp(t) => env(t.name@),
        Value::Float(_) => 0,
    }
}

/// What an `i32` instruction stores.
pub open spec fn instr_result(op: ArithOp, a: int, b: int) -> int {
    match op {
        ArithOp::Add => wrap32(a + b),
        ArithOp::Sub => wrap32(a - b),
        ArithOp::Mul => wrap32(a * b),
        _ => 0,
    }
}

/// The values after one instruction.
pub open spec fn step(env: spec_fn(Seq<char>) -> int, i: ArithInstr) -> spec_fn(Seq<char>) -> int {
    |n: Seq<char>| if n == i.target.name@ {
        instr_result(i.op, operand(i.lhs, env), operand(i.rhs, env))
    } else {
        env(n)
    }
}

/// The values after running a list of instructions in order.
pub open spec fn run(s: Seq<ArithInstr>, env: spec_fn(Seq<char>) -> int) -> spec_fn(Seq<char>) -> int
    decreases s.len(),
{
    if s.len() == 0 {
        env
    } else {
        step(run(s.drop_last(), env), s.last())
    }
}

/// What one term of a calculation contributes: added or subtracted.
pub open spec fn term(e: (ArithOp, Value), env: spec_fn(Seq<char>) -> int) -> int {
    if e.0 == ArithOp::Sub {
        -operand(e.1, env)
    } else {
        operand(e.1, env)
    }
}

/// The signed sum of a list of terms.
pub open spec fn signed_sum(s: Seq<(ArithOp, Value)>, env: spec_fn(Seq<char>) -> int) -> int
    decreases s.len(),
{
    if s.len() == 0 {
        0
    } else {
        signed_sum(s.drop_last(), env) + term(s.last(), env)
    }
}

/// The product of a list of factors.
pub open spec fn product(s: Seq<(ArithOp, Value)>, env: spec_fn(Seq<char>) -> int) -> int
    decreases s.len(),
{
    if s.len() == 0 {
        1
    } else {
        product(s.drop_last(), env) * operand(s.last().1, env)
    }
}

/// The temporaries of a list of terms avoid the names of temporaries
/// numbered `k` or more.
pub open spec fn terms_avoid(s: Seq<(ArithOp, Value)>, k: nat) -> bool {
    forall|i: int| 0 <= i < s.len() ==> ((#[trigger] s[i]).1 matches Value::Temp(t) ==> avoids(t.name@, k))
}

/// The sum of the values of a list of temporaries.
pub open spec fn temps_sum(s: Seq<LlvmTemp>, env: spec_fn(Seq<char>) -> int) -> int
    decreases s.len(),
{
    if s.len() == 0 {
        0
    } else {
        temps_sum(s.drop_last(), env) + env(s.last().name@)
    }
}

pub proof fn lemma_temps_sum_push(s: Seq<LlvmTemp>, t: LlvmTemp, env: spec_fn(Seq<char>) -> int)
    ensures
        temps_sum(s.push(t), env) == temps_sum(s, env) + env(t.name@),
{
    assert(s.push(t).drop_last() =~= s);
}

pub proof fn lemma_temps_sum_insert(s: Seq<LlvmTemp>, k: int, t: LlvmTemp, env: spec_fn(Seq<char>) -> int)
    requires
        0 <= k <= s.len(),
    ensures
        temps_sum(s.insert(k, t), env) == temps_sum(s, env) + env(t.name@),
    decreases s.len(),
{
    if k < s.len() {
        assert(s.insert(k, t).drop_last() =~= s.drop_last().insert(k, t));
        lemma_temps_sum_insert(s.drop_last(), k, t, env);
    } else {
        assert(s.insert(k, t) =~= s.push(t));
        lemma_temps_sum_push(s, t, env);
    }
}

/// The product of the values of a list of temporaries.
pub open spec fn temps_prod(s: Seq<LlvmTemp>, env: spec_fn(Seq<char>) -> int) -> int
    decreases s.len(),
{
    if s.len() == 0 {
        1
    } else {
        temps_prod(s.drop_last(), env) * env(s.last().name@)
    }
}

pub proof fn lemma_temps_prod_insert(s: Seq<LlvmTemp>, k: int, t: LlvmTemp, env: spec_fn(Seq<char>) -> int)
    requires
        0 <= k <= s.len(),
    ensures
        temps_prod(s.insert(k, t), env) == temps_prod(s, env) * env(t.name@),
    decreases s.len(),
{
    if k < s.len() {
        assert(s.insert(k, t).drop_last() =~= s.drop_last().insert(k, t));
        assert(s.insert(k, t).last() == s.last());
        lemma_temps_prod_insert(s.drop_last(), k, t, env);
        let p = temps_prod(s.drop_last(), env);
        let x = env(t.name@);
        let y = env(s.last().name@);
        assert(p * x * y == p * y * x) by (nonlinear_arith);
    } else {
        assert(s.insert(k, t) =~= s.push(t));
        assert(s.push(t).drop_last() =~= s);
    }
}

proof fn lemma_temps_prod_prepend(t: LlvmTemp, s: Seq<LlvmTemp>, env: spec_fn(Seq<char>) -> int)
    ensures
        temps_prod(seq![t] + s, env) == env(t.name@) * temps_prod(s, env),
{
    assert(seq![t] + s =~= s.insert(0, t));
    lemma_temps_prod_insert(s, 0, t, env);
    let p = temps_prod(s, env);
    let x = env(t.name@);
    assert(p * x == x * p) by (nonlinear_arith);
}

pub proof fn lemma_temps_prod_reverse(s: Seq<LlvmTemp>, env: spec_fn(Seq<char>) -> int)
    ensures
        temps_prod(s.reverse(), env) == temps_prod(s, env),
    decreases s.len(),
{
    if s.len() > 0 {
        assert(s.reverse() =~= seq![s.last()] + s.drop_last().reverse());
        lemma_temps_prod_prepend(s.last(), s.drop_last().reverse(), env);
        lemma_temps_prod_reverse(s.drop_last(), env);
        let p = temps_prod(s.drop_last(), env);
        let x = env(s.last().name@);
        assert(x * p == p * x) by (nonlinear_arith);
    } else {
        assert(s.reverse() =~= s);
    }
}

/// Two valuations that agree on a list of temporaries give it the same product.
pub proof fn lemma_temps_prod_frame(s: Seq<LlvmTemp>, e1: spec_fn(Seq<char>) -> int, e2: spec_fn(Seq<char>) -> int)
    requires
        forall|i: int| 0 <= i < s.len() ==> e1((#[trigger] s[i]).name@) == e2(s[i].name@),
    ensures
        temps_prod(s, e1) == temps_prod(s, e2),
    decreases s.len(),
{
    if s.len() > 0 {
        assert(s.last() == s[s.len() - 1]);
        assert forall|i: int| 0 <= i < s.drop_last().len() implies e1((#[trigger] s.drop_last()[i]).name@) == e2(s.drop_last()[i].name@) by {
            assert(s.drop_last()[i] == s[i]);
        }
        lemma_temps_prod_frame(s.drop_last(), e1, e2);
    }
}

pub proof fn lemma_signed_sum_push(s: Seq<(ArithOp, Value)>, e: (ArithOp, Value), env: spec_fn(Seq<char>) -> int)
    ensures
        signed_sum(s.push(e), env) == signed_sum(s, env) + term(e, env),
{
    assert(s.push(e).drop_last() =~= s);
}

proof fn lemma_signed_sum_prepend(e: (ArithOp, Value), s: Seq<(ArithOp, Value)>, env: spec_fn(Seq<char>) -> int)
    ensures
        signed_sum(seq![e] + s, env) == term(e, env) + signed_sum(s, env),
    decreases s.len(),
{
    if s.len() > 0 {
        assert((seq![e] + s).drop_last() =~= seq![e] + s.drop_last());
        assert((seq![e] + s).last() == s.last());
        lemma_signed_sum_prepend(e, s.drop_last(), env);
    } else {
        assert(seq![e] + s =~= seq![e]);
        assert(seq![e].drop_last() =~= Seq::<(ArithOp, Value)>::empty());
        assert(signed_sum(seq![e], env) == signed_sum(Seq::<(ArithOp, Value)>::empty(), env) + term(e, env));
    }
}

pub proof fn lemma_signed_sum_reverse(s: Seq<(ArithOp, Value)>, env: spec_fn(Seq<char>) -> int)
    ensures
        signed_sum(s.reverse(), env) == signed_sum(s, env),
    decreases s.len(),
{
    if s.len() > 0 {
        assert(s.reverse() =~= seq![s.last()] + s.drop_last().reverse());
        lemma_signed_sum_prepend(s.last(), s.drop_last().reverse(), env);
        lemma_signed_sum_reverse(s.drop_last(), env);
    } else {
        assert(s.reverse() =~= s);
    }
}

/// The operator that a left operand enters a calculation with.
pub fn get_op_for_lhs(op: ArithOp) -> (r: ArithOp)
    ensures
        r == (if op == ArithOp::Sub { ArithOp::Add } else { op }),
{
    match op {
        ArithOp::Sub => ArithOp::Add,
        _ => op,
    }
}

/// Swaps addition and subtraction.
pub fn get_neg(op: ArithOp) -> (r: ArithOp)
    ensures
        r == (if op == ArithOp::Sub { ArithOp::Add } else if op == ArithOp::Add { ArithOp::Sub } else { op }),
{
    match op {
        ArithOp::Sub => ArithOp::Add,
        ArithOp::Add => ArithOp::Sub,
        _ => op,
    }
}

/// Whether an addition, subtraction or multiplication builds a sum or a product.
pub fn get_arith_type(arith_type: &ArithOp) -> (r: ArithType)
    requires
        *arith_type == ArithOp::Add || *arith_type == ArithOp::Sub || *arith_type == ArithOp::Mul,
    ensures
        r == (if *arith_type == ArithOp::Mul { ArithType::Multiplitive } else { ArithType::Addicative }),
{
    match arith_type {
        ArithOp::Add | ArithOp::Sub => ArithType::Addicative,
        _ => ArithType::Multiplitive,
    }
}

/// `x.wrapping_add(y)` and `x.wrapping_sub(y)` leave the `i32` of the
/// mathematical result.
pub proof fn lemma_wrapping_cong(x: i32, y: i32)
    ensures
        cong(x.wrapping_add(y) as int, x + y),
        cong(x.wrapping_sub(y) as int, x - y),
        cong(x.wrapping_mul(y) as int, x * y),
{
    let m = x as int * y as int;
    assert(cong(x.wrapping_mul(y) as int, x * y)) by {
        let r = m % modulus();
        assert(0 <= r < modulus());
        assert((m - r) % modulus() == 0) by (nonlinear_arith)
            requires
                r == m % modulus(),
                modulus() > 0,
        ;
    }
}

/// The temporaries of a list avoid the names of temporaries numbered `k` or more.
pub open spec fn temps_avoid(s: Seq<LlvmTemp>, k: nat) -> bool {
    forall|i: int| 0 <= i < s.len() ==> avoids(#[trigger] s[i].name@, k)
}

/// Two valuations that agree on the temporaries of a list of terms give it
/// the same signed sum.
pub proof fn lemma_signed_sum_frame(s: Seq<(ArithOp, Value)>, e1: spec_fn(Seq<char>) -> int, e2: spec_fn(Seq<char>) -> int)
    requires
        forall|i: int| 0 <= i < s.len() ==> ((#[trigger] s[i]).1 matches Value::Temp(t) ==> e1(t.name@) == e2(t.name@)),
    ensures
        signed_sum(s, e1) == signed_sum(s, e2),
    decreases s.len(),
{
    if s.len() > 0 {
        assert(s.last() == s[s.len() - 1]);
        assert forall|i: int| 0 <= i < s.drop_last().len() implies ((#[trigger] s.drop_last()[i]).1 matches Value::Temp(t) ==> e1(t.name@) == e2(t.name@)) by {
            assert(s.drop_last()[i] == s[i]);
        }
        lemma_signed_sum_frame(s.drop_last(), e1, e2);
    }
}

/// Splits a sum into its literal part (wrapping as the machine does) and
/// the temporaries it adds and subtracts.
fn split_terms(info: &Vec<(ArithOp, Value)>) -> (r: (i32, Vec<LlvmTemp>, Vec<LlvmTemp>))
    requires
        forall|i: int| 0 <= i < info@.len() ==> ((#[trigger] info@[i]).0 == ArithOp::Add || info@[i].0 == ArithOp::Sub)
            && !(info@[i].1 is Float),
    ensures
        forall|env: spec_fn(Seq<char>) -> int| cong(r.0 + temps_sum(r.1@, env) - temps_sum(r.2@, env), #[trigger] signed_sum(info@, env)),
        r.1@.len() + r.2@.len() <= info@.len(),
        r.0 != 0 ==> r.1@.len() + r.2@.len() < info@.len(),
        forall|k: nat| #[trigger] terms_avoid(info@, k) ==> temps_avoid(r.1@, k) && temps_avoid(r.2@, k),
{
    let mut const_part: i32 = 0;
    let mut add_part: Vec<LlvmTemp> = Vec::new();
    let mut minus_part: Vec<LlvmTemp> = Vec::new();
    let ghost mut ints: int = 0;
    let mut i: usize = 0;
    while i < info.len()
        invariant
            i <= info@.len(),
            forall|j: int| 0 <= j < info@.len() ==> ((#[trigger] info@[j]).0 == ArithOp::Add || info@[j].0 == ArithOp::Sub)
                && !(info@[j].1 is Float),
            forall|env: spec_fn(Seq<char>) -> int| cong(const_part + temps_sum(add_part@, env) - temps_sum(minus_part@, env), #[trigger] signed_sum(info@.take(i as int), env)),
            add_part@.len() + minus_part@.len() + ints == i,
            ints >= 0,
            const_part != 0 ==> ints > 0,
            forall|k: nat| #[trigger] terms_avoid(info@, k) ==> temps_avoid(add_part@, k) && temps_avoid(minus_part@, k),
        decreases info@.len() - i,
    {
        let ghost c0 = const_part;
        let ghost a0 = add_part@;
        let ghost m0 = minus_part@;
        proof {
            assert(info@.take(i + 1).drop_last() =~= info@.take(i as int));
            assert(info@.take(i + 1).last() == info@[i as int]);
        }
        let (op, value) = &info[i];
        match value {
            Value::Int(v) => {
                if *op == ArithOp::Add {
                    const_part = const_part.wrapping_add(*v);
                } else {
                    const_part = const_part.wrapping_sub(*v);
                }
                proof {
                    lemma_wrapping_cong(c0, *v);
                    ints = ints + 1;
                    assert forall|env: spec_fn(Seq<char>) -> int| cong(const_part + temps_sum(add_part@, env) - temps_sum(minus_part@, env), #[trigger] signed_sum(info@.take(i + 1), env)) by {
                        let prev = signed_sum(info@.take(i as int), env);
                        let rest = temps_sum(add_part@, env) - temps_sum(minus_part@, env);
                        let d = term(info@[i as int], env);
                        assert(signed_sum(info@.take(i + 1), env) == signed_sum(info@.take(i as int), env) + d);
                        lemma_cong_add(c0 + rest, signed_sum(info@.take(i as int), env), d, d);
                        lemma_cong_add(const_part as int, c0 + d, rest, rest);
                        lemma_cong_trans(const_part + rest, c0 + d + rest, signed_sum(info@.take(i + 1), env));
                    }
                }
            },
            Value::Temp(t) => {
                if *op == ArithOp::Add {
                    add_part.push(t.dup());
                } else {
                    minus_part.push(t.dup());
                }
                proof {
                    assert forall|env: spec_fn(Seq<char>) -> int| cong(const_part + temps_sum(add_part@, env) - temps_sum(minus_part@, env), #[trigger] signed_sum(info@.take(i + 1), env)) by {
                        let prev = signed_sum(info@.take(i as int), env);
                        lemma_temps_sum_push(a0, *t, env);
                        lemma_temps_sum_push(m0, *t, env);
                        let d = term(info@[i as int], env);
                        lemma_cong_add(const_part + temps_sum(a0, env) - temps_sum(m0, env), signed_sum(info@.take(i as int), env), d, d);
                    }
                    assert forall|k: nat| #[trigger] terms_avoid(info@, k) implies temps_avoid(add_part@, k) && temps_avoid(minus_part@, k) by {
                        assert(temps_avoid(a0, k) && temps_avoid(m0, k));
                        assert(info@[i as int].1 matches Value::Temp(t2) ==> avoids(t2.name@, k));
                    }
                }
            },
            Value::Float(_) => {
                proof {
                    assert(false);
                }
            },
        }
        i = i + 1;
    }
    proof {
        assert(info@.take(i as int) =~= info@);
    }
    (const_part, add_part, minus_part)
}

/// The name of `a` comes after that of `b` (by their bytes).
pub open spec fn name_after(a: LlvmTemp, b: LlvmTemp) -> bool {
    bytes_order(encode_utf8(a.name@), encode_utf8(b.name@)) == Order3::Greater
}

/// No temporary of `s` comes before one whose name it follows.
pub open spec fn names_sorted(s: Seq<LlvmTemp>) -> bool {
    forall|i: int, j: int| 0 <= i < j < s.len() ==> !name_after(#[trigger] s[i], #[trigger] s[j])
}

/// Inserting `t` where the first name after its own stands keeps `s` sorted.
proof fn lemma_insert_sorted(s: Seq<LlvmTemp>, i: int, t: LlvmTemp)
    requires
        names_sorted(s),
        0 <= i <= s.len(),
        forall|k: int| 0 <= k < i ==> !name_after(#[trigger] s[k], t),
        i < s.len() ==> name_after(s[i], t),
    ensures
        names_sorted(s.insert(i, t)),
{
    let u = s.insert(i, t);
    assert forall|p: int, q: int| 0 <= p < q < u.len() implies !name_after(#[trigger] u[p], #[trigger] u[q]) by {
        if q < i {
            assert(u[p] == s[p] && u[q] == s[q]);
        } else if q == i {
            assert(u[p] == s[p]);
        } else if p > i {
            assert(u[p] == s[p - 1] && u[q] == s[q - 1]);
        } else if p == i {
            assert(u[q] == s[q - 1]);
            lemma_bytes_order_flip(encode_utf8(s[i].name@), encode_utf8(t.name@));
            if q - 1 > i && name_after(t, s[q - 1]) {
                lemma_bytes_order_trans(encode_utf8(s[i].name@), encode_utf8(t.name@), encode_utf8(s[q - 1].name@));
                assert(name_after(s[i], s[q - 1]));
            }
        } else {
            assert(u[p] == s[p] && u[q] == s[q - 1]);
        }
    }
}

/// Inserting into a sequence adds one to the count of what is inserted.
pub proof fn lemma_insert_multiset<T>(s: Seq<T>, i: int, t: T)
    requires
        0 <= i <= s.len(),
    ensures
        s.insert(i, t).to_multiset() == s.to_multiset().insert(t),
{
    broadcast use vstd::seq_lib::group_to_multiset_ensures;
    let u = s.insert(i, t);
    assert(u.remove(i) =~= s);
    assert(u[i] == t);
    assert(u.contains(t));
    assert(u.to_multiset().count(t) > 0);
    assert(u.to_multiset() =~= u.to_multiset().remove(t).insert(t));
}

/// Sorts temporaries by name, keeping the order of equal names.
fn sort_by_name(v: Vec<LlvmTemp>) -> (r: Vec<LlvmTemp>)
    ensures
        r@.len() == v@.len(),
        r@.to_multiset() == v@.to_multiset(),
        names_sorted(r@),
        forall|env: spec_fn(Seq<char>) -> int| #[trigger] temps_sum(r@, env) == temps_sum(v@, env),
        forall|env: spec_fn(Seq<char>) -> int| #[trigger] temps_prod(r@, env) == temps_prod(v@, env),
        forall|k: nat| #[trigger] temps_avoid(v@, k) ==> temps_avoid(r@, k),
{
    let ghost s = v@;
    let mut src = v;
    let mut out: Vec<LlvmTemp> = Vec::new();
    let ghost mut done: int = 0;
    proof {
        assert(out@ =~= s.take(0));
        assert forall|env: spec_fn(Seq<char>) -> int| #[trigger] temps_sum(out@, env) == temps_sum(s.take(0), env) by {
            assert(s.take(0) =~= Seq::<LlvmTemp>::empty());
        }
        assert forall|env: spec_fn(Seq<char>) -> int| #[trigger] temps_prod(out@, env) == temps_prod(s.take(0), env) by {
            assert(s.take(0) =~= Seq::<LlvmTemp>::empty());
        }
    }
    while src.len() > 0
        invariant
            0 <= done <= s.len(),
            src@ == s.subrange(done, s.len() as int),
            out@.len() == done,
            names_sorted(out@),
            out@.to_multiset() == s.take(done).to_multiset(),
            forall|env: spec_fn(Seq<char>) -> int| #[trigger] temps_sum(out@, env) == temps_sum(s.take(done), env),
            forall|env: spec_fn(Seq<char>) -> int| #[trigger] temps_prod(out@, env) == temps_prod(s.take(done), env),
            forall|k: nat| #[trigger] temps_avoid(s, k) ==> temps_avoid(out@, k),
        decreases src.len(),
    {
        let t = src.remove(0);
        proof {
            assert(t == s[done]);
            assert(src@ =~= s.subrange(done + 1, s.len() as int));
        }
        let mut i: usize = 0;
        while i < out.len() && order_name(&out[i].name, &t.name) != Order3::Greater
            invariant
                i <= out@.len(),
                forall|k: int| 0 <= k < i ==> !name_after(#[trigger] out@[k], t),
            decreases out.len() - i,
        {
            i = i + 1;
        }
        let ghost o0 = out@;
        let ghost tt = t;
        out.insert(i, t);
        proof {
            lemma_insert_sorted(o0, i as int, tt);
            lemma_insert_multiset(o0, i as int, tt);
            broadcast use vstd::seq_lib::group_to_multiset_ensures;
            assert(s.take(done + 1) =~= s.take(done).push(s[done]));
            assert forall|env: spec_fn(Seq<char>) -> int| #[trigger] temps_sum(out@, env) == temps_sum(s.take(done + 1), env) by {
                lemma_temps_sum_insert(o0, i as int, tt, env);
                assert(s.take(done + 1) =~= s.take(done).push(s[done]));
                lemma_temps_sum_push(s.take(done), s[done], env);
            }
            assert forall|env: spec_fn(Seq<char>) -> int| #[trigger] temps_prod(out@, env) == temps_prod(s.take(done + 1), env) by {
                lemma_temps_prod_insert(o0, i as int, tt, env);
                assert(s.take(done + 1) =~= s.take(done).push(s[done]));
                assert(s.take(done + 1).drop_last() =~= s.take(done));
            }
            assert forall|k: nat| #[trigger] temps_avoid(s, k) implies temps_avoid(out@, k) by {
                assert(temps_avoid(o0, k));
                assert(avoids(s[done].name@, k));
                assert forall|j: int| 0 <= j < out@.len() implies avoids(#[trigger] out@[j].name@, k) by {
                    if j < i {
                        assert(out@[j] == o0[j]);
                    } else if j > i {
                        assert(out@[j] == o0[j - 1]);
                    }
                }
            }
            done = done + 1;
        }
    }
    proof {
        assert(s.take(done) =~= s);
    }
    out
}

/// Drops pairs of an added and a subtracted temporary of the same name,
/// walking both lists from their ends.
fn cancel_common(add_part: Vec<LlvmTemp>, minus_part: Vec<LlvmTemp>) -> (r: (Vec<LlvmTemp>, Vec<LlvmTemp>))
    ensures
        forall|env: spec_fn(Seq<char>) -> int| #[trigger] temps_sum(r.0@, env) - temps_sum(r.1@, env)
            == temps_sum(add_part@, env) - temps_sum(minus_part@, env),
        r.0@.len() + r.1@.len() <= add_part@.len() + minus_part@.len(),
        forall|k: nat| #[trigger] temps_avoid(add_part@, k) && temps_avoid(minus_part@, k)
            ==> temps_avoid(r.0@, k) && temps_avoid(r.1@, k),
{
    let ghost a0 = add_part@;
    let ghost m0 = minus_part@;
    let mut add_part = add_part;
    let mut minus_part = minus_part;
    let mut new_add_part: Vec<LlvmTemp> = Vec::new();
    let mut new_minus_part: Vec<LlvmTemp> = Vec::new();
    while add_part.len() > 0 || minus_part.len() > 0
        invariant
            forall|env: spec_fn(Seq<char>) -> int| #[trigger] temps_sum(a0, env) - temps_sum(m0, env)
                == temps_sum(add_part@, env) - temps_sum(minus_part@, env)
                    + temps_sum(new_add_part@, env) - temps_sum(new_minus_part@, env),
            add_part@.len() + minus_part@.len() + new_add_part@.len() + new_minus_part@.len() <= a0.len() + m0.len(),
            forall|k: nat| #[trigger] temps_avoid(a0, k) && temps_avoid(m0, k) ==> temps_avoid(add_part@, k)
                && temps_avoid(minus_part@, k) && temps_avoid(new_add_part@, k) && temps_avoid(new_minus_part@, k),
        decreases add_part@.len() + minus_part@.len(),
    {
        let ghost ab = add_part@;
        let ghost mb = minus_part@;
        let ghost nab = new_add_part@;
        let ghost nmb = new_minus_part@;
        let add = add_part.pop();
        let minus = minus_part.pop();
        match (add, minus) {
            (Some(a), None) => {
                let ghost ga = a;
                new_add_part.push(a);
                proof {
                    assert forall|env: spec_fn(Seq<char>) -> int| #[trigger] temps_sum(a0, env) - temps_sum(m0, env)
                        == temps_sum(add_part@, env) - temps_sum(minus_part@, env)
                            + temps_sum(new_add_part@, env) - temps_sum(new_minus_part@, env) by {
                        assert(temps_sum(a0, env) - temps_sum(m0, env) == temps_sum(ab, env) - temps_sum(mb, env)
                            + temps_sum(nab, env) - temps_sum(nmb, env));
                        assert(add_part@ =~= ab.drop_last());
                        lemma_temps_sum_push(nab, ga, env);
                    }
                    assert forall|k: nat| #[trigger] temps_avoid(a0, k) && temps_avoid(m0, k) implies temps_avoid(add_part@, k)
                        && temps_avoid(minus_part@, k) && temps_avoid(new_add_part@, k) && temps_avoid(new_minus_part@, k) by {
                        assert(temps_avoid(ab, k) && temps_avoid(nab, k));
                        assert(avoids(ab[ab.len() - 1].name@, k));
                        assert forall|j: int| 0 <= j < new_add_part@.len() implies avoids(#[trigger] new_add_part@[j].name@, k) by {
                            if j < nab.len() {
                                assert(new_add_part@[j] == nab[j]);
                            }
                        }
                        assert forall|j: int| 0 <= j < add_part@.len() implies avoids(#[trigger] add_part@[j].name@, k) by {
                            assert(add_part@[j] == ab[j]);
                        }
                    }
                }
            },
            (None, Some(m)) => {
                let ghost gm = m;
                new_minus_part.push(m);
                proof {
                    assert forall|env: spec_fn(Seq<char>) -> int| #[trigger] temps_sum(a0, env) - temps_sum(m0, env)
                        == temps_sum(add_part@, env) - temps_sum(minus_part@, env)
                            + temps_sum(new_add_part@, env) - temps_sum(new_minus_part@, env) by {
                        assert(temps_sum(a0, env) - temps_sum(m0, env) == temps_sum(ab, env) - temps_sum(mb, env)
                            + temps_sum(nab, env) - temps_sum(nmb, env));
                        assert(minus_part@ =~= mb.drop_last());
                        lemma_temps_sum_push(nmb, gm, env);
                    }
                    assert forall|k: nat| #[trigger] temps_avoid(a0, k) && temps_avoid(m0, k) implies temps_avoid(add_part@, k)
                        && temps_avoid(minus_part@, k) && temps_avoid(new_add_part@, k) && temps_avoid(new_minus_part@, k) by {
                        assert(temps_avoid(ab, k));
                        assert(temps_avoid(mb, k));
                        assert(temps_avoid(nmb, k));
                        assert(avoids(mb[mb.len() - 1].name@, k));
                        assert forall|j: int| 0 <= j < new_minus_part@.len() implies avoids(#[trigger] new_minus_part@[j].name@, k) by {
                            if j < nmb.len() {
                                assert(new_minus_part@[j] == nmb[j]);
                            }
                        }
                        assert forall|j: int| 0 <= j < minus_part@.len() implies avoids(#[trigger] minus_part@[j].name@, k) by {
                            assert(minus_part@[j] == mb[j]);
                        }
                    }
                }
            },
            (Some(a), Some(m)) => {
                let ghost ga = a;
                let ghost gm = m;
                if a.name == m.name {
                    proof {
                        assert forall|env: spec_fn(Seq<char>) -> int| #[trigger] temps_sum(a0, env) - temps_sum(m0, env)
                            == temps_sum(add_part@, env) - temps_sum(minus_part@, env)
                                + temps_sum(new_add_part@, env) - temps_sum(new_minus_part@, env) by {
                            assert(temps_sum(a0, env) - temps_sum(m0, env) == temps_sum(ab, env) - temps_sum(mb, env)
                                + temps_sum(nab, env) - temps_sum(nmb, env));
                            assert(add_part@ =~= ab.drop_last());
                            assert(minus_part@ =~= mb.drop_last());
                        }
                        assert forall|k: nat| #[trigger] temps_avoid(a0, k) && temps_avoid(m0, k) implies temps_avoid(add_part@, k)
                            && temps_avoid(minus_part@, k) && temps_avoid(new_add_part@, k) && temps_avoid(new_minus_part@, k) by {
                            assert(temps_avoid(ab, k) && temps_avoid(mb, k));
                            assert forall|j: int| 0 <= j < add_part@.len() implies avoids(#[trigger] add_part@[j].name@, k) by {
                                assert(add_part@[j] == ab[j]);
                            }
                            assert forall|j: int| 0 <= j < minus_part@.len() implies avoids(#[trigger] minus_part@[j].name@, k) by {
                                assert(minus_part@[j] == mb[j]);
                            }
                        }
                    }
                } else if order_name(&a.name, &m.name) == Order3::Less {
                    add_part.push(a);
                    new_minus_part.push(m);
                    proof {
                        assert(add_part@ =~= ab);
                        assert forall|env: spec_fn(Seq<char>) -> int| #[trigger] temps_sum(a0, env) - temps_sum(m0, env)
                            == temps_sum(add_part@, env) - temps_sum(minus_part@, env)
                                + temps_sum(new_add_part@, env) - temps_sum(new_minus_part@, env) by {
                            assert(temps_sum(a0, env) - temps_sum(m0, env) == temps_sum(ab, env) - temps_sum(mb, env)
                                + temps_sum(nab, env) - temps_sum(nmb, env));
                            assert(minus_part@ =~= mb.drop_last());
                            lemma_temps_sum_push(nmb, gm, env);
                        }
                        assert forall|k: nat| #[trigger] temps_avoid(a0, k) && temps_avoid(m0, k) implies temps_avoid(add_part@, k)
                            && temps_avoid(minus_part@, k) && temps_avoid(new_add_part@, k) && temps_avoid(new_minus_part@, k) by {
                            assert(temps_avoid(ab, k) && temps_avoid(mb, k) && temps_avoid(nmb, k));
                            assert(avoids(mb[mb.len() - 1].name@, k));
                            assert forall|j: int| 0 <= j < new_minus_part@.len() implies avoids(#[trigger] new_minus_part@[j].name@, k) by {
                                if j < nmb.len() {
                                    assert(new_minus_part@[j] == nmb[j]);
                                }
                            }
                            assert forall|j: int| 0 <= j < minus_part@.len() implies avoids(#[trigger] minus_part@[j].name@, k) by {
                                assert(minus_part@[j] == mb[j]);
                            }
                        }
                    }
                } else {
                    minus_part.push(m);
                    new_add_part.push(a);
                    proof {
                        assert(minus_part@ =~= mb);
                        assert forall|env: spec_fn(Seq<char>) -> int| #[trigger] temps_sum(a0, env) - temps_sum(m0, env)
                            == temps_sum(add_part@, env) - temps_sum(minus_part@, env)
                                + temps_sum(new_add_part@, env) - temps_sum(new_minus_part@, env) by {
                            assert(temps_sum(a0, env) - temps_sum(m0, env) == temps_sum(ab, env) - temps_sum(mb, env)
                                + temps_sum(nab, env) - temps_sum(nmb, env));
                            assert(add_part@ =~= ab.drop_last());
                            lemma_temps_sum_push(nab, ga, env);
                        }
                        assert forall|k: nat| #[trigger] temps_avoid(a0, k) && temps_avoid(m0, k) implies temps_avoid(add_part@, k)
                            && temps_avoid(minus_part@, k) && temps_avoid(new_add_part@, k) && temps_avoid(new_minus_part@, k) by {
                            assert(temps_avoid(ab, k) && temps_avoid(nab, k) && temps_avoid(mb, k));
                            assert(avoids(ab[ab.len() - 1].name@, k));
                            assert forall|j: int| 0 <= j < new_add_part@.len() implies avoids(#[trigger] new_add_part@[j].name@, k) by {
                                if j < nab.len() {
                                    assert(new_add_part@[j] == nab[j]);
                                }
                            }
                            assert forall|j: int| 0 <= j < add_part@.len() implies avoids(#[trigger] add_part@[j].name@, k) by {
                                assert(add_part@[j] == ab[j]);
                            }
                        }
                    }
                }
            },
            (None, None) => {},
        }
    }
    proof {
        assert forall|env: spec_fn(Seq<char>) -> int| #[trigger] temps_sum(new_add_part@, env) - temps_sum(new_minus_part@, env)
            == temps_sum(a0, env) - temps_sum(m0, env) by {
            assert(temps_sum(a0, env) - temps_sum(m0, env) == temps_sum(add_part@, env) - temps_sum(minus_part@, env)
                + temps_sum(new_add_part@, env) - temps_sum(new_minus_part@, env));
            assert(add_part@ =~= Seq::<LlvmTemp>::empty());
            assert(minus_part@ =~= Seq::<LlvmTemp>::empty());
        }
        assert forall|k: nat| #[trigger] temps_avoid(a0, k) && temps_avoid(m0, k)
            implies temps_avoid(new_add_part@, k) && temps_avoid(new_minus_part@, k) by {
        }
    }
    (new_add_part, new_minus_part)
}

/// Running two lists of instructions one after the other.
pub proof fn lemma_run_append(a: Seq<ArithInstr>, b: Seq<ArithInstr>, env: spec_fn(Seq<char>) -> int)
    ensures
        run(a + b, env) == run(b, run(a, env)),
    decreases b.len(),
{
    if b.len() == 0 {
        assert(a + b =~= a);
    } else {
        assert((a + b).drop_last() =~= a + b.drop_last());
        assert((a + b).last() == b.last());
        lemma_run_append(a, b.drop_last(), env);
    }
}

/// The terms of a calculation: added or subtracted literals and temporaries.
pub open spec fn terms_ok(s: Seq<(ArithOp, Value)>) -> bool {
    forall|i: int| 0 <= i < s.len() ==> ((#[trigger] s[i]).0 == ArithOp::Add || s[i].0 == ArithOp::Sub)
        && !(s[i].1 is Float)
}

/// The instructions `s` write, in order, the temporaries numbered from `t`,
/// as `i32` temporaries, with additions, subtractions or multiplications of
/// type `var_type`.
pub open spec fn fresh_writes(s: Seq<ArithInstr>, t: nat, var_type: VarType) -> bool {
    forall|k: int| 0 <= k < s.len() ==> (#[trigger] s[k]).target.name@ == decimal((t + k) as nat)
        && !s[k].target.is_global && s[k].target.var_type == VarType::I32 && s[k].var_type == var_type
        && modeled_op(s[k].op)
}

/// An addition, subtraction or multiplication.
pub open spec fn modeled_op(op: ArithOp) -> bool {
    op == ArithOp::Add || op == ArithOp::Sub || op == ArithOp::Mul
}

/// Once a name avoids the temporaries numbered `k` or more, it avoids
/// those numbered `k + 1` or more, and the temporary numbered `k` avoids them too.
pub proof fn lemma_avoids_next(name: Seq<char>, k: nat)
    ensures
        avoids(name, k) ==> avoids(name, k + 1),
        avoids(decimal(k), k + 1),
{
    assert forall|j: nat| j >= k + 1 implies decimal(k) != #[trigger] decimal(j) by {
        if decimal(k) == decimal(j) {
            lemma_decimal_injective(k, j);
        }
    }
}

/// One instruction writing the temporary numbered `t` leaves the values of
/// the temporaries that avoid the numbers from `t` alone.
proof fn lemma_step_frame(s: Seq<(ArithOp, Value)>, e: spec_fn(Seq<char>) -> int, i: ArithInstr, t: nat)
    requires
        terms_avoid(s, t),
        i.target.name@ == decimal(t),
    ensures
        signed_sum(s, step(e, i)) == signed_sum(s, e),
{
    assert forall|j: int| 0 <= j < s.len() implies ((#[trigger] s[j]).1 matches Value::Temp(tt) ==> step(e, i)(tt.name@) == e(tt.name@)) by {
        if s[j].1 is Temp {
            assert(avoids(s[j].1->Temp_0.name@, t));
            assert(s[j].1->Temp_0.name@ != decimal(t));
        }
    }
    lemma_signed_sum_frame(s, step(e, i), e);
}

/// Combines the terms of a calculation in pairs, from the end: each pair
/// becomes one instruction writing a fresh temporary, numbered from
/// `*temp_number` on, and one term; a term left alone is kept. The terms
/// come out in the order they were given.
#[verifier::spinoff_prover]
fn pair_round(remain: Vec<(ArithOp, Value)>, temp_number: &mut u32, instrs: &mut Vec<ArithInstr>, target_type: VarType)
    -> (r: Vec<(ArithOp, Value)>)
    requires
        terms_ok(remain@),
        remain@.len() >= 2,
        *old(temp_number) as int + remain@.len() / 2 <= u32::MAX,
    ensures
        terms_ok(r@),
        r@.len() == remain@.len() - remain@.len() / 2,
        *final(temp_number) == *old(temp_number) + remain@.len() / 2,
        final(instrs)@.len() == old(instrs)@.len() + remain@.len() / 2,
        final(instrs)@.subrange(0, old(instrs)@.len() as int) == old(instrs)@,
        fresh_writes(final(instrs)@.subrange(old(instrs)@.len() as int, final(instrs)@.len() as int), *old(temp_number) as nat, target_type),
        terms_avoid(remain@, *old(temp_number) as nat) ==> terms_avoid(r@, *final(temp_number) as nat)
            && forall|env: spec_fn(Seq<char>) -> int| cong(
                #[trigger] signed_sum(r@, run(final(instrs)@.subrange(old(instrs)@.len() as int, final(instrs)@.len() as int), env)),
                signed_sum(remain@, env)),
{
    let ghost s0 = remain@;
    let ghost t0 = *temp_number as nat;
    let ghost base = instrs@.len() as int;
    let ghost i0 = instrs@;
    let ghost ok = terms_avoid(s0, t0);
    let mut remain = remain;
    let mut new_remain: Vec<(ArithOp, Value)> = Vec::new();
    proof {
        assert(instrs@.subrange(base, instrs@.len() as int) =~= Seq::<ArithInstr>::empty());
        assert forall|env: spec_fn(Seq<char>) -> int| cong(
            #[trigger] signed_sum(remain@, run(instrs@.subrange(base, instrs@.len() as int), env))
                + signed_sum(new_remain@, run(instrs@.subrange(base, instrs@.len() as int), env)),
            signed_sum(s0, env)) by {
            assert(new_remain@ =~= Seq::<(ArithOp, Value)>::empty());
            lemma_wrap32(signed_sum(s0, env), 0);
        }
    }
    while remain.len() >= 2
        invariant
            terms_ok(remain@),
            terms_ok(new_remain@),
            remain@ == s0.subrange(0, remain@.len() as int),
            remain@.len() <= s0.len(),
            (s0.len() - remain@.len()) % 2 == 0,
            new_remain@.len() == (s0.len() - remain@.len()) / 2,
            *temp_number == t0 + (s0.len() - remain@.len()) / 2,
            t0 + s0.len() / 2 <= u32::MAX,
            instrs@.len() == base + (s0.len() - remain@.len()) / 2,
            instrs@.subrange(0, base) == i0,
            base == i0.len(),
            fresh_writes(instrs@.subrange(base, instrs@.len() as int), t0, target_type),
            ok == terms_avoid(s0, t0),
            ok ==> terms_avoid(remain@, *temp_number as nat) && terms_avoid(new_remain@, *temp_number as nat),
            ok ==> forall|env: spec_fn(Seq<char>) -> int| cong(
                #[trigger] signed_sum(remain@, run(instrs@.subrange(base, instrs@.len() as int), env))
                    + signed_sum(new_remain@, run(instrs@.subrange(base, instrs@.len() as int), env)),
                signed_sum(s0, env)),
        decreases remain@.len(),
    {
        let ghost rb = remain@;
        let ghost nb = new_remain@;
        let ghost eb = instrs@.subrange(base, instrs@.len() as int);
        let ghost tb = *temp_number as nat;
        let name = number_name(*temp_number);
        let new_temp = LlvmTemp { name, is_global: false, var_type: VarType::I32 };
        *temp_number = *temp_number + 1;
        let (op1, value1) = remain.pop().unwrap();
        let (op0, value0) = remain.pop().unwrap();
        proof {
            assert(rb[rb.len() - 1] == (op1, value1));
            assert(rb[rb.len() - 2] == (op0, value0));
            assert(remain@ =~= rb.subrange(0, rb.len() - 2));
        }
        let (instr, entry) = match (op0, op1) {
            (ArithOp::Add, ArithOp::Add) => (
                ArithInstr { target: new_temp.dup(), op: ArithOp::Add, var_type: target_type, lhs: value0, rhs: value1 },
                (ArithOp::Add, Value::Temp(new_temp)),
            ),
            (ArithOp::Add, _) => (
                ArithInstr { target: new_temp.dup(), op: ArithOp::Sub, var_type: target_type, lhs: value0, rhs: value1 },
                (ArithOp::Add, Value::Temp(new_temp)),
            ),
            (_, ArithOp::Add) => (
                ArithInstr { target: new_temp.dup(), op: ArithOp::Sub, var_type: target_type, lhs: value1, rhs: value0 },
                (ArithOp::Add, Value::Temp(new_temp)),
            ),
            _ => (
                ArithInstr { target: new_temp.dup(), op: ArithOp::Add, var_type: target_type, lhs: value1, rhs: value0 },
                (ArithOp::Sub, Value::Temp(new_temp)),
            ),
        };
        let ghost gi = instr;
        let ghost ge = entry;
        instrs.push(instr);
        new_remain.push(entry);
        proof {
            assert(instrs@.subrange(base, instrs@.len() as int) =~= eb.push(gi));
            assert(instrs@.subrange(0, base) =~= i0);
            assert forall|k: int| 0 <= k < eb.push(gi).len() implies (#[trigger] eb.push(gi)[k]).target.name@ == decimal((t0 + k) as nat)
                && !eb.push(gi)[k].target.is_global && eb.push(gi)[k].target.var_type == VarType::I32
                && eb.push(gi)[k].var_type == target_type by {
                if k < eb.len() {
                    assert(eb.push(gi)[k] == eb[k]);
                }
            }
            assert(terms_ok(new_remain@)) by {
                assert forall|i: int| 0 <= i < new_remain@.len() implies ((#[trigger] new_remain@[i]).0 == ArithOp::Add
                    || new_remain@[i].0 == ArithOp::Sub) && !(new_remain@[i].1 is Float) by {
                    if i < nb.len() {
                        assert(new_remain@[i] == nb[i]);
                    }
                }
            }
            assert(terms_ok(remain@)) by {
                assert forall|i: int| 0 <= i < remain@.len() implies ((#[trigger] remain@[i]).0 == ArithOp::Add
                    || remain@[i].0 == ArithOp::Sub) && !(remain@[i].1 is Float) by {
                    assert(remain@[i] == rb[i]);
                }
            }
            assert(remain@ =~= s0.subrange(0, remain@.len() as int));
            if ok {
                lemma_avoids_next(decimal(tb), tb);
                assert(terms_avoid(remain@, *temp_number as nat)) by {
                    assert forall|i: int| 0 <= i < remain@.len() implies ((#[trigger] remain@[i]).1 matches Value::Temp(t)
                        ==> avoids(t.name@, *temp_number as nat)) by {
                        assert(remain@[i] == rb[i]);
                        if rb[i].1 is Temp {
                            lemma_avoids_next(rb[i].1->Temp_0.name@, tb);
                        }
                    }
                }
                assert(terms_avoid(new_remain@, *temp_number as nat)) by {
                    assert forall|i: int| 0 <= i < new_remain@.len() implies ((#[trigger] new_remain@[i]).1 matches Value::Temp(t)
                        ==> avoids(t.name@, *temp_number as nat)) by {
                        if i < nb.len() {
                            assert(new_remain@[i] == nb[i]);
                            if nb[i].1 is Temp {
                                lemma_avoids_next(nb[i].1->Temp_0.name@, tb);
                            }
                        }
                    }
                }
                assert forall|env: spec_fn(Seq<char>) -> int| cong(
                    #[trigger] signed_sum(remain@, run(instrs@.subrange(base, instrs@.len() as int), env))
                        + signed_sum(new_remain@, run(instrs@.subrange(base, instrs@.len() as int), env)),
                    signed_sum(s0, env)) by {
                    let e = run(eb, env);
                    let e2 = run(eb.push(gi), env);
                    assert(eb.push(gi).drop_last() =~= eb);
                    assert(e2 == step(e, gi));
                    let before = signed_sum(rb, e) + signed_sum(nb, e);
                    assert(cong(before, signed_sum(s0, env)));
                    // the popped terms and the new one
                    assert(rb =~= remain@.push((op0, value0)).push((op1, value1)));
                    lemma_signed_sum_push(remain@.push((op0, value0)), (op1, value1), e);
                    lemma_signed_sum_push(remain@, (op0, value0), e);
                    lemma_signed_sum_push(nb, ge, e2);
                    assert(terms_avoid(remain@, tb)) by {
                        assert forall|i: int| 0 <= i < remain@.len() implies ((#[trigger] remain@[i]).1 matches Value::Temp(t)
                            ==> avoids(t.name@, tb)) by {
                            assert(remain@[i] == rb[i]);
                        }
                    }
                    lemma_step_frame(remain@, e, gi, tb);
                    lemma_step_frame(nb, e, gi, tb);
                    let a = operand(value0, e);
                    let b = operand(value1, e);
                    lemma_wrap32(a + b, 0);
                    lemma_wrap32(a - b, 0);
                    lemma_wrap32(b - a, 0);
                    lemma_wrap32(b + a, 0);
                    let t0v = term((op0, value0), e);
                    let t1v = term((op1, value1), e);
                    assert(cong(term(ge, e2), t0v + t1v));
                    let rest = signed_sum(remain@, e) + signed_sum(nb, e);
                    lemma_cong_add(term(ge, e2), t0v + t1v, rest, rest);
                    lemma_cong_trans(rest + term(ge, e2), rest + t0v + t1v, signed_sum(s0, env));
                }
            }
        }
    }
    let ghost rl = remain@;
    let ghost nl = new_remain@;
    if remain.len() == 1 {
        let last = remain.pop().unwrap();
        new_remain.push(last);
    }
    let ghost before_rev = new_remain@;
    proof {
        assert(terms_ok(before_rev)) by {
            assert forall|i: int| 0 <= i < before_rev.len() implies ((#[trigger] before_rev[i]).0 == ArithOp::Add
                || before_rev[i].0 == ArithOp::Sub) && !(before_rev[i].1 is Float) by {
                if i < nl.len() {
                    assert(before_rev[i] == nl[i]);
                } else {
                    assert(before_rev[i] == rl[0]);
                }
            }
        }
        if ok {
            assert(terms_avoid(before_rev, *temp_number as nat)) by {
                assert forall|i: int| 0 <= i < before_rev.len() implies ((#[trigger] before_rev[i]).1 matches Value::Temp(t)
                    ==> avoids(t.name@, *temp_number as nat)) by {
                    if i < nl.len() {
                        assert(before_rev[i] == nl[i]);
                    } else {
                        assert(before_rev[i] == rl[0]);
                    }
                }
            }
            assert forall|env: spec_fn(Seq<char>) -> int| #[trigger] signed_sum(before_rev, run(instrs@.subrange(base, instrs@.len() as int), env))
                == signed_sum(rl, run(instrs@.subrange(base, instrs@.len() as int), env))
                    + signed_sum(nl, run(instrs@.subrange(base, instrs@.len() as int), env)) by {
                let e = run(instrs@.subrange(base, instrs@.len() as int), env);
                if rl.len() == 1 {
                    assert(before_rev =~= nl.push(rl[0]));
                    lemma_signed_sum_push(nl, rl[0], e);
                    assert(rl.drop_last() =~= Seq::<(ArithOp, Value)>::empty());
                    assert(rl.last() == rl[0]);
                    assert(signed_sum(rl.drop_last(), e) == 0);
                    assert(signed_sum(rl, e) == term(rl[0], e));
                } else {
                    assert(rl =~= Seq::<(ArithOp, Value)>::empty());
                    assert(signed_sum(rl, e) == 0);
                    assert(before_rev =~= nl);
                }
            }
        }
    }
    let mut reversed: Vec<(ArithOp, Value)> = Vec::new();
    while new_remain.len() > 0
        invariant
            reversed@ + new_remain@.reverse() == before_rev.reverse(),
        decreases new_remain.len(),
    {
        let ghost nb = new_remain@;
        let x = new_remain.pop().unwrap();
        reversed.push(x);
        proof {
            assert(nb.reverse() =~= seq![nb.last()] + new_remain@.reverse());
            assert(reversed@ + new_remain@.reverse() =~= (reversed@.drop_last() + nb.reverse()));
        }
    }
    proof {
        assert(reversed@ =~= before_rev.reverse());
        assert(terms_ok(reversed@)) by {
            assert forall|i: int| 0 <= i < reversed@.len() implies ((#[trigger] reversed@[i]).0 == ArithOp::Add
                || reversed@[i].0 == ArithOp::Sub) && !(reversed@[i].1 is Float) by {
                assert(reversed@[i] == before_rev[before_rev.len() - 1 - i]);
            }
        }
        if ok {
            assert(terms_avoid(reversed@, *temp_number as nat)) by {
                assert forall|i: int| 0 <= i < reversed@.len() implies ((#[trigger] reversed@[i]).1 matches Value::Temp(t)
                    ==> avoids(t.name@, *temp_number as nat)) by {
                    assert(reversed@[i] == before_rev[before_rev.len() - 1 - i]);
                }
            }
            assert forall|env: spec_fn(Seq<char>) -> int| cong(
                #[trigger] signed_sum(reversed@, run(instrs@.subrange(base, instrs@.len() as int), env)),
                signed_sum(s0, env)) by {
                let e = run(instrs@.subrange(base, instrs@.len() as int), env);
                lemma_signed_sum_reverse(before_rev, e);
                assert(signed_sum(before_rev, e) == signed_sum(rl, e) + signed_sum(nl, e));
            }
        }
    }
    reversed
}

/// The terms left after cancelling: subtracted temporaries, then added
/// ones (each list from its end), then the literal part where it is not
/// zero or nothing else is left.
fn build_remain(const_part: i32, add_part: Vec<LlvmTemp>, minus_part: Vec<LlvmTemp>) -> (r: Vec<(ArithOp, Value)>)
    ensures
        terms_ok(r@),
        r@.len() == add_part@.len() + minus_part@.len()
            + (if const_part != 0 || add_part@.len() + minus_part@.len() == 0 { 1int } else { 0int }),
        forall|env: spec_fn(Seq<char>) -> int| #[trigger] signed_sum(r@, env)
            == const_part + temps_sum(add_part@, env) - temps_sum(minus_part@, env),
        forall|k: nat| #[trigger] temps_avoid(add_part@, k) && temps_avoid(minus_part@, k) ==> terms_avoid(r@, k),
{
    let ghost a0 = add_part@;
    let ghost m0 = minus_part@;
    let mut add_part = add_part;
    let mut minus_part = minus_part;
    let mut remain: Vec<(ArithOp, Value)> = Vec::new();
    while minus_part.len() > 0
        invariant
            terms_ok(remain@),
            add_part@ == a0,
            remain@.len() + minus_part@.len() == m0.len(),
            minus_part@ == m0.subrange(0, minus_part@.len() as int),
            forall|env: spec_fn(Seq<char>) -> int| #[trigger] signed_sum(remain@, env) == temps_sum(minus_part@, env) - temps_sum(m0, env),
            forall|k: nat| #[trigger] temps_avoid(m0, k) ==> terms_avoid(remain@, k),
        decreases minus_part@.len(),
    {
        let ghost mb = minus_part@;
        let ghost rb = remain@;
        let t = minus_part.pop().unwrap();
        let ghost e = (ArithOp::Sub, Value::Temp(t));
        remain.push((ArithOp::Sub, Value::Temp(t)));
        proof {
            assert(minus_part@ =~= m0.subrange(0, minus_part@.len() as int));
            assert forall|env: spec_fn(Seq<char>) -> int| #[trigger] signed_sum(remain@, env) == temps_sum(minus_part@, env) - temps_sum(m0, env) by {
                assert(signed_sum(rb, env) == temps_sum(mb, env) - temps_sum(m0, env));
                lemma_signed_sum_push(rb, e, env);
                assert(minus_part@ =~= mb.drop_last());
            }
            assert forall|k: nat| #[trigger] temps_avoid(m0, k) implies terms_avoid(remain@, k) by {
                assert(terms_avoid(rb, k));
                assert(mb.last() == m0[mb.len() - 1]);
                assert forall|i: int| 0 <= i < remain@.len() implies ((#[trigger] remain@[i]).1 matches Value::Temp(tt) ==> avoids(tt.name@, k)) by {
                    if i < rb.len() {
                        assert(remain@[i] == rb[i]);
                    }
                }
            }
            assert forall|i: int| 0 <= i < remain@.len() implies ((#[trigger] remain@[i]).0 == ArithOp::Add
                || remain@[i].0 == ArithOp::Sub) && !(remain@[i].1 is Float) by {
                if i < rb.len() {
                    assert(remain@[i] == rb[i]);
                }
            }
        }
    }
    let ghost r1 = remain@;
    while add_part.len() > 0
        invariant
            terms_ok(remain@),
            remain@.len() + add_part@.len() == a0.len() + m0.len(),
            add_part@.len() <= a0.len(),
            add_part@ == a0.subrange(0, add_part@.len() as int),
            forall|env: spec_fn(Seq<char>) -> int| #[trigger] signed_sum(remain@, env)
                == temps_sum(a0, env) - temps_sum(add_part@, env) - temps_sum(m0, env),
            forall|k: nat| #[trigger] temps_avoid(a0, k) && temps_avoid(m0, k) ==> terms_avoid(remain@, k),
        decreases add_part@.len(),
    {
        let ghost ab = add_part@;
        let ghost rb = remain@;
        let t = add_part.pop().unwrap();
        let ghost e = (ArithOp::Add, Value::Temp(t));
        remain.push((ArithOp::Add, Value::Temp(t)));
        proof {
            assert(add_part@ =~= a0.subrange(0, add_part@.len() as int));
            assert forall|env: spec_fn(Seq<char>) -> int| #[trigger] signed_sum(remain@, env)
                == temps_sum(a0, env) - temps_sum(add_part@, env) - temps_sum(m0, env) by {
                assert(signed_sum(rb, env) == temps_sum(a0, env) - temps_sum(ab, env) - temps_sum(m0, env));
                lemma_signed_sum_push(rb, e, env);
                assert(add_part@ =~= ab.drop_last());
            }
            assert forall|k: nat| #[trigger] temps_avoid(a0, k) && temps_avoid(m0, k) implies terms_avoid(remain@, k) by {
                assert(terms_avoid(rb, k));
                assert(ab.last() == a0[ab.len() - 1]);
                assert forall|i: int| 0 <= i < remain@.len() implies ((#[trigger] remain@[i]).1 matches Value::Temp(tt) ==> avoids(tt.name@, k)) by {
                    if i < rb.len() {
                        assert(remain@[i] == rb[i]);
                    }
                }
            }
            assert forall|i: int| 0 <= i < remain@.len() implies ((#[trigger] remain@[i]).0 == ArithOp::Add
                || remain@[i].0 == ArithOp::Sub) && !(remain@[i].1 is Float) by {
                if i < rb.len() {
                    assert(remain@[i] == rb[i]);
                }
            }
        }
    }
    let ghost r2 = remain@;
    if const_part != 0 || remain.len() == 0 {
        remain.push((ArithOp::Add, Value::Int(const_part)));
        proof {
            assert forall|env: spec_fn(Seq<char>) -> int| #[trigger] signed_sum(remain@, env)
                == const_part + temps_sum(a0, env) - temps_sum(m0, env) by {
                assert(signed_sum(r2, env) == temps_sum(a0, env) - temps_sum(add_part@, env) - temps_sum(m0, env));
                assert(add_part@ =~= Seq::<LlvmTemp>::empty());
                lemma_signed_sum_push(r2, (ArithOp::Add, Value::Int(const_part)), env);
            }
            assert forall|k: nat| #[trigger] temps_avoid(a0, k) && temps_avoid(m0, k) implies terms_avoid(remain@, k) by {
                assert(terms_avoid(r2, k));
                assert forall|i: int| 0 <= i < remain@.len() implies ((#[trigger] remain@[i]).1 matches Value::Temp(tt) ==> avoids(tt.name@, k)) by {
                    if i < r2.len() {
                        assert(remain@[i] == r2[i]);
                    }
                }
            }
            assert forall|i: int| 0 <= i < remain@.len() implies ((#[trigger] remain@[i]).0 == ArithOp::Add
                || remain@[i].0 == ArithOp::Sub) && !(remain@[i].1 is Float) by {
                if i < r2.len() {
                    assert(remain@[i] == r2[i]);
                }
            }
        }
    } else {
        proof {
            assert forall|env: spec_fn(Seq<char>) -> int| #[trigger] signed_sum(remain@, env)
                == const_part + temps_sum(a0, env) - temps_sum(m0, env) by {
                assert(signed_sum(r2, env) == temps_sum(a0, env) - temps_sum(add_part@, env) - temps_sum(m0, env));
                assert(add_part@ =~= Seq::<LlvmTemp>::empty());
            }
        }
    }
    remain
}

/// The instructions that a call appended to a list.
pub open spec fn appended(before: Seq<ArithInstr>, after: Seq<ArithInstr>) -> Seq<ArithInstr> {
    after.subrange(before.len() as int, after.len() as int)
}

/// Emits instructions computing the sum `info` (terms added or subtracted)
/// into `target`: literals are folded (wrapping), temporaries added and
/// subtracted under the same name cancel, and the rest is combined as a
/// balanced tree through fresh temporaries named by the numbers from
/// `next_temp` on. Returns the next unused number. Whatever the values of
/// the temporaries, provided `info` names none of the fresh ones, the
/// instructions leave in `target` the `i32` of the sum.
pub fn add_addicative_tree(
    next_temp: u32,
    instrs_list: &mut Vec<ArithInstr>,
    target: LlvmTemp,
    info: &Vec<(ArithOp, Value)>,
    target_type: VarType,
) -> (r: u32)
    requires
        terms_ok(info@),
        next_temp as int + info@.len() <= u32::MAX,
    ensures
        next_temp <= r,
        r as int <= next_temp as int + info@.len(),
        final(instrs_list)@.len() == old(instrs_list)@.len() + (r - next_temp) + 1,
        final(instrs_list)@.subrange(0, old(instrs_list)@.len() as int) == old(instrs_list)@,
        fresh_writes(appended(old(instrs_list)@, final(instrs_list)@).drop_last(), next_temp as nat, target_type),
        appended(old(instrs_list)@, final(instrs_list)@).last().target == target,
        appended(old(instrs_list)@, final(instrs_list)@).last().var_type == target_type,
        modeled_op(appended(old(instrs_list)@, final(instrs_list)@).last().op),
        terms_avoid(info@, next_temp as nat) ==> forall|env: spec_fn(Seq<char>) -> int|
            #[trigger] run(appended(old(instrs_list)@, final(instrs_list)@), env)(target.name@)
                == wrap32(signed_sum(info@, env)),
{
    let ghost base = instrs_list@.len() as int;
    let ghost i0 = instrs_list@;
    let ghost ok = terms_avoid(info@, next_temp as nat);
    let (const_part, add_part, minus_part) = split_terms(info);
    let add_part = sort_by_name(add_part);
    let minus_part = sort_by_name(minus_part);
    let (add_part, minus_part) = cancel_common(add_part, minus_part);
    let mut remain = build_remain(const_part, add_part, minus_part);
    let mut temp_number: u32 = next_temp;
    proof {
        assert(instrs_list@.subrange(base, instrs_list@.len() as int) =~= Seq::<ArithInstr>::empty());
        assert(instrs_list@.subrange(0, base) =~= i0);
        if ok {
            assert forall|env: spec_fn(Seq<char>) -> int| cong(
                #[trigger] signed_sum(remain@, run(instrs_list@.subrange(base, instrs_list@.len() as int), env)),
                signed_sum(info@, env)) by {
                assert(run(Seq::<ArithInstr>::empty(), env) == env);
                assert(instrs_list@.subrange(base, instrs_list@.len() as int) =~= Seq::<ArithInstr>::empty());
                let x = const_part + temps_sum(add_part@, env) - temps_sum(minus_part@, env);
                assert(signed_sum(remain@, env) == x);
            }
        }
    }
    loop
        invariant
            terms_ok(remain@),
            remain@.len() >= 1,
            temp_number as int + remain@.len() <= next_temp as int + (if info@.len() == 0 { 1 } else { info@.len() as int }),
            next_temp as int + info@.len() <= u32::MAX,
            next_temp <= temp_number,
            base == i0.len(),
            i0 == old(instrs_list)@,
            instrs_list@.len() == base + (temp_number - next_temp),
            instrs_list@.subrange(0, base) == i0,
            fresh_writes(instrs_list@.subrange(base, instrs_list@.len() as int), next_temp as nat, target_type),
            ok == terms_avoid(info@, next_temp as nat),
            ok ==> terms_avoid(remain@, temp_number as nat),
            ok ==> forall|env: spec_fn(Seq<char>) -> int| cong(
                #[trigger] signed_sum(remain@, run(instrs_list@.subrange(base, instrs_list@.len() as int), env)),
                signed_sum(info@, env)),
        decreases remain@.len(),
    {
        let ghost eb = instrs_list@.subrange(base, instrs_list@.len() as int);
        if remain.len() == 1 {
            let ghost rb0 = remain@;
            let (op, value) = remain.pop().unwrap();
            let ghost gv = value;
            let instr = ArithInstr { target, op, var_type: target_type, lhs: Value::Int(0), rhs: value };
            let ghost gi = instr;
            let ghost lb = instrs_list@;
            instrs_list.push(instr);
            proof {
                lemma_final_write(i0, eb, gi, lb, base);
                assert(instrs_list@ == lb.push(gi));
                assert(instrs_list@.len() == base + (temp_number - next_temp) + 1);
                if ok {
                    assert forall|env: spec_fn(Seq<char>) -> int|
                        #[trigger] run(appended(i0, instrs_list@), env)(gi.target.name@) == wrap32(signed_sum(info@, env)) by {
                        let e = run(eb, env);
                        assert(appended(i0, instrs_list@).drop_last() =~= eb);
                        assert(run(appended(i0, instrs_list@), env) == step(e, gi));
                        let one = seq![(op, gv)];
                        assert(rb0 =~= one);
                        let sv = signed_sum(one, e);
                        assert(one.drop_last() =~= Seq::<(ArithOp, Value)>::empty());
                        assert(one.last() == (op, gv));
                        assert(signed_sum(one.drop_last(), e) == 0);
                        assert(sv == term((op, gv), e));
                        assert(remain@.len() == 0);
                        assert(cong(sv, signed_sum(info@, env)));
                        lemma_wrap32(0 + operand(gv, e), signed_sum(info@, env));
                        lemma_wrap32(0 - operand(gv, e), signed_sum(info@, env));
                    }
                }
            }
            return temp_number;
        }
        if remain.len() == 2 {
            let op0 = remain[0].0;
            let op1 = remain[1].0;
            if !(op0 == ArithOp::Sub && op1 == ArithOp::Sub) {
                let ghost rb = remain@;
                let (_, value1) = remain.pop().unwrap();
                let (_, value0) = remain.pop().unwrap();
                let ghost g0 = value0;
                let ghost g1 = value1;
                proof {
                    assert(rb[0] == (op0, g0));
                    assert(rb[1] == (op1, g1));
                }
                let instr = if op0 == ArithOp::Add && op1 == ArithOp::Add {
                    ArithInstr { target, op: ArithOp::Add, var_type: target_type, lhs: value1, rhs: value0 }
                } else if op0 == ArithOp::Add {
                    ArithInstr { target, op: ArithOp::Sub, var_type: target_type, lhs: value0, rhs: value1 }
                } else {
                    ArithInstr { target, op: ArithOp::Sub, var_type: target_type, lhs: value1, rhs: value0 }
                };
                let ghost gi = instr;
                let ghost lb = instrs_list@;
                instrs_list.push(instr);
                proof {
                    lemma_final_write(i0, eb, gi, lb, base);
                    assert(instrs_list@ == lb.push(gi));
                    assert(instrs_list@.len() == base + (temp_number - next_temp) + 1);
                    if ok {
                        assert forall|env: spec_fn(Seq<char>) -> int|
                            #[trigger] run(appended(i0, instrs_list@), env)(gi.target.name@) == wrap32(signed_sum(info@, env)) by {
                            let e = run(eb, env);
                            assert(appended(i0, instrs_list@).drop_last() =~= eb);
                            assert(run(appended(i0, instrs_list@), env) == step(e, gi));
                            assert(rb =~= seq![(op0, g0)].push((op1, g1)));
                            lemma_signed_sum_push(seq![(op0, g0)], (op1, g1), e);
                            let one = seq![(op0, g0)];
                            assert(one.drop_last() =~= Seq::<(ArithOp, Value)>::empty());
                            assert(one.last() == (op0, g0));
                            assert(signed_sum(one.drop_last(), e) == 0);
                            let sv = signed_sum(rb, e);
                            assert(sv == term((op0, g0), e) + term((op1, g1), e));
                            assert(cong(sv, signed_sum(info@, env)));
                            let a = operand(g0, e);
                            let b = operand(g1, e);
                            lemma_wrap32(b + a, signed_sum(info@, env));
                            lemma_wrap32(a - b, signed_sum(info@, env));
                            lemma_wrap32(b - a, signed_sum(info@, env));
                        }
                    }
                }
                return temp_number;
            }
        }
        let ghost rb = remain@;
        let ghost tb = temp_number;
        let ghost lb = instrs_list@;
        remain = pair_round(remain, &mut temp_number, instrs_list, target_type);
        proof {
            let round = appended(lb, instrs_list@);
            assert(instrs_list@.subrange(base, instrs_list@.len() as int) =~= eb + round);
            assert(instrs_list@.subrange(0, base) =~= i0) by {
                assert(instrs_list@.subrange(0, lb.len() as int) == lb);
                assert(lb.subrange(0, base) == i0);
            }
            assert forall|k: int| 0 <= k < (eb + round).len() implies (#[trigger] (eb + round)[k]).target.name@ == decimal((next_temp + k) as nat)
                && !(eb + round)[k].target.is_global && (eb + round)[k].target.var_type == VarType::I32
                && (eb + round)[k].var_type == target_type by {
                if k < eb.len() {
                    assert((eb + round)[k] == eb[k]);
                } else {
                    assert((eb + round)[k] == round[k - eb.len()]);
                }
            }
            if ok {
                assert forall|env: spec_fn(Seq<char>) -> int| cong(
                    #[trigger] signed_sum(remain@, run(instrs_list@.subrange(base, instrs_list@.len() as int), env)),
                    signed_sum(info@, env)) by {
                    lemma_run_append(eb, round, env);
                    let e = run(eb, env);
                    assert(cong(signed_sum(remain@, run(round, e)), signed_sum(rb, e)));
                    assert(cong(signed_sum(rb, e), signed_sum(info@, env)));
                    lemma_cong_trans(signed_sum(remain@, run(round, e)), signed_sum(rb, e), signed_sum(info@, env));
                }
            }
        }
    }
}

/// The last instruction appended after `eb` completes the list of
/// appended instructions.
proof fn lemma_final_write(i0: Seq<ArithInstr>, eb: Seq<ArithInstr>, gi: ArithInstr, lb: Seq<ArithInstr>, base: int)
    requires
        base == i0.len(),
        0 <= base <= lb.len(),
        lb.subrange(0, base) == i0,
        lb.subrange(base, lb.len() as int) == eb,
    ensures
        appended(i0, lb.push(gi)) =~= eb.push(gi),
        lb.push(gi).subrange(0, base) == i0,
{
    assert(lb.push(gi).subrange(0, base) =~= lb.subrange(0, base));
    assert forall|k: int| 0 <= k < eb.len() implies appended(i0, lb.push(gi))[k] == eb[k] by {
        assert(appended(i0, lb.push(gi))[k] == lb.push(gi)[base + k]);
        assert(lb.subrange(base, lb.len() as int)[k] == lb[base + k]);
    }
}

/// The factors of a product: multiplied literals and temporaries.
pub open spec fn factors_ok(s: Seq<(ArithOp, Value)>) -> bool {
    forall|i: int| 0 <= i < s.len() ==> (#[trigger] s[i]).0 == ArithOp::Mul && !(s[i].1 is Float)
}

/// Splits a product into its literal part (wrapping as the machine does)
/// and its temporaries.
fn split_factors(info: &Vec<(ArithOp, Value)>) -> (r: (i32, Vec<LlvmTemp>))
    requires
        factors_ok(info@),
    ensures
        forall|env: spec_fn(Seq<char>) -> int| cong(r.0 * temps_prod(r.1@, env), #[trigger] product(info@, env)),
        r.1@.len() <= info@.len(),
        forall|k: nat| #[trigger] terms_avoid(info@, k) ==> temps_avoid(r.1@, k),
{
    let mut const_part: i32 = 1;
    let mut temp_part: Vec<LlvmTemp> = Vec::new();
    let mut i: usize = 0;
    proof {
        assert forall|env: spec_fn(Seq<char>) -> int| cong(const_part * temps_prod(temp_part@, env), #[trigger] product(info@.take(0), env)) by {
            assert(info@.take(0) =~= Seq::<(ArithOp, Value)>::empty());
            lemma_wrap32(1, 0);
        }
    }
    while i < info.len()
        invariant
            i <= info@.len(),
            factors_ok(info@),
            temp_part@.len() <= i,
            forall|env: spec_fn(Seq<char>) -> int| cong(const_part * temps_prod(temp_part@, env), #[trigger] product(info@.take(i as int), env)),
            forall|k: nat| #[trigger] terms_avoid(info@, k) ==> temps_avoid(temp_part@, k),
        decreases info@.len() - i,
    {
        let ghost c0 = const_part;
        let ghost t0 = temp_part@;
        proof {
            assert(info@.take(i + 1).drop_last() =~= info@.take(i as int));
            assert(info@.take(i + 1).last() == info@[i as int]);
        }
        let (_, value) = &info[i];
        match value {
            Value::Int(v) => {
                const_part = const_part.wrapping_mul(*v);
                proof {
                    lemma_wrapping_cong(c0, *v);
                    assert forall|env: spec_fn(Seq<char>) -> int| cong(const_part * temps_prod(temp_part@, env), #[trigger] product(info@.take(i + 1), env)) by {
                        let prev = product(info@.take(i as int), env);
                        let tp = temps_prod(t0, env);
                        assert(cong(c0 * tp, prev));
                        let x = *v as int;
                        assert(product(info@.take(i + 1), env) == prev * x);
                        lemma_wrap32(x, 0);
                        lemma_cong_mul(c0 * tp, prev, x, x);
                        lemma_cong_mul(const_part as int, c0 * x, tp, tp);
                        assert(c0 * tp * x == (c0 * x) * tp) by (nonlinear_arith);
                        lemma_cong_trans(const_part * tp, (c0 * x) * tp, prev * x);
                    }
                }
            },
            Value::Temp(t) => {
                temp_part.push(t.dup());
                proof {
                    assert forall|env: spec_fn(Seq<char>) -> int| cong(const_part * temps_prod(temp_part@, env), #[trigger] product(info@.take(i + 1), env)) by {
                        let prev = product(info@.take(i as int), env);
                        let tp = temps_prod(t0, env);
                        assert(cong(c0 * tp, prev));
                        let x = env(t.name@);
                        assert(temp_part@.drop_last() =~= t0);
                        assert(temps_prod(temp_part@, env) == tp * x);
                        assert(product(info@.take(i + 1), env) == prev * x);
                        lemma_wrap32(x, 0);
                        lemma_cong_mul(c0 * tp, prev, x, x);
                        assert(c0 * tp * x == c0 * (tp * x)) by (nonlinear_arith);
                    }
                    assert forall|k: nat| #[trigger] terms_avoid(info@, k) implies temps_avoid(temp_part@, k) by {
                        assert(temps_avoid(t0, k));
                        assert(info@[i as int].1 matches Value::Temp(t2) ==> avoids(t2.name@, k));
                        assert forall|j: int| 0 <= j < temp_part@.len() implies avoids(#[trigger] temp_part@[j].name@, k) by {
                            if j < t0.len() {
                                assert(temp_part@[j] == t0[j]);
                            }
                        }
                    }
                }
            },
            Value::Float(_) => {
                proof {
                    assert(false);
                }
            },
        }
        i = i + 1;
    }
    proof {
        assert(info@.take(i as int) =~= info@);
    }
    (const_part, temp_part)
}

/// Multiplies the temporaries of a product in pairs, from the end: each
/// pair becomes one instruction writing a fresh temporary, numbered from
/// `*temp_number` on; a temporary left alone is kept. The factors come out
/// in the order they were given.
fn mul_pair_round(temp_part: Vec<LlvmTemp>, temp_number: &mut u32, instrs: &mut Vec<ArithInstr>, target_type: VarType)
    -> (r: Vec<LlvmTemp>)
    requires
        temp_part@.len() >= 2,
        *old(temp_number) as int + temp_part@.len() / 2 <= u32::MAX,
    ensures
        r@.len() == temp_part@.len() - temp_part@.len() / 2,
        *final(temp_number) == *old(temp_number) + temp_part@.len() / 2,
        final(instrs)@.len() == old(instrs)@.len() + temp_part@.len() / 2,
        final(instrs)@.subrange(0, old(instrs)@.len() as int) == old(instrs)@,
        fresh_writes(appended(old(instrs)@, final(instrs)@), *old(temp_number) as nat, target_type),
        temps_avoid(temp_part@, *old(temp_number) as nat) ==> temps_avoid(r@, *final(temp_number) as nat)
            && forall|env: spec_fn(Seq<char>) -> int| cong(
                #[trigger] temps_prod(r@, run(appended(old(instrs)@, final(instrs)@), env)),
                temps_prod(temp_part@, env)),
{
    let ghost s0 = temp_part@;
    let ghost t0 = *temp_number as nat;
    let ghost base = instrs@.len() as int;
    let ghost i0 = instrs@;
    let ghost ok = temps_avoid(s0, t0);
    let mut temp_part = temp_part;
    let mut new_part: Vec<LlvmTemp> = Vec::new();
    proof {
        assert(instrs@.subrange(base, instrs@.len() as int) =~= Seq::<ArithInstr>::empty());
        assert forall|env: spec_fn(Seq<char>) -> int| cong(
            #[trigger] temps_prod(temp_part@, run(instrs@.subrange(base, instrs@.len() as int), env))
                * temps_prod(new_part@, run(instrs@.subrange(base, instrs@.len() as int), env)),
            temps_prod(s0, env)) by {
            assert(new_part@ =~= Seq::<LlvmTemp>::empty());
            lemma_wrap32(temps_prod(s0, env), 0);
        }
    }
    while temp_part.len() >= 2
        invariant
            temp_part@ == s0.subrange(0, temp_part@.len() as int),
            temp_part@.len() <= s0.len(),
            (s0.len() - temp_part@.len()) % 2 == 0,
            new_part@.len() == (s0.len() - temp_part@.len()) / 2,
            *temp_number == t0 + (s0.len() - temp_part@.len()) / 2,
            t0 + s0.len() / 2 <= u32::MAX,
            instrs@.len() == base + (s0.len() - temp_part@.len()) / 2,
            instrs@.subrange(0, base) == i0,
            base == i0.len(),
            fresh_writes(instrs@.subrange(base, instrs@.len() as int), t0, target_type),
            ok == temps_avoid(s0, t0),
            ok ==> temps_avoid(temp_part@, *temp_number as nat) && temps_avoid(new_part@, *temp_number as nat),
            ok ==> forall|env: spec_fn(Seq<char>) -> int| cong(
                #[trigger] temps_prod(temp_part@, run(instrs@.subrange(base, instrs@.len() as int), env))
                    * temps_prod(new_part@, run(instrs@.subrange(base, instrs@.len() as int), env)),
                temps_prod(s0, env)),
        decreases temp_part@.len(),
    {
        let ghost rb = temp_part@;
        let ghost nb = new_part@;
        let ghost eb = instrs@.subrange(base, instrs@.len() as int);
        let ghost tb = *temp_number as nat;
        let name = number_name(*temp_number);
        let new_temp = LlvmTemp { name, is_global: false, var_type: VarType::I32 };
        *temp_number = *temp_number + 1;
        let rhs = temp_part.pop().unwrap();
        let lhs = temp_part.pop().unwrap();
        proof {
            assert(rb[rb.len() - 1] == rhs);
            assert(rb[rb.len() - 2] == lhs);
            assert(temp_part@ =~= rb.subrange(0, rb.len() - 2));
        }
        let ghost gl = lhs;
        let ghost gr = rhs;
        let instr = ArithInstr {
            target: new_temp.dup(),
            op: ArithOp::Mul,
            var_type: target_type,
            lhs: Value::Temp(lhs),
            rhs: Value::Temp(rhs),
        };
        let ghost gi = instr;
        let ghost gn = new_temp;
        instrs.push(instr);
        new_part.push(new_temp);
        proof {
            assert(instrs@.subrange(base, instrs@.len() as int) =~= eb.push(gi));
            assert(instrs@.subrange(0, base) =~= i0);
            assert forall|k: int| 0 <= k < eb.push(gi).len() implies (#[trigger] eb.push(gi)[k]).target.name@ == decimal((t0 + k) as nat)
                && !eb.push(gi)[k].target.is_global && eb.push(gi)[k].target.var_type == VarType::I32
                && eb.push(gi)[k].var_type == target_type by {
                if k < eb.len() {
                    assert(eb.push(gi)[k] == eb[k]);
                }
            }
            assert(temp_part@ =~= s0.subrange(0, temp_part@.len() as int));
            if ok {
                lemma_avoids_next(decimal(tb), tb);
                assert(temps_avoid(temp_part@, *temp_number as nat)) by {
                    assert forall|i: int| 0 <= i < temp_part@.len() implies avoids(#[trigger] temp_part@[i].name@, *temp_number as nat) by {
                        assert(temp_part@[i] == rb[i]);
                        lemma_avoids_next(rb[i].name@, tb);
                    }
                }
                assert(temps_avoid(new_part@, *temp_number as nat)) by {
                    assert forall|i: int| 0 <= i < new_part@.len() implies avoids(#[trigger] new_part@[i].name@, *temp_number as nat) by {
                        if i < nb.len() {
                            assert(new_part@[i] == nb[i]);
                            lemma_avoids_next(nb[i].name@, tb);
                        }
                    }
                }
                assert forall|env: spec_fn(Seq<char>) -> int| cong(
                    #[trigger] temps_prod(temp_part@, run(instrs@.subrange(base, instrs@.len() as int), env))
                        * temps_prod(new_part@, run(instrs@.subrange(base, instrs@.len() as int), env)),
                    temps_prod(s0, env)) by {
                    let e = run(eb, env);
                    let e2 = run(eb.push(gi), env);
                    assert(eb.push(gi).drop_last() =~= eb);
                    assert(e2 == step(e, gi));
                    let rest = temp_part@;
                    assert(cong(temps_prod(rb, e) * temps_prod(nb, e), temps_prod(s0, env)));
                    assert(rb =~= rest.push(gl).push(gr));
                    assert(rest.push(gl).push(gr).drop_last() =~= rest.push(gl));
                    assert(rest.push(gl).drop_last() =~= rest);
                    assert(new_part@.drop_last() =~= nb);
                    assert forall|i: int| 0 <= i < rest.len() implies e((#[trigger] rest[i]).name@) == e2(rest[i].name@) by {
                        assert(rest[i] == rb[i]);
                        assert(avoids(rb[i].name@, tb));
                    }
                    assert forall|i: int| 0 <= i < nb.len() implies e((#[trigger] nb[i]).name@) == e2(nb[i].name@) by {
                        assert(avoids(nb[i].name@, tb));
                    }
                    lemma_temps_prod_frame(rest, e, e2);
                    lemma_temps_prod_frame(nb, e, e2);
                    let a = e(gl.name@);
                    let b = e(gr.name@);
                    let p = temps_prod(rest, e);
                    let q = temps_prod(nb, e);
                    assert(temps_prod(rest.push(gl), e) == p * a) by {
                        assert(rest.push(gl).last() == gl);
                    }
                    assert(temps_prod(rb, e) == temps_prod(rest.push(gl), e) * b) by {
                        assert(rb.drop_last() =~= rest.push(gl));
                        assert(rb.last() == gr);
                    }
                    assert(temps_prod(rb, e) == p * a * b);
                    assert(e2(gn.name@) == wrap32(a * b));
                    assert(temps_prod(new_part@, e2) == q * wrap32(a * b));
                    lemma_wrap32(a * b, 0);
                    lemma_wrap32(p * q, 0);
                    lemma_cong_mul(p * q, p * q, wrap32(a * b), a * b);
                    assert(p * (q * wrap32(a * b)) == (p * q) * wrap32(a * b)) by (nonlinear_arith);
                    assert(p * a * b * q == (p * q) * (a * b)) by (nonlinear_arith);
                    lemma_cong_trans(p * (q * wrap32(a * b)), p * a * b * q, temps_prod(s0, env));
                }
            }
        }
    }
    let ghost rl = temp_part@;
    let ghost nl = new_part@;
    if temp_part.len() == 1 {
        let last = temp_part.pop().unwrap();
        new_part.push(last);
    }
    let ghost before_rev = new_part@;
    let mut reversed: Vec<LlvmTemp> = Vec::new();
    while new_part.len() > 0
        invariant
            reversed@ + new_part@.reverse() == before_rev.reverse(),
        decreases new_part.len(),
    {
        let ghost nb = new_part@;
        let x = new_part.pop().unwrap();
        reversed.push(x);
        proof {
            assert(nb.reverse() =~= seq![nb.last()] + new_part@.reverse());
            assert(reversed@ + new_part@.reverse() =~= (reversed@.drop_last() + nb.reverse()));
        }
    }
    proof {
        assert(reversed@ =~= before_rev.reverse());
        assert(appended(i0, instrs@) =~= instrs@.subrange(base, instrs@.len() as int));
        if ok {
            assert(temps_avoid(reversed@, *temp_number as nat)) by {
                assert forall|i: int| 0 <= i < reversed@.len() implies avoids(#[trigger] reversed@[i].name@, *temp_number as nat) by {
                    assert(reversed@[i] == before_rev[before_rev.len() - 1 - i]);
                    if before_rev.len() - 1 - i < nl.len() {
                        assert(before_rev[before_rev.len() - 1 - i] == nl[before_rev.len() - 1 - i]);
                    } else {
                        assert(before_rev[before_rev.len() - 1 - i] == rl[0]);
                    }
                }
            }
            assert forall|env: spec_fn(Seq<char>) -> int| cong(
                #[trigger] temps_prod(reversed@, run(appended(i0, instrs@), env)),
                temps_prod(s0, env)) by {
                let e = run(instrs@.subrange(base, instrs@.len() as int), env);
                lemma_temps_prod_reverse(before_rev, e);
                assert(cong(temps_prod(rl, e) * temps_prod(nl, e), temps_prod(s0, env)));
                if rl.len() == 1 {
                    assert(before_rev =~= nl.push(rl[0]));
                    assert(before_rev.drop_last() =~= nl);
                    assert(rl.drop_last() =~= Seq::<LlvmTemp>::empty());
                    assert(rl.last() == rl[0]);
                    assert(temps_prod(rl.drop_last(), e) == 1);
                    assert(temps_prod(rl, e) == 1 * e(rl[0].name@));
                    let p = temps_prod(nl, e);
                    let x = e(rl[0].name@);
                    assert(x * p == p * x) by (nonlinear_arith);
                } else {
                    assert(rl =~= Seq::<LlvmTemp>::empty());
                    assert(before_rev =~= nl);
                    assert(temps_prod(rl, e) == 1);
                }
            }
        }
    }
    reversed
}

/// Emits instructions computing the product `info` into `target`:
/// literals are folded (wrapping), a zero literal part gives `0 + 0`, and
/// the temporaries are multiplied as a balanced tree through fresh
/// temporaries named by the numbers from `next_temp` on. Returns the next
/// unused number. Whatever the values of the temporaries, provided `info`
/// names none of the fresh ones, the instructions leave in `target` the
/// `i32` of the product.
pub fn add_multiplitive_tree(
    next_temp: u32,
    instrs_list: &mut Vec<ArithInstr>,
    target: LlvmTemp,
    info: &Vec<(ArithOp, Value)>,
    target_type: VarType,
) -> (r: u32)
    requires
        factors_ok(info@),
        next_temp as int + info@.len() <= u32::MAX,
    ensures
        next_temp <= r,
        r as int <= next_temp as int + info@.len(),
        final(instrs_list)@.len() == old(instrs_list)@.len() + (r - next_temp) + 1,
        final(instrs_list)@.subrange(0, old(instrs_list)@.len() as int) == old(instrs_list)@,
        fresh_writes(appended(old(instrs_list)@, final(instrs_list)@).drop_last(), next_temp as nat, target_type),
        appended(old(instrs_list)@, final(instrs_list)@).last().target == target,
        appended(old(instrs_list)@, final(instrs_list)@).last().var_type == target_type,
        modeled_op(appended(old(instrs_list)@, final(instrs_list)@).last().op),
        terms_avoid(info@, next_temp as nat) ==> forall|env: spec_fn(Seq<char>) -> int|
            #[trigger] run(appended(old(instrs_list)@, final(instrs_list)@), env)(target.name@)
                == wrap32(product(info@, env)),
{
    let ghost base = instrs_list@.len() as int;
    let ghost i0 = instrs_list@;
    let ghost ok = terms_avoid(info@, next_temp as nat);
    let (const_part, temp_part) = split_factors(info);
    let temp_number: u32 = next_temp;
    if const_part == 0 {
        let instr = ArithInstr { target, op: ArithOp::Add, var_type: target_type, lhs: Value::Int(0), rhs: Value::Int(0) };
        let ghost gi = instr;
        instrs_list.push(instr);
        proof {
            assert(appended(i0, instrs_list@) =~= seq![gi]);
            assert(instrs_list@.subrange(0, base) =~= i0);
            assert(seq![gi].drop_last() =~= Seq::<ArithInstr>::empty());
            assert forall|k: int| 0 <= k < seq![gi].drop_last().len() implies (#[trigger] seq![gi].drop_last()[k]).target.name@ == decimal((next_temp + k) as nat)
                && !seq![gi].drop_last()[k].target.is_global && seq![gi].drop_last()[k].target.var_type == VarType::I32
                && seq![gi].drop_last()[k].var_type == target_type by {
            }
            if ok {
                assert forall|env: spec_fn(Seq<char>) -> int|
                    #[trigger] run(appended(i0, instrs_list@), env)(gi.target.name@) == wrap32(product(info@, env)) by {
                    assert(run(seq![gi], env) == step(run(Seq::<ArithInstr>::empty(), env), gi));
                    let t = temps_prod(temp_part@, env);
                    assert(cong(0 * t, product(info@, env)));
                    assert(0 * t == 0) by (nonlinear_arith);
                    lemma_wrap32(0, product(info@, env));
                    assert(0int + 0int == 0);
                }
            }
        }
        return temp_number;
    }
    let mut temp_part = sort_by_name(temp_part);
    let mut temp_number: u32 = next_temp;
    proof {
        assert(instrs_list@.subrange(base, instrs_list@.len() as int) =~= Seq::<ArithInstr>::empty());
        assert(instrs_list@.subrange(0, base) =~= i0);
        if ok {
            assert forall|env: spec_fn(Seq<char>) -> int| cong(
                const_part * #[trigger] temps_prod(temp_part@, run(instrs_list@.subrange(base, instrs_list@.len() as int), env)),
                product(info@, env)) by {
                assert(run(Seq::<ArithInstr>::empty(), env) == env);
            }
        }
    }
    loop
        invariant
            temp_number as int + temp_part@.len() <= next_temp as int + info@.len(),
            next_temp as int + info@.len() <= u32::MAX,
            next_temp <= temp_number,
            base == i0.len(),
            i0 == old(instrs_list)@,
            instrs_list@.len() == base + (temp_number - next_temp),
            instrs_list@.subrange(0, base) == i0,
            fresh_writes(instrs_list@.subrange(base, instrs_list@.len() as int), next_temp as nat, target_type),
            ok == terms_avoid(info@, next_temp as nat),
            ok ==> temps_avoid(temp_part@, temp_number as nat),
            ok ==> forall|env: spec_fn(Seq<char>) -> int| cong(
                const_part * #[trigger] temps_prod(temp_part@, run(instrs_list@.subrange(base, instrs_list@.len() as int), env)),
                product(info@, env)),
        decreases temp_part@.len(),
    {
        let ghost eb = instrs_list@.subrange(base, instrs_list@.len() as int);
        let ghost tp = temp_part@;
        let n = temp_part.len();
        if n == 0 || n == 1 || (n == 2 && const_part == 1) {
            let instr = if n == 0 {
                ArithInstr { target, op: ArithOp::Mul, var_type: target_type, lhs: Value::Int(1), rhs: Value::Int(const_part) }
            } else if n == 1 {
                ArithInstr { target, op: ArithOp::Mul, var_type: target_type, lhs: Value::Temp(temp_part[0].dup()), rhs: Value::Int(const_part) }
            } else {
                ArithInstr {
                    target,
                    op: ArithOp::Mul,
                    var_type: target_type,
                    lhs: Value::Temp(temp_part[0].dup()),
                    rhs: Value::Temp(temp_part[1].dup()),
                }
            };
            let ghost gi = instr;
            let ghost lb = instrs_list@;
            instrs_list.push(instr);
            proof {
                lemma_final_write(i0, eb, gi, lb, base);
                assert(instrs_list@ == lb.push(gi));
                if ok {
                    assert forall|env: spec_fn(Seq<char>) -> int|
                        #[trigger] run(appended(i0, instrs_list@), env)(gi.target.name@) == wrap32(product(info@, env)) by {
                        let e = run(eb, env);
                        assert(appended(i0, instrs_list@).drop_last() =~= eb);
                        assert(run(appended(i0, instrs_list@), env) == step(e, gi));
                        let t = temps_prod(tp, e);
                        let c = const_part as int;
                        assert(cong(c * t, product(info@, env)));
                        if n == 0 {
                            assert(tp =~= Seq::<LlvmTemp>::empty());
                            assert(t == 1);
                            assert(c * t == 1 * c) by (nonlinear_arith)
                                requires
                                    t == 1,
                            ;
                            lemma_wrap32(1 * c, product(info@, env));
                            assert(gi.lhs == Value::Int(1) && gi.rhs == Value::Int(const_part) && gi.op == ArithOp::Mul);
                            assert(step(e, gi)(gi.target.name@) == wrap32(1 * c));
                            assert(step(e, gi)(gi.target.name@) == wrap32(product(info@, env)));
                        } else if n == 1 {
                            assert(tp.drop_last() =~= Seq::<LlvmTemp>::empty());
                            assert(temps_prod(tp.drop_last(), e) == 1);
                            assert(tp.last() == tp[0]);
                            let x = e(tp[0].name@);
                            assert(t == 1 * x);
                            assert(x * c == c * x) by (nonlinear_arith);
                            lemma_wrap32(x * c, product(info@, env));
                            assert(gi.lhs == Value::Temp(tp[0]) && gi.rhs == Value::Int(const_part) && gi.op == ArithOp::Mul);
                            assert(step(e, gi)(gi.target.name@) == wrap32(x * c));
                            assert(step(e, gi)(gi.target.name@) == wrap32(product(info@, env)));
                        } else {
                            let one = tp.drop_last();
                            assert(one.drop_last() =~= Seq::<LlvmTemp>::empty());
                            assert(temps_prod(one.drop_last(), e) == 1);
                            assert(one.last() == tp[0]);
                            assert(tp.last() == tp[1]);
                            let x = e(tp[0].name@);
                            let y = e(tp[1].name@);
                            assert(temps_prod(one, e) == 1 * x);
                            assert(t == temps_prod(one, e) * y);
                            assert(c == 1);
                            assert(c * t == x * y) by (nonlinear_arith)
                                requires
                                    c == 1,
                                    t == (1 * x) * y,
                            ;
                            lemma_wrap32(x * y, product(info@, env));
                            assert(gi.lhs == Value::Temp(tp[0]) && gi.rhs == Value::Temp(tp[1]) && gi.op == ArithOp::Mul);
                            assert(step(e, gi)(gi.target.name@) == wrap32(x * y));
                            assert(step(e, gi)(gi.target.name@) == wrap32(product(info@, env)));
                        }
                    }
                }
            }
            return temp_number;
        }
        let ghost lb = instrs_list@;
        temp_part = mul_pair_round(temp_part, &mut temp_number, instrs_list, target_type);
        proof {
            let round = appended(lb, instrs_list@);
            assert(instrs_list@.subrange(base, instrs_list@.len() as int) =~= eb + round);
            assert(instrs_list@.subrange(0, base) =~= i0) by {
                assert(instrs_list@.subrange(0, lb.len() as int) == lb);
                assert(lb.subrange(0, base) == i0);
            }
            assert forall|k: int| 0 <= k < (eb + round).len() implies (#[trigger] (eb + round)[k]).target.name@ == decimal((next_temp + k) as nat)
                && !(eb + round)[k].target.is_global && (eb + round)[k].target.var_type == VarType::I32
                && (eb + round)[k].var_type == target_type by {
                if k < eb.len() {
                    assert((eb + round)[k] == eb[k]);
                } else {
                    assert((eb + round)[k] == round[k - eb.len()]);
                }
            }
            if ok {
                assert forall|env: spec_fn(Seq<char>) -> int| cong(
                    const_part * #[trigger] temps_prod(temp_part@, run(instrs_list@.subrange(base, instrs_list@.len() as int), env)),
                    product(info@, env)) by {
                    lemma_run_append(eb, round, env);
                    let e = run(eb, env);
                    let c = const_part as int;
                    assert(cong(temps_prod(temp_part@, run(round, e)), temps_prod(tp, e)));
                    assert(cong(c * temps_prod(tp, e), product(info@, env)));
                    lemma_wrap32(c, 0);
                    lemma_cong_mul(c, c, temps_prod(temp_part@, run(round, e)), temps_prod(tp, e));
                    lemma_cong_trans(c * temps_prod(temp_part@, run(round, e)), c * temps_prod(tp, e), product(info@, env));
                }
            }
        }
    }
}

/// Emits instructions computing the `i32` calculation `info` into `target`:
/// a sum (`add_addicative_tree`) or a product (`add_multiplitive_tree`).
pub fn add_expression_tree(
    next_temp: u32,
    instrs_list: &mut Vec<ArithInstr>,
    target: LlvmTemp,
    target_type: VarType,
    arith_type: ArithType,
    info: &Vec<(ArithOp, Value)>,
) -> (r: u32)
    requires
        target_type == VarType::I32,
        arith_type == ArithType::Addicative ==> terms_ok(info@),
        arith_type == ArithType::Multiplitive ==> factors_ok(info@),
        next_temp as int + info@.len() <= u32::MAX,
    ensures
        next_temp <= r,
        r as int <= next_temp as int + info@.len(),
        final(instrs_list)@.len() == old(instrs_list)@.len() + (r - next_temp) + 1,
        final(instrs_list)@.subrange(0, old(instrs_list)@.len() as int) == old(instrs_list)@,
        fresh_writes(appended(old(instrs_list)@, final(instrs_list)@).drop_last(), next_temp as nat, target_type),
        appended(old(instrs_list)@, final(instrs_list)@).last().target == target,
        appended(old(instrs_list)@, final(instrs_list)@).last().var_type == target_type,
        modeled_op(appended(old(instrs_list)@, final(instrs_list)@).last().op),
        terms_avoid(info@, next_temp as nat) ==> forall|env: spec_fn(Seq<char>) -> int|
            #[trigger] run(appended(old(instrs_list)@, final(instrs_list)@), env)(target.name@)
                == wrap32(if arith_type == ArithType::Addicative { signed_sum(info@, env) } else { product(info@, env) }),
{
    match arith_type {
        ArithType::Addicative => add_addicative_tree(next_temp, instrs_list, target, info, target_type),
        ArithType::Multiplitive => add_multiplitive_tree(next_temp, instrs_list, target, info, target_type),
    }
}

} // verus!
