use vstd::prelude::*;
use crate::arith::{
    extract_const_ok, group_by_factor, group_size, groups_metric, groups_size, items_avoid, items_buildable,
    items_nonempty, lemma_groups_sums_insert, literal_product, non_literals, FactorGroup, group_value, groups_total,
};
use crate::compute_graph::{
    fold_values, graph_eq, graph_order, lemma_fold_empty, lemma_fold_insert, lemma_fold_push,
    lemma_fold_remove, term_of, val_of, Order3, graph_order_spec, lemma_graph_order_flip, metric_of, metrics_of, combine, lemma_child_decreases, lemma_combine_assoc, unit, GraphOp, GraphValue, LlvmTemp, Single,
    Value, VarType,
};
use crate::calc_coef::dup_value;
use crate::ir_ops::ArithOp;
use crate::rearrange::{
    avoids, cong, decimal, fresh_writes, lemma_avoids_next, lemma_insert_multiset, lemma_cong_add, lemma_cong_mul, lemma_cong_trans,
    lemma_run_append, lemma_wrap32, number_name, operand, run, step, ArithInstr,
};

verus! {

/// What building code for `g` needs: the operands of every sum have literal
/// factors that multiply out within `i32`.
pub open spec fn buildable(g: GraphValue) -> bool
    decreases g,
{
    match g {
        GraphValue::Single(_) => true,
        GraphValue::NonTrival((op, v)) => (op == GraphOp::Plus ==> forall|i: int| 0 <= i < v@.len() ==> extract_const_ok(#[trigger] v@[i]))
            && all_buildable(v@),
    }
}

pub open spec fn all_buildable(s: Seq<GraphValue>) -> bool
    decreases s,
{
    if s.len() == 0 {
        true
    } else {
        all_buildable(s.drop_last()) && buildable(s.last())
    }
}

/// Every product in `g` has at least one factor.
pub open spec fn products_nonempty(g: GraphValue) -> bool
    decreases g,
{
    match g {
        GraphValue::Single(_) => true,
        GraphValue::NonTrival((op, v)) => (op == GraphOp::Mul ==> v@.len() > 0) && all_products_nonempty(v@),
    }
}

pub open spec fn all_products_nonempty(s: Seq<GraphValue>) -> bool
    decreases s,
{
    if s.len() == 0 {
        true
    } else {
        all_products_nonempty(s.drop_last()) && products_nonempty(s.last())
    }
}

/// No temporary of `g` bears the name of a temporary numbered `k` or more.
pub open spec fn graph_avoids(g: GraphValue, k: nat) -> bool
    decreases g,
{
    match g {
        GraphValue::Single(Single::Temp(t)) => avoids(t.name@, k),
        GraphValue::Single(Single::Int(_)) => true,
        GraphValue::NonTrival((_, v)) => all_graphs_avoid(v@, k),
    }
}

pub open spec fn all_graphs_avoid(s: Seq<GraphValue>, k: nat) -> bool
    decreases s,
{
    if s.len() == 0 {
        true
    } else {
        all_graphs_avoid(s.drop_last(), k) && graph_avoids(s.last(), k)
    }
}

pub proof fn lemma_all_buildable(s: Seq<GraphValue>)
    ensures
        all_buildable(s) == (forall|i: int| 0 <= i < s.len() ==> buildable(#[trigger] s[i])),
    decreases s.len(),
{
    if s.len() > 0 {
        lemma_all_buildable(s.drop_last());
        assert(s.last() == s[s.len() - 1]);
        assert(forall|i: int| 0 <= i < s.len() - 1 ==> s.drop_last()[i] == s[i]);
    }
}

pub proof fn lemma_all_products_nonempty(s: Seq<GraphValue>)
    ensures
        all_products_nonempty(s) == (forall|i: int| 0 <= i < s.len() ==> products_nonempty(#[trigger] s[i])),
    decreases s.len(),
{
    if s.len() > 0 {
        lemma_all_products_nonempty(s.drop_last());
        assert(s.last() == s[s.len() - 1]);
        assert(forall|i: int| 0 <= i < s.len() - 1 ==> s.drop_last()[i] == s[i]);
    }
}

pub proof fn lemma_all_graphs_avoid(s: Seq<GraphValue>, k: nat)
    ensures
        all_graphs_avoid(s, k) == (forall|i: int| 0 <= i < s.len() ==> graph_avoids(#[trigger] s[i], k)),
    decreases s.len(),
{
    if s.len() > 0 {
        lemma_all_graphs_avoid(s.drop_last(), k);
        assert(s.last() == s[s.len() - 1]);
        assert(forall|i: int| 0 <= i < s.len() - 1 ==> s.drop_last()[i] == s[i]);
    }
}

/// `b`, made from `a`, is no larger and keeps what building code needs.
pub open spec fn shrinks_to(a: GraphValue, b: GraphValue) -> bool {
    &&& metric_of(b) <= metric_of(a)
    &&& buildable(a) ==> buildable(b)
    &&& products_nonempty(a) ==> products_nonempty(b)
    &&& forall|k: nat| #[trigger] graph_avoids(a, k) ==> graph_avoids(b, k)
}

pub proof fn lemma_metric_pos(g: GraphValue)
    ensures
        metric_of(g) >= 1,
{
}

pub proof fn lemma_metrics_push(s: Seq<GraphValue>, x: GraphValue)
    ensures
        metrics_of(s.push(x)) == metrics_of(s) + metric_of(x),
{
    assert(s.push(x).drop_last() =~= s);
}

pub proof fn lemma_metrics_insert(s: Seq<GraphValue>, k: int, x: GraphValue)
    requires
        0 <= k <= s.len(),
    ensures
        metrics_of(s.insert(k, x)) == metrics_of(s) + metric_of(x),
    decreases s.len(),
{
    if k < s.len() {
        assert(s.insert(k, x).drop_last() =~= s.drop_last().insert(k, x));
        assert(s.insert(k, x).last() == s.last());
        lemma_metrics_insert(s.drop_last(), k, x);
    } else {
        assert(s.insert(k, x) =~= s.push(x));
        lemma_metrics_push(s, x);
    }
}

/// An element weighs no more than the list.
pub proof fn lemma_metric_le(s: Seq<GraphValue>, i: int)
    requires
        0 <= i < s.len(),
    ensures
        metric_of(s[i]) <= metrics_of(s),
        metrics_of(s) >= s.len(),
    decreases s.len(),
{
    lemma_metrics_len(s);
    if i < s.len() - 1 {
        assert(s.drop_last()[i] == s[i]);
        lemma_metric_le(s.drop_last(), i);
    }
}

pub proof fn lemma_metrics_len(s: Seq<GraphValue>)
    ensures
        metrics_of(s) >= s.len(),
    decreases s.len(),
{
    if s.len() > 0 {
        lemma_metrics_len(s.drop_last());
        lemma_metric_pos(s.last());
    }
}

/// The operands of a product that are not literals are drawn, in order,
/// from the product and weigh no more than it.
pub proof fn lemma_non_literals_sub(s: Seq<GraphValue>, k: int)
    requires
        0 <= k <= s.len(),
    ensures
        forall|i: int| 0 <= i < non_literals(s, k).len() ==> exists|j: int| 0 <= j < k && #[trigger] non_literals(s, k)[i] == s[j],
        metrics_of(non_literals(s, k)) <= metrics_of(s.subrange(0, k)),
    decreases k,
{
    if k > 0 {
        lemma_non_literals_sub(s, k - 1);
        assert(s.subrange(0, k).drop_last() =~= s.subrange(0, k - 1));
        assert(s.subrange(0, k).last() == s[k - 1]);
        let p = non_literals(s, k - 1);
        match s[k - 1] {
            GraphValue::Single(Single::Int(_)) => {},
            _ => {
                lemma_metrics_push(p, s[k - 1]);
                assert forall|i: int| 0 <= i < non_literals(s, k).len() implies exists|j: int| 0 <= j < k && #[trigger] non_literals(s, k)[i] == s[j] by {
                    if i < p.len() {
                        assert(non_literals(s, k)[i] == p[i]);
                        let j0 = choose|j: int| 0 <= j < k - 1 && #[trigger] p[i] == s[j];
                        assert(non_literals(s, k)[i] == s[j0]);
                    } else {
                        assert(non_literals(s, k)[i] == s[k - 1]);
                    }
                }
            },
        }
    } else {
        assert(s.subrange(0, 0) =~= Seq::<GraphValue>::empty());
    }
}

/// What `extract_const` leaves of an operand shrinks it.
pub proof fn lemma_rest_shrinks(value: GraphValue, rest: GraphValue)
    requires
        !(value matches GraphValue::NonTrival((GraphOp::Mul, _))) ==> rest == value,
        value matches GraphValue::NonTrival((GraphOp::Mul, v)) ==> ({
            let p = literal_product(v@, v@.len() as int);
            let left = non_literals(v@, v@.len() as int);
            if left.len() == 0 || p == 0 {
                rest is Single && rest->Single_0 is Int
            } else {
                rest matches GraphValue::NonTrival((GraphOp::Mul, w)) && w@ == left
            }
        }),
    ensures
        shrinks_to(value, rest),
{
    lemma_metric_pos(value);
    if let GraphValue::NonTrival((GraphOp::Mul, v)) = value {
        let left = non_literals(v@, v@.len() as int);
        let p = literal_product(v@, v@.len() as int);
        if !(left.len() == 0 || p == 0) {
            let w = rest->NonTrival_0.1;
            lemma_non_literals_sub(v@, v@.len() as int);
            assert(v@.subrange(0, v@.len() as int) =~= v@);
            lemma_all_buildable(v@);
            lemma_all_buildable(w@);
            lemma_all_products_nonempty(v@);
            lemma_all_products_nonempty(w@);
            assert forall|i: int| 0 <= i < w@.len() implies exists|j: int| 0 <= j < v@.len() && #[trigger] w@[i] == v@[j] by {
                assert(w@[i] == left[i]);
            }
            assert forall|k: nat| #[trigger] graph_avoids(value, k) implies graph_avoids(rest, k) by {
                lemma_all_graphs_avoid(v@, k);
                lemma_all_graphs_avoid(w@, k);
                assert forall|i: int| 0 <= i < w@.len() implies graph_avoids(#[trigger] w@[i], k) by {
                    let j = choose|j: int| 0 <= j < v@.len() && #[trigger] w@[i] == v@[j];
                }
            }
            if buildable(value) {
                assert forall|i: int| 0 <= i < w@.len() implies buildable(#[trigger] w@[i]) by {
                    let j = choose|j: int| 0 <= j < v@.len() && #[trigger] w@[i] == v@[j];
                }
            }
            if products_nonempty(value) {
                assert forall|i: int| 0 <= i < w@.len() implies products_nonempty(#[trigger] w@[i]) by {
                    let j = choose|j: int| 0 <= j < v@.len() && #[trigger] w@[i] == v@[j];
                }
            }
        }
    }
}

/// An integer literal, or a temporary that does not bear the name of a
/// temporary numbered `k` or more.
pub open spec fn operand_avoids(v: Value, k: nat) -> bool {
    match v {
        Value::Int(_) => true,
        Value::Temp(t) => avoids(t.name@, k),
        Value::Float(_) => false,
    }
}

pub open spec fn operands_avoid(s: Seq<Value>, k: nat) -> bool {
    forall|i: int| 0 <= i < s.len() ==> #[trigger] operand_avoids(s[i], k)
}

pub open spec fn no_float(s: Seq<Value>) -> bool {
    forall|i: int| 0 <= i < s.len() ==> !(#[trigger] s[i] is Float)
}

/// The sum (`Plus`) or product (`Mul`) of the operands of `s`.
pub open spec fn operands_fold(op: GraphOp, s: Seq<Value>, env: spec_fn(Seq<char>) -> int) -> int
    decreases s.len(),
{
    if s.len() == 0 {
        unit(op)
    } else {
        combine(op, operands_fold(op, s.drop_last(), env), operand(s.last(), env))
    }
}

/// `e2` gives every name that avoids the numbers from `k` the value `e1` gives it.
pub open spec fn agree_below(e1: spec_fn(Seq<char>) -> int, e2: spec_fn(Seq<char>) -> int, k: nat) -> bool {
    forall|n: Seq<char>| #[trigger] avoids(n, k) ==> e2(n) == e1(n)
}

/// The instructions appended to `before` to give `after`.
pub open spec fn added(before: Seq<ArithInstr>, after: Seq<ArithInstr>) -> Seq<ArithInstr> {
    after.subrange(before.len() as int, after.len() as int)
}

/// `after` is `before` followed by one `i32` instruction for each of the
/// temporaries numbered from `t0` up to `t1`, writing them in order.
pub open spec fn emitted(before: Seq<ArithInstr>, after: Seq<ArithInstr>, t0: nat, t1: nat) -> bool {
    &&& t0 <= t1
    &&& after.len() == before.len() + (t1 - t0)
    &&& after.subrange(0, before.len() as int) == before
    &&& fresh_writes(added(before, after), t0, VarType::I32)
}

pub proof fn lemma_avoids_mono(n: Seq<char>, k: nat, k2: nat)
    requires
        avoids(n, k),
        k <= k2,
    ensures
        avoids(n, k2),
{
}

/// The temporary numbered `k` does not bear the name of one numbered `k2 > k`
/// or more.
pub proof fn lemma_fresh_avoids(k: nat, k2: nat)
    requires
        k < k2,
    ensures
        avoids(decimal(k), k2),
{
    lemma_avoids_next(decimal(k), k);
    lemma_avoids_mono(decimal(k), k + 1, k2);
}

/// Running instructions that write temporaries numbered from `k` leaves
/// every name that avoids those numbers alone.
pub proof fn lemma_fresh_agree(s: Seq<ArithInstr>, k: nat, env: spec_fn(Seq<char>) -> int)
    requires
        fresh_writes(s, k, VarType::I32),
    ensures
        agree_below(env, run(s, env), k),
    decreases s.len(),
{
    if s.len() > 0 {
        let s0 = s.drop_last();
        assert(fresh_writes(s0, k, VarType::I32)) by {
            assert forall|j: int| 0 <= j < s0.len() implies (#[trigger] s0[j]).target.name@ == decimal((k + j) as nat)
                && !s0[j].target.is_global && s0[j].target.var_type == VarType::I32 && s0[j].var_type == VarType::I32 by {
                assert(s0[j] == s[j]);
            }
        }
        lemma_fresh_agree(s0, k, env);
        assert(s.last() == s[s.len() - 1]);
        assert forall|n: Seq<char>| #[trigger] avoids(n, k) implies run(s, env)(n) == env(n) by {
            assert(n != decimal((k + s.len() - 1) as nat));
        }
    }
}

pub proof fn lemma_agree_trans(e1: spec_fn(Seq<char>) -> int, e2: spec_fn(Seq<char>) -> int, e3: spec_fn(Seq<char>) -> int, k: nat, k2: nat)
    requires
        agree_below(e1, e2, k),
        agree_below(e2, e3, k2),
        k <= k2,
    ensures
        agree_below(e1, e3, k),
{
    assert forall|n: Seq<char>| #[trigger] avoids(n, k) implies e3(n) == e1(n) by {
        lemma_avoids_mono(n, k, k2);
    }
}

pub proof fn lemma_operands_frame(op: GraphOp, s: Seq<Value>, k: nat, e1: spec_fn(Seq<char>) -> int, e2: spec_fn(Seq<char>) -> int)
    requires
        operands_avoid(s, k),
        agree_below(e1, e2, k),
    ensures
        operands_fold(op, s, e2) == operands_fold(op, s, e1),
        forall|i: int| 0 <= i < s.len() ==> operand(#[trigger] s[i], e2) == operand(s[i], e1),
    decreases s.len(),
{
    assert forall|i: int| 0 <= i < s.len() implies operand(#[trigger] s[i], e2) == operand(s[i], e1) by {
        assert(operand_avoids(s[i], k));
        if s[i] is Temp {
            assert(avoids(s[i]->Temp_0.name@, k));
        }
    }
    if s.len() > 0 {
        let s0 = s.drop_last();
        assert(operands_avoid(s0, k)) by {
            assert forall|i: int| 0 <= i < s0.len() implies #[trigger] operand_avoids(s0[i], k) by {
                assert(s0[i] == s[i]);
            }
        }
        lemma_operands_frame(op, s0, k, e1, e2);
        assert(s.last() == s[s.len() - 1]);
    }
}

/// Values of graphs whose temporaries avoid the numbers from `k` do not
/// change where only such numbered temporaries change.
pub proof fn lemma_val_frame(g: GraphValue, k: nat, e1: spec_fn(Seq<char>) -> int, e2: spec_fn(Seq<char>) -> int)
    requires
        graph_avoids(g, k),
        agree_below(e1, e2, k),
    ensures
        crate::compute_graph::val_of(g, e2) == crate::compute_graph::val_of(g, e1),
    decreases g,
{
    match g {
        GraphValue::Single(Single::Temp(t)) => {},
        GraphValue::Single(Single::Int(_)) => {},
        GraphValue::NonTrival((op, v)) => {
            lemma_all_graphs_avoid(v@, k);
            assert forall|j: int| 0 <= j < v@.len() implies crate::compute_graph::val_of(#[trigger] v@[j], e2)
                == crate::compute_graph::val_of(v@[j], e1) by {
                lemma_child_decreases(g, j);
                lemma_val_frame(v@[j], k, e1, e2);
            }
            crate::simplify::lemma_fold_pointwise_envs(op, v@, v@, e2, e1);
        },
    }
}

pub proof fn lemma_cong_combine(op: GraphOp, a: int, b: int, c: int, d: int)
    requires
        cong(a, b),
        cong(c, d),
    ensures
        cong(combine(op, a, c), combine(op, b, d)),
{
    match op {
        GraphOp::Plus => lemma_cong_add(a, b, c, d),
        GraphOp::Mul => lemma_cong_mul(a, b, c, d),
    }
}

pub proof fn lemma_operands_fold_push(op: GraphOp, s: Seq<Value>, x: Value, env: spec_fn(Seq<char>) -> int)
    ensures
        operands_fold(op, s.push(x), env) == combine(op, operands_fold(op, s, env), operand(x, env)),
{
    assert(s.push(x).drop_last() =~= s);
}

pub proof fn lemma_operands_fold_single(op: GraphOp, x: Value, env: spec_fn(Seq<char>) -> int)
    ensures
        operands_fold(op, seq![x], env) == operand(x, env),
{
    assert(seq![x].drop_last() =~= Seq::<Value>::empty());
    assert(seq![x].last() == x);
    assert(operands_fold(op, Seq::<Value>::empty(), env) == unit(op));
    lemma_combine_assoc(op, operand(x, env), 0, 0);
}

pub proof fn lemma_operands_fold_prepend(op: GraphOp, x: Value, s: Seq<Value>, env: spec_fn(Seq<char>) -> int)
    ensures
        operands_fold(op, seq![x] + s, env) == combine(op, operand(x, env), operands_fold(op, s, env)),
    decreases s.len(),
{
    if s.len() > 0 {
        assert((seq![x] + s).drop_last() =~= seq![x] + s.drop_last());
        assert((seq![x] + s).last() == s.last());
        lemma_operands_fold_prepend(op, x, s.drop_last(), env);
        lemma_combine_assoc(op, operand(x, env), operands_fold(op, s.drop_last(), env), operand(s.last(), env));
    } else {
        assert(seq![x] + s =~= seq![x]);
        assert(seq![x].drop_last() =~= Seq::<Value>::empty());
        assert(seq![x].last() == x);
        assert(operands_fold(op, Seq::<Value>::empty(), env) == unit(op));
        assert(operands_fold(op, s, env) == unit(op));
        lemma_combine_assoc(op, operand(x, env), 0, 0);
    }
}

/// Emitting in two stretches is emitting once.
pub proof fn lemma_emitted_trans(a: Seq<ArithInstr>, b: Seq<ArithInstr>, c: Seq<ArithInstr>, t0: nat, t1: nat, t2: nat)
    requires
        emitted(a, b, t0, t1),
        emitted(b, c, t1, t2),
    ensures
        emitted(a, c, t0, t2),
        added(a, c) == added(a, b) + added(b, c),
        forall|env: spec_fn(Seq<char>) -> int| #[trigger] run(added(a, c), env) == run(added(b, c), run(added(a, b), env)),
{
    assert(c.subrange(0, b.len() as int) == b);
    assert(added(a, c) =~= added(a, b) + added(b, c));
    assert(c.subrange(0, a.len() as int) =~= a) by {
        assert forall|j: int| 0 <= j < a.len() implies c.subrange(0, a.len() as int)[j] == a[j] by {
            assert(c[j] == b[j]);
            assert(b[j] == a[j]);
        }
    }
    let ab = added(a, b);
    let bc = added(b, c);
    assert forall|j: int| 0 <= j < added(a, c).len() implies (#[trigger] added(a, c)[j]).target.name@ == decimal((t0 + j) as nat)
        && !added(a, c)[j].target.is_global && added(a, c)[j].target.var_type == VarType::I32
        && added(a, c)[j].var_type == VarType::I32 by {
        if j < ab.len() {
            assert(added(a, c)[j] == ab[j]);
        } else {
            assert(added(a, c)[j] == bc[j - ab.len()]);
        }
    }
    assert forall|env: spec_fn(Seq<char>) -> int| #[trigger] run(added(a, c), env) == run(bc, run(ab, env)) by {
        lemma_run_append(ab, bc, env);
    }
}

/// Nothing emitted.
pub proof fn lemma_emitted_none(a: Seq<ArithInstr>, t: nat)
    ensures
        emitted(a, a, t, t),
        added(a, a) == Seq::<ArithInstr>::empty(),
        forall|env: spec_fn(Seq<char>) -> int| #[trigger] run(added(a, a), env) == env,
{
    assert(a.subrange(0, a.len() as int) =~= a);
    assert(added(a, a) =~= Seq::<ArithInstr>::empty());
}

/// A fresh `i32` temporary, numbered `*temp_number`.
fn fresh_temp(temp_number: &mut u32) -> (r: LlvmTemp)
    requires
        *old(temp_number) < u32::MAX,
    ensures
        *final(temp_number) == *old(temp_number) + 1,
        r.name@ == decimal(*old(temp_number) as nat),
        !r.is_global,
        r.var_type == VarType::I32,
{
    let name = number_name(*temp_number);
    *temp_number = *temp_number + 1;
    LlvmTemp { name, is_global: false, var_type: VarType::I32 }
}

/// Appends `target = lhs op rhs` for a fresh `target`, numbered
/// `*temp_number`, and gives that temporary as an operand.
fn emit_op(op: ArithOp, lhs: Value, rhs: Value, temp_number: &mut u32, output: &mut Vec<ArithInstr>) -> (r: Value)
    requires
        *old(temp_number) < u32::MAX,
        crate::rearrange::modeled_op(op),
    ensures
        emitted(old(output)@, final(output)@, *old(temp_number) as nat, *final(temp_number) as nat),
        *final(temp_number) == *old(temp_number) + 1,
        final(output)@ == old(output)@.push(ArithInstr {
            target: r->Temp_0, op, var_type: VarType::I32, lhs, rhs,
        }),
        r is Temp,
        r->Temp_0.name@ == decimal(*old(temp_number) as nat),
        i32_temp(r),
        operand_avoids(r, *final(temp_number) as nat),
        forall|env: spec_fn(Seq<char>) -> int| #[trigger] operand(r, run(added(old(output)@, final(output)@), env))
            == crate::rearrange::instr_result(op, operand(lhs, env), operand(rhs, env)),
{
    let ghost t0 = *temp_number as nat;
    let ghost o0 = output@;
    let target = fresh_temp(temp_number);
    let ghost tg = target;
    output.push(ArithInstr { target: target.dup(), op, var_type: VarType::I32, lhs, rhs });
    proof {
        let ins = ArithInstr { target: tg, op, var_type: VarType::I32, lhs, rhs };
        assert(added(o0, output@) =~= seq![ins]);
        assert(output@.subrange(0, o0.len() as int) =~= o0);
        lemma_fresh_avoids(t0, t0 + 1);
        assert forall|env: spec_fn(Seq<char>) -> int| #[trigger] run(added(o0, output@), env) == step(env, ins) by {
            assert(seq![ins].drop_last() =~= Seq::<ArithInstr>::empty());
            assert(seq![ins].last() == ins);
            assert(run(Seq::<ArithInstr>::empty(), env) == env);
            assert(run(seq![ins], env) == step(run(seq![ins].drop_last(), env), seq![ins].last()));
        }
    }
    Value::Temp(target)
}

/// The `ArithOp` that carries out a graph operator.
fn arith_op_of(op: GraphOp) -> (r: ArithOp)
    ensures
        r == (if op == GraphOp::Mul { ArithOp::Mul } else { ArithOp::Add }),
        forall|a: int, b: int| cong(#[trigger] crate::rearrange::instr_result(r, a, b), combine(op, a, b)),
{
    let ghost r = if op == GraphOp::Mul { ArithOp::Mul } else { ArithOp::Add };
    proof {
        assert forall|a: int, b: int| cong(#[trigger] crate::rearrange::instr_result(r, a, b), combine(op, a, b)) by {
            lemma_wrap32(a + b, 0);
            lemma_wrap32(a * b, 0);
        }
    }
    match op {
        GraphOp::Mul => ArithOp::Mul,
        GraphOp::Plus => ArithOp::Add,
    }
}

/// Combines the operands in pairs, front to back, round after round, until
/// at most one is left: each pair becomes an instruction (`Add` for a sum,
/// `Mul` for a product) writing a fresh temporary.
fn add_up_value(values: &mut Vec<Value>, temp_number: &mut u32, output: &mut Vec<ArithInstr>, op: GraphOp)
    requires
        *old(temp_number) as int + old(values)@.len() <= u32::MAX,
    ensures
        final(values)@.len() == (if old(values)@.len() == 0 { 0int } else { 1int }),
        emitted(old(output)@, final(output)@, *old(temp_number) as nat, *final(temp_number) as nat),
        *final(temp_number) as int == *old(temp_number) + (if old(values)@.len() == 0 { 0int } else { old(values)@.len() - 1 }),
        no_float(old(values)@) ==> no_float(final(values)@),
        old(values)@.len() == 1 ==> final(values)@ == old(values)@,
        old(values)@.len() >= 2 ==> i32_temp(final(values)@[0]),
        operands_avoid(old(values)@, *old(temp_number) as nat) ==> operands_avoid(final(values)@, *final(temp_number) as nat)
            && forall|env: spec_fn(Seq<char>) -> int| cong(
                #[trigger] operands_fold(op, final(values)@, run(added(old(output)@, final(output)@), env)),
                operands_fold(op, old(values)@, env)),
{
    let ghost v0 = values@;
    let ghost t0 = *temp_number as nat;
    let ghost o0 = output@;
    let ghost ok = operands_avoid(v0, t0);
    let ghost nf = no_float(v0);
    let aop = arith_op_of(op);
    proof {
        lemma_emitted_none(o0, t0);
        if ok {
            assert forall|env: spec_fn(Seq<char>) -> int| cong(
                #[trigger] operands_fold(op, values@, run(added(o0, output@), env)), operands_fold(op, v0, env)) by {
                lemma_wrap32(operands_fold(op, v0, env), 0);
            }
        }
    }
    while values.len() >= 2
        invariant
            emitted(o0, output@, t0, *temp_number as nat),
            *temp_number as int + values@.len() == t0 + v0.len(),
            t0 + v0.len() <= u32::MAX,
            v0.len() == 0 ==> values@.len() == 0,
            v0.len() > 0 ==> values@.len() > 0,
            ok == operands_avoid(v0, t0),
            nf == no_float(v0),
            forall|a: int, b: int| cong(#[trigger] crate::rearrange::instr_result(aop, a, b), combine(op, a, b)),
            crate::rearrange::modeled_op(aop),
            nf ==> no_float(values@),
            *temp_number as nat == t0 ==> values@ == v0,
            *temp_number as nat > t0 ==> i32_temp(values@[0]),
            ok ==> operands_avoid(values@, *temp_number as nat),
            ok ==> forall|env: spec_fn(Seq<char>) -> int| cong(
                #[trigger] operands_fold(op, values@, run(added(o0, output@), env)), operands_fold(op, v0, env)),
        decreases values@.len(),
    {
        let mut src: Vec<Value> = Vec::new();
        std::mem::swap(&mut src, values);
        let ghost n0 = src@.len();
        let ghost tr = *temp_number as nat;
        proof {
            if ok {
                assert forall|env: spec_fn(Seq<char>) -> int| cong(
                    #[trigger] combine(op, operands_fold(op, values@, run(added(o0, output@), env)),
                        operands_fold(op, src@, run(added(o0, output@), env))), operands_fold(op, v0, env)) by {
                    assert(values@.len() == 0);
                    lemma_combine_assoc(op, operands_fold(op, src@, run(added(o0, output@), env)), 0, 0);
                }
            }
            assert(operands_avoid(values@, *temp_number as nat));
            assert(no_float(values@));
        }
        while src.len() > 0
            invariant
                emitted(o0, output@, t0, *temp_number as nat),
                *temp_number as int + values@.len() + src@.len() == t0 + v0.len(),
                t0 + v0.len() <= u32::MAX,
                n0 >= 2,
                tr <= *temp_number,
                values@.len() + (*temp_number - tr) == n0 - src@.len(),
                2 * (*temp_number - tr) <= n0 - src@.len(),
                src@.len() < n0 ==> *temp_number > tr,
                src@.len() < n0 ==> i32_temp(values@[0]),
                tr >= t0,
                ok == operands_avoid(v0, t0),
                nf == no_float(v0),
                forall|a: int, b: int| cong(#[trigger] crate::rearrange::instr_result(aop, a, b), combine(op, a, b)),
                crate::rearrange::modeled_op(aop),
                nf ==> no_float(values@) && no_float(src@),
                ok ==> operands_avoid(values@, *temp_number as nat) && operands_avoid(src@, *temp_number as nat),
                ok ==> forall|env: spec_fn(Seq<char>) -> int| cong(
                    #[trigger] combine(op, operands_fold(op, values@, run(added(o0, output@), env)),
                        operands_fold(op, src@, run(added(o0, output@), env))), operands_fold(op, v0, env)),
            decreases src@.len(),
        {
            let ghost vb = values@;
            let ghost sb = src@;
            let ghost ob = output@;
            let ghost tb = *temp_number as nat;
            let first = src.remove(0);
            proof {
                assert(first == sb[0]);
                assert(src@ =~= sb.subrange(1, sb.len() as int));
            }
            if src.len() > 0 {
                let ghost s1 = src@;
                let second = src.remove(0);
                let ghost gf = first;
                let ghost gs = second;
                proof {
                    assert(second == s1[0]);
                    assert(src@ =~= s1.subrange(1, s1.len() as int));
                    assert(sb =~= seq![gf] + (seq![gs] + src@));
                }
                let r = emit_op(aop, first, second, temp_number, output);
                values.push(r);
                proof {
                    lemma_emitted_trans(o0, ob, output@, t0, tb, *temp_number as nat);
                    assert(no_float(values@) && no_float(src@) || !nf) by {
                        if nf {
                            assert forall|i: int| 0 <= i < values@.len() implies !(#[trigger] values@[i] is Float) by {
                                if i < vb.len() {
                                    assert(values@[i] == vb[i]);
                                }
                            }
                            assert forall|i: int| 0 <= i < src@.len() implies !(#[trigger] src@[i] is Float) by {
                                assert(src@[i] == sb[i + 2]);
                            }
                        }
                    }
                    if ok {
                        let tn = *temp_number as nat;
                        assert(operand_avoids(gf, tb) && operand_avoids(gs, tb)) by {
                            assert(operand_avoids(sb[0], tb));
                            assert(operand_avoids(sb[1], tb));
                            assert(sb[1] == gs);
                        }
                        assert forall|i: int| 0 <= i < values@.len() implies #[trigger] operand_avoids(values@[i], tn) by {
                            if i < vb.len() {
                                assert(values@[i] == vb[i]);
                                assert(operand_avoids(vb[i], tb));
                                if vb[i] is Temp {
                                    lemma_avoids_mono(vb[i]->Temp_0.name@, tb, tn);
                                }
                            }
                        }
                        assert forall|i: int| 0 <= i < src@.len() implies #[trigger] operand_avoids(src@[i], tn) by {
                            assert(src@[i] == sb[i + 2]);
                            assert(operand_avoids(sb[i + 2], tb));
                            if sb[i + 2] is Temp {
                                lemma_avoids_mono(sb[i + 2]->Temp_0.name@, tb, tn);
                            }
                        }
                        assert(operands_avoid(vb, tb));
                        assert(operands_avoid(src@, tb)) by {
                            assert forall|i: int| 0 <= i < src@.len() implies #[trigger] operand_avoids(src@[i], tb) by {
                                assert(src@[i] == sb[i + 2]);
                            }
                        }
                        assert forall|env: spec_fn(Seq<char>) -> int| cong(
                            #[trigger] combine(op, operands_fold(op, values@, run(added(o0, output@), env)),
                                operands_fold(op, src@, run(added(o0, output@), env))), operands_fold(op, v0, env)) by {
                            let eb = run(added(o0, ob), env);
                            let ea = run(added(o0, output@), env);
                            assert(ea == run(added(ob, output@), eb));
                            lemma_fresh_agree(added(ob, output@), tb, eb);
                            lemma_operands_frame(op, vb, tb, eb, ea);
                            lemma_operands_frame(op, src@, tb, eb, ea);
                            let a = operand(gf, eb);
                            let b = operand(gs, eb);
                            let fv = operands_fold(op, vb, eb);
                            let fs = operands_fold(op, src@, eb);
                            let w = operand(r, ea);
                            assert(w == crate::rearrange::instr_result(aop, a, b));
                            assert(cong(crate::rearrange::instr_result(aop, a, b), combine(op, a, b)));
                            assert(cong(w, combine(op, a, b)));
                            lemma_operands_fold_push(op, vb, r, ea);
                            lemma_operands_fold_prepend(op, gs, src@, eb);
                            lemma_operands_fold_prepend(op, gf, seq![gs] + src@, eb);
                            lemma_combine_assoc(op, a, b, fs);
                            lemma_combine_assoc(op, fv, combine(op, a, b), fs);
                            lemma_wrap32(fv, 0);
                            lemma_wrap32(fs, 0);
                            lemma_cong_combine(op, fv, fv, w, combine(op, a, b));
                            lemma_cong_combine(op, combine(op, fv, w), combine(op, fv, combine(op, a, b)), fs, fs);
                            lemma_cong_trans(combine(op, combine(op, fv, w), fs), combine(op, fv, combine(op, combine(op, a, b), fs)),
                                operands_fold(op, v0, env));
                        }
                    }
                }
            } else {
                let ghost gf = first;
                values.push(first);
                proof {
                    assert(sb =~= seq![gf]);
                    if nf {
                        assert forall|i: int| 0 <= i < values@.len() implies !(#[trigger] values@[i] is Float) by {
                            if i < vb.len() {
                                assert(values@[i] == vb[i]);
                            } else {
                                assert(sb[0] == gf);
                            }
                        }
                    }
                    if ok {
                        let tn = *temp_number as nat;
                        assert forall|i: int| 0 <= i < values@.len() implies #[trigger] operand_avoids(values@[i], tn) by {
                            if i < vb.len() {
                                assert(values@[i] == vb[i]);
                            } else {
                                assert(operand_avoids(sb[0], tn));
                            }
                        }
                        assert forall|env: spec_fn(Seq<char>) -> int| cong(
                            #[trigger] combine(op, operands_fold(op, values@, run(added(o0, output@), env)),
                                operands_fold(op, src@, run(added(o0, output@), env))), operands_fold(op, v0, env)) by {
                            let e = run(added(o0, output@), env);
                            lemma_operands_fold_push(op, vb, gf, e);
                            lemma_operands_fold_prepend(op, gf, src@, e);
                            assert(src@ =~= Seq::<Value>::empty());
                            assert(operands_fold(op, src@, e) == unit(op));
                            lemma_combine_assoc(op, operands_fold(op, vb, e), operand(gf, e), unit(op));
                            lemma_combine_assoc(op, operand(gf, e), 0, 0);
                        }
                    }
                }
            }
        }
        proof {
            if ok {
                assert forall|env: spec_fn(Seq<char>) -> int| cong(
                    #[trigger] operands_fold(op, values@, run(added(o0, output@), env)), operands_fold(op, v0, env)) by {
                    let e = run(added(o0, output@), env);
                    assert(src@.len() == 0);
                    assert(operands_fold(op, src@, e) == unit(op));
                    lemma_combine_assoc(op, operands_fold(op, values@, e), 0, 0);
                }
            }
        }
    }
}

/// The sum of the operands of `s`, each multiplied by its factor.
pub open spec fn scaled_sum(s: Seq<(i32, Value)>, env: spec_fn(Seq<char>) -> int) -> int
    decreases s.len(),
{
    if s.len() == 0 {
        0
    } else {
        scaled_sum(s.drop_last(), env) + s.last().0 * operand(s.last().1, env)
    }
}

/// The operands of `s` avoid the names of temporaries numbered `k` or more.
pub open spec fn scaled_avoid(s: Seq<(i32, Value)>, k: nat) -> bool {
    forall|i: int| 0 <= i < s.len() ==> operand_avoids(#[trigger] s[i].1, k)
}

/// A temporary of type `i32`.
pub open spec fn i32_temp(v: Value) -> bool {
    v matches Value::Temp(t) && t.var_type == VarType::I32
}

/// Multiplies each operand by its factor: a factor of one keeps the operand,
/// any other becomes an instruction `operand * factor` writing a fresh
/// temporary.
fn time_const_for_value(values: Vec<(i32, Value)>, temp_number: &mut u32, output: &mut Vec<ArithInstr>) -> (r: Vec<Value>)
    requires
        *old(temp_number) as int + values@.len() <= u32::MAX,
    ensures
        r@.len() == values@.len(),
        emitted(old(output)@, final(output)@, *old(temp_number) as nat, *final(temp_number) as nat),
        *final(temp_number) as int <= *old(temp_number) + values@.len(),
        forall|i: int| 0 <= i < r@.len() ==> (if values@[i].0 == 1 { #[trigger] r@[i] == values@[i].1 } else { i32_temp(r@[i]) }),
        scaled_avoid(values@, *old(temp_number) as nat) ==> operands_avoid(r@, *final(temp_number) as nat)
            && forall|env: spec_fn(Seq<char>) -> int| cong(
                #[trigger] operands_fold(GraphOp::Plus, r@, run(added(old(output)@, final(output)@), env)),
                scaled_sum(values@, env)),
{
    let ghost t0 = *temp_number as nat;
    let ghost o0 = output@;
    let ghost ok = scaled_avoid(values@, t0);
    let mut out: Vec<Value> = Vec::new();
    let mut i: usize = 0;
    proof {
        lemma_emitted_none(o0, t0);
        if ok {
            assert forall|env: spec_fn(Seq<char>) -> int| cong(
                #[trigger] operands_fold(GraphOp::Plus, out@, run(added(o0, output@), env)),
                scaled_sum(values@.take(0), env)) by {
                assert(values@.take(0) =~= Seq::<(i32, Value)>::empty());
                lemma_wrap32(0, 0);
            }
        }
    }
    while i < values.len()
        invariant
            i <= values@.len(),
            out@.len() == i,
            emitted(o0, output@, t0, *temp_number as nat),
            *temp_number as int <= t0 + i,
            t0 + values@.len() <= u32::MAX,
            ok == scaled_avoid(values@, t0),
            forall|j: int| 0 <= j < i ==> (if values@[j].0 == 1 { #[trigger] out@[j] == values@[j].1 } else { i32_temp(out@[j]) }),
            ok ==> operands_avoid(out@, *temp_number as nat),
            ok ==> forall|env: spec_fn(Seq<char>) -> int| cong(
                #[trigger] operands_fold(GraphOp::Plus, out@, run(added(o0, output@), env)),
                scaled_sum(values@.take(i as int), env)),
        decreases values@.len() - i,
    {
        let ghost ob = output@;
        let ghost tb = *temp_number as nat;
        let ghost outb = out@;
        let time = values[i].0;
        let value = dup_value(&values[i].1);
        let ghost gv = value;
        proof {
            assert(values@.take(i + 1).drop_last() =~= values@.take(i as int));
            assert(values@.take(i + 1).last() == values@[i as int]);
        }
        if time == 1 {
            out.push(value);
            proof {
                assert forall|j: int| 0 <= j < i + 1 implies (if values@[j].0 == 1 { #[trigger] out@[j] == values@[j].1 } else { i32_temp(out@[j]) }) by {
                    if j < i {
                        assert(out@[j] == outb[j]);
                    }
                }
                if ok {
                    assert(operand_avoids(values@[i as int].1, t0));
                    assert forall|j: int| 0 <= j < out@.len() implies #[trigger] operand_avoids(out@[j], *temp_number as nat) by {
                        if j < i {
                            assert(out@[j] == outb[j]);
                        } else if gv is Temp {
                            lemma_avoids_mono(gv->Temp_0.name@, t0, *temp_number as nat);
                        }
                    }
                    assert forall|env: spec_fn(Seq<char>) -> int| cong(
                        #[trigger] operands_fold(GraphOp::Plus, out@, run(added(o0, output@), env)),
                        scaled_sum(values@.take(i + 1), env)) by {
                        let e = run(added(o0, output@), env);
                        lemma_operands_fold_push(GraphOp::Plus, outb, gv, e);
                        assert(operand(gv, e) == operand(gv, env)) by {
                            lemma_fresh_agree(added(o0, output@), t0, env);
                            if gv is Temp {
                                assert(avoids(gv->Temp_0.name@, t0));
                            }
                        }
                        let a = operands_fold(GraphOp::Plus, outb, e);
                        let b = scaled_sum(values@.take(i as int), env);
                        lemma_wrap32(operand(gv, env), 0);
                        lemma_cong_add(a, b, operand(gv, env), 1 * operand(gv, env));
                    }
                }
            }
        } else {
            let r = emit_op(ArithOp::Mul, value, Value::Int(time), temp_number, output);
            out.push(r);
            proof {
                lemma_emitted_trans(o0, ob, output@, t0, tb, *temp_number as nat);
                assert forall|j: int| 0 <= j < i + 1 implies (if values@[j].0 == 1 { #[trigger] out@[j] == values@[j].1 } else { i32_temp(out@[j]) }) by {
                    if j < i {
                        assert(out@[j] == outb[j]);
                    }
                }
                if ok {
                    assert(operand_avoids(values@[i as int].1, t0));
                    assert forall|j: int| 0 <= j < out@.len() implies #[trigger] operand_avoids(out@[j], *temp_number as nat) by {
                        if j < i {
                            assert(out@[j] == outb[j]);
                            assert(operand_avoids(outb[j], tb));
                            if outb[j] is Temp {
                                lemma_avoids_mono(outb[j]->Temp_0.name@, tb, *temp_number as nat);
                            }
                        }
                    }
                    assert forall|env: spec_fn(Seq<char>) -> int| cong(
                        #[trigger] operands_fold(GraphOp::Plus, out@, run(added(o0, output@), env)),
                        scaled_sum(values@.take(i + 1), env)) by {
                        let eb = run(added(o0, ob), env);
                        let e = run(added(o0, output@), env);
                        assert(e == run(added(ob, output@), eb));
                        lemma_fresh_agree(added(ob, output@), tb, eb);
                        lemma_operands_frame(GraphOp::Plus, outb, tb, eb, e);
                        lemma_operands_fold_push(GraphOp::Plus, outb, r, e);
                        assert(operand(gv, eb) == operand(gv, env)) by {
                            lemma_fresh_agree(added(o0, ob), t0, env);
                            if gv is Temp {
                                assert(avoids(gv->Temp_0.name@, t0));
                            }
                        }
                        let x = operand(gv, env);
                        assert(operand(r, e) == crate::rearrange::instr_result(ArithOp::Mul, x, time as int));
                        lemma_wrap32(x * time, 0);
                        assert(x * time == time * x) by (nonlinear_arith);
                        let a = operands_fold(GraphOp::Plus, outb, eb);
                        let b = scaled_sum(values@.take(i as int), env);
                        lemma_cong_add(a, b, operand(r, e), time * x);
                    }
                }
            }
        }
        i = i + 1;
    }
    proof {
        assert(values@.take(i as int) =~= values@);
    }
    out
}

pub proof fn lemma_graph_avoids_mono(g: GraphValue, k: nat, k2: nat)
    requires
        graph_avoids(g, k),
        k <= k2,
    ensures
        graph_avoids(g, k2),
    decreases g,
{
    match g {
        GraphValue::NonTrival((_, v)) => {
            lemma_all_graphs_avoid(v@, k);
            lemma_all_graphs_avoid(v@, k2);
            assert forall|i: int| 0 <= i < v@.len() implies graph_avoids(#[trigger] v@[i], k2) by {
                lemma_child_decreases(g, i);
                lemma_graph_avoids_mono(v@[i], k, k2);
            }
        },
        _ => {},
    }
}

/// Operands congruent one by one to graph values fold to a value
/// congruent to theirs.
pub proof fn lemma_fold_cong_pointwise(op: GraphOp, r: Seq<Value>, s: Seq<GraphValue>, e: spec_fn(Seq<char>) -> int,
    env: spec_fn(Seq<char>) -> int)
    requires
        r.len() == s.len(),
        forall|i: int| 0 <= i < r.len() ==> cong(#[trigger] operand(r[i], e), val_of(s[i], env)),
    ensures
        cong(operands_fold(op, r, e), fold_values(op, s, env)),
    decreases r.len(),
{
    if r.len() == 0 {
        lemma_fold_empty(op, env);
        lemma_wrap32(unit(op), 0);
    } else {
        let r0 = r.drop_last();
        let s0 = s.drop_last();
        assert forall|i: int| 0 <= i < r0.len() implies cong(#[trigger] operand(r0[i], e), val_of(s0[i], env)) by {
            assert(r0[i] == r[i]);
            assert(s0[i] == s[i]);
        }
        lemma_fold_cong_pointwise(op, r0, s0, e, env);
        assert(s =~= s0.push(s.last()));
        lemma_fold_push(op, s0, s.last(), env);
        assert(cong(operand(r[r.len() - 1], e), val_of(s[s.len() - 1], env)));
        lemma_cong_combine(op, operands_fold(op, r0, e), fold_values(op, s0, env), operand(r.last(), e), val_of(s.last(), env));
    }
}

/// No graph value of `s` comes after the next one in the order of graph values.
pub open spec fn graphs_sorted(s: Seq<GraphValue>) -> bool {
    forall|i: int, j: int| 0 <= i && j == i + 1 && j < s.len()
        ==> graph_order_spec(#[trigger] s[i], #[trigger] s[j]) != Order3::Greater
}

/// Inserting `x` after the last value not greater than it keeps `s` sorted.
pub proof fn lemma_insert_graph_sorted(s: Seq<GraphValue>, j: int, x: GraphValue)
    requires
        graphs_sorted(s),
        0 <= j <= s.len(),
        j > 0 ==> graph_order_spec(s[j - 1], x) != Order3::Greater,
        forall|k: int| j <= k < s.len() ==> graph_order_spec(#[trigger] s[k], x) == Order3::Greater,
    ensures
        graphs_sorted(s.insert(j, x)),
{
    let u = s.insert(j, x);
    assert forall|p: int, q: int| 0 <= p && q == p + 1 && q < u.len()
        implies graph_order_spec(#[trigger] u[p], #[trigger] u[q]) != Order3::Greater by {
        if q < j {
            assert(u[p] == s[p] && u[q] == s[q]);
        } else if q == j {
            assert(u[p] == s[p]);
        } else if p == j {
            assert(u[q] == s[j]);
            lemma_graph_order_flip(s[j], x);
        } else {
            assert(u[p] == s[p - 1] && u[q] == s[q - 1]);
        }
    }
}

/// Inserting the next value of `orig` into what holds the values before
/// it gives what holds the values up to it.
pub proof fn lemma_take_insert_multiset(orig: Seq<GraphValue>, ob: Seq<GraphValue>, j: int, x: GraphValue)
    requires
        ob.len() < orig.len(),
        ob.to_multiset() == orig.take(ob.len() as int).to_multiset(),
        x == orig[ob.len() as int],
        0 <= j <= ob.len(),
    ensures
        ob.insert(j, x).to_multiset() == orig.take(ob.len() + 1int).to_multiset(),
{
    broadcast use vstd::seq_lib::group_to_multiset_ensures;
    lemma_insert_multiset(ob, j, x);
    assert(orig.take(ob.len() + 1int) =~= orig.take(ob.len() as int).push(x));
}

/// Stable insertion sort in the order of graph values.
#[verifier::spinoff_prover]
fn sort_graphs(v: Vec<GraphValue>) -> (r: Vec<GraphValue>)
    ensures
        r@.len() == v@.len(),
        r@.to_multiset() == v@.to_multiset(),
        graphs_sorted(r@),
        forall|i: int| 0 <= i < r@.len() ==> v@.contains(#[trigger] r@[i]),
        metrics_of(r@) == metrics_of(v@),
        forall|op: GraphOp, env: spec_fn(Seq<char>) -> int| #[trigger] fold_values(op, r@, env) == fold_values(op, v@, env),
{
    let ghost orig = v@;
    let mut src = v;
    let mut out: Vec<GraphValue> = Vec::new();
    proof {
        assert(out@ =~= orig.take(0));
        lemma_metrics_len(orig);
        assert forall|op: GraphOp, env: spec_fn(Seq<char>) -> int|
            combine(op, #[trigger] fold_values(op, out@, env), fold_values(op, src@, env)) == fold_values(op, orig, env) by {
            assert(out@ =~= Seq::<GraphValue>::empty());
            lemma_fold_empty(op, env);
            lemma_combine_assoc(op, fold_values(op, orig, env), 0, 0);
        }
    }
    while src.len() > 0
        invariant
            out@.len() + src@.len() == orig.len(),
            src@ == orig.subrange(orig.len() - src@.len(), orig.len() as int),
            forall|op: GraphOp, env: spec_fn(Seq<char>) -> int|
                combine(op, #[trigger] fold_values(op, out@, env), fold_values(op, src@, env)) == fold_values(op, orig, env),
            forall|i: int| 0 <= i < out@.len() ==> orig.contains(#[trigger] out@[i]),
            metrics_of(out@) + metrics_of(src@) == metrics_of(orig),
            graphs_sorted(out@),
            out@.to_multiset() == orig.take(out@.len() as int).to_multiset(),
        decreases src.len(),
    {
        let ghost ob = out@;
        let ghost sb = src@;
        let x = src.remove(0);
        let mut j = out.len();
        while j > 0 && graph_order(&out[j - 1], &x) == Order3::Greater
            invariant
                j <= out.len(),
                forall|k: int| j <= k < out@.len() ==> graph_order_spec(#[trigger] out@[k], x) == Order3::Greater,
            decreases j,
        {
            j = j - 1;
        }
        let ghost gx = x;
        out.insert(j, x);
        proof {
            lemma_insert_graph_sorted(ob, j as int, gx);
            lemma_take_insert_multiset(orig, ob, j as int, gx);
            assert(sb =~= src@.insert(0, gx));
            lemma_metrics_insert(ob, j as int, gx);
            lemma_metrics_insert(src@, 0, gx);
            assert(src@ =~= orig.subrange(orig.len() - src@.len(), orig.len() as int));
            assert(gx == orig[orig.len() - sb.len()]);
            assert forall|op: GraphOp, env: spec_fn(Seq<char>) -> int|
                combine(op, #[trigger] fold_values(op, out@, env), fold_values(op, src@, env)) == fold_values(op, orig, env) by {
                lemma_fold_remove(op, sb, 0, env);
                lemma_fold_insert(op, ob, j as int, gx, env);
                assert(sb.remove(0) =~= src@);
                let a = fold_values(op, ob, env);
                let b = fold_values(op, src@, env);
                let c = val_of(gx, env);
                lemma_combine_assoc(op, a, c, b);
                lemma_combine_assoc(op, a, b, c);
                lemma_combine_assoc(op, c, b, 0);
            }
            assert forall|i: int| 0 <= i < out@.len() implies orig.contains(#[trigger] out@[i]) by {
                if i < j {
                    assert(out@[i] == ob[i]);
                } else if i == j {
                    assert(out@[i] == orig[orig.len() - sb.len()]);
                } else {
                    assert(out@[i] == ob[i - 1]);
                }
            }
        }
    }
    proof {
        assert(src@ =~= Seq::<GraphValue>::empty());
        assert(orig.take(orig.len() as int) =~= orig);
        assert forall|op: GraphOp, env: spec_fn(Seq<char>) -> int| #[trigger] fold_values(op, out@, env) == fold_values(op, orig, env) by {
            lemma_fold_empty(op, env);
            lemma_combine_assoc(op, fold_values(op, out@, env), 0, 0);
        }
    }
    out
}

pub proof fn lemma_scaled_sum_push(s: Seq<(i32, Value)>, x: (i32, Value), env: spec_fn(Seq<char>) -> int)
    ensures
        scaled_sum(s.push(x), env) == scaled_sum(s, env) + x.0 * operand(x.1, env),
{
    assert(s.push(x).drop_last() =~= s);
}

pub proof fn lemma_scaled_frame(s: Seq<(i32, Value)>, k: nat, e1: spec_fn(Seq<char>) -> int, e2: spec_fn(Seq<char>) -> int)
    requires
        scaled_avoid(s, k),
        agree_below(e1, e2, k),
    ensures
        scaled_sum(s, e2) == scaled_sum(s, e1),
    decreases s.len(),
{
    if s.len() > 0 {
        let s0 = s.drop_last();
        assert(scaled_avoid(s0, k)) by {
            assert forall|i: int| 0 <= i < s0.len() implies operand_avoids(#[trigger] s0[i].1, k) by {
                assert(s0[i] == s[i]);
            }
        }
        lemma_scaled_frame(s0, k, e1, e2);
        assert(operand_avoids(s[s.len() - 1].1, k));
        let x = s.last().1;
        if x is Temp {
            assert(avoids(x->Temp_0.name@, k));
        }
    }
}

/// Sums the positive parts, each times its factor, and subtracts the
/// negative parts, each times its factor.
fn sum_parts(solved_pos: Vec<(i32, Value)>, solved_neg: Vec<(i32, Value)>, temp_number: &mut u32, output: &mut Vec<ArithInstr>)
    -> (r: Value)
    requires
        *old(temp_number) as int + 2 * (solved_pos@.len() + solved_neg@.len()) + 1 <= u32::MAX,
        forall|i: int| 0 <= i < solved_pos@.len() ==> !(#[trigger] solved_pos@[i].1 is Float),
        forall|i: int| 0 <= i < solved_neg@.len() ==> !(#[trigger] solved_neg@[i].1 is Float),
    ensures
        !(r is Float),
        solved_pos@.len() + solved_neg@.len() >= 2 ==> i32_temp(r),
        solved_pos@.len() == 1 && solved_neg@.len() == 0 && i32_temp(solved_pos@[0].1) ==> i32_temp(r),
        solved_pos@.len() == 0 && solved_neg@.len() == 1 ==> i32_temp(r),
        emitted(old(output)@, final(output)@, *old(temp_number) as nat, *final(temp_number) as nat),
        *final(temp_number) as int <= *old(temp_number) + 2 * (solved_pos@.len() + solved_neg@.len()),
        scaled_avoid(solved_pos@, *old(temp_number) as nat) && scaled_avoid(solved_neg@, *old(temp_number) as nat) ==>
            operand_avoids(r, *final(temp_number) as nat)
            && forall|env: spec_fn(Seq<char>) -> int| cong(#[trigger] operand(r, run(added(old(output)@, final(output)@), env)),
                scaled_sum(solved_pos@, env) - scaled_sum(solved_neg@, env)),
{
    let ghost t0 = *temp_number as nat;
    let ghost o0 = output@;
    let ghost sp = solved_pos@;
    let ghost sn = solved_neg@;
    let ghost ok = scaled_avoid(sp, t0) && scaled_avoid(sn, t0);
    let mut pos_values = time_const_for_value(solved_pos, temp_number, output);
    let ghost o1 = output@;
    let ghost t1 = *temp_number as nat;
    let ghost pv1 = pos_values@;
    let mut neg_values = time_const_for_value(solved_neg, temp_number, output);
    let ghost o2 = output@;
    let ghost t2 = *temp_number as nat;
    let ghost nv2 = neg_values@;
    proof {
        lemma_emitted_trans(o0, o1, o2, t0, t1, t2);
        assert(no_float(pv1)) by {
            assert forall|i: int| 0 <= i < pv1.len() implies !(#[trigger] pv1[i] is Float) by {
                if sp[i].0 != 1 {
                    assert(i32_temp(pv1[i]));
                }
            }
        }
        assert(no_float(nv2)) by {
            assert forall|i: int| 0 <= i < nv2.len() implies !(#[trigger] nv2[i] is Float) by {
                if sn[i].0 != 1 {
                    assert(i32_temp(nv2[i]));
                }
            }
        }
    }
    add_up_value(&mut neg_values, temp_number, output, GraphOp::Plus);
    let ghost o3 = output@;
    let ghost t3 = *temp_number as nat;
    let ghost nv3 = neg_values@;
    proof {
        lemma_emitted_trans(o0, o2, o3, t0, t2, t3);
    }
    let nl = neg_values.pop();
    let ghost pv4: Seq<Value>;
    let ghost o4: Seq<ArithInstr>;
    let ghost t4: nat;
    match nl {
        Some(neg) => {
            let ghost pvb = pos_values@;
            let pos = match pos_values.pop() {
                Some(p) => p,
                None => Value::Int(0),
            };
            let ghost gp = pos;
            let ghost gn = neg;
            let t = emit_op(ArithOp::Sub, pos, neg, temp_number, output);
            pos_values.push(t);
            proof {
                pv4 = pos_values@;
                o4 = output@;
                t4 = *temp_number as nat;
                lemma_emitted_trans(o0, o3, o4, t0, t3, t4);
                assert(no_float(pv4)) by {
                    assert forall|i: int| 0 <= i < pv4.len() implies !(#[trigger] pv4[i] is Float) by {
                        if i < pv4.len() - 1 {
                            assert(pv4[i] == pvb[i]);
                        }
                    }
                }
                if ok {
                    // the values of the remaining positive parts, then the new one
                    let rest = pv4.drop_last();
                    assert(rest =~= if pvb.len() > 0 { pvb.drop_last() } else { pvb });
                    assert(operands_avoid(pvb, t1));
                    assert(operands_avoid(nv3, t3));
                    assert forall|i: int| 0 <= i < pv4.len() implies #[trigger] operand_avoids(pv4[i], t4) by {
                        if i < pv4.len() - 1 {
                            assert(pv4[i] == pvb[i]);
                            assert(operand_avoids(pvb[i], t1));
                            if pvb[i] is Temp {
                                lemma_avoids_mono(pvb[i]->Temp_0.name@, t1, t4);
                            }
                        }
                    }
                    assert forall|env: spec_fn(Seq<char>) -> int| cong(
                        #[trigger] operands_fold(GraphOp::Plus, pv4, run(added(o0, o4), env)),
                        scaled_sum(sp, env) - scaled_sum(sn, env)) by {
                        let e1 = run(added(o0, o1), env);
                        let e2 = run(added(o1, o2), e1);
                        let e3 = run(added(o2, o3), e2);
                        let e4 = run(added(o3, o4), e3);
                        assert(run(added(o0, o2), env) == e2);
                        assert(run(added(o0, o3), env) == e3);
                        assert(run(added(o0, o4), env) == e4);
                        // positive side: fixed from e1 on
                        lemma_fresh_agree(added(o1, o2), t1, e1);
                        lemma_fresh_agree(added(o2, o3), t2, e2);
                        lemma_fresh_agree(added(o3, o4), t3, e3);
                        lemma_agree_trans(e1, e2, e3, t1, t2);
                        lemma_agree_trans(e1, e3, e4, t1, t3);
                        lemma_operands_frame(GraphOp::Plus, pvb, t1, e1, e4);
                        lemma_operands_frame(GraphOp::Plus, pvb, t1, e1, e3);
                        // negative side
                        lemma_fresh_agree(added(o0, o1), t0, env);
                        lemma_scaled_frame(sn, t0, env, e1);
                        assert(cong(operands_fold(GraphOp::Plus, nv2, e2), scaled_sum(sn, e1)));
                        assert(cong(operands_fold(GraphOp::Plus, nv3, e3), operands_fold(GraphOp::Plus, nv2, e2)));
                        assert(nv3 =~= seq![gn]);
                        lemma_operands_fold_single(GraphOp::Plus, gn, e3);
                        assert(operands_fold(GraphOp::Plus, nv3, e3) == operand(gn, e3));
                        let nval = operand(gn, e3);
                        let pval = operand(gp, e3);
                        let pf = operands_fold(GraphOp::Plus, pvb, e3);
                        assert(cong(pf, scaled_sum(sp, env)));
                        // the subtraction
                        assert(operand(t, e4) == crate::rearrange::instr_result(ArithOp::Sub, pval, nval));
                        lemma_wrap32(pval - nval, 0);
                        lemma_operands_fold_push(GraphOp::Plus, rest, t, e4);
                        assert(pv4 =~= rest.push(t));
                        if pvb.len() > 0 {
                            assert(pvb =~= rest.push(gp));
                            lemma_operands_fold_push(GraphOp::Plus, rest, gp, e3);
                            assert forall|i: int| 0 <= i < rest.len() implies #[trigger] operand_avoids(rest[i], t1) by {
                                assert(rest[i] == pvb[i]);
                            }
                            lemma_operands_frame(GraphOp::Plus, rest, t1, e1, e3);
                            lemma_operands_frame(GraphOp::Plus, rest, t1, e1, e4);
                        } else {
                            assert(rest =~= Seq::<Value>::empty());
                            assert(pval == 0);
                            assert(pf == 0);
                        }
                        let rf = operands_fold(GraphOp::Plus, rest, e4);
                        assert(operands_fold(GraphOp::Plus, pv4, e4) == rf + operand(t, e4));
                        assert(cong(rf + operand(t, e4), pf - nval)) by {
                            lemma_cong_add(rf, rf, operand(t, e4), pval - nval);
                            lemma_wrap32(rf, 0);
                        }
                        lemma_cong_add(pf, scaled_sum(sp, env), nval, scaled_sum(sn, env));
                        lemma_cong_trans(rf + operand(t, e4), pf - nval, scaled_sum(sp, env) - scaled_sum(sn, env));
                    }
                }
            }
        },
        None => {
            proof {
                pv4 = pos_values@;
                o4 = output@;
                t4 = *temp_number as nat;
                assert(sn.len() == 0);
                if ok {
                    assert forall|i: int| 0 <= i < pv4.len() implies #[trigger] operand_avoids(pv4[i], t4) by {
                        assert(operand_avoids(pv1[i], t1));
                        if pv1[i] is Temp {
                            lemma_avoids_mono(pv1[i]->Temp_0.name@, t1, t4);
                        }
                    }
                    assert forall|env: spec_fn(Seq<char>) -> int| cong(
                        #[trigger] operands_fold(GraphOp::Plus, pv4, run(added(o0, o4), env)),
                        scaled_sum(sp, env) - scaled_sum(sn, env)) by {
                        let e1 = run(added(o0, o1), env);
                        let e2 = run(added(o1, o2), e1);
                        let e3 = run(added(o2, o3), e2);
                        assert(run(added(o0, o3), env) == e3);
                        lemma_fresh_agree(added(o1, o2), t1, e1);
                        lemma_fresh_agree(added(o2, o3), t2, e2);
                        lemma_agree_trans(e1, e2, e3, t1, t2);
                        lemma_operands_frame(GraphOp::Plus, pv1, t1, e1, e3);
                        assert(scaled_sum(sn, env) == 0);
                    }
                }
            }
        },
    }
    let ghost pvl = pos_values@;
    proof {
        assert(no_float(pvl));
    }
    add_up_value(&mut pos_values, temp_number, output, GraphOp::Plus);
    let ghost o5 = output@;
    let ghost t5 = *temp_number as nat;
    let ghost pv5 = pos_values@;
    proof {
        lemma_emitted_trans(o0, o4, o5, t0, t4, t5);
    }
    let r = match pos_values.pop() {
        Some(x) => x,
        None => Value::Int(0),
    };
    proof {
        if ok {
            assert forall|env: spec_fn(Seq<char>) -> int| cong(#[trigger] operand(r, run(added(o0, o5), env)),
                scaled_sum(sp, env) - scaled_sum(sn, env)) by {
                let e4 = run(added(o0, o4), env);
                let e5 = run(added(o4, o5), e4);
                assert(run(added(o0, o5), env) == e5);
                assert(cong(operands_fold(GraphOp::Plus, pv5, e5), operands_fold(GraphOp::Plus, pvl, e4)));
                if pv5.len() == 1 {
                    assert(pv5 =~= seq![r]);
                    lemma_operands_fold_single(GraphOp::Plus, r, e5);
                } else {
                    assert(pv5.len() == 0);
                    assert(r == Value::Int(0));
                    assert(operands_fold(GraphOp::Plus, pv5, e5) == 0);
                }
                assert(cong(operand(r, e5), operands_fold(GraphOp::Plus, pvl, e4)));
                assert(cong(operands_fold(GraphOp::Plus, pvl, e4), scaled_sum(sp, env) - scaled_sum(sn, env)));
                lemma_cong_trans(operand(r, e5), operands_fold(GraphOp::Plus, pvl, e4), scaled_sum(sp, env) - scaled_sum(sn, env));
            }
        }
    }
    r
}

/// Builds each graph value of `s` in turn.
fn build_all(s: Vec<GraphValue>, temp_number: &mut u32, output: &mut Vec<ArithInstr>) -> (r: Vec<Value>)
    requires
        all_buildable(s@),
        *old(temp_number) as int + 6 * metrics_of(s@) <= u32::MAX,
    ensures
        r@.len() == s@.len(),
        no_float(r@),
        emitted(old(output)@, final(output)@, *old(temp_number) as nat, *final(temp_number) as nat),
        *final(temp_number) as int + 6 * s@.len() <= *old(temp_number) + 6 * metrics_of(s@),
        all_graphs_avoid(s@, *old(temp_number) as nat) && all_products_nonempty(s@) ==>
            operands_avoid(r@, *final(temp_number) as nat)
            && forall|env: spec_fn(Seq<char>) -> int| cong(
                #[trigger] operands_fold(GraphOp::Plus, r@, run(added(old(output)@, final(output)@), env)),
                fold_values(GraphOp::Plus, s@, env)),
    decreases metrics_of(s@), 3nat,
{
    let ghost s0 = s@;
    let ghost t0 = *temp_number as nat;
    let ghost o0 = output@;
    let ghost ok = all_graphs_avoid(s0, t0) && all_products_nonempty(s0);
    proof {
        lemma_all_buildable(s0);
        lemma_all_graphs_avoid(s0, t0);
        lemma_all_products_nonempty(s0);
        lemma_emitted_none(o0, t0);
        assert(s0.subrange(0, s0.len() as int) =~= s0);
        if ok {
            assert forall|env: spec_fn(Seq<char>) -> int| cong(
                #[trigger] operands_fold(GraphOp::Plus, Seq::<Value>::empty(), run(added(o0, output@), env)),
                fold_values(GraphOp::Plus, s0.take(0), env)) by {
                assert(s0.take(0) =~= Seq::<GraphValue>::empty());
                lemma_fold_empty(GraphOp::Plus, env);
                lemma_wrap32(0, 0);
            }
        }
    }
    let mut src = s;
    let mut out: Vec<Value> = Vec::new();
    while src.len() > 0
        invariant
            out@.len() + src@.len() == s0.len(),
            src@ == s0.subrange(out@.len() as int, s0.len() as int),
            forall|i: int| 0 <= i < s0.len() ==> buildable(#[trigger] s0[i]),
            ok == (all_graphs_avoid(s0, t0) && all_products_nonempty(s0)),
            ok ==> forall|i: int| 0 <= i < s0.len() ==> graph_avoids(#[trigger] s0[i], t0) && products_nonempty(s0[i]),
            emitted(o0, output@, t0, *temp_number as nat),
            *temp_number as int + 6 * metrics_of(src@) + 6 * out@.len() <= t0 + 6 * metrics_of(s0),
            t0 + 6 * metrics_of(s0) <= u32::MAX,
            metrics_of(s0) == metrics_of(s@),
            no_float(out@),
            ok ==> operands_avoid(out@, *temp_number as nat),
            ok ==> forall|env: spec_fn(Seq<char>) -> int| cong(
                #[trigger] operands_fold(GraphOp::Plus, out@, run(added(o0, output@), env)),
                fold_values(GraphOp::Plus, s0.take(out@.len() as int), env)),
        decreases src@.len(),
    {
        let ghost p = out@.len() as int;
        let ghost sb = src@;
        let ghost ob = output@;
        let ghost tb = *temp_number as nat;
        let ghost outb = out@;
        let x = src.remove(0);
        let ghost gx = x;
        proof {
            assert(gx == s0[p]);
            assert(sb =~= src@.insert(0, gx));
            lemma_metrics_insert(src@, 0, gx);
            lemma_metric_le(s0, p);
            lemma_metrics_len(src@);
            assert(src@ =~= s0.subrange(p + 1, s0.len() as int));
            if ok {
                lemma_graph_avoids_mono(gx, t0, tb);
            }
        }
        let b = build_providing_value(x, temp_number, output);
        out.push(b);
        proof {
            lemma_emitted_trans(o0, ob, output@, t0, tb, *temp_number as nat);
            assert(no_float(out@)) by {
                assert forall|i: int| 0 <= i < out@.len() implies !(#[trigger] out@[i] is Float) by {
                    if i < p {
                        assert(out@[i] == outb[i]);
                    }
                }
            }
            if ok {
                let tn = *temp_number as nat;
                assert forall|i: int| 0 <= i < out@.len() implies #[trigger] operand_avoids(out@[i], tn) by {
                    if i < p {
                        assert(out@[i] == outb[i]);
                        assert(operand_avoids(outb[i], tb));
                        if outb[i] is Temp {
                            lemma_avoids_mono(outb[i]->Temp_0.name@, tb, tn);
                        }
                    }
                }
                assert forall|env: spec_fn(Seq<char>) -> int| cong(
                    #[trigger] operands_fold(GraphOp::Plus, out@, run(added(o0, output@), env)),
                    fold_values(GraphOp::Plus, s0.take(p + 1), env)) by {
                    let eb = run(added(o0, ob), env);
                    let ea = run(added(o0, output@), env);
                    assert(ea == run(added(ob, output@), eb));
                    lemma_fresh_agree(added(ob, output@), tb, eb);
                    lemma_operands_frame(GraphOp::Plus, outb, tb, eb, ea);
                    lemma_operands_fold_push(GraphOp::Plus, outb, b, ea);
                    lemma_fresh_agree(added(o0, ob), t0, env);
                    lemma_val_frame(gx, t0, env, eb);
                    assert(cong(operand(b, ea), val_of(gx, eb)));
                    assert(s0.take(p + 1) =~= s0.take(p).push(gx));
                    lemma_fold_push(GraphOp::Plus, s0.take(p), gx, env);
                    lemma_cong_add(operands_fold(GraphOp::Plus, outb, eb), fold_values(GraphOp::Plus, s0.take(p), env),
                        operand(b, ea), val_of(gx, env));
                }
            }
        }
    }
    proof {
        assert(s0.take(s0.len() as int) =~= s0);
    }
    out
}

/// Builds the operands of one group and sums each side: gives the side that
/// is left and its value (`true` for the positive side), or the positive
/// side minus the negative one, counted as positive.
fn solve_group(pos: Vec<GraphValue>, neg: Vec<GraphValue>, temp_number: &mut u32, output: &mut Vec<ArithInstr>)
    -> (r: Option<(bool, Value)>)
    requires
        all_buildable(pos@),
        all_buildable(neg@),
        *old(temp_number) as int + 6 * (metrics_of(pos@) + metrics_of(neg@)) <= u32::MAX,
    ensures
        r is None <==> pos@.len() + neg@.len() == 0,
        r matches Some((b, x)) ==> !(x is Float) && (b <==> pos@.len() > 0) && (pos@.len() + neg@.len() >= 2 ==> i32_temp(x)),
        emitted(old(output)@, final(output)@, *old(temp_number) as nat, *final(temp_number) as nat),
        *final(temp_number) as int + 5 * (pos@.len() + neg@.len()) + (if pos@.len() + neg@.len() > 0 { 1int } else { 0int })
            <= *old(temp_number) + 6 * (metrics_of(pos@) + metrics_of(neg@)),
        all_graphs_avoid(pos@, *old(temp_number) as nat) && all_products_nonempty(pos@)
            && all_graphs_avoid(neg@, *old(temp_number) as nat) && all_products_nonempty(neg@) ==>
            (r matches Some((b, x)) ==> operand_avoids(x, *final(temp_number) as nat)
                && forall|env: spec_fn(Seq<char>) -> int| cong(
                    #[trigger] operand(x, run(added(old(output)@, final(output)@), env)) * (if b { 1int } else { -1int }),
                    fold_values(GraphOp::Plus, pos@, env) - fold_values(GraphOp::Plus, neg@, env))),
    decreases metrics_of(pos@) + metrics_of(neg@), 4nat,
{
    let ghost t0 = *temp_number as nat;
    let ghost o0 = output@;
    let ghost ps = pos@;
    let ghost ns = neg@;
    let ghost ok = all_graphs_avoid(ps, t0) && all_products_nonempty(ps) && all_graphs_avoid(ns, t0) && all_products_nonempty(ns);
    proof {
        lemma_metrics_len(ps);
        lemma_metrics_len(ns);
    }
    let mut pos_values = build_all(pos, temp_number, output);
    let ghost o1 = output@;
    let ghost t1 = *temp_number as nat;
    let ghost pv1 = pos_values@;
    add_up_value(&mut pos_values, temp_number, output, GraphOp::Plus);
    let ghost o2 = output@;
    let ghost t2 = *temp_number as nat;
    let ghost pv2 = pos_values@;
    proof {
        lemma_emitted_trans(o0, o1, o2, t0, t1, t2);
        if ok {
            lemma_all_graphs_avoid(ns, t0);
            lemma_all_graphs_avoid(ns, t2);
            assert forall|i: int| 0 <= i < ns.len() implies graph_avoids(#[trigger] ns[i], t2) by {
                lemma_graph_avoids_mono(ns[i], t0, t2);
            }
        }
    }
    let mut neg_values = build_all(neg, temp_number, output);
    let ghost o3 = output@;
    let ghost t3 = *temp_number as nat;
    let ghost nv3 = neg_values@;
    add_up_value(&mut neg_values, temp_number, output, GraphOp::Plus);
    let ghost o4 = output@;
    let ghost t4 = *temp_number as nat;
    let ghost nv4 = neg_values@;
    proof {
        lemma_emitted_trans(o0, o2, o3, t0, t2, t3);
        lemma_emitted_trans(o0, o3, o4, t0, t3, t4);
    }
    let pl = pos_values.pop();
    let nl = neg_values.pop();
    proof {
        if ok {
            assert forall|env: spec_fn(Seq<char>) -> int| #![trigger run(added(o0, o4), env)]
                (pl matches Some(p) ==> cong(operand(p, run(added(o0, o4), env)), fold_values(GraphOp::Plus, ps, env)))
                && (pl is None ==> fold_values(GraphOp::Plus, ps, env) == 0)
                && (nl matches Some(n) ==> cong(operand(n, run(added(o0, o4), env)), fold_values(GraphOp::Plus, ns, env)))
                && (nl is None ==> fold_values(GraphOp::Plus, ns, env) == 0) by {
                let e1 = run(added(o0, o1), env);
                let e2 = run(added(o1, o2), e1);
                let e3 = run(added(o2, o3), e2);
                let e4 = run(added(o3, o4), e3);
                assert(run(added(o0, o2), env) == e2);
                assert(run(added(o0, o4), env) == e4);
                lemma_fresh_agree(added(o2, o3), t2, e2);
                lemma_fresh_agree(added(o3, o4), t3, e3);
                lemma_agree_trans(e2, e3, e4, t2, t3);
                if pv2.len() == 1 {
                    assert(pv2 =~= seq![pl->0]);
                    lemma_operands_fold_single(GraphOp::Plus, pl->0, e2);
                    assert(operand_avoids(pv2[0], t2));
                    lemma_operands_frame(GraphOp::Plus, pv2, t2, e2, e4);
                } else {
                    assert(ps.len() == 0);
                    lemma_fold_empty(GraphOp::Plus, env);
                }
                lemma_fresh_agree(added(o0, o2), t0, env);
                if nv4.len() == 1 {
                    assert(nv4 =~= seq![nl->0]);
                    lemma_operands_fold_single(GraphOp::Plus, nl->0, e4);
                    assert forall|j: int| 0 <= j < ns.len() implies val_of(#[trigger] ns[j], e2) == val_of(ns[j], env) by {
                        lemma_val_frame(ns[j], t0, env, e2);
                    }
                    crate::simplify::lemma_fold_pointwise_envs(GraphOp::Plus, ns, ns, e2, env);
                    lemma_all_graphs_avoid(ns, t0);
                    assert(cong(operands_fold(GraphOp::Plus, nv3, e3), fold_values(GraphOp::Plus, ns, e2)));
                    lemma_cong_trans(operand(nl->0, e4), operands_fold(GraphOp::Plus, nv3, e3), fold_values(GraphOp::Plus, ns, env));
                } else {
                    assert(ns.len() == 0);
                    lemma_fold_empty(GraphOp::Plus, env);
                }
            }
        }
    }
    match (pl, nl) {
        (None, None) => {
            None
        },
        (None, Some(n)) => {
            proof {
                if ok {
                    assert(operand_avoids(nv4[0], t4));
                    assert forall|env: spec_fn(Seq<char>) -> int| cong(
                        #[trigger] operand(n, run(added(o0, output@), env)) * (if false { 1int } else { -1int }),
                        fold_values(GraphOp::Plus, ps, env) - fold_values(GraphOp::Plus, ns, env)) by {
                        let e = run(added(o0, output@), env);
                        lemma_cong_add(0, fold_values(GraphOp::Plus, ps, env), operand(n, e), fold_values(GraphOp::Plus, ns, env));
                    }
                }
            }
            Some((false, n))
        },
        (Some(p), None) => {
            proof {
                if ok {
                    assert(operand_avoids(pv2[0], t2));
                    if p is Temp {
                        lemma_avoids_mono(p->Temp_0.name@, t2, t4);
                    }
                    assert forall|env: spec_fn(Seq<char>) -> int| cong(
                        #[trigger] operand(p, run(added(o0, output@), env)) * (if true { 1int } else { -1int }),
                        fold_values(GraphOp::Plus, ps, env) - fold_values(GraphOp::Plus, ns, env)) by {
                    }
                }
            }
            Some((true, p))
        },
        (Some(p), Some(n)) => {
            let ghost gp = p;
            let ghost gn = n;
            let ghost o5b = output@;
            let d = emit_op(ArithOp::Sub, p, n, temp_number, output);
            proof {
                lemma_emitted_trans(o0, o4, output@, t0, t4, *temp_number as nat);
                if ok {
                    assert forall|env: spec_fn(Seq<char>) -> int| cong(
                        #[trigger] operand(d, run(added(o0, output@), env)) * (if true { 1int } else { -1int }),
                        fold_values(GraphOp::Plus, ps, env) - fold_values(GraphOp::Plus, ns, env)) by {
                        let e4 = run(added(o0, o4), env);
                        let e5 = run(added(o0, output@), env);
                        assert(e5 == run(added(o4, output@), e4));
                        let a = operand(gp, e4);
                        let b = operand(gn, e4);
                        assert(operand(d, e5) == crate::rearrange::instr_result(ArithOp::Sub, a, b));
                        lemma_wrap32(a - b, 0);
                        lemma_cong_add(a, fold_values(GraphOp::Plus, ps, env), b, fold_values(GraphOp::Plus, ns, env));
                        lemma_cong_trans(operand(d, e5), a - b, fold_values(GraphOp::Plus, ps, env) - fold_values(GraphOp::Plus, ns, env));
                    }
                }
            }
            Some((true, d))
        },
    }
}

pub proof fn lemma_groups_metric_nonneg(gs: Seq<FactorGroup>)
    ensures
        groups_metric(gs) >= 0,
        groups_size(gs) >= 0,
    decreases gs.len(),
{
    if gs.len() > 0 {
        lemma_groups_metric_nonneg(gs.drop_last());
    }
}

/// Rewrites a sum of at least two operands as one value: splits each
/// operand into a sign, a factor and the rest, groups the rests by factor,
/// sums each group, multiplies the group sums by their factors and adds
/// them up. A shorter sum is kept.
fn add_const_rewirte(v: Vec<GraphValue>, temp_number: &mut u32, output: &mut Vec<ArithInstr>) -> (r: Vec<GraphValue>)
    requires
        forall|i: int| 0 <= i < v@.len() ==> extract_const_ok(#[trigger] v@[i]),
        all_buildable(v@),
        *old(temp_number) as int + 6 * metrics_of(v@) + 60 <= u32::MAX,
    ensures
        v@.len() < 2 ==> r@ == v@ && final(output)@ == old(output)@ && *final(temp_number) == *old(temp_number),
        v@.len() >= 2 ==> r@.len() == 1 && r@[0] is Single,
        emitted(old(output)@, final(output)@, *old(temp_number) as nat, *final(temp_number) as nat),
        *final(temp_number) as int <= *old(temp_number) + 6 * metrics_of(v@),
        all_graphs_avoid(v@, *old(temp_number) as nat) && all_products_nonempty(v@) ==>
            all_graphs_avoid(r@, *final(temp_number) as nat)
            && forall|env: spec_fn(Seq<char>) -> int| cong(
                #[trigger] fold_values(GraphOp::Plus, r@, run(added(old(output)@, final(output)@), env)),
                fold_values(GraphOp::Plus, v@, env)),
    decreases 10 + metrics_of(v@), 1nat,
{
    let ghost t0 = *temp_number as nat;
    let ghost o0 = output@;
    let ghost vv = v@;
    let ghost ok = all_graphs_avoid(vv, t0) && all_products_nonempty(vv);
    if v.len() < 2 {
        proof {
            lemma_emitted_none(o0, t0);
            assert forall|env: spec_fn(Seq<char>) -> int| cong(
                #[trigger] fold_values(GraphOp::Plus, vv, run(added(o0, output@), env)),
                fold_values(GraphOp::Plus, vv, env)) by {
                lemma_wrap32(fold_values(GraphOp::Plus, vv, env), 0);
            }
        }
        return v;
    }
    let groups = group_by_factor(v);
    let ghost gall = groups@;
    let ghost n = vv.len() as int;
    let ghost m = metrics_of(vv);
    proof {
        lemma_emitted_none(o0, t0);
        assert(gall.subrange(0, gall.len() as int) =~= gall);
        assert(gall.take(0) =~= Seq::<FactorGroup>::empty());
    }
    let mut gs = groups;
    let mut solved_pos: Vec<(i32, Value)> = Vec::new();
    let mut solved_neg: Vec<(i32, Value)> = Vec::new();
    while gs.len() > 0
        invariant
            gs@ == gall.subrange(gall.len() - gs@.len(), gall.len() as int),
            gs@.len() <= gall.len(),
            forall|i: int| 0 <= i < gall.len() ==> group_size(#[trigger] gall[i]) >= 1,
            groups_size(gall) == n,
            n >= 2,
            groups_metric(gall) <= m,
            items_buildable(gall),
            ok ==> items_avoid(gall, t0) && items_nonempty(gall),
            ok == (all_graphs_avoid(vv, t0) && all_products_nonempty(vv)),
            forall|env: spec_fn(Seq<char>) -> int| #[trigger] groups_total(gall, env) == fold_values(GraphOp::Plus, vv, env),
            emitted(o0, output@, t0, *temp_number as nat),
            *temp_number as int + 6 * groups_metric(gs@) + 5 * (n - groups_size(gs@)) + solved_pos@.len() + solved_neg@.len()
                <= t0 + 6 * groups_metric(gall),
            solved_pos@.len() + solved_neg@.len() == gall.len() - gs@.len(),
            gall.len() - gs@.len() <= n - groups_size(gs@),
            t0 + 6 * m + 60 <= u32::MAX,
            m == metrics_of(v@),
            forall|i: int| 0 <= i < solved_pos@.len() ==> !(#[trigger] solved_pos@[i].1 is Float),
            forall|i: int| 0 <= i < solved_neg@.len() ==> !(#[trigger] solved_neg@[i].1 is Float),
            gall.len() == 1 ==> forall|i: int| 0 <= i < solved_pos@.len() ==> i32_temp(#[trigger] solved_pos@[i].1),
            gall.len() == 1 ==> forall|i: int| 0 <= i < solved_neg@.len() ==> i32_temp(#[trigger] solved_neg@[i].1),
            ok ==> scaled_avoid(solved_pos@, *temp_number as nat) && scaled_avoid(solved_neg@, *temp_number as nat),
            ok ==> forall|env: spec_fn(Seq<char>) -> int| cong(
                #[trigger] scaled_sum(solved_pos@, run(added(o0, output@), env)) - scaled_sum(solved_neg@, run(added(o0, output@), env)),
                groups_total(gall.take(gall.len() - gs@.len()), env)),
        decreases gs@.len(),
    {
        let ghost d = gall.len() - gs@.len();
        let ghost gsb = gs@;
        let ghost ob = output@;
        let ghost tb = *temp_number as nat;
        let ghost spb = solved_pos@;
        let ghost snb = solved_neg@;
        let g = gs.remove(0);
        let ghost gg = g;
        proof {
            assert(gg == gall[d]);
            assert(gsb =~= gs@.insert(0, gg));
            lemma_groups_sums_insert(gs@, 0, gg);
            lemma_groups_metric_nonneg(gs@);
            lemma_metrics_len(gg.pos@);
            lemma_metrics_len(gg.neg@);
            assert(gs@ =~= gall.subrange(d + 1, gall.len() as int));
            assert(gall.take(d + 1) =~= gall.take(d).push(gg));
            assert(gall.take(d + 1).drop_last() =~= gall.take(d));
            lemma_all_buildable(gg.pos@);
            lemma_all_buildable(gg.neg@);
            assert forall|j: int| 0 <= j < gg.pos@.len() implies buildable(#[trigger] gg.pos@[j]) by {
                assert(buildable(gall[d].pos@[j]));
            }
            assert forall|j: int| 0 <= j < gg.neg@.len() implies buildable(#[trigger] gg.neg@[j]) by {
                assert(buildable(gall[d].neg@[j]));
            }
            if ok {
                lemma_all_graphs_avoid(gg.pos@, tb);
                lemma_all_graphs_avoid(gg.neg@, tb);
                lemma_all_products_nonempty(gg.pos@);
                lemma_all_products_nonempty(gg.neg@);
                assert forall|j: int| 0 <= j < gg.pos@.len() implies graph_avoids(#[trigger] gg.pos@[j], tb)
                    && products_nonempty(gg.pos@[j]) by {
                    assert(graph_avoids(gall[d].pos@[j], t0));
                    assert(products_nonempty(gall[d].pos@[j]));
                    lemma_graph_avoids_mono(gg.pos@[j], t0, tb);
                }
                assert forall|j: int| 0 <= j < gg.neg@.len() implies graph_avoids(#[trigger] gg.neg@[j], tb)
                    && products_nonempty(gg.neg@[j]) by {
                    assert(graph_avoids(gall[d].neg@[j], t0));
                    assert(products_nonempty(gall[d].neg@[j]));
                    lemma_graph_avoids_mono(gg.neg@[j], t0, tb);
                }
            }
            if gall.len() == 1 {
                assert(gall =~= seq![gg]);
                assert(seq![gg].drop_last() =~= Seq::<FactorGroup>::empty());
                assert(groups_size(gall) == group_size(gg));
            }
        }
        let FactorGroup { times, pos, neg } = g;
        let solved = solve_group(pos, neg, temp_number, output);
        let ghost ta = *temp_number as nat;
        proof {
            lemma_emitted_trans(o0, ob, output@, t0, tb, ta);
        }
        match solved {
            Some((true, x)) => {
                solved_pos.push((times, x));
            },
            Some((false, x)) => {
                solved_neg.push((times, x));
            },
            None => {},
        }
        proof {
            assert(forall|i: int| 0 <= i < spb.len() ==> solved_pos@[i] == spb[i]);
            assert(forall|i: int| 0 <= i < snb.len() ==> solved_neg@[i] == snb[i]);
            if ok {
                let tn = *temp_number as nat;
                assert forall|i: int| 0 <= i < solved_pos@.len() implies operand_avoids(#[trigger] solved_pos@[i].1, tn) by {
                    if i < spb.len() {
                        assert(operand_avoids(spb[i].1, tb));
                        if spb[i].1 is Temp {
                            lemma_avoids_mono(spb[i].1->Temp_0.name@, tb, tn);
                        }
                    }
                }
                assert forall|i: int| 0 <= i < solved_neg@.len() implies operand_avoids(#[trigger] solved_neg@[i].1, tn) by {
                    if i < snb.len() {
                        assert(operand_avoids(snb[i].1, tb));
                        if snb[i].1 is Temp {
                            lemma_avoids_mono(snb[i].1->Temp_0.name@, tb, tn);
                        }
                    }
                }
                assert forall|env: spec_fn(Seq<char>) -> int| cong(
                    #[trigger] scaled_sum(solved_pos@, run(added(o0, output@), env)) - scaled_sum(solved_neg@, run(added(o0, output@), env)),
                    groups_total(gall.take(d + 1), env)) by {
                    let eb = run(added(o0, ob), env);
                    let ea = run(added(o0, output@), env);
                    assert(ea == run(added(ob, output@), eb));
                    lemma_fresh_agree(added(ob, output@), tb, eb);
                    lemma_scaled_frame(spb, tb, eb, ea);
                    lemma_scaled_frame(snb, tb, eb, ea);
                    let fp = fold_values(GraphOp::Plus, gg.pos@, eb);
                    let fn_ = fold_values(GraphOp::Plus, gg.neg@, eb);
                    // the group's operands do not see what earlier groups wrote
                    lemma_fresh_agree(added(o0, ob), t0, env);
                    lemma_all_graphs_avoid(gg.pos@, t0);
                    lemma_all_graphs_avoid(gg.neg@, t0);
                    assert forall|j: int| 0 <= j < gg.pos@.len() implies val_of(#[trigger] gg.pos@[j], eb) == val_of(gg.pos@[j], env) by {
                        assert(graph_avoids(gall[d].pos@[j], t0));
                        lemma_val_frame(gg.pos@[j], t0, env, eb);
                    }
                    assert forall|j: int| 0 <= j < gg.neg@.len() implies val_of(#[trigger] gg.neg@[j], eb) == val_of(gg.neg@[j], env) by {
                        assert(graph_avoids(gall[d].neg@[j], t0));
                        lemma_val_frame(gg.neg@[j], t0, env, eb);
                    }
                    crate::simplify::lemma_fold_pointwise_envs(GraphOp::Plus, gg.pos@, gg.pos@, eb, env);
                    crate::simplify::lemma_fold_pointwise_envs(GraphOp::Plus, gg.neg@, gg.neg@, eb, env);
                    let gvv = group_value(gg, env);
                    assert(gvv == times * (fp - fn_));
                    let prev = scaled_sum(spb, eb) - scaled_sum(snb, eb);
                    assert(cong(prev, groups_total(gall.take(d), env)));
                    assert(groups_total(gall.take(d + 1), env) == groups_total(gall.take(d), env) + gvv);
                    match solved {
                        Some((b, x)) => {
                            let xv = operand(x, ea);
                            assert(cong(xv * (if b { 1int } else { -1int }), fp - fn_));
                            lemma_wrap32(times as int, 0);
                            lemma_cong_mul(times as int, times as int, xv * (if b { 1int } else { -1int }), fp - fn_);
                            if b {
                                lemma_scaled_sum_push(spb, (times, x), ea);
                                assert(times * (xv * 1) == times * xv) by (nonlinear_arith);
                            } else {
                                lemma_scaled_sum_push(snb, (times, x), ea);
                                assert(times * (xv * -1) == -(times * xv)) by (nonlinear_arith);
                            }
                            lemma_cong_add(prev, groups_total(gall.take(d), env), times * (xv * (if b { 1int } else { -1int })), times * (fp - fn_));
                        },
                        None => {
                            assert(gg.pos@.len() == 0 && gg.neg@.len() == 0);
                        },
                    }
                }
            }
        }
    }
    proof {
        assert(gall.take(gall.len() as int) =~= gall);
        if gall.len() == 1 {
            assert(solved_pos@.len() + solved_neg@.len() == 1);
        }
    }
    let ghost spf = solved_pos@;
    let ghost snf = solved_neg@;
    let ghost o6 = output@;
    let ghost t6 = *temp_number as nat;
    let result = sum_parts(solved_pos, solved_neg, temp_number, output);
    proof {
        lemma_emitted_trans(o0, o6, output@, t0, t6, *temp_number as nat);
        assert(spf.len() + snf.len() >= 2 || gall.len() == 1);
        assert(i32_temp(result));
    }
    let gv = GraphValue::from_value(result).unwrap();
    let ghost g1 = gv;
    let mut r: Vec<GraphValue> = Vec::new();
    r.push(gv);
    proof {
        if ok {
            let tn = *temp_number as nat;
            assert(graph_avoids(g1, tn));
            lemma_all_graphs_avoid(r@, tn);
            assert forall|env: spec_fn(Seq<char>) -> int| cong(
                #[trigger] fold_values(GraphOp::Plus, r@, run(added(o0, output@), env)),
                fold_values(GraphOp::Plus, vv, env)) by {
                let e6 = run(added(o0, o6), env);
                let e7 = run(added(o0, output@), env);
                assert(e7 == run(added(o6, output@), e6));
                assert(r@ =~= seq![g1]);
                crate::compute_graph::lemma_fold_single(GraphOp::Plus, g1, e7);
                assert(val_of(g1, e7) == operand(result, e7));
                assert(cong(operand(result, e7), scaled_sum(spf, e6) - scaled_sum(snf, e6)));
                lemma_cong_trans(operand(result, e7), scaled_sum(spf, e6) - scaled_sum(snf, e6), fold_values(GraphOp::Plus, vv, env));
            }
        }
    }
    r
}

/// Builds instructions that compute a graph value and gives the operand
/// that holds it: a literal or a temporary stays as it is; a sum or product
/// has its operands built (a sum is first rewritten by
/// `add_const_rewirte`), in sorted order, equal operands once, and added up
/// in pairs.
pub(crate) fn build_providing_value(value: GraphValue, temp_number: &mut u32, output: &mut Vec<ArithInstr>) -> (r: Value)
    requires
        buildable(value),
        *old(temp_number) as int + 6 * metric_of(value) <= u32::MAX,
    ensures
        !(r is Float),
        emitted(old(output)@, final(output)@, *old(temp_number) as nat, *final(temp_number) as nat),
        *final(temp_number) as int + 6 <= *old(temp_number) + 6 * metric_of(value),
        graph_avoids(value, *old(temp_number) as nat) && products_nonempty(value) ==>
            operand_avoids(r, *final(temp_number) as nat)
            && forall|env: spec_fn(Seq<char>) -> int| cong(
                #[trigger] operand(r, run(added(old(output)@, final(output)@), env)), val_of(value, env)),
    decreases metric_of(value), 2nat,
{
    let ghost t0 = *temp_number as nat;
    let ghost o0 = output@;
    let ghost gval = value;
    let ghost ok = graph_avoids(value, t0) && products_nonempty(value);
    proof {
        lemma_emitted_none(o0, t0);
    }
    match value {
        GraphValue::Single(Single::Int(i)) => {
            proof {
                lemma_wrap32(i as int, 0);
            }
            Value::Int(i)
        },
        GraphValue::Single(Single::Temp(t)) => {
            proof {
                assert forall|env: spec_fn(Seq<char>) -> int| cong(
                    #[trigger] operand(Value::Temp(t), run(added(o0, output@), env)), val_of(gval, env)) by {
                    lemma_wrap32(env(t.name@), 0);
                }
            }
            Value::Temp(t)
        },
        GraphValue::NonTrival((op, v)) => {
            let ghost vv = v@;
            let ghost mm = metrics_of(vv);
            proof {
                lemma_all_buildable(vv);
                lemma_all_graphs_avoid(vv, t0);
                lemma_all_products_nonempty(vv);
                lemma_metrics_len(vv);
                assert(forall|i: int| 0 <= i < vv.len() ==> metric_of(#[trigger] vv[i]) <= mm) by {
                    assert forall|i: int| 0 <= i < vv.len() implies metric_of(#[trigger] vv[i]) <= mm by {
                        lemma_metric_le(vv, i);
                    }
                }
                assert forall|env: spec_fn(Seq<char>) -> int| #[trigger] val_of(gval, env) == fold_values(op, vv, env) by {}
            }
            let v2 = match op {
                GraphOp::Plus => add_const_rewirte(v, temp_number, output),
                GraphOp::Mul => v,
            };
            let ghost g2 = v2@;
            let ghost o1 = output@;
            let ghost t1 = *temp_number as nat;
            proof {
                lemma_emitted_none(o1, t1);
                // what holds of the operands to build
                assert forall|i: int| 0 <= i < g2.len() implies buildable(#[trigger] g2[i]) && metric_of(g2[i]) <= mm
                    && (ok ==> graph_avoids(g2[i], t1) && products_nonempty(g2[i])) by {
                    if op == GraphOp::Plus && vv.len() >= 2 {
                        assert(g2[i] is Single);
                        if ok {
                            lemma_all_graphs_avoid(g2, t1);
                        }
                    } else {
                        assert(g2[i] == vv[i]);
                    }
                }
                lemma_metrics_len(g2);
                if op == GraphOp::Plus && vv.len() >= 2 {
                    assert(g2 =~= Seq::<GraphValue>::empty().push(g2[0]));
                    lemma_metrics_push(Seq::<GraphValue>::empty(), g2[0]);
                    assert(metrics_of(Seq::<GraphValue>::empty()) == 0);
                    assert(metrics_of(g2) == 1);
                }
                assert(t1 as int + 6 * metrics_of(g2) <= t0 + 6 * mm + 6);
                if ok {
                    assert forall|env: spec_fn(Seq<char>) -> int| cong(
                        #[trigger] fold_values(op, g2, run(added(o0, o1), env)), val_of(gval, env)) by {
                        if op == GraphOp::Mul {
                            lemma_wrap32(fold_values(op, vv, env), 0);
                        }
                    }
                }
            }
            let ss = sort_graphs(v2);
            let ghost sq = ss@;
            let ghost sq_len = ss.len();
            let mut src = ss;
            let mut values: Vec<Value> = Vec::new();
            proof {
                assert forall|i: int| 0 <= i < sq.len() implies buildable(#[trigger] sq[i]) && metric_of(sq[i]) <= mm
                    && (ok ==> graph_avoids(sq[i], t1) && products_nonempty(sq[i])) by {
                    assert(g2.contains(sq[i]));
                }
                assert(sq.subrange(0, sq.len() as int) =~= sq);
            }
            while src.len() > 0
                invariant
                    values@.len() + src@.len() == sq.len(),
                    sq.len() == sq_len,
                    src@ == sq.subrange(values@.len() as int, sq.len() as int),
                    forall|i: int| 0 <= i < sq.len() ==> buildable(#[trigger] sq[i]) && metric_of(sq[i]) <= mm
                        && (ok ==> graph_avoids(sq[i], t1) && products_nonempty(sq[i])),
                    mm == metrics_of(vv),
                    metric_of(gval) == 10 + mm,
                    metric_of(value) == 10 + mm,
                    emitted(o1, output@, t1, *temp_number as nat),
                    *temp_number as int + 6 * metrics_of(src@) + 6 * values@.len() <= t1 + 6 * metrics_of(sq),
                    t1 + 6 * metrics_of(sq) <= u32::MAX,
                    no_float(values@),
                    ok ==> operands_avoid(values@, *temp_number as nat),
                    ok ==> forall|env: spec_fn(Seq<char>) -> int, i: int| 0 <= i < values@.len() ==> cong(
                        #[trigger] operand(values@[i], run(added(o1, output@), env)), val_of(sq[i], env)),
                decreases src@.len(),
            {
                let ghost p = values@.len() as int;
                let ghost sb = src@;
                let ghost ob = output@;
                let ghost tb = *temp_number as nat;
                let ghost vb = values@;
                let current = src.remove(0);
                let ghost gc = current;
                proof {
                    assert(gc == sq[p]);
                    assert(sb =~= src@.insert(0, gc));
                    lemma_metrics_insert(src@, 0, gc);
                    assert(src@ =~= sq.subrange(p + 1, sq.len() as int));
                }
                let mut cnt: usize = 0;
                while src.len() > 0 && graph_eq(&src[0], &current)
                    invariant
                        0 <= p,
                        sq.len() == sq_len,
                        p + 1 + cnt <= sq.len(),
                        src@ == sq.subrange(p + 1 + cnt, sq.len() as int),
                        forall|j: int| p < j < p + 1 + cnt ==> term_of(#[trigger] sq[j]) == term_of(gc),
                        metrics_of(src@) + cnt <= metrics_of(sq.subrange(p + 1, sq.len() as int)),
                        current == gc,
                    decreases src@.len(),
                {
                    let ghost s2 = src@;
                    let y = src.remove(0);
                    proof {
                        assert(s2[0] == y);
                        assert(s2 == sq.subrange(p + 1 + cnt, sq.len() as int));
                        assert(s2 =~= src@.insert(0, y));
                        lemma_metrics_insert(src@, 0, y);
                        lemma_metric_pos(y);
                        assert(y == sq[p + 1 + cnt]);
                        assert(src@ =~= sq.subrange(p + 2 + cnt, sq.len() as int));
                    }
                    cnt = cnt + 1;
                }
                proof {
                    if ok {
                        lemma_graph_avoids_mono(gc, t1, tb);
                    }
                }
                let bv = build_providing_value(current, temp_number, output);
                let ghost obv = output@;
                let ghost tbv = *temp_number as nat;
                let mut c: usize = 0;
                while c < cnt
                    invariant
                        0 <= p,
                        c <= cnt,
                        values@.len() == p + c,
                        forall|j: int| 0 <= j < p ==> #[trigger] values@[j] == vb[j],
                        forall|j: int| p <= j < p + c ==> #[trigger] values@[j] == bv,
                    decreases cnt - c,
                {
                    let ghost vb2 = values@;
                    values.push(dup_value(&bv));
                    proof {
                        assert(values@ == vb2.push(bv));
                    }
                    c = c + 1;
                }
                values.push(bv);
                proof {
                    lemma_emitted_trans(o1, ob, output@, t1, tb, *temp_number as nat);
                    assert(no_float(values@)) by {
                        assert forall|j: int| 0 <= j < values@.len() implies !(#[trigger] values@[j] is Float) by {
                            if j < p {
                                assert(values@[j] == vb[j]);
                            }
                        }
                    }
                    if ok {
                        let tn = *temp_number as nat;
                        assert forall|j: int| 0 <= j < values@.len() implies #[trigger] operand_avoids(values@[j], tn) by {
                            if j < p {
                                assert(values@[j] == vb[j]);
                                assert(operand_avoids(vb[j], tb));
                                if vb[j] is Temp {
                                    lemma_avoids_mono(vb[j]->Temp_0.name@, tb, tn);
                                }
                            }
                        }
                        assert forall|env: spec_fn(Seq<char>) -> int, i: int| 0 <= i < values@.len() implies cong(
                            #[trigger] operand(values@[i], run(added(o1, output@), env)), val_of(sq[i], env)) by {
                            let eb = run(added(o1, ob), env);
                            let ea = run(added(o1, output@), env);
                            assert(ea == run(added(ob, output@), eb));
                            if i < p {
                                assert(values@[i] == vb[i]);
                                lemma_fresh_agree(added(ob, output@), tb, eb);
                                lemma_operands_frame(op, vb, tb, eb, ea);
                                assert(cong(operand(vb[i], eb), val_of(sq[i], env)));
                            } else {
                                assert(values@[i] == bv);
                                assert(val_of(sq[i], env) == val_of(gc, env));
                                lemma_fresh_agree(added(o1, ob), t1, env);
                                lemma_val_frame(gc, t1, env, eb);
                                assert(cong(operand(bv, ea), val_of(gc, eb)));
                            }
                        }
                    }
                }
            }
            let ghost o2 = output@;
            let ghost t2 = *temp_number as nat;
            let ghost vl = values@;
            proof {
                assert(sq.subrange(sq.len() as int, sq.len() as int) =~= Seq::<GraphValue>::empty());
            }
            add_up_value(&mut values, temp_number, output, op);
            let ghost o3 = output@;
            let ghost t3 = *temp_number as nat;
            let ghost vf = values@;
            proof {
                lemma_emitted_trans(o1, o2, o3, t1, t2, t3);
                lemma_emitted_trans(o0, o1, o3, t0, t1, t3);
                lemma_metrics_len(sq);
            }
            let r = if values.len() == 1 {
                values.pop().unwrap()
            } else {
                Value::Int(0)
            };
            proof {
                if ok {
                    assert forall|env: spec_fn(Seq<char>) -> int| cong(
                        #[trigger] operand(r, run(added(o0, o3), env)), val_of(gval, env)) by {
                        let e1 = run(added(o0, o1), env);
                        let e2 = run(added(o1, o2), e1);
                        let e3 = run(added(o2, o3), e2);
                        assert(run(added(o1, o3), e1) == e3);
                        assert(run(added(o0, o3), env) == e3);
                        lemma_fold_cong_pointwise(op, vl, sq, e2, e1);
                        assert(fold_values(op, sq, e1) == fold_values(op, g2, e1));
                        assert(cong(operands_fold(op, vf, e3), operands_fold(op, vl, e2)));
                        if vf.len() == 1 {
                            assert(vf =~= seq![r]);
                            lemma_operands_fold_single(op, r, e3);
                        } else {
                            assert(vl.len() == 0);
                            assert(sq.len() == 0);
                            assert(g2.len() == 0);
                            assert(op == GraphOp::Plus);
                            lemma_fold_empty(op, e1);
                            lemma_wrap32(0, 0);
                        }
                        lemma_cong_trans(operand(r, e3), operands_fold(op, vl, e2), fold_values(op, g2, e1));
                        lemma_cong_trans(operand(r, e3), fold_values(op, g2, e1), val_of(gval, env));
                    }
                }
            }
            r
        },
    }
}

/// What an instruction stores is an `i32`.
pub proof fn lemma_instr_result_range(op: ArithOp, a: int, b: int)
    ensures
        -0x8000_0000 <= crate::rearrange::instr_result(op, a, b) < 0x8000_0000,
{
    lemma_wrap32(a + b, 0);
    lemma_wrap32(a - b, 0);
    lemma_wrap32(a * b, 0);
}

fn same_temp(a: &LlvmTemp, b: &LlvmTemp) -> (r: bool)
    ensures
        r == (a.name@ == b.name@ && a.is_global == b.is_global && a.var_type == b.var_type),
{
    a.name == b.name && a.is_global == b.is_global && a.var_type == b.var_type
}

/// Builds instructions that leave the value of `value` in `target`: the
/// instruction that writes the providing temporary, where it is the last
/// one, writes `target` instead; otherwise `target = operand + 0` follows.
pub fn build_instr(value: GraphValue, temp_number: &mut u32, output: &mut Vec<ArithInstr>, target: LlvmTemp)
    requires
        buildable(value),
        *old(temp_number) as int + 6 * metric_of(value) <= u32::MAX,
    ensures
        final(output)@.len() >= old(output)@.len(),
        final(output)@.len() > 0,
        forall|i: int| 0 <= i < old(output)@.len() - 1 ==> #[trigger] final(output)@[i] == old(output)@[i],
        final(output)@.last().target == target,
        *old(temp_number) <= *final(temp_number),
        *final(temp_number) as int + 6 <= *old(temp_number) + 6 * metric_of(value),
        graph_avoids(value, *old(temp_number) as nat) && products_nonempty(value) ==>
            forall|env: spec_fn(Seq<char>) -> int| #[trigger] run(final(output)@, env)(target.name@)
                == crate::rearrange::wrap32(val_of(value, run(old(output)@, env))),
{
    let ghost t0 = *temp_number as nat;
    let ghost o0 = output@;
    let ghost gval = value;
    let ghost ok = graph_avoids(value, t0) && products_nonempty(value);
    let provided = build_providing_value(value, temp_number, output);
    let ghost o1 = output@;
    let ghost gp = provided;
    proof {
        assert(o1 =~= o0 + added(o0, o1));
        assert forall|env: spec_fn(Seq<char>) -> int| #[trigger] run(o1, env) == run(added(o0, o1), run(o0, env)) by {
            lemma_run_append(o0, added(o0, o1), env);
        }
    }
    let retarget = match &provided {
        Value::Temp(t) => output.len() > 0 && same_temp(&output[output.len() - 1].target, t),
        _ => false,
    };
    if retarget {
        let last = output.pop().unwrap();
        let ghost gl = last;
        output.push(ArithInstr { target, op: last.op, var_type: last.var_type, lhs: last.lhs, rhs: last.rhs });
        proof {
            let t = gp->Temp_0;
            assert(gl == o1.last());
            assert(gl.target.name@ == t.name@);
            if ok {
                assert forall|env: spec_fn(Seq<char>) -> int| #[trigger] run(output@, env)(target.name@)
                    == crate::rearrange::wrap32(val_of(gval, run(o0, env))) by {
                    let pre = run(o1.drop_last(), env);
                    assert(output@.drop_last() =~= o1.drop_last());
                    assert(run(o1, env) == step(pre, gl));
                    let x = crate::rearrange::instr_result(gl.op, operand(gl.lhs, pre), operand(gl.rhs, pre));
                    assert(run(output@, env)(target.name@) == x);
                    assert(run(o1, env)(t.name@) == x);
                    assert(cong(operand(gp, run(added(o0, o1), run(o0, env))), val_of(gval, run(o0, env))));
                    lemma_instr_result_range(gl.op, operand(gl.lhs, pre), operand(gl.rhs, pre));
                    lemma_wrap32(x, val_of(gval, run(o0, env)));
                }
            }
            assert forall|i: int| 0 <= i < o0.len() - 1 implies #[trigger] output@[i] == o0[i] by {
                assert(output@[i] == o1[i]);
                assert(o1[i] == o0[i]);
            }
        }
    } else {
        output.push(ArithInstr { target, op: ArithOp::Add, var_type: VarType::I32, lhs: provided, rhs: Value::Int(0) });
        proof {
            let ins = ArithInstr { target, op: ArithOp::Add, var_type: VarType::I32, lhs: gp, rhs: Value::Int(0) };
            assert(output@.last() == ins);
            assert(output@.drop_last() =~= o1);
            if ok {
                assert forall|env: spec_fn(Seq<char>) -> int| #[trigger] run(output@, env)(target.name@)
                    == crate::rearrange::wrap32(val_of(gval, run(o0, env))) by {
                    let e1 = run(o1, env);
                    assert(run(output@, env) == step(e1, ins));
                    let a = operand(gp, e1);
                    assert(cong(a, val_of(gval, run(o0, env))));
                    lemma_wrap32(a + 0, val_of(gval, run(o0, env)));
                }
            }
            assert forall|i: int| 0 <= i < o0.len() - 1 implies #[trigger] output@[i] == o0[i] by {
                assert(output@[i] == o1[i]);
                assert(o1[i] == o0[i]);
            }
        }
    }
}

} // verus!
