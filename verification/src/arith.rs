use vstd::prelude::*;
use crate::compute_graph::{
    fold_values, lemma_fold_empty, lemma_fold_push, metrics_of, val_of, GraphOp, GraphValue, Single,
};
use crate::emit::{
    all_buildable, all_graphs_avoid, all_products_nonempty, buildable, graph_avoids, lemma_all_buildable,
    lemma_all_graphs_avoid, lemma_all_products_nonempty, lemma_metrics_push, lemma_rest_shrinks, products_nonempty,
};

verus! {

/// The product of the first `k` integer-literal operands of `s`.
pub open spec fn literal_product(s: Seq<GraphValue>, k: int) -> int
    decreases k,
{
    if k <= 0 || s.len() == 0 {
        1
    } else {
        let p = literal_product(s, k - 1);
        match s[k - 1] {
            GraphValue::Single(Single::Int(i)) => p * i,
            _ => p,
        }
    }
}

/// The operands of `s` that are not integer literals, in order, among the first `k`.
pub open spec fn non_literals(s: Seq<GraphValue>, k: int) -> Seq<GraphValue>
    decreases k,
{
    if k <= 0 || s.len() == 0 {
        Seq::empty()
    } else {
        let p = non_literals(s, k - 1);
        match s[k - 1] {
            GraphValue::Single(Single::Int(_)) => p,
            _ => p.push(s[k - 1]),
        }
    }
}

/// Multiplying out the literal factors never leaves the range of `i32`.
pub open spec fn literal_products_fit(s: Seq<GraphValue>) -> bool {
    forall|k: int| 0 <= k <= s.len() ==> i32::MIN <= #[trigger] literal_product(s, k) <= i32::MAX
}

/// What `extract_const` needs of its argument: where it is a product, its
/// literal factors multiply out within `i32`, and where that product is
/// negative next to other factors, its negation fits too.
pub open spec fn extract_const_ok(value: GraphValue) -> bool {
    match value {
        GraphValue::NonTrival((GraphOp::Mul, v)) => literal_products_fit(v@)
            && (non_literals(v@, v@.len() as int).len() > 0 ==> literal_product(v@, v@.len() as int) != i32::MIN),
        _ => true,
    }
}

/// Splits a product into a sign, a positive literal factor and the rest:
/// `(pos, times, rest)` with `value == ±times * rest`. A product without
/// other factors, or with a zero literal product, becomes the literal.
pub fn extract_const(value: GraphValue) -> (r: (bool, i32, GraphValue))
    requires
        extract_const_ok(value),
    ensures
        r.1 >= 1,
        forall|env: spec_fn(Seq<char>) -> int| #[trigger] val_of(value, env)
            == (if r.0 { r.1 as int } else { -r.1 }) * val_of(r.2, env),
        !(value matches GraphValue::NonTrival((GraphOp::Mul, _))) ==> r == (true, 1i32, value),
        value matches GraphValue::NonTrival((GraphOp::Mul, v)) ==> ({
            let p = literal_product(v@, v@.len() as int);
            let rest = non_literals(v@, v@.len() as int);
            if rest.len() == 0 {
                r == (true, 1i32, GraphValue::Single(Single::Int(p as i32)))
            } else if p == 0 {
                r == (true, 1i32, GraphValue::Single(Single::Int(0)))
            } else {
                &&& r.0 == (p > 0)
                &&& r.1 == (if p > 0 { p } else { -p })
                &&& r.2 matches GraphValue::NonTrival((GraphOp::Mul, w)) && w@ == rest
            }
        }),
{
    let ghost v0 = value;
    match value {
        GraphValue::NonTrival((GraphOp::Mul, v)) => {
            let ghost s = v@;
            proof {
                assert forall|env: spec_fn(Seq<char>) -> int| #[trigger] val_of(v0, env) == fold_values(GraphOp::Mul, s, env) by {}
            }
            let ghost n = v.len();
            assert(s.len() == n);
            let mut src = v;
            let mut new_v: Vec<GraphValue> = Vec::new();
            let mut const_part: i32 = 1;
            let mut i: usize = 0;
            while src.len() > 0
                invariant
                    i <= s.len(),
                    s.len() <= usize::MAX,
                    src@ == s.subrange(i as int, s.len() as int),
                    literal_products_fit(s),
                    const_part == literal_product(s, i as int),
                    new_v@ == non_literals(s, i as int),
                    forall|env: spec_fn(Seq<char>) -> int| #[trigger] fold_values(GraphOp::Mul, s.subrange(0, i as int), env)
                        == const_part * fold_values(GraphOp::Mul, new_v@, env),
                decreases src.len(),
            {
                let ghost nb = new_v@;
                let ghost cb = const_part;
                proof {
                    assert(s.subrange(0, i + 1) =~= s.subrange(0, i as int).push(s[i as int]));
                    assert(i32::MIN <= literal_product(s, i + 1) <= i32::MAX);
                }
                let item = src.remove(0);
                proof {
                    assert(item == s[i as int]);
                    assert(src@ =~= s.subrange(i + 1, s.len() as int));
                }
                match item {
                    GraphValue::Single(Single::Int(x)) => {
                        const_part = const_part * x;
                        proof {
                            assert forall|env: spec_fn(Seq<char>) -> int| #[trigger] fold_values(GraphOp::Mul, s.subrange(0, i + 1), env)
                                == const_part * fold_values(GraphOp::Mul, new_v@, env) by {
                                lemma_fold_push(GraphOp::Mul, s.subrange(0, i as int), s[i as int], env);
                                let f = fold_values(GraphOp::Mul, nb, env);
                                let xx: int = x as int;
                                assert(cb * f * xx == (cb * xx) * f) by (nonlinear_arith);
                            }
                        }
                    },
                    other => {
                        let ghost it = other;
                        new_v.push(other);
                        proof {
                            assert forall|env: spec_fn(Seq<char>) -> int| #[trigger] fold_values(GraphOp::Mul, s.subrange(0, i + 1), env)
                                == const_part * fold_values(GraphOp::Mul, new_v@, env) by {
                                lemma_fold_push(GraphOp::Mul, s.subrange(0, i as int), s[i as int], env);
                                lemma_fold_push(GraphOp::Mul, nb, it, env);
                                let f = fold_values(GraphOp::Mul, nb, env);
                                let y = val_of(it, env);
                                assert(cb * f * y == cb * (f * y)) by (nonlinear_arith);
                            }
                        }
                    },
                }
                i = i + 1;
            }
            proof {
                assert(s.subrange(0, s.len() as int) =~= s);
            }
            if new_v.len() == 0 {
                let r = GraphValue::Single(Single::Int(const_part));
                proof {
                    assert forall|env: spec_fn(Seq<char>) -> int| #[trigger] val_of(v0, env) == 1 * val_of(r, env) by {
                        assert(new_v@ =~= Seq::<GraphValue>::empty());
                        lemma_fold_empty(GraphOp::Mul, env);
                        assert(fold_values(GraphOp::Mul, s, env) == const_part * 1);
                    }
                }
                (true, 1i32, r)
            } else if const_part > 0 {
                let ghost nv = new_v@;
                let r = GraphValue::NonTrival((GraphOp::Mul, new_v));
                proof {
                    assert forall|env: spec_fn(Seq<char>) -> int| #[trigger] val_of(v0, env) == const_part * val_of(r, env) by {
                        assert(val_of(r, env) == fold_values(GraphOp::Mul, nv, env));
                    }
                }
                (true, const_part, r)
            } else if const_part < 0 {
                let ghost nv = new_v@;
                let r = GraphValue::NonTrival((GraphOp::Mul, new_v));
                proof {
                    assert forall|env: spec_fn(Seq<char>) -> int| #[trigger] val_of(v0, env) == -(-const_part) * val_of(r, env) by {
                        assert(val_of(r, env) == fold_values(GraphOp::Mul, nv, env));
                    }
                }
                (false, -const_part, r)
            } else {
                let r = GraphValue::Single(Single::Int(0));
                proof {
                    assert forall|env: spec_fn(Seq<char>) -> int| #[trigger] val_of(v0, env) == 1 * val_of(r, env) by {
                        let f = fold_values(GraphOp::Mul, new_v@, env);
                        assert(0 * f == 0) by (nonlinear_arith);
                    }
                }
                (true, 1i32, r)
            }
        },
        other => {
            proof {
                assert forall|env: spec_fn(Seq<char>) -> int| #[trigger] val_of(v0, env) == 1 * val_of(v0, env) by {}
            }
            (true, 1i32, other)
        },
    }
}

/// The operands of a sum that share one literal factor: the sum is
/// `times * (sum(pos) - sum(neg))`.
#[derive(Debug)]
pub struct FactorGroup {
    pub times: i32,
    pub pos: Vec<GraphValue>,
    pub neg: Vec<GraphValue>,
}

/// What a group contributes to the sum.
pub open spec fn group_value(g: FactorGroup, env: spec_fn(Seq<char>) -> int) -> int {
    g.times * (fold_values(GraphOp::Plus, g.pos@, env) - fold_values(GraphOp::Plus, g.neg@, env))
}

/// What a list of groups contributes to the sum.
pub open spec fn groups_total(gs: Seq<FactorGroup>, env: spec_fn(Seq<char>) -> int) -> int
    decreases gs.len(),
{
    if gs.len() == 0 {
        0
    } else {
        groups_total(gs.drop_last(), env) + group_value(gs.last(), env)
    }
}

/// The factors of a list of groups increase strictly and are positive.
pub open spec fn groups_ordered(gs: Seq<FactorGroup>) -> bool {
    &&& forall|i: int| 0 <= i < gs.len() ==> #[trigger] gs[i].times >= 1
    &&& forall|i: int, j: int| 0 <= i < j < gs.len() ==> gs[i].times < gs[j].times
}

proof fn lemma_groups_total_update(gs: Seq<FactorGroup>, k: int, g: FactorGroup, env: spec_fn(Seq<char>) -> int)
    requires
        0 <= k < gs.len(),
    ensures
        groups_total(gs.update(k, g), env) == groups_total(gs, env) - group_value(gs[k], env) + group_value(g, env),
    decreases gs.len(),
{
    if k < gs.len() - 1 {
        assert(gs.update(k, g).drop_last() =~= gs.drop_last().update(k, g));
        lemma_groups_total_update(gs.drop_last(), k, g, env);
    } else {
        assert(gs.update(k, g).drop_last() =~= gs.drop_last());
    }
}

pub proof fn lemma_groups_total_insert(gs: Seq<FactorGroup>, k: int, g: FactorGroup, env: spec_fn(Seq<char>) -> int)
    requires
        0 <= k <= gs.len(),
    ensures
        groups_total(gs.insert(k, g), env) == groups_total(gs, env) + group_value(g, env),
    decreases gs.len(),
{
    if k < gs.len() {
        assert(gs.insert(k, g).drop_last() =~= gs.drop_last().insert(k, g));
        lemma_groups_total_insert(gs.drop_last(), k, g, env);
    } else {
        assert(gs.insert(k, g).drop_last() =~= gs);
    }
}

/// How many operands a group holds.
pub open spec fn group_size(g: FactorGroup) -> int {
    (g.pos@.len() + g.neg@.len()) as int
}

/// How many operands a list of groups holds.
pub open spec fn groups_size(gs: Seq<FactorGroup>) -> int
    decreases gs.len(),
{
    if gs.len() == 0 {
        0
    } else {
        groups_size(gs.drop_last()) + group_size(gs.last())
    }
}

/// The weight of the operands of a list of groups.
pub open spec fn groups_metric(gs: Seq<FactorGroup>) -> int
    decreases gs.len(),
{
    if gs.len() == 0 {
        0
    } else {
        groups_metric(gs.drop_last()) + metrics_of(gs.last().pos@) + metrics_of(gs.last().neg@)
    }
}

/// Every operand of every group can be built.
pub open spec fn items_buildable(gs: Seq<FactorGroup>) -> bool {
    &&& forall|i: int, j: int| 0 <= i < gs.len() && 0 <= j < gs[i].pos@.len() ==> buildable(#[trigger] gs[i].pos@[j])
    &&& forall|i: int, j: int| 0 <= i < gs.len() && 0 <= j < gs[i].neg@.len() ==> buildable(#[trigger] gs[i].neg@[j])
}

/// Every product in every operand of every group has a factor.
pub open spec fn items_nonempty(gs: Seq<FactorGroup>) -> bool {
    &&& forall|i: int, j: int| 0 <= i < gs.len() && 0 <= j < gs[i].pos@.len() ==> products_nonempty(#[trigger] gs[i].pos@[j])
    &&& forall|i: int, j: int| 0 <= i < gs.len() && 0 <= j < gs[i].neg@.len() ==> products_nonempty(#[trigger] gs[i].neg@[j])
}

/// No operand of any group holds a temporary named like one numbered `k` or more.
pub open spec fn items_avoid(gs: Seq<FactorGroup>, k: nat) -> bool {
    &&& forall|i: int, j: int| 0 <= i < gs.len() && 0 <= j < gs[i].pos@.len() ==> graph_avoids(#[trigger] gs[i].pos@[j], k)
    &&& forall|i: int, j: int| 0 <= i < gs.len() && 0 <= j < gs[i].neg@.len() ==> graph_avoids(#[trigger] gs[i].neg@[j], k)
}

proof fn lemma_groups_sums_update(gs: Seq<FactorGroup>, k: int, g: FactorGroup)
    requires
        0 <= k < gs.len(),
    ensures
        groups_size(gs.update(k, g)) == groups_size(gs) - group_size(gs[k]) + group_size(g),
        groups_metric(gs.update(k, g)) == groups_metric(gs) - metrics_of(gs[k].pos@) - metrics_of(gs[k].neg@)
            + metrics_of(g.pos@) + metrics_of(g.neg@),
    decreases gs.len(),
{
    if k < gs.len() - 1 {
        assert(gs.update(k, g).drop_last() =~= gs.drop_last().update(k, g));
        lemma_groups_sums_update(gs.drop_last(), k, g);
    } else {
        assert(gs.update(k, g).drop_last() =~= gs.drop_last());
    }
}

pub proof fn lemma_groups_sums_insert(gs: Seq<FactorGroup>, k: int, g: FactorGroup)
    requires
        0 <= k <= gs.len(),
    ensures
        groups_size(gs.insert(k, g)) == groups_size(gs) + group_size(g),
        groups_metric(gs.insert(k, g)) == groups_metric(gs) + metrics_of(g.pos@) + metrics_of(g.neg@),
    decreases gs.len(),
{
    if k < gs.len() {
        assert(gs.insert(k, g).drop_last() =~= gs.drop_last().insert(k, g));
        lemma_groups_sums_insert(gs.drop_last(), k, g);
    } else {
        assert(gs.insert(k, g).drop_last() =~= gs);
    }
}

/// Adding an operand to one group keeps what holds of every operand.
proof fn lemma_items_update(gs: Seq<FactorGroup>, k: int, g1: FactorGroup, x: GraphValue)
    requires
        0 <= k < gs.len(),
        (g1.pos@ == gs[k].pos@.push(x) && g1.neg@ == gs[k].neg@) || (g1.neg@ == gs[k].neg@.push(x) && g1.pos@ == gs[k].pos@),
    ensures
        items_buildable(gs) && buildable(x) ==> items_buildable(gs.update(k, g1)),
        items_nonempty(gs) && products_nonempty(x) ==> items_nonempty(gs.update(k, g1)),
        forall|t: nat| items_avoid(gs, t) && graph_avoids(x, t) ==> #[trigger] items_avoid(gs.update(k, g1), t),
{
    let ns = gs.update(k, g1);
    assert forall|i: int, j: int| 0 <= i < ns.len() && 0 <= j < ns[i].pos@.len()
        implies ns[i].pos@[j] == x || (j < gs[i].pos@.len() && ns[i].pos@[j] == gs[i].pos@[j]) by {
        if i == k {
            if j < gs[k].pos@.len() {
                assert(ns[i].pos@[j] == gs[k].pos@[j]);
            }
        }
    }
    assert forall|i: int, j: int| 0 <= i < ns.len() && 0 <= j < ns[i].neg@.len()
        implies ns[i].neg@[j] == x || (j < gs[i].neg@.len() && ns[i].neg@[j] == gs[i].neg@[j]) by {
        if i == k {
            if j < gs[k].neg@.len() {
                assert(ns[i].neg@[j] == gs[k].neg@[j]);
            }
        }
    }
}

/// A new group of one operand keeps what holds of every operand.
proof fn lemma_items_insert(gs: Seq<FactorGroup>, k: int, g1: FactorGroup, x: GraphValue)
    requires
        0 <= k <= gs.len(),
        (g1.pos@ == seq![x] && g1.neg@.len() == 0) || (g1.neg@ == seq![x] && g1.pos@.len() == 0),
    ensures
        items_buildable(gs) && buildable(x) ==> items_buildable(gs.insert(k, g1)),
        items_nonempty(gs) && products_nonempty(x) ==> items_nonempty(gs.insert(k, g1)),
        forall|t: nat| items_avoid(gs, t) && graph_avoids(x, t) ==> #[trigger] items_avoid(gs.insert(k, g1), t),
{
    let ns = gs.insert(k, g1);
    assert forall|i: int, j: int| 0 <= i < ns.len() && 0 <= j < ns[i].pos@.len()
        implies ns[i].pos@[j] == x || (i < k && ns[i].pos@[j] == gs[i].pos@[j]) || (i > k && ns[i].pos@[j] == gs[i - 1].pos@[j]) by {
        if i > k {
            assert(ns[i] == gs[i - 1]);
        }
    }
    assert forall|i: int, j: int| 0 <= i < ns.len() && 0 <= j < ns[i].neg@.len()
        implies ns[i].neg@[j] == x || (i < k && ns[i].neg@[j] == gs[i].neg@[j]) || (i > k && ns[i].neg@[j] == gs[i - 1].neg@[j]) by {
        if i > k {
            assert(ns[i] == gs[i - 1]);
        }
    }
}

/// Splits every operand of a sum into a sign, a positive factor and the
/// rest (`extract_const`) and groups the rests by factor, in increasing
/// order of factors: the sum of `v` is the total of the groups.
pub fn group_by_factor(v: Vec<GraphValue>) -> (r: Vec<FactorGroup>)
    requires
        forall|i: int| 0 <= i < v@.len() ==> extract_const_ok(#[trigger] v@[i]),
    ensures
        groups_ordered(r@),
        forall|env: spec_fn(Seq<char>) -> int| #[trigger] groups_total(r@, env) == fold_values(GraphOp::Plus, v@, env),
        forall|i: int| 0 <= i < r@.len() ==> group_size(#[trigger] r@[i]) >= 1,
        groups_size(r@) == v@.len(),
        groups_metric(r@) <= metrics_of(v@),
        all_buildable(v@) ==> items_buildable(r@),
        all_products_nonempty(v@) ==> items_nonempty(r@),
        forall|k: nat| #[trigger] all_graphs_avoid(v@, k) ==> items_avoid(r@, k),
{
    let ghost s = v@;
    let mut src = v;
    let mut groups: Vec<FactorGroup> = Vec::new();
    let ghost mut done: int = 0;
    proof {
        assert forall|env: spec_fn(Seq<char>) -> int| #[trigger] groups_total(groups@, env)
            == fold_values(GraphOp::Plus, s.subrange(0, 0), env) by {
            assert(s.subrange(0, 0) =~= Seq::<GraphValue>::empty());
            lemma_fold_empty(GraphOp::Plus, env);
        }
    }
    while src.len() > 0
        invariant
            0 <= done <= s.len(),
            src@ == s.subrange(done, s.len() as int),
            forall|i: int| 0 <= i < s.len() ==> extract_const_ok(#[trigger] s[i]),
            groups_ordered(groups@),
            forall|env: spec_fn(Seq<char>) -> int| #[trigger] groups_total(groups@, env)
                == fold_values(GraphOp::Plus, s.subrange(0, done), env),
            forall|i: int| 0 <= i < groups@.len() ==> group_size(#[trigger] groups@[i]) >= 1,
            groups_size(groups@) == done,
            groups_metric(groups@) <= metrics_of(s.subrange(0, done)),
            all_buildable(s) ==> items_buildable(groups@),
            all_products_nonempty(s) ==> items_nonempty(groups@),
            forall|k: nat| #[trigger] all_graphs_avoid(s, k) ==> items_avoid(groups@, k),
        decreases src.len(),
    {
        let item = src.remove(0);
        proof {
            assert(item == s[done]);
            assert(src@ =~= s.subrange(done + 1, s.len() as int));
        }
        let ghost it = item;
        let (pos, times, value) = extract_const(item);
        proof {
            lemma_rest_shrinks(it, value);
            lemma_all_buildable(s);
            lemma_all_products_nonempty(s);
            assert(s.subrange(0, done + 1) =~= s.subrange(0, done).push(s[done]));
            lemma_metrics_push(s.subrange(0, done), s[done]);
        }
        let ghost gs = groups@;
        let mut k: usize = 0;
        while k < groups.len() && groups[k].times < times
            invariant
                k <= groups@.len(),
                groups@ == gs,
                forall|j: int| 0 <= j < k ==> #[trigger] gs[j].times < times,
            decreases groups.len() - k,
        {
            k = k + 1;
        }
        let ghost gv = value;
        if k < groups.len() && groups[k].times == times {
            let mut g = groups.remove(k);
            let ghost g0 = g;
            if pos {
                g.pos.push(value);
            } else {
                g.neg.push(value);
            }
            proof {
                assert forall|env: spec_fn(Seq<char>) -> int| #[trigger] group_value(g, env)
                    == group_value(g0, env) + val_of(it, env) by {
                    lemma_fold_push(GraphOp::Plus, g0.pos@, gv, env);
                    lemma_fold_push(GraphOp::Plus, g0.neg@, gv, env);
                    let t = times as int;
                    let a = fold_values(GraphOp::Plus, g0.pos@, env);
                    let b = fold_values(GraphOp::Plus, g0.neg@, env);
                    let x = val_of(gv, env);
                    assert(t * ((a + x) - b) == t * (a - b) + t * x) by (nonlinear_arith);
                    assert(t * (a - (b + x)) == t * (a - b) + (-t) * x) by (nonlinear_arith);
                }
            }
            let ghost g1 = g;
            groups.insert(k, g);
            proof {
                assert(groups@ =~= gs.update(k as int, g1));
                lemma_groups_sums_update(gs, k as int, g1);
                lemma_items_update(gs, k as int, g1, gv);
                lemma_metrics_push(g0.pos@, gv);
                lemma_metrics_push(g0.neg@, gv);
            }
        } else {
            let mut g = FactorGroup { times, pos: Vec::new(), neg: Vec::new() };
            let ghost g0 = g;
            if pos {
                g.pos.push(value);
            } else {
                g.neg.push(value);
            }
            proof {
                assert forall|env: spec_fn(Seq<char>) -> int| #[trigger] group_value(g, env) == val_of(it, env) by {
                    lemma_fold_empty(GraphOp::Plus, env);
                    lemma_fold_push(GraphOp::Plus, g0.pos@, gv, env);
                    lemma_fold_push(GraphOp::Plus, g0.neg@, gv, env);
                    assert(g0.pos@ =~= Seq::<GraphValue>::empty());
                    assert(g0.neg@ =~= Seq::<GraphValue>::empty());
                    let t = times as int;
                    let x = val_of(gv, env);
                    assert(t * (x - 0) == t * x) by (nonlinear_arith);
                    assert(t * (0 - x) == (-t) * x) by (nonlinear_arith);
                }
            }
            let ghost g1 = g;
            groups.insert(k, g);
            proof {
                lemma_groups_sums_insert(gs, k as int, g1);
                lemma_items_insert(gs, k as int, g1, gv);
                assert(g1.pos@ =~= seq![gv] || g1.neg@ =~= seq![gv]);
                lemma_metrics_push(g0.pos@, gv);
                lemma_metrics_push(g0.neg@, gv);
                assert(g0.pos@ =~= Seq::<GraphValue>::empty());
                assert(g0.neg@ =~= Seq::<GraphValue>::empty());
                assert forall|i: int, j: int| 0 <= i < j < groups@.len() implies groups@[i].times < groups@[j].times by {
                    if j < k {
                    } else if i < k && j == k {
                    } else if i < k {
                        assert(groups@[j] == gs[j - 1]);
                    } else if i == k {
                        assert(groups@[j] == gs[j - 1]);
                        assert(gs[k as int].times > times);
                        if j - 1 > k {
                            assert(gs[k as int].times < gs[j - 1].times);
                        }
                    } else {
                        assert(groups@[i] == gs[i - 1]);
                        assert(groups@[j] == gs[j - 1]);
                    }
                }
            }
        }
        proof {
            assert forall|t: nat| #[trigger] all_graphs_avoid(s, t) implies items_avoid(groups@, t) by {
                lemma_all_graphs_avoid(s, t);
                assert(graph_avoids(s[done], t));
                assert(graph_avoids(gv, t));
            }
            assert forall|env: spec_fn(Seq<char>) -> int| #[trigger] groups_total(groups@, env)
                == fold_values(GraphOp::Plus, s.subrange(0, done + 1), env) by {
                if groups@.len() == gs.len() {
                    lemma_groups_total_update(gs, k as int, groups@[k as int], env);
                } else {
                    lemma_groups_total_insert(gs, k as int, groups@[k as int], env);
                }
                assert(s.subrange(0, done + 1) =~= s.subrange(0, done).push(s[done]));
                lemma_fold_push(GraphOp::Plus, s.subrange(0, done), s[done], env);
            }
            done = done + 1;
        }
    }
    proof {
        assert(s.subrange(0, done) =~= s);
    }
    groups
}

} // verus!
