use vstd::prelude::*;
use crate::compute_graph::{
    capped, combine, eval, eval_all, leaf_count, leaf_counts, metric_of, MAX_SIZE, fold_values, graph_eq, graph_order, lemma_child_decreases, lemma_combine_assoc,
    lemma_fold_append, lemma_fold_empty, lemma_fold_insert, lemma_fold_pointwise, lemma_fold_push,
    lemma_fold_remove, lemma_fold_single, lemma_terms_of_len, term_of, terms_of, unit, val_of, GraphOp,
    GraphValue, LlvmTemp, Order3, OverflowError, Single, Term, Value, VarType, graph_order_spec,
    lemma_order_terms, lemma_terms_of_pointwise, lemma_terms_of_push,
};
use crate::emit::{graphs_sorted, lemma_insert_graph_sorted, lemma_take_insert_multiset};

verus! {

/// `b` lists the same terms as `a` in some order, so it has every fold of `a`.
pub open spec fn same_folds(a: Seq<GraphValue>, b: Seq<GraphValue>) -> bool {
    forall|op: GraphOp, env: spec_fn(Seq<char>) -> int| #[trigger] fold_values(op, b, env) == fold_values(op, a, env)
}

/// Every element of `b` denotes a term that some element of `a` denotes.
pub open spec fn drawn_from(b: Seq<GraphValue>, a: Seq<GraphValue>) -> bool {
    forall|i: int| 0 <= i < b.len() ==> exists|j: int| 0 <= j < a.len() && term_of(#[trigger] b[i]) == term_of(a[j])
}

/// Takes the contents out of `v`, leaving it empty.
pub fn take_vec(v: &mut Vec<GraphValue>) -> (r: Vec<GraphValue>)
    ensures
        r@ == old(v)@,
        final(v)@.len() == 0,
{
    let mut r: Vec<GraphValue> = Vec::new();
    std::mem::swap(&mut r, v);
    r
}

/// `b` holds the values of `a`, each as often, with no value before a
/// smaller one in the order of graph values.
#[verifier::opaque]
pub open spec fn sorted_arrangement(a: Seq<GraphValue>, b: Seq<GraphValue>) -> bool {
    b.to_multiset() == a.to_multiset() && graphs_sorted(b)
}

/// One step of the insertion sort keeps its result an arrangement of the
/// values taken so far.
proof fn lemma_sort_step(orig: Seq<GraphValue>, vb: Seq<GraphValue>, j: int, x: GraphValue)
    requires
        vb.len() < orig.len(),
        sorted_arrangement(orig.take(vb.len() as int), vb),
        x == orig[vb.len() as int],
        0 <= j <= vb.len(),
        j > 0 ==> graph_order_spec(vb[j - 1], x) != Order3::Greater,
        forall|k: int| j <= k < vb.len() ==> graph_order_spec(#[trigger] vb[k], x) == Order3::Greater,
    ensures
        sorted_arrangement(orig.take(vb.len() + 1int), vb.insert(j, x)),
{
    reveal(sorted_arrangement);
    lemma_insert_graph_sorted(vb, j, x);
    lemma_take_insert_multiset(orig, vb, j, x);
}

/// Where `x` goes in the sorted `v`: after the last value not greater
/// than it.
fn insert_position(v: &Vec<GraphValue>, x: &GraphValue) -> (j: usize)
    ensures
        j <= v@.len(),
        j > 0 ==> graph_order_spec(v@[j - 1], *x) != Order3::Greater,
        forall|k: int| j <= k < v@.len() ==> graph_order_spec(#[trigger] v@[k], *x) == Order3::Greater,
{
    let mut j = v.len();
    while j > 0 && graph_order(&v[j - 1], x) == Order3::Greater
        invariant
            j <= v@.len(),
            forall|k: int| j <= k < v@.len() ==> graph_order_spec(#[trigger] v@[k], *x) == Order3::Greater,
        decreases j,
    {
        j = j - 1;
    }
    j
}

/// Stable insertion sort in the order of graph values.
#[verifier::spinoff_prover]
pub fn sort_list(v: &mut Vec<GraphValue>)
    ensures
        final(v)@.len() == old(v)@.len(),
        same_folds(old(v)@, final(v)@),
        drawn_from(final(v)@, old(v)@),
        drawn_from(old(v)@, final(v)@),
        sorted_arrangement(old(v)@, final(v)@),

{
    let ghost orig = v@;
    let mut src = take_vec(v);
    let ghost src0 = src@;
    proof {
        reveal(sorted_arrangement);
        assert(v@ =~= orig.take(0));
    }
    while src.len() > 0
        invariant
            src0 == orig,
            v@.len() + src@.len() == orig.len(),
            src@ == orig.subrange(orig.len() - src@.len(), orig.len() as int),
            forall|op: GraphOp, env: spec_fn(Seq<char>) -> int|
                combine(op, #[trigger] fold_values(op, v@, env), fold_values(op, src@, env)) == fold_values(op, orig, env),
            drawn_from(v@, orig),
            forall|j: int| 0 <= j < orig.len() - src@.len() ==> exists|i: int| 0 <= i < v@.len() && term_of(#[trigger] orig[j]) == term_of(v@[i]),
            sorted_arrangement(orig.take(v@.len() as int), v@),
        decreases src.len(),
    {
        let ghost v_before = v@;
        let ghost src_before = src@;
        let x = src.remove(0);
        let j = insert_position(v, &x);
        proof {
            assert(x == orig[v_before.len() as int]);
            lemma_sort_step(orig, v_before, j as int, x);
        }
        v.insert(j, x);
        proof {

            assert forall|op: GraphOp, env: spec_fn(Seq<char>) -> int|
                combine(op, #[trigger] fold_values(op, v@, env), fold_values(op, src@, env)) == fold_values(op, orig, env) by {
                lemma_fold_remove(op, src_before, 0, env);
                lemma_fold_insert(op, v_before, j as int, x, env);
                assert(src_before.remove(0) =~= src@);
                let a = fold_values(op, v_before, env);
                let b = fold_values(op, src@, env);
                let c = val_of(x, env);
                lemma_combine_assoc(op, a, c, b);
                lemma_combine_assoc(op, a, b, c);
                lemma_combine_assoc(op, c, b, 0);
                assert(combine(op, a, fold_values(op, src_before, env)) == fold_values(op, orig, env));
            }
            assert(src@ =~= orig.subrange(orig.len() - src@.len(), orig.len() as int));
            assert forall|i: int| 0 <= i < v@.len() implies exists|k: int| 0 <= k < orig.len() && term_of(#[trigger] v@[i]) == term_of(orig[k]) by {
                if i < j {
                    assert(v@[i] == v_before[i]);
                } else if i == j {
                    assert(v@[i] == orig[orig.len() - src_before.len()]);
                } else {
                    assert(v@[i] == v_before[i - 1]);
                }
            }
            assert forall|k: int| 0 <= k < orig.len() - src@.len() implies exists|i: int| 0 <= i < v@.len() && term_of(#[trigger] orig[k]) == term_of(v@[i]) by {
                if k == orig.len() - src_before.len() {
                    assert(v@[j as int] == orig[k]);
                } else {
                    let i0 = choose|i: int| 0 <= i < v_before.len() && term_of(orig[k]) == term_of(v_before[i]);
                    if i0 < j {
                        assert(v@[i0] == v_before[i0]);
                    } else {
                        assert(v@[i0 + 1] == v_before[i0]);
                    }
                }
            }
        }
    }
    proof {
        assert(orig.take(orig.len() as int) =~= orig);
        assert forall|op: GraphOp, env: spec_fn(Seq<char>) -> int| #[trigger] fold_values(op, v@, env) == fold_values(op, orig, env) by {
            lemma_combine_assoc(op, fold_values(op, v@, env), 0, 0);
        }
        assert forall|k: int| 0 <= k < orig.len() implies exists|i: int| 0 <= i < v@.len() && term_of(#[trigger] orig[k]) == term_of(v@[i]) by {
            assert(k < orig.len() - src@.len());
            let t = term_of(orig[k]);
            let i0 = choose|i: int| 0 <= i < v@.len() && t == term_of(v@[i]);
            assert(0 <= i0 < v@.len() && term_of(orig[k]) == term_of(v@[i0]));
        }
    }
}

/// A term with no sums: literals and temporaries multiplied together.
pub open spec fn term_plus_free(t: Term) -> bool
    decreases t,
{
    match t {
        Term::Node(op, ts) => op == GraphOp::Mul && terms_plus_free(ts),
        _ => true,
    }
}

pub open spec fn terms_plus_free(ts: Seq<Term>) -> bool
    decreases ts,
{
    if ts.len() == 0 {
        true
    } else {
        terms_plus_free(ts.drop_last()) && term_plus_free(ts.last())
    }
}

/// A graph value with no sum node: a product of literals and temporaries.
pub open spec fn plus_free(g: GraphValue) -> bool {
    term_plus_free(term_of(g))
}

pub proof fn lemma_terms_plus_free(ts: Seq<Term>)
    ensures
        terms_plus_free(ts) == (forall|i: int| 0 <= i < ts.len() ==> term_plus_free(#[trigger] ts[i])),
    decreases ts.len(),
{
    if ts.len() > 0 {
        lemma_terms_plus_free(ts.drop_last());
        assert(ts.last() == ts[ts.len() - 1]);
        if terms_plus_free(ts) {
            assert forall|i: int| 0 <= i < ts.len() implies term_plus_free(#[trigger] ts[i]) by {
                if i < ts.len() - 1 {
                    assert(ts.drop_last()[i] == ts[i]);
                }
            }
        }
        if forall|i: int| 0 <= i < ts.len() ==> term_plus_free(#[trigger] ts[i]) {
            assert forall|i: int| 0 <= i < ts.drop_last().len() implies term_plus_free(#[trigger] ts.drop_last()[i]) by {
                assert(ts.drop_last()[i] == ts[i]);
            }
            assert(term_plus_free(ts[ts.len() - 1]));
        }
    }
}

/// A node has no sum exactly when it is a product of children that have none.
pub proof fn lemma_plus_free_node(g: GraphValue)
    requires
        g is NonTrival,
    ensures
        plus_free(g) == (g->NonTrival_0.0 == GraphOp::Mul
            && forall|i: int| 0 <= i < g->NonTrival_0.1@.len() ==> plus_free(#[trigger] g->NonTrival_0.1@[i])),
{
    let v = g->NonTrival_0.1@;
    lemma_terms_of_len(v);
    lemma_terms_plus_free(terms_of(v));
    if forall|i: int| 0 <= i < v.len() ==> plus_free(#[trigger] v[i]) {
        assert forall|i: int| 0 <= i < terms_of(v).len() implies term_plus_free(#[trigger] terms_of(v)[i]) by {
            assert(plus_free(v[i]));
        }
    }
    if terms_plus_free(terms_of(v)) {
        assert forall|i: int| 0 <= i < v.len() implies plus_free(#[trigger] v[i]) by {
            assert(term_plus_free(terms_of(v)[i]));
        }
    }
}

/// A sorted arrangement of values without sums has none.
proof fn lemma_arrangement_plus_free(a: Seq<GraphValue>, b: Seq<GraphValue>)
    requires
        sorted_arrangement(a, b),
        forall|j: int| 0 <= j < a.len() ==> plus_free(#[trigger] a[j]),
    ensures
        forall|i: int| 0 <= i < b.len() ==> plus_free(#[trigger] b[i]),
{
    broadcast use vstd::seq_lib::group_to_multiset_ensures;
    reveal(sorted_arrangement);
    assert forall|i: int| 0 <= i < b.len() implies plus_free(#[trigger] b[i]) by {
        assert(b.contains(b[i]));
        assert(b.to_multiset().count(b[i]) > 0);
        assert(a.to_multiset().count(b[i]) > 0);
        assert(a.contains(b[i]));
        let k = choose|k: int| 0 <= k < a.len() && a[k] == b[i];
        assert(plus_free(a[k]));
    }
}

/// The same value under every environment.
pub open spec fn same_value(a: GraphValue, b: GraphValue) -> bool {
    forall|env: spec_fn(Seq<char>) -> int| #[trigger] val_of(a, env) == val_of(b, env)
}

pub proof fn lemma_same_list(op: GraphOp, a: Seq<GraphValue>, b: Seq<GraphValue>)
    requires
        a.len() == b.len(),
        forall|j: int| 0 <= j < a.len() ==> same_value(a[j], #[trigger] b[j]),
    ensures
        forall|env: spec_fn(Seq<char>) -> int| #[trigger] fold_values(op, a, env) == fold_values(op, b, env),
{
    assert forall|env: spec_fn(Seq<char>) -> int| #[trigger] fold_values(op, a, env) == fold_values(op, b, env) by {
        assert forall|j: int| 0 <= j < a.len() implies val_of(#[trigger] a[j], env) == val_of(b[j], env) by {
            assert(same_value(a[j], b[j]));
        }
        lemma_fold_pointwise(op, a, b, env);
    }
}

/// Every list of children in `g` is sorted in the order of graph values.
#[verifier::opaque]
pub open spec fn deep_sorted(g: GraphValue) -> bool
    decreases g,
{
    match g {
        GraphValue::Single(_) => true,
        GraphValue::NonTrival((_, v)) => graphs_sorted(v@) && all_deep_sorted(v@),
    }
}

pub open spec fn all_deep_sorted(s: Seq<GraphValue>) -> bool
    decreases s,
{
    if s.len() == 0 {
        true
    } else {
        all_deep_sorted(s.drop_last()) && deep_sorted(s.last())
    }
}

pub proof fn lemma_all_deep_sorted(s: Seq<GraphValue>)
    ensures
        all_deep_sorted(s) == (forall|i: int| 0 <= i < s.len() ==> deep_sorted(#[trigger] s[i])),
    decreases s.len(),
{
    reveal(deep_sorted);
    if s.len() > 0 {
        lemma_all_deep_sorted(s.drop_last());
        assert(s.last() == s[s.len() - 1]);
        if all_deep_sorted(s) {
            assert(deep_sorted(s.last()));
            assert forall|i: int| 0 <= i < s.len() implies deep_sorted(#[trigger] s[i]) by {
                if i < s.len() - 1 {
                    assert(s.drop_last()[i] == s[i]);
                }
            }
        }
        if forall|i: int| 0 <= i < s.len() ==> deep_sorted(#[trigger] s[i]) {
            assert forall|i: int| 0 <= i < s.drop_last().len() implies deep_sorted(#[trigger] s.drop_last()[i]) by {
                assert(s.drop_last()[i] == s[i]);
            }
            assert(deep_sorted(s[s.len() - 1]));
        }
    }
}

/// A sorted arrangement of deeply sorted values is deeply sorted.
proof fn lemma_arrangement_deep_sorted(a: Seq<GraphValue>, b: Seq<GraphValue>)
    requires
        sorted_arrangement(a, b),
        forall|j: int| 0 <= j < a.len() ==> deep_sorted(#[trigger] a[j]),
    ensures
        graphs_sorted(b),
        all_deep_sorted(b),
{
    broadcast use vstd::seq_lib::group_to_multiset_ensures;
    reveal(sorted_arrangement);
    assert forall|i: int| 0 <= i < b.len() implies deep_sorted(#[trigger] b[i]) by {
        assert(b.contains(b[i]));
        assert(b.to_multiset().count(b[i]) > 0);
        assert(a.to_multiset().count(b[i]) > 0);
        assert(a.contains(b[i]));
        let k = choose|k: int| 0 <= k < a.len() && a[k] == b[i];
        assert(deep_sorted(a[k]));
    }
    lemma_all_deep_sorted(b);
}

/// Sorts every list of children, innermost first.
#[verifier::spinoff_prover]
pub fn sort_deep(g: GraphValue) -> (r: GraphValue)
    ensures
        same_value(g, r),
        deep_sorted(r),
        plus_free(g) ==> plus_free(r),
        g is Single ==> r == g,
        g matches GraphValue::NonTrival((op, v)) ==> (r matches GraphValue::NonTrival((op2, w)) && op2 == op && w.len() == v.len()),
    decreases g,
{
    let ghost g0 = g;
    match g {
        GraphValue::Single(s) => {
            proof {
                reveal(deep_sorted);
            }
            GraphValue::Single(s)
        },
        GraphValue::NonTrival((op, v)) => {
            let ghost v0 = v@;
            let mut src = v;
            let mut out: Vec<GraphValue> = Vec::new();
            proof {
                lemma_plus_free_node(g0);
            }
            while src.len() > 0
                invariant
                    g == g0,
                    g0 == GraphValue::NonTrival((op, g0->NonTrival_0.1)),
                    g0->NonTrival_0.1@ == v0,
                    out@.len() + src@.len() == v0.len(),
                    src@ == v0.subrange(out@.len() as int, v0.len() as int),
                    forall|j: int| 0 <= j < out@.len() ==> same_value(v0[j], #[trigger] out@[j]),
                    forall|j: int| 0 <= j < out@.len() ==> deep_sorted(#[trigger] out@[j]),
                    plus_free(g0) ==> forall|j: int| 0 <= j < v0.len() ==> plus_free(#[trigger] v0[j]),
                    plus_free(g0) ==> forall|j: int| 0 <= j < out@.len() ==> plus_free(#[trigger] out@[j]),
                decreases src.len(),
            {
                let ghost k = out@.len() as int;
                proof {
                    lemma_child_decreases(g0, k);
                }
                let c = src.remove(0);
                proof {
                    assert(c == v0[k]);
                    assert(decreases_to!(g => c));
                }
                let c2 = sort_deep(c);
                out.push(c2);
                proof {
                    assert(src@ =~= v0.subrange(out@.len() as int, v0.len() as int));
                }
            }
            let ghost before = out@;
            sort_list(&mut out);
            proof {
                assert(deep_sorted(GraphValue::NonTrival((op, out)))) by {
                    lemma_arrangement_deep_sorted(before, out@);
                    reveal(deep_sorted);
                }
                if plus_free(g0) {
                    lemma_arrangement_plus_free(before, out@);
                    lemma_plus_free_node(GraphValue::NonTrival((op, out)));
                }
                lemma_same_list(op, v0, before);
                assert forall|env: spec_fn(Seq<char>) -> int| #[trigger] val_of(g0, env) == val_of(GraphValue::NonTrival((op, out)), env) by {
                    assert(fold_values(op, v0, env) == fold_values(op, before, env));
                    assert(fold_values(op, out@, env) == fold_values(op, before, env));
                }
            }
            GraphValue::NonTrival((op, out))
        },
    }
}

/// Every inner node has at least one child.
pub open spec fn no_empty(g: GraphValue) -> bool
    decreases g,
{
    match g {
        GraphValue::Single(_) => true,
        GraphValue::NonTrival((_, v)) => v.len() >= 1 && all_no_empty(v@),
    }
}

pub open spec fn all_no_empty(s: Seq<GraphValue>) -> bool
    decreases s,
{
    if s.len() == 0 {
        true
    } else {
        all_no_empty(s.drop_last()) && no_empty(s.last())
    }
}

pub proof fn lemma_all_no_empty(s: Seq<GraphValue>)
    ensures
        all_no_empty(s) == (forall|i: int| 0 <= i < s.len() ==> no_empty(#[trigger] s[i])),
    decreases s.len(),
{
    if s.len() > 0 {
        lemma_all_no_empty(s.drop_last());
        if all_no_empty(s) {
            assert forall|i: int| 0 <= i < s.len() implies no_empty(#[trigger] s[i]) by {
                if i < s.len() - 1 {
                    assert(s.drop_last()[i] == s[i]);
                }
            }
        }
        if forall|i: int| 0 <= i < s.len() ==> no_empty(#[trigger] s[i]) {
            assert forall|i: int| 0 <= i < s.drop_last().len() implies no_empty(#[trigger] s.drop_last()[i]) by {
                assert(s.drop_last()[i] == s[i]);
            }
            assert(no_empty(s[s.len() - 1]));
        }
    }
}

/// `x` can stand as an operand of an `op`-node of a flat value: a leaf, or
/// a node with another operator and at least two children.
pub open spec fn op_operand(x: GraphValue, op: GraphOp) -> bool {
    match x {
        GraphValue::Single(_) => true,
        GraphValue::NonTrival((o, w)) => o != op && w.len() >= 2,
    }
}

/// No node of `g` has fewer than two children or a child with its own
/// operator: what `reduce_value` makes of a value.
pub open spec fn flat(g: GraphValue) -> bool
    decreases g,
{
    match g {
        GraphValue::Single(_) => true,
        GraphValue::NonTrival((o, v)) => v.len() >= 2 && all_flat_under(o, v@),
    }
}

pub open spec fn all_flat_under(o: GraphOp, s: Seq<GraphValue>) -> bool
    decreases s,
{
    if s.len() == 0 {
        true
    } else {
        all_flat_under(o, s.drop_last()) && flat(s.last()) && op_operand(s.last(), o)
    }
}

pub proof fn lemma_all_flat_under(o: GraphOp, s: Seq<GraphValue>)
    ensures
        all_flat_under(o, s) == (forall|i: int| 0 <= i < s.len() ==> flat(#[trigger] s[i]) && op_operand(s[i], o)),
    decreases s.len(),
{
    if s.len() > 0 {
        lemma_all_flat_under(o, s.drop_last());
        assert(s.last() == s[s.len() - 1]);
        if all_flat_under(o, s) {
            assert forall|i: int| 0 <= i < s.len() implies flat(#[trigger] s[i]) && op_operand(s[i], o) by {
                if i < s.len() - 1 {
                    assert(s.drop_last()[i] == s[i]);
                }
            }
        }
        if forall|i: int| 0 <= i < s.len() ==> flat(#[trigger] s[i]) && op_operand(s[i], o) {
            assert forall|i: int| 0 <= i < s.drop_last().len() implies flat(#[trigger] s.drop_last()[i]) && op_operand(s.drop_last()[i], o) by {
                assert(s.drop_last()[i] == s[i]);
            }
            assert(flat(s[s.len() - 1]));
        }
    }
}

/// Appends to `output` the operands of `g` seen as an `op`-list: nodes with
/// operator `op`, and nodes with fewer than two children, are opened up.
fn collect_with_op(g: GraphValue, output: &mut Vec<GraphValue>, op: GraphOp)
    ensures
        forall|i: int| old(output)@.len() <= i < final(output)@.len() ==> op_operand(#[trigger] final(output)@[i], op),
        flat(g) ==> forall|i: int| old(output)@.len() <= i < final(output)@.len() ==> flat(#[trigger] final(output)@[i]),
        forall|i: int| 0 <= i < old(output)@.len() ==> #[trigger] final(output)@[i] == old(output)@[i],
        final(output)@.len() >= old(output)@.len(),
        no_empty(g) ==> final(output)@.len() > old(output)@.len(),
        no_empty(g) || (plus_free(g) && op == GraphOp::Mul) ==> forall|env: spec_fn(Seq<char>) -> int| #[trigger] fold_values(op, final(output)@, env)
            == combine(op, fold_values(op, old(output)@, env), val_of(g, env)),
        plus_free(g) ==> forall|i: int| old(output)@.len() <= i < final(output)@.len() ==> plus_free(#[trigger] final(output)@[i]),
        no_empty(g) ==> forall|i: int| old(output)@.len() <= i < final(output)@.len() ==> no_empty(#[trigger] final(output)@[i]),
    decreases g,
{
    let ghost g0 = g;
    let ghost ne = no_empty(g);
    let ghost out0 = output@;
    match g {
        GraphValue::NonTrival((op_this, v)) => {
            if op_this == op || v.len() < 2 {
                let ghost v0 = v@;
                let ghost fl = flat(g0);
                let ghost pf = plus_free(g0);
                let ghost pfm = plus_free(g0) && op == GraphOp::Mul;
                proof {
                    lemma_plus_free_node(g0);
                    lemma_all_no_empty(v0);
                    lemma_all_flat_under(op_this, v0);
                }
                let mut src = v;
                while src.len() > 0
                    invariant
                        g == g0,
                        ne == no_empty(g0),
                        fl == flat(g0),
                        pf == plus_free(g0),
                        pfm == (plus_free(g0) && op == GraphOp::Mul),
                        pf ==> op_this == GraphOp::Mul && forall|i: int| 0 <= i < v0.len() ==> plus_free(#[trigger] v0[i]),
                        pf ==> forall|i: int| out0.len() <= i < output@.len() ==> plus_free(#[trigger] output@[i]),
                        fl ==> forall|i: int| 0 <= i < v0.len() ==> flat(#[trigger] v0[i]),
                        forall|i: int| out0.len() <= i < output@.len() ==> op_operand(#[trigger] output@[i], op),
                        fl ==> forall|i: int| out0.len() <= i < output@.len() ==> flat(#[trigger] output@[i]),
                        g0 == GraphValue::NonTrival((op_this, g0->NonTrival_0.1)),
                        g0->NonTrival_0.1@ == v0,
                        op_this == op || v0.len() < 2,
                        ne ==> v0.len() >= 1,
                        ne ==> forall|i: int| 0 <= i < v0.len() ==> no_empty(#[trigger] v0[i]),
                        src@.len() <= v0.len(),
                        src@ == v0.subrange(v0.len() - src@.len(), v0.len() as int),
                        output@.len() >= out0.len(),
                        ne ==> output@.len() >= out0.len() + (v0.len() - src@.len()),
                        ne || pfm ==> forall|env: spec_fn(Seq<char>) -> int| #[trigger] fold_values(op, output@, env)
                            == combine(op, fold_values(op, out0, env), fold_values(op, v0.subrange(0, v0.len() - src@.len()), env)),
                        forall|i: int| 0 <= i < out0.len() ==> #[trigger] output@[i] == out0[i],
                        ne ==> forall|i: int| out0.len() <= i < output@.len() ==> no_empty(#[trigger] output@[i]),
                    decreases src.len(),
                {
                    let ghost k = v0.len() - src@.len();
                    let ghost before = output@;
                    proof {
                        lemma_child_decreases(g0, k);
                    }
                    let item = src.remove(0);
                    proof {
                        assert(item == v0[k]);
                        assert(decreases_to!(g => item));
                    }
                    collect_with_op(item, output, op);
                    proof {
                        assert(src@ =~= v0.subrange(v0.len() - src@.len(), v0.len() as int));
                        if ne || pfm {
                            assert forall|env: spec_fn(Seq<char>) -> int| #[trigger] fold_values(op, output@, env)
                                == combine(op, fold_values(op, out0, env), fold_values(op, v0.subrange(0, k + 1), env)) by {
                                assert(v0.subrange(0, k + 1) =~= v0.subrange(0, k).push(v0[k]));
                                lemma_fold_push(op, v0.subrange(0, k), v0[k], env);
                                lemma_combine_assoc(op, fold_values(op, out0, env), fold_values(op, v0.subrange(0, k), env), val_of(v0[k], env));
                            }
                        }
                    }
                }
                proof {
                    assert(v0.subrange(0, v0.len() as int) =~= v0);
                    if ne && op_this != op {
                        assert forall|env: spec_fn(Seq<char>) -> int| #[trigger] fold_values(op, v0, env) == val_of(g0, env) by {
                            lemma_fold_single(op, v0[0], env);
                            lemma_fold_single(op_this, v0[0], env);
                            assert(v0 =~= seq![v0[0]]);
                        }
                    }
                }
            } else {
                output.push(GraphValue::NonTrival((op_this, v)));
                proof {
                    assert forall|env: spec_fn(Seq<char>) -> int| #[trigger] fold_values(op, output@, env)
                        == combine(op, fold_values(op, out0, env), val_of(g0, env)) by {
                        assert(output@ =~= out0.push(g0));
                        lemma_fold_push(op, out0, g0, env);
                    }
                }
            }
        },
        GraphValue::Single(s) => {
            output.push(GraphValue::Single(s));
            proof {
                assert forall|env: spec_fn(Seq<char>) -> int| #[trigger] fold_values(op, output@, env)
                    == combine(op, fold_values(op, out0, env), val_of(g0, env)) by {
                    assert(output@ =~= out0.push(g0));
                    lemma_fold_push(op, out0, g0, env);
                }
            }
        },
    }
}

/// Flattens nested nodes: children are reduced first, then every child
/// with the node's own operator, or with fewer than two children, is
/// opened up; a node left with a single operand becomes that operand.
pub fn reduce_value(g: GraphValue) -> (r: GraphValue)
    ensures
        no_empty(g) ==> same_value(g, r),
        no_empty(g) ==> no_empty(r),
        no_empty(g) ==> flat(r),
        plus_free(g) ==> same_value(g, r) && plus_free(r),
    decreases g,
{
    let ghost g0 = g;
    let ghost ne = no_empty(g);
    let ghost pf = plus_free(g);
    match g {
        GraphValue::Single(s) => GraphValue::Single(s),
        GraphValue::NonTrival((op, v)) => {
            let ghost v0 = v@;
            proof {
                lemma_all_no_empty(v0);
                lemma_plus_free_node(g0);
            }
            let mut src = v;
            let mut reduced: Vec<GraphValue> = Vec::new();
            while src.len() > 0
                invariant
                    g == g0,
                    ne == no_empty(g0),
                    g0 == GraphValue::NonTrival((op, g0->NonTrival_0.1)),
                    g0->NonTrival_0.1@ == v0,
                    ne ==> v0.len() >= 1,
                    ne ==> forall|i: int| 0 <= i < v0.len() ==> no_empty(#[trigger] v0[i]),
                    reduced@.len() + src@.len() == v0.len(),
                    src@ == v0.subrange(reduced@.len() as int, v0.len() as int),
                    ne || pf ==> forall|j: int| 0 <= j < reduced@.len() ==> same_value(v0[j], #[trigger] reduced@[j]),
                    pf == plus_free(g0),
                    pf ==> op == GraphOp::Mul && forall|i: int| 0 <= i < v0.len() ==> plus_free(#[trigger] v0[i]),
                    pf ==> forall|j: int| 0 <= j < reduced@.len() ==> plus_free(#[trigger] reduced@[j]),
                    ne ==> forall|j: int| 0 <= j < reduced@.len() ==> no_empty(#[trigger] reduced@[j]),
                    ne ==> forall|j: int| 0 <= j < reduced@.len() ==> flat(#[trigger] reduced@[j]),
                decreases src.len(),
            {
                let ghost k = reduced@.len() as int;
                proof {
                    lemma_child_decreases(g0, k);
                }
                let c = src.remove(0);
                proof {
                    assert(c == v0[k]);
                    assert(decreases_to!(g => c));
                }
                let c2 = reduce_value(c);
                reduced.push(c2);
                proof {
                    assert(src@ =~= v0.subrange(reduced@.len() as int, v0.len() as int));
                }
            }
            let ghost red0 = reduced@;
            proof {
                if ne || pf {
                    lemma_same_list(op, v0, red0);
                }
            }
            let mut new_v: Vec<GraphValue> = Vec::new();
            while reduced.len() > 0
                invariant
                    ne ==> red0.len() >= 1,
                    ne ==> forall|j: int| 0 <= j < red0.len() ==> no_empty(#[trigger] red0[j]),
                    reduced@.len() <= red0.len(),
                    reduced@ == red0.subrange(red0.len() - reduced@.len(), red0.len() as int),
                    ne ==> new_v@.len() >= red0.len() - reduced@.len(),
                    ne || pf ==> forall|env: spec_fn(Seq<char>) -> int| #[trigger] fold_values(op, new_v@, env)
                        == fold_values(op, red0.subrange(0, red0.len() - reduced@.len()), env),
                    pf ==> op == GraphOp::Mul,
                    pf ==> forall|j: int| 0 <= j < red0.len() ==> plus_free(#[trigger] red0[j]),
                    pf ==> forall|j: int| 0 <= j < new_v@.len() ==> plus_free(#[trigger] new_v@[j]),
                    ne ==> forall|j: int| 0 <= j < new_v@.len() ==> no_empty(#[trigger] new_v@[j]),
                    ne ==> forall|j: int| 0 <= j < red0.len() ==> flat(#[trigger] red0[j]),
                    forall|j: int| 0 <= j < new_v@.len() ==> op_operand(#[trigger] new_v@[j], op),
                    ne ==> forall|j: int| 0 <= j < new_v@.len() ==> flat(#[trigger] new_v@[j]),
                decreases reduced.len(),
            {
                let ghost k = red0.len() - reduced@.len();
                let item = reduce_take_first(&mut reduced);
                proof {
                    assert(item == red0[k]);
                }
                collect_with_op(item, &mut new_v, op);
                proof {
                    assert(reduced@ =~= red0.subrange(red0.len() - reduced@.len(), red0.len() as int));
                    if ne || pf {
                        assert forall|env: spec_fn(Seq<char>) -> int| #[trigger] fold_values(op, new_v@, env)
                            == fold_values(op, red0.subrange(0, k + 1), env) by {
                            assert(red0.subrange(0, k + 1) =~= red0.subrange(0, k).push(red0[k]));
                            lemma_fold_push(op, red0.subrange(0, k), red0[k], env);
                            lemma_combine_assoc(op, unit(op), fold_values(op, red0.subrange(0, k), env), val_of(red0[k], env));
                        }
                    }
                }
            }
            proof {
                assert(red0.subrange(0, red0.len() as int) =~= red0);
                if ne {
                    lemma_all_no_empty(new_v@);
                    lemma_all_flat_under(op, new_v@);
                }
            }
            let ghost nv0 = new_v@;
            proof {
                if ne || pf {
                    assert forall|env: spec_fn(Seq<char>) -> int| #[trigger] val_of(g0, env) == fold_values(op, nv0, env) by {
                        assert(fold_values(op, red0, env) == fold_values(op, v0, env));
                        assert(fold_values(op, nv0, env) == fold_values(op, red0.subrange(0, red0.len() as int), env));
                        assert(val_of(g0, env) == fold_values(op, v0, env));
                    }
                }
            }
            if new_v.len() == 1 {
                let r = reduce_take_first(&mut new_v);
                proof {
                    if ne || pf {
                        assert forall|env: spec_fn(Seq<char>) -> int| #[trigger] val_of(g0, env) == val_of(r, env) by {
                            assert(val_of(g0, env) == fold_values(op, nv0, env));
                            lemma_fold_single(op, r, env);
                            assert(nv0 =~= seq![r]);
                        }
                    }
                }
                r
            } else {
                proof {
                    if ne || pf {
                        assert forall|env: spec_fn(Seq<char>) -> int| #[trigger] val_of(g0, env)
                            == val_of(GraphValue::NonTrival((op, new_v)), env) by {
                            assert(val_of(g0, env) == fold_values(op, nv0, env));
                        }
                    }
                    if pf {
                        lemma_plus_free_node(GraphValue::NonTrival((op, new_v)));
                    }
                }
                GraphValue::NonTrival((op, new_v))
            }
        },
    }
}

fn reduce_take_first(v: &mut Vec<GraphValue>) -> (r: GraphValue)
    requires
        old(v)@.len() > 0,
    ensures
        r == old(v)@[0],
        final(v)@ == old(v)@.subrange(1, old(v)@.len() as int),
{
    v.remove(0)
}

impl GraphOp {
    /// Applies this operator to two `i32`s, failing where the exact result does not fit.
    pub fn eval(&self, x1: i32, x2: i32) -> (r: Result<i32, OverflowError>)
        ensures
            r matches Ok(v) ==> v == combine(*self, x1 as int, x2 as int),
            r is Err <==> !(i32::MIN <= combine(*self, x1 as int, x2 as int) <= i32::MAX),
    {
        match self {
            GraphOp::Mul => match x1.checked_mul(x2) {
                Some(v) => Ok(v),
                None => Err(OverflowError {}),
            },
            GraphOp::Plus => match x1.checked_add(x2) {
                Some(v) => Ok(v),
                None => Err(OverflowError {}),
            },
        }
    }
}

fn unit_value(op: GraphOp) -> (r: i32)
    ensures
        r == unit(op),
{
    match op {
        GraphOp::Mul => 1i32,
        GraphOp::Plus => 0i32,
    }
}

/// The literals of `s` from index `n` on, folded with `op` from the last
/// one back; `None` where some step leaves `i32`.
pub open spec fn tail_fold(op: GraphOp, s: Seq<GraphValue>, n: int) -> Option<int>
    decreases s.len() - n,
{
    if n < 0 || n >= s.len() {
        Some(unit(op))
    } else {
        match tail_fold(op, s, n + 1) {
            None => None,
            Some(c) => match s[n] {
                GraphValue::Single(Single::Int(i)) => if i32::MIN <= combine(op, c, i as int) <= i32::MAX {
                    Some(combine(op, c, i as int))
                } else {
                    None
                },
                _ => Some(c),
            },
        }
    }
}

/// Once a tail fold fails, every longer one fails too.
proof fn lemma_tail_fold_none(op: GraphOp, s: Seq<GraphValue>, n: int)
    requires
        0 <= n < s.len(),
        tail_fold(op, s, n) is None,
    ensures
        tail_fold(op, s, 0) is None,
    decreases n,
{
    if n > 0 {
        lemma_tail_fold_none(op, s, n - 1);
    }
}

/// Folds the integer children of an inner node into one literal, placed
/// first; under `Mul`, a zero literal drops the other children.
/// Returns whether the number of leaves went down.
pub fn solve_constant_value(g: GraphValue) -> (r: Result<(GraphValue, bool), OverflowError>)
    ensures
        r matches Ok((n, changed)) ==> same_value(g, n)
            && changed == (capped(leaf_count(n)) < capped(leaf_count(g))),
        r is Ok <==> (g matches GraphValue::NonTrival((op, v)) ==> tail_fold(op, v@, 0) is Some),
        plus_free(g) ==> (r matches Ok((n, _)) ==> plus_free(n)),
{
    let old_size = g.size();
    let ghost g0 = g;
    match g {
        GraphValue::Single(s) => Ok((GraphValue::Single(s), false)),
        GraphValue::NonTrival((op, v)) => {
            let ghost orig = v@;
            proof {
                assert forall|env: spec_fn(Seq<char>) -> int| #[trigger] val_of(g0, env) == fold_values(op, orig, env) by {}
            }
            let start = unit_value(op);
            let mut value = start;
            let mut src = v;
            let mut new_vec: Vec<GraphValue> = Vec::new();
            let ghost pf = plus_free(g0);
            proof {
                assert(src@ =~= orig.take(src@.len() as int));
                lemma_plus_free_node(g0);
            }
            while src.len() > 0
                invariant
                    forall|env: spec_fn(Seq<char>) -> int| #[trigger] fold_values(op, orig, env)
                        == combine(op, combine(op, fold_values(op, src@, env), value as int), fold_values(op, new_vec@, env)),
                    src@.len() <= orig.len(),
                    src@ == orig.take(src@.len() as int),
                    tail_fold(op, orig, src@.len() as int) == Some(value as int),
                    pf == plus_free(g0),
                    pf ==> op == GraphOp::Mul && forall|j: int| 0 <= j < orig.len() ==> plus_free(#[trigger] orig[j]),
                    pf ==> forall|j: int| 0 <= j < new_vec@.len() ==> plus_free(#[trigger] new_vec@[j]),
                    g == g0,
                    g0 == GraphValue::NonTrival((op, g0->NonTrival_0.1)),
                    g0->NonTrival_0.1@ == orig,
                decreases src.len(),
            {
                let ghost src_before = src@;
                let ghost val_before = value;
                let ghost nv_before = new_vec@;
                let x = src.pop().unwrap();
                proof {
                    assert(src_before =~= src@.push(x));
                    assert(src@ =~= orig.take(src@.len() as int));
                    assert(x == orig[src@.len() as int]);
                }
                match x.as_number() {
                    Some(i) => {
                        value = match op.eval(value, i) {
                            Ok(w) => w,
                            Err(e) => {
                                proof {
                                    assert(tail_fold(op, orig, src@.len() as int) is None);
                                    lemma_tail_fold_none(op, orig, src@.len() as int);
                                    assert(tail_fold(op, g0->NonTrival_0.1@, 0) is None);
                                }
                                return Err(e);
                            },
                        };
                        proof {
                            assert forall|env: spec_fn(Seq<char>) -> int| #[trigger] fold_values(op, orig, env)
                                == combine(op, combine(op, fold_values(op, src@, env), value as int), fold_values(op, new_vec@, env)) by {
                                lemma_fold_push(op, src@, x, env);
                                let a = fold_values(op, src@, env);
                                lemma_combine_assoc(op, a, i as int, val_before as int);
                                lemma_combine_assoc(op, a, val_before as int, i as int);
                                lemma_combine_assoc(op, val_before as int, i as int, 0);
                            }
                        }
                    },
                    None => {
                        let ghost nvb = new_vec@;
                        new_vec.push(x);
                        proof {
                            if pf {
                                assert forall|j: int| 0 <= j < new_vec@.len() implies plus_free(#[trigger] new_vec@[j]) by {
                                    if j < nvb.len() {
                                        assert(new_vec@[j] == nvb[j]);
                                    } else {
                                        assert(new_vec@[j] == orig[src@.len() as int]);
                                    }
                                }
                            }
                            assert forall|env: spec_fn(Seq<char>) -> int| #[trigger] fold_values(op, orig, env)
                                == combine(op, combine(op, fold_values(op, src@, env), value as int), fold_values(op, new_vec@, env)) by {
                                lemma_fold_push(op, src@, x, env);
                                lemma_fold_push(op, nv_before, x, env);
                                let a = fold_values(op, src@, env);
                                let b = value as int;
                                let c = val_of(x, env);
                                let d = fold_values(op, nv_before, env);
                                lemma_combine_assoc(op, a, c, b);
                                lemma_combine_assoc(op, a, b, c);
                                lemma_combine_assoc(op, combine(op, a, b), c, d);
                                lemma_combine_assoc(op, combine(op, a, b), d, c);
                                lemma_combine_assoc(op, c, d, 0);
                            }
                        }
                    },
                }
            }
            let ghost nvl = new_vec@;
            proof {
                assert(src@ =~= Seq::<GraphValue>::empty());
            }
            let ghost zeroed = value == 0i32 && op == GraphOp::Mul;
            if value == 0i32 && op == GraphOp::Mul {
                new_vec.clear();
            }
            let mut out: Vec<GraphValue> = Vec::new();
            if value != start || new_vec.len() == 0 {
                out.push(GraphValue::Single(Single::Int(value)));
            }
            let ghost out_before = out@;
            let ghost nv0 = new_vec@;
            proof {
                assert forall|env: spec_fn(Seq<char>) -> int| #[trigger] fold_values(op, orig, env)
                    == combine(op, fold_values(op, out_before, env), fold_values(op, nv0, env)) by {
                    lemma_combine_assoc(op, 0, 0, 0);
                    lemma_fold_empty(op, env);
                    let f = fold_values(op, nvl, env);
                    lemma_combine_assoc(op, unit(op), value as int, 0);
                    assert(fold_values(op, orig, env) == combine(op, value as int, f));
                    if zeroed {
                        assert(nv0 =~= Seq::<GraphValue>::empty());
                        assert(0 * f == 0) by (nonlinear_arith);
                        lemma_fold_single(op, GraphValue::Single(Single::Int(value)), env);
                        assert(out_before =~= seq![GraphValue::Single(Single::Int(value))]);
                    } else if value != start || nv0.len() == 0 {
                        lemma_fold_single(op, GraphValue::Single(Single::Int(value)), env);
                        assert(out_before =~= seq![GraphValue::Single(Single::Int(value))]);
                        lemma_combine_assoc(op, fold_values(op, Seq::<GraphValue>::empty(), env), value as int, f);
                    } else {
                        assert(out_before =~= Seq::<GraphValue>::empty());
                        lemma_combine_assoc(op, value as int, f, 0);
                    }
                }
            }
            proof {
                if pf {
                    assert forall|j: int| 0 <= j < out@.len() implies plus_free(#[trigger] out@[j]) by {
                        assert(out@[j] == GraphValue::Single(Single::Int(value)));
                    }
                }
            }
            while new_vec.len() > 0
                invariant
                    forall|env: spec_fn(Seq<char>) -> int| #[trigger] fold_values(op, orig, env)
                        == combine(op, fold_values(op, out@, env), fold_values(op, new_vec@, env)),
                    pf ==> op == GraphOp::Mul,
                    pf ==> forall|j: int| 0 <= j < new_vec@.len() ==> plus_free(#[trigger] new_vec@[j]),
                    pf ==> forall|j: int| 0 <= j < out@.len() ==> plus_free(#[trigger] out@[j]),
                decreases new_vec.len(),
            {
                let ghost nv_before = new_vec@;
                let ghost o_before = out@;
                let item = new_vec.pop().unwrap();
                out.push(item);
                proof {
                    assert(nv_before =~= new_vec@.push(item));
                    assert(item == nv_before[nv_before.len() - 1]);
                    if pf {
                        assert forall|j: int| 0 <= j < new_vec@.len() implies plus_free(#[trigger] new_vec@[j]) by {
                            assert(new_vec@[j] == nv_before[j]);
                        }
                        assert forall|j: int| 0 <= j < out@.len() implies plus_free(#[trigger] out@[j]) by {
                            if j < o_before.len() {
                                assert(out@[j] == o_before[j]);
                            }
                        }
                    }
                    assert forall|env: spec_fn(Seq<char>) -> int| #[trigger] fold_values(op, orig, env)
                        == combine(op, fold_values(op, out@, env), fold_values(op, new_vec@, env)) by {
                        lemma_fold_push(op, new_vec@, item, env);
                        lemma_fold_push(op, o_before, item, env);
                        let a = fold_values(op, o_before, env);
                        let b = fold_values(op, new_vec@, env);
                        let c = val_of(item, env);
                        lemma_combine_assoc(op, a, b, c);
                        lemma_combine_assoc(op, a, c, b);
                        lemma_combine_assoc(op, b, c, 0);
                    }
                }
            }
            let n = GraphValue::NonTrival((op, out));
            proof {
                assert(new_vec@ =~= Seq::<GraphValue>::empty());
                assert forall|env: spec_fn(Seq<char>) -> int| #[trigger] val_of(g0, env) == val_of(n, env) by {
                    lemma_fold_empty(op, env);
                    lemma_combine_assoc(op, fold_values(op, out@, env), 0, 0);
                }
                lemma_plus_free_node(n);
            }
            let new_size = n.size();
            Ok((n, new_size < old_size))
        },
    }
}

pub proof fn lemma_fold_scaled(a: Seq<GraphValue>, b: Seq<GraphValue>, c: int, env: spec_fn(Seq<char>) -> int)
    requires
        a.len() == b.len(),
        forall|j: int| 0 <= j < a.len() ==> val_of(#[trigger] b[j], env) == c * val_of(a[j], env),
    ensures
        fold_values(GraphOp::Plus, b, env) == c * fold_values(GraphOp::Plus, a, env),
    decreases a.len(),
{
    if a.len() > 0 {
        let a0 = a.drop_last();
        let b0 = b.drop_last();
        assert(a =~= a0.push(a.last()));
        assert(b =~= b0.push(b.last()));
        lemma_fold_push(GraphOp::Plus, a0, a.last(), env);
        lemma_fold_push(GraphOp::Plus, b0, b.last(), env);
        assert forall|j: int| 0 <= j < a0.len() implies val_of(#[trigger] b0[j], env) == c * val_of(a0[j], env) by {
            assert(a0[j] == a[j]);
            assert(b0[j] == b[j]);
        }
        lemma_fold_scaled(a0, b0, c, env);
        let x = fold_values(GraphOp::Plus, a0, env);
        let y = val_of(a.last(), env);
        assert(c * x + c * y == c * (x + y)) by (nonlinear_arith);
    }
}

/// Every integer literal among `s`, times `t`, stays within `i32`.
pub open spec fn literals_scale_fit(t: int, s: Seq<GraphValue>) -> bool {
    forall|j: int| 0 <= j < s.len() ==> match #[trigger] s[j] {
        GraphValue::Single(Single::Int(v)) => i32::MIN <= v * t <= i32::MAX,
        _ => true,
    }
}

/// Multiplies every operand of a sum by `t`: literals are multiplied out,
/// other operands are wrapped in a product with `t`.
fn times_list(t: i32, vec: &Vec<GraphValue>) -> (r: Result<Vec<GraphValue>, OverflowError>)
    ensures
        r matches Ok(out) ==> out@.len() == vec@.len()
            && (forall|j: int, env: spec_fn(Seq<char>) -> int| 0 <= j < vec@.len()
                ==> #[trigger] val_of(out@[j], env) == t * val_of(vec@[j], env))
            && forall|env: spec_fn(Seq<char>) -> int| #[trigger] fold_values(GraphOp::Plus, out@, env)
                == t * fold_values(GraphOp::Plus, vec@, env),
        r is Ok <==> literals_scale_fit(t as int, vec@),
{
    let mut ans: Vec<GraphValue> = Vec::new();
    let mut i: usize = 0;
    while i < vec.len()
        invariant
            i <= vec.len(),
            forall|j: int| 0 <= j < i ==> match #[trigger] vec@[j] {
                GraphValue::Single(Single::Int(v)) => i32::MIN <= v * t <= i32::MAX,
                _ => true,
            },
            ans@.len() == i,
            forall|j: int, env: spec_fn(Seq<char>) -> int| 0 <= j < i ==> #[trigger] val_of(ans@[j], env) == t * val_of(vec@[j], env),
        decreases vec.len() - i,
    {
        let item = &vec[i];
        let processed = match item {
            GraphValue::Single(Single::Int(v)) => match v.checked_mul(t) {
                Some(p) => GraphValue::Single(Single::Int(p)),
                None => {
                    proof {
                        assert(!(match vec@[i as int] {
                            GraphValue::Single(Single::Int(v)) => i32::MIN <= v * t <= i32::MAX,
                            _ => true,
                        }));
                    }
                    return Err(OverflowError {});
                },
            },
            _ => {
                let mut pair: Vec<GraphValue> = Vec::new();
                pair.push(GraphValue::Single(Single::Int(t)));
                pair.push(item.dup());
                GraphValue::NonTrival((GraphOp::Mul, pair))
            },
        };
        proof {
            assert forall|env: spec_fn(Seq<char>) -> int| val_of(processed, env) == t * val_of(vec@[i as int], env) by {
                match item {
                    GraphValue::Single(Single::Int(v)) => {
                        let vv: i32 = *v;
                        assert(vv * t == t * vv) by (nonlinear_arith);
                    },
                    _ => {
                        let pv = processed->NonTrival_0.1@;
                        assert(pv =~= Seq::<GraphValue>::empty().push(GraphValue::Single(Single::Int(t))).push(pv[1]));
                        lemma_fold_push(GraphOp::Mul, Seq::<GraphValue>::empty().push(GraphValue::Single(Single::Int(t))), pv[1], env);
                        lemma_fold_single(GraphOp::Mul, GraphValue::Single(Single::Int(t)), env);
                        assert(seq![GraphValue::Single(Single::Int(t))] =~= Seq::<GraphValue>::empty().push(GraphValue::Single(Single::Int(t))));
                    },
                }
            }
        }
        ans.push(processed);
        i = i + 1;
    }
    proof {
        assert forall|env: spec_fn(Seq<char>) -> int| #[trigger] fold_values(GraphOp::Plus, ans@, env)
            == t * fold_values(GraphOp::Plus, vec@, env) by {
            lemma_fold_scaled(vec@, ans@, t as int, env);
        }
    }
    Ok(ans)
}

pub proof fn lemma_fold_pair(op: GraphOp, a: GraphValue, b: GraphValue, env: spec_fn(Seq<char>) -> int)
    ensures
        fold_values(op, seq![a, b], env) == combine(op, val_of(a, env), val_of(b, env)),
{
    assert(seq![a, b] =~= seq![a].push(b));
    lemma_fold_push(op, seq![a], b, env);
    lemma_fold_single(op, a, env);
}

proof fn lemma_mul3(a: int, b: int, c: int, d: int)
    ensures
        a * b * (c * d) == (a * d) * b * c,
        a * b * (c * d) == a * (b * d) * c,
{
    assert(a * b * (c * d) == (a * d) * b * c) by (nonlinear_arith);
    assert(a * b * (c * d) == a * (b * d) * c) by (nonlinear_arith);
}

/// The literal factor carried by `distribute_factors` after the first `n`
/// factors of `s`; `None` where a step leaves `i32`.
pub open spec fn factor_state(s: Seq<GraphValue>, n: int) -> Option<int>
    decreases n,
{
    if n <= 0 || n > s.len() {
        Some(1)
    } else {
        match factor_state(s, n - 1) {
            None => None,
            Some(c) => match s[n - 1] {
                GraphValue::Single(Single::Int(i)) => if i32::MIN <= c * i <= i32::MAX {
                    Some(c * i)
                } else {
                    None
                },
                GraphValue::NonTrival((op, v)) => if op == GraphOp::Plus && c != 1 && v.len() > 0
                    && v@[0] is Single && v@[0]->Single_0 is Int {
                    if literals_scale_fit(c, v@) {
                        Some(1)
                    } else {
                        None
                    }
                } else {
                    Some(c)
                },
                _ => Some(c),
            },
        }
    }
}

/// Once the carried factor overflows, it stays overflowed.
proof fn lemma_factor_state_none(s: Seq<GraphValue>, n: int)
    requires
        0 < n <= s.len(),
        factor_state(s, n) is None,
    ensures
        factor_state(s, s.len() as int) is None,
    decreases s.len() - n,
{
    if n < s.len() {
        lemma_factor_state_none(s, n + 1);
    }
}

/// The product-of-many case of `mul_const_value`: literal factors are
/// multiplied together, and the product so far is pushed into the next sum
/// that starts with a literal.
fn distribute_factors(parts: Vec<GraphValue>) -> (r: Result<(Vec<GraphValue>, bool), OverflowError>)
    ensures
        r matches Ok((out, _)) ==> forall|env: spec_fn(Seq<char>) -> int| #[trigger] fold_values(GraphOp::Mul, out@, env)
            == fold_values(GraphOp::Mul, parts@, env),
        r is Ok <==> factor_state(parts@, parts@.len() as int) is Some,
        (forall|j: int| 0 <= j < parts@.len() ==> plus_free(#[trigger] parts@[j]))
            ==> (r matches Ok((out, _)) ==> forall|i: int| 0 <= i < out@.len() ==> plus_free(#[trigger] out@[i])),
{
    let ghost sorted = parts@;
    let ghost pfp = forall|j: int| 0 <= j < parts@.len() ==> plus_free(#[trigger] parts@[j]);
    let mut changed = false;
    let mut const_part: i32 = 1;
    let mut new_parts: Vec<GraphValue> = Vec::new();
    let mut src = parts;
    proof {
        assert forall|env: spec_fn(Seq<char>) -> int| #[trigger] fold_values(GraphOp::Mul, sorted, env)
            == const_part * fold_values(GraphOp::Mul, new_parts@, env) * fold_values(GraphOp::Mul, src@, env) by {
            lemma_fold_empty(GraphOp::Mul, env);
            let x = fold_values(GraphOp::Mul, sorted, env);
            assert(1 * 1 * x == x) by (nonlinear_arith);
        }
    }
    proof {
        assert(src@ =~= sorted.subrange(0, sorted.len() as int));
    }
    while src.len() > 0
        invariant
            forall|env: spec_fn(Seq<char>) -> int| #[trigger] fold_values(GraphOp::Mul, sorted, env)
                == const_part * fold_values(GraphOp::Mul, new_parts@, env) * fold_values(GraphOp::Mul, src@, env),
            src@.len() <= sorted.len(),
            src@ == sorted.subrange(sorted.len() - src@.len(), sorted.len() as int),
            factor_state(sorted, sorted.len() - src@.len()) == Some(const_part as int),
            sorted == parts@,
            pfp == (forall|j: int| 0 <= j < sorted.len() ==> plus_free(#[trigger] sorted[j])),
            pfp ==> forall|j: int| 0 <= j < new_parts@.len() ==> plus_free(#[trigger] new_parts@[j]),
        decreases src.len(),
    {
        let ghost src_before = src@;
        let ghost np_before = new_parts@;
        let ghost cp_before = const_part;
        let ghost n: int = sorted.len() - src@.len();
        let item = src.remove(0);
        let ghost gi = item;
        proof {
            if item is NonTrival {
                lemma_plus_free_node(item);
            }
            assert(item == sorted[n]);
            assert(src@ =~= sorted.subrange(n + 1, sorted.len() as int));
            assert(src@ =~= src_before.remove(0));
            assert forall|env: spec_fn(Seq<char>) -> int| #[trigger] fold_values(GraphOp::Mul, src_before, env)
                == fold_values(GraphOp::Mul, src@, env) * val_of(item, env) by {
                lemma_fold_remove(GraphOp::Mul, src_before, 0, env);
            }
        }
        match item {
            GraphValue::Single(Single::Int(i)) => {
                const_part = match const_part.checked_mul(i) {
                    Some(p) => p,
                    None => {
                        proof {
                            assert(factor_state(sorted, n) == Some(cp_before as int));
                            assert(factor_state(sorted, n + 1) is None);
                            lemma_factor_state_none(sorted, n + 1);
                        }
                        return Err(OverflowError {});
                    },
                };
                proof {
                    assert forall|env: spec_fn(Seq<char>) -> int| #[trigger] fold_values(GraphOp::Mul, sorted, env)
                        == const_part * fold_values(GraphOp::Mul, new_parts@, env) * fold_values(GraphOp::Mul, src@, env) by {
                        lemma_mul3(cp_before as int, fold_values(GraphOp::Mul, np_before, env), fold_values(GraphOp::Mul, src@, env), i as int);
                    }
                }
            },
            GraphValue::NonTrival((GraphOp::Plus, v)) => {
                if const_part != 1i32 && v.len() > 0 && v[0].as_number().is_some() {
                    changed = true;
                    let timed = match times_list(const_part, &v) {
                        Ok(t) => t,
                        Err(e) => {
                            proof {
                                assert(factor_state(sorted, n) == Some(cp_before as int));
                                assert(factor_state(sorted, n + 1) is None);
                                lemma_factor_state_none(sorted, n + 1);
                            }
                            return Err(e);
                        },
                    };
                    let ghost old_item = GraphValue::NonTrival((GraphOp::Plus, v));
                    let pushed = GraphValue::NonTrival((GraphOp::Plus, timed));
                    new_parts.push(pushed);
                    proof {
                        assert forall|env: spec_fn(Seq<char>) -> int| #[trigger] fold_values(GraphOp::Mul, sorted, env)
                            == 1i32 * fold_values(GraphOp::Mul, new_parts@, env) * fold_values(GraphOp::Mul, src@, env) by {
                            lemma_fold_push(GraphOp::Mul, np_before, pushed, env);
                            assert(fold_values(GraphOp::Plus, timed@, env) == cp_before * fold_values(GraphOp::Plus, v@, env));
                            assert(val_of(pushed, env) == fold_values(GraphOp::Plus, timed@, env));
                            assert(val_of(old_item, env) == fold_values(GraphOp::Plus, v@, env));
                            let p = cp_before as int;
                            let f = fold_values(GraphOp::Mul, np_before, env);
                            let rr = fold_values(GraphOp::Mul, src@, env);
                            let x = val_of(old_item, env);
                            assert(p * f * (rr * x) == 1 * (f * (p * x)) * rr) by (nonlinear_arith);
                        }
                    }
                    const_part = 1i32;
                } else {
                    let pushed = GraphValue::NonTrival((GraphOp::Plus, v));
                    new_parts.push(pushed);
                    proof {
                        assert forall|env: spec_fn(Seq<char>) -> int| #[trigger] fold_values(GraphOp::Mul, sorted, env)
                            == const_part * fold_values(GraphOp::Mul, new_parts@, env) * fold_values(GraphOp::Mul, src@, env) by {
                            lemma_fold_push(GraphOp::Mul, np_before, pushed, env);
                            lemma_mul3(cp_before as int, fold_values(GraphOp::Mul, np_before, env), fold_values(GraphOp::Mul, src@, env), val_of(pushed, env));
                        }
                    }
                }
            },
            other => {
                new_parts.push(other);
                proof {
                    assert forall|env: spec_fn(Seq<char>) -> int| #[trigger] fold_values(GraphOp::Mul, sorted, env)
                        == const_part * fold_values(GraphOp::Mul, new_parts@, env) * fold_values(GraphOp::Mul, src@, env) by {
                        lemma_fold_push(GraphOp::Mul, np_before, item, env);
                        lemma_mul3(cp_before as int, fold_values(GraphOp::Mul, np_before, env), fold_values(GraphOp::Mul, src@, env), val_of(item, env));
                    }
                }
            },
        }
        proof {
            if pfp {
                assert(plus_free(gi));
                assert forall|j: int| 0 <= j < new_parts@.len() implies plus_free(#[trigger] new_parts@[j]) by {
                    if j < np_before.len() {
                        assert(new_parts@[j] == np_before[j]);
                    }
                }
            }
        }
    }
    let mut out: Vec<GraphValue> = Vec::new();
    if const_part != 1 {
        out.push(GraphValue::Single(Single::Int(const_part)));
    }
    let ghost head = out@;
    let ghost np = new_parts@;
    out.append(&mut new_parts);
    proof {
        if pfp {
            assert forall|i: int| 0 <= i < out@.len() implies plus_free(#[trigger] out@[i]) by {
                assert(out@ =~= head + np);
                if i >= head.len() {
                    assert(out@[i] == np[i - head.len()]);
                }
            }
        }
        assert forall|env: spec_fn(Seq<char>) -> int| #[trigger] fold_values(GraphOp::Mul, out@, env)
            == fold_values(GraphOp::Mul, sorted, env) by {
            assert(src@ =~= Seq::<GraphValue>::empty());
            lemma_fold_empty(GraphOp::Mul, env);
            lemma_fold_append(GraphOp::Mul, head, np, env);
            assert(out@ =~= head + np);
            if const_part != 1 {
                lemma_fold_single(GraphOp::Mul, GraphValue::Single(Single::Int(const_part)), env);
                assert(head =~= seq![GraphValue::Single(Single::Int(const_part))]);
            } else {
                assert(head =~= Seq::<GraphValue>::empty());
            }
            let f = fold_values(GraphOp::Mul, np, env);
            let c = const_part as int;
            assert(c * f * 1 == c * f) by (nonlinear_arith);
            assert(1 * f == f) by (nonlinear_arith);
        }
    }
    Ok((out, changed))
}

/// A product `[c, s]` of a literal `c` other than one and a sum `s`, as the
/// sum with every operand scaled by `c`; `None` where `parts` has another
/// shape or scaling overflows.
fn scale_sum(parts: &Vec<GraphValue>) -> (r: Option<GraphValue>)
    requires
        parts@.len() == 2,
    ensures
        r matches Some(n) ==> forall|env: spec_fn(Seq<char>) -> int| #[trigger] val_of(n, env)
            == fold_values(GraphOp::Mul, parts@, env),
        r is Some <==> (parts@[0] matches GraphValue::Single(Single::Int(c)) && c != 1
            && (parts@[1] matches GraphValue::NonTrival((op, w)) && op == GraphOp::Plus
                && literals_scale_fit(c as int, w@))),
{
    let const_part = match parts[0].as_number() {
        Some(c) => c,
        None => {
            return None;
        },
    };
    if const_part == 1 {
        return None;
    }
    match &parts[1] {
        GraphValue::NonTrival((GraphOp::Plus, add_parts)) => {
            match times_list(const_part, add_parts) {
                Ok(timed) => {
                    let n = GraphValue::NonTrival((GraphOp::Plus, timed));
                    proof {
                        assert forall|env: spec_fn(Seq<char>) -> int| #[trigger] val_of(n, env)
                            == fold_values(GraphOp::Mul, parts@, env) by {
                            assert(parts@ =~= seq![parts@[0], parts@[1]]);
                            lemma_fold_pair(GraphOp::Mul, parts@[0], parts@[1], env);
                            assert(fold_values(GraphOp::Plus, timed@, env) == const_part * fold_values(GraphOp::Plus, add_parts@, env));
                        }
                    }
                    Some(n)
                },
                Err(_) => None,
            }
        },
        _ => None,
    }
}

/// Distributes literal factors of a product over sums: a product of a
/// literal (other than one) and a sum becomes the scaled sum; a product of
/// more than two factors goes through `distribute_factors`. The children
/// are sorted first. Returns whether the second rewrite pushed a literal
/// into a sum.
#[verifier::spinoff_prover]
#[verifier::rlimit(40)]
pub fn mul_const_value(g: GraphValue) -> (r: Result<(GraphValue, bool), OverflowError>)
    ensures
        r matches Ok((n, _)) ==> same_value(g, n),
        !(g matches GraphValue::NonTrival((op, v)) && op == GraphOp::Mul && v.len() > 2) ==> r is Ok,
        plus_free(g) ==> (r matches Ok((n, _)) ==> plus_free(n)),
{
    let ghost g0 = g;
    match g {
        GraphValue::Single(s) => Ok((GraphValue::Single(s), false)),
        GraphValue::NonTrival((op, parts0)) => {
            let ghost orig = parts0@;
            proof {
                assert forall|env: spec_fn(Seq<char>) -> int| #[trigger] val_of(g0, env) == fold_values(op, orig, env) by {}
            }
            let mut parts = parts0;
            sort_list(&mut parts);
            let ghost sorted = parts@;
            let ghost pf = plus_free(g0);
            proof {
                if pf {
                    lemma_plus_free_node(g0);
                    lemma_arrangement_plus_free(orig, sorted);
                    lemma_plus_free_node(GraphValue::NonTrival((op, parts)));
                }
            }
            if op == GraphOp::Mul && parts.len() == 2 && parts[0].as_number().is_some() {
                proof {
                    if pf && parts@[1] is NonTrival {
                        lemma_plus_free_node(parts@[1]);
                    }
                }
                if let Some(n) = scale_sum(&parts) {
                    proof {
                        assert forall|env: spec_fn(Seq<char>) -> int| #[trigger] val_of(g0, env) == val_of(n, env) by {
                            assert(fold_values(op, sorted, env) == fold_values(op, orig, env));
                            assert(val_of(n, env) == fold_values(GraphOp::Mul, sorted, env));
                        }
                    }
                    return Ok((n, false));
                }
                let n = GraphValue::NonTrival((op, parts));
                proof {
                    assert forall|env: spec_fn(Seq<char>) -> int| #[trigger] val_of(g0, env) == val_of(n, env) by {
                        assert(fold_values(op, sorted, env) == fold_values(op, orig, env));
                    }
                }
                Ok((n, false))
            } else if op == GraphOp::Mul && parts.len() > 2 {
                let (out, changed) = distribute_factors(parts)?;
                let n = GraphValue::NonTrival((GraphOp::Mul, out));
                proof {
                    if pf {
                        lemma_plus_free_node(n);
                    }
                    assert forall|env: spec_fn(Seq<char>) -> int| #[trigger] val_of(g0, env) == val_of(n, env) by {
                        assert(fold_values(op, sorted, env) == fold_values(op, orig, env));
                        assert(fold_values(GraphOp::Mul, out@, env) == fold_values(GraphOp::Mul, sorted, env));
                    }
                }
                Ok((n, changed))
            } else {
                let n = GraphValue::NonTrival((op, parts));
                proof {
                    assert forall|env: spec_fn(Seq<char>) -> int| #[trigger] val_of(g0, env) == val_of(n, env) by {
                        assert(fold_values(op, sorted, env) == fold_values(op, orig, env));
                    }
                }
                Ok((n, false))
            }
        },
    }
}

/// The operands of `g` seen as an `op`-list: the children of a node with
/// operator `op` or with fewer than two children, else `g` alone.
pub open spec fn items(g: GraphValue, op: GraphOp) -> Seq<GraphValue> {
    match g {
        GraphValue::NonTrival((o, v)) => if o == op || v.len() < 2 {
            v@
        } else {
            seq![g]
        },
        _ => seq![g],
    }
}

/// An inner node without children.
pub open spec fn is_empty_node(g: GraphValue) -> bool {
    g matches GraphValue::NonTrival((_, v)) && v.len() == 0
}

pub proof fn lemma_items_fold(g: GraphValue, op: GraphOp, env: spec_fn(Seq<char>) -> int)
    requires
        !is_empty_node(g),
    ensures
        fold_values(op, items(g, op), env) == val_of(g, env),
{
    match g {
        GraphValue::NonTrival((o, v)) => {
            if o == op {
            } else if v.len() < 2 {
                assert(v@ =~= seq![v@[0]]);
                lemma_fold_single(op, v@[0], env);
                lemma_fold_single(o, v@[0], env);
            } else {
                lemma_fold_single(op, g, env);
            }
        },
        _ => {
            lemma_fold_single(op, g, env);
        },
    }
}

/// Lists that agree term by term have the same folds.
pub open spec fn same_terms(a: Seq<GraphValue>, b: Seq<GraphValue>) -> bool {
    a.len() == b.len() && forall|i: int| 0 <= i < a.len() ==> term_of(#[trigger] a[i]) == term_of(b[i])
}

pub proof fn lemma_same_terms_fold(op: GraphOp, a: Seq<GraphValue>, b: Seq<GraphValue>, env: spec_fn(Seq<char>) -> int)
    requires
        same_terms(a, b),
    ensures
        fold_values(op, a, env) == fold_values(op, b, env),
{
    assert forall|j: int| 0 <= j < a.len() implies val_of(#[trigger] a[j], env) == val_of(b[j], env) by {
        assert(term_of(a[j]) == term_of(b[j]));
    }
    lemma_fold_pointwise(op, a, b, env);
}

/// A copy of the operands of `g` seen as an `op`-list.
fn collect_items(g: &GraphValue, op: GraphOp) -> (r: Vec<GraphValue>)
    ensures
        same_terms(r@, items(*g, op)),
{
    match g {
        GraphValue::NonTrival((o, v)) => {
            if *o == op || v.len() < 2 {
                let mut out: Vec<GraphValue> = Vec::new();
                let mut i: usize = 0;
                while i < v.len()
                    invariant
                        i <= v.len(),
                        out@.len() == i,
                        forall|j: int| 0 <= j < i ==> term_of(#[trigger] out@[j]) == term_of(v@[j]),
                    decreases v.len() - i,
                {
                    out.push(v[i].dup());
                    i = i + 1;
                }
                out
            } else {
                let mut out: Vec<GraphValue> = Vec::new();
                out.push(g.dup());
                out
            }
        },
        _ => {
            let mut out: Vec<GraphValue> = Vec::new();
            out.push(g.dup());
            out
        },
    }
}

pub proof fn lemma_fold_mul_split(s: Seq<GraphValue>, k: int, env: spec_fn(Seq<char>) -> int)
    requires
        0 <= k < s.len(),
    ensures
        fold_values(GraphOp::Mul, s.subrange(k, s.len() as int), env)
            == val_of(s[k], env) * fold_values(GraphOp::Mul, s.subrange(k + 1, s.len() as int), env),
{
    let t = s.subrange(k, s.len() as int);
    lemma_fold_remove(GraphOp::Mul, t, 0, env);
    assert(t.remove(0) =~= s.subrange(k + 1, s.len() as int));
    let x = val_of(s[k], env);
    let y = fold_values(GraphOp::Mul, s.subrange(k + 1, s.len() as int), env);
    assert(y * x == x * y) by (nonlinear_arith);
}

/// An integer literal.
pub open spec fn is_lit(g: GraphValue) -> bool {
    g matches GraphValue::Single(Single::Int(_))
}

/// The value of an integer literal.
pub open spec fn lit(g: GraphValue) -> i32 {
    g->Single_0->Int_0
}

/// The index of the first operand of `s` from `i` on that is not an
/// integer literal.
pub open spec fn lead_lits(s: Seq<GraphValue>, i: int) -> int
    decreases s.len() - i,
{
    if 0 <= i < s.len() && is_lit(s[i]) {
        lead_lits(s, i + 1)
    } else {
        i
    }
}

/// The product of the first `k` operands of `s` (literals), multiplied in
/// order with `checked_mul`; `None` where a step overflows.
pub open spec fn lit_product_checked(s: Seq<GraphValue>, k: int) -> Option<i32>
    decreases k,
{
    if k <= 0 {
        Some(1i32)
    } else {
        match lit_product_checked(s, k - 1) {
            Some(p) => p.checked_mul(lit(s[k - 1])),
            None => None,
        }
    }
}

/// `c` divided by the literals `s[j..end]` in turn, each division exact;
/// `None` where a literal is zero, a division overflows or leaves a remainder.
pub open spec fn divide_lits(c: i32, s: Seq<GraphValue>, j: int, end: int) -> Option<i32>
    decreases end - j,
{
    if j >= end || j < 0 {
        Some(c)
    } else {
        let i = lit(s[j]);
        if i == 0 {
            None
        } else {
            match c.checked_div(i) {
                None => None,
                Some(q) => match q.checked_mul(i) {
                    None => None,
                    Some(back) => if back == c { divide_lits(q, s, j + 1, end) } else { None },
                },
            }
        }
    }
}

/// Walks the factors `l[li..]` and `r[ri..]` in step: equal factors cancel,
/// a smaller factor of `l` is kept; `None` where a factor of `r` is smaller
/// or is left over. Returns the kept factors and where `l` was left.
pub open spec fn merge_div(l: Seq<GraphValue>, r: Seq<GraphValue>, li: int, ri: int) -> Option<(Seq<GraphValue>, int)>
    decreases l.len() - li + r.len() - ri,
{
    if 0 <= li < l.len() && 0 <= ri < r.len() {
        if term_of(l[li]) == term_of(r[ri]) {
            merge_div(l, r, li + 1, ri + 1)
        } else if graph_order_spec(l[li], r[ri]) == Order3::Less {
            match merge_div(l, r, li + 1, ri) {
                Some((m, e)) => Some((seq![l[li]] + m, e)),
                None => None,
            }
        } else {
            None
        }
    } else if ri < r.len() {
        None
    } else {
        Some((Seq::<GraphValue>::empty(), li))
    }
}

/// The term of the exact quotient that `div` computes, or `None` where it
/// gives none.
pub open spec fn div_term(this: GraphValue, other: GraphValue) -> Option<Term> {
    let l = items(this, GraphOp::Mul);
    let r = items(other, GraphOp::Mul);
    let a = lead_lits(l, 0);
    let b = lead_lits(r, 0);
    match lit_product_checked(l, a) {
        None => None,
        Some(c) => if c == 0 {
            Some(Term::Num(0))
        } else {
            match divide_lits(c, r, 0, b) {
                None => None,
                Some(c2) => match merge_div(l, r, a, b) {
                    None => None,
                    Some((m, e)) => {
                        let res = m + (if c2 != 1 { seq![GraphValue::Single(Single::Int(c2))] } else { Seq::empty() })
                            + l.subrange(e, l.len() as int);
                        Some(if res.len() == 0 { Term::Num(1) } else { Term::Node(GraphOp::Mul, terms_of(res)) })
                    },
                },
            }
        },
    }
}

/// Literals are the leaves denoting numbers.
pub proof fn lemma_lit_term(g: GraphValue)
    ensures
        is_lit(g) <==> term_of(g) is Num,
        is_lit(g) ==> term_of(g) == Term::Num(lit(g) as int),
{
}

pub proof fn lemma_lead_lits_ge(s: Seq<GraphValue>, k: int)
    ensures
        lead_lits(s, k) >= k,
    decreases s.len() - k,
{
    if 0 <= k < s.len() && is_lit(s[k]) {
        lemma_lead_lits_ge(s, k + 1);
    }
}

/// Once the checked product of the leading literals overflows, it stays
/// overflowed.
pub proof fn lemma_lit_product_none(s: Seq<GraphValue>, k: int, k2: int)
    requires
        k <= k2,
        lit_product_checked(s, k) is None,
    ensures
        lit_product_checked(s, k2) is None,
    decreases k2 - k,
{
    if k < k2 {
        lemma_lit_product_none(s, k, k2 - 1);
    }
}

/// Cancels the factors of `other` out of `this`: `Some(q)` where every
/// factor of `other` was found among the factors of `this` and the
/// literal parts divide exactly; `q` is then the remaining product.
#[verifier::spinoff_prover]
pub fn div(this: &GraphValue, other: &GraphValue) -> (r: Option<GraphValue>)
    ensures
        r is Some <==> div_term(*this, *other) is Some,
        r matches Some(q) ==> div_term(*this, *other) == Some(term_of(q)),
        !is_empty_node(*this) && !is_empty_node(*other) ==> (r matches Some(q) ==>
            forall|env: spec_fn(Seq<char>) -> int| #[trigger] val_of(*this, env) == val_of(*other, env) * val_of(q, env)),
{
    let left = collect_items(this, GraphOp::Mul);
    let right = collect_items(other, GraphOp::Mul);
    let ghost ok = !is_empty_node(*this) && !is_empty_node(*other);
    proof {
        if ok {
            assert forall|env: spec_fn(Seq<char>) -> int| #[trigger] val_of(*this, env) == fold_values(GraphOp::Mul, left@, env)
                && val_of(*other, env) == fold_values(GraphOp::Mul, right@, env) by {
                lemma_items_fold(*this, GraphOp::Mul, env);
                lemma_items_fold(*other, GraphOp::Mul, env);
                lemma_same_terms_fold(GraphOp::Mul, left@, items(*this, GraphOp::Mul), env);
                lemma_same_terms_fold(GraphOp::Mul, right@, items(*other, GraphOp::Mul), env);
            }
        }
    }
    let ghost L = left@;
    let ghost R = right@;
    let ghost Lo = items(*this, GraphOp::Mul);
    let ghost Ro = items(*other, GraphOp::Mul);
    proof {
        assert forall|i: int| 0 <= i < L.len() implies (is_lit(#[trigger] L[i]) <==> is_lit(Lo[i]))
            && (is_lit(L[i]) ==> lit(L[i]) == lit(Lo[i])) by {
            lemma_lit_term(L[i]);
            lemma_lit_term(Lo[i]);
        }
        assert forall|i: int| 0 <= i < R.len() implies (is_lit(#[trigger] R[i]) <==> is_lit(Ro[i]))
            && (is_lit(R[i]) ==> lit(R[i]) == lit(Ro[i])) by {
            lemma_lit_term(R[i]);
            lemma_lit_term(Ro[i]);
        }
    }
    let mut li: usize = 0;
    let mut ri: usize = 0;
    let mut const_part: i32 = 1;
    proof {
        assert forall|env: spec_fn(Seq<char>) -> int| #[trigger] fold_values(GraphOp::Mul, L, env)
            == const_part * fold_values(GraphOp::Mul, L.subrange(li as int, L.len() as int), env) by {
            assert(L.subrange(0, L.len() as int) =~= L);
        }
    }
    while li < left.len() && left[li].as_number().is_some()
        invariant
            L == left@,
            li <= left.len(),
            Lo == items(*this, GraphOp::Mul),
            Ro == items(*other, GraphOp::Mul),
            same_terms(L, Lo),
            forall|i: int| 0 <= i < L.len() ==> (is_lit(#[trigger] L[i]) <==> is_lit(Lo[i]))
                && (is_lit(L[i]) ==> lit(L[i]) == lit(Lo[i])),
            lit_product_checked(Lo, li as int) == Some(const_part),
            lead_lits(Lo, 0) == lead_lits(Lo, li as int),
            forall|env: spec_fn(Seq<char>) -> int| #[trigger] fold_values(GraphOp::Mul, L, env)
                == const_part * fold_values(GraphOp::Mul, L.subrange(li as int, L.len() as int), env),
        decreases left.len() - li,
    {
        let i = left[li].as_number().unwrap();
        let ghost cp = const_part;
        proof {
            assert forall|env: spec_fn(Seq<char>) -> int| #[trigger] fold_values(GraphOp::Mul, L, env)
                == (cp * i) * fold_values(GraphOp::Mul, L.subrange(li + 1, L.len() as int), env) by {
                lemma_fold_mul_split(L, li as int, env);
                let y = fold_values(GraphOp::Mul, L.subrange(li + 1, L.len() as int), env);
                assert(cp * (i * y) == (cp * i) * y) by (nonlinear_arith);
            }
        }
        proof {
            assert(is_lit(L[li as int]));
            assert(lit(Lo[li as int]) == i);
            assert(lead_lits(Lo, li as int) == lead_lits(Lo, li + 1));
        }
        li = li + 1;
        const_part = match const_part.checked_mul(i) {
            Some(p) => p,
            None => {
                proof {
                    assert(lit_product_checked(Lo, li as int) is None);
                    lemma_lead_lits_ge(Lo, li as int);
                    lemma_lit_product_none(Lo, li as int, lead_lits(Lo, 0));
                }
                return None;
            },
        };
    }
    proof {
        assert(lead_lits(Lo, li as int) == li);
    }
    if const_part == 0 {
        proof {
            if ok {
                assert forall|env: spec_fn(Seq<char>) -> int| #[trigger] val_of(*this, env)
                    == val_of(*other, env) * val_of(GraphValue::Single(Single::Int(0)), env) by {
                    assert(val_of(*this, env) == fold_values(GraphOp::Mul, L, env));
                    let y = fold_values(GraphOp::Mul, L.subrange(li as int, L.len() as int), env);
                    let z = val_of(*other, env);
                    assert(0 * y == z * 0) by (nonlinear_arith);
                }
            }
        }
        proof {
            assert(lead_lits(Lo, 0) == li);
        }
        return Some(GraphValue::Single(Single::Int(0)));
    }
    // d: the product of the literal factors of `other` consumed so far.
    let ghost mut d: int = 1;
    proof {
        assert forall|env: spec_fn(Seq<char>) -> int| #[trigger] fold_values(GraphOp::Mul, R, env)
            == d * fold_values(GraphOp::Mul, R.subrange(ri as int, R.len() as int), env) by {
            assert(R.subrange(0, R.len() as int) =~= R);
        }
    }
    let ghost c0 = const_part;
    proof {
        assert(lead_lits(Lo, 0) == li);
    }
    while ri < right.len() && right[ri].as_number().is_some()
        invariant
            R == right@,
            L == left@,
            ri <= right.len(),
            Lo == items(*this, GraphOp::Mul),
            Ro == items(*other, GraphOp::Mul),
            same_terms(R, Ro),
            forall|i: int| 0 <= i < R.len() ==> (is_lit(#[trigger] R[i]) <==> is_lit(Ro[i]))
                && (is_lit(R[i]) ==> lit(R[i]) == lit(Ro[i])),
            lead_lits(Ro, 0) == lead_lits(Ro, ri as int),
            divide_lits(c0, Ro, 0, lead_lits(Ro, 0)) == divide_lits(const_part, Ro, ri as int, lead_lits(Ro, 0)),
            lead_lits(Lo, 0) == li,
            lit_product_checked(Lo, li as int) == Some(c0),
            c0 != 0,
            c0 == const_part * d,
            forall|env: spec_fn(Seq<char>) -> int| #[trigger] fold_values(GraphOp::Mul, R, env)
                == d * fold_values(GraphOp::Mul, R.subrange(ri as int, R.len() as int), env),
        decreases right.len() - ri,
    {
        let i = right[ri].as_number().unwrap();
        proof {
            assert(is_lit(R[ri as int]));
            assert(lit(Ro[ri as int]) == i);
            assert(lead_lits(Ro, ri as int) == lead_lits(Ro, ri + 1));
            lemma_lead_lits_ge(Ro, ri + 1);
            let dd = d;
            assert forall|env: spec_fn(Seq<char>) -> int| #[trigger] fold_values(GraphOp::Mul, R, env)
                == (dd * i) * fold_values(GraphOp::Mul, R.subrange(ri + 1, R.len() as int), env) by {
                lemma_fold_mul_split(R, ri as int, env);
                let y = fold_values(GraphOp::Mul, R.subrange(ri + 1, R.len() as int), env);
                assert(dd * (i * y) == (dd * i) * y) by (nonlinear_arith);
            }
        }
        let ghost ri_old = ri as int;
        ri = ri + 1;
        if i == 0 {
            proof {
                assert(divide_lits(const_part, Ro, ri_old, lead_lits(Ro, 0)) is None);
            }
            return None;
        }
        let quotient = match const_part.checked_div(i) {
            Some(q) => q,
            None => {
                proof {
                    assert(divide_lits(const_part, Ro, ri_old, lead_lits(Ro, 0)) is None);
                }
                return None;
            },
        };
        let back = match quotient.checked_mul(i) {
            Some(b) => b,
            None => {
                proof {
                    assert(divide_lits(const_part, Ro, ri_old, lead_lits(Ro, 0)) is None);
                }
                return None;
            },
        };
        proof {
            if back == const_part {
                assert(divide_lits(const_part, Ro, ri_old, lead_lits(Ro, 0)) == divide_lits(quotient, Ro, ri as int, lead_lits(Ro, 0)));
            } else {
                assert(divide_lits(const_part, Ro, ri_old, lead_lits(Ro, 0)) is None);
            }
        }
        if back == const_part {
            proof {
                let dd = d;
                assert(c0 == (quotient * i) * dd);
                assert((quotient * i) * dd == quotient * (dd * i)) by (nonlinear_arith);
                d = dd * i;
            }
            const_part = quotient;
        } else {
            return None;
        }
    }
    proof {
        assert(lead_lits(Ro, ri as int) == ri);
        assert(divide_lits(const_part, Ro, ri as int, ri as int) == Some(const_part));
    }
    let ghost ri0 = ri as int;
    let ghost c2 = const_part;
    let ghost a0 = li as int;
    let ghost mut M: Seq<GraphValue> = Seq::empty();
    let mut result: Vec<GraphValue> = Vec::new();
    proof {
        assert(merge_div(Lo, Ro, a0, ri0) =~= (match merge_div(Lo, Ro, li as int, ri as int) {
            Some((m, e)) => Some((M + m, e)),
            None => None,
        })) by {
            match merge_div(Lo, Ro, li as int, ri as int) {
                Some((m, e)) => {
                    assert(M + m =~= m);
                },
                None => {},
            }
        }
    }
    proof {
        assert forall|env: spec_fn(Seq<char>) -> int| #[trigger] fold_values(GraphOp::Mul, L, env)
            == const_part * d * fold_values(GraphOp::Mul, result@, env) * fold_values(GraphOp::Mul, R.subrange(ri0, ri as int), env)
                * fold_values(GraphOp::Mul, L.subrange(li as int, L.len() as int), env) by {
            lemma_fold_empty(GraphOp::Mul, env);
            assert(R.subrange(ri0, ri as int) =~= Seq::<GraphValue>::empty());
            let y = fold_values(GraphOp::Mul, L.subrange(li as int, L.len() as int), env);
            assert(c0 * y == const_part * d * 1 * 1 * y) by (nonlinear_arith)
                requires c0 == const_part * d;
        }
        assert forall|env: spec_fn(Seq<char>) -> int| #[trigger] fold_values(GraphOp::Mul, R, env)
            == d * fold_values(GraphOp::Mul, R.subrange(ri0, ri as int), env) * fold_values(GraphOp::Mul, R.subrange(ri as int, R.len() as int), env) by {
            lemma_fold_empty(GraphOp::Mul, env);
            assert(R.subrange(ri0, ri as int) =~= Seq::<GraphValue>::empty());
            let y = fold_values(GraphOp::Mul, R.subrange(ri as int, R.len() as int), env);
            assert(d * y == d * 1 * y) by (nonlinear_arith);
        }
    }
    while li < left.len() && ri < right.len()
        invariant
            R == right@,
            L == left@,
            li <= left.len(),
            0 <= ri0 <= ri <= right.len(),
            Lo == items(*this, GraphOp::Mul),
            Ro == items(*other, GraphOp::Mul),
            same_terms(L, Lo),
            same_terms(R, Ro),
            c2 == const_part,
            lead_lits(Lo, 0) == a0,
            lit_product_checked(Lo, a0) == Some(c0),
            c0 != 0,
            lead_lits(Ro, 0) == ri0,
            divide_lits(c0, Ro, 0, ri0) == Some(c2),
            a0 <= li,
            merge_div(Lo, Ro, a0, ri0) == (match merge_div(Lo, Ro, li as int, ri as int) {
                Some((m, e)) => Some((M + m, e)),
                None => None,
            }),
            same_terms(result@, M),
            forall|env: spec_fn(Seq<char>) -> int| #[trigger] fold_values(GraphOp::Mul, R, env)
                == d * fold_values(GraphOp::Mul, R.subrange(ri0, ri as int), env) * fold_values(GraphOp::Mul, R.subrange(ri as int, R.len() as int), env),
            forall|env: spec_fn(Seq<char>) -> int| #[trigger] fold_values(GraphOp::Mul, L, env)
                == const_part * d * fold_values(GraphOp::Mul, result@, env) * fold_values(GraphOp::Mul, R.subrange(ri0, ri as int), env)
                    * fold_values(GraphOp::Mul, L.subrange(li as int, L.len() as int), env),
        decreases left.len() - li + right.len() - ri,
    {
        let ghost rs = result@;
        proof {
            lemma_order_terms(L[li as int], R[ri as int], Lo[li as int], Ro[ri as int]);
        }
        if graph_eq(&left[li], &right[ri]) {
            proof {
                assert(term_of(Lo[li as int]) == term_of(Ro[ri as int]));
                assert(merge_div(Lo, Ro, li as int, ri as int) == merge_div(Lo, Ro, li + 1, ri + 1));
                assert forall|env: spec_fn(Seq<char>) -> int| #[trigger] fold_values(GraphOp::Mul, R, env)
                    == d * fold_values(GraphOp::Mul, R.subrange(ri0, ri + 1), env) * fold_values(GraphOp::Mul, R.subrange(ri + 1, R.len() as int), env) by {
                    lemma_fold_mul_split(R, ri as int, env);
                    assert(R.subrange(ri0, ri + 1) =~= R.subrange(ri0, ri as int).push(R[ri as int]));
                    lemma_fold_push(GraphOp::Mul, R.subrange(ri0, ri as int), R[ri as int], env);
                    let m = fold_values(GraphOp::Mul, R.subrange(ri0, ri as int), env);
                    let x = val_of(R[ri as int], env);
                    let y = fold_values(GraphOp::Mul, R.subrange(ri + 1, R.len() as int), env);
                    assert(d * m * (x * y) == d * (m * x) * y) by (nonlinear_arith);
                }
                assert forall|env: spec_fn(Seq<char>) -> int| #[trigger] fold_values(GraphOp::Mul, L, env)
                    == const_part * d * fold_values(GraphOp::Mul, rs, env) * fold_values(GraphOp::Mul, R.subrange(ri0, ri + 1), env)
                        * fold_values(GraphOp::Mul, L.subrange(li + 1, L.len() as int), env) by {
                    lemma_fold_mul_split(L, li as int, env);
                    assert(val_of(L[li as int], env) == val_of(R[ri as int], env));
                    assert(R.subrange(ri0, ri + 1) =~= R.subrange(ri0, ri as int).push(R[ri as int]));
                    lemma_fold_push(GraphOp::Mul, R.subrange(ri0, ri as int), R[ri as int], env);
                    let m = fold_values(GraphOp::Mul, R.subrange(ri0, ri as int), env);
                    let x = val_of(R[ri as int], env);
                    let y = fold_values(GraphOp::Mul, L.subrange(li + 1, L.len() as int), env);
                    let f = fold_values(GraphOp::Mul, rs, env);
                    let c = const_part as int;
                    assert(c * d * f * m * (x * y) == c * d * f * (m * x) * y) by (nonlinear_arith);
                }
            }
            li = li + 1;
            ri = ri + 1;
        } else if graph_order(&left[li], &right[ri]) == Order3::Less {
            let x = left[li].dup();
            result.push(x);
            proof {
                assert(term_of(Lo[li as int]) != term_of(Ro[ri as int]));
                assert(graph_order_spec(Lo[li as int], Ro[ri as int]) == Order3::Less);
                let mb = M;
                M = M.push(Lo[li as int]);
                assert(merge_div(Lo, Ro, a0, ri0) == (match merge_div(Lo, Ro, li + 1, ri as int) {
                    Some((m, e)) => Some((M + m, e)),
                    None => None,
                })) by {
                    match merge_div(Lo, Ro, li + 1, ri as int) {
                        Some((m, e)) => {
                            assert(mb + (seq![Lo[li as int]] + m) =~= M + m);
                        },
                        None => {},
                    }
                }
                assert(same_terms(result@, M)) by {
                    assert forall|i: int| 0 <= i < result@.len() implies term_of(#[trigger] result@[i]) == term_of(M[i]) by {
                        if i < rs.len() {
                            assert(result@[i] == rs[i]);
                            assert(M[i] == mb[i]);
                        }
                    }
                }
                assert forall|env: spec_fn(Seq<char>) -> int| #[trigger] fold_values(GraphOp::Mul, L, env)
                    == const_part * d * fold_values(GraphOp::Mul, result@, env) * fold_values(GraphOp::Mul, R.subrange(ri0, ri as int), env)
                        * fold_values(GraphOp::Mul, L.subrange(li + 1, L.len() as int), env) by {
                    lemma_fold_mul_split(L, li as int, env);
                    lemma_fold_push(GraphOp::Mul, rs, x, env);
                    let xv = val_of(L[li as int], env);
                    let m = fold_values(GraphOp::Mul, R.subrange(ri0, ri as int), env);
                    let y = fold_values(GraphOp::Mul, L.subrange(li + 1, L.len() as int), env);
                    let f = fold_values(GraphOp::Mul, rs, env);
                    let c = const_part as int;
                    assert(c * d * f * m * (xv * y) == c * d * (f * xv) * m * y) by (nonlinear_arith);
                }
            }
            li = li + 1;
        } else {
            proof {
                assert(term_of(Lo[li as int]) != term_of(Ro[ri as int]));
                assert(merge_div(Lo, Ro, li as int, ri as int) is None);
            }
            return None;
        }
    }
    let ghost rs1 = result@;
    if const_part != 1 {
        result.push(GraphValue::Single(Single::Int(const_part)));
    }
    let ghost rs2 = result@;
    proof {
        assert forall|env: spec_fn(Seq<char>) -> int| #[trigger] fold_values(GraphOp::Mul, rs2, env)
            == fold_values(GraphOp::Mul, rs1, env) * const_part by {
            if const_part != 1 {
                lemma_fold_push(GraphOp::Mul, rs1, GraphValue::Single(Single::Int(const_part)), env);
            } else {
                let f = fold_values(GraphOp::Mul, rs1, env);
                assert(f * 1 == f) by (nonlinear_arith);
            }
        }
    }
    if ri < right.len() {
        proof {
            assert(merge_div(Lo, Ro, li as int, ri as int) is None);
        }
        return None;
    }
    proof {
        assert(merge_div(Lo, Ro, li as int, ri as int) == Some((Seq::<GraphValue>::empty(), li as int)));
        assert(merge_div(Lo, Ro, a0, ri0) == Some((M, li as int))) by {
            assert(M + Seq::<GraphValue>::empty() =~= M);
        }
    }
    let ghost li0 = li as int;
    let ghost cspec: Seq<GraphValue> = if c2 != 1 { seq![GraphValue::Single(Single::Int(c2))] } else { Seq::empty() };
    proof {
        assert(same_terms(rs2, M + cspec)) by {
            assert forall|i: int| 0 <= i < rs2.len() implies term_of(#[trigger] rs2[i]) == term_of((M + cspec)[i]) by {
                if i < rs1.len() {
                    assert(rs2[i] == rs1[i]);
                    assert((M + cspec)[i] == M[i]);
                }
            }
        }
        assert(result@ == rs2);
        assert(Lo.subrange(li0, li as int) =~= Seq::<GraphValue>::empty());
        assert(M + cspec + Lo.subrange(li0, li as int) =~= M + cspec);
    }
    while li < left.len()
        invariant
            L == left@,
            0 <= li0 <= li <= left.len(),
            Lo == items(*this, GraphOp::Mul),
            Ro == items(*other, GraphOp::Mul),
            same_terms(L, Lo),
            lead_lits(Lo, 0) == a0,
            lit_product_checked(Lo, a0) == Some(c0),
            c0 != 0,
            lead_lits(Ro, 0) == ri0,
            divide_lits(c0, Ro, 0, ri0) == Some(c2),
            merge_div(Lo, Ro, a0, ri0) == Some((M, li0)),
            cspec == (if c2 != 1 { seq![GraphValue::Single(Single::Int(c2))] } else { Seq::<GraphValue>::empty() }),
            same_terms(result@, M + cspec + Lo.subrange(li0, li as int)),
            forall|env: spec_fn(Seq<char>) -> int| #[trigger] fold_values(GraphOp::Mul, result@, env)
                == fold_values(GraphOp::Mul, rs2, env) * fold_values(GraphOp::Mul, L.subrange(li0, li as int), env),
        decreases left.len() - li,
    {
        let ghost rb = result@;
        let x = left[li].dup();
        result.push(x);
        proof {
            let sp = M + cspec + Lo.subrange(li0, li as int);
            assert(M + cspec + Lo.subrange(li0, li + 1) =~= sp.push(Lo[li as int]));
            assert(same_terms(result@, sp.push(Lo[li as int]))) by {
                assert forall|i: int| 0 <= i < result@.len() implies term_of(#[trigger] result@[i]) == term_of(sp.push(Lo[li as int])[i]) by {
                    if i < rb.len() {
                        assert(result@[i] == rb[i]);
                        assert(sp.push(Lo[li as int])[i] == sp[i]);
                    }
                }
            }
            assert forall|env: spec_fn(Seq<char>) -> int| #[trigger] fold_values(GraphOp::Mul, result@, env)
                == fold_values(GraphOp::Mul, rs2, env) * fold_values(GraphOp::Mul, L.subrange(li0, li + 1), env) by {
                lemma_fold_push(GraphOp::Mul, rb, x, env);
                assert(L.subrange(li0, li + 1) =~= L.subrange(li0, li as int).push(L[li as int]));
                lemma_fold_push(GraphOp::Mul, L.subrange(li0, li as int), L[li as int], env);
                let a = fold_values(GraphOp::Mul, rs2, env);
                let b = fold_values(GraphOp::Mul, L.subrange(li0, li as int), env);
                let c = val_of(L[li as int], env);
                assert(a * b * c == a * (b * c)) by (nonlinear_arith);
            }
        }
        li = li + 1;
    }
    let ghost res_final = result@;
    let q = if result.len() == 0 {
        GraphValue::Single(Single::Int(1))
    } else {
        GraphValue::NonTrival((GraphOp::Mul, result))
    };
    proof {
        let res = M + cspec + Lo.subrange(li0, Lo.len() as int);
        assert(Lo.subrange(li0, li as int) =~= Lo.subrange(li0, Lo.len() as int));
        lemma_terms_of_pointwise(res_final, res);
        assert(div_term(*this, *other) == Some(term_of(q)));
        if ok {
            assert forall|env: spec_fn(Seq<char>) -> int| #[trigger] val_of(*this, env) == val_of(*other, env) * val_of(q, env) by {
                assert(L.subrange(li0, L.len() as int) =~= L.subrange(li0, li as int));
                assert(R.subrange(ri as int, R.len() as int) =~= Seq::<GraphValue>::empty());
                lemma_fold_empty(GraphOp::Mul, env);
                assert(val_of(q, env) == fold_values(GraphOp::Mul, result@, env));
                let f = fold_values(GraphOp::Mul, rs1, env);
                let m = fold_values(GraphOp::Mul, R.subrange(ri0, ri as int), env);
                let a = fold_values(GraphOp::Mul, L.subrange(li0, L.len() as int), env);
                let c = const_part as int;
                assert(c * d * f * m * a == d * m * 1 * (f * c * a)) by (nonlinear_arith);
            }
        }
    }
    Some(q)
}

/// The factors that the merging walk of `gcd` finds in both `l` and `r`
/// from positions `li` and `ri` on: the terms of the equal pairs it meets
/// that are not literals, in order.
pub open spec fn common_walk(l: Seq<GraphValue>, r: Seq<GraphValue>, li: int, ri: int) -> Seq<Term>
    decreases l.len() - li + r.len() - ri,
{
    if li < 0 || ri < 0 || li >= l.len() || ri >= r.len() {
        Seq::empty()
    } else if term_of(l[li]) == term_of(r[ri]) {
        if term_of(l[li]) is Num {
            common_walk(l, r, li + 1, ri + 1)
        } else {
            seq![term_of(l[li])] + common_walk(l, r, li + 1, ri + 1)
        }
    } else if graph_order_spec(l[li], r[ri]) == Order3::Less {
        common_walk(l, r, li + 1, ri)
    } else {
        common_walk(l, r, li, ri + 1)
    }
}

/// The walk sees values only through their terms.
proof fn lemma_common_walk_terms(l1: Seq<GraphValue>, r1: Seq<GraphValue>, l2: Seq<GraphValue>, r2: Seq<GraphValue>, li: int, ri: int)
    requires
        same_terms(l1, l2),
        same_terms(r1, r2),
    ensures
        common_walk(l1, r1, li, ri) == common_walk(l2, r2, li, ri),
    decreases l1.len() - li + r1.len() - ri,
{
    if li < 0 || ri < 0 || li >= l1.len() || ri >= r1.len() {
    } else {
        assert(term_of(l1[li]) == term_of(l2[li]));
        assert(term_of(r1[ri]) == term_of(r2[ri]));
        lemma_order_terms(l1[li], r1[ri], l2[li], r2[ri]);
        lemma_common_walk_terms(l1, r1, l2, r2, li + 1, ri + 1);
        lemma_common_walk_terms(l1, r1, l2, r2, li + 1, ri);
        lemma_common_walk_terms(l1, r1, l2, r2, li, ri + 1);
    }
}

/// `a` and `b` have a non-literal factor in common (as `gcd` walks them).
pub open spec fn shares_factor(a: GraphValue, b: GraphValue) -> bool {
    common_walk(items(a, GraphOp::Mul), items(b, GraphOp::Mul), 0, 0).len() > 0
}

/// The shared non-literal factors of two products, or `None` where they
/// share none. Both factor lists are walked in step, assuming they are sorted.
fn gcd(this: &GraphValue, other: &GraphValue) -> (r: Option<GraphValue>)
    ensures
        r matches Some(g) ==> !is_empty_node(*this) && !is_empty_node(*other)
            && (g matches GraphValue::NonTrival((op, v)) && op == GraphOp::Mul && v.len() > 0),
        r is None <==> common_walk(items(*this, GraphOp::Mul), items(*other, GraphOp::Mul), 0, 0).len() == 0,
        r matches Some(g) ==> terms_of(g->NonTrival_0.1@)
            == common_walk(items(*this, GraphOp::Mul), items(*other, GraphOp::Mul), 0, 0),
{
    let left = collect_items(this, GraphOp::Mul);
    let right = collect_items(other, GraphOp::Mul);
    let ghost w = common_walk(left@, right@, 0, 0);
    proof {
        lemma_common_walk_terms(left@, right@, items(*this, GraphOp::Mul), items(*other, GraphOp::Mul), 0, 0);
    }
    let mut result: Vec<GraphValue> = Vec::new();
    let mut li: usize = 0;
    let mut ri: usize = 0;
    proof {
        assert(terms_of(result@) =~= Seq::<Term>::empty());
        assert(Seq::<Term>::empty() + w =~= w);
    }
    while li < left.len() && ri < right.len()
        invariant
            li <= left.len(),
            ri <= right.len(),
            result@.len() > 0 ==> left@.len() > 0 && right@.len() > 0,
            terms_of(result@) + common_walk(left@, right@, li as int, ri as int) == w,
        decreases left.len() - li + right.len() - ri,
    {
        let ghost tr = terms_of(result@);
        let ghost rest = common_walk(left@, right@, li as int + 1, ri as int + 1);
        if graph_eq(&left[li], &right[ri]) {
            if left[li].as_number().is_none() {
                let x = left[li].dup();
                let ghost rb = result@;
                result.push(x);
                proof {
                    lemma_terms_of_push(rb, x);
                    assert(!(term_of(left@[li as int]) is Num));
                    assert(tr + (seq![term_of(left@[li as int])] + rest) =~= tr.push(term_of(x)) + rest);
                }
            } else {
                proof {
                    assert(term_of(left@[li as int]) is Num);
                }
            }
            li = li + 1;
            ri = ri + 1;
        } else if graph_order(&left[li], &right[ri]) == Order3::Less {
            li = li + 1;
        } else {
            ri = ri + 1;
        }
    }
    proof {
        assert(terms_of(result@) + Seq::<Term>::empty() =~= terms_of(result@));
        lemma_terms_of_len(result@);
    }
    if result.len() == 0 {
        None
    } else {
        Some(GraphValue::NonTrival((GraphOp::Mul, result)))
    }
}

/// The group that `distributive_law` gathers while scanning: a common
/// factor `g` and the operands that share it.
pub open spec fn pending_ok(pg: Option<GraphValue>, pv: Seq<GraphValue>, new: GraphValue) -> bool {
    &&& pg is None ==> pv.len() == 0
    &&& pg matches Some(g) ==> (!is_empty_node(new) && pv.len() > 0
        && (forall|j: int| 0 <= j < pv.len() ==> !is_empty_node(#[trigger] pv[j]))
        && (g matches GraphValue::NonTrival((op, v)) && op == GraphOp::Mul && v.len() > 0))
}

/// Splits the operands of `result` into those that share no factor with
/// `new` and the group sharing the largest common factor with it.
#[verifier::spinoff_prover]
fn scan_common(new: &GraphValue, result: &mut Vec<GraphValue>) -> (r: (Option<GraphValue>, Vec<GraphValue>))
    ensures
        pending_ok(r.0, r.1@, *new),
        r.0 is None <==> forall|j: int| 0 <= j < old(result)@.len() ==> !shares_factor(*new, #[trigger] old(result)@[j]),
        r.0 is None ==> final(result)@ == old(result)@,
        forall|env: spec_fn(Seq<char>) -> int| #[trigger] fold_values(GraphOp::Plus, old(result)@, env)
            == fold_values(GraphOp::Plus, final(result)@, env) + fold_values(GraphOp::Plus, r.1@, env),
{
    let ghost rb = result@;
    let mut taken = take_vec(result);
    let mut pend_g: Option<GraphValue> = None;
    let mut pend_v: Vec<GraphValue> = Vec::new();
    proof {
        assert forall|env: spec_fn(Seq<char>) -> int| #[trigger] fold_values(GraphOp::Plus, rb, env)
            == fold_values(GraphOp::Plus, taken@, env) + fold_values(GraphOp::Plus, result@, env) + fold_values(GraphOp::Plus, pend_v@, env) by {
            lemma_fold_empty(GraphOp::Plus, env);
        }
    }
    proof {
        assert(taken@ =~= rb.subrange(0, rb.len() as int));
        assert(result@ =~= rb.take(0));
    }
    while taken.len() > 0
        invariant
            pending_ok(pend_g, pend_v@, *new),
            forall|env: spec_fn(Seq<char>) -> int| #[trigger] fold_values(GraphOp::Plus, rb, env)
                == fold_values(GraphOp::Plus, taken@, env) + fold_values(GraphOp::Plus, result@, env) + fold_values(GraphOp::Plus, pend_v@, env),
            taken@.len() <= rb.len(),
            taken@ == rb.subrange(rb.len() - taken@.len(), rb.len() as int),
            (pend_g is None) == (forall|j: int| 0 <= j < rb.len() - taken@.len() ==> !shares_factor(*new, #[trigger] rb[j])),
            pend_g is None ==> result@ == rb.take(rb.len() - taken@.len()),
            rb == old(result)@,
        decreases taken.len(),
    {
        let ghost tb = taken@;
        let ghost resb = result@;
        let ghost pvb = pend_v@;
        let ghost pgb = pend_g;
        let ghost n: int = rb.len() - taken@.len();
        let item = taken.remove(0);
        proof {
            assert(item == rb[n]);
            assert(taken@ =~= rb.subrange(n + 1, rb.len() as int));
            assert(rb.take(n + 1) =~= rb.take(n).push(item));
        }
        let gres = gcd(new, &item);
        proof {
            assert(taken@ =~= tb.remove(0));
            assert forall|env: spec_fn(Seq<char>) -> int| #[trigger] fold_values(GraphOp::Plus, tb, env)
                == fold_values(GraphOp::Plus, taken@, env) + val_of(item, env) by {
                lemma_fold_remove(GraphOp::Plus, tb, 0, env);
            }
        }
        match gres {
            None => {
                result.push(item);
                proof {
                    assert forall|env: spec_fn(Seq<char>) -> int| #[trigger] fold_values(GraphOp::Plus, rb, env)
                        == fold_values(GraphOp::Plus, taken@, env) + fold_values(GraphOp::Plus, result@, env) + fold_values(GraphOp::Plus, pend_v@, env) by {
                        lemma_fold_push(GraphOp::Plus, resb, item, env);
                    }
                }
            },
            Some(new_g) => {
                match pend_g {
                    None => {
                        let mut fresh: Vec<GraphValue> = Vec::new();
                        fresh.push(item);
                        proof {
                            assert forall|env: spec_fn(Seq<char>) -> int| #[trigger] fold_values(GraphOp::Plus, rb, env)
                                == fold_values(GraphOp::Plus, taken@, env) + fold_values(GraphOp::Plus, result@, env) + fold_values(GraphOp::Plus, fresh@, env) by {
                                lemma_fold_empty(GraphOp::Plus, env);
                                assert(fresh@ =~= seq![item]);
                                lemma_fold_single(GraphOp::Plus, item, env);
                            }
                        }
                        pend_g = Some(new_g);
                        pend_v = fresh;
                    },
                    Some(old_g) => {
                        if graph_order(&new_g, &old_g) == Order3::Less {
                            result.push(item);
                            pend_g = Some(old_g);
                            proof {
                                assert forall|env: spec_fn(Seq<char>) -> int| #[trigger] fold_values(GraphOp::Plus, rb, env)
                                    == fold_values(GraphOp::Plus, taken@, env) + fold_values(GraphOp::Plus, result@, env) + fold_values(GraphOp::Plus, pend_v@, env) by {
                                    lemma_fold_push(GraphOp::Plus, resb, item, env);
                                }
                            }
                        } else if graph_eq(&new_g, &old_g) {
                            pend_v.push(item);
                            pend_g = Some(old_g);
                            proof {
                                assert forall|env: spec_fn(Seq<char>) -> int| #[trigger] fold_values(GraphOp::Plus, rb, env)
                                    == fold_values(GraphOp::Plus, taken@, env) + fold_values(GraphOp::Plus, result@, env) + fold_values(GraphOp::Plus, pend_v@, env) by {
                                    lemma_fold_push(GraphOp::Plus, pvb, item, env);
                                }
                            }
                        } else {
                            result.append(&mut pend_v);
                            let mut fresh: Vec<GraphValue> = Vec::new();
                            fresh.push(item);
                            proof {
                                assert forall|env: spec_fn(Seq<char>) -> int| #[trigger] fold_values(GraphOp::Plus, rb, env)
                                    == fold_values(GraphOp::Plus, taken@, env) + fold_values(GraphOp::Plus, result@, env) + fold_values(GraphOp::Plus, fresh@, env) by {
                                    lemma_fold_append(GraphOp::Plus, resb, pvb, env);
                                    assert(result@ =~= resb + pvb);
                                    assert(fresh@ =~= seq![item]);
                                    lemma_fold_single(GraphOp::Plus, item, env);
                                }
                            }
                            pend_g = Some(new_g);
                            pend_v = fresh;
                        }
                    },
                }
            },
        }
        proof {
            if gres is None {
                assert(!shares_factor(*new, rb[n]));
            } else {
                assert(shares_factor(*new, rb[n]));
            }
            assert((pend_g is None) == (forall|j: int| 0 <= j < n + 1 ==> !shares_factor(*new, #[trigger] rb[j]))) by {
                if pend_g is None {
                    assert forall|j: int| 0 <= j < n + 1 implies !shares_factor(*new, #[trigger] rb[j]) by {
                        if j < n {
                        }
                    }
                } else if pgb is Some {
                    let j0 = choose|j: int| 0 <= j < n && shares_factor(*new, #[trigger] rb[j]);
                    assert(0 <= j0 < n + 1 && shares_factor(*new, rb[j0]));
                }
            }
        }
    }
    proof {
        assert(rb.take(rb.len() as int) =~= rb);
        assert forall|env: spec_fn(Seq<char>) -> int| #[trigger] fold_values(GraphOp::Plus, rb, env)
            == fold_values(GraphOp::Plus, result@, env) + fold_values(GraphOp::Plus, pend_v@, env) by {
            assert(taken@ =~= Seq::<GraphValue>::empty());
            lemma_fold_empty(GraphOp::Plus, env);
        }
    }
    (pend_g, pend_v)
}

/// Factors the operand `new` together with the operands in `result` that
/// share a common factor with it: the group with the largest common factor
/// `g` becomes `g * (q_1 + ... + q_n)`. Fails where a member of the group
/// does not divide by `g`.
#[verifier::spinoff_prover]
#[verifier::rlimit(50)]
fn factor_out(new: GraphValue, result: &mut Vec<GraphValue>) -> (r: Result<bool, OverflowError>)
    ensures
        r is Ok ==> forall|env: spec_fn(Seq<char>) -> int| #[trigger] fold_values(GraphOp::Plus, final(result)@, env)
            == fold_values(GraphOp::Plus, old(result)@, env) + val_of(new, env),
        (forall|j: int| 0 <= j < old(result)@.len() ==> !shares_factor(new, #[trigger] old(result)@[j]))
            ==> r == Ok::<bool, OverflowError>(false) && final(result)@ == old(result)@.push(new),
{
    let ghost rb = result@;
    let (pend_g, pend_v) = scan_common(&new, result);
    match pend_g {
        None => {
            let ghost resb = result@;
            result.push(new);
            proof {
                assert forall|env: spec_fn(Seq<char>) -> int| #[trigger] fold_values(GraphOp::Plus, result@, env)
                    == fold_values(GraphOp::Plus, rb, env) + val_of(new, env) by {
                    lemma_fold_push(GraphOp::Plus, resb, new, env);
                    assert(pend_v@ =~= Seq::<GraphValue>::empty());
                    lemma_fold_empty(GraphOp::Plus, env);
                }
            }
            Ok(false)
        },
        Some(g0) => {
            let g = sort_deep(g0);
            let ghost pv0 = pend_v@;
            let mut members = pend_v;
            members.push(new);
            let ghost ms = members@;
            let mut remains: Vec<GraphValue> = Vec::new();
            let mut k: usize = 0;
            while k < members.len()
                invariant
                    ms == members@,
                    k <= members.len(),
                    remains@.len() == k,
                    forall|j: int| 0 <= j < ms.len() ==> !is_empty_node(#[trigger] ms[j]),
                    !is_empty_node(g),
                    forall|j: int, env: spec_fn(Seq<char>) -> int| 0 <= j < k ==>
                        #[trigger] val_of(ms[j], env) == val_of(g, env) * val_of(remains@[j], env),
                    rb == old(result)@,
                    !(forall|j: int| 0 <= j < rb.len() ==> !shares_factor(new, #[trigger] rb[j])),
                decreases members.len() - k,
            {
                match div(&members[k], &g) {
                    Some(q) => {
                        remains.push(q);
                    },
                    None => {
                        return Err(OverflowError {});
                    },
                }
                k = k + 1;
            }
            let mut product_vec = collect_items(&g, GraphOp::Mul);
            let ghost pvec = product_vec@;
            let sum = GraphValue::NonTrival((GraphOp::Plus, remains));
            product_vec.push(sum);
            let ghost pvec2 = product_vec@;
            sort_list(&mut product_vec);
            let ghost resb = result@;
            let prod = GraphValue::NonTrival((GraphOp::Mul, product_vec));
            result.push(prod);
            proof {
                assert forall|env: spec_fn(Seq<char>) -> int| #[trigger] fold_values(GraphOp::Plus, result@, env)
                    == fold_values(GraphOp::Plus, rb, env) + val_of(new, env) by {
                    lemma_fold_push(GraphOp::Plus, resb, prod, env);
                    lemma_fold_push(GraphOp::Plus, pv0, new, env);
                    assert(ms =~= pv0.push(new));
                    lemma_fold_scaled(remains@, ms, val_of(g, env), env);
                    lemma_fold_push(GraphOp::Mul, pvec, sum, env);
                    lemma_items_fold(g, GraphOp::Mul, env);
                    lemma_same_terms_fold(GraphOp::Mul, pvec, items(g, GraphOp::Mul), env);
                    assert(fold_values(GraphOp::Mul, pvec2, env) == fold_values(GraphOp::Mul, product_vec@, env));
                    let a = val_of(g, env);
                    let b = fold_values(GraphOp::Plus, remains@, env);
                    assert(a * b == b * a) by (nonlinear_arith);
                }
            }
            Ok(true)
        },
    }
}

/// An arrangement of the reverse of `a` is one of `a`.
proof fn lemma_arrangement_of_reverse(a: Seq<GraphValue>, b: Seq<GraphValue>)
    requires
        sorted_arrangement(a.reverse(), b),
    ensures
        sorted_arrangement(a, b),
{
    reveal(sorted_arrangement);
    a.lemma_reverse_to_multiset();
}

/// Applies `factor_out` to every operand of the sum `v`, last first, then
/// sorts the result. Returns whether some group was factored.
pub fn distributive_law(v: &mut Vec<GraphValue>) -> (r: Result<bool, OverflowError>)
    ensures
        r is Ok ==> forall|env: spec_fn(Seq<char>) -> int| #[trigger] fold_values(GraphOp::Plus, final(v)@, env)
            == fold_values(GraphOp::Plus, old(v)@, env),
        (forall|i: int, j: int| 0 <= i < j < old(v)@.len() ==> !shares_factor(#[trigger] old(v)@[i], #[trigger] old(v)@[j]))
            ==> r == Ok::<bool, OverflowError>(false) && sorted_arrangement(old(v)@, final(v)@),
{
    let ghost orig = v@;
    let ghost nosh = forall|i: int, j: int| 0 <= i < j < orig.len() ==> !shares_factor(#[trigger] orig[i], #[trigger] orig[j]);
    let mut src = take_vec(v);
    let mut result: Vec<GraphValue> = Vec::new();
    let mut changed = false;
    proof {
        assert(result@ =~= orig.subrange(orig.len() as int, orig.len() as int).reverse());
        assert(src@ =~= orig.take(orig.len() as int));
        assert forall|env: spec_fn(Seq<char>) -> int| #[trigger] fold_values(GraphOp::Plus, orig, env)
            == fold_values(GraphOp::Plus, src@, env) + fold_values(GraphOp::Plus, result@, env) by {
            lemma_fold_empty(GraphOp::Plus, env);
        }
    }
    while src.len() > 0
        invariant
            forall|env: spec_fn(Seq<char>) -> int| #[trigger] fold_values(GraphOp::Plus, orig, env)
                == fold_values(GraphOp::Plus, src@, env) + fold_values(GraphOp::Plus, result@, env),
            src@.len() <= orig.len(),
            src@ == orig.take(src@.len() as int),
            nosh == (forall|i: int, j: int| 0 <= i < j < orig.len() ==> !shares_factor(#[trigger] orig[i], #[trigger] orig[j])),
            nosh ==> !changed && result@ == orig.subrange(src@.len() as int, orig.len() as int).reverse(),
            orig == old(v)@,
        decreases src.len(),
    {
        let ghost sb = src@;
        let ghost rb = result@;
        let new = src.pop().unwrap();
        proof {
            assert(sb =~= src@.push(new));
            assert(src@ =~= orig.take(src@.len() as int));
            assert(new == orig[src@.len() as int]);
            if nosh {
                let n = src@.len() as int;
                assert forall|j: int| 0 <= j < rb.len() implies !shares_factor(new, #[trigger] rb[j]) by {
                    assert(rb[j] == orig[orig.len() - 1 - j]);
                    assert(orig[n] == new);
                }
            }
            assert forall|env: spec_fn(Seq<char>) -> int| #[trigger] fold_values(GraphOp::Plus, sb, env)
                == fold_values(GraphOp::Plus, src@, env) + val_of(new, env) by {
                lemma_fold_push(GraphOp::Plus, src@, new, env);
            }
        }
        let c = factor_out(new, &mut result)?;
        changed = changed || c;
        proof {
            if nosh {
                assert(result@ =~= orig.subrange(src@.len() as int, orig.len() as int).reverse());
            }
        }
    }
    let ghost before = result@;
    sort_list(&mut result);
    proof {
        if nosh {
            assert(before =~= orig.subrange(0, orig.len() as int).reverse());
            assert(orig.subrange(0, orig.len() as int) =~= orig);
            lemma_arrangement_of_reverse(orig, result@);
        }
    }
    proof {
        assert forall|env: spec_fn(Seq<char>) -> int| #[trigger] fold_values(GraphOp::Plus, result@, env)
            == fold_values(GraphOp::Plus, orig, env) by {
            assert(src@ =~= Seq::<GraphValue>::empty());
            lemma_fold_empty(GraphOp::Plus, env);
        }
    }
    *v = result;
    Ok(changed)
}

/// The first index at or after `from` of an operand of `s` that is not an
/// integer literal, other than `skip`; `s.len()` where there is none.
pub open spec fn next_nl(s: Seq<GraphValue>, from: int, skip: int) -> int
    decreases s.len() - from,
{
    if from >= s.len() {
        s.len() as int
    } else if from == skip || (s[from] is Single && s[from]->Single_0 is Int) {
        next_nl(s, from + 1, skip)
    } else {
        from
    }
}

pub proof fn lemma_next_nl_bounds(s: Seq<GraphValue>, from: int, skip: int)
    requires
        from <= s.len(),
    ensures
        from <= next_nl(s, from, skip) <= s.len(),
    decreases s.len() - from,
{
    if from < s.len() {
        lemma_next_nl_bounds(s, from + 1, skip);
    }
}

/// Whether the merging walk of `can_add_para` finds every non-literal
/// operand of `f` from `fi` on among the non-literal operands of `v` other
/// than `v[skip]` from `ti` on, in order.
pub open spec fn para_found(v: Seq<GraphValue>, skip: int, f: Seq<GraphValue>, ti: int, fi: int) -> bool
    decreases v.len() - ti + f.len() - fi,
{
    if fi < 0 || ti < 0 || fi >= f.len() {
        true
    } else if ti >= v.len() {
        false
    } else if term_of(v[ti]) == term_of(f[fi]) {
        proof {
            lemma_next_nl_bounds(v, ti + 1, skip);
            lemma_next_nl_bounds(f, fi + 1, f.len() as int);
        }
        para_found(v, skip, f, next_nl(v, ti + 1, skip), next_nl(f, fi + 1, f.len() as int))
    } else if graph_order_spec(v[ti], f[fi]) == Order3::Less {
        proof {
            lemma_next_nl_bounds(v, ti + 1, skip);
        }
        para_found(v, skip, f, next_nl(v, ti + 1, skip), fi)
    } else {
        false
    }
}

/// The sum `c` can be taken out of the operands of `v` (as `can_add_para`
/// checks it).
pub open spec fn para_fits(v: Seq<GraphValue>, skip: int, c: GraphValue) -> bool {
    c matches GraphValue::NonTrival((op, fs)) && op == GraphOp::Plus
        && para_found(v, skip, fs@, next_nl(v, 0, skip), next_nl(fs@, 0, fs@.len() as int))
}

/// The operand `v[i]` is a product with a sum factor that can be taken out
/// of the other operands of `v`.
pub open spec fn has_para(v: Seq<GraphValue>, i: int) -> bool {
    v[i] matches GraphValue::NonTrival((op, w)) && op == GraphOp::Mul
        && exists|k: int| 0 <= k < w@.len() && para_fits(v, i, #[trigger] w@[k])
}

/// The first index at or after `from` of an operand of `v` that is not an
/// integer literal, other than `skip`; `v.len()` where there is none.
fn next_non_literal(v: &Vec<GraphValue>, from: usize, skip: usize) -> (r: usize)
    requires
        from <= v.len(),
    ensures
        from <= r <= v.len(),
        forall|k: int| from <= k < r ==> k == skip || (#[trigger] v@[k]) is Single && v@[k]->Single_0 is Int,
        r < v.len() ==> r != skip && !(v@[r as int] is Single && v@[r as int]->Single_0 is Int),
        r == next_nl(v@, from as int, skip as int),
{
    let mut i = from;
    while i < v.len() && (i == skip || v[i].as_number().is_some())
        invariant
            from <= i <= v.len(),
            next_nl(v@, from as int, skip as int) == next_nl(v@, i as int, skip as int),
            forall|k: int| from <= k < i ==> k == skip || (#[trigger] v@[k]) is Single && v@[k]->Single_0 is Int,
        decreases v.len() - i,
    {
        i = i + 1;
    }
    i
}

/// Where `target` is a product, the index and leaf count of its largest
/// sum factor whose non-literal operands all occur, in order, among the
/// non-literal operands of `v` other than `v[skip]`.
fn can_add_para(v: &Vec<GraphValue>, skip: usize, target: &GraphValue) -> (r: Option<(usize, usize)>)
    ensures
        r matches Some((i, _)) ==> (target matches GraphValue::NonTrival((op, w)) && op == GraphOp::Mul
            && i < w.len() && (w@[i as int] matches GraphValue::NonTrival((op2, _)) && op2 == GraphOp::Plus)),
        r is Some <==> (target matches GraphValue::NonTrival((op, w)) && op == GraphOp::Mul
            && exists|k: int| 0 <= k < w@.len() && para_fits(v@, skip as int, #[trigger] w@[k])),
        r matches Some((i, size)) ==> (target matches GraphValue::NonTrival((_, w))
            && para_fits(v@, skip as int, w@[i as int]) && size == capped(leaf_count(w@[i as int]))
            && (forall|k: int| 0 <= k < w@.len() && para_fits(v@, skip as int, #[trigger] w@[k])
                ==> capped(leaf_count(w@[k])) <= size)
            && (forall|k: int| 0 <= k < i && para_fits(v@, skip as int, #[trigger] w@[k])
                ==> capped(leaf_count(w@[k])) < size)),
{
    match target {
        GraphValue::Single(_) => None,
        GraphValue::NonTrival((op, vec)) => {
            if *op != GraphOp::Mul {
                return None;
            }
            let mut max: Option<(usize, usize)> = None;
            let mut i: usize = 0;
            while i < vec.len()
                invariant
                    i <= vec.len(),
                    *target == GraphValue::NonTrival((*op, *vec)),
                    *op == GraphOp::Mul,
                    max matches Some((k, _)) ==> k < vec.len()
                        && (vec@[k as int] matches GraphValue::NonTrival((op2, _)) && op2 == GraphOp::Plus),
                    max is None <==> forall|k: int| 0 <= k < i ==> !para_fits(v@, skip as int, #[trigger] vec@[k]),
                    max matches Some((k, sz)) ==> k < i && para_fits(v@, skip as int, vec@[k as int])
                        && sz == capped(leaf_count(vec@[k as int]))
                        && (forall|k2: int| 0 <= k2 < i && para_fits(v@, skip as int, #[trigger] vec@[k2])
                            ==> capped(leaf_count(vec@[k2])) <= sz)
                        && (forall|k2: int| 0 <= k2 < k && para_fits(v@, skip as int, #[trigger] vec@[k2])
                            ==> capped(leaf_count(vec@[k2])) < sz),
                decreases vec.len() - i,
            {
                let muli_part = &vec[i];
                let ghost fits = para_fits(v@, skip as int, vec@[i as int]);
                if let GraphValue::NonTrival((GraphOp::Plus, factors)) = muli_part {
                    // walk the non-literal operands of v (skipping v[skip]) and of factors in step
                    let mut ti: usize = next_non_literal(v, 0, skip);
                    let mut fi: usize = next_non_literal(factors, 0, factors.len());
                    let ghost p0 = para_found(v@, skip as int, factors@, ti as int, fi as int);
                    proof {
                        assert(p0 == fits);
                    }
                    while ti < v.len() && fi < factors.len()
                        invariant
                            ti <= v.len(),
                            fi <= factors.len(),
                            para_found(v@, skip as int, factors@, ti as int, fi as int) == p0,
                        ensures
                            (fi >= factors@.len()) == p0,
                        decreases v.len() - ti + factors.len() - fi,
                    {
                        if graph_eq(&v[ti], &factors[fi]) {
                            ti = next_non_literal(v, ti + 1, skip);
                            fi = next_non_literal(factors, fi + 1, factors.len());
                        } else if graph_order(&v[ti], &factors[fi]) == Order3::Less {
                            ti = next_non_literal(v, ti + 1, skip);
                        } else {
                            break;
                        }
                    }
                    // every non-literal operand of `factors` was found
                    proof {
                        assert((fi >= factors@.len()) == fits);
                    }
                    if fi >= factors.len() {
                        let this_size = muli_part.size();
                        match max {
                            Some((_, max_size)) => {
                                if max_size < this_size {
                                    max = Some((i, this_size));
                                }
                            },
                            None => {
                                max = Some((i, this_size));
                            },
                        }
                    }
                } else {
                    proof {
                        assert(!fits);
                    }
                }
                proof {
                    assert(muli_part == vec@[i as int]);
                }
                i = i + 1;
            }
            max
        },
    }
}

fn checked_add_i32(a: i32, b: i32) -> (r: Result<i32, OverflowError>)
    ensures
        r matches Ok(v) ==> v == a + b,
        r is Ok <==> i32::MIN <= a + b <= i32::MAX,
{
    match a.checked_add(b) {
        Some(v) => Ok(v),
        None => Err(OverflowError {}),
    }
}

fn checked_sub_i32(a: i32, b: i32) -> (r: Result<i32, OverflowError>)
    ensures
        r matches Ok(v) ==> v == a - b,
        r is Ok <==> i32::MIN <= a - b <= i32::MAX,
{
    match a.checked_sub(b) {
        Some(v) => Ok(v),
        None => Err(OverflowError {}),
    }
}

pub proof fn lemma_fold_plus_extend(s: Seq<GraphValue>, k: int, env: spec_fn(Seq<char>) -> int)
    requires
        0 <= k < s.len(),
    ensures
        fold_values(GraphOp::Plus, s.subrange(0, k + 1), env) == fold_values(GraphOp::Plus, s.subrange(0, k), env) + val_of(s[k], env),
{
    assert(s.subrange(0, k + 1) =~= s.subrange(0, k).push(s[k]));
    lemma_fold_push(GraphOp::Plus, s.subrange(0, k), s[k], env);
}

/// The value of an integer literal, zero for any other operand.
pub open spec fn lit_val(g: GraphValue) -> int {
    match g {
        GraphValue::Single(Single::Int(i)) => i as int,
        _ => 0,
    }
}

/// The sum of the literals among the first `k` operands of `s`.
pub open spec fn pre_sum(s: Seq<GraphValue>, k: int) -> int
    decreases k,
{
    if k <= 0 || k > s.len() {
        0
    } else {
        pre_sum(s, k - 1) + lit_val(s[k - 1])
    }
}

pub open spec fn fits_i32(x: int) -> bool {
    i32::MIN <= x <= i32::MAX
}

/// The literal arithmetic of `split_para` stays within `i32`: summing the
/// leading literals of `l`, then taking those of `t` out of that sum and
/// into a sum of their own, one at a time.
pub open spec fn split_lits_ok(l: Seq<GraphValue>, t: Seq<GraphValue>) -> bool {
    &&& forall|k: int| 0 <= k <= lead_lits(l, 0) ==> fits_i32(#[trigger] pre_sum(l, k))
    &&& forall|k: int| 0 <= k <= lead_lits(t, 0)
        ==> fits_i32(pre_sum(l, lead_lits(l, 0)) - #[trigger] pre_sum(t, k)) && fits_i32(pre_sum(t, k))
}

/// Whether the merging walk of `split_para` finds every operand of `t` from
/// `ti` on among those of `l` from `li` on, in order.
pub open spec fn merge_ok(l: Seq<GraphValue>, t: Seq<GraphValue>, li: int, ti: int) -> bool
    decreases l.len() - li + t.len() - ti,
{
    if li < 0 || ti < 0 || ti >= t.len() {
        true
    } else if li >= l.len() {
        false
    } else if term_of(l[li]) == term_of(t[ti]) {
        merge_ok(l, t, li + 1, ti + 1)
    } else if graph_order_spec(l[li], t[ti]) == Order3::Less {
        merge_ok(l, t, li + 1, ti)
    } else {
        false
    }
}

/// `split_para` succeeds on `l` and `t`.
pub open spec fn split_ok(l: Seq<GraphValue>, t: Seq<GraphValue>) -> bool {
    split_lits_ok(l, t) && merge_ok(l, t, lead_lits(l, 0), lead_lits(t, 0))
}

/// The merging walk of `add_para` over the sorted operands `left` of the
/// sum and `target`: returns the literal remainder, the literal part of
/// `target`, the unmatched operands and the matched ones.
#[verifier::spinoff_prover]
fn split_para(left: &Vec<GraphValue>, target: &Vec<GraphValue>) -> (r: Result<(i32, i32, Vec<GraphValue>, Vec<GraphValue>), OverflowError>)
    ensures
        r is Ok <==> split_ok(left@, target@),
        r matches Ok((const_remain, const_in_para, v, in_para)) ==>
            forall|env: spec_fn(Seq<char>) -> int| #[trigger] fold_values(GraphOp::Plus, left@, env)
                == const_remain + const_in_para + fold_values(GraphOp::Plus, v@, env) + fold_values(GraphOp::Plus, in_para@, env),
{
    let mut v: Vec<GraphValue> = Vec::new();
    let ghost L = left@;
    let mut li: usize = 0;
    let mut ti: usize = 0;
    let mut const_remain: i32 = 0;
    let mut const_in_para: i32 = 0;
    let mut in_para: Vec<GraphValue> = Vec::new();
    proof {
        assert forall|env: spec_fn(Seq<char>) -> int| #[trigger] fold_values(GraphOp::Plus, L.subrange(0, li as int), env)
            == const_remain + const_in_para + fold_values(GraphOp::Plus, v@, env) + fold_values(GraphOp::Plus, in_para@, env) by {
            lemma_fold_empty(GraphOp::Plus, env);
            assert(L.subrange(0, 0) =~= Seq::<GraphValue>::empty());
        }
    }
    let ghost T = target@;
    while li < left.len() && left[li].as_number().is_some()
        invariant
            L == left@,
            T == target@,
            li <= left.len(),
            forall|env: spec_fn(Seq<char>) -> int| #[trigger] fold_values(GraphOp::Plus, L.subrange(0, li as int), env)
                == const_remain + const_in_para + fold_values(GraphOp::Plus, v@, env) + fold_values(GraphOp::Plus, in_para@, env),
            lead_lits(L, 0) == lead_lits(L, li as int),
            const_remain == pre_sum(L, li as int),
            forall|k: int| 0 <= k <= li ==> fits_i32(#[trigger] pre_sum(L, k)),
        decreases left.len() - li,
    {
        let x = left[li].as_number().unwrap();
        proof {
            assert(pre_sum(L, li + 1) == pre_sum(L, li as int) + x);
            assert(lead_lits(L, li as int) == lead_lits(L, li + 1));
            lemma_lead_lits_ge(L, li + 1);
            assert forall|env: spec_fn(Seq<char>) -> int| #[trigger] fold_values(GraphOp::Plus, L.subrange(0, li + 1), env)
                == fold_values(GraphOp::Plus, L.subrange(0, li as int), env) + x by {
                lemma_fold_plus_extend(L, li as int, env);
            }
        }
        const_remain = checked_add_i32(const_remain, x)?;
        li = li + 1;
    }
    let ghost nl = li as int;
    proof {
        assert(lead_lits(L, li as int) == li);
    }
    while ti < target.len() && target[ti].as_number().is_some()
        invariant
            L == left@,
            T == target@,
            li <= left.len(),
            ti <= target.len(),
            forall|env: spec_fn(Seq<char>) -> int| #[trigger] fold_values(GraphOp::Plus, L.subrange(0, li as int), env)
                == const_remain + const_in_para + fold_values(GraphOp::Plus, v@, env) + fold_values(GraphOp::Plus, in_para@, env),
            nl == li,
            nl == lead_lits(L, 0),
            forall|k: int| 0 <= k <= nl ==> fits_i32(#[trigger] pre_sum(L, k)),
            lead_lits(T, 0) == lead_lits(T, ti as int),
            const_remain == pre_sum(L, nl) - pre_sum(T, ti as int),
            const_in_para == pre_sum(T, ti as int),
            forall|k: int| 0 <= k <= ti ==> fits_i32(pre_sum(L, nl) - #[trigger] pre_sum(T, k)) && fits_i32(pre_sum(T, k)),
        decreases target.len() - ti,
    {
        let x = target[ti].as_number().unwrap();
        proof {
            assert(pre_sum(T, ti + 1) == pre_sum(T, ti as int) + x);
            assert(lead_lits(T, ti as int) == lead_lits(T, ti + 1));
            lemma_lead_lits_ge(T, ti + 1);
        }
        const_remain = checked_sub_i32(const_remain, x)?;
        const_in_para = checked_add_i32(const_in_para, x)?;
        ti = ti + 1;
    }
    proof {
        assert(lead_lits(T, ti as int) == ti);
        assert(split_lits_ok(L, T));
    }
    let ghost nt = ti as int;
    while li < left.len() && ti < target.len()
        invariant
            L == left@,
            T == target@,
            li <= left.len(),
            ti <= target.len(),
            split_lits_ok(L, T),
            merge_ok(L, T, li as int, ti as int) == merge_ok(L, T, lead_lits(L, 0), lead_lits(T, 0)),
            forall|env: spec_fn(Seq<char>) -> int| #[trigger] fold_values(GraphOp::Plus, L.subrange(0, li as int), env)
                == const_remain + const_in_para + fold_values(GraphOp::Plus, v@, env) + fold_values(GraphOp::Plus, in_para@, env),
        decreases left.len() - li + target.len() - ti,
    {
        let ghost vb = v@;
        let ghost ib = in_para@;
        if graph_eq(&left[li], &target[ti]) {
            let x = left[li].dup();
            in_para.push(x);
            proof {
                assert forall|env: spec_fn(Seq<char>) -> int| #[trigger] fold_values(GraphOp::Plus, L.subrange(0, li + 1), env)
                    == const_remain + const_in_para + fold_values(GraphOp::Plus, v@, env) + fold_values(GraphOp::Plus, in_para@, env) by {
                    lemma_fold_plus_extend(L, li as int, env);
                    lemma_fold_push(GraphOp::Plus, ib, x, env);
                }
            }
            li = li + 1;
            ti = ti + 1;
        } else if graph_order(&left[li], &target[ti]) == Order3::Less {
            let x = left[li].dup();
            v.push(x);
            proof {
                assert forall|env: spec_fn(Seq<char>) -> int| #[trigger] fold_values(GraphOp::Plus, L.subrange(0, li + 1), env)
                    == const_remain + const_in_para + fold_values(GraphOp::Plus, v@, env) + fold_values(GraphOp::Plus, in_para@, env) by {
                    lemma_fold_plus_extend(L, li as int, env);
                    lemma_fold_push(GraphOp::Plus, vb, x, env);
                }
            }
            li = li + 1;
        } else {
            return Err(OverflowError {});
        }
    }
    if ti < target.len() {
        return Err(OverflowError {});
    }
    while li < left.len()
        invariant
            L == left@,
            li <= left.len(),
            forall|env: spec_fn(Seq<char>) -> int| #[trigger] fold_values(GraphOp::Plus, L.subrange(0, li as int), env)
                == const_remain + const_in_para + fold_values(GraphOp::Plus, v@, env) + fold_values(GraphOp::Plus, in_para@, env),
        decreases left.len() - li,
    {
        let ghost vb = v@;
        let x = left[li].dup();
        v.push(x);
        proof {
            assert forall|env: spec_fn(Seq<char>) -> int| #[trigger] fold_values(GraphOp::Plus, L.subrange(0, li + 1), env)
                == const_remain + const_in_para + fold_values(GraphOp::Plus, v@, env) + fold_values(GraphOp::Plus, in_para@, env) by {
                lemma_fold_plus_extend(L, li as int, env);
                lemma_fold_push(GraphOp::Plus, vb, x, env);
            }
        }
        li = li + 1;
    }
    proof {
        assert forall|env: spec_fn(Seq<char>) -> int| #[trigger] fold_values(GraphOp::Plus, left@, env)
            == const_remain + const_in_para + fold_values(GraphOp::Plus, v@, env) + fold_values(GraphOp::Plus, in_para@, env) by {
            assert(L.subrange(0, L.len() as int) =~= L);
        }
    }
    Ok((const_remain, const_in_para, v, in_para))
}

/// Moves the operands of the sum `v` that also occur among the operands of
/// the sorted sum `target` into a new parenthesised sum `(c + matched...)`,
/// where `c` is the literal part of `target`; the literal part of `v` is
/// reduced by `c` to keep the total. `v` is sorted first, and again at the
/// end. Fails where an operand of `target` is not found, or a literal sum
/// overflows.
#[verifier::spinoff_prover]
#[verifier::rlimit(40)]
fn add_para(v: &mut Vec<GraphValue>, target: &Vec<GraphValue>) -> (r: Result<(), OverflowError>)
    ensures
        r is Ok ==> forall|env: spec_fn(Seq<char>) -> int| #[trigger] fold_values(GraphOp::Plus, final(v)@, env)
            == fold_values(GraphOp::Plus, old(v)@, env),
        exists|s: Seq<GraphValue>| sorted_arrangement(old(v)@, s) && (r is Ok <==> #[trigger] split_ok(s, target@)),
{
    let ghost orig = v@;
    sort_list(v);
    let left = take_vec(v);
    let (const_remain, const_in_para, mut rest, mut in_para) = match split_para(&left, target) {
        Ok(parts) => parts,
        Err(e) => {
            proof {
                assert(sorted_arrangement(orig, left@) && !split_ok(left@, target@));
            }
            return Err(e);
        },
    };
    let ghost sorted_left = left@;
    proof {
        assert(sorted_arrangement(orig, sorted_left) && split_ok(sorted_left, target@));
    }
    let ghost v1 = rest@;
    if const_remain != 0 {
        rest.push(GraphValue::Single(Single::Int(const_remain)));
    }
    let ghost v2 = rest@;
    let mut para: Vec<GraphValue> = Vec::new();
    if const_in_para != 0 {
        para.push(GraphValue::Single(Single::Int(const_in_para)));
    }
    let ghost p1 = para@;
    let ghost ip = in_para@;
    para.append(&mut in_para);
    let pnode = GraphValue::NonTrival((GraphOp::Plus, para));
    rest.push(pnode);
    let ghost v3 = rest@;
    sort_list(&mut rest);
    proof {
        assert forall|env: spec_fn(Seq<char>) -> int| #[trigger] fold_values(GraphOp::Plus, rest@, env)
            == fold_values(GraphOp::Plus, orig, env) by {
            assert(fold_values(GraphOp::Plus, left@, env) == fold_values(GraphOp::Plus, orig, env));
            lemma_fold_push(GraphOp::Plus, v2, pnode, env);
            lemma_fold_empty(GraphOp::Plus, env);
            if const_remain != 0 {
                lemma_fold_push(GraphOp::Plus, v1, GraphValue::Single(Single::Int(const_remain)), env);
            } else {
                assert(v2 == v1);
            }
            lemma_fold_append(GraphOp::Plus, p1, ip, env);
            assert(pnode->NonTrival_0.1@ =~= p1 + ip);
            if const_in_para != 0 {
                lemma_fold_single(GraphOp::Plus, GraphValue::Single(Single::Int(const_in_para)), env);
                assert(p1 =~= seq![GraphValue::Single(Single::Int(const_in_para))]);
            } else {
                assert(p1 =~= Seq::<GraphValue>::empty());
            }
            assert(fold_values(GraphOp::Plus, rest@, env) == fold_values(GraphOp::Plus, v3, env));
        }
    }
    *v = rest;
    proof {
        assert(sorted_arrangement(orig, sorted_left) && split_ok(sorted_left, target@));
    }
    Ok(())
}

/// Picks the operand of the sum `v` whose sum factor can absorb the most
/// other operands (the later one among equals), and regroups those operands
/// with `add_para`; then sorts `v`. Leaves `v` unchanged where no operand
/// qualifies.
#[verifier::spinoff_prover]
#[verifier::rlimit(40)]
fn make_para(v: &mut Vec<GraphValue>) -> (r: Result<(), OverflowError>)
    ensures
        r is Ok ==> forall|env: spec_fn(Seq<char>) -> int| #[trigger] fold_values(GraphOp::Plus, final(v)@, env)
            == fold_values(GraphOp::Plus, old(v)@, env),
        (forall|i: int| 0 <= i < old(v)@.len() ==> !has_para(old(v)@, i))
            ==> r == Ok::<(), OverflowError>(()) && final(v)@ == old(v)@,
{
    let ghost orig = v@;
    let mut best: Option<(usize, usize, usize)> = None;
    let mut i: usize = 0;
    while i < v.len()
        invariant
            v@ == orig,
            i <= v.len(),
            best matches Some((vi, inner, _)) ==> vi < v.len()
                && (v@[vi as int] matches GraphValue::NonTrival((op, w)) && op == GraphOp::Mul && inner < w.len()
                    && (w@[inner as int] matches GraphValue::NonTrival((op2, _)) && op2 == GraphOp::Plus)),
            best is None <==> forall|k: int| 0 <= k < i ==> !has_para(orig, k),
        decreases v.len() - i,
    {
        let found = can_add_para(v, i, &v[i]);
        proof {
            assert(found is Some <==> has_para(orig, i as int));
        }
        if let Some((inner_index, size)) = found {
            let keep_old = match best {
                Some((_, _, old_max)) => old_max > size,
                None => false,
            };
            if !keep_old {
                best = Some((i, inner_index, size));
            }
        }
        i = i + 1;
    }
    match best {
        None => Ok(()),
        Some((value_index, inner_index, _)) => {
            let value_i = v.remove(value_index);
            let ghost rem0 = v@;
            proof {
                assert(rem0 =~= orig.remove(value_index as int));
            }
            let mut remain_v = take_vec(v);
            match value_i {
                GraphValue::NonTrival((op, mut w)) => {
                    let ghost w0 = w@;
                    let inner_node = w.remove(inner_index);
                    let ghost wr = w@;
                    match inner_node {
                        GraphValue::NonTrival((op2, mut target)) => {
                            let ghost t0 = target@;
                            sort_list(&mut target);
                            add_para(&mut remain_v, &target)?;
                            let new_inner = GraphValue::NonTrival((op2, target));
                            w.insert(inner_index, new_inner);
                            let new_value = GraphValue::NonTrival((op, w));
                            let ghost rv = remain_v@;
                            remain_v.push(new_value);
                            let ghost rv2 = remain_v@;
                            sort_list(&mut remain_v);
                            proof {
                                assert forall|env: spec_fn(Seq<char>) -> int| #[trigger] fold_values(GraphOp::Plus, remain_v@, env)
                                    == fold_values(GraphOp::Plus, orig, env) by {
                                    lemma_fold_remove(GraphOp::Plus, orig, value_index as int, env);
                                    lemma_fold_push(GraphOp::Plus, rv, new_value, env);
                                    assert(fold_values(op2, target@, env) == fold_values(op2, t0, env));
                                    lemma_fold_remove(op, w0, inner_index as int, env);
                                    assert(wr =~= w0.remove(inner_index as int));
                                    lemma_fold_insert(op, wr, inner_index as int, new_inner, env);
                                    assert(val_of(new_inner, env) == val_of(w0[inner_index as int], env));
                                    assert(val_of(new_value, env) == fold_values(op, w@, env));
                                    assert(val_of(orig[value_index as int], env) == fold_values(op, w0, env));
                                    assert(fold_values(GraphOp::Plus, remain_v@, env) == fold_values(GraphOp::Plus, rv2, env));
                                }
                            }
                            *v = remain_v;
                            Ok(())
                        },
                        GraphValue::Single(_) => Err(OverflowError {}),
                    }
                },
                GraphValue::Single(_) => Err(OverflowError {}),
            }
        },
    }
}

/// One simplification pass, innermost first: every child is simplified;
/// sums are regrouped (`make_para`) and factored (`distributive_law`);
/// literals are folded (`solve_constant_value`) and distributed
/// (`mul_const_value`). Returns whether some step reported a change.
pub fn simplify_value(g: GraphValue) -> (r: Result<(GraphValue, bool), OverflowError>)
    ensures
        r matches Ok((n, _)) ==> same_value(g, n),
        plus_free(g) ==> (r matches Ok((n, _)) ==> plus_free(n)),
    decreases g,
{
    let ghost g0 = g;
    let ghost pf = plus_free(g);
    let mut changed = false;
    let g1 = match g {
        GraphValue::Single(s) => GraphValue::Single(s),
        GraphValue::NonTrival((op, v)) => {
            let ghost v0 = v@;
            let mut src = v;
            let mut out: Vec<GraphValue> = Vec::new();
            proof {
                lemma_plus_free_node(g0);
            }
            while src.len() > 0
                invariant
                    g == g0,
                    g0 == GraphValue::NonTrival((op, g0->NonTrival_0.1)),
                    g0->NonTrival_0.1@ == v0,
                    out@.len() + src@.len() == v0.len(),
                    src@ == v0.subrange(out@.len() as int, v0.len() as int),
                    forall|j: int| 0 <= j < out@.len() ==> same_value(v0[j], #[trigger] out@[j]),
                    pf == plus_free(g0),
                    pf ==> op == GraphOp::Mul && forall|i: int| 0 <= i < v0.len() ==> plus_free(#[trigger] v0[i]),
                    pf ==> forall|j: int| 0 <= j < out@.len() ==> plus_free(#[trigger] out@[j]),
                decreases src.len(),
            {
                let ghost k = out@.len() as int;
                proof {
                    lemma_child_decreases(g0, k);
                }
                let c = src.remove(0);
                proof {
                    assert(c == v0[k]);
                    assert(decreases_to!(g => c));
                }
                let (c2, ch) = simplify_value(c)?;
                changed = changed || ch;
                out.push(c2);
                proof {
                    assert(src@ =~= v0.subrange(out@.len() as int, v0.len() as int));
                }
            }
            let ghost o1 = out@;
            proof {
                lemma_same_list(op, v0, o1);
            }
            if op == GraphOp::Plus {
                make_para(&mut out)?;
                let ghost o2 = out@;
                let ch = distributive_law(&mut out)?;
                changed = changed || ch;
                proof {
                    assert forall|env: spec_fn(Seq<char>) -> int| #[trigger] fold_values(op, out@, env) == fold_values(op, o1, env) by {
                        assert(fold_values(GraphOp::Plus, out@, env) == fold_values(GraphOp::Plus, o2, env));
                        assert(fold_values(GraphOp::Plus, o2, env) == fold_values(GraphOp::Plus, o1, env));
                    }
                }
            }
            let n = GraphValue::NonTrival((op, out));
            proof {
                if pf {
                    lemma_plus_free_node(n);
                }
                assert forall|env: spec_fn(Seq<char>) -> int| #[trigger] val_of(g0, env) == val_of(n, env) by {
                    assert(fold_values(op, v0, env) == fold_values(op, o1, env));
                    assert(fold_values(op, out@, env) == fold_values(op, o1, env));
                }
            }
            n
        },
    };
    let (g2, ch1) = solve_constant_value(g1)?;
    let (g3, ch2) = mul_const_value(g2)?;
    Ok((g3, changed || ch1 || ch2))
}

impl GraphValue {
    /// Sorts every list of children, innermost first.
    pub fn sort(&mut self)
        ensures
            same_value(*old(self), *final(self)),
            deep_sorted(*final(self)),
            plus_free(*old(self)) ==> plus_free(*final(self)),
    {
        let mut tmp = GraphValue::Single(Single::Int(0));
        std::mem::swap(&mut tmp, self);
        *self = sort_deep(tmp);
    }

    /// Flattens nested nodes (see `reduce_value`).
    pub fn reduce(&mut self)
        ensures
            no_empty(*old(self)) ==> same_value(*old(self), *final(self)) && no_empty(*final(self)),
            no_empty(*old(self)) ==> flat(*final(self)),
            plus_free(*old(self)) ==> same_value(*old(self), *final(self)) && plus_free(*final(self)),
    {
        let mut tmp = GraphValue::Single(Single::Int(0));
        std::mem::swap(&mut tmp, self);
        *self = reduce_value(tmp);
    }

    /// One simplification pass (see `simplify_value`). On failure the value
    /// is left in an unspecified state.
    pub fn simplify(&mut self) -> (r: Result<bool, OverflowError>)
        ensures
            r is Ok ==> same_value(*old(self), *final(self)),
            plus_free(*old(self)) ==> (r is Ok ==> plus_free(*final(self))),
    {
        let mut tmp = GraphValue::Single(Single::Int(0));
        std::mem::swap(&mut tmp, self);
        match simplify_value(tmp) {
            Ok((n, changed)) => {
                *self = n;
                Ok(changed)
            },
            Err(e) => Err(e),
        }
    }

    /// Sorts, flattens and simplifies repeatedly: at least eleven rounds,
    /// then until a round reports no change or leaves the metric unchanged.
    /// Fails where a literal computation overflows, where a regrouping
    /// step cannot find an operand it expects, or where the round counter
    /// would pass `i32::MAX`.
    pub fn sanity(&mut self) -> (r: Result<(), OverflowError>)
        ensures
            plus_free(*old(self)) ==> (r is Ok ==> same_value(*old(self), *final(self)) && plus_free(*final(self))),
    {
        let mut cnt: i32 = 0;
        let ghost g0 = *self;
        loop
            invariant
                g0 == *old(self),
                plus_free(g0) ==> same_value(g0, *self) && plus_free(*self),
            decreases i32::MAX - cnt,
        {
            self.sort();
            self.reduce();
            let old = self.metric();
            let mut changed = false;
            let c = self.simplify()?;
            changed = changed || c;
            self.reduce();
            let new = self.metric();
            if cnt == i32::MAX {
                return Err(OverflowError {});
            }
            cnt = cnt + 1;
            if cnt > 10 && (!changed || old == new) {
                break;
            }
        }
        Ok(())
    }
}

/// `env` with the temporary named `name` set to `v`.
pub open spec fn env_with(env: spec_fn(Seq<char>) -> int, name: Seq<char>, v: int) -> spec_fn(Seq<char>) -> int {
    |n: Seq<char>| if n == name { v } else { env(n) }
}

/// Replaces every leaf naming `temp` by a copy of `value`.
pub fn subsitute_value(g: GraphValue, temp: &LlvmTemp, value: &GraphValue) -> (r: GraphValue)
    ensures
        forall|env: spec_fn(Seq<char>) -> int| #[trigger] val_of(r, env)
            == val_of(g, env_with(env, temp.name@, val_of(*value, env))),
        plus_free(g) && plus_free(*value) ==> plus_free(r),
    decreases g,
{
    let ghost g0 = g;
    let ghost pf = plus_free(g) && plus_free(*value);
    match g {
        GraphValue::Single(Single::Temp(t)) => {
            if t.name == temp.name {
                value.dup()
            } else {
                GraphValue::Single(Single::Temp(t))
            }
        },
        GraphValue::Single(s) => GraphValue::Single(s),
        GraphValue::NonTrival((op, v)) => {
            let ghost v0 = v@;
            let mut src = v;
            let mut out: Vec<GraphValue> = Vec::new();
            proof {
                lemma_plus_free_node(g0);
            }
            while src.len() > 0
                invariant
                    g == g0,
                    g0 == GraphValue::NonTrival((op, g0->NonTrival_0.1)),
                    g0->NonTrival_0.1@ == v0,
                    out@.len() + src@.len() == v0.len(),
                    src@ == v0.subrange(out@.len() as int, v0.len() as int),
                    forall|j: int, env: spec_fn(Seq<char>) -> int| 0 <= j < out@.len() ==>
                        #[trigger] val_of(out@[j], env) == val_of(v0[j], env_with(env, temp.name@, val_of(*value, env))),
                    pf == (plus_free(g0) && plus_free(*value)),
                    pf ==> op == GraphOp::Mul && forall|i: int| 0 <= i < v0.len() ==> plus_free(#[trigger] v0[i]),
                    pf ==> forall|j: int| 0 <= j < out@.len() ==> plus_free(#[trigger] out@[j]),
                decreases src.len(),
            {
                let ghost k = out@.len() as int;
                proof {
                    lemma_child_decreases(g0, k);
                }
                let c = src.remove(0);
                proof {
                    assert(c == v0[k]);
                    assert(decreases_to!(g => c));
                }
                let c2 = subsitute_value(c, temp, value);
                out.push(c2);
                proof {
                    assert(src@ =~= v0.subrange(out@.len() as int, v0.len() as int));
                }
            }
            let n = GraphValue::NonTrival((op, out));
            proof {
                assert forall|env: spec_fn(Seq<char>) -> int| #[trigger] val_of(n, env)
                    == val_of(g0, env_with(env, temp.name@, val_of(*value, env))) by {
                    let e2 = env_with(env, temp.name@, val_of(*value, env));
                    assert forall|j: int| 0 <= j < out@.len() implies val_of(#[trigger] out@[j], env) == val_of(v0[j], e2) by {}
                    lemma_fold_pointwise_envs(op, out@, v0, env, e2);
                }
                if pf {
                    lemma_plus_free_node(n);
                }
            }
            n
        },
    }
}

pub proof fn lemma_fold_pointwise_envs(op: GraphOp, a: Seq<GraphValue>, b: Seq<GraphValue>,
    e1: spec_fn(Seq<char>) -> int, e2: spec_fn(Seq<char>) -> int)
    requires
        a.len() == b.len(),
        forall|j: int| 0 <= j < a.len() ==> val_of(#[trigger] a[j], e1) == val_of(b[j], e2),
    ensures
        fold_values(op, a, e1) == fold_values(op, b, e2),
    decreases a.len(),
{
    if a.len() > 0 {
        let a0 = a.drop_last();
        let b0 = b.drop_last();
        assert(a =~= a0.push(a.last()));
        assert(b =~= b0.push(b.last()));
        lemma_fold_push(op, a0, a.last(), e1);
        lemma_fold_push(op, b0, b.last(), e2);
        assert forall|j: int| 0 <= j < a0.len() implies val_of(#[trigger] a0[j], e1) == val_of(b0[j], e2) by {
            assert(a0[j] == a[j]);
            assert(b0[j] == b[j]);
        }
        lemma_fold_pointwise_envs(op, a0, b0, e1, e2);
    }
}

/// The names of the temporaries that occur in `g`.
pub open spec fn temp_names(g: GraphValue) -> Set<Seq<char>>
    decreases g,
{
    match g {
        GraphValue::Single(Single::Temp(t)) => set![t.name@],
        GraphValue::Single(_) => Set::empty(),
        GraphValue::NonTrival((_, v)) => temp_names_all(v@),
    }
}

pub open spec fn temp_names_all(s: Seq<GraphValue>) -> Set<Seq<char>>
    decreases s,
{
    if s.len() == 0 {
        Set::empty()
    } else {
        temp_names_all(s.drop_last()).union(temp_names(s.last()))
    }
}

/// The names of a list of temporaries.
pub open spec fn names_of(s: Seq<LlvmTemp>) -> Set<Seq<char>> {
    Set::new(|n: Seq<char>| exists|i: int| 0 <= i < s.len() && #[trigger] s[i].name@ == n)
}

pub(crate) fn has_name(s: &Vec<LlvmTemp>, name: &String) -> (r: bool)
    ensures
        r == names_of(s@).contains(name@),
{
    let mut i: usize = 0;
    while i < s.len()
        invariant
            i <= s.len(),
            forall|j: int| 0 <= j < i ==> s@[j].name@ != name@,
        decreases s.len() - i,
    {
        if s[i].name == *name {
            proof {
                assert(s@[i as int].name@ == name@);
            }
            return true;
        }
        i = i + 1;
    }
    false
}

/// Adds to `result` the temporaries of `g` whose names occur in `tmp`,
/// skipping names already present.
fn contains_temp_in(g: &GraphValue, tmp: &Vec<LlvmTemp>, result: &mut Vec<LlvmTemp>)
    ensures
        names_of(final(result)@) == names_of(old(result)@).union(temp_names(*g).intersect(names_of(tmp@))),
    decreases g,
{
    match g {
        GraphValue::Single(Single::Temp(t)) => {
            let ghost r0 = result@;
            if has_name(tmp, &t.name) && !has_name(result, &t.name) {
                result.push(t.dup());
                proof {
                    assert(names_of(result@) =~= names_of(r0).insert(t.name@)) by {
                        assert forall|n: Seq<char>| names_of(result@).contains(n) implies names_of(r0).insert(t.name@).contains(n) by {
                            let i = choose|i: int| 0 <= i < result@.len() && #[trigger] result@[i].name@ == n;
                            if i < r0.len() {
                                assert(r0[i].name@ == n);
                            }
                        }
                        assert forall|n: Seq<char>| names_of(r0).insert(t.name@).contains(n) implies names_of(result@).contains(n) by {
                            if n == t.name@ {
                                assert(result@[r0.len() as int].name@ == n);
                            } else {
                                let i = choose|i: int| 0 <= i < r0.len() && #[trigger] r0[i].name@ == n;
                                assert(result@[i].name@ == n);
                            }
                        }
                    }
                }
            }
            proof {
                assert(names_of(result@) =~= names_of(r0).union(temp_names(*g).intersect(names_of(tmp@))));
            }
        },
        GraphValue::Single(_) => {
            proof {
                assert(names_of(result@) =~= names_of(result@).union(temp_names(*g).intersect(names_of(tmp@))));
            }
        },
        GraphValue::NonTrival((_, v)) => {
            let ghost r0 = result@;
            let mut i: usize = 0;
            while i < v.len()
                invariant
                    i <= v.len(),
                    *g == GraphValue::NonTrival((g->NonTrival_0.0, *v)),
                    names_of(result@) == names_of(r0).union(temp_names_all(v@.take(i as int)).intersect(names_of(tmp@))),
                decreases v.len() - i,
            {
                proof {
                    lemma_child_decreases(*g, i as int);
                    assert(v@.take(i + 1).drop_last() =~= v@.take(i as int));
                }
                contains_temp_in(&v[i], tmp, result);
                proof {
                    assert(names_of(result@) =~= names_of(r0).union(temp_names_all(v@.take(i + 1)).intersect(names_of(tmp@))));
                }
                i = i + 1;
            }
            proof {
                assert(v@.take(i as int) =~= v@);
            }
        },
    }
}

impl GraphValue {
    /// Adds to `result` the temporaries of this value whose names occur in
    /// `tmp` (both lists are sets of temporaries, kept free of repeated names).
    pub fn contains_temp(&self, tmp: &Vec<LlvmTemp>, result: &mut Vec<LlvmTemp>)
        ensures
            names_of(final(result)@) == names_of(old(result)@).union(temp_names(*self).intersect(names_of(tmp@))),
    {
        contains_temp_in(self, tmp, result);
    }

    /// The sum of two values, simplified; `None` where simplification fails
    /// or the result has more than `MAX_SIZE` leaves.
    pub fn add(&self, other: &GraphValue) -> (r: Option<GraphValue>)
        ensures
            r matches Some(v) ==> leaf_count(v) <= MAX_SIZE,
    {
        let mut parts: Vec<GraphValue> = Vec::new();
        parts.push(self.dup());
        parts.push(other.dup());
        let mut result = GraphValue::NonTrival((GraphOp::Plus, parts));
        match result.sanity() {
            Ok(()) => result.check_over_size(),
            Err(_) => None,
        }
    }

    /// The difference of two values (`self + (-1) * other`), simplified;
    /// `None` where simplification fails or the result has more than
    /// `MAX_SIZE` leaves.
    pub fn sub(&self, other: &GraphValue) -> (r: Option<GraphValue>)
        ensures
            r matches Some(v) ==> leaf_count(v) <= MAX_SIZE,
    {
        let mut neg: Vec<GraphValue> = Vec::new();
        neg.push(GraphValue::Single(Single::Int(-1)));
        neg.push(other.dup());
        let mut parts: Vec<GraphValue> = Vec::new();
        parts.push(self.dup());
        parts.push(GraphValue::NonTrival((GraphOp::Mul, neg)));
        let mut result = GraphValue::NonTrival((GraphOp::Plus, parts));
        match result.sanity() {
            Ok(()) => result.check_over_size(),
            Err(_) => None,
        }
    }

    /// The product of two values, simplified; `None` where simplification
    /// fails or the result has more than `MAX_SIZE` leaves.
    pub fn mul(&self, other: &GraphValue) -> (r: Option<GraphValue>)
        ensures
            r matches Some(v) ==> leaf_count(v) <= MAX_SIZE,
            plus_free(*self) && plus_free(*other) ==> (r matches Some(v) ==> forall|env: spec_fn(Seq<char>) -> int|
                #[trigger] val_of(v, env) == val_of(*self, env) * val_of(*other, env)),
    {
        let mut parts: Vec<GraphValue> = Vec::new();
        parts.push(self.dup());
        parts.push(other.dup());
        let mut result = GraphValue::NonTrival((GraphOp::Mul, parts));
        proof {
            let ps = result->NonTrival_0.1@;
            assert(ps =~= seq![ps[0], ps[1]]);
            assert(term_of(ps[0]) == term_of(*self));
            assert(term_of(ps[1]) == term_of(*other));
            assert(plus_free(ps[0]) == plus_free(*self));
            assert(plus_free(ps[1]) == plus_free(*other));
            lemma_plus_free_node(result);
            assert forall|env: spec_fn(Seq<char>) -> int| #[trigger] val_of(result, env) == val_of(*self, env) * val_of(*other, env) by {
                lemma_fold_pair(GraphOp::Mul, ps[0], ps[1], env);
            }
        }
        let ghost before = result;
        match result.sanity() {
            Ok(()) => {
                proof {
                    if plus_free(*self) && plus_free(*other) {
                        assert(plus_free(before));
                        assert(same_value(before, result));
                        assert forall|env: spec_fn(Seq<char>) -> int| #[trigger] val_of(result, env)
                            == val_of(*self, env) * val_of(*other, env) by {
                            assert(val_of(before, env) == val_of(result, env));
                        }
                    }
                }
                result.check_over_size()
            },
            Err(_) => None,
        }
    }

    /// The exact quotient `self / other` (see `div`), simplified; `None`
    /// where the division is not exact or simplification fails.
    pub fn div(&self, other: &GraphValue) -> (r: Option<GraphValue>)
        ensures
            div_term(*self, *other) is None ==> r is None,
    {
        match div(self, other) {
            Some(q) => {
                let mut result = q;
                match result.sanity() {
                    Ok(()) => Some(result),
                    Err(_) => None,
                }
            },
            None => None,
        }
    }

    /// A leaf for an `i32` operand: an integer literal or an `i32` temporary.
    pub fn from_value(value: Value) -> (r: Option<GraphValue>)
        ensures
            r == (match value {
                Value::Int(i) => Some(GraphValue::Single(Single::Int(i))),
                Value::Temp(t) => if t.var_type == VarType::I32 {
                    Some(GraphValue::Single(Single::Temp(t)))
                } else {
                    None
                },
                _ => None,
            }),
    {
        match value {
            Value::Int(i) => Some(GraphValue::Single(Single::Int(i))),
            Value::Temp(t) => {
                if t.var_type == VarType::I32 {
                    Some(GraphValue::Single(Single::Temp(t)))
                } else {
                    None
                }
            },
            _ => None,
        }
    }

    /// Replaces every leaf naming `temp` by `value`.
    pub fn subsitute(&mut self, temp: &LlvmTemp, value: &GraphValue)
        ensures
            forall|env: spec_fn(Seq<char>) -> int| #[trigger] val_of(*final(self), env)
                == val_of(*old(self), env_with(env, temp.name@, val_of(*value, env))),
            plus_free(*old(self)) && plus_free(*value) ==> plus_free(*final(self)),
    {
        let mut tmp = GraphValue::Single(Single::Int(0));
        std::mem::swap(&mut tmp, self);
        *self = subsitute_value(tmp, temp, value);
    }

    /// `self` with `temp` replaced by `value`, simplified; `None` where
    /// simplification fails or the result has more than `MAX_SIZE` leaves.
    pub fn substitude_checked(&self, temp: &LlvmTemp, value: &GraphValue) -> (r: Option<GraphValue>)
        ensures
            r matches Some(v) ==> leaf_count(v) <= MAX_SIZE,
            plus_free(*self) && plus_free(*value) ==> (r matches Some(v) ==> forall|env: spec_fn(Seq<char>) -> int|
                #[trigger] val_of(v, env) == val_of(*self, env_with(env, temp.name@, val_of(*value, env)))),
    {
        let mut new = self.dup();
        proof {
            assert(term_of(new) == term_of(*self));
        }
        new.subsitute(temp, value);
        let ghost before = new;
        match new.sanity() {
            Ok(()) => {
                proof {
                    if plus_free(*self) && plus_free(*value) {
                        assert(plus_free(before));
                        assert forall|env: spec_fn(Seq<char>) -> int| #[trigger] val_of(new, env)
                            == val_of(*self, env_with(env, temp.name@, val_of(*value, env))) by {
                            assert(val_of(before, env) == val_of(new, env));
                        }
                    }
                }
                new.check_over_size()
            },
            Err(_) => None,
        }
    }
}

/// The terms of `a[i..]` and `b[j..]` that remain after walking both lists
/// in step: equal operands are dropped from both, the smaller one is kept.
pub open spec fn not_common(a: Seq<GraphValue>, b: Seq<GraphValue>, i: int, j: int) -> (Seq<Term>, Seq<Term>)
    decreases a.len() - i, b.len() - j,
{
    if 0 <= i < a.len() && 0 <= j < b.len() {
        if term_of(a[i]) == term_of(b[j]) {
            not_common(a, b, i + 1, j + 1)
        } else if graph_order_spec(a[i], b[j]) == Order3::Less {
            let r = not_common(a, b, i + 1, j);
            (seq![term_of(a[i])] + r.0, r.1)
        } else {
            let r = not_common(a, b, i, j + 1);
            (r.0, seq![term_of(b[j])] + r.1)
        }
    } else if 0 <= i < a.len() {
        let r = not_common(a, b, i + 1, j);
        (seq![term_of(a[i])] + r.0, r.1)
    } else if 0 <= j < b.len() {
        let r = not_common(a, b, i, j + 1);
        (r.0, seq![term_of(b[j])] + r.1)
    } else {
        (Seq::empty(), Seq::empty())
    }
}

/// Walks two sorted operand lists in step and drops the operands they have
/// in common; returns what remains of each.
fn get_not_common(a: &Vec<GraphValue>, b: &Vec<GraphValue>) -> (r: (Vec<GraphValue>, Vec<GraphValue>))
    ensures
        terms_of(r.0@) == not_common(a@, b@, 0, 0).0,
        terms_of(r.1@) == not_common(a@, b@, 0, 0).1,
        r.0@.len() <= a@.len(),
        r.1@.len() <= b@.len(),
        forall|env: spec_fn(Seq<char>) -> int| #[trigger] fold_values(GraphOp::Plus, a@, env) - fold_values(GraphOp::Plus, b@, env)
            == fold_values(GraphOp::Plus, r.0@, env) - fold_values(GraphOp::Plus, r.1@, env),
{
    let mut ra: Vec<GraphValue> = Vec::new();
    let mut rb: Vec<GraphValue> = Vec::new();
    let mut i: usize = 0;
    let mut j: usize = 0;
    let ghost A = a@;
    let ghost B = b@;
    proof {
        assert forall|env: spec_fn(Seq<char>) -> int| #[trigger] fold_values(GraphOp::Plus, A.subrange(0, i as int), env)
            - fold_values(GraphOp::Plus, B.subrange(0, j as int), env)
            == fold_values(GraphOp::Plus, ra@, env) - fold_values(GraphOp::Plus, rb@, env) by {
            assert(A.subrange(0, 0) =~= Seq::<GraphValue>::empty());
            assert(B.subrange(0, 0) =~= Seq::<GraphValue>::empty());
            lemma_fold_empty(GraphOp::Plus, env);
        }
        assert(terms_of(ra@) + not_common(A, B, 0, 0).0 =~= not_common(A, B, 0, 0).0);
        assert(terms_of(rb@) + not_common(A, B, 0, 0).1 =~= not_common(A, B, 0, 0).1);
    }
    while i < a.len() || j < b.len()
        invariant
            A == a@,
            B == b@,
            i <= a.len(),
            not_common(A, B, 0, 0).0 == terms_of(ra@) + not_common(A, B, i as int, j as int).0,
            not_common(A, B, 0, 0).1 == terms_of(rb@) + not_common(A, B, i as int, j as int).1,
            j <= b.len(),
            ra@.len() <= i,
            rb@.len() <= j,
            forall|env: spec_fn(Seq<char>) -> int| #[trigger] fold_values(GraphOp::Plus, A.subrange(0, i as int), env)
                - fold_values(GraphOp::Plus, B.subrange(0, j as int), env)
                == fold_values(GraphOp::Plus, ra@, env) - fold_values(GraphOp::Plus, rb@, env),
        decreases a.len() - i + b.len() - j,
    {
        let ghost rab = ra@;
        let ghost rbb = rb@;
        if i < a.len() && j < b.len() {
            if graph_eq(&a[i], &b[j]) {
                proof {
                    assert forall|env: spec_fn(Seq<char>) -> int| #[trigger] fold_values(GraphOp::Plus, A.subrange(0, i + 1), env)
                        - fold_values(GraphOp::Plus, B.subrange(0, j + 1), env)
                        == fold_values(GraphOp::Plus, ra@, env) - fold_values(GraphOp::Plus, rb@, env) by {
                        lemma_fold_plus_extend(A, i as int, env);
                        lemma_fold_plus_extend(B, j as int, env);
                        assert(val_of(A[i as int], env) == val_of(B[j as int], env));
                    }
                }
                i = i + 1;
                j = j + 1;
            } else if graph_order(&a[i], &b[j]) == Order3::Less {
                let x = a[i].dup();
                ra.push(x);
                proof {
                    lemma_terms_of_push(rab, x);
                    assert(terms_of(ra@) + not_common(A, B, i + 1, j as int).0
                        =~= terms_of(rab) + not_common(A, B, i as int, j as int).0);
                    assert forall|env: spec_fn(Seq<char>) -> int| #[trigger] fold_values(GraphOp::Plus, A.subrange(0, i + 1), env)
                        - fold_values(GraphOp::Plus, B.subrange(0, j as int), env)
                        == fold_values(GraphOp::Plus, ra@, env) - fold_values(GraphOp::Plus, rb@, env) by {
                        lemma_fold_plus_extend(A, i as int, env);
                        lemma_fold_push(GraphOp::Plus, rab, x, env);
                    }
                }
                i = i + 1;
            } else {
                let x = b[j].dup();
                rb.push(x);
                proof {
                    lemma_terms_of_push(rbb, x);
                    assert(terms_of(rb@) + not_common(A, B, i as int, j + 1).1
                        =~= terms_of(rbb) + not_common(A, B, i as int, j as int).1);
                    assert forall|env: spec_fn(Seq<char>) -> int| #[trigger] fold_values(GraphOp::Plus, A.subrange(0, i as int), env)
                        - fold_values(GraphOp::Plus, B.subrange(0, j + 1), env)
                        == fold_values(GraphOp::Plus, ra@, env) - fold_values(GraphOp::Plus, rb@, env) by {
                        lemma_fold_plus_extend(B, j as int, env);
                        lemma_fold_push(GraphOp::Plus, rbb, x, env);
                    }
                }
                j = j + 1;
            }
        } else if i < a.len() {
            let x = a[i].dup();
            ra.push(x);
            proof {
                lemma_terms_of_push(rab, x);
                assert(terms_of(ra@) + not_common(A, B, i + 1, j as int).0
                    =~= terms_of(rab) + not_common(A, B, i as int, j as int).0);
                assert forall|env: spec_fn(Seq<char>) -> int| #[trigger] fold_values(GraphOp::Plus, A.subrange(0, i + 1), env)
                    - fold_values(GraphOp::Plus, B.subrange(0, j as int), env)
                    == fold_values(GraphOp::Plus, ra@, env) - fold_values(GraphOp::Plus, rb@, env) by {
                    lemma_fold_plus_extend(A, i as int, env);
                    lemma_fold_push(GraphOp::Plus, rab, x, env);
                }
            }
            i = i + 1;
        } else {
            let x = b[j].dup();
            rb.push(x);
            proof {
                lemma_terms_of_push(rbb, x);
                assert(terms_of(rb@) + not_common(A, B, i as int, j + 1).1
                    =~= terms_of(rbb) + not_common(A, B, i as int, j as int).1);
                assert forall|env: spec_fn(Seq<char>) -> int| #[trigger] fold_values(GraphOp::Plus, A.subrange(0, i as int), env)
                    - fold_values(GraphOp::Plus, B.subrange(0, j + 1), env)
                    == fold_values(GraphOp::Plus, ra@, env) - fold_values(GraphOp::Plus, rb@, env) by {
                    lemma_fold_plus_extend(B, j as int, env);
                    lemma_fold_push(GraphOp::Plus, rbb, x, env);
                }
            }
            j = j + 1;
        }
    }
    proof {
        assert(A.subrange(0, A.len() as int) =~= A);
        assert(B.subrange(0, B.len() as int) =~= B);
        assert(terms_of(ra@) + not_common(A, B, i as int, j as int).0 =~= terms_of(ra@));
        assert(terms_of(rb@) + not_common(A, B, i as int, j as int).1 =~= terms_of(rb@));
    }
    (ra, rb)
}

/// A list of terms as one term: `0` for none, the term itself for one,
/// their sum otherwise.
pub open spec fn resolve_term(ts: Seq<Term>) -> Term {
    if ts.len() == 0 {
        Term::Num(0)
    } else if ts.len() == 1 {
        ts[0]
    } else {
        Term::Node(GraphOp::Plus, ts)
    }
}

/// What `remove_addicative_common` gives: the two sides without their
/// common operands, where a side that is a leaf is removed entirely and
/// every sum side loses at least one operand.
pub open spec fn remove_common_spec(left: GraphValue, right: GraphValue) -> Option<(Term, Term)> {
    match (left, right) {
        (GraphValue::Single(_), GraphValue::NonTrival((GraphOp::Plus, adds))) => {
            let r = not_common(seq![left], adds@, 0, 0);
            if r.1.len() < adds@.len() && r.0.len() == 0 {
                Some((resolve_term(r.0), resolve_term(r.1)))
            } else {
                None
            }
        },
        (GraphValue::NonTrival((GraphOp::Plus, adds)), GraphValue::Single(_)) => {
            let r = not_common(adds@, seq![right], 0, 0);
            if r.0.len() < adds@.len() && r.1.len() == 0 {
                Some((resolve_term(r.0), resolve_term(r.1)))
            } else {
                None
            }
        },
        (GraphValue::NonTrival((GraphOp::Plus, l)), GraphValue::NonTrival((GraphOp::Plus, rr))) => {
            let r = not_common(l@, rr@, 0, 0);
            if r.1.len() < rr@.len() && r.0.len() < l@.len() {
                Some((resolve_term(r.0), resolve_term(r.1)))
            } else {
                None
            }
        },
        _ => None,
    }
}

/// A list of operands as one value: `0` for none, the operand itself for
/// one, their sum otherwise.
fn resolve_value(adds: Vec<GraphValue>) -> (r: GraphValue)
    ensures
        term_of(r) == resolve_term(terms_of(adds@)),
        forall|env: spec_fn(Seq<char>) -> int| #[trigger] val_of(r, env) == fold_values(GraphOp::Plus, adds@, env),
{
    proof {
        lemma_terms_of_len(adds@);
    }
    if adds.len() == 0 {
        proof {
            assert forall|env: spec_fn(Seq<char>) -> int| #[trigger] val_of(GraphValue::Single(Single::Int(0)), env)
                == fold_values(GraphOp::Plus, adds@, env) by {
                assert(adds@ =~= Seq::<GraphValue>::empty());
                lemma_fold_empty(GraphOp::Plus, env);
            }
        }
        GraphValue::Single(Single::Int(0))
    } else if adds.len() == 1 {
        let ghost s = adds@;
        let mut adds = adds;
        let x = adds.pop().unwrap();
        proof {
            assert forall|env: spec_fn(Seq<char>) -> int| #[trigger] val_of(x, env) == fold_values(GraphOp::Plus, s, env) by {
                assert(s =~= seq![x]);
                lemma_fold_single(GraphOp::Plus, x, env);
            }
            assert(s[0] == x);
            lemma_terms_of_len(s);
        }
        x
    } else {
        GraphValue::NonTrival((GraphOp::Plus, adds))
    }
}

/// Removes the operands that both sides of a comparison have in common.
/// `Some((l, r))` where `left` is a leaf or sum, `right` is a leaf or sum,
/// not both leaves, and at least one operand could be removed from every
/// sum side while a leaf side was removed entirely; `l - r` then equals
/// `left - right` under every environment.
pub fn remove_addicative_common(left: &GraphValue, right: &GraphValue) -> (r: Option<(GraphValue, GraphValue)>)
    ensures
        r is Some <==> remove_common_spec(*left, *right) is Some,
        r matches Some((l, rr)) ==> remove_common_spec(*left, *right) == Some((term_of(l), term_of(rr))),
        r matches Some((l, rr)) ==> forall|env: spec_fn(Seq<char>) -> int|
            #[trigger] val_of(*left, env) - val_of(*right, env) == val_of(l, env) - val_of(rr, env),
        r is Some ==> (left is NonTrival && left->NonTrival_0.0 == GraphOp::Plus)
            || (right is NonTrival && right->NonTrival_0.0 == GraphOp::Plus),
{
    match (left, right) {
        (GraphValue::Single(single), GraphValue::NonTrival((GraphOp::Plus, adds))) => {
            let mut lv: Vec<GraphValue> = Vec::new();
            lv.push(GraphValue::Single(single.dup()));
            let (rl, rr) = get_not_common(&lv, adds);
            proof {
                assert(lv@ =~= seq![*left]);
                lemma_terms_of_len(rl@);
                lemma_terms_of_len(rr@);
            }
            if rr.len() < adds.len() && rl.len() == 0 {
                let a = resolve_value(rl);
                let b = resolve_value(rr);
                proof {
                    assert forall|env: spec_fn(Seq<char>) -> int|
                        #[trigger] val_of(*left, env) - val_of(*right, env) == val_of(a, env) - val_of(b, env) by {
                        lemma_fold_single(GraphOp::Plus, lv@[0], env);
                        assert(lv@ =~= seq![lv@[0]]);
                    }
                }
                Some((a, b))
            } else {
                None
            }
        },
        (GraphValue::NonTrival((GraphOp::Plus, adds)), GraphValue::Single(single)) => {
            let mut rv: Vec<GraphValue> = Vec::new();
            rv.push(GraphValue::Single(single.dup()));
            let (rl, rr) = get_not_common(adds, &rv);
            proof {
                assert(rv@ =~= seq![*right]);
                lemma_terms_of_len(rl@);
                lemma_terms_of_len(rr@);
            }
            if rl.len() < adds.len() && rr.len() == 0 {
                let a = resolve_value(rl);
                let b = resolve_value(rr);
                proof {
                    assert forall|env: spec_fn(Seq<char>) -> int|
                        #[trigger] val_of(*left, env) - val_of(*right, env) == val_of(a, env) - val_of(b, env) by {
                        lemma_fold_single(GraphOp::Plus, rv@[0], env);
                        assert(rv@ =~= seq![rv@[0]]);
                        assert(val_of(*right, env) == val_of(rv@[0], env));
                        assert(val_of(*left, env) == fold_values(GraphOp::Plus, adds@, env));
                        assert(fold_values(GraphOp::Plus, adds@, env) - fold_values(GraphOp::Plus, rv@, env)
                            == fold_values(GraphOp::Plus, rl@, env) - fold_values(GraphOp::Plus, rr@, env));
                    }
                }
                Some((a, b))
            } else {
                None
            }
        },
        (GraphValue::NonTrival((GraphOp::Plus, adds_l)), GraphValue::NonTrival((GraphOp::Plus, adds_r))) => {
            let (rl, rr) = get_not_common(adds_l, adds_r);
            proof {
                lemma_terms_of_len(rl@);
                lemma_terms_of_len(rr@);
            }
            if rr.len() < adds_r.len() && rl.len() < adds_l.len() {
                let ghost rls = rl@;
                let ghost rrs = rr@;
                let a = resolve_value(rl);
                let b = resolve_value(rr);
                proof {
                    assert forall|env: spec_fn(Seq<char>) -> int|
                        #[trigger] val_of(*left, env) - val_of(*right, env) == val_of(a, env) - val_of(b, env) by {
                        assert(val_of(*left, env) == fold_values(GraphOp::Plus, adds_l@, env));
                        assert(val_of(*right, env) == fold_values(GraphOp::Plus, adds_r@, env));
                        assert(fold_values(GraphOp::Plus, adds_l@, env) - fold_values(GraphOp::Plus, adds_r@, env)
                            == fold_values(GraphOp::Plus, rls, env) - fold_values(GraphOp::Plus, rrs, env));
                    }
                }
                Some((a, b))
            } else {
                None
            }
        },
        _ => None,
    }
}

} // verus!
