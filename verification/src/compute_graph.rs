use vstd::prelude::*;
use vstd::utf8::encode_utf8;

verus! {

/// The type of an IR temporary, as far as the arithmetic passes read it.
#[derive(PartialEq, Eq, Structural, Clone, Copy, Debug, Hash)]
pub enum VarType {
    Void,
    I32,
    F32,
    I32Ptr,
    F32Ptr,
}

/// An IR temporary: a named virtual register.
#[derive(PartialEq, Eq, Debug, Hash)]
pub struct LlvmTemp {
    pub name: String,
    pub is_global: bool,
    pub var_type: VarType,
}

/// An IR operand: an integer literal, a float literal (held as its IEEE-754
/// bits), or a temporary.
#[derive(PartialEq, Eq, Debug)]
pub enum Value {
    Int(i32),
    Float(u32),
    Temp(LlvmTemp),
}

/// A leaf of an arithmetic graph: an integer literal or a temporary.
#[derive(PartialEq, Eq, Debug)]
pub enum Single {
    Int(i32),
    Temp(LlvmTemp),
}

/// The operator of an inner node of an arithmetic graph.
#[derive(PartialEq, Eq, Structural, Clone, Copy, Debug)]
pub enum GraphOp {
    Plus,
    Mul,
}

/// A sum or product tree over integer literals and temporaries.
#[derive(PartialEq, Eq, Debug)]
pub enum GraphValue {
    Single(Single),
    NonTrival((GraphOp, Vec<GraphValue>)),
}

/// The term a graph value stands for: its shape, literals and every field
/// of its temporaries (name, whether global, type). Two graph values with
/// the same term are equal except for where their lists of children are
/// stored.
pub enum Term {
    Num(int),
    Var(Seq<char>, bool, VarType),
    Node(GraphOp, Seq<Term>),
}

pub open spec fn term_of(g: GraphValue) -> Term
    decreases g,
{
    match g {
        GraphValue::Single(Single::Int(i)) => Term::Num(i as int),
        GraphValue::Single(Single::Temp(t)) => Term::Var(t.name@, t.is_global, t.var_type),
        GraphValue::NonTrival((op, v)) => Term::Node(op, terms_of(v@)),
    }
}

pub open spec fn terms_of(s: Seq<GraphValue>) -> Seq<Term>
    decreases s,
{
    if s.len() == 0 {
        Seq::empty()
    } else {
        terms_of(s.drop_last()).push(term_of(s.last()))
    }
}

impl LlvmTemp {
    /// A copy of this temporary.
    pub fn dup(&self) -> (r: Self)
        ensures
            r == *self,
    {
        LlvmTemp { name: self.name.clone(), is_global: self.is_global, var_type: self.var_type }
    }
}

impl Single {
    /// A copy of this leaf.
    pub fn dup(&self) -> (r: Self)
        ensures
            r == *self,
    {
        match self {
            Single::Int(i) => Single::Int(*i),
            Single::Temp(t) => Single::Temp(t.dup()),
        }
    }
}

impl GraphValue {
    /// A copy of this graph value, denoting the same term.
    pub fn dup(&self) -> (r: Self)
        ensures
            term_of(r) == term_of(*self),
        decreases self,
    {
        match self {
            GraphValue::Single(s) => GraphValue::Single(s.dup()),
            GraphValue::NonTrival((op, v)) => {
                let mut out: Vec<GraphValue> = Vec::new();
                let mut i: usize = 0;
                while i < v.len()
                    invariant
                        i <= v.len(),
                        *self == GraphValue::NonTrival((*op, *v)),
                        out.len() == i,
                        forall|j: int| 0 <= j < i ==> term_of(#[trigger] out@[j]) == term_of(v@[j]),
                    decreases v.len() - i,
                {
                    proof {
                        lemma_child_decreases(*self, i as int);
                    }
                    let c = v[i].dup();
                    out.push(c);
                    i = i + 1;
                }
                proof {
                    lemma_terms_of_pointwise(out@, v@);
                }
                GraphValue::NonTrival((*op, out))
            }
        }
    }
}

/// A child of an inner node is smaller than the node.
pub proof fn lemma_child_decreases(g: GraphValue, i: int)
    requires
        g is NonTrival,
        0 <= i < g->NonTrival_0.1.len(),
    ensures
        decreases_to!(g => g->NonTrival_0.1@[i]),
{
    let pair = g->NonTrival_0;
    assert(decreases_to!(g => pair));
    assert(decreases_to!(pair => pair.1));
    assert(decreases_to!(pair.1 => pair.1@));
    assert(decreases_to!(pair.1@ => pair.1@[i]));
}

pub open spec fn unit(op: GraphOp) -> int {
    match op {
        GraphOp::Plus => 0,
        GraphOp::Mul => 1,
    }
}

pub open spec fn combine(op: GraphOp, a: int, b: int) -> int {
    match op {
        GraphOp::Plus => a + b,
        GraphOp::Mul => a * b,
    }
}

/// The integer that a term denotes when each temporary named `n` holds `env(n)`.
pub open spec fn eval(t: Term, env: spec_fn(Seq<char>) -> int) -> int
    decreases t,
{
    match t {
        Term::Num(i) => i,
        Term::Var(n, _, _) => env(n),
        Term::Node(op, ts) => eval_all(op, ts, env),
    }
}

/// The sum (`Plus`) or product (`Mul`) of the terms of `ts`.
pub open spec fn eval_all(op: GraphOp, ts: Seq<Term>, env: spec_fn(Seq<char>) -> int) -> int
    decreases ts,
{
    if ts.len() == 0 {
        unit(op)
    } else {
        combine(op, eval_all(op, ts.drop_last(), env), eval(ts.last(), env))
    }
}

/// The value of a graph value under an environment.
pub open spec fn val_of(g: GraphValue, env: spec_fn(Seq<char>) -> int) -> int {
    eval(term_of(g), env)
}

impl Clone for GraphValue {
    fn clone(&self) -> (r: Self)
        ensures
            term_of(r) == term_of(*self),
    {
        self.dup()
    }
}

impl Clone for LlvmTemp {
    fn clone(&self) -> (r: Self)
        ensures
            r == *self,
    {
        self.dup()
    }
}

impl Clone for Single {
    fn clone(&self) -> (r: Self)
        ensures
            r == *self,
    {
        self.dup()
    }
}

pub proof fn lemma_terms_of_len(s: Seq<GraphValue>)
    ensures
        terms_of(s).len() == s.len(),
        forall|i: int| 0 <= i < s.len() ==> #[trigger] terms_of(s)[i] == term_of(s[i]),
    decreases s.len(),
{
    if s.len() > 0 {
        lemma_terms_of_len(s.drop_last());
    }
}

pub proof fn lemma_terms_of_pointwise(a: Seq<GraphValue>, b: Seq<GraphValue>)
    requires
        a.len() == b.len(),
        forall|j: int| 0 <= j < a.len() ==> term_of(#[trigger] a[j]) == term_of(b[j]),
    ensures
        terms_of(a) == terms_of(b),
{
    lemma_terms_of_len(a);
    lemma_terms_of_len(b);
    assert(terms_of(a) =~= terms_of(b));
}

/// The sum (`Plus`) or product (`Mul`) of the values of a list of graph values.
pub open spec fn fold_values(op: GraphOp, s: Seq<GraphValue>, env: spec_fn(Seq<char>) -> int) -> int {
    eval_all(op, terms_of(s), env)
}

pub proof fn lemma_combine_assoc(op: GraphOp, a: int, b: int, c: int)
    ensures
        combine(op, combine(op, a, b), c) == combine(op, a, combine(op, b, c)),
        combine(op, a, b) == combine(op, b, a),
        combine(op, a, unit(op)) == a,
        combine(op, unit(op), a) == a,
{
    match op {
        GraphOp::Plus => {},
        GraphOp::Mul => {
            assert((a * b) * c == a * (b * c)) by (nonlinear_arith);
            assert(a * b == b * a) by (nonlinear_arith);
        },
    }
}

pub proof fn lemma_eval_all_append(op: GraphOp, a: Seq<Term>, b: Seq<Term>, env: spec_fn(Seq<char>) -> int)
    ensures
        eval_all(op, a + b, env) == combine(op, eval_all(op, a, env), eval_all(op, b, env)),
    decreases b.len(),
{
    if b.len() == 0 {
        assert(a + b =~= a);
        lemma_combine_assoc(op, eval_all(op, a, env), 0, 0);
    } else {
        let b0 = b.drop_last();
        assert((a + b).drop_last() =~= a + b0);
        assert((a + b).last() == b.last());
        lemma_eval_all_append(op, a, b0, env);
        lemma_combine_assoc(op, eval_all(op, a, env), eval_all(op, b0, env), eval(b.last(), env));
    }
}

pub proof fn lemma_terms_of_append(a: Seq<GraphValue>, b: Seq<GraphValue>)
    ensures
        terms_of(a + b) == terms_of(a) + terms_of(b),
{
    lemma_terms_of_len(a);
    lemma_terms_of_len(b);
    lemma_terms_of_len(a + b);
    assert(terms_of(a + b) =~= terms_of(a) + terms_of(b));
}

pub proof fn lemma_terms_of_push(a: Seq<GraphValue>, x: GraphValue)
    ensures
        terms_of(a.push(x)) == terms_of(a).push(term_of(x)),
{
    assert(a.push(x).drop_last() =~= a);
}

pub proof fn lemma_fold_empty(op: GraphOp, env: spec_fn(Seq<char>) -> int)
    ensures
        fold_values(op, Seq::<GraphValue>::empty(), env) == unit(op),
{
}

pub proof fn lemma_fold_push(op: GraphOp, a: Seq<GraphValue>, x: GraphValue, env: spec_fn(Seq<char>) -> int)
    ensures
        fold_values(op, a.push(x), env) == combine(op, fold_values(op, a, env), val_of(x, env)),
{
    lemma_terms_of_push(a, x);
    assert(terms_of(a).push(term_of(x)).drop_last() =~= terms_of(a));
}

pub proof fn lemma_fold_append(op: GraphOp, a: Seq<GraphValue>, b: Seq<GraphValue>, env: spec_fn(Seq<char>) -> int)
    ensures
        fold_values(op, a + b, env) == combine(op, fold_values(op, a, env), fold_values(op, b, env)),
{
    lemma_terms_of_append(a, b);
    lemma_eval_all_append(op, terms_of(a), terms_of(b), env);
}

pub proof fn lemma_fold_single(op: GraphOp, x: GraphValue, env: spec_fn(Seq<char>) -> int)
    ensures
        fold_values(op, seq![x], env) == val_of(x, env),
{
    assert(seq![x] =~= Seq::<GraphValue>::empty().push(x));
    lemma_fold_push(op, Seq::<GraphValue>::empty(), x, env);
    lemma_combine_assoc(op, val_of(x, env), 0, 0);
}

/// Taking out the element at `k` and combining it back gives the same fold.
pub proof fn lemma_fold_remove(op: GraphOp, a: Seq<GraphValue>, k: int, env: spec_fn(Seq<char>) -> int)
    requires
        0 <= k < a.len(),
    ensures
        fold_values(op, a, env) == combine(op, fold_values(op, a.remove(k), env), val_of(a[k], env)),
{
    let l = a.subrange(0, k);
    let r = a.subrange(k + 1, a.len() as int);
    assert(a =~= l + seq![a[k]] + r);
    assert(a.remove(k) =~= l + r);
    lemma_fold_append(op, l + seq![a[k]], r, env);
    lemma_fold_append(op, l, seq![a[k]], env);
    lemma_fold_append(op, l, r, env);
    lemma_fold_single(op, a[k], env);
    let fl = fold_values(op, l, env);
    let fr = fold_values(op, r, env);
    let x = val_of(a[k], env);
    lemma_combine_assoc(op, fl, x, fr);
    lemma_combine_assoc(op, fl, fr, x);
    lemma_combine_assoc(op, x, fr, 0);
}

pub proof fn lemma_fold_insert(op: GraphOp, a: Seq<GraphValue>, k: int, x: GraphValue, env: spec_fn(Seq<char>) -> int)
    requires
        0 <= k <= a.len(),
    ensures
        fold_values(op, a.insert(k, x), env) == combine(op, fold_values(op, a, env), val_of(x, env)),
{
    lemma_fold_remove(op, a.insert(k, x), k, env);
    assert(a.insert(k, x).remove(k) =~= a);
}

} // verus!

verus! {

/// The result of comparing two values.
#[derive(PartialEq, Eq, Structural, Clone, Copy, Debug)]
pub enum Order3 {
    Less,
    Equal,
    Greater,
}

/// Raised when folding constants would leave the range of `i32`.
#[derive(Debug)]
pub struct OverflowError {}

/// The largest number of leaves that a result of the arithmetic operations may have.
pub const MAX_SIZE: usize = 64;

/// Whether two leaves denote the same term.
pub fn single_eq(a: &Single, b: &Single) -> (r: bool)
    ensures
        r == (term_of(GraphValue::Single(*a)) == term_of(GraphValue::Single(*b))),
{
    match (a, b) {
        (Single::Int(x), Single::Int(y)) => *x == *y,
        (Single::Temp(x), Single::Temp(y)) => x.name == y.name && x.is_global == y.is_global && x.var_type == y.var_type,
        _ => false,
    }
}

/// Whether two graph values denote the same term.
pub fn graph_eq(a: &GraphValue, b: &GraphValue) -> (r: bool)
    ensures
        r == (term_of(*a) == term_of(*b)),
    decreases a,
{
    match (a, b) {
        (GraphValue::Single(x), GraphValue::Single(y)) => single_eq(x, y),
        (GraphValue::NonTrival((opa, va)), GraphValue::NonTrival((opb, vb))) => {
            proof {
                lemma_terms_of_len(va@);
                lemma_terms_of_len(vb@);
            }
            if *opa != *opb || va.len() != vb.len() {
                return false;
            }
            let mut i: usize = 0;
            while i < va.len()
                invariant
                    i <= va.len(),
                    va.len() == vb.len(),
                    *a == GraphValue::NonTrival((*opa, *va)),
                    *b == GraphValue::NonTrival((*opb, *vb)),
                    *opa == *opb,
                    terms_of(va@).len() == va.len(),
                    terms_of(vb@).len() == vb.len(),
                    forall|j: int| 0 <= j < va.len() ==> #[trigger] terms_of(va@)[j] == term_of(va@[j]),
                    forall|j: int| 0 <= j < vb.len() ==> #[trigger] terms_of(vb@)[j] == term_of(vb@[j]),
                    forall|j: int| 0 <= j < i ==> term_of(#[trigger] va@[j]) == term_of(vb@[j]),
                decreases va.len() - i,
            {
                proof {
                    lemma_child_decreases(*a, i as int);
                }
                if !graph_eq(&va[i], &vb[i]) {
                    proof {
                        assert(terms_of(va@)[i as int] != terms_of(vb@)[i as int]);
                        assert(terms_of(va@) != terms_of(vb@));
                        assert(term_of(*a) == Term::Node(*opa, terms_of(va@)));
                        assert(term_of(*b) == Term::Node(*opb, terms_of(vb@)));
                    }
                    return false;
                }
                i = i + 1;
            }
            proof {
                assert(terms_of(va@) =~= terms_of(vb@));
            }
            true
        },
        _ => false,
    }
}

/// The three-way comparison of two integers.
pub open spec fn int_order(x: int, y: int) -> Order3 {
    if x < y {
        Order3::Less
    } else if x == y {
        Order3::Equal
    } else {
        Order3::Greater
    }
}

/// Lexicographic comparison of byte strings.
pub open spec fn bytes_order(a: Seq<u8>, b: Seq<u8>) -> Order3
    decreases a.len(),
{
    if a.len() == 0 {
        if b.len() == 0 { Order3::Equal } else { Order3::Less }
    } else if b.len() == 0 {
        Order3::Greater
    } else if a[0] != b[0] {
        int_order(a[0] as int, b[0] as int)
    } else {
        bytes_order(a.drop_first(), b.drop_first())
    }
}

pub open spec fn op_rank(op: GraphOp) -> int {
    match op {
        GraphOp::Plus => 0,
        GraphOp::Mul => 1,
    }
}

/// The order of leaves: integers before temporaries, integers by value,
/// temporaries by the bytes of their names.
pub open spec fn single_order_spec(a: Single, b: Single) -> Order3 {
    match (a, b) {
        (Single::Int(_), Single::Temp(_)) => Order3::Less,
        (Single::Temp(_), Single::Int(_)) => Order3::Greater,
        (Single::Int(x), Single::Int(y)) => int_order(x as int, y as int),
        (Single::Temp(x), Single::Temp(y)) => bytes_order(encode_utf8(x.name@), encode_utf8(y.name@)),
    }
}

/// The order of graph values: leaves before inner nodes, leaves by
/// `single_order_spec`; inner nodes by operator, then (where both have
/// children) by their numbers of children, then by the first of all but the
/// last pairs of children that differ.
pub open spec fn graph_order_spec(a: GraphValue, b: GraphValue) -> Order3
    decreases a, 1int, 0int,
{
    match (a, b) {
        (GraphValue::Single(_), GraphValue::NonTrival(_)) => Order3::Less,
        (GraphValue::NonTrival(_), GraphValue::Single(_)) => Order3::Greater,
        (GraphValue::Single(x), GraphValue::Single(y)) => single_order_spec(x, y),
        (GraphValue::NonTrival((opa, va)), GraphValue::NonTrival((opb, vb))) => {
            if opa != opb {
                int_order(op_rank(opa), op_rank(opb))
            } else if va.len() == 0 || vb.len() == 0 {
                Order3::Equal
            } else if va.len() != vb.len() {
                int_order(va.len() as int, vb.len() as int)
            } else {
                children_order(a, b, va.len() - 1)
            }
        },
    }
}

/// The verdict of the first `k` pairs of children of two inner nodes: the
/// first that is not `Equal`, else `Equal`.
pub open spec fn children_order(a: GraphValue, b: GraphValue, k: int) -> Order3
    decreases a, 0int, k,
{
    if k <= 0 || !(a is NonTrival) || !(b is NonTrival) || k > a->NonTrival_0.1.len()
        || k > b->NonTrival_0.1.len() {
        Order3::Equal
    } else {
        let prev = children_order(a, b, k - 1);
        if prev != Order3::Equal {
            prev
        } else {
            proof {
                lemma_child_decreases(a, k - 1);
            }
            graph_order_spec(a->NonTrival_0.1@[k - 1], b->NonTrival_0.1@[k - 1])
        }
    }
}

/// The verdict with its two sides swapped.
pub open spec fn flip(o: Order3) -> Order3 {
    match o {
        Order3::Less => Order3::Greater,
        Order3::Equal => Order3::Equal,
        Order3::Greater => Order3::Less,
    }
}

/// Swapping the byte strings swaps the verdict.
pub proof fn lemma_bytes_order_flip(a: Seq<u8>, b: Seq<u8>)
    ensures
        bytes_order(b, a) == flip(bytes_order(a, b)),
    decreases a.len(),
{
    if a.len() > 0 && b.len() > 0 && a[0] == b[0] {
        lemma_bytes_order_flip(a.drop_first(), b.drop_first());
    }
}

/// `Greater` between byte strings is transitive.
pub proof fn lemma_bytes_order_trans(a: Seq<u8>, b: Seq<u8>, c: Seq<u8>)
    requires
        bytes_order(a, b) == Order3::Greater,
        bytes_order(b, c) == Order3::Greater,
    ensures
        bytes_order(a, c) == Order3::Greater,
    decreases a.len(),
{
    if a.len() > 0 && b.len() > 0 && c.len() > 0 && a[0] == b[0] && b[0] == c[0] {
        lemma_bytes_order_trans(a.drop_first(), b.drop_first(), c.drop_first());
    }
}

/// Swapping two graph values swaps their verdict.
pub proof fn lemma_graph_order_flip(a: GraphValue, b: GraphValue)
    ensures
        graph_order_spec(b, a) == flip(graph_order_spec(a, b)),
    decreases a, 1int, 0int,
{
    match (a, b) {
        (GraphValue::Single(x), GraphValue::Single(y)) => {
            match (x, y) {
                (Single::Temp(s), Single::Temp(t)) => {
                    lemma_bytes_order_flip(encode_utf8(s.name@), encode_utf8(t.name@));
                },
                _ => {},
            }
        },
        (GraphValue::NonTrival((opa, va)), GraphValue::NonTrival((opb, vb))) => {
            if opa == opb && va.len() != 0 && vb.len() != 0 && va.len() == vb.len() {
                lemma_children_order_flip(a, b, va.len() - 1);
            }
        },
        _ => {},
    }
}

/// Swapping two inner nodes swaps the verdict of their first `k` pairs of children.
pub proof fn lemma_children_order_flip(a: GraphValue, b: GraphValue, k: int)
    ensures
        children_order(b, a, k) == flip(children_order(a, b, k)),
    decreases a, 0int, k,
{
    if k <= 0 || !(a is NonTrival) || !(b is NonTrival) || k > a->NonTrival_0.1.len()
        || k > b->NonTrival_0.1.len() {
    } else {
        lemma_children_order_flip(a, b, k - 1);
        if children_order(a, b, k - 1) == Order3::Equal {
            lemma_child_decreases(a, k - 1);
            lemma_graph_order_flip(a->NonTrival_0.1@[k - 1], b->NonTrival_0.1@[k - 1]);
        }
    }
}

/// Once some pair of children differs, later pairs do not change the verdict.
pub proof fn lemma_children_order_settled(a: GraphValue, b: GraphValue, k: int, m: int)
    requires
        0 <= k <= m,
        m <= a->NonTrival_0.1.len(),
        m <= b->NonTrival_0.1.len(),
        children_order(a, b, k) != Order3::Equal,
    ensures
        children_order(a, b, m) == children_order(a, b, k),
    decreases m - k,
{
    if k < m {
        lemma_children_order_settled(a, b, k, m - 1);
    }
}

/// Graph values that denote the same terms are ordered alike.
pub proof fn lemma_order_terms(a: GraphValue, b: GraphValue, a2: GraphValue, b2: GraphValue)
    requires
        term_of(a) == term_of(a2),
        term_of(b) == term_of(b2),
    ensures
        graph_order_spec(a, b) == graph_order_spec(a2, b2),
    decreases a, 1int, 0int,
{
    match (a, b) {
        (GraphValue::NonTrival((opa, va)), GraphValue::NonTrival((opb, vb))) => {
            let va2 = a2->NonTrival_0.1;
            let vb2 = b2->NonTrival_0.1;
            lemma_terms_of_len(va@);
            lemma_terms_of_len(va2@);
            lemma_terms_of_len(vb@);
            lemma_terms_of_len(vb2@);
            assert forall|i: int| 0 <= i < va@.len() implies term_of(#[trigger] va@[i]) == term_of(va2@[i]) by {
                assert(terms_of(va@)[i] == terms_of(va2@)[i]);
            }
            assert forall|i: int| 0 <= i < vb@.len() implies term_of(#[trigger] vb@[i]) == term_of(vb2@[i]) by {
                assert(terms_of(vb@)[i] == terms_of(vb2@)[i]);
            }
            if opa == opb && va.len() > 0 && vb.len() > 0 && va.len() == vb.len() {
                lemma_children_terms(a, b, a2, b2, va.len() - 1);
            }
        },
        _ => {},
    }
}

proof fn lemma_children_terms(a: GraphValue, b: GraphValue, a2: GraphValue, b2: GraphValue, k: int)
    requires
        a is NonTrival,
        b is NonTrival,
        a2 is NonTrival,
        b2 is NonTrival,
        a->NonTrival_0.1.len() == a2->NonTrival_0.1.len(),
        b->NonTrival_0.1.len() == b2->NonTrival_0.1.len(),
        forall|i: int| 0 <= i < a->NonTrival_0.1.len() ==> term_of(#[trigger] a->NonTrival_0.1@[i]) == term_of(a2->NonTrival_0.1@[i]),
        forall|i: int| 0 <= i < b->NonTrival_0.1.len() ==> term_of(#[trigger] b->NonTrival_0.1@[i]) == term_of(b2->NonTrival_0.1@[i]),
    ensures
        children_order(a, b, k) == children_order(a2, b2, k),
    decreases a, 0int, k,
{
    if k > 0 && k <= a->NonTrival_0.1.len() && k <= b->NonTrival_0.1.len() {
        lemma_children_terms(a, b, a2, b2, k - 1);
        lemma_child_decreases(a, k - 1);
        lemma_order_terms(a->NonTrival_0.1@[k - 1], b->NonTrival_0.1@[k - 1], a2->NonTrival_0.1@[k - 1], b2->NonTrival_0.1@[k - 1]);
    }
}

fn order_i32(a: i32, b: i32) -> (r: Order3)
    ensures
        r == int_order(a as int, b as int),
{
    if a < b {
        Order3::Less
    } else if a == b {
        Order3::Equal
    } else {
        Order3::Greater
    }
}

fn order_usize(a: usize, b: usize) -> (r: Order3)
    ensures
        r == int_order(a as int, b as int),
{
    if a < b {
        Order3::Less
    } else if a == b {
        Order3::Equal
    } else {
        Order3::Greater
    }
}

/// Lexicographic comparison of two byte strings, as `str` orders its values.
fn order_bytes(a: &[u8], b: &[u8]) -> (r: Order3)
    ensures
        r == bytes_order(a@, b@),
{
    let n = if a.len() < b.len() { a.len() } else { b.len() };
    let mut i: usize = 0;
    proof {
        assert(a@.skip(0) =~= a@);
        assert(b@.skip(0) =~= b@);
    }
    while i < n
        invariant
            i <= n,
            n <= a.len(),
            n <= b.len(),
            n == a.len() || n == b.len(),
            bytes_order(a@, b@) == bytes_order(a@.skip(i as int), b@.skip(i as int)),
        decreases n - i,
    {
        proof {
            assert(a@.skip(i as int)[0] == a@[i as int]);
            assert(b@.skip(i as int)[0] == b@[i as int]);
            assert(a@.skip(i as int).drop_first() =~= a@.skip(i + 1));
            assert(b@.skip(i as int).drop_first() =~= b@.skip(i + 1));
        }
        if a[i] < b[i] {
            return Order3::Less;
        } else if a[i] > b[i] {
            return Order3::Greater;
        }
        i = i + 1;
    }
    if a.len() < b.len() {
        Order3::Less
    } else if a.len() > b.len() {
        Order3::Greater
    } else {
        Order3::Equal
    }
}

pub(crate) fn order_name(a: &String, b: &String) -> (r: Order3)
    ensures
        r == bytes_order(encode_utf8(a@), encode_utf8(b@)),
{
    order_bytes(a.as_str().as_bytes(), b.as_str().as_bytes())
}

fn order_op(a: GraphOp, b: GraphOp) -> (r: Order3)
    ensures
        r == int_order(op_rank(a), op_rank(b)),
{
    match (a, b) {
        (GraphOp::Plus, GraphOp::Mul) => Order3::Less,
        (GraphOp::Mul, GraphOp::Plus) => Order3::Greater,
        _ => Order3::Equal,
    }
}

/// The order of leaves (see `single_order_spec`).
pub fn single_order(a: &Single, b: &Single) -> (r: Order3)
    ensures
        r == single_order_spec(*a, *b),
{
    match (a, b) {
        (Single::Int(_), Single::Temp(_)) => Order3::Less,
        (Single::Temp(_), Single::Int(_)) => Order3::Greater,
        (Single::Int(x), Single::Int(y)) => order_i32(*x, *y),
        (Single::Temp(x), Single::Temp(y)) => order_name(&x.name, &y.name),
    }
}

/// The order of graph values (see `graph_order_spec`): leaves before inner
/// nodes; inner nodes by operator, then by the number of children, then
/// child by child, where the verdict of the last pair of children is not
/// consulted.
pub fn graph_order(a: &GraphValue, b: &GraphValue) -> (r: Order3)
    ensures
        r == graph_order_spec(*a, *b),
    decreases a,
{
    match (a, b) {
        (GraphValue::Single(_), GraphValue::NonTrival(_)) => Order3::Less,
        (GraphValue::NonTrival(_), GraphValue::Single(_)) => Order3::Greater,
        (GraphValue::Single(x), GraphValue::Single(y)) => single_order(x, y),
        (GraphValue::NonTrival((opa, va)), GraphValue::NonTrival((opb, vb))) => {
            let c = order_op(*opa, *opb);
            if c != Order3::Equal {
                return c;
            }
            let mut last = order_usize(va.len(), vb.len());
            let n = if va.len() < vb.len() { va.len() } else { vb.len() };
            let mut i: usize = 0;
            while i < n
                invariant
                    i <= n,
                    n <= va.len(),
                    n <= vb.len(),
                    n == va.len() || n == vb.len(),
                    *opa == *opb,
                    *a == GraphValue::NonTrival((*opa, *va)),
                    *b == GraphValue::NonTrival((*opb, *vb)),
                    i == 0 ==> last == int_order(va.len() as int, vb.len() as int),
                    i > 0 ==> va.len() == vb.len() && children_order(*a, *b, i - 1) == Order3::Equal
                        && last == graph_order_spec(va@[i - 1], vb@[i - 1]),
                decreases n - i,
            {
                if last != Order3::Equal {
                    proof {
                        if i > 0 {
                            assert(children_order(*a, *b, i as int) == last);
                            lemma_children_order_settled(*a, *b, i as int, va.len() - 1);
                        }
                    }
                    return last;
                }
                proof {
                    lemma_child_decreases(*a, i as int);
                    if i > 0 {
                        assert(children_order(*a, *b, i as int) == Order3::Equal);
                    }
                }
                last = graph_order(&va[i], &vb[i]);
                i = i + 1;
            }
            Order3::Equal
        },
    }
}

/// `a < b` in the order of graph values.
pub fn graph_lt(a: &GraphValue, b: &GraphValue) -> (r: bool)
    ensures
        r == (graph_order_spec(*a, *b) == Order3::Less),
{
    graph_order(a, b) == Order3::Less
}

} // verus!

verus! {

pub proof fn lemma_fold_pointwise(op: GraphOp, a: Seq<GraphValue>, b: Seq<GraphValue>, env: spec_fn(Seq<char>) -> int)
    requires
        a.len() == b.len(),
        forall|j: int| 0 <= j < a.len() ==> val_of(#[trigger] a[j], env) == val_of(b[j], env),
    ensures
        fold_values(op, a, env) == fold_values(op, b, env),
    decreases a.len(),
{
    if a.len() > 0 {
        let a0 = a.drop_last();
        let b0 = b.drop_last();
        assert(a =~= a0.push(a.last()));
        assert(b =~= b0.push(b.last()));
        lemma_fold_push(op, a0, a.last(), env);
        lemma_fold_push(op, b0, b.last(), env);
        assert forall|j: int| 0 <= j < a0.len() implies val_of(#[trigger] a0[j], env) == val_of(b0[j], env) by {
            assert(a0[j] == a[j]);
            assert(b0[j] == b[j]);
        }
        lemma_fold_pointwise(op, a0, b0, env);
    }
}

/// The number of leaves of a graph value.
pub open spec fn leaf_count(g: GraphValue) -> nat
    decreases g,
{
    match g {
        GraphValue::Single(_) => 1,
        GraphValue::NonTrival((_, v)) => leaf_counts(v@),
    }
}

pub open spec fn leaf_counts(s: Seq<GraphValue>) -> nat
    decreases s,
{
    if s.len() == 0 {
        0
    } else {
        leaf_counts(s.drop_last()) + leaf_count(s.last())
    }
}

/// The weight by which the simplification loop judges progress: one per
/// leaf and ten per inner node.
pub open spec fn metric_of(g: GraphValue) -> nat
    decreases g,
{
    match g {
        GraphValue::Single(_) => 1,
        GraphValue::NonTrival((_, v)) => 10 + metrics_of(v@),
    }
}

pub open spec fn metrics_of(s: Seq<GraphValue>) -> nat
    decreases s,
{
    if s.len() == 0 {
        0
    } else {
        metrics_of(s.drop_last()) + metric_of(s.last())
    }
}

/// `n`, or `usize::MAX` where `n` does not fit in a `usize`.
pub open spec fn capped(n: nat) -> usize {
    if n <= usize::MAX {
        n as usize
    } else {
        usize::MAX
    }
}

fn sat_add(a: usize, b: usize) -> (r: usize)
    ensures
        r == capped((a + b) as nat),
{
    a.saturating_add(b)
}

pub proof fn lemma_capped_add(x: nat, y: nat)
    ensures
        capped((capped(x) + capped(y)) as nat) == capped(x + y),
{
}

impl GraphValue {
    /// The literal, where this value is an integer leaf.
    pub fn as_number(&self) -> (r: Option<i32>)
        ensures
            r == (match *self {
                GraphValue::Single(Single::Int(i)) => Some(i),
                _ => None,
            }),
    {
        match self {
            GraphValue::Single(Single::Int(i)) => Some(*i),
            _ => None,
        }
    }

    /// The temporary, where this value is a temporary leaf.
    pub fn as_tmp(&self) -> (r: Option<&LlvmTemp>)
        ensures
            r == (match *self {
                GraphValue::Single(Single::Temp(t)) => Some(&t),
                _ => None,
            }),
    {
        match self {
            GraphValue::Single(Single::Temp(t)) => Some(t),
            _ => None,
        }
    }

    /// The leaf, where this value is a leaf.
    pub fn as_single(&self) -> (r: Option<&Single>)
        ensures
            r == (match *self {
                GraphValue::Single(s) => Some(&s),
                _ => None,
            }),
    {
        match self {
            GraphValue::Single(s) => Some(s),
            _ => None,
        }
    }

    /// The children, where this value is an inner node with operator `op_target`.
    pub fn as_non_trival(&self, op_target: GraphOp) -> (r: Option<&Vec<GraphValue>>)
        ensures
            r == (match *self {
                GraphValue::NonTrival((op, v)) if op == op_target => Some(&v),
                _ => None,
            }),
    {
        match self {
            GraphValue::NonTrival((op, v)) => {
                if *op == op_target {
                    Some(v)
                } else {
                    None
                }
            },
            _ => None,
        }
    }

    /// The number of leaves (saturating at `usize::MAX`).
    pub fn size(&self) -> (r: usize)
        ensures
            r == capped(leaf_count(*self)),
        decreases self,
    {
        match self {
            GraphValue::Single(_) => 1,
            GraphValue::NonTrival((_, v)) => {
                let mut acc: usize = 0;
                let mut i: usize = 0;
                while i < v.len()
                    invariant
                        i <= v.len(),
                        *self == GraphValue::NonTrival((self->NonTrival_0.0, *v)),
                        acc == capped(leaf_counts(v@.take(i as int))),
                    decreases v.len() - i,
                {
                    proof {
                        lemma_child_decreases(*self, i as int);
                        assert(v@.take(i + 1).drop_last() =~= v@.take(i as int));
                    }
                    let c = v[i].size();
                    proof {
                        lemma_capped_add(leaf_counts(v@.take(i as int)), leaf_count(v@[i as int]));
                    }
                    acc = sat_add(acc, c);
                    i = i + 1;
                }
                proof {
                    assert(v@.take(i as int) =~= v@);
                }
                acc
            },
        }
    }

    /// The simplification metric (saturating at `usize::MAX`).
    pub fn metric(&self) -> (r: usize)
        ensures
            r == capped(metric_of(*self)),
        decreases self,
    {
        match self {
            GraphValue::Single(_) => 1,
            GraphValue::NonTrival((_, v)) => {
                let mut acc: usize = 10;
                let mut i: usize = 0;
                while i < v.len()
                    invariant
                        i <= v.len(),
                        *self == GraphValue::NonTrival((self->NonTrival_0.0, *v)),
                        acc == capped(10 + metrics_of(v@.take(i as int))),
                    decreases v.len() - i,
                {
                    proof {
                        lemma_child_decreases(*self, i as int);
                        assert(v@.take(i + 1).drop_last() =~= v@.take(i as int));
                    }
                    let c = v[i].metric();
                    proof {
                        lemma_capped_add(10 + metrics_of(v@.take(i as int)), metric_of(v@[i as int]));
                    }
                    acc = sat_add(acc, c);
                    i = i + 1;
                }
                proof {
                    assert(v@.take(i as int) =~= v@);
                }
                acc
            },
        }
    }

    /// This value, where it has at most `MAX_SIZE` leaves.
    pub fn check_over_size(self) -> (r: Option<Self>)
        ensures
            leaf_count(self) <= MAX_SIZE ==> r == Some(self),
            leaf_count(self) > MAX_SIZE ==> r is None,
    {
        if self.size() <= MAX_SIZE {
            Some(self)
        } else {
            None
        }
    }
}

} // verus!
