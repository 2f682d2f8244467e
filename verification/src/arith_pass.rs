use vstd::prelude::*;
use crate::arith::{extract_const_ok, literal_product, literal_products_fit, non_literals};
use crate::calc_coef::dup_value;
use crate::compute_graph::{lemma_child_decreases, metric_of, GraphOp, GraphValue, LlvmTemp, Single, term_of, Value, VarType};
use crate::emit::{build_instr, build_providing_value, buildable, lemma_all_buildable};
use crate::ir_ops::{ArithOp, CompOp};
use crate::rearrange::ArithInstr;
use crate::rearrange_block::{BlockFunc, BlockInstr, BlockProgram, OtherInstr, OtherKind};
use crate::simplify::remove_addicative_common;
use crate::if_combine::{dup_instr, same_instr};

verus! {

/// Whether the integer literals among `v` multiply out within `i32` at
/// every step, and the product is not `i32::MIN` where `v` has other
/// operands too (what `extract_const` needs of a product).
fn literal_products_ok(v: &Vec<GraphValue>) -> (r: bool)
    ensures
        r == (literal_products_fit(v@)
            && (non_literals(v@, v@.len() as int).len() > 0 ==> literal_product(v@, v@.len() as int) != i32::MIN)),
{
    let mut p: i32 = 1;
    let mut others = false;
    let mut k: usize = 0;
    while k < v.len()
        invariant
            k <= v@.len(),
            p == literal_product(v@, k as int),
            forall|j: int| 0 <= j <= k ==> i32::MIN <= #[trigger] literal_product(v@, j) <= i32::MAX,
            others == (non_literals(v@, k as int).len() > 0),
        decreases v.len() - k,
    {
        match &v[k] {
            GraphValue::Single(Single::Int(i)) => {
                match p.checked_mul(*i) {
                    Some(q) => {
                        p = q;
                    },
                    None => {
                        proof {
                            assert(literal_product(v@, k + 1) == literal_product(v@, k as int) * *i);
                            assert(!(i32::MIN <= literal_product(v@, k + 1) <= i32::MAX));
                        }
                        return false;
                    },
                }
            },
            _ => {
                others = true;
            },
        }
        proof {
            assert(non_literals(v@, k + 1) == (match v@[k as int] {
                GraphValue::Single(Single::Int(_)) => non_literals(v@, k as int),
                _ => non_literals(v@, k as int).push(v@[k as int]),
            }));
        }
        k = k + 1;
    }
    !others || p != i32::MIN
}

/// Whether code can be built for `g` (`buildable`).
pub fn check_buildable(g: &GraphValue) -> (r: bool)
    ensures
        r == buildable(*g),
    decreases g,
{
    match g {
        GraphValue::Single(_) => true,
        GraphValue::NonTrival((op, v)) => {
            let plus = match op {
                GraphOp::Plus => true,
                GraphOp::Mul => false,
            };
            let mut i: usize = 0;
            while i < v.len()
                invariant
                    i <= v@.len(),
                    *g == GraphValue::NonTrival((*op, *v)),
                    plus == (*op == GraphOp::Plus),
                    forall|j: int| 0 <= j < i ==> buildable(#[trigger] v@[j]),
                    plus ==> forall|j: int| 0 <= j < i ==> extract_const_ok(#[trigger] v@[j]),
                decreases v.len() - i,
            {
                proof {
                    lemma_child_decreases(*g, i as int);
                }
                if plus {
                    let ok = match &v[i] {
                        GraphValue::NonTrival((GraphOp::Mul, w)) => literal_products_ok(w),
                        _ => true,
                    };
                    if !ok {
                        return false;
                    }
                }
                if !check_buildable(&v[i]) {
                    proof {
                        lemma_all_buildable(v@);
                    }
                    return false;
                }
                i = i + 1;
            }
            proof {
                lemma_all_buildable(v@);
            }
            true
        },
    }
}


/// Every value recorded in `m` can be built.
pub open spec fn entries_buildable(m: Seq<(LlvmTemp, GraphValue)>) -> bool {
    forall|j: int| 0 <= j < m.len() ==> buildable(#[trigger] m[j].1)
}

/// The position of the entry for the temporary named `name`.
fn find_entry(m: &Vec<(LlvmTemp, GraphValue)>, name: &String) -> (r: Option<usize>)
    ensures
        r matches Some(j) ==> j < m@.len() && m@[j as int].0.name@ == name@
            && forall|k: int| 0 <= k < j ==> (#[trigger] m@[k]).0.name@ != name@,
        r is None ==> forall|k: int| 0 <= k < m@.len() ==> (#[trigger] m@[k]).0.name@ != name@,
{
    let mut j: usize = 0;
    while j < m.len()
        invariant
            j <= m@.len(),
            forall|k: int| 0 <= k < j ==> (#[trigger] m@[k]).0.name@ != name@,
        decreases m.len() - j,
    {
        if m[j].0.name == *name {
            return Some(j);
        }
        j = j + 1;
    }
    None
}

/// Removes and gives the entry for the temporary named `name`.
fn take_entry(m: &mut Vec<(LlvmTemp, GraphValue)>, name: &String) -> (r: Option<(LlvmTemp, GraphValue)>)
    ensures
        entries_buildable(old(m)@) ==> entries_buildable(final(m)@),
        r matches Some(e) ==> final(m)@.len() + 1 == old(m)@.len() && e.0.name@ == name@
            && (entries_buildable(old(m)@) ==> buildable(e.1)),
        r is None ==> final(m)@ == old(m)@,
        r is None <==> forall|k: int| 0 <= k < old(m)@.len() ==> (#[trigger] old(m)@[k]).0.name@ != name@,
        r matches Some(e) ==> exists|j: int| 0 <= j < old(m)@.len() && #[trigger] old(m)@[j] == e
            && (forall|k: int| 0 <= k < j ==> (#[trigger] old(m)@[k]).0.name@ != name@)
            && final(m)@ == old(m)@.remove(j),
{
    match find_entry(m, name) {
        Some(j) => {
            let ghost m0 = m@;
            let e = m.remove(j);
            proof {
                assert(m0[j as int] == e);
            }
            proof {
                assert forall|k: int| 0 <= k < m@.len() && entries_buildable(m0) implies buildable(#[trigger] m@[k].1) by {
                    if k < j {
                        assert(m@[k] == m0[k]);
                    } else {
                        assert(m@[k] == m0[k + 1]);
                    }
                }
            }
            Some(e)
        },
        None => None,
    }
}

/// Records `g` as the value of `t`, in place of an earlier entry for it.
fn put_entry(m: &mut Vec<(LlvmTemp, GraphValue)>, t: LlvmTemp, g: GraphValue)
    requires
        buildable(g),
    ensures
        entries_buildable(old(m)@) ==> entries_buildable(final(m)@),
        final(m)@.len() <= old(m)@.len() + 1,
        (forall|k: int| 0 <= k < old(m)@.len() ==> (#[trigger] old(m)@[k]).0.name@ != t.name@)
            ==> final(m)@ == old(m)@.push((t, g)),
        !(forall|k: int| 0 <= k < old(m)@.len() ==> (#[trigger] old(m)@[k]).0.name@ != t.name@)
            ==> exists|j: int| 0 <= j < old(m)@.len() && (#[trigger] old(m)@[j]).0.name@ == t.name@
                && (forall|k: int| 0 <= k < j ==> (#[trigger] old(m)@[k]).0.name@ != t.name@)
                && final(m)@ == old(m)@.update(j, (t, g)),
{
    match find_entry(m, &t.name) {
        Some(j) => {
            m.set(j, (t, g));
        },
        None => {
            m.push((t, g));
        },
    }
}

/// The count recorded for `n`: the first entry for it.
pub open spec fn count_entry(s: Seq<(String, usize)>, n: Seq<char>) -> Option<usize>
    decreases s.len(),
{
    if s.len() == 0 {
        None
    } else if s[0].0@ == n {
        Some(s[0].1)
    } else {
        count_entry(s.skip(1), n)
    }
}

/// The count recorded for `n`, zero where there is none.
pub open spec fn count_lookup(s: Seq<(String, usize)>, n: Seq<char>) -> nat {
    match count_entry(s, n) {
        Some(c) => c as nat,
        None => 0,
    }
}

/// One more, saturating at `usize::MAX`.
pub open spec fn sat_inc(x: nat) -> usize {
    if x < usize::MAX {
        (x + 1) as usize
    } else {
        usize::MAX
    }
}

proof fn lemma_count_entry_skip(s: Seq<(String, usize)>, j: int, n: Seq<char>)
    requires
        0 <= j < s.len(),
    ensures
        count_entry(s.skip(j), n) == if s[j].0@ == n { Some(s[j].1) } else { count_entry(s.skip(j + 1), n) },
{
    assert(s.skip(j).skip(1) =~= s.skip(j + 1));
}

proof fn lemma_count_entry_first(s: Seq<(String, usize)>, j: int, n: Seq<char>)
    requires
        0 <= j <= s.len(),
        forall|k: int| 0 <= k < j ==> (#[trigger] s[k]).0@ != n,
    ensures
        count_entry(s, n) == count_entry(s.skip(j), n),
    decreases j,
{
    if j > 0 {
        lemma_count_entry_first(s, j - 1, n);
        lemma_count_entry_skip(s, j - 1, n);
    } else {
        assert(s.skip(0) =~= s);
    }
}

proof fn lemma_count_entry_same_keys(s1: Seq<(String, usize)>, s2: Seq<(String, usize)>, n: Seq<char>)
    requires
        s1.len() == s2.len(),
        forall|k: int| 0 <= k < s1.len() ==> (#[trigger] s1[k]).0@ == s2[k].0@,
        forall|k: int| 0 <= k < s1.len() && (#[trigger] s1[k]).0@ == n ==> s1[k].1 == s2[k].1,
    ensures
        count_entry(s1, n) == count_entry(s2, n),
    decreases s1.len(),
{
    if s1.len() > 0 {
        assert(s1[0] == s1[0]);
        lemma_count_entry_same_keys(s1.skip(1), s2.skip(1), n);
    }
}

proof fn lemma_count_lookup_update(s: Seq<(String, usize)>, j: int, c: usize, n: Seq<char>)
    requires
        0 <= j < s.len(),
        s[j].0@ == n,
        forall|k: int| 0 <= k < j ==> (#[trigger] s[k]).0@ != n,
    ensures
        count_entry(s.update(j, (s[j].0, c)), n) == Some(c),
        count_entry(s, n) == Some(s[j].1),
        forall|m: Seq<char>| m != n ==> #[trigger] count_entry(s.update(j, (s[j].0, c)), m) == count_entry(s, m),
{
    let u = s.update(j, (s[j].0, c));
    lemma_count_entry_first(s, j, n);
    lemma_count_entry_skip(s, j, n);
    assert forall|k: int| 0 <= k < j implies (#[trigger] u[k]).0@ != n by {
        assert(u[k] == s[k]);
    }
    lemma_count_entry_first(u, j, n);
    lemma_count_entry_skip(u, j, n);
    assert forall|m: Seq<char>| m != n implies #[trigger] count_entry(u, m) == count_entry(s, m) by {
        assert forall|k: int| 0 <= k < u.len() implies (#[trigger] u[k]).0@ == s[k].0@ by {}
        assert forall|k: int| 0 <= k < u.len() && (#[trigger] u[k]).0@ == m implies u[k].1 == s[k].1 by {
            if k == j {
                assert(u[k].0@ == n);
            }
        }
        lemma_count_entry_same_keys(u, s, m);
    }
}

proof fn lemma_count_lookup_absent(s: Seq<(String, usize)>, n: Seq<char>)
    requires
        forall|k: int| 0 <= k < s.len() ==> (#[trigger] s[k]).0@ != n,
    ensures
        count_entry(s, n) is None,
{
    lemma_count_entry_first(s, s.len() as int, n);
    assert(s.skip(s.len() as int) =~= Seq::<(String, usize)>::empty());
}

proof fn lemma_count_entry_push(s: Seq<(String, usize)>, x: (String, usize), m: Seq<char>)
    ensures
        count_entry(s.push(x), m) == match count_entry(s, m) {
            Some(c) => Some(c),
            None => if x.0@ == m { Some(x.1) } else { None },
        },
    decreases s.len(),
{
    if s.len() > 0 {
        assert(s.push(x)[0] == s[0]);
        lemma_count_entry_push(s.skip(1), x, m);
        assert(s.push(x).skip(1) =~= s.skip(1).push(x));
        assert(s.push(x).len() > 0);
    } else {
        assert(s.push(x)[0] == x);
        assert(s.push(x).skip(1) =~= Seq::<(String, usize)>::empty());
        assert(count_entry(Seq::<(String, usize)>::empty(), m) is None);
        assert(count_entry(s, m) is None);
    }
}

proof fn lemma_count_lookup_push(s: Seq<(String, usize)>, x: (String, usize))
    ensures
        forall|m: Seq<char>| #[trigger] count_entry(s.push(x), m) == match count_entry(s, m) {
            Some(c) => Some(c),
            None => if x.0@ == m { Some(x.1) } else { None },
        },
{
    assert forall|m: Seq<char>| #[trigger] count_entry(s.push(x), m) == match count_entry(s, m) {
        Some(c) => Some(c),
        None => if x.0@ == m { Some(x.1) } else { None },
    } by {
        lemma_count_entry_push(s, x, m);
    }
}

/// Adds one to the count of `name` and gives the new count (saturating).
fn count_one(map: &mut Vec<(String, usize)>, name: &String) -> (r: usize)
    ensures
        count_lookup(final(map)@, name@) == r,
        r == sat_inc(count_lookup(old(map)@, name@)),
        forall|n: Seq<char>| n != name@ ==> #[trigger] count_lookup(final(map)@, n) == count_lookup(old(map)@, n),
{
    let mut j: usize = 0;
    while j < map.len()
        invariant
            j <= map@.len(),
            map@ == old(map)@,
            forall|k: int| 0 <= k < j ==> (#[trigger] map@[k]).0@ != name@,
        decreases map.len() - j,
    {
        if map[j].0 == *name {
            let c = if map[j].1 < usize::MAX {
                map[j].1 + 1
            } else {
                map[j].1
            };
            let key = map[j].0.clone();
            let ghost m0 = map@;
            map.set(j, (key, c));
            proof {
                lemma_count_lookup_update(m0, j as int, c, name@);
            }
            return c;
        }
        j = j + 1;
    }
    proof {
        lemma_count_lookup_absent(map@, name@);
    }
    let ghost m0 = map@;
    map.push((name.clone(), 1));
    proof {
        lemma_count_lookup_push(m0, (*name, 1usize));
    }
    1
}

/// The count of `name`, where it has one.
fn count_of(map: &Vec<(String, usize)>, name: &String) -> (r: Option<usize>)
    ensures
        r == count_entry(map@, name@),
{
    let mut j: usize = 0;
    proof {
        assert(map@.skip(0) =~= map@);
    }
    while j < map.len()
        invariant
            j <= map@.len(),
            count_entry(map@, name@) == count_entry(map@.skip(j as int), name@),
        decreases map.len() - j,
    {
        proof {
            lemma_count_entry_skip(map@, j as int, name@);
        }
        if map[j].0 == *name {
            return Some(map[j].1);
        }
        j = j + 1;
    }
    proof {
        assert(map@.skip(j as int) =~= Seq::<(String, usize)>::empty());
    }
    None
}

/// The operands an instruction reads, in order.
pub open spec fn operands_read(instr: BlockInstr) -> Seq<Value> {
    match instr {
        BlockInstr::Arith(a) => seq![a.lhs, a.rhs],
        BlockInstr::Other(o) => o.reads@,
    }
}

/// How many of `vs` are the temporary named `n`.
pub open spec fn temp_reads(vs: Seq<Value>, n: Seq<char>) -> nat
    decreases vs.len(),
{
    if vs.len() == 0 {
        0
    } else {
        temp_reads(vs.drop_last(), n) + match vs.last() {
            Value::Temp(t) => if t.name@ == n { 1nat } else { 0nat },
            _ => 0nat,
        }
    }
}

/// `x + k`, saturating at `usize::MAX`.
pub open spec fn sat_add(x: nat, k: nat) -> nat {
    if x + k <= usize::MAX {
        x + k
    } else {
        usize::MAX as nat
    }
}

/// Counts one read of the temporary `v` names, where it names one.
fn count_operand(v: &Value, map: &mut Vec<(String, usize)>)
    ensures
        forall|n: Seq<char>| #[trigger] count_lookup(final(map)@, n) == sat_add(count_lookup(old(map)@, n),
            match *v {
                Value::Temp(t) => if t.name@ == n { 1nat } else { 0nat },
                _ => 0nat,
            }),
{
    if let Value::Temp(t) = v {
        count_one(map, &t.name);
    }
}


/// Counts each temporary that `instr` reads.
fn count_reads(instr: &BlockInstr, map: &mut Vec<(String, usize)>)
    ensures
        forall|n: Seq<char>| #[trigger] count_lookup(final(map)@, n)
            == sat_add(count_lookup(old(map)@, n), temp_reads(operands_read(*instr), n)),
{
    match instr {
        BlockInstr::Arith(a) => {
            let ghost m0 = map@;
            count_operand(&a.lhs, map);
            let ghost m1 = map@;
            count_operand(&a.rhs, map);
            proof {
                let vs = seq![a.lhs, a.rhs];
                assert(vs.drop_last() =~= seq![a.lhs]);
                assert(seq![a.lhs].drop_last() =~= Seq::<Value>::empty());
                assert forall|n: Seq<char>| #[trigger] count_lookup(map@, n)
                    == sat_add(count_lookup(m0, n), temp_reads(operands_read(*instr), n)) by {
                    assert(temp_reads(Seq::<Value>::empty(), n) == 0);
                    assert(temp_reads(seq![a.lhs], n) == match a.lhs {
                        Value::Temp(t) => if t.name@ == n { 1nat } else { 0nat },
                        _ => 0nat,
                    });
                    assert(count_lookup(m1, n) == sat_add(count_lookup(m0, n), temp_reads(seq![a.lhs], n)));
                }
            }
        },
        BlockInstr::Other(o) => {
            let mut j: usize = 0;
            proof {
                assert(o.reads@.take(0) =~= Seq::<Value>::empty());
            }
            while j < o.reads.len()
                invariant
                    j <= o.reads@.len(),
                    forall|n: Seq<char>| #[trigger] count_lookup(map@, n)
                        == sat_add(count_lookup(old(map)@, n), temp_reads(o.reads@.take(j as int), n)),
                decreases o.reads.len() - j,
            {
                let ghost m0 = map@;
                count_operand(&o.reads[j], map);
                proof {
                    assert(o.reads@.take(j + 1).drop_last() =~= o.reads@.take(j as int));
                    assert forall|n: Seq<char>| #[trigger] count_lookup(map@, n)
                        == sat_add(count_lookup(old(map)@, n), temp_reads(o.reads@.take(j + 1), n)) by {
                        assert(count_lookup(m0, n) == sat_add(count_lookup(old(map)@, n), temp_reads(o.reads@.take(j as int), n)));
                    }
                }
                j = j + 1;
            }
            proof {
                assert(o.reads@.take(j as int) =~= o.reads@);
            }
        },
    }
}

/// Whether `names` holds `name`.
fn has_name(names: &Vec<String>, name: &String) -> (r: bool)
    ensures
        r == exists|k: int| 0 <= k < names@.len() && (#[trigger] names@[k])@ == name@,
{
    let mut j: usize = 0;
    while j < names.len()
        invariant
            j <= names@.len(),
            forall|k: int| 0 <= k < j ==> (#[trigger] names@[k])@ != name@,
        decreases names.len() - j,
    {
        if names[j] == *name {
            return true;
        }
        j = j + 1;
    }
    false
}

/// Adds `t` to a set of temporaries kept by name.
fn add_temp(set: &mut Vec<LlvmTemp>, t: LlvmTemp)
    ensures
        (exists|k: int| 0 <= k < old(set)@.len() && (#[trigger] old(set)@[k]).name@ == t.name@)
            ==> final(set)@ == old(set)@,
        !(exists|k: int| 0 <= k < old(set)@.len() && (#[trigger] old(set)@[k]).name@ == t.name@)
            ==> final(set)@ == old(set)@.push(t),
{
    let mut j: usize = 0;
    while j < set.len()
        invariant
            j <= set@.len(),
            set@ == old(set)@,
            forall|k: int| 0 <= k < j ==> (#[trigger] set@[k]).name@ != t.name@,
        decreases set.len() - j,
    {
        if set[j].name == t.name {
            return;
        }
        j = j + 1;
    }
    set.push(t);
}

/// A copy of the temporaries recorded as read by the instruction writing `name`.
fn uses_of(uses: &Vec<(String, Vec<LlvmTemp>)>, name: &String) -> (r: Vec<LlvmTemp>)
    ensures
        (forall|k: int| 0 <= k < uses@.len() ==> (#[trigger] uses@[k]).0@ != name@) ==> r@.len() == 0,
        !(forall|k: int| 0 <= k < uses@.len() ==> (#[trigger] uses@[k]).0@ != name@)
            ==> exists|j: int| 0 <= j < uses@.len() && (#[trigger] uses@[j]).0@ == name@
                && (forall|k: int| 0 <= k < j ==> (#[trigger] uses@[k]).0@ != name@)
                && r@ == uses@[j].1@,
{
    let mut r: Vec<LlvmTemp> = Vec::new();
    let mut j: usize = 0;
    while j < uses.len()
        invariant
            j <= uses@.len(),
            r@.len() == 0,
            forall|k: int| 0 <= k < j ==> (#[trigger] uses@[k]).0@ != name@,
        decreases uses.len() - j,
    {
        if uses[j].0 == *name {
            let list = &uses[j].1;
            let mut k: usize = 0;
            while k < list.len()
                invariant
                    k <= list@.len(),
                    list == &uses@[j as int].1,
                    r@ == list@.take(k as int),
                decreases list.len() - k,
            {
                r.push(list[k].dup());
                proof {
                    assert(list@.take(k + 1) =~= list@.take(k as int).push(list@[k as int]));
                }
                k = k + 1;
            }
            proof {
                assert(list@.take(k as int) =~= list@);
            }
            return r;
        }
        j = j + 1;
    }
    r
}

/// Records the temporaries read by the instruction writing `name`.
fn record_uses(uses: &mut Vec<(String, Vec<LlvmTemp>)>, name: String, temps: Vec<LlvmTemp>)
    ensures
        (forall|k: int| 0 <= k < old(uses)@.len() ==> (#[trigger] old(uses)@[k]).0@ != name@)
            ==> final(uses)@ == old(uses)@.push((name, temps)),
        !(forall|k: int| 0 <= k < old(uses)@.len() ==> (#[trigger] old(uses)@[k]).0@ != name@)
            ==> exists|j: int| 0 <= j < old(uses)@.len() && (#[trigger] old(uses)@[j]).0@ == name@
                && (forall|k: int| 0 <= k < j ==> (#[trigger] old(uses)@[k]).0@ != name@)
                && final(uses)@ == old(uses)@.update(j, (name, temps)),
{
    let mut j: usize = 0;
    while j < uses.len()
        invariant
            j <= uses@.len(),
            uses@ == old(uses)@,
            forall|k: int| 0 <= k < j ==> (#[trigger] uses@[k]).0@ != name@,
        decreases uses.len() - j,
    {
        if uses[j].0 == name {
            uses.set(j, (name, temps));
            return;
        }
        j = j + 1;
    }
    uses.push((name, temps));
}

/// The temporary an operand names, if any.
fn temp_of(v: &Value) -> (r: Option<LlvmTemp>)
    ensures
        r == (match *v {
            Value::Temp(t) => Some(t),
            _ => None,
        }),
{
    match v {
        Value::Temp(t) => Some(t.dup()),
        _ => None,
    }
}

/// The graph value of a comparison operand: a literal, or the value
/// recorded for an `i32` temporary (the temporary itself where none is).
fn operand_graph(back: &Vec<(LlvmTemp, GraphValue)>, v: &Value) -> (r: Option<GraphValue>)
    ensures
        match *v {
            Value::Int(i) => r == Some(GraphValue::Single(Single::Int(i))),
            Value::Temp(t) => if t.var_type == VarType::I32 {
                r is Some && if forall|k: int| 0 <= k < back@.len() ==> (#[trigger] back@[k]).0.name@ != t.name@ {
                    r == Some(GraphValue::Single(Single::Temp(t)))
                } else {
                    exists|j: int| 0 <= j < back@.len() && (#[trigger] back@[j]).0.name@ == t.name@
                        && (forall|k: int| 0 <= k < j ==> (#[trigger] back@[k]).0.name@ != t.name@)
                        && term_of(r->0) == term_of(back@[j].1)
                }
            } else {
                r is None
            },
            _ => r is None,
        },
{
    match v {
        Value::Int(i) => Some(GraphValue::Single(Single::Int(*i))),
        Value::Temp(t) => {
            if t.var_type == VarType::I32 {
                match find_entry(back, &t.name) {
                    Some(j) => Some(back[j].1.dup()),
                    None => Some(GraphValue::Single(Single::Temp(t.dup()))),
                }
            } else {
                None
            }
        },
        _ => None,
    }
}

/// Whether `t` fresh temporaries numbered on from the counter, six for
/// each unit of the metrics `m1` and `m2`, stay within `u32`.
fn counter_fits(t: u32, m1: usize, m2: usize) -> (r: bool)
    ensures
        r == (m1 <= 0x1000_0000 && m2 <= 0x1000_0000 && t as int + 6 * m1 + 6 * m2 <= u32::MAX),
{
    if m1 > 0x1000_0000 || m2 > 0x1000_0000 {
        false
    } else {
        (t as u64) + 6 * (m1 as u64) + 6 * (m2 as u64) <= 0xffff_ffffu64
    }
}

/// An integer comparison (the signed `i32` ones and equality).
fn is_int_comp(op: CompOp) -> (r: bool)
    ensures
        r == (op == CompOp::EQ || op == CompOp::NE || op == CompOp::SGT || op == CompOp::SGE
            || op == CompOp::SLT || op == CompOp::SLE),
{
    match op {
        CompOp::EQ | CompOp::NE | CompOp::SGT | CompOp::SGE | CompOp::SLT | CompOp::SLE => true,
        _ => false,
    }
}

/// The instructions of `s` that the pass leaves alone: those that are
/// neither arithmetic nor comparisons, in order.
pub open spec fn untouched(s: Seq<BlockInstr>) -> Seq<BlockInstr>
    decreases s.len(),
{
    if s.len() == 0 {
        Seq::empty()
    } else {
        let r = untouched(s.drop_last());
        match s.last() {
            BlockInstr::Other(o) => if o.kind is Comp {
                r
            } else {
                r.push(s.last())
            },
            _ => r,
        }
    }
}

/// The comparisons of `s` in order, each by its operator and the
/// temporary it writes.
pub open spec fn comparisons(s: Seq<BlockInstr>) -> Seq<(OtherKind, Option<LlvmTemp>)>
    decreases s.len(),
{
    if s.len() == 0 {
        Seq::empty()
    } else {
        let r = comparisons(s.drop_last());
        match s.last() {
            BlockInstr::Other(o) => if o.kind is Comp {
                r.push((o.kind, o.target))
            } else {
                r
            },
            _ => r,
        }
    }
}

proof fn lemma_push_parts(s: Seq<BlockInstr>, x: BlockInstr)
    ensures
        untouched(s.push(x)) == (match x {
            BlockInstr::Other(o) => if o.kind is Comp {
                untouched(s)
            } else {
                untouched(s).push(x)
            },
            _ => untouched(s),
        }),
        comparisons(s.push(x)) == (match x {
            BlockInstr::Other(o) => if o.kind is Comp {
                comparisons(s).push((o.kind, o.target))
            } else {
                comparisons(s)
            },
            _ => comparisons(s),
        }),
{
    assert(s.push(x).drop_last() =~= s);
    assert(s.push(x).last() == x);
}

/// Arithmetic instructions as block instructions.
pub open spec fn arith_block(s: Seq<ArithInstr>) -> Seq<BlockInstr> {
    s.map_values(|e: ArithInstr| BlockInstr::Arith(e))
}

/// Moves the instructions of `buf` to the end of `out`.
fn append_arith(out: &mut Vec<BlockInstr>, buf: Vec<ArithInstr>)
    ensures
        final(out)@ == old(out)@ + arith_block(buf@),
        untouched(final(out)@) == untouched(old(out)@),
        comparisons(final(out)@) == comparisons(old(out)@),
{
    let ghost b0 = buf@;
    let mut buf = buf;
    proof {
        assert(b0.skip(0) =~= b0);
        assert(old(out)@ + arith_block(b0.take(0)) =~= old(out)@);
    }
    while buf.len() > 0
        invariant
            buf@.len() <= b0.len(),
            buf@ == b0.skip(b0.len() - buf@.len()),
            out@ == old(out)@ + arith_block(b0.take(b0.len() - buf@.len())),
            untouched(out@) == untouched(old(out)@),
            comparisons(out@) == comparisons(old(out)@),
        decreases buf.len(),
    {
        let ghost i: int = b0.len() - buf@.len();
        let e = buf.remove(0);
        proof {
            assert(e == b0[i]);
            assert(buf@ =~= b0.skip(i + 1));
            assert(b0.take(i + 1) =~= b0.take(i).push(e));
            assert(arith_block(b0.take(i + 1)) =~= arith_block(b0.take(i)).push(BlockInstr::Arith(e)));
            lemma_push_parts(out@, BlockInstr::Arith(e));
        }
        out.push(BlockInstr::Arith(e));
        proof {
            assert(out@ =~= old(out)@ + arith_block(b0.take(i + 1)));
        }
    }
    proof {
        assert(b0.take(b0.len() as int) =~= b0);
    }
}

/// Takes the last instruction of `out` into a new buffer where it is
/// arithmetic, so that building code after it may write its target.
fn take_last_arith(out: &mut Vec<BlockInstr>) -> (r: Vec<ArithInstr>)
    ensures
        (if old(out)@.len() > 0 { Some(old(out)@.last()) } else { None }) matches Some(BlockInstr::Arith(x))
            ==> final(out)@ == old(out)@.drop_last() && r@ == seq![x],
        !((if old(out)@.len() > 0 { Some(old(out)@.last()) } else { None }) matches Some(BlockInstr::Arith(_)))
            ==> final(out)@ == old(out)@ && r@.len() == 0,
        untouched(final(out)@) == untouched(old(out)@),
        comparisons(final(out)@) == comparisons(old(out)@),
{
    let mut buf: Vec<ArithInstr> = Vec::new();
    let ghost o = out@;
    match out.pop() {
        Some(BlockInstr::Arith(x)) => {
            proof {
                assert(o =~= out@.push(BlockInstr::Arith(x)));
                lemma_push_parts(out@, BlockInstr::Arith(x));
            }
            buf.push(x);
        },
        Some(other) => {
            proof {
                assert(o =~= out@.push(other));
            }
            out.push(other);
        },
        None => {},
    }
    buf
}

/// `a` holds the instructions of `b`, one for one.
pub open spec fn same_block(a: Seq<BlockInstr>, b: Seq<BlockInstr>) -> bool {
    a.len() == b.len() && forall|k: int| 0 <= k < a.len() ==> same_instr(#[trigger] a[k], b[k])
}

/// A copy of the instructions of `b`.
fn copy_block(b: &Vec<BlockInstr>) -> (r: Vec<BlockInstr>)
    ensures
        same_block(r@, b@),
{
    let mut r: Vec<BlockInstr> = Vec::new();
    let mut i: usize = 0;
    while i < b.len()
        invariant
            i <= b@.len(),
            r@.len() == i,
            forall|k: int| 0 <= k < i ==> same_instr(#[trigger] r@[k], b@[k]),
        decreases b.len() - i,
    {
        r.push(dup_instr(&b[i]));
        i = i + 1;
    }
    r
}

/// Why simplifying the arithmetic of a block failed.
pub enum SolveError {
    /// The rebuilt arithmetic is longer than the block was.
    BlockGrew { old_len: usize, new_len: usize },
    /// The counter of fresh temporaries would leave `u32`.
    TempsExhausted,
}

/// Records a pending division of `lhs` by `rhs` into `t`, in place of an
/// earlier one into it.
fn record_division(pending: &mut Vec<(LlvmTemp, GraphValue, GraphValue)>, t: LlvmTemp, lhs: GraphValue, rhs: GraphValue)
    ensures
        (forall|k: int| 0 <= k < old(pending)@.len() ==> (#[trigger] old(pending)@[k]).0.name@ != t.name@)
            ==> final(pending)@ == old(pending)@.push((t, lhs, rhs)),
        !(forall|k: int| 0 <= k < old(pending)@.len() ==> (#[trigger] old(pending)@[k]).0.name@ != t.name@)
            ==> exists|j: int| 0 <= j < old(pending)@.len() && (#[trigger] old(pending)@[j]).0.name@ == t.name@
                && (forall|k: int| 0 <= k < j ==> (#[trigger] old(pending)@[k]).0.name@ != t.name@)
                && final(pending)@ == old(pending)@.update(j, (t, lhs, rhs)),
{
    let mut j: usize = 0;
    while j < pending.len()
        invariant
            j <= pending@.len(),
            pending@ == old(pending)@,
            forall|k: int| 0 <= k < j ==> (#[trigger] pending@[k]).0.name@ != t.name@,
        decreases pending.len() - j,
    {
        if pending[j].0.name == t.name {
            pending.set(j, (t, lhs, rhs));
            return;
        }
        j = j + 1;
    }
    pending.push((t, lhs, rhs));
}

/// Records `g` as the value of `t` in a map that nothing builds from.
fn record_value(m: &mut Vec<(LlvmTemp, GraphValue)>, t: LlvmTemp, g: GraphValue)
    ensures
        (forall|k: int| 0 <= k < old(m)@.len() ==> (#[trigger] old(m)@[k]).0.name@ != t.name@)
            ==> final(m)@ == old(m)@.push((t, g)),
        !(forall|k: int| 0 <= k < old(m)@.len() ==> (#[trigger] old(m)@[k]).0.name@ != t.name@)
            ==> exists|j: int| 0 <= j < old(m)@.len() && (#[trigger] old(m)@[j]).0.name@ == t.name@
                && (forall|k: int| 0 <= k < j ==> (#[trigger] old(m)@[k]).0.name@ != t.name@)
                && final(m)@ == old(m)@.update(j, (t, g)),
{
    match find_entry(m, &t.name) {
        Some(j) => {
            m.set(j, (t, g));
        },
        None => {
            m.push((t, g));
        },
    }
}

/// The value recorded for the temporary a graph leaf names, if any.
fn recorded_value(m: &Vec<(LlvmTemp, GraphValue)>, g: &GraphValue) -> (r: Option<GraphValue>)
    ensures
        match *g {
            GraphValue::Single(Single::Temp(t)) => if forall|k: int| 0 <= k < m@.len() ==> (#[trigger] m@[k]).0.name@ != t.name@ {
                r is None
            } else {
                exists|j: int| 0 <= j < m@.len() && (#[trigger] m@[j]).0.name@ == t.name@
                    && (forall|k: int| 0 <= k < j ==> (#[trigger] m@[k]).0.name@ != t.name@)
                    && r is Some && term_of(r->0) == term_of(m@[j].1)
            },
            _ => r is None,
        },
{
    match g.as_tmp() {
        Some(t) => match find_entry(m, &t.name) {
            Some(j) => Some(m[j].1.dup()),
            None => None,
        },
        None => None,
    }
}

/// Simplifies the `i32` arithmetic of one basic block.
///
/// Each `i32` addition, subtraction and multiplication of two `i32`
/// operands becomes a graph value (`add`, `sub`, `mul`); divisions are
/// kept aside. Walking the writes from the last one back, a value absorbs
/// the values of the temporaries it reads once all their readers (the
/// block's later instructions and `live_out`) have been seen from it; an
/// absorbed temporary's instruction is dropped. Divisions are then taken
/// exactly where `div` can (in the order the block has them), and values
/// that read such a quotient take it in. Every remaining value is rebuilt
/// into instructions (`build_instr`), with fresh temporaries numbered from
/// `temp_number` on; a comparison of two `i32` operands loses the
/// operands both sides add (`remove_addicative_common`). A value that
/// could not be built (its literal factors leave `i32`) is not formed, so
/// its instruction stays as it was.
///
/// Everything that is neither arithmetic nor a comparison stays, in
/// order, and each comparison keeps its operator and target. Where the
/// rebuilt block is longer than the old one, or the counter of fresh
/// temporaries would leave `u32`, the block is left as it was and the error
/// says so. Reports no change.
pub fn sovle_bb(block: &mut Vec<BlockInstr>, live_out: &Vec<LlvmTemp>, temp_number: &mut u32) -> (r: Result<bool, SolveError>)
    ensures
        *old(temp_number) <= *final(temp_number),
        r matches Ok(changed) ==> !changed
            && untouched(final(block)@) == untouched(old(block)@)
            && comparisons(final(block)@) == comparisons(old(block)@),
        r matches Err(SolveError::BlockGrew { old_len, new_len }) ==> old_len == old(block)@.len() && old_len < new_len,
        r is Err ==> same_block(final(block)@, old(block)@),
{
    let ghost b = block@;
    let ghost t0 = *temp_number;
    let mut in_degrees: Vec<(String, usize)> = Vec::new();
    let mut i: usize = 0;
    while i < live_out.len()
        invariant
            i <= live_out@.len(),
        decreases live_out.len() - i,
    {
        count_one(&mut in_degrees, &live_out[i].name);
        i = i + 1;
    }
    let mut i: usize = 0;
    while i < block.len()
        invariant
            i <= block@.len(),
            block@ == b,
        decreases block.len() - i,
    {
        count_reads(&block[i], &mut in_degrees);
        i = i + 1;
    }

    let mut graph_values: Vec<(LlvmTemp, GraphValue)> = Vec::new();
    let mut uses: Vec<(String, Vec<LlvmTemp>)> = Vec::new();
    let mut pending: Vec<(LlvmTemp, GraphValue, GraphValue)> = Vec::new();
    let mut i: usize = 0;
    while i < block.len()
        invariant
            i <= block@.len(),
            block@ == b,
            entries_buildable(graph_values@),
        decreases block.len() - i,
    {
        if let BlockInstr::Arith(arith) = &block[i] {
            if arith.target.var_type == VarType::I32 {
                match (GraphValue::from_value(dup_value(&arith.lhs)), GraphValue::from_value(dup_value(&arith.rhs))) {
                    (Some(left), Some(right)) => {
                        let value_result = if arith.op == ArithOp::Add {
                            left.add(&right)
                        } else if arith.op == ArithOp::Sub {
                            left.sub(&right)
                        } else if arith.op == ArithOp::Div {
                            record_division(&mut pending, arith.target.dup(), left, right);
                            None
                        } else if arith.op == ArithOp::Mul {
                            left.mul(&right)
                        } else {
                            None
                        };
                        if let Some(v) = value_result {
                            if check_buildable(&v) {
                                put_entry(&mut graph_values, arith.target.dup(), v);
                                let mut temps: Vec<LlvmTemp> = Vec::new();
                                if let Some(t) = temp_of(&arith.lhs) {
                                    temps.push(t);
                                }
                                if let Some(t) = temp_of(&arith.rhs) {
                                    temps.push(t);
                                }
                                record_uses(&mut uses, arith.target.name.clone(), temps);
                            }
                        }
                    },
                    _ => {},
                }
            }
        }
        i = i + 1;
    }

    let mut killed: Vec<String> = Vec::new();
    let mut i: usize = block.len();
    while i > 0
        invariant
            i <= block@.len(),
            block@ == b,
            entries_buildable(graph_values@),
        decreases i,
    {
        i = i - 1;
        let written: Option<LlvmTemp> = match &block[i] {
            BlockInstr::Arith(a) => Some(a.target.dup()),
            BlockInstr::Other(o) => match &o.target {
                Some(t) => Some(t.dup()),
                None => None,
            },
        };
        if let Some(target) = written {
            let mut covered: Vec<(String, usize)> = Vec::new();
            let mut queue = uses_of(&uses, &target.name);
            if let Some((tgt, cur)) = take_entry(&mut graph_values, &target.name) {
                let mut current = cur;
                let mut head: usize = 0;
                while head < queue.len()
                    invariant
                        head <= queue@.len(),
                        entries_buildable(graph_values@),
                        buildable(current),
                    decreases graph_values@.len(), queue@.len() - head,
                {
                    let visiting = queue[head].dup();
                    head = head + 1;
                    let visit_count = count_one(&mut covered, &visiting.name);
                    let seen_all = match count_of(&in_degrees, &visiting.name) {
                        Some(total) => total == visit_count,
                        None => false,
                    };
                    if seen_all {
                        if let Some((sub_tmp, sub_value)) = take_entry(&mut graph_values, &visiting.name) {
                            let substituted = match current.substitude_checked(&visiting, &sub_value) {
                                Some(s) => if check_buildable(&s) {
                                    Some(s)
                                } else {
                                    None
                                },
                                None => None,
                            };
                            match substituted {
                                Some(s) => {
                                    let mut more = uses_of(&uses, &visiting.name);
                                    queue.append(&mut more);
                                    killed.push(sub_tmp.name);
                                    current = s;
                                },
                                None => {
                                    put_entry(&mut graph_values, sub_tmp, sub_value);
                                },
                            }
                        }
                    }
                }
                put_entry(&mut graph_values, tgt, current);
            }
        }
    }

    let mut changed: Vec<LlvmTemp> = Vec::new();
    while pending.len() > 0
        invariant
            block@ == b,
            entries_buildable(graph_values@),
        decreases pending.len(),
    {
        let (div_tmp, lhs0, rhs0) = pending.remove(0);
        let mut lhs = lhs0;
        let mut rhs = rhs0;
        if let Some(v) = recorded_value(&graph_values, &lhs) {
            lhs = v;
        }
        if let Some(v) = recorded_value(&graph_values, &rhs) {
            rhs = v;
        }
        if let Some(result) = lhs.div(&rhs) {
            if check_buildable(&result) {
                put_entry(&mut graph_values, div_tmp.dup(), result);
                add_temp(&mut changed, div_tmp);
            }
        }
    }

    let mut i: usize = 0;
    while i < block.len()
        invariant
            i <= block@.len(),
            block@ == b,
            entries_buildable(graph_values@),
        decreases block.len() - i,
    {
        if let BlockInstr::Arith(arith) = &block[i] {
            if let Some((current, gval)) = take_entry(&mut graph_values, &arith.target.name) {
                let mut graphvalue = gval;
                let mut related: Vec<LlvmTemp> = Vec::new();
                graphvalue.contains_temp(&changed, &mut related);
                let mut add_this = false;
                let mut k: usize = 0;
                while k < related.len()
                    invariant
                        k <= related@.len(),
                        buildable(graphvalue),
                        entries_buildable(graph_values@),
                    decreases related.len() - k,
                {
                    if let Some(j) = find_entry(&graph_values, &related[k].name) {
                        if let Some(nv) = graphvalue.substitude_checked(&related[k], &graph_values[j].1) {
                            if check_buildable(&nv) {
                                add_this = true;
                                graphvalue = nv;
                            }
                        }
                    }
                    k = k + 1;
                }
                put_entry(&mut graph_values, current, graphvalue);
                if add_this {
                    add_temp(&mut changed, arith.target.dup());
                }
            }
        }
        i = i + 1;
    }

    let saved = copy_block(block);
    let mut src: Vec<BlockInstr> = Vec::new();
    std::mem::swap(&mut src, block);
    let old_size = src.len();
    let mut back: Vec<(LlvmTemp, GraphValue)> = Vec::new();
    let mut new_instr: Vec<BlockInstr> = Vec::new();
    let ghost mut k: int = 0;
    proof {
        assert(b.take(0) =~= Seq::<BlockInstr>::empty());
        assert(b.subrange(0, b.len() as int) =~= b);
    }
    while src.len() > 0
        invariant
            0 <= k <= b.len(),
            src@ == b.subrange(k, b.len() as int),
            block@.len() == 0,
            untouched(new_instr@) == untouched(b.take(k)),
            same_block(saved@, b),
            b == old(block)@,
            comparisons(new_instr@) == comparisons(b.take(k)),
            t0 == *old(temp_number),
            t0 <= *temp_number,
            entries_buildable(graph_values@),
        decreases src.len(),
    {
        let instr = src.remove(0);
        proof {
            assert(instr == b[k]);
            assert(src@ =~= b.subrange(k + 1, b.len() as int));
            assert(b.take(k + 1) =~= b.take(k).push(instr));
            lemma_push_parts(b.take(k), instr);
        }
        match instr {
            BlockInstr::Arith(arith) => {
                if !has_name(&killed, &arith.target.name) {
                    match take_entry(&mut graph_values, &arith.target.name) {
                        Some((target, value)) => {
                            record_value(&mut back, target.dup(), value.dup());
                            let m = value.metric();
                            if !counter_fits(*temp_number, m, 0) {
                                *block = saved;
                                return Err(SolveError::TempsExhausted);
                            }
                            proof {
                                assert(metric_of(value) == m);
                            }
                            let mut buf = take_last_arith(&mut new_instr);
                            build_instr(value, temp_number, &mut buf, target);
                            append_arith(&mut new_instr, buf);
                        },
                        None => {
                            proof {
                                lemma_push_parts(new_instr@, BlockInstr::Arith(arith));
                            }
                            new_instr.push(BlockInstr::Arith(arith));
                        },
                    }
                }
            },
            other => {
                proof {
                    lemma_push_parts(new_instr@, other);
                }
                new_instr.push(other);
            },
        }
        proof {
            k = k + 1;
        }
    }
    proof {
        assert(b.take(b.len() as int) =~= b);
    }
    let new_size = new_instr.len();
    if old_size < new_size {
        *block = saved;
        return Err(SolveError::BlockGrew { old_len: old_size, new_len: new_size });
    }

    let ghost mid = new_instr@;
    let mut src = new_instr;
    let mut out: Vec<BlockInstr> = Vec::new();
    let ghost mut k: int = 0;
    proof {
        assert(mid.take(0) =~= Seq::<BlockInstr>::empty());
        assert(mid.subrange(0, mid.len() as int) =~= mid);
    }
    while src.len() > 0
        invariant
            0 <= k <= mid.len(),
            src@ == mid.subrange(k, mid.len() as int),
            block@.len() == 0,
            untouched(out@) == untouched(mid.take(k)),
            comparisons(out@) == comparisons(mid.take(k)),
            t0 == *old(temp_number),
            t0 <= *temp_number,
        decreases src.len(),
    {
        let instr = src.remove(0);
        proof {
            assert(instr == mid[k]);
            assert(src@ =~= mid.subrange(k + 1, mid.len() as int));
            assert(mid.take(k + 1) =~= mid.take(k).push(instr));
            lemma_push_parts(mid.take(k), instr);
        }
        match instr {
            BlockInstr::Other(o) => {
                let common = match o.kind {
                    OtherKind::Comp(op) => if is_int_comp(op) && o.reads.len() == 2 {
                        match (operand_graph(&back, &o.reads[0]), operand_graph(&back, &o.reads[1])) {
                            (Some(l), Some(r)) => remove_addicative_common(&l, &r),
                            _ => None,
                        }
                    } else {
                        None
                    },
                    _ => None,
                };
                let fits = match &common {
                    Some((l, r)) => check_buildable(l) && check_buildable(r) && counter_fits(*temp_number, l.metric(), r.metric()),
                    None => false,
                };
                match common {
                    Some((lhs_new, rhs_new)) => {
                        if fits {
                            proof {
                                assert(metric_of(lhs_new) <= 0x1000_0000);
                                assert(metric_of(rhs_new) <= 0x1000_0000);
                            }
                            let mut buf: Vec<ArithInstr> = Vec::new();
                            let new_lhs = build_providing_value(lhs_new, temp_number, &mut buf);
                            let new_rhs = build_providing_value(rhs_new, temp_number, &mut buf);
                            append_arith(&mut out, buf);
                            let mut reads: Vec<Value> = Vec::new();
                            reads.push(new_lhs);
                            reads.push(new_rhs);
                            let c = BlockInstr::Other(OtherInstr { kind: o.kind, reads, target: o.target, callee: o.callee });
                            proof {
                                lemma_push_parts(out@, c);
                            }
                            out.push(c);
                        } else {
                            proof {
                                lemma_push_parts(out@, BlockInstr::Other(o));
                            }
                            out.push(BlockInstr::Other(o));
                        }
                    },
                    None => {
                        proof {
                            lemma_push_parts(out@, BlockInstr::Other(o));
                        }
                        out.push(BlockInstr::Other(o));
                    },
                }
            },
            other => {
                proof {
                    lemma_push_parts(out@, other);
                }
                out.push(other);
            },
        }
        proof {
            k = k + 1;
        }
    }
    proof {
        assert(mid.take(mid.len() as int) =~= mid);
    }
    *block = out;
    Ok(false)
}

/// The new block keeps what `sovle_bb` promises to keep of the old one.
pub open spec fn block_kept(new: Seq<BlockInstr>, old: Seq<BlockInstr>) -> bool {
    untouched(new) == untouched(old) && comparisons(new) == comparisons(old)
}

/// Where simplifying the arithmetic of a program failed: the function and
/// the block, by position, and why.
pub struct ArithError {
    pub func: usize,
    pub block: usize,
    pub error: SolveError,
}

/// The arithmetic simplification pass.
pub struct ArithSimplify {}

impl ArithSimplify {
    pub fn new() -> (r: Self)
        ensures
            r == (ArithSimplify {}),
    {
        ArithSimplify {}
    }

    /// Simplifies the arithmetic of every block of every function
    /// (`sovle_bb`), in order, with `live_out[f][i]` the temporaries live at
    /// the end of block `i` of function `f` (none where it has no entry),
    /// numbering fresh temporaries from the program's counter, which it
    /// advances. Stops at the first block that fails, which is left as
    /// it was, and says where. Reports no change.
    pub fn apply(self, program: &mut BlockProgram, live_out: &Vec<Vec<Vec<LlvmTemp>>>) -> (r: Result<bool, ArithError>)
        ensures
            old(program).next_temp <= final(program).next_temp,
            final(program).funcs@.len() == old(program).funcs@.len(),
            r matches Ok(changed) ==> !changed
                && forall|f: int| 0 <= f < old(program).funcs@.len()
                    ==> (#[trigger] final(program).funcs@[f]).blocks@.len() == old(program).funcs@[f].blocks@.len(),
            r matches Ok(_) ==> forall|f: int, i: int| 0 <= f < old(program).funcs@.len() && 0 <= i < old(program).funcs@[f].blocks@.len()
                ==> block_kept(final(program).funcs@[f].blocks@[i]@, #[trigger] old(program).funcs@[f].blocks@[i]@),
            r matches Err(e) ==> e.func < old(program).funcs@.len()
                && e.block < old(program).funcs@[e.func as int].blocks@.len()
                && final(program).funcs@[e.func as int].blocks@.len() == old(program).funcs@[e.func as int].blocks@.len()
                && same_block(final(program).funcs@[e.func as int].blocks@[e.block as int]@,
                    old(program).funcs@[e.func as int].blocks@[e.block as int]@),
    {
        let ghost of = program.funcs@;
        let ghost t0 = program.next_temp;
        let empty: Vec<LlvmTemp> = Vec::new();
        let mut f: usize = 0;
        while f < program.funcs.len()
            invariant
                f <= program.funcs@.len(),
                program.funcs@.len() == of.len(),
                forall|j: int| f <= j < of.len() ==> #[trigger] program.funcs@[j] == of[j],
                t0 == old(program).next_temp,
                of == old(program).funcs@,
                t0 <= program.next_temp,
                forall|j: int| 0 <= j < f ==> (#[trigger] program.funcs@[j]).blocks@.len() == of[j].blocks@.len(),
                forall|j: int, i: int| 0 <= j < f && 0 <= i < of[j].blocks@.len()
                    ==> block_kept(program.funcs@[j].blocks@[i]@, #[trigger] of[j].blocks@[i]@),
            decreases program.funcs.len() - f,
        {
            let mut func = BlockFunc { blocks: Vec::new() };
            std::mem::swap(&mut func, &mut program.funcs[f]);
            let ghost fb = func.blocks@;
            let ghost pf = program.funcs@;
            proof {
                assert(fb == of[f as int].blocks@);
            }
            let mut i: usize = 0;
            while i < func.blocks.len()
                invariant
                    i <= func.blocks@.len(),
                    func.blocks@.len() == fb.len(),
                    forall|k: int| i <= k < fb.len() ==> #[trigger] func.blocks@[k] == fb[k],
                    forall|k: int| 0 <= k < i ==> block_kept(#[trigger] func.blocks@[k]@, fb[k]@),
                    program.funcs@ == pf,
                    f < pf.len(),
                    pf.len() == of.len(),
                    fb == of[f as int].blocks@,
                    t0 == old(program).next_temp,
                    of == old(program).funcs@,
                    t0 <= program.next_temp,
                decreases func.blocks.len() - i,
            {
                let lo = if f < live_out.len() && i < live_out[f].len() {
                    &live_out[f][i]
                } else {
                    &empty
                };
                let mut blk: Vec<BlockInstr> = Vec::new();
                std::mem::swap(&mut blk, &mut func.blocks[i]);
                let ghost ob = blk@;
                proof {
                    assert(ob == fb[i as int]@);
                }
                let res = sovle_bb(&mut blk, lo, &mut program.next_temp);
                let ghost nb = blk;
                let ghost fbl = func.blocks@;
                func.blocks.set(i, blk);
                proof {
                    assert(func.blocks@ == fbl.update(i as int, nb));
                }
                match res {
                    Ok(_) => {},
                    Err(error) => {
                        let ghost nf = func;
                        program.funcs.set(f, func);
                        proof {
                            assert(program.funcs@[f as int] == nf);
                        }
                        return Err(ArithError { func: f, block: i, error });
                    },
                }
                proof {
                    assert forall|k: int| 0 <= k < i + 1 implies block_kept(#[trigger] func.blocks@[k]@, fb[k]@) by {
                        if k < i {
                            assert(func.blocks@[k] == fbl[k]);
                        }
                    }
                }
                i = i + 1;
            }
            let ghost nf = func;
            program.funcs.set(f, func);
            proof {
                assert(program.funcs@ == pf.update(f as int, nf));
                assert forall|j: int| 0 <= j < f + 1 implies (#[trigger] program.funcs@[j]).blocks@.len() == of[j].blocks@.len() by {
                    if j < f {
                        assert(program.funcs@[j] == pf[j]);
                    }
                }
                assert forall|j: int, k: int| 0 <= j < f + 1 && 0 <= k < of[j].blocks@.len()
                    implies block_kept(program.funcs@[j].blocks@[k]@, #[trigger] of[j].blocks@[k]@) by {
                    if j < f {
                        assert(program.funcs@[j] == pf[j]);
                    } else {
                        assert(program.funcs@[j] == nf);
                    }
                }
            }
            f = f + 1;
        }
        Ok(false)
    }
}

} // verus!
