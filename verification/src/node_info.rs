use vstd::prelude::*;
use rand::rngs::StdRng;
use crate::calc_coef::dup_value;
use crate::compute_graph::{LlvmTemp, Value, VarType};
use crate::gvn::{arith_number, arith_number_ok, arith_number_spec, comp_number, comp_number_spec, constant_value, pointwise};
use crate::ir_ops::{ArithOp, CompOp};
use crate::number::{constant_number, same_value_of, str2num, Number, GVN_EVAL_NUMBER};
use crate::rearrange::ArithInstr;
use crate::rearrange_block::{BlockInstr, ConvertOp, OtherInstr, OtherKind};

verus! {

/// The operator of an expression in the table of expressions.
#[derive(PartialEq, Eq, Structural, Clone, Copy, Debug)]
pub enum HashItem {
    Arith(ArithOp),
    Comp(CompOp),
    Convert(ConvertOp),
}

/// What value numbering knows at a node of the dominator tree: the number
/// of each temporary, the operand that holds each number, and the numbers
/// of the expressions and pure calls seen so far. Each table is a list in
/// which a later entry for a key stands in place of earlier ones.
pub struct NodeInfo {
    pub num_mapper: Vec<(LlvmTemp, Number)>,
    pub var_mapper: Vec<(Number, Value)>,
    pub exp_mapper: Vec<(HashItem, Number, Number, Number)>,
    pub func_mapper: Vec<(String, Vec<Number>, Number)>,
}

/// The number recorded for the temporary named `n`.
pub open spec fn num_lookup(s: Seq<(LlvmTemp, Number)>, n: Seq<char>) -> Option<Seq<u32>>
    decreases s.len(),
{
    if s.len() == 0 {
        None
    } else if s.last().0.name@ == n {
        Some(s.last().1.value@)
    } else {
        num_lookup(s.drop_last(), n)
    }
}

/// The operand recorded as holding the number `k`.
pub open spec fn var_lookup(s: Seq<(Number, Value)>, k: Seq<u32>) -> Option<Value>
    decreases s.len(),
{
    if s.len() == 0 {
        None
    } else if s.last().0.value@ == k {
        Some(s.last().1)
    } else {
        var_lookup(s.drop_last(), k)
    }
}

/// The number recorded for the expression `op lhs rhs`.
pub open spec fn exp_lookup(s: Seq<(HashItem, Number, Number, Number)>, op: HashItem, lhs: Seq<u32>, rhs: Seq<u32>) -> Option<Seq<u32>>
    decreases s.len(),
{
    if s.len() == 0 {
        None
    } else if s.last().0 == op && s.last().1.value@ == lhs && s.last().2.value@ == rhs {
        Some(s.last().3.value@)
    } else {
        exp_lookup(s.drop_last(), op, lhs, rhs)
    }
}

/// The numbers of a list of value numbers.
pub open spec fn numbers_of(v: Seq<Number>) -> Seq<Seq<u32>> {
    v.map_values(|n: Number| n.value@)
}

/// The number recorded for a call of the pure function `name` on
/// arguments of the numbers `params`.
pub open spec fn func_lookup(s: Seq<(String, Vec<Number>, Number)>, name: Seq<char>, params: Seq<Seq<u32>>) -> Option<Seq<u32>>
    decreases s.len(),
{
    if s.len() == 0 {
        None
    } else if s.last().0@ == name && numbers_of(s.last().1@) == params {
        Some(s.last().2.value@)
    } else {
        func_lookup(s.drop_last(), name, params)
    }
}

/// The number of an operand: that of its literal, or the one recorded for
/// its temporary.
pub open spec fn number_of(info: NodeInfo, value: Value) -> Option<Seq<u32>> {
    match value {
        Value::Int(v) => Some(constant_number(v as u32)),
        Value::Float(bits) => Some(constant_number(bits)),
        Value::Temp(t) => num_lookup(info.num_mapper@, t.name@),
    }
}

/// The operand that stands for a number: its literal where the number is
/// constant, otherwise the operand recorded for it.
pub open spec fn value_of_number(info: NodeInfo, k: Seq<u32>, var_type: VarType) -> Option<Value> {
    match same_value_of(k) {
        Some(x) => Some(if var_type == VarType::I32 { Value::Int(x as i32) } else { Value::Float(x) }),
        None => var_lookup(info.var_mapper@, k),
    }
}

/// The type of an operand.
pub open spec fn type_of(value: Value) -> VarType {
    match value {
        Value::Int(_) => VarType::I32,
        Value::Float(_) => VarType::F32,
        Value::Temp(t) => t.var_type,
    }
}

/// Whether two value numbers have the same evaluations.
pub fn same_number(a: &Number, b: &Number) -> (r: bool)
    ensures
        r == (a.value@ == b.value@),
{
    if a.value.len() != b.value.len() {
        return false;
    }
    let mut i: usize = 0;
    while i < a.value.len()
        invariant
            i <= a.value@.len(),
            a.value@.len() == b.value@.len(),
            forall|j: int| 0 <= j < i ==> a.value@[j] == b.value@[j],
        decreases a.value.len() - i,
    {
        if a.value[i] != b.value[i] {
            return false;
        }
        i = i + 1;
    }
    proof {
        assert(a.value@ =~= b.value@);
    }
    true
}

/// A copy of a value number.
fn copy_number(n: &Number) -> (r: Number)
    ensures
        r.value@ == n.value@,
{
    let mut v: Vec<u32> = Vec::new();
    let mut i: usize = 0;
    while i < n.value.len()
        invariant
            i <= n.value@.len(),
            v@ == n.value@.take(i as int),
        decreases n.value.len() - i,
    {
        v.push(n.value[i]);
        proof {
            assert(n.value@.take(i + 1) =~= n.value@.take(i as int).push(n.value@[i as int]));
        }
        i = i + 1;
    }
    proof {
        assert(n.value@.take(i as int) =~= n.value@);
    }
    Number { value: v }
}

/// Whether two lists of value numbers have the same evaluations.
fn same_numbers(a: &Vec<Number>, b: &Vec<Number>) -> (r: bool)
    ensures
        r == (numbers_of(a@) == numbers_of(b@)),
{
    if a.len() != b.len() {
        proof {
            assert(numbers_of(a@).len() != numbers_of(b@).len());
        }
        return false;
    }
    let mut i: usize = 0;
    while i < a.len()
        invariant
            i <= a@.len(),
            a@.len() == b@.len(),
            forall|j: int| 0 <= j < i ==> a@[j].value@ == b@[j].value@,
        decreases a.len() - i,
    {
        if !same_number(&a[i], &b[i]) {
            proof {
                assert(numbers_of(a@)[i as int] != numbers_of(b@)[i as int]);
            }
            return false;
        }
        i = i + 1;
    }
    proof {
        assert(numbers_of(a@) =~= numbers_of(b@));
    }
    true
}

impl NodeInfo {
    /// Empty tables.
    pub fn new() -> (r: Self)
        ensures
            r.num_mapper@.len() == 0,
            r.var_mapper@.len() == 0,
            r.exp_mapper@.len() == 0,
            r.func_mapper@.len() == 0,
    {
        NodeInfo { num_mapper: Vec::new(), var_mapper: Vec::new(), exp_mapper: Vec::new(), func_mapper: Vec::new() }
    }

    /// The operand recorded as holding `number`.
    pub fn get_value(&self, number: &Number) -> (r: Option<Value>)
        ensures
            r == var_lookup(self.var_mapper@, number.value@),
    {
        let s = &self.var_mapper;
        let mut i: usize = s.len();
        proof {
            assert(s@.take(i as int) =~= s@);
        }
        while i > 0
            invariant
                i <= s@.len(),
                s@ == self.var_mapper@,
                var_lookup(s@, number.value@) == var_lookup(s@.take(i as int), number.value@),
            decreases i,
        {
            proof {
                assert(s@.take(i as int).drop_last() =~= s@.take(i - 1));
                assert(s@.take(i as int).last() == s@[i - 1]);
            }
            if same_number(&s[i - 1].0, number) {
                return Some(dup_value(&s[i - 1].1));
            }
            i = i - 1;
        }
        None
    }

    /// The number of an operand (see `number_of`); a temporary must have one.
    pub fn get_number(&self, value: &Value) -> (r: Number)
        requires
            number_of(*self, *value) is Some,
        ensures
            number_of(*self, *value) == Some(r.value@),
    {
        match value {
            Value::Int(v) => Number::constant(#[verifier::truncate] (*v as u32)),
            Value::Float(bits) => Number::constant(*bits),
            Value::Temp(t) => {
                let s = &self.num_mapper;
                let mut i: usize = s.len();
                proof {
                    assert(s@.take(i as int) =~= s@);
                }
                while i > 0
                    invariant
                        i <= s@.len(),
                        s@ == self.num_mapper@,
                        number_of(*self, *value) == num_lookup(s@, t.name@),
                        num_lookup(s@, t.name@) == num_lookup(s@.take(i as int), t.name@),
                        num_lookup(s@, t.name@) is Some,
                    decreases i,
                {
                    proof {
                        assert(s@.take(i as int).drop_last() =~= s@.take(i - 1));
                        assert(s@.take(i as int).last() == s@[i - 1]);
                    }
                    if s[i - 1].0.name == t.name {
                        return copy_number(&s[i - 1].1);
                    }
                    i = i - 1;
                }
                proof {
                    assert(s@.take(0) =~= Seq::<(LlvmTemp, Number)>::empty());
                }
                Number::constant(0)
            },
        }
    }

    /// The number recorded for `op lhs rhs`, or a fresh random one, which is
    /// recorded for it.
    pub fn map_exp(&mut self, op: HashItem, lhs: Number, rhs: Number, rng: &mut StdRng) -> (r: Number)
        ensures
            exp_lookup(final(self).exp_mapper@, op, lhs.value@, rhs.value@) == Some(r.value@),
            exp_lookup(old(self).exp_mapper@, op, lhs.value@, rhs.value@) matches Some(n) ==> r.value@ == n,
            exp_lookup(old(self).exp_mapper@, op, lhs.value@, rhs.value@) is None ==> r.value@.len() == GVN_EVAL_NUMBER,
            forall|o: HashItem, l: Seq<u32>, rr: Seq<u32>| !(o == op && l == lhs.value@ && rr == rhs.value@)
                ==> #[trigger] exp_lookup(final(self).exp_mapper@, o, l, rr) == exp_lookup(old(self).exp_mapper@, o, l, rr),
            final(self).num_mapper == old(self).num_mapper,
            final(self).var_mapper == old(self).var_mapper,
            final(self).func_mapper == old(self).func_mapper,
    {
        let ghost s0 = self.exp_mapper@;
        let mut i: usize = self.exp_mapper.len();
        proof {
            assert(s0.take(i as int) =~= s0);
        }
        while i > 0
            invariant
                i <= s0.len(),
                self.exp_mapper@ == s0,
                exp_lookup(s0, op, lhs.value@, rhs.value@) == exp_lookup(s0.take(i as int), op, lhs.value@, rhs.value@),
            decreases i,
        {
            proof {
                assert(s0.take(i as int).drop_last() =~= s0.take(i - 1));
                assert(s0.take(i as int).last() == s0[i - 1]);
            }
            if self.exp_mapper[i - 1].0 == op && same_number(&self.exp_mapper[i - 1].1, &lhs)
                && same_number(&self.exp_mapper[i - 1].2, &rhs) {
                return copy_number(&self.exp_mapper[i - 1].3);
            }
            i = i - 1;
        }
        proof {
            assert(s0.take(0) =~= Seq::<(HashItem, Number, Number, Number)>::empty());
        }
        let number = Number::new(rng);
        let r = copy_number(&number);
        self.exp_mapper.push((op, lhs, rhs, number));
        proof {
            assert(self.exp_mapper@.drop_last() =~= s0);
        }
        r
    }

    /// Records `value` as the operand that holds `number`.
    pub fn set_value(&mut self, number: Number, value: Value)
        ensures
            var_lookup(final(self).var_mapper@, number.value@) == Some(value),
            forall|k: Seq<u32>| k != number.value@
                ==> #[trigger] var_lookup(final(self).var_mapper@, k) == var_lookup(old(self).var_mapper@, k),
            final(self).num_mapper == old(self).num_mapper,
            final(self).exp_mapper == old(self).exp_mapper,
            final(self).func_mapper == old(self).func_mapper,
    {
        let ghost s0 = self.var_mapper@;
        self.var_mapper.push((number, value));
        proof {
            assert(self.var_mapper@.drop_last() =~= s0);
        }
    }

    /// Records `number` as the number of `temp`.
    pub fn set_number(&mut self, temp: LlvmTemp, number: Number)
        ensures
            num_lookup(final(self).num_mapper@, temp.name@) == Some(number.value@),
            forall|n: Seq<char>| n != temp.name@
                ==> #[trigger] num_lookup(final(self).num_mapper@, n) == num_lookup(old(self).num_mapper@, n),
            final(self).var_mapper == old(self).var_mapper,
            final(self).exp_mapper == old(self).exp_mapper,
            final(self).func_mapper == old(self).func_mapper,
    {
        let ghost s0 = self.num_mapper@;
        self.num_mapper.push((temp, number));
        proof {
            assert(self.num_mapper@.drop_last() =~= s0);
        }
    }

    /// The operand that stands for `number` (see `value_of_number`).
    pub fn num2value(&self, number: &Number, var_type: VarType) -> (r: Option<Value>)
        requires
            same_value_of(number.value@) is Some ==> var_type == VarType::I32 || var_type == VarType::F32,
        ensures
            r == value_of_number(*self, number.value@, var_type),
    {
        match constant_value(number, var_type) {
            Some(v) => Some(v),
            None => self.get_value(number),
        }
    }

    /// The operand that stands for the number of `value`.
    pub fn map_value(&self, value: &Value) -> (r: Value)
        requires
            number_of(*self, *value) matches Some(k) && value_of_number(*self, k, type_of(*value)) is Some
                && (same_value_of(k) is Some ==> type_of(*value) == VarType::I32 || type_of(*value) == VarType::F32),
        ensures
            number_of(*self, *value) matches Some(k) && value_of_number(*self, k, type_of(*value)) == Some(r),
    {
        let number = self.get_number(value);
        let var_type = match value {
            Value::Int(_) => VarType::I32,
            Value::Float(_) => VarType::F32,
            Value::Temp(t) => t.var_type,
        };
        match self.num2value(&number, var_type) {
            Some(v) => v,
            None => Value::Int(0),
        }
    }

    /// The number recorded for a call of the pure function `name` on
    /// arguments numbered `params`, or a fresh random one, which is
    /// recorded for it.
    pub fn map_func(&mut self, name: String, params: Vec<Number>, rng: &mut StdRng) -> (r: Number)
        ensures
            func_lookup(final(self).func_mapper@, name@, numbers_of(params@)) == Some(r.value@),
            func_lookup(old(self).func_mapper@, name@, numbers_of(params@)) matches Some(n) ==> r.value@ == n,
            func_lookup(old(self).func_mapper@, name@, numbers_of(params@)) is None ==> r.value@.len() == GVN_EVAL_NUMBER,
            forall|f: Seq<char>, p: Seq<Seq<u32>>| !(f == name@ && p == numbers_of(params@))
                ==> #[trigger] func_lookup(final(self).func_mapper@, f, p) == func_lookup(old(self).func_mapper@, f, p),
            final(self).num_mapper == old(self).num_mapper,
            final(self).var_mapper == old(self).var_mapper,
            final(self).exp_mapper == old(self).exp_mapper,
    {
        let ghost s0 = self.func_mapper@;
        let mut i: usize = self.func_mapper.len();
        proof {
            assert(s0.take(i as int) =~= s0);
        }
        while i > 0
            invariant
                i <= s0.len(),
                self.func_mapper@ == s0,
                func_lookup(s0, name@, numbers_of(params@)) == func_lookup(s0.take(i as int), name@, numbers_of(params@)),
            decreases i,
        {
            proof {
                assert(s0.take(i as int).drop_last() =~= s0.take(i - 1));
                assert(s0.take(i as int).last() == s0[i - 1]);
            }
            if self.func_mapper[i - 1].0 == name && same_numbers(&self.func_mapper[i - 1].1, &params) {
                return copy_number(&self.func_mapper[i - 1].2);
            }
            i = i - 1;
        }
        proof {
            assert(s0.take(0) =~= Seq::<(String, Vec<Number>, Number)>::empty());
        }
        let number = Number::new(rng);
        let r = copy_number(&number);
        let ghost key = numbers_of(params@);
        self.func_mapper.push((name, params, number));
        proof {
            assert(self.func_mapper@.drop_last() =~= s0);
        }
        r
    }
}

/// A float operator whose result on two constants is folded.
pub open spec fn float_fold_op(op: ArithOp) -> bool {
    op == ArithOp::Fadd || op == ArithOp::Fsub || op == ArithOp::Fmul || op == ArithOp::Fdiv
}

/// A signed integer comparison (the rest compare floats).
pub open spec fn int_comp(op: CompOp) -> bool {
    op == CompOp::EQ || op == CompOp::NE || op == CompOp::SGT || op == CompOp::SGE || op == CompOp::SLT || op == CompOp::SLE
}

/// A temporary operand has a number, and an operand stands for it.
pub open spec fn operand_ready(info: NodeInfo, v: Value) -> bool {
    match v {
        Value::Temp(t) => match num_lookup(info.num_mapper@, t.name@) {
            Some(k) => value_of_number(info, k, t.var_type) is Some
                && (same_value_of(k) is Some ==> t.var_type == VarType::I32 || t.var_type == VarType::F32),
            None => false,
        },
        _ => true,
    }
}

/// The operand a read is replaced by: a temporary by the operand that
/// stands for its number.
pub open spec fn mapped(info: NodeInfo, v: Value) -> Value {
    match v {
        Value::Temp(t) => match num_lookup(info.num_mapper@, t.name@) {
            Some(k) => match value_of_number(info, k, t.var_type) {
                Some(w) => w,
                None => v,
            },
            None => v,
        },
        _ => v,
    }
}

/// The temporary an instruction writes.
pub open spec fn written(i: BlockInstr) -> Option<LlvmTemp> {
    match i {
        BlockInstr::Arith(a) => Some(a.target),
        BlockInstr::Other(o) => o.target,
    }
}

/// The operands an instruction reads, in order.
pub open spec fn reads_view(i: BlockInstr) -> Seq<Value> {
    match i {
        BlockInstr::Arith(a) => seq![a.lhs, a.rhs],
        BlockInstr::Other(o) => o.reads@,
    }
}

/// A load of a global variable.
pub open spec fn global_load(o: OtherInstr) -> bool {
    &&& o.kind == OtherKind::Load
    &&& o.reads@.len() > 0
    &&& o.reads@[0] matches Value::Temp(t) && t.is_global
}

/// Whether value numbering replaces the operands of an instruction: all
/// but phis and loads of global variables.
pub open spec fn maps_reads(i: BlockInstr) -> bool {
    match i {
        BlockInstr::Arith(_) => true,
        BlockInstr::Other(o) => o.kind != OtherKind::Phi && !global_load(o),
    }
}

/// The type value numbering gives what an instruction writes.
pub open spec fn result_type(i: BlockInstr) -> VarType {
    match i {
        BlockInstr::Arith(a) => a.var_type,
        BlockInstr::Other(o) => match o.kind {
            OtherKind::Comp(op) => if int_comp(op) { VarType::I32 } else { VarType::F32 },
            OtherKind::Convert(ConvertOp::Int2Float) => VarType::F32,
            OtherKind::Convert(ConvertOp::Float2Int) => VarType::I32,
            _ => match o.target {
                Some(t) => t.var_type,
                None => VarType::Void,
            },
        },
    }
}

/// The operand that stands for a number of the given type: as
/// `value_of_number` for `i32` and `f32`, the recorded one for the rest.
pub open spec fn value_for(info: NodeInfo, k: Seq<u32>, ty: VarType) -> Option<Value> {
    if ty == VarType::I32 || ty == VarType::F32 {
        value_of_number(info, k, ty)
    } else {
        var_lookup(info.var_mapper@, k)
    }
}

/// `i` is `j` with other operands.
pub open spec fn same_but_reads(i: BlockInstr, j: BlockInstr) -> bool {
    match (i, j) {
        (BlockInstr::Arith(a), BlockInstr::Arith(b)) => a.target == b.target && a.op == b.op && a.var_type == b.var_type,
        (BlockInstr::Other(a), BlockInstr::Other(b)) => a.kind == b.kind && a.target == b.target && a.callee == b.callee,
        _ => false,
    }
}

/// What `work` needs of an instruction: every operand it replaces is
/// ready, the operands are as many as the instruction has, an arithmetic
/// instruction is of `i32` or `f32` and a constant division or shift is
/// defined.
pub open spec fn work_ready(info: NodeInfo, i: BlockInstr) -> bool {
    &&& maps_reads(i) ==> forall|j: int| 0 <= j < reads_view(i).len() ==> operand_ready(info, #[trigger] reads_view(i)[j])
    &&& match i {
        BlockInstr::Arith(a) => (a.var_type == VarType::I32 || a.var_type == VarType::F32)
            && arith_number_ok(a.op, number_of(info, a.lhs)->0, number_of(info, a.rhs)->0),
        BlockInstr::Other(o) => match o.kind {
            OtherKind::Comp(_) | OtherKind::Gep | OtherKind::Store => o.reads@.len() == 2,
            OtherKind::Convert(_) | OtherKind::JumpCond => o.reads@.len() == 1,
            OtherKind::Load => o.reads@.len() == 1 && o.reads@[0] is Temp,
            OtherKind::Ret => o.reads@.len() <= 1,
            _ => true,
        },
    }
}

/// The operand that replaces a read (see `mapped`).
fn map_operand(info: &NodeInfo, v: &Value) -> (r: Value)
    requires
        operand_ready(*info, *v),
    ensures
        r == mapped(*info, *v),
{
    match v {
        Value::Temp(t) => {
            let n = info.get_number(v);
            match info.num2value(&n, t.var_type) {
                Some(w) => w,
                None => dup_value(v),
            }
        },
        _ => dup_value(v),
    }
}

/// The operands of `reads` replaced (see `mapped`).
fn map_reads(info: &NodeInfo, reads: &Vec<Value>) -> (r: Vec<Value>)
    requires
        forall|j: int| 0 <= j < reads@.len() ==> operand_ready(*info, #[trigger] reads@[j]),
    ensures
        r@ == reads@.map_values(|v: Value| mapped(*info, v)),
{
    let mut out: Vec<Value> = Vec::new();
    let mut j: usize = 0;
    while j < reads.len()
        invariant
            j <= reads@.len(),
            forall|q: int| 0 <= q < reads@.len() ==> operand_ready(*info, #[trigger] reads@[q]),
            out@ == reads@.take(j as int).map_values(|v: Value| mapped(*info, v)),
        decreases reads.len() - j,
    {
        let w = map_operand(info, &reads[j]);
        out.push(w);
        proof {
            assert(reads@.take(j + 1).map_values(|v: Value| mapped(*info, v))
                =~= reads@.take(j as int).map_values(|v: Value| mapped(*info, v)).push(w));
        }
        j = j + 1;
    }
    proof {
        assert(reads@.take(j as int) =~= reads@);
    }
    out
}

/// A copy of a list of operands.
fn copy_reads(reads: &Vec<Value>) -> (r: Vec<Value>)
    ensures
        r@ == reads@,
{
    let mut out: Vec<Value> = Vec::new();
    let mut j: usize = 0;
    while j < reads.len()
        invariant
            j <= reads@.len(),
            out@ == reads@.take(j as int),
        decreases reads.len() - j,
    {
        out.push(dup_value(&reads[j]));
        proof {
            assert(reads@.take(j + 1) =~= reads@.take(j as int).push(reads@[j as int]));
        }
        j = j + 1;
    }
    proof {
        assert(reads@.take(j as int) =~= reads@);
    }
    out
}

/// The operand that stands for `number` of type `ty` (see `value_for`).
fn value_for_number(info: &NodeInfo, number: &Number, ty: VarType) -> (r: Option<Value>)
    ensures
        r == value_for(*info, number.value@, ty),
{
    if ty == VarType::I32 || ty == VarType::F32 {
        info.num2value(number, ty)
    } else {
        info.get_value(number)
    }
}

/// Whether `name` is among `names`.
fn name_in(names: &Vec<String>, name: &String) -> (r: bool)
    ensures
        r == exists|j: int| 0 <= j < names@.len() && #[trigger] names@[j]@ == name@,
{
    let mut j: usize = 0;
    while j < names.len()
        invariant
            j <= names@.len(),
            forall|q: int| 0 <= q < j ==> names@[q]@ != name@,
        decreases names.len() - j,
    {
        if names[j] == *name {
            return true;
        }
        j = j + 1;
    }
    false
}

/// The number of an arithmetic instruction's target after `work`: as
/// `arith_number_spec` gives it from the numbers of the operands, else
/// (but for folded float constants) the one the table of expressions
/// records for the instruction.
pub open spec fn arith_numbered(before: NodeInfo, after: NodeInfo, a: ArithInstr) -> bool {
    let nl = number_of(before, a.lhs)->0;
    let nr = number_of(before, a.rhs)->0;
    let k = num_lookup(after.num_mapper@, a.target.name@);
    match arith_number_spec(a.op, nl, nr) {
        Some(x) => k == Some(x),
        None => (float_fold_op(a.op) && same_value_of(nl) is Some && same_value_of(nr) is Some)
            || k == exp_lookup(after.exp_mapper@, HashItem::Arith(a.op), nl, nr),
    }
}

/// The number of a comparison's target after `work`: as
/// `comp_number_spec` gives it, else (but for float constants) the one the
/// table of expressions records for the comparison.
pub open spec fn comp_numbered(before: NodeInfo, after: NodeInfo, o: OtherInstr) -> bool {
    let nl = number_of(before, o.reads@[0])->0;
    let nr = number_of(before, o.reads@[1])->0;
    match (o.kind, o.target) {
        (OtherKind::Comp(op), Some(t)) => {
            let k = num_lookup(after.num_mapper@, t.name@);
            match comp_number_spec(op, nl, nr) {
                Some(x) => k == Some(x),
                None => (!int_comp(op) && same_value_of(nl) is Some && same_value_of(nr) is Some)
                    || k == exp_lookup(after.exp_mapper@, HashItem::Comp(op), nl, nr),
            }
        },
        _ => true,
    }
}

/// The numbers of a list of operands.
pub open spec fn numbers_of_reads(info: NodeInfo, reads: Seq<Value>) -> Seq<Seq<u32>> {
    reads.map_values(|v: Value| number_of(info, v)->0)
}

/// The number of the target of an address computation, or of a call of a
/// function in `pure_funcs`, after `work`: the wrapping sum of the
/// operands' numbers, or the number the table of calls records for the
/// arguments' numbers.
pub open spec fn other_numbered(before: NodeInfo, after: NodeInfo, o: OtherInstr, pure_funcs: Seq<String>) -> bool {
    match o.target {
        Some(t) => {
            let k = num_lookup(after.num_mapper@, t.name@);
            &&& o.kind == OtherKind::Gep ==> k == arith_number_spec(ArithOp::Add,
                number_of(before, o.reads@[0])->0, number_of(before, o.reads@[1])->0)
            &&& o.kind == OtherKind::Call ==> (o.callee matches Some(name) ==>
                ((exists|j: int| 0 <= j < pure_funcs.len() && #[trigger] pure_funcs[j]@ == name@)
                ==> k == func_lookup(after.func_mapper@, name@, numbers_of_reads(before, o.reads@))))
        },
        None => true,
    }
}

/// Records the number of what an instruction writes and keeps the
/// instruction where no operand stands for that number yet (which then
/// stands for it); otherwise drops it and sets `flag`.
fn finish(instr: BlockInstr, target: Option<LlvmTemp>, number: Number, value: Option<Value>, info: &mut NodeInfo, flag: &mut bool) -> (r: Option<BlockInstr>)
    ensures
        *final(flag) == (*old(flag) || r is None),
        r is None ==> target is Some && value is Some && final(info).var_mapper == old(info).var_mapper,
        r matches Some(i) ==> i == instr,
        target matches Some(t) ==> num_lookup(final(info).num_mapper@, t.name@) == Some(number.value@),
        target matches Some(t) ==> (r is Some ==> var_lookup(final(info).var_mapper@, number.value@) == Some(Value::Temp(t))),
        target is None ==> *final(info) == *old(info),
        final(info).exp_mapper == old(info).exp_mapper,
        final(info).func_mapper == old(info).func_mapper,
{
    match target {
        Some(t) => {
            info.set_number(t.dup(), copy_number(&number));
            match value {
                None => {
                    info.set_value(number, Value::Temp(t));
                    Some(instr)
                },
                Some(_) => {
                    *flag = true;
                    None
                },
            }
        },
        None => Some(instr),
    }
}

/// A fresh random value number.
fn random_number(rng: &mut StdRng) -> (r: Number)
    ensures
        r.value@.len() == GVN_EVAL_NUMBER,
{
    Number::new(rng)
}

/// Numbers one instruction in the tables of its node and replaces its
/// operands by the operands that stand for their numbers.
///
/// The number of what it writes is: for arithmetic, `arith_number` of the
/// operands' numbers, `float_arith` on two float constants, else the
/// number the table of expressions has (or gets) for it; for comparisons,
/// `comp_number`, `float_comp` on two float constants, else the table of
/// expressions; for conversions, `convert` at each point; for an address
/// computation, the wrapping sum of its operands' numbers; for a call of a
/// function in `pure_funcs`, the number the table of calls has (or gets)
/// for its arguments; for a load of a global variable, `str2num` of its
/// name (which also becomes the number of the variable); otherwise a fresh
/// random number. Phis keep their operands, and so does a load of a
/// global variable. Where an operand already stands for the number of the
/// target, the instruction is dropped (`None`) and `flag` is set;
/// otherwise the target stands for its number from now on.
pub fn work<FA, FC, FV>(
    instr: BlockInstr,
    info: &mut NodeInfo,
    rng: &mut StdRng,
    flag: &mut bool,
    pure_funcs: &Vec<String>,
    float_arith: FA,
    float_comp: FC,
    convert: FV,
) -> (r: Option<BlockInstr>) where
    FA: Fn(ArithOp, u32, u32) -> u32,
    FC: Fn(CompOp, u32, u32) -> bool,
    FV: Fn(ConvertOp, u32) -> u32,
    requires
        work_ready(*old(info), instr),
        forall|op: ArithOp, x: u32, y: u32| #[trigger] float_arith.requires((op, x, y)),
        forall|op: CompOp, x: u32, y: u32| #[trigger] float_comp.requires((op, x, y)),
        forall|op: ConvertOp, x: u32| #[trigger] convert.requires((op, x)),
    ensures
        *final(flag) == (*old(flag) || r is None),
        r is None ==> written(instr) is Some,
        r matches Some(i) ==> same_but_reads(i, instr),
        r matches Some(i) ==> reads_view(i) == (if maps_reads(instr) {
            reads_view(instr).map_values(|v: Value| mapped(*old(info), v))
        } else {
            reads_view(instr)
        }),
        written(instr) matches Some(t) ==> num_lookup(final(info).num_mapper@, t.name@) is Some,
        written(instr) matches Some(t) ==> (r is Some ==> var_lookup(final(info).var_mapper@,
            num_lookup(final(info).num_mapper@, t.name@)->0) == Some(Value::Temp(t))),
        written(instr) matches Some(t) ==> (r is None ==> value_for(*final(info),
            num_lookup(final(info).num_mapper@, t.name@)->0, result_type(instr)) is Some),
        instr matches BlockInstr::Arith(a) ==> arith_numbered(*old(info), *final(info), a),
        instr matches BlockInstr::Other(o) ==> (o.kind is Comp ==> comp_numbered(*old(info), *final(info), o)),
        instr matches BlockInstr::Other(o) ==> other_numbered(*old(info), *final(info), o, pure_funcs@),
{
    let ghost info0 = *info;
    match instr {
        BlockInstr::Arith(a) => {
            proof {
                assert(reads_view(instr)[0] == a.lhs);
                assert(reads_view(instr)[1] == a.rhs);
            }
            let new_lhs = map_operand(info, &a.lhs);
            let new_rhs = map_operand(info, &a.rhs);
            let l = info.get_number(&a.lhs);
            let r = info.get_number(&a.rhs);
            let number = match arith_number(a.op, &l, &r) {
                Some(n) => n,
                None => {
                    let fold = a.op == ArithOp::Fadd || a.op == ArithOp::Fsub || a.op == ArithOp::Fmul || a.op == ArithOp::Fdiv;
                    match (l.same_value(), r.same_value()) {
                        (Some(x), Some(y)) => if fold {
                            Number::constant(float_arith(a.op, x, y))
                        } else {
                            info.map_exp(HashItem::Arith(a.op), l, r, rng)
                        },
                        _ => info.map_exp(HashItem::Arith(a.op), l, r, rng),
                    }
                },
            };
            let value = value_for_number(info, &number, a.var_type);
            let kept = BlockInstr::Arith(ArithInstr { target: a.target.dup(), op: a.op, var_type: a.var_type, lhs: new_lhs, rhs: new_rhs });
            proof {
                assert(reads_view(kept) =~= reads_view(instr).map_values(|v: Value| mapped(info0, v)));
            }
            finish(kept, Some(a.target), number, value, info, flag)
        },
        BlockInstr::Other(o) => {
            let maps = match o.kind {
                OtherKind::Phi => false,
                OtherKind::Load => match &o.reads[0] {
                    Value::Temp(t) => !t.is_global,
                    _ => true,
                },
                _ => true,
            };
            proof {
                assert(maps == maps_reads(instr));
            }
            let new_reads = if maps {
                map_reads(info, &o.reads)
            } else {
                copy_reads(&o.reads)
            };
            let (number, value): (Number, Option<Value>) = match o.kind {
                OtherKind::Comp(op) => {
                    proof {
                        assert(reads_view(instr)[0] == o.reads@[0]);
                        assert(reads_view(instr)[1] == o.reads@[1]);
                    }
                    let l = info.get_number(&o.reads[0]);
                    let r = info.get_number(&o.reads[1]);
                    let int_op = op == CompOp::EQ || op == CompOp::NE || op == CompOp::SGT || op == CompOp::SGE
                        || op == CompOp::SLT || op == CompOp::SLE;
                    let number = match comp_number(op, &l, &r) {
                        Some(n) => n,
                        None => match (l.same_value(), r.same_value()) {
                            (Some(x), Some(y)) => if !int_op {
                                if float_comp(op, x, y) {
                                    Number::constant(1)
                                } else {
                                    Number::constant(0)
                                }
                            } else {
                                info.map_exp(HashItem::Comp(op), l, r, rng)
                            },
                            _ => info.map_exp(HashItem::Comp(op), l, r, rng),
                        },
                    };
                    let ty = if int_op { VarType::I32 } else { VarType::F32 };
                    let value = value_for_number(info, &number, ty);
                    (number, value)
                },
                OtherKind::Convert(op) => {
                    proof {
                        assert(reads_view(instr)[0] == o.reads@[0]);
                    }
                    let l = info.get_number(&o.reads[0]);
                    let mut vals: Vec<u32> = Vec::new();
                    let mut j: usize = 0;
                    while j < l.value.len()
                        invariant
                            j <= l.value@.len(),
                            forall|op: ConvertOp, x: u32| #[trigger] convert.requires((op, x)),
                        decreases l.value.len() - j,
                    {
                        vals.push(convert(op, l.value[j]));
                        j = j + 1;
                    }
                    let number = Number { value: vals };
                    let ty = match op {
                        ConvertOp::Int2Float => VarType::F32,
                        ConvertOp::Float2Int => VarType::I32,
                    };
                    let value = value_for_number(info, &number, ty);
                    (number, value)
                },
                OtherKind::Gep => {
                    proof {
                        assert(reads_view(instr)[0] == o.reads@[0]);
                        assert(reads_view(instr)[1] == o.reads@[1]);
                    }
                    let l = info.get_number(&o.reads[0]);
                    let r = info.get_number(&o.reads[1]);
                    let number = match arith_number(ArithOp::Add, &l, &r) {
                        Some(n) => n,
                        None => random_number(rng),
                    };
                    let ty = match &o.target {
                        Some(t) => t.var_type,
                        None => VarType::Void,
                    };
                    let value = value_for_number(info, &number, ty);
                    (number, value)
                },
                OtherKind::Call => {
                    let mut params: Vec<Number> = Vec::new();
                    let mut j: usize = 0;
                    while j < o.reads.len()
                        invariant
                            j <= o.reads@.len(),
                            *info == info0,
                            maps_reads(instr),
                            instr == BlockInstr::Other(o),
                            work_ready(info0, instr),
                            numbers_of(params@) == numbers_of_reads(info0, o.reads@.take(j as int)),
                        decreases o.reads.len() - j,
                    {
                        proof {
                            assert(reads_view(instr)[j as int] == o.reads@[j as int]);
                        }
                        let n = info.get_number(&o.reads[j]);
                        let ghost before = params@;
                        params.push(n);
                        proof {
                            assert(numbers_of(params@) =~= numbers_of(before).push(n.value@));
                            assert(numbers_of_reads(info0, o.reads@.take(j + 1)) =~= numbers_of_reads(info0, o.reads@.take(j as int)).push(n.value@));
                        }
                        j = j + 1;
                    }
                    proof {
                        assert(o.reads@.take(j as int) =~= o.reads@);
                    }
                    let pure = match &o.callee {
                        Some(name) => name_in(pure_funcs, name),
                        None => false,
                    };
                    if pure {
                        let name = match &o.callee {
                            Some(name) => name.clone(),
                            None => String::new(),
                        };
                        let number = info.map_func(name, params, rng);
                        let ty = match &o.target {
                            Some(t) => t.var_type,
                            None => VarType::Void,
                        };
                        let value = value_for_number(info, &number, ty);
                        (number, value)
                    } else {
                        (random_number(rng), None)
                    }
                },
                OtherKind::Load => {
                    let number = if maps {
                        random_number(rng)
                    } else {
                        match &o.reads[0] {
                            Value::Temp(t) => {
                                let num = str2num(t.name.as_str());
                                info.set_number(t.dup(), copy_number(&num));
                                num
                            },
                            _ => random_number(rng),
                        }
                    };
                    let ty = match &o.target {
                        Some(t) => t.var_type,
                        None => VarType::Void,
                    };
                    let value = value_for_number(info, &number, ty);
                    (number, value)
                },
                _ => (random_number(rng), None),
            };
            let target_copy = match &o.target {
                Some(t) => Some(t.dup()),
                None => None,
            };
            let kept = BlockInstr::Other(OtherInstr { kind: o.kind, reads: new_reads, target: o.target, callee: o.callee });
            proof {
                if maps {
                    assert(reads_view(kept) =~= reads_view(instr).map_values(|v: Value| mapped(info0, v)));
                }
            }
            finish(kept, target_copy, number, value, info, flag)
        },
    }
}

} // verus!
