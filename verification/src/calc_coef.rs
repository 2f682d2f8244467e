use vstd::prelude::*;
use crate::compute_graph::{LlvmTemp, Value, VarType};
use crate::ir_ops::ArithOp;

verus! {

/// How a recursive call shrinks its argument.
pub enum ReduceType {
    Sub,
    Half,
}

/// The kind of instruction whose modulus status is computed.
#[derive(PartialEq, Eq, Structural, Clone, Copy, Debug)]
pub enum ModInstr {
    Arith(ArithOp),
    Comp,
    JumpCond,
    Phi,
    Call,
}

/// Whether a value is known to be reduced modulo some value, and whether the
/// reduction has already been applied.
#[derive(Debug)]
pub struct ModStatus {
    pub mod_val: Option<Value>,
    pub is_activated: bool,
}

/// A value as a linear form `sum(k_val[i] * param_i) + b_val` over the
/// parameters of a function, with its modulus status.
#[derive(Debug)]
pub struct Entry {
    pub k_val: Vec<Value>,
    pub b_val: Value,
    pub mod_val: ModStatus,
    pub params_len: usize,
}

/// A float (given by its bits) that is zero, of either sign.
pub open spec fn float_is_zero(bits: u32) -> bool {
    bits == 0 || bits == 0x8000_0000u32
}

/// A float (given by its bits) that is not a number.
pub open spec fn float_is_nan(bits: u32) -> bool {
    bits % 0x8000_0000u32 > 0x7f80_0000u32
}

/// Equality of operands as the IR compares them: integers by value, floats
/// by IEEE-754 equality, temporaries field by field.
pub open spec fn value_same(a: Value, b: Value) -> bool {
    match (a, b) {
        (Value::Int(x), Value::Int(y)) => x == y,
        (Value::Float(x), Value::Float(y)) => !float_is_nan(x) && !float_is_nan(y)
            && (x == y || (float_is_zero(x) && float_is_zero(y))),
        (Value::Temp(s), Value::Temp(t)) => s.name@ == t.name@ && s.is_global == t.is_global
            && s.var_type == t.var_type,
        _ => false,
    }
}

/// An operand that is the number zero.
pub open spec fn value_is_zero(v: Value) -> bool {
    match v {
        Value::Int(i) => i == 0,
        Value::Float(bits) => float_is_zero(bits),
        Value::Temp(_) => false,
    }
}

/// An entry whose coefficients are all zero: a constant.
pub open spec fn constant_term(e: Entry) -> bool {
    forall|i: int| 0 <= i < e.k_val@.len() ==> value_is_zero(#[trigger] e.k_val@[i])
}

/// The modulus that an entry carries once constants are allowed to drop it.
pub open spec fn downcast_mod(e: Entry) -> Option<Value> {
    if constant_term(e) {
        None
    } else {
        e.mod_val.mod_val
    }
}

pub open spec fn status(m: Option<Value>, active: bool) -> ModStatus {
    ModStatus { mod_val: m, is_activated: active }
}

pub open spec fn fresh_status() -> ModStatus {
    status(None, false)
}

/// The modulus of the first entry that carries one after downcasting.
pub open spec fn first_mod(s: Seq<Entry>) -> Option<Value>
    decreases s.len(),
{
    if s.len() == 0 {
        None
    } else {
        match first_mod(s.drop_last()) {
            Some(v) => Some(v),
            None => downcast_mod(s.last()),
        }
    }
}

/// Every modulus carried after downcasting, but the first, equals the first.
pub open spec fn mods_agree(s: Seq<Entry>) -> bool {
    forall|i: int| 0 <= i < s.len() ==> match #[trigger] downcast_mod(s[i]) {
        Some(v) => match first_mod(s.take(i)) {
            Some(m) => value_same(m, v),
            None => true,
        },
        None => true,
    }
}

/// The modulus status of an arithmetic instruction from those of its two
/// operands.
pub open spec fn arith_mod_spec(op: ArithOp, lhs: Entry, rhs: Entry) -> Option<ModStatus> {
    let lm = lhs.mod_val.mod_val;
    let rm = rhs.mod_val.mod_val;
    match op {
        ArithOp::Add | ArithOp::Sub | ArithOp::AddD | ArithOp::Mul | ArithOp::MulD
        | ArithOp::SubD => {
            match (lm, rm) {
                (Some(v), Some(v2)) => if value_same(v, v2) {
                    Some(status(Some(v), false))
                } else if downcast_mod(lhs) is None {
                    Some(status(Some(v2), false))
                } else if downcast_mod(rhs) is None {
                    Some(status(Some(v), false))
                } else {
                    None
                },
                (Some(v), None) => Some(status(Some(v), false)),
                (None, Some(v2)) => Some(status(Some(v2), false)),
                (None, None) => Some(fresh_status()),
            }
        },
        ArithOp::Div | ArithOp::DivD => Some(fresh_status()),
        ArithOp::Lshr | ArithOp::LshrD | ArithOp::Xor | ArithOp::Or | ArithOp::And
        | ArithOp::Ashr | ArithOp::AshrD | ArithOp::Shl | ArithOp::ShlD => {
            if downcast_mod(lhs) is None && downcast_mod(rhs) is None {
                Some(fresh_status())
            } else {
                None
            }
        },
        ArithOp::Rem | ArithOp::RemD => {
            if constant_term(rhs) && rhs.b_val is Int {
                let curmod = rhs.b_val->Int_0;
                match lm {
                    Some(Value::Int(modval)) => {
                        if modval == curmod || (modval > curmod && downcast_mod(lhs) is None)
                            || (modval < curmod && (lhs.mod_val.is_activated
                            || downcast_mod(lhs) is None)) {
                            Some(status(lm, true))
                        } else {
                            None
                        }
                    },
                    Some(_) => None,
                    None => Some(status(Some(Value::Int(curmod)), true)),
                }
            } else {
                None
            }
        },
        _ => Some(fresh_status()),
    }
}

/// The operators through which a modulus carries over: addition,
/// subtraction and multiplication.
pub open spec fn linear_op(op: ArithOp) -> bool {
    op == ArithOp::Add || op == ArithOp::Sub || op == ArithOp::AddD || op == ArithOp::Mul
        || op == ArithOp::MulD || op == ArithOp::SubD
}

/// Through an addition, subtraction or multiplication, a modulus that one
/// operand carries carries over to the result, whichever side it is on,
/// and the result carries none where neither operand does: swapping the
/// operands gives the same status when they do not carry two different
/// moduli.
pub proof fn law_linear_mod(op: ArithOp, lhs: Entry, rhs: Entry)
    requires
        linear_op(op),
    ensures
        lhs.mod_val.mod_val is None ==> arith_mod_spec(op, lhs, rhs) == Some(status(rhs.mod_val.mod_val, false)),
        rhs.mod_val.mod_val is None ==> arith_mod_spec(op, lhs, rhs) == Some(status(lhs.mod_val.mod_val, false)),
        (lhs.mod_val.mod_val is None || rhs.mod_val.mod_val is None) ==> arith_mod_spec(op, lhs, rhs) == arith_mod_spec(op, rhs, lhs),
        lhs.mod_val.mod_val matches Some(v) ==> (rhs.mod_val.mod_val == Some(v) && !(v is Float)
            ==> arith_mod_spec(op, lhs, rhs) == Some(status(Some(v), false))),
{
}

/// The modulus status of an instruction from those of its operands.
pub open spec fn mod_spec(instr: ModInstr, entries: Seq<Entry>) -> Option<ModStatus> {
    match instr {
        ModInstr::Arith(op) => arith_mod_spec(op, entries[0], entries[1]),
        ModInstr::Comp => if downcast_mod(entries[0]) is None && downcast_mod(entries[1]) is None {
            Some(fresh_status())
        } else {
            None
        },
        ModInstr::JumpCond => Some(fresh_status()),
        ModInstr::Phi | ModInstr::Call => if mods_agree(entries) {
            Some(fresh_status())
        } else {
            None
        },
    }
}

impl ModStatus {
    /// No modulus, not activated.
    pub fn new() -> (r: Self)
        ensures
            r == fresh_status(),
    {
        ModStatus { mod_val: None, is_activated: false }
    }
}

/// A copy of an operand.
pub fn dup_value(v: &Value) -> (r: Value)
    ensures
        r == *v,
{
    match v {
        Value::Int(i) => Value::Int(*i),
        Value::Float(f) => Value::Float(*f),
        Value::Temp(t) => Value::Temp(t.dup()),
    }
}

fn dup_opt_value(v: &Option<Value>) -> (r: Option<Value>)
    ensures
        r == *v,
{
    match v {
        Some(x) => Some(dup_value(x)),
        None => None,
    }
}

fn is_nan_bits(bits: u32) -> (r: bool)
    ensures
        r == float_is_nan(bits),
{
    bits % 0x8000_0000u32 > 0x7f80_0000u32
}

fn is_zero_bits(bits: u32) -> (r: bool)
    ensures
        r == float_is_zero(bits),
{
    bits == 0 || bits == 0x8000_0000u32
}

/// Operand equality (see `value_same`).
pub fn value_eq(a: &Value, b: &Value) -> (r: bool)
    ensures
        r == value_same(*a, *b),
{
    match (a, b) {
        (Value::Int(x), Value::Int(y)) => *x == *y,
        (Value::Float(x), Value::Float(y)) => !is_nan_bits(*x) && !is_nan_bits(*y)
            && (*x == *y || (is_zero_bits(*x) && is_zero_bits(*y))),
        (Value::Temp(s), Value::Temp(t)) => s.name == t.name && s.is_global == t.is_global
            && s.var_type == t.var_type,
        _ => false,
    }
}

/// Whether an operand is the number zero.
pub fn is_zero(v: &Value) -> (r: bool)
    ensures
        r == value_is_zero(*v),
{
    match v {
        Value::Int(i) => *i == 0,
        Value::Float(bits) => is_zero_bits(*bits),
        Value::Temp(_) => false,
    }
}

/// Whether all coefficients of an entry are zero.
pub fn is_constant_term(entry: &Entry) -> (r: bool)
    ensures
        r == constant_term(*entry),
{
    let mut i: usize = 0;
    while i < entry.k_val.len()
        invariant
            i <= entry.k_val@.len(),
            forall|j: int| 0 <= j < i ==> value_is_zero(#[trigger] entry.k_val@[j]),
        decreases entry.k_val.len() - i,
    {
        if !is_zero(&entry.k_val[i]) {
            return false;
        }
        i = i + 1;
    }
    true
}

/// The modulus status of an entry, with the modulus dropped from constants.
pub fn get_downcast_status(entry: &Entry) -> (r: ModStatus)
    ensures
        r.mod_val == downcast_mod(*entry),
        r.is_activated == (!constant_term(*entry) && entry.mod_val.is_activated),
{
    if is_constant_term(entry) {
        ModStatus { mod_val: None, is_activated: false }
    } else {
        ModStatus { mod_val: dup_opt_value(&entry.mod_val.mod_val), is_activated: entry.mod_val.is_activated }
    }
}

fn arith_mod(op: ArithOp, lhs: &Entry, rhs: &Entry) -> (r: Option<ModStatus>)
    ensures
        r == arith_mod_spec(op, *lhs, *rhs),
{
    let lhs_modval = &lhs.mod_val;
    let rhs_modval = &rhs.mod_val;
    match op {
        ArithOp::Add | ArithOp::Sub | ArithOp::AddD | ArithOp::Mul | ArithOp::MulD
        | ArithOp::SubD => {
            match (&lhs_modval.mod_val, &rhs_modval.mod_val) {
                (Some(val), Some(val2)) => {
                    if value_eq(val, val2) {
                        Some(ModStatus { mod_val: Some(dup_value(val)), is_activated: false })
                    } else if get_downcast_status(lhs).mod_val.is_none() {
                        Some(ModStatus { mod_val: Some(dup_value(val2)), is_activated: false })
                    } else if get_downcast_status(rhs).mod_val.is_none() {
                        Some(ModStatus { mod_val: Some(dup_value(val)), is_activated: false })
                    } else {
                        None
                    }
                },
                (Some(val), None) => Some(ModStatus { mod_val: Some(dup_value(val)), is_activated: false }),
                (None, Some(val2)) => Some(ModStatus { mod_val: Some(dup_value(val2)), is_activated: false }),
                (None, None) => Some(ModStatus::new()),
            }
        },
        ArithOp::Div | ArithOp::DivD => Some(ModStatus::new()),
        ArithOp::Lshr | ArithOp::LshrD | ArithOp::Xor | ArithOp::Or | ArithOp::And
        | ArithOp::Ashr | ArithOp::AshrD | ArithOp::Shl | ArithOp::ShlD => {
            if get_downcast_status(lhs).mod_val.is_none() && get_downcast_status(rhs).mod_val.is_none() {
                Some(ModStatus::new())
            } else {
                None
            }
        },
        ArithOp::Rem | ArithOp::RemD => {
            if is_constant_term(rhs) {
                if let Value::Int(curmod) = rhs.b_val {
                    match &lhs_modval.mod_val {
                        Some(mod_val) => {
                            if let Value::Int(modval) = mod_val {
                                if *modval == curmod {
                                    Some(ModStatus { mod_val: Some(dup_value(mod_val)), is_activated: true })
                                } else if *modval > curmod {
                                    if get_downcast_status(lhs).mod_val.is_none() {
                                        return Some(ModStatus { mod_val: Some(dup_value(mod_val)), is_activated: true });
                                    }
                                    None
                                } else if lhs_modval.is_activated {
                                    Some(ModStatus { mod_val: Some(dup_value(mod_val)), is_activated: true })
                                } else {
                                    if get_downcast_status(lhs).mod_val.is_none() {
                                        return Some(ModStatus { mod_val: Some(dup_value(mod_val)), is_activated: true });
                                    }
                                    None
                                }
                            } else {
                                None
                            }
                        },
                        None => Some(ModStatus { mod_val: Some(Value::Int(curmod)), is_activated: true }),
                    }
                } else {
                    None
                }
            } else {
                None
            }
        },
        _ => Some(ModStatus::new()),
    }
}

/// Scans the moduli that the entries carry after downcasting: `(true, _)`
/// where two of them differ, else `(false, m)` with `m` the first one.
fn scan_mods(entries: &Vec<Entry>) -> (r: (bool, Option<Value>))
    ensures
        r.0 == !mods_agree(entries@),
        !r.0 ==> r.1 == first_mod(entries@),
        r.1 is Some ==> exists|j: int| 0 <= j < entries@.len() && !constant_term(#[trigger] entries@[j]),
{
    let ghost s = entries@;
    let mut mod_val: Option<Value> = None;
    let mut i: usize = 0;
    while i < entries.len()
        invariant
            s == entries@,
            i <= s.len(),
            mod_val == first_mod(s.take(i as int)),
            forall|j: int| 0 <= j < i ==> match #[trigger] downcast_mod(s[j]) {
                Some(v) => match first_mod(s.take(j)) {
                    Some(m) => value_same(m, v),
                    None => true,
                },
                None => true,
            },
            mod_val is Some ==> exists|j: int| 0 <= j < i && !constant_term(#[trigger] s[j]),
        decreases s.len() - i,
    {
        proof {
            assert(s.take(i + 1).drop_last() =~= s.take(i as int));
            assert(s.take(i + 1).last() == s[i as int]);
        }
        let st = get_downcast_status(&entries[i]);
        match st.mod_val {
            Some(val) => {
                match &mod_val {
                    Some(m) => {
                        if !value_eq(m, &val) {
                            proof {
                                assert(!match downcast_mod(s[i as int]) {
                                    Some(v) => match first_mod(s.take(i as int)) {
                                        Some(m) => value_same(m, v),
                                        None => true,
                                    },
                                    None => true,
                                });
                            }
                            return (true, None);
                        }
                    },
                    None => {
                        mod_val = Some(val);
                    },
                }
            },
            None => {},
        }
        i = i + 1;
    }
    proof {
        assert(s.take(s.len() as int) =~= s);
    }
    (false, mod_val)
}

/// Whether some entry has a non-zero coefficient.
fn any_nonconstant(entries: &Vec<Entry>) -> (r: bool)
    ensures
        r == exists|j: int| 0 <= j < entries@.len() && !constant_term(#[trigger] entries@[j]),
{
    let mut i: usize = 0;
    while i < entries.len()
        invariant
            i <= entries@.len(),
            forall|j: int| 0 <= j < i ==> constant_term(#[trigger] entries@[j]),
        decreases entries.len() - i,
    {
        if !is_constant_term(&entries[i]) {
            return true;
        }
        i = i + 1;
    }
    false
}

/// Whether every entry carrying modulus `m` has it activated.
fn all_activated_with(entries: &Vec<Entry>, m: &Value) -> (r: bool)
    ensures
        r == forall|j: int| 0 <= j < entries@.len() && (#[trigger] entries@[j]).mod_val.mod_val is Some
            && value_same(entries@[j].mod_val.mod_val->0, *m) ==> entries@[j].mod_val.is_activated,
{
    let mut i: usize = 0;
    while i < entries.len()
        invariant
            i <= entries@.len(),
            forall|j: int| 0 <= j < i && (#[trigger] entries@[j]).mod_val.mod_val is Some
                && value_same(entries@[j].mod_val.mod_val->0, *m) ==> entries@[j].mod_val.is_activated,
        decreases entries.len() - i,
    {
        if let Some(e) = &entries[i].mod_val.mod_val {
            if value_eq(e, m) && !entries[i].mod_val.is_activated {
                return false;
            }
        }
        i = i + 1;
    }
    true
}

/// The modulus status of an instruction's result from the entries of its
/// operands (two for arithmetic and comparisons, one per incoming value or
/// argument for phi nodes and calls). `None` where the operands carry moduli
/// that cannot be reconciled.
pub fn calc_mod(instr: ModInstr, entries: Vec<Entry>) -> (r: Option<ModStatus>)
    requires
        (instr is Arith || instr is Comp) ==> entries@.len() >= 2,
    ensures
        r == mod_spec(instr, entries@),
        instr matches ModInstr::Arith(op) && linear_op(op) ==> {
            let lm = entries@[0].mod_val.mod_val;
            let rm = entries@[1].mod_val.mod_val;
            &&& lm is None && rm is None ==> r == Some(ModStatus { mod_val: None, is_activated: false })
            &&& lm is Some && rm is None ==> r == Some(ModStatus { mod_val: lm, is_activated: false })
            &&& lm is None && rm is Some ==> r == Some(ModStatus { mod_val: rm, is_activated: false })
        },
{
    match instr {
        ModInstr::Arith(op) => arith_mod(op, &entries[0], &entries[1]),
        ModInstr::Comp => {
            if get_downcast_status(&entries[0]).mod_val.is_none()
                && get_downcast_status(&entries[1]).mod_val.is_none() {
                Some(ModStatus::new())
            } else {
                None
            }
        },
        ModInstr::JumpCond => Some(ModStatus::new()),
        ModInstr::Phi => {
            let has_nonconst = any_nonconstant(&entries);
            let (conflict, mod_val) = scan_mods(&entries);
            if conflict {
                return None;
            }
            if let Some(m) = mod_val {
                if !has_nonconst {
                    proof {
                        assert(false);
                    }
                    let is_active = all_activated_with(&entries, &m);
                    Some(ModStatus { mod_val: Some(m), is_activated: is_active })
                } else {
                    Some(ModStatus::new())
                }
            } else {
                Some(ModStatus::new())
            }
        },
        ModInstr::Call => {
            let has_nonconst = any_nonconstant(&entries);
            let (conflict, mod_val) = scan_mods(&entries);
            if conflict {
                return None;
            }
            if let Some(m) = mod_val {
                if !has_nonconst {
                    proof {
                        assert(false);
                    }
                    Some(ModStatus { mod_val: Some(m), is_activated: false })
                } else {
                    Some(ModStatus::new())
                }
            } else {
                Some(ModStatus::new())
            }
        },
    }
}

/// The addition for operands of a temporary's type.
pub fn get_typed_add(value: &LlvmTemp) -> (r: ArithOp)
    requires
        value.var_type == VarType::I32 || value.var_type == VarType::F32,
    ensures
        r == (if value.var_type == VarType::I32 { ArithOp::AddD } else { ArithOp::Fadd }),
{
    match value.var_type {
        VarType::I32 => ArithOp::AddD,
        _ => ArithOp::Fadd,
    }
}

/// The addition for an operand's type.
pub fn get_value_typed_add(value: &Value) -> (r: ArithOp)
    requires
        value matches Value::Temp(t) ==> t.var_type == VarType::I32 || t.var_type == VarType::F32,
    ensures
        r == (match *value {
            Value::Int(_) => ArithOp::AddD,
            Value::Float(_) => ArithOp::Fadd,
            Value::Temp(t) => if t.var_type == VarType::I32 { ArithOp::AddD } else { ArithOp::Fadd },
        }),
{
    match value {
        Value::Int(_) => ArithOp::AddD,
        Value::Float(_) => ArithOp::Fadd,
        Value::Temp(t) => get_typed_add(t),
    }
}

/// The multiplication for operands of a temporary's type.
pub fn get_typed_mul(value: &LlvmTemp) -> (r: ArithOp)
    requires
        value.var_type == VarType::I32 || value.var_type == VarType::F32,
    ensures
        r == (if value.var_type == VarType::I32 { ArithOp::MulD } else { ArithOp::Fmul }),
{
    match value.var_type {
        VarType::I32 => ArithOp::MulD,
        _ => ArithOp::Fmul,
    }
}

/// The bits of the float `1.0`.
pub const FLOAT_ONE_BITS: u32 = 0x3f80_0000;

/// Zero of a temporary's type (an integer zero for types other than `f32`).
pub fn get_typed_zero(value: &LlvmTemp) -> (r: Value)
    ensures
        r == (if value.var_type == VarType::F32 { Value::Float(0) } else { Value::Int(0) }),
{
    match value.var_type {
        VarType::F32 => Value::Float(0),
        _ => Value::Int(0),
    }
}

/// One of a temporary's type (an integer one for types other than `f32`).
pub fn get_typed_one(value: &LlvmTemp) -> (r: Value)
    ensures
        r == (if value.var_type == VarType::F32 { Value::Float(FLOAT_ONE_BITS) } else { Value::Int(1) }),
{
    match value.var_type {
        VarType::F32 => Value::Float(FLOAT_ONE_BITS),
        _ => Value::Int(1),
    }
}

/// The entry of a literal operand: the literal itself, with zero
/// coefficients of its type for `params_len` parameters; `None` for a
/// temporary, whose entry comes from the table of entries.
pub fn get_literal_entry(value: &Value, params_len: usize) -> (r: Option<Entry>)
    ensures
        r is None <==> value is Temp,
        r matches Some(e) ==> e.b_val == *value && e.params_len == params_len && e.mod_val == fresh_status()
            && e.k_val@ == Seq::new(params_len as nat, |i: int| if value is Int { Value::Int(0) } else { Value::Float(0) }),
{
    let zero = match value {
        Value::Int(_) => Value::Int(0),
        Value::Float(_) => Value::Float(0),
        Value::Temp(_) => {
            return None;
        },
    };
    let mut k_val: Vec<Value> = Vec::new();
    let mut i: usize = 0;
    while i < params_len
        invariant
            i <= params_len,
            k_val@.len() == i,
            zero == (if value is Int { Value::Int(0) } else { Value::Float(0) }),
            forall|j: int| 0 <= j < i ==> #[trigger] k_val@[j] == zero,
        decreases params_len - i,
    {
        k_val.push(dup_value(&zero));
        i = i + 1;
    }
    proof {
        assert(k_val@ =~= Seq::new(params_len as nat, |i: int| if value is Int { Value::Int(0) } else { Value::Float(0) }));
    }
    Some(Entry { k_val, b_val: dup_value(value), mod_val: ModStatus::new(), params_len })
}

/// An entry that is an integer constant.
pub open spec fn int_constant(e: Entry) -> bool {
    constant_term(e) && e.b_val is Int
}

/// The modulus that the returned values of a function share so far, after
/// the entries `s`; `None` once they cannot share one (an inactive modulus,
/// two different moduli, or a value without modulus next to one with).
pub open spec fn return_scan(s: Seq<Entry>) -> Option<Option<Value>>
    decreases s.len(),
{
    if s.len() == 0 {
        Some(None)
    } else {
        match return_scan(s.drop_last()) {
            None => None,
            Some(mv) => {
                let e = s.last();
                if int_constant(e) {
                    Some(mv)
                } else {
                    match e.mod_val.mod_val {
                        Some(m) => if !e.mod_val.is_activated {
                            None
                        } else {
                            match mv {
                                None => Some(Some(m)),
                                Some(x) => if value_same(x, m) { Some(mv) } else { None },
                            }
                        },
                        None => if mv is Some { None } else { Some(mv) },
                    }
                }
            },
        }
    }
}

/// The integer constants among the entries, in order.
pub open spec fn return_ints(s: Seq<Entry>) -> Seq<i32>
    decreases s.len(),
{
    if s.len() == 0 {
        Seq::empty()
    } else if int_constant(s.last()) {
        return_ints(s.drop_last()).push(s.last().b_val->Int_0)
    } else {
        return_ints(s.drop_last())
    }
}

pub open spec fn abs_int(x: int) -> int {
    if x < 0 { -x } else { x }
}

/// The modulus shared by the returned values of a function, where every
/// integer constant among them is smaller than it in absolute value;
/// `None` where there is none such.
pub open spec fn judge_return_spec(s: Seq<Entry>) -> Option<Option<Value>> {
    match return_scan(s) {
        None => None,
        Some(mv) => match mv {
            Some(Value::Int(m)) => if exists|k: int| 0 <= k < return_ints(s).len()
                && abs_int(#[trigger] return_ints(s)[k] as int) >= abs_int(m as int) {
                None
            } else {
                Some(mv)
            },
            _ => Some(mv),
        },
    }
}

/// What `judge_return` needs: where the shared modulus is an integer and
/// some integer constant is compared with it, neither it nor a constant
/// compared before a too large one is `i32::MIN` (whose absolute value
/// overflows).
pub open spec fn judge_return_ok(s: Seq<Entry>) -> bool {
    match return_scan(s) {
        Some(Some(Value::Int(m))) => return_ints(s).len() > 0 ==> (m != i32::MIN
            && forall|k: int| 0 <= k < return_ints(s).len()
                && (forall|j: int| 0 <= j < k ==> abs_int(#[trigger] return_ints(s)[j] as int) < abs_int(m as int))
                ==> #[trigger] return_ints(s)[k] != i32::MIN),
        _ => true,
    }
}

/// Once the scan of a prefix fails, the scan of the whole list fails.
pub proof fn lemma_return_scan_none(s: Seq<Entry>, k: int)
    requires
        0 <= k <= s.len(),
        return_scan(s.take(k)) is None,
    ensures
        return_scan(s) is None,
    decreases s.len() - k,
{
    if k < s.len() {
        assert(s.take(k + 1).drop_last() =~= s.take(k));
        lemma_return_scan_none(s, k + 1);
    } else {
        assert(s.take(k) =~= s);
    }
}

fn abs_i32(x: i32) -> (r: i32)
    requires
        x != i32::MIN,
    ensures
        r == abs_int(x as int),
{
    if x < 0 { -x } else { x }
}

/// The modulus shared by the values a function returns (see
/// `judge_return_spec`).
pub fn judge_return(entries: &[Entry]) -> (r: Option<Option<Value>>)
    requires
        judge_return_ok(entries@),
    ensures
        r == judge_return_spec(entries@),
{
    let ghost s = entries@;
    let mut imms: Vec<i32> = Vec::new();
    let mut mod_val: Option<Value> = None;
    let mut i: usize = 0;
    while i < entries.len()
        invariant
            i <= s.len(),
            s == entries@,
            return_scan(s.take(i as int)) == Some(mod_val),
            imms@ == return_ints(s.take(i as int)),
        decreases s.len() - i,
    {
        proof {
            assert(s.take(i + 1).drop_last() =~= s.take(i as int));
            assert(s.take(i + 1).last() == s[i as int]);
        }
        let entry = &entries[i];
        if is_constant_term(entry) {
            if let Value::Int(v) = entry.b_val {
                imms.push(v);
                i = i + 1;
                continue;
            }
        }
        match &entry.mod_val.mod_val {
            Some(mod_num) => {
                if entry.mod_val.is_activated {
                    match &mod_val {
                        None => {
                            mod_val = Some(dup_value(mod_num));
                        },
                        Some(x) => {
                            if !value_eq(x, mod_num) {
                                proof {
                                    lemma_return_scan_none(s, i + 1);
                                }
                                return None;
                            }
                        },
                    }
                } else {
                    proof {
                        lemma_return_scan_none(s, i + 1);
                    }
                    return None;
                }
            },
            None => {
                if mod_val.is_some() {
                    proof {
                        lemma_return_scan_none(s, i + 1);
                    }
                    return None;
                }
            },
        }
        i = i + 1;
    }
    proof {
        assert(s.take(i as int) =~= s);
    }
    let mut k: usize = 0;
    while k < imms.len()
        invariant
            k <= imms@.len(),
            s == entries@,
            return_scan(s) == Some(mod_val),
            imms@ == return_ints(s),
            judge_return_ok(s),
            mod_val matches Some(Value::Int(m)) ==> forall|j: int| 0 <= j < k ==> abs_int(#[trigger] imms@[j] as int) < abs_int(m as int),
        decreases imms@.len() - k,
    {
        if let Some(Value::Int(m)) = &mod_val {
            let m = *m;
            let imm = imms[k];
            let a = abs_i32(imm);
            let b = abs_i32(m);
            if a >= b {
                return None;
            }
        }
        k = k + 1;
    }
    Some(mod_val)
}

} // verus!
