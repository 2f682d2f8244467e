use optimizer::compute_graph::{LlvmTemp, Value, VarType};
use optimizer::ir_ops::{ArithOp, CompOp};
use optimizer::node_info::{HashItem, NodeInfo};
use optimizer::number::{Number, GVN_EVAL_NUMBER};
use rand::rngs::StdRng;
use rand::SeedableRng;

fn temp(name: &str, var_type: VarType) -> LlvmTemp {
    LlvmTemp { name: name.to_string(), is_global: false, var_type }
}

fn num(values: &[u32]) -> Number {
    Number { value: values.to_vec() }
}

#[test]
fn number_of_temporary_is_the_last_one_set() {
    let mut info = NodeInfo::new();
    let a = num(&[1, 2, 3]);
    let b = num(&[4, 5, 6]);
    info.set_number(temp("x", VarType::I32), a.clone());
    info.set_number(temp("y", VarType::I32), b.clone());
    assert_eq!(info.get_number(&Value::Temp(temp("x", VarType::I32))), a);
    info.set_number(temp("x", VarType::I32), b.clone());
    assert_eq!(info.get_number(&Value::Temp(temp("x", VarType::I32))), b);
    assert_eq!(info.get_number(&Value::Temp(temp("y", VarType::I32))), b);
}

#[test]
fn number_of_literal_is_constant() {
    let info = NodeInfo::new();
    let n = info.get_number(&Value::Int(-1));
    assert_eq!(n.value, vec![u32::MAX; GVN_EVAL_NUMBER]);
    let f = info.get_number(&Value::Float(1.5f32.to_bits()));
    assert_eq!(f.value, vec![1.5f32.to_bits(); GVN_EVAL_NUMBER]);
}

#[test]
fn expression_table_gives_one_number_per_expression() {
    let mut rng = StdRng::seed_from_u64(7);
    let mut info = NodeInfo::new();
    let x = num(&[1, 2]);
    let y = num(&[3, 4]);
    let first = info.map_exp(HashItem::Arith(ArithOp::Div), x.clone(), y.clone(), &mut rng);
    assert_eq!(first.value.len(), GVN_EVAL_NUMBER);
    let again = info.map_exp(HashItem::Arith(ArithOp::Div), x.clone(), y.clone(), &mut rng);
    assert_eq!(first, again);
    let other = info.map_exp(HashItem::Comp(CompOp::SLT), x.clone(), y.clone(), &mut rng);
    assert_ne!(first, other);
    let swapped = info.map_exp(HashItem::Arith(ArithOp::Div), y, x, &mut rng);
    assert_ne!(first, swapped);
    assert_eq!(info.exp_mapper.len(), 3);
}

#[test]
fn values_stand_for_numbers() {
    let mut info = NodeInfo::new();
    let n = num(&[9, 8, 7]);
    assert_eq!(info.get_value(&n), None);
    info.set_value(n.clone(), Value::Temp(temp("v", VarType::I32)));
    assert_eq!(info.get_value(&n), Some(Value::Temp(temp("v", VarType::I32))));
    assert_eq!(info.num2value(&n, VarType::I32), Some(Value::Temp(temp("v", VarType::I32))));
    assert_eq!(info.num2value(&num(&[5, 5]), VarType::I32), Some(Value::Int(5)));
    assert_eq!(info.num2value(&num(&[5, 5]), VarType::F32), Some(Value::Float(5)));
    assert_eq!(info.num2value(&num(&[1, 2]), VarType::I32), None);
    info.set_number(temp("w", VarType::I32), n.clone());
    assert_eq!(info.map_value(&Value::Temp(temp("w", VarType::I32))), Value::Temp(temp("v", VarType::I32)));
    assert_eq!(info.map_value(&Value::Int(3)), Value::Int(3));
}

#[test]
fn pure_calls_share_numbers() {
    let mut rng = StdRng::seed_from_u64(11);
    let mut info = NodeInfo::new();
    let p = vec![num(&[1, 1]), num(&[2, 3])];
    let a = info.map_func("f".to_string(), p.clone(), &mut rng);
    let b = info.map_func("f".to_string(), p.clone(), &mut rng);
    assert_eq!(a, b);
    let c = info.map_func("g".to_string(), p.clone(), &mut rng);
    assert_ne!(a, c);
    let d = info.map_func("f".to_string(), vec![num(&[1, 1])], &mut rng);
    assert_ne!(a, d);
}

use optimizer::node_info::work;
use optimizer::rearrange::ArithInstr;
use optimizer::rearrange_block::{BlockInstr, ConvertOp, OtherInstr, OtherKind};

fn t(name: &str) -> Value {
    Value::Temp(temp(name, VarType::I32))
}

fn add(target: &str, lhs: Value, rhs: Value) -> BlockInstr {
    BlockInstr::Arith(ArithInstr { target: temp(target, VarType::I32), op: ArithOp::Add, var_type: VarType::I32, lhs, rhs })
}

fn other(kind: OtherKind, reads: Vec<Value>, target: Option<LlvmTemp>, callee: Option<&str>) -> BlockInstr {
    BlockInstr::Other(OtherInstr { kind, reads, target, callee: callee.map(|c| c.to_string()) })
}

fn float_arith(op: ArithOp, x: u32, y: u32) -> u32 {
    let (a, b) = (f32::from_bits(x), f32::from_bits(y));
    match op {
        ArithOp::Fadd => (a + b).to_bits(),
        ArithOp::Fsub => (a - b).to_bits(),
        ArithOp::Fmul => (a * b).to_bits(),
        _ => (a / b).to_bits(),
    }
}

fn float_comp(op: CompOp, x: u32, y: u32) -> bool {
    let (a, b) = (f32::from_bits(x), f32::from_bits(y));
    match op {
        CompOp::OEQ => a == b,
        CompOp::ONE => a != b,
        CompOp::OGT => a > b,
        CompOp::OGE => a >= b,
        CompOp::OLT => a < b,
        _ => a <= b,
    }
}

fn convert(op: ConvertOp, x: u32) -> u32 {
    match op {
        ConvertOp::Int2Float => (x as i32 as f32).to_bits(),
        ConvertOp::Float2Int => f32::from_bits(x) as i32 as u32,
    }
}

fn step(instr: BlockInstr, info: &mut NodeInfo, rng: &mut StdRng, flag: &mut bool, pure: &Vec<String>) -> Option<BlockInstr> {
    work(instr, info, rng, flag, pure, float_arith, float_comp, convert)
}

fn with_param(rng: &mut StdRng, name: &str) -> NodeInfo {
    let mut info = NodeInfo::new();
    let n = Number::new(rng);
    info.set_number(temp(name, VarType::I32), n.clone());
    info.set_value(n, t(name));
    info
}

#[test]
fn repeated_expression_is_dropped() {
    let mut rng = StdRng::seed_from_u64(1);
    let mut info = with_param(&mut rng, "x");
    let mut flag = false;
    let pure = vec![];
    let first = step(add("a", t("x"), Value::Int(1)), &mut info, &mut rng, &mut flag, &pure);
    assert!(first.is_some());
    assert!(!flag);
    let second = step(add("b", Value::Int(1), t("x")), &mut info, &mut rng, &mut flag, &pure);
    assert!(second.is_none());
    assert!(flag);
    let uses_b = step(other(OtherKind::Ret, vec![t("b")], None, None), &mut info, &mut rng, &mut flag, &pure).unwrap();
    match uses_b {
        BlockInstr::Other(o) => assert_eq!(o.reads, vec![t("a")]),
        _ => panic!("expected the return"),
    }
}

#[test]
fn constants_are_folded_into_uses() {
    let mut rng = StdRng::seed_from_u64(2);
    let mut info = with_param(&mut rng, "x");
    let mut flag = false;
    let pure = vec![];
    assert!(step(add("c", Value::Int(2), Value::Int(3)), &mut info, &mut rng, &mut flag, &pure).is_none());
    let d = step(add("d", t("c"), t("x")), &mut info, &mut rng, &mut flag, &pure).unwrap();
    match d {
        BlockInstr::Arith(a) => {
            assert_eq!(a.lhs, Value::Int(5));
            assert_eq!(a.rhs, t("x"));
        },
        _ => panic!("expected the sum"),
    }
    let cmp = other(OtherKind::Comp(CompOp::SLT), vec![Value::Int(2), Value::Int(3)], Some(temp("p", VarType::I32)), None);
    assert!(step(cmp, &mut info, &mut rng, &mut flag, &pure).is_none());
    assert_eq!(info.map_value(&t("p")), Value::Int(1));
}

#[test]
fn pure_calls_and_global_loads_are_shared() {
    let mut rng = StdRng::seed_from_u64(3);
    let mut info = with_param(&mut rng, "x");
    let mut flag = false;
    let pure = vec!["sq".to_string()];
    let call1 = other(OtherKind::Call, vec![t("x")], Some(temp("s1", VarType::I32)), Some("sq"));
    let call2 = other(OtherKind::Call, vec![t("x")], Some(temp("s2", VarType::I32)), Some("sq"));
    assert!(step(call1, &mut info, &mut rng, &mut flag, &pure).is_some());
    assert!(step(call2, &mut info, &mut rng, &mut flag, &pure).is_none());
    let impure1 = other(OtherKind::Call, vec![t("x")], Some(temp("r1", VarType::I32)), Some("rand"));
    let impure2 = other(OtherKind::Call, vec![t("x")], Some(temp("r2", VarType::I32)), Some("rand"));
    assert!(step(impure1, &mut info, &mut rng, &mut flag, &pure).is_some());
    assert!(step(impure2, &mut info, &mut rng, &mut flag, &pure).is_some());
    let g = LlvmTemp { name: "g".to_string(), is_global: true, var_type: VarType::I32Ptr };
    let load1 = other(OtherKind::Load, vec![Value::Temp(LlvmTemp { name: "g".to_string(), is_global: true, var_type: VarType::I32Ptr })], Some(temp("l1", VarType::I32)), None);
    let load2 = other(OtherKind::Load, vec![Value::Temp(g)], Some(temp("l2", VarType::I32)), None);
    assert!(step(load1, &mut info, &mut rng, &mut flag, &pure).is_some());
    assert!(step(load2, &mut info, &mut rng, &mut flag, &pure).is_none());
}

#[test]
fn phis_keep_their_operands() {
    let mut rng = StdRng::seed_from_u64(4);
    let mut info = with_param(&mut rng, "x");
    let mut flag = false;
    let pure = vec![];
    let phi = other(OtherKind::Phi, vec![t("x"), t("unknown")], Some(temp("m", VarType::I32)), None);
    match step(phi, &mut info, &mut rng, &mut flag, &pure).unwrap() {
        BlockInstr::Other(o) => assert_eq!(o.reads, vec![t("x"), t("unknown")]),
        _ => panic!("expected the phi"),
    }
    assert!(!flag);
}

#[test]
fn float_constants_fold_through_closures() {
    let mut rng = StdRng::seed_from_u64(5);
    let mut info = NodeInfo::new();
    let mut flag = false;
    let pure = vec![];
    let fadd = BlockInstr::Arith(ArithInstr {
        target: temp("f", VarType::F32),
        op: ArithOp::Fadd,
        var_type: VarType::F32,
        lhs: Value::Float(1.5f32.to_bits()),
        rhs: Value::Float(2.0f32.to_bits()),
    });
    assert!(step(fadd, &mut info, &mut rng, &mut flag, &pure).is_none());
    assert_eq!(info.map_value(&Value::Temp(temp("f", VarType::F32))), Value::Float(3.5f32.to_bits()));
    let conv = other(OtherKind::Convert(ConvertOp::Float2Int), vec![Value::Temp(temp("f", VarType::F32))], Some(temp("i", VarType::I32)), None);
    assert!(step(conv, &mut info, &mut rng, &mut flag, &pure).is_none());
    assert_eq!(info.map_value(&t("i")), Value::Int(3));
}
