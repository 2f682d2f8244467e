use optimizer::compute_graph::{GraphOp, GraphValue, LlvmTemp, Single, Value, VarType};
use optimizer::emit::build_instr;
use optimizer::ir_ops::ArithOp;
use optimizer::rearrange::ArithInstr;
use std::collections::HashMap;

fn temp(name: &str) -> LlvmTemp {
    LlvmTemp { name: name.to_string(), is_global: false, var_type: VarType::I32 }
}

fn leaf(name: &str) -> GraphValue {
    GraphValue::Single(Single::Temp(temp(name)))
}

fn lit(i: i32) -> GraphValue {
    GraphValue::Single(Single::Int(i))
}

fn plus(v: Vec<GraphValue>) -> GraphValue {
    GraphValue::NonTrival((GraphOp::Plus, v))
}

fn mul(v: Vec<GraphValue>) -> GraphValue {
    GraphValue::NonTrival((GraphOp::Mul, v))
}

fn operand(v: &Value, env: &HashMap<String, i32>) -> i32 {
    match v {
        Value::Int(i) => *i,
        Value::Temp(t) => env[&t.name],
        Value::Float(_) => panic!("float operand"),
    }
}

fn run(instrs: &[ArithInstr], env: &mut HashMap<String, i32>) {
    for i in instrs {
        let a = operand(&i.lhs, env);
        let b = operand(&i.rhs, env);
        let r = match i.op {
            ArithOp::Add => a.wrapping_add(b),
            ArithOp::Sub => a.wrapping_sub(b),
            ArithOp::Mul => a.wrapping_mul(b),
            _ => panic!("unexpected operator"),
        };
        env.insert(i.target.name.clone(), r);
    }
}

fn shape(i: &ArithInstr) -> (String, ArithOp, String, String) {
    let show = |v: &Value| match v {
        Value::Int(i) => format!("{}", i),
        Value::Temp(t) => format!("%{}", t.name),
        Value::Float(_) => "float".to_string(),
    };
    (i.target.name.clone(), i.op, show(&i.lhs), show(&i.rhs))
}

fn env_of(pairs: &[(&str, i32)]) -> HashMap<String, i32> {
    pairs.iter().map(|(n, v)| (n.to_string(), *v)).collect()
}

fn built(value: GraphValue, first_temp: u32) -> (Vec<ArithInstr>, u32) {
    let mut out = Vec::new();
    let mut next = first_temp;
    build_instr(value, &mut next, &mut out, temp("t"));
    (out, next)
}

#[test]
fn literal_is_copied_into_target() {
    let (out, next) = built(lit(7), 0);
    assert_eq!(next, 0);
    let shapes: Vec<_> = out.iter().map(shape).collect();
    assert_eq!(shapes, vec![("t".to_string(), ArithOp::Add, "7".to_string(), "0".to_string())]);
}

#[test]
fn sum_groups_operands_by_factor() {
    // b + 3a + 3c becomes (a + c) * 3 + b
    let value = plus(vec![mul(vec![lit(3), leaf("a")]), leaf("b"), mul(vec![lit(3), leaf("c")])]);
    let (out, next) = built(value, 0);
    assert_eq!(next, 3);
    let shapes: Vec<_> = out.iter().map(shape).collect();
    assert_eq!(
        shapes,
        vec![
            ("0".to_string(), ArithOp::Add, "%a".to_string(), "%c".to_string()),
            ("1".to_string(), ArithOp::Mul, "%0".to_string(), "3".to_string()),
            ("t".to_string(), ArithOp::Add, "%b".to_string(), "%1".to_string()),
        ]
    );
    let mut env = env_of(&[("a", 5), ("b", -4), ("c", 11)]);
    run(&out, &mut env);
    assert_eq!(env["t"], 3 * 5 - 4 + 3 * 11);
}

#[test]
fn negative_factors_are_subtracted() {
    // -2a - 2b becomes 0 - (a + b) * 2
    let value = plus(vec![mul(vec![lit(-2), leaf("a")]), mul(vec![leaf("b"), lit(-2)])]);
    let (out, _) = built(value, 10);
    let shapes: Vec<_> = out.iter().map(shape).collect();
    assert_eq!(
        shapes,
        vec![
            ("10".to_string(), ArithOp::Add, "%a".to_string(), "%b".to_string()),
            ("11".to_string(), ArithOp::Mul, "%10".to_string(), "2".to_string()),
            ("t".to_string(), ArithOp::Sub, "0".to_string(), "%11".to_string()),
        ]
    );
    let mut env = env_of(&[("a", 9), ("b", 4)]);
    run(&out, &mut env);
    assert_eq!(env["t"], -26);
}

#[test]
fn equal_factors_are_built_once() {
    let s = || plus(vec![leaf("a"), leaf("b")]);
    let (out, next) = built(mul(vec![s(), s()]), 0);
    assert_eq!(next, 2);
    assert_eq!(out.len(), 2);
    let mut env = env_of(&[("a", 3), ("b", 4)]);
    run(&out, &mut env);
    assert_eq!(env["t"], 49);
}

#[test]
fn built_code_wraps_like_i32() {
    let value = plus(vec![mul(vec![leaf("a"), leaf("a"), lit(4)]), leaf("b"), lit(-7), mul(vec![lit(2), leaf("b")])]);
    let (out, _) = built(value, 0);
    let mut env = env_of(&[("a", 40000), ("b", i32::MAX)]);
    run(&out, &mut env);
    let a: i32 = 40000;
    let b: i32 = i32::MAX;
    let want = a.wrapping_mul(a).wrapping_mul(4).wrapping_add(b).wrapping_sub(7).wrapping_add(b.wrapping_mul(2));
    assert_eq!(env["t"], want);
}

#[test]
fn temporary_written_last_is_retargeted() {
    let mut out = vec![ArithInstr {
        target: temp("x"),
        op: ArithOp::Mul,
        var_type: VarType::I32,
        lhs: Value::Temp(temp("a")),
        rhs: Value::Int(6),
    }];
    let mut next = 0;
    build_instr(leaf("x"), &mut next, &mut out, temp("t"));
    let shapes: Vec<_> = out.iter().map(shape).collect();
    assert_eq!(shapes, vec![("t".to_string(), ArithOp::Mul, "%a".to_string(), "6".to_string())]);
}

#[test]
fn nested_sum_in_product() {
    // (2a + 2b) * c
    let value = mul(vec![plus(vec![mul(vec![lit(2), leaf("a")]), mul(vec![lit(2), leaf("b")])]), leaf("c")]);
    let (out, _) = built(value, 0);
    let mut env = env_of(&[("a", 1), ("b", 2), ("c", -5)]);
    run(&out, &mut env);
    assert_eq!(env["t"], -30);
}
