use optimizer::compute_graph::{LlvmTemp, Value, VarType};
use optimizer::ir_ops::ArithOp;
use optimizer::rearrange::{
    add_addicative_tree, add_expression_tree, add_multiplitive_tree, get_arith_type, get_neg, get_op_for_lhs,
    ArithInstr, ArithType,
};
use std::collections::HashMap;

fn temp(name: &str) -> LlvmTemp {
    LlvmTemp { name: name.to_string(), is_global: false, var_type: VarType::I32 }
}

fn t(name: &str) -> Value {
    Value::Temp(temp(name))
}

fn operand(v: &Value, env: &HashMap<String, i32>) -> i32 {
    match v {
        Value::Int(i) => *i,
        Value::Temp(t) => env[&t.name],
        Value::Float(_) => panic!("float operand"),
    }
}

fn run(instrs: &[ArithInstr], env: &mut HashMap<String, i32>) {
    for i in instrs {
        let a = operand(&i.lhs, env);
        let b = operand(&i.rhs, env);
        let r = match i.op {
            ArithOp::Add => a.wrapping_add(b),
            ArithOp::Sub => a.wrapping_sub(b),
            ArithOp::Mul => a.wrapping_mul(b),
            _ => panic!("unexpected operator"),
        };
        env.insert(i.target.name.clone(), r);
    }
}

fn shape(i: &ArithInstr) -> (String, ArithOp, String, String) {
    let show = |v: &Value| match v {
        Value::Int(i) => format!("{}", i),
        Value::Temp(t) => format!("%{}", t.name),
        Value::Float(_) => "float".to_string(),
    };
    (i.target.name.clone(), i.op, show(&i.lhs), show(&i.rhs))
}

fn env_abc() -> HashMap<String, i32> {
    let mut env = HashMap::new();
    env.insert("a".to_string(), 7);
    env.insert("b".to_string(), -11);
    env.insert("c".to_string(), i32::MAX);
    env.insert("x".to_string(), 123);
    env
}

#[test]
fn additive_tree_is_balanced_and_folds_literals() {
    let info = vec![
        (ArithOp::Add, Value::Int(2)),
        (ArithOp::Add, t("a")),
        (ArithOp::Add, t("c")),
        (ArithOp::Add, Value::Int(3)),
        (ArithOp::Add, t("b")),
        (ArithOp::Add, Value::Int(4)),
    ];
    let mut out = Vec::new();
    let next = add_addicative_tree(100, &mut out, temp("t"), &info, VarType::I32);
    assert_eq!(next, 102);
    let shapes: Vec<_> = out.iter().map(shape).collect();
    assert_eq!(
        shapes,
        vec![
            ("100".to_string(), ArithOp::Add, "%c".to_string(), "9".to_string()),
            ("101".to_string(), ArithOp::Add, "%a".to_string(), "%b".to_string()),
            ("t".to_string(), ArithOp::Add, "%100".to_string(), "%101".to_string()),
        ]
    );
    let mut env = env_abc();
    run(&out, &mut env);
    assert_eq!(env["t"], 9i32.wrapping_add(7).wrapping_add(-11).wrapping_add(i32::MAX));
}

#[test]
fn additive_tree_cancels_equal_temporaries() {
    let info = vec![(ArithOp::Add, t("x")), (ArithOp::Sub, t("x")), (ArithOp::Sub, Value::Int(1))];
    let mut out = Vec::new();
    let next = add_addicative_tree(5, &mut out, temp("t"), &info, VarType::I32);
    assert_eq!(next, 5);
    assert_eq!(out.len(), 1);
    assert_eq!(shape(&out[0]), ("t".to_string(), ArithOp::Add, "0".to_string(), "-1".to_string()));
}

#[test]
fn additive_tree_with_subtractions() {
    let info = vec![(ArithOp::Sub, t("a")), (ArithOp::Sub, t("b")), (ArithOp::Add, t("c")), (ArithOp::Sub, t("x"))];
    let mut out = Vec::new();
    let next = add_addicative_tree(0, &mut out, temp("t"), &info, VarType::I32);
    assert_eq!(out.len() as u32, next + 1);
    let mut env = env_abc();
    run(&out, &mut env);
    assert_eq!(env["t"], i32::MAX.wrapping_sub(7).wrapping_add(11).wrapping_sub(123));
    let info = vec![(ArithOp::Sub, t("a")), (ArithOp::Sub, t("b"))];
    let mut out = Vec::new();
    add_addicative_tree(0, &mut out, temp("t"), &info, VarType::I32);
    let mut env = env_abc();
    run(&out, &mut env);
    assert_eq!(env["t"], -7 + 11);
}

#[test]
fn multiplicative_tree() {
    let info = vec![(ArithOp::Mul, t("b")), (ArithOp::Mul, Value::Int(3)), (ArithOp::Mul, t("a"))];
    let mut out = Vec::new();
    let next = add_multiplitive_tree(40, &mut out, temp("t"), &info, VarType::I32);
    assert_eq!(next, 41);
    let shapes: Vec<_> = out.iter().map(shape).collect();
    assert_eq!(
        shapes,
        vec![
            ("40".to_string(), ArithOp::Mul, "%a".to_string(), "%b".to_string()),
            ("t".to_string(), ArithOp::Mul, "%40".to_string(), "3".to_string()),
        ]
    );
    let mut env = env_abc();
    run(&out, &mut env);
    assert_eq!(env["t"], 7 * -11 * 3);

    let mut out = Vec::new();
    add_multiplitive_tree(0, &mut out, temp("t"), &vec![(ArithOp::Mul, t("a")), (ArithOp::Mul, Value::Int(0))], VarType::I32);
    assert_eq!(shape(&out[0]), ("t".to_string(), ArithOp::Add, "0".to_string(), "0".to_string()));

    let mut out = Vec::new();
    add_multiplitive_tree(0, &mut out, temp("t"), &vec![(ArithOp::Mul, t("b")), (ArithOp::Mul, t("a"))], VarType::I32);
    assert_eq!(shape(&out[0]), ("t".to_string(), ArithOp::Mul, "%a".to_string(), "%b".to_string()));

    let mut out = Vec::new();
    add_multiplitive_tree(0, &mut out, temp("t"), &vec![(ArithOp::Mul, Value::Int(6)), (ArithOp::Mul, Value::Int(7))], VarType::I32);
    assert_eq!(shape(&out[0]), ("t".to_string(), ArithOp::Mul, "1".to_string(), "42".to_string()));
}

#[test]
fn expression_tree_dispatch_and_helpers() {
    let mut out = Vec::new();
    let info = vec![(ArithOp::Mul, t("a")), (ArithOp::Mul, t("b")), (ArithOp::Mul, t("c")), (ArithOp::Mul, t("x"))];
    let next = add_expression_tree(7, &mut out, temp("t"), VarType::I32, ArithType::Multiplitive, &info);
    assert_eq!(next, 9);
    let mut env = env_abc();
    run(&out, &mut env);
    assert_eq!(env["t"], 7i32.wrapping_mul(-11).wrapping_mul(i32::MAX).wrapping_mul(123));
    assert_eq!(get_op_for_lhs(ArithOp::Sub), ArithOp::Add);
    assert_eq!(get_op_for_lhs(ArithOp::Mul), ArithOp::Mul);
    assert_eq!(get_neg(ArithOp::Add), ArithOp::Sub);
    assert_eq!(get_neg(ArithOp::Sub), ArithOp::Add);
    assert_eq!(get_arith_type(&ArithOp::Mul), ArithType::Multiplitive);
    assert_eq!(get_arith_type(&ArithOp::Sub), ArithType::Addicative);
}
