use optimizer::compute_graph::{LlvmTemp, Value, VarType};
use optimizer::if_combine::{combine_f32, combine_i32, Solver};
use optimizer::ir_ops::{ArithOp, CompOp};
use optimizer::rearrange::ArithInstr;
use optimizer::rearrange_block::{BlockInstr, ConvertOp, OtherInstr, OtherKind};
use std::collections::HashMap;

fn temp(name: &str, var_type: VarType) -> LlvmTemp {
    LlvmTemp { name: name.to_string(), is_global: false, var_type }
}

fn t(name: &str) -> Value {
    Value::Temp(temp(name, VarType::I32))
}

fn int_operand(v: &Value, env: &HashMap<String, i32>) -> i32 {
    match v {
        Value::Int(i) => *i,
        Value::Temp(t) => env[&t.name],
        Value::Float(_) => panic!("float operand"),
    }
}

fn run_i32(instrs: &[ArithInstr], env: &mut HashMap<String, i32>) {
    for a in instrs {
        let x = int_operand(&a.lhs, env);
        let y = int_operand(&a.rhs, env);
        let r = match a.op {
            ArithOp::Add => x.wrapping_add(y),
            ArithOp::Sub => x.wrapping_sub(y),
            ArithOp::And => x & y,
            ArithOp::Or => x | y,
            _ => panic!("unexpected operator"),
        };
        env.insert(a.target.name.clone(), r);
    }
}

#[test]
fn i32_select_picks_by_condition() {
    for (a, b) in [(7, -3), (i32::MAX, i32::MIN), (0, 0), (-1, 1)] {
        for c in [0, 1] {
            let mut instrs = vec![];
            let mut counter = 40u32;
            let r = combine_i32(t("a"), t("b"), &t("c"), &mut instrs, &mut counter);
            assert_eq!(counter, 44);
            assert_eq!(instrs.len(), 4);
            assert_eq!(instrs[0].op, ArithOp::Sub);
            assert_eq!(instrs[2].op, ArithOp::And);
            assert_eq!(r, Value::Temp(temp("43", VarType::I32)));
            let mut env = HashMap::new();
            env.insert("a".to_string(), a);
            env.insert("b".to_string(), b);
            env.insert("c".to_string(), c);
            run_i32(&instrs, &mut env);
            assert_eq!(int_operand(&r, &env), if c == 1 { a } else { b });
        }
    }
}

#[test]
fn f32_select_shape() {
    let mut instrs = vec![];
    let mut counter = 0u32;
    let v1 = Value::Float(2.5f32.to_bits());
    let v2 = Value::Temp(temp("y", VarType::F32));
    let r = combine_f32(v1.clone_value(), v2.clone_value(), &t("c"), &mut instrs, &mut counter);
    assert_eq!(counter, 4);
    assert_eq!(instrs.len(), 4);
    match &instrs[0] {
        BlockInstr::Other(o) => {
            assert_eq!(o.kind, OtherKind::Convert(ConvertOp::Int2Float));
            assert_eq!(o.reads, vec![t("c")]);
            assert_eq!(o.target, Some(temp("0", VarType::F32)));
        },
        _ => panic!("expected the conversion"),
    }
    let ops: Vec<ArithOp> = instrs[1..]
        .iter()
        .map(|i| match i {
            BlockInstr::Arith(a) => a.op,
            _ => panic!("expected arithmetic"),
        })
        .collect();
    assert_eq!(ops, vec![ArithOp::Fsub, ArithOp::Fmul, ArithOp::Fadd]);
    match &instrs[1] {
        BlockInstr::Arith(a) => {
            assert_eq!(a.lhs, v1);
            assert_eq!(a.rhs, v2);
        },
        _ => panic!("expected the difference"),
    }
    assert_eq!(r, Value::Temp(temp("3", VarType::F32)));
}

trait CloneValue {
    fn clone_value(&self) -> Value;
}

impl CloneValue for Value {
    fn clone_value(&self) -> Value {
        match self {
            Value::Int(i) => Value::Int(*i),
            Value::Float(f) => Value::Float(*f),
            Value::Temp(t) => Value::Temp(temp(&t.name, t.var_type)),
        }
    }
}

fn no_fold(a: Value, b: Value, op: ArithOp, n: u32) -> (Value, Option<ArithInstr>, u32) {
    let target = temp(&format!("b{}", n), VarType::I32);
    let instr = ArithInstr { target: temp(&target.name, VarType::I32), op, var_type: VarType::I32, lhs: a, rhs: b };
    (Value::Temp(target), Some(instr), n + 1)
}

#[test]
fn same_operand_needs_no_select() {
    let solver = Solver::new();
    let mut instrs = vec![];
    let mut counter = 3u32;
    let r = solver.combine_value(t("x"), t("x"), &t("c"), &mut instrs, &mut counter, no_fold);
    assert_eq!(r, t("x"));
    assert!(instrs.is_empty());
    assert_eq!(counter, 3);
}

#[test]
fn booleans_are_selected_with_and_or() {
    let mut solver = Solver::new();
    solver.dfs(&vec![vec![BlockInstr::Other(OtherInstr {
        kind: OtherKind::Comp(CompOp::SLT),
        reads: vec![t("x"), t("y")],
        target: Some(temp("p", VarType::I32)),
        callee: None,
    })]]);
    assert!(solver.is_boolean(&t("p")));
    let mut instrs = vec![];
    let mut counter = 0u32;
    let r = solver.combine_value(t("p"), Value::Int(1), &t("c"), &mut instrs, &mut counter, no_fold);
    assert_eq!(instrs.len(), 4);
    match &instrs[0] {
        BlockInstr::Other(o) => {
            assert_eq!(o.kind, OtherKind::Comp(CompOp::EQ));
            assert_eq!(o.reads, vec![t("c"), Value::Int(0)]);
            assert_eq!(o.target, Some(temp("0", VarType::I32)));
        },
        _ => panic!("expected the negated condition"),
    }
    let ariths: Vec<ArithInstr> = instrs[1..]
        .iter()
        .map(|i| match i {
            BlockInstr::Arith(a) => ArithInstr {
                target: temp(&a.target.name, VarType::I32),
                op: a.op,
                var_type: a.var_type,
                lhs: a.lhs.clone_value(),
                rhs: a.rhs.clone_value(),
            },
            _ => panic!("expected arithmetic"),
        })
        .collect();
    for (p, c) in [(0, 0), (0, 1), (1, 0), (1, 1)] {
        let mut env = HashMap::new();
        env.insert("p".to_string(), p);
        env.insert("c".to_string(), c);
        env.insert("0".to_string(), (c == 0) as i32);
        run_i32(&ariths, &mut env);
        assert_eq!(int_operand(&r, &env), if c == 1 { p } else { 1 });
    }
}

#[test]
fn dfs_marks_comparisons_and_boolean_logic() {
    let mut solver = Solver::new();
    let blocks = vec![
        vec![
            BlockInstr::Other(OtherInstr {
                kind: OtherKind::Comp(CompOp::EQ),
                reads: vec![t("x"), Value::Int(0)],
                target: Some(temp("p", VarType::I32)),
                callee: None,
            }),
            BlockInstr::Arith(ArithInstr { target: temp("q", VarType::I32), op: ArithOp::And, var_type: VarType::I32, lhs: t("p"), rhs: Value::Int(1) }),
            BlockInstr::Arith(ArithInstr { target: temp("w", VarType::I32), op: ArithOp::And, var_type: VarType::I32, lhs: t("p"), rhs: t("x") }),
        ],
        vec![BlockInstr::Arith(ArithInstr { target: temp("z", VarType::I32), op: ArithOp::Xor, var_type: VarType::I32, lhs: t("q"), rhs: t("p") })],
    ];
    solver.dfs(&blocks);
    assert!(solver.is_boolean(&t("p")));
    assert!(solver.is_boolean(&t("q")));
    assert!(solver.is_boolean(&t("z")));
    assert!(!solver.is_boolean(&t("w")));
    assert!(!solver.is_boolean(&t("x")));
    assert!(solver.is_boolean(&Value::Int(0)));
    assert!(!solver.is_boolean(&Value::Int(2)));
}

fn store(addr: Value, value: Value) -> BlockInstr {
    BlockInstr::Other(OtherInstr { kind: OtherKind::Store, reads: vec![addr, value], target: None, callee: None })
}

fn call(name: &str, args: Vec<Value>) -> BlockInstr {
    BlockInstr::Other(OtherInstr { kind: OtherKind::Call, reads: args, target: None, callee: Some(name.to_string()) })
}

fn plain(target: &str, lhs: Value) -> BlockInstr {
    BlockInstr::Arith(ArithInstr { target: temp(target, VarType::I32), op: ArithOp::Add, var_type: VarType::I32, lhs, rhs: Value::Int(1) })
}

fn same_value(a: Value, b: Value) -> bool {
    a == b
}

#[test]
fn stores_to_one_address_merge() {
    let solver = Solver::new();
    let t_branch = vec![plain("u", t("x")), store(t("p"), t("u"))];
    let f_branch = vec![plain("w", t("y")), store(t("p"), t("w"))];
    let mut counter = 100u32;
    let r = solver.merge_branches(&t_branch, &f_branch, &t("c"), &mut counter, same_value, no_fold).unwrap();
    assert_eq!(r.len(), 7);
    assert!(matches!(&r[0], BlockInstr::Arith(a) if a.target.name == "u"));
    assert!(matches!(&r[1], BlockInstr::Arith(a) if a.target.name == "w"));
    match &r[6] {
        BlockInstr::Other(o) => {
            assert_eq!(o.kind, OtherKind::Store);
            assert_eq!(o.reads, vec![t("p"), Value::Temp(temp("103", VarType::I32))]);
        },
        _ => panic!("expected the store"),
    }
    assert_eq!(counter, 104);
}

#[test]
fn unmatched_side_effects_do_not_merge() {
    let solver = Solver::new();
    let mut counter = 0u32;
    let r = solver.merge_branches(&vec![store(t("p"), t("x"))], &vec![store(t("q"), t("y"))], &t("c"), &mut counter, same_value, no_fold);
    assert!(r.is_none());
    let r = solver.merge_branches(&vec![store(t("p"), t("x"))], &vec![call("f", vec![])], &t("c"), &mut counter, same_value, no_fold);
    assert!(r.is_none());
    let r = solver.merge_branches(&vec![store(t("p"), t("x"))], &vec![plain("z", t("y"))], &t("c"), &mut counter, same_value, no_fold);
    assert!(r.is_none());
    let r = solver.merge_branches(&vec![call("f", vec![t("x")])], &vec![call("g", vec![t("x")])], &t("c"), &mut counter, same_value, no_fold);
    assert!(r.is_none());
}

#[test]
fn calls_of_one_function_merge() {
    let solver = Solver::new();
    let mut counter = 0u32;
    let r = solver
        .merge_branches(&vec![call("f", vec![t("x"), Value::Int(2)])], &vec![call("f", vec![t("x"), Value::Int(3)])], &t("c"), &mut counter, same_value, no_fold)
        .unwrap();
    assert_eq!(r.len(), 5);
    match &r[4] {
        BlockInstr::Other(o) => {
            assert_eq!(o.kind, OtherKind::Call);
            assert_eq!(o.callee, Some("f".to_string()));
            assert_eq!(o.reads, vec![t("x"), Value::Temp(temp("3", VarType::I32))]);
        },
        _ => panic!("expected the call"),
    }
    let r = solver.merge_branches(&vec![], &vec![plain("z", t("y"))], &t("c"), &mut counter, same_value, no_fold).unwrap();
    assert_eq!(r.len(), 1);
}
