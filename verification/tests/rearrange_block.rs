use optimizer::compute_graph::{LlvmTemp, Value, VarType};
use optimizer::ir_ops::ArithOp;
use optimizer::rearrange::ArithInstr;
use optimizer::rearrange_block::{
    rearrange_block, solve, BlockFunc, BlockInstr, BlockProgram, LocalExpressionRearrangement, OtherInstr, OtherKind,
};
use std::collections::HashMap;

fn temp(name: &str) -> LlvmTemp {
    LlvmTemp { name: name.to_string(), is_global: false, var_type: VarType::I32 }
}

fn t(name: &str) -> Value {
    Value::Temp(temp(name))
}

fn arith(target: &str, op: ArithOp, lhs: Value, rhs: Value) -> BlockInstr {
    BlockInstr::Arith(ArithInstr { target: temp(target), op, var_type: VarType::I32, lhs, rhs })
}

fn load(target: &str, addr: Value) -> BlockInstr {
    BlockInstr::Other(OtherInstr { kind: OtherKind::Load, reads: vec![addr], target: Some(temp(target)), callee: None })
}

fn operand(v: &Value, env: &HashMap<String, i32>) -> i32 {
    match v {
        Value::Int(i) => *i,
        Value::Temp(t) => env[&t.name],
        Value::Float(_) => panic!("float operand"),
    }
}

fn run(block: &[BlockInstr], env: &mut HashMap<String, i32>) {
    for i in block {
        match i {
            BlockInstr::Arith(a) => {
                let x = operand(&a.lhs, env);
                let y = operand(&a.rhs, env);
                let r = match a.op {
                    ArithOp::Add => x.wrapping_add(y),
                    ArithOp::Sub => x.wrapping_sub(y),
                    ArithOp::Mul => x.wrapping_mul(y),
                    ArithOp::Div => x.wrapping_div(y),
                    _ => panic!("unexpected operator"),
                };
                env.insert(a.target.name.clone(), r);
            },
            BlockInstr::Other(o) => {
                let r = o.reads.iter().map(|v| operand(v, env)).fold(17i32, |acc, x| acc.wrapping_mul(31).wrapping_add(x));
                if let Some(t) = &o.target {
                    env.insert(t.name.clone(), r);
                }
            },
        }
    }
}

fn sample_block() -> Vec<BlockInstr> {
    vec![
        arith("x", ArithOp::Add, t("a"), Value::Int(2)),
        arith("y", ArithOp::Add, t("x"), t("b")),
        arith("z", ArithOp::Sub, t("y"), t("x")),
        arith("w", ArithOp::Mul, t("x"), t("c")),
        arith("v", ArithOp::Mul, t("w"), Value::Int(3)),
        load("o", t("a")),
        arith("u", ArithOp::Add, t("o"), t("v")),
        arith("d", ArithOp::Div, t("u"), Value::Int(5)),
        arith("s", ArithOp::Sub, Value::Int(1), t("d")),
    ]
}

fn env_abc(a: i32, b: i32, c: i32) -> HashMap<String, i32> {
    let mut env = HashMap::new();
    env.insert("a".to_string(), a);
    env.insert("b".to_string(), b);
    env.insert("c".to_string(), c);
    env
}

#[test]
fn rearranged_block_computes_the_same_values() {
    let names = ["x", "y", "z", "w", "v", "o", "u", "d", "s"];
    let (new_block, next) = rearrange_block(sample_block(), 100);
    assert!(next >= 100);
    for (a, b, c) in [(1, 2, 3), (-7, 40000, 65537), (i32::MAX, i32::MIN, -1)] {
        let mut old_env = env_abc(a, b, c);
        run(&sample_block(), &mut old_env);
        let mut new_env = env_abc(a, b, c);
        run(&new_block, &mut new_env);
        for n in names {
            assert_eq!(old_env[n], new_env[n], "temporary {}", n);
        }
    }
}

#[test]
fn other_instructions_are_kept_in_order() {
    let (new_block, _) = rearrange_block(sample_block(), 0);
    let kinds: Vec<String> = new_block
        .iter()
        .filter_map(|i| match i {
            BlockInstr::Other(o) => Some(format!("{:?}", o.kind)),
            BlockInstr::Arith(a) if a.op == ArithOp::Div => Some("div".to_string()),
            _ => None,
        })
        .collect();
    assert_eq!(kinds, vec!["Load".to_string(), "div".to_string()]);
}

#[test]
fn cancelled_terms_leave_no_instruction_on_them() {
    // z = (a + 2 + b) - (a + 2) flattens to b
    let block = vec![
        arith("x", ArithOp::Add, t("a"), Value::Int(2)),
        arith("y", ArithOp::Add, t("x"), t("b")),
        arith("z", ArithOp::Sub, t("y"), t("x")),
    ];
    let (new_block, _) = rearrange_block(block, 0);
    let last = match new_block.last() {
        Some(BlockInstr::Arith(a)) => a,
        _ => panic!("expected an arithmetic instruction"),
    };
    assert_eq!(last.target.name, "z");
    let mut env = env_abc(5, 9, 0);
    run(&new_block, &mut env);
    assert_eq!(env["z"], 9);
}

#[test]
fn solve_numbers_fresh_temporaries_across_blocks() {
    let mut blocks = vec![sample_block(), sample_block()];
    let (changed, next) = solve(&mut blocks, 10);
    assert!(!changed);
    assert!(next >= 10);
    for block in &blocks {
        let mut old_env = env_abc(3, 4, 5);
        run(&sample_block(), &mut old_env);
        let mut new_env = env_abc(3, 4, 5);
        run(block, &mut new_env);
        assert_eq!(old_env["s"], new_env["s"]);
    }
}

#[test]
fn pass_advances_the_program_counter() {
    let mut program = BlockProgram {
        funcs: vec![BlockFunc { blocks: vec![sample_block()] }, BlockFunc { blocks: vec![] }],
        next_temp: 50,
    };
    let changed = LocalExpressionRearrangement::new().apply(&mut program);
    assert!(!changed);
    assert!(program.next_temp >= 50);
    assert_eq!(program.funcs.len(), 2);
    let mut env = env_abc(2, 3, 4);
    run(&program.funcs[0].blocks[0], &mut env);
    let mut old_env = env_abc(2, 3, 4);
    run(&sample_block(), &mut old_env);
    assert_eq!(env["u"], old_env["u"]);
}
