use optimizer::compute_graph::{LlvmTemp, Value, VarType};
use optimizer::fold_constants::{fold_block, FoldConstants};
use optimizer::ir_ops::ArithOp;
use optimizer::rearrange::ArithInstr;
use optimizer::rearrange_block::{BlockFunc, BlockInstr, BlockProgram, ConvertOp, OtherInstr, OtherKind};
use std::collections::HashMap;

fn temp(name: &str) -> LlvmTemp {
    LlvmTemp { name: name.to_string(), is_global: false, var_type: VarType::I32 }
}

fn t(name: &str) -> Value {
    Value::Temp(temp(name))
}

fn arith(target: &str, op: ArithOp, lhs: Value, rhs: Value) -> BlockInstr {
    BlockInstr::Arith(ArithInstr { target: temp(target), op, var_type: VarType::I32, lhs, rhs })
}

fn convert(target: &str, op: ConvertOp, v: Value) -> BlockInstr {
    BlockInstr::Other(OtherInstr { kind: OtherKind::Convert(op), reads: vec![v], target: Some(temp(target)), callee: None })
}

fn int_to_float(t: i32) -> u32 {
    (t as f32).to_bits()
}

fn float_to_int(b: u32) -> i32 {
    f32::from_bits(b) as i32
}

fn show(i: &BlockInstr) -> String {
    let v = |v: &Value| match v {
        Value::Int(i) => format!("{}", i),
        Value::Float(b) => format!("{}f", f32::from_bits(*b)),
        Value::Temp(t) => format!("%{}", t.name),
    };
    match i {
        BlockInstr::Arith(a) => format!("{} = {} {:?} {}", a.target.name, v(&a.lhs), a.op, v(&a.rhs)),
        BlockInstr::Other(o) => format!("{:?}", o.kind),
    }
}

fn run(block: &[BlockInstr], env: &mut HashMap<String, i32>) {
    let operand = |v: &Value, env: &HashMap<String, i32>| match v {
        Value::Int(i) => *i,
        Value::Temp(t) => env[&t.name],
        Value::Float(_) => panic!("float operand"),
    };
    for i in block {
        if let BlockInstr::Arith(a) = i {
            let x = operand(&a.lhs, env);
            let y = operand(&a.rhs, env);
            let r = match a.op {
                ArithOp::Add => x.wrapping_add(y),
                ArithOp::Sub => x.wrapping_sub(y),
                ArithOp::Mul => x.wrapping_mul(y),
                _ => panic!("unexpected operator"),
            };
            env.insert(a.target.name.clone(), r);
        }
    }
}

#[test]
fn literals_fold_through_chains() {
    let block = vec![
        arith("x", ArithOp::Add, Value::Int(3), Value::Int(4)),
        arith("y", ArithOp::Add, t("x"), Value::Int(5)),
        arith("z", ArithOp::Sub, Value::Int(10), t("y")),
        arith("w", ArithOp::Sub, t("y"), Value::Int(2)),
        convert("c", ConvertOp::Int2Float, Value::Int(7)),
        convert("d", ConvertOp::Float2Int, Value::Float(2.5f32.to_bits())),
    ];
    let out = fold_block(block, &int_to_float, &float_to_int);
    let shapes: Vec<String> = out.iter().map(show).collect();
    assert_eq!(
        shapes,
        vec![
            "x = 7 Add 0".to_string(),
            "y = 7 Add 5".to_string(),
            "z = 5 Sub 7".to_string(),
            "w = 7 Sub -3".to_string(),
            "c = 7f Fadd 0f".to_string(),
            "d = 2 Add 0".to_string(),
        ]
    );
}

#[test]
fn folded_block_computes_the_same_values() {
    let block = || {
        vec![
            arith("x", ArithOp::Add, t("a"), Value::Int(3)),
            arith("y", ArithOp::Add, Value::Int(4), t("x")),
            arith("z", ArithOp::Sub, t("y"), Value::Int(10)),
            arith("u", ArithOp::Sub, Value::Int(5), t("z")),
            arith("m", ArithOp::Mul, t("u"), t("x")),
            arith("v", ArithOp::Add, t("m"), Value::Int(-1)),
        ]
    };
    let out = fold_block(block(), &int_to_float, &float_to_int);
    assert_eq!(show(&out[2]), "z = %a Sub 3");
    for a in [0, 17, -40000, i32::MAX, i32::MIN] {
        let mut old_env = HashMap::new();
        old_env.insert("a".to_string(), a);
        let mut new_env = old_env.clone();
        run(&block(), &mut old_env);
        run(&out, &mut new_env);
        assert_eq!(old_env, new_env);
    }
}

#[test]
fn other_instructions_are_kept() {
    let block = vec![
        arith("x", ArithOp::Mul, t("a"), Value::Int(3)),
        BlockInstr::Other(OtherInstr { kind: OtherKind::Load, reads: vec![t("p")], target: Some(temp("l")), callee: None }),
        convert("c", ConvertOp::Int2Float, t("a")),
    ];
    let out = fold_block(block, &int_to_float, &float_to_int);
    let shapes: Vec<String> = out.iter().map(show).collect();
    assert_eq!(shapes, vec!["x = %a Mul 3".to_string(), "Load".to_string(), "Convert(Int2Float)".to_string()]);
}

#[test]
fn pass_folds_every_block() {
    let mut program = BlockProgram {
        funcs: vec![BlockFunc {
            blocks: vec![
                vec![arith("x", ArithOp::Add, Value::Int(1), Value::Int(2))],
                vec![arith("y", ArithOp::Sub, Value::Int(1), Value::Int(2))],
            ],
        }],
        next_temp: 9,
    };
    let changed = FoldConstants::new().apply(&mut program, &int_to_float, &float_to_int);
    assert!(!changed);
    assert_eq!(program.next_temp, 9);
    assert_eq!(show(&program.funcs[0].blocks[0][0]), "x = 3 Add 0");
    assert_eq!(show(&program.funcs[0].blocks[1][0]), "y = -1 Add 0");
}
