use optimizer::arith_pass::{sovle_bb, ArithSimplify, SolveError};
use optimizer::compute_graph::{LlvmTemp, Value, VarType};
use optimizer::ir_ops::{ArithOp, CompOp};
use optimizer::rearrange::ArithInstr;
use optimizer::rearrange_block::{BlockFunc, BlockInstr, BlockProgram, OtherInstr, OtherKind};
use std::collections::HashMap;

fn temp(name: &str) -> LlvmTemp {
    LlvmTemp { name: name.to_string(), is_global: false, var_type: VarType::I32 }
}

fn t(name: &str) -> Value {
    Value::Temp(temp(name))
}

fn arith(target: &str, op: ArithOp, lhs: Value, rhs: Value) -> BlockInstr {
    BlockInstr::Arith(ArithInstr { target: temp(target), op, var_type: VarType::I32, lhs, rhs })
}

fn comp(target: &str, op: CompOp, lhs: Value, rhs: Value) -> BlockInstr {
    BlockInstr::Other(OtherInstr { kind: OtherKind::Comp(op), reads: vec![lhs, rhs], target: Some(temp(target)), callee: None })
}

fn ret(v: Value) -> BlockInstr {
    BlockInstr::Other(OtherInstr { kind: OtherKind::Ret, reads: vec![v], target: None, callee: None })
}

fn operand(v: &Value, env: &HashMap<String, i32>) -> i32 {
    match v {
        Value::Int(i) => *i,
        Value::Temp(t) => env[&t.name],
        Value::Float(_) => panic!("float operand"),
    }
}

/// Runs a block; a comparison stores 1 or 0, `ret` stores its operand under "ret".
fn run(block: &[BlockInstr], env: &mut HashMap<String, i32>) {
    for i in block {
        match i {
            BlockInstr::Arith(a) => {
                let x = operand(&a.lhs, env);
                let y = operand(&a.rhs, env);
                let r = match a.op {
                    ArithOp::Add => x.wrapping_add(y),
                    ArithOp::Sub => x.wrapping_sub(y),
                    ArithOp::Mul => x.wrapping_mul(y),
                    ArithOp::Div => x.wrapping_div(y),
                    _ => panic!("unexpected operator"),
                };
                env.insert(a.target.name.clone(), r);
            },
            BlockInstr::Other(o) => match o.kind {
                OtherKind::Comp(op) => {
                    let x = operand(&o.reads[0], env);
                    let y = operand(&o.reads[1], env);
                    let r = match op {
                        CompOp::SLT => x < y,
                        CompOp::EQ => x == y,
                        _ => panic!("unexpected comparison"),
                    };
                    env.insert(o.target.as_ref().unwrap().name.clone(), r as i32);
                },
                OtherKind::Ret => {
                    let r = operand(&o.reads[0], env);
                    env.insert("ret".to_string(), r);
                },
                _ => panic!("unexpected instruction"),
            },
        }
    }
}

fn result_of(block: &[BlockInstr], x: i32, y: i32) -> i32 {
    let mut env = HashMap::new();
    env.insert("x".to_string(), x);
    env.insert("y".to_string(), y);
    run(block, &mut env);
    env["ret"]
}

#[test]
fn absorbs_single_use_temporary() {
    let old = vec![
        arith("a", ArithOp::Add, t("x"), Value::Int(1)),
        arith("b", ArithOp::Add, t("a"), Value::Int(2)),
        comp("c", CompOp::SLT, t("b"), t("y")),
        ret(t("c")),
    ];
    let mut block = vec![
        arith("a", ArithOp::Add, t("x"), Value::Int(1)),
        arith("b", ArithOp::Add, t("a"), Value::Int(2)),
        comp("c", CompOp::SLT, t("b"), t("y")),
        ret(t("c")),
    ];
    let mut counter = 0u32;
    let r = sovle_bb(&mut block, &vec![], &mut counter);
    assert!(matches!(r, Ok(false)));
    assert_eq!(block.len(), 3);
    match &block[0] {
        BlockInstr::Arith(a) => {
            assert_eq!(a.target.name, "b");
            assert_eq!(a.op, ArithOp::Add);
            let ops = [&a.lhs, &a.rhs];
            assert!(ops.iter().any(|v| **v == Value::Int(3)));
            assert!(ops.iter().any(|v| **v == t("x")));
        },
        _ => panic!("expected the rebuilt sum"),
    }
    assert!(matches!(&block[1], BlockInstr::Other(o) if o.kind == OtherKind::Comp(CompOp::SLT)));
    for (x, y) in [(0, 0), (5, 9), (5, 8), (-4, -1), (i32::MAX, 0)] {
        assert_eq!(result_of(&block, x, y), result_of(&old, x, y));
    }
}

#[test]
fn comparison_drops_common_operand() {
    let old = vec![
        arith("a", ArithOp::Add, t("x"), t("y")),
        comp("c", CompOp::SLT, t("a"), t("x")),
        ret(t("c")),
    ];
    let mut block = vec![
        arith("a", ArithOp::Add, t("x"), t("y")),
        comp("c", CompOp::SLT, t("a"), t("x")),
        ret(t("c")),
    ];
    let mut counter = 0u32;
    let r = sovle_bb(&mut block, &vec![temp("a")], &mut counter);
    assert!(matches!(r, Ok(false)));
    assert_eq!(block.len(), 3);
    match &block[1] {
        BlockInstr::Other(o) => {
            assert_eq!(o.kind, OtherKind::Comp(CompOp::SLT));
            assert_eq!(o.target, Some(temp("c")));
            assert_eq!(o.reads, vec![t("y"), Value::Int(0)]);
        },
        _ => panic!("expected the comparison"),
    }
    for (x, y) in [(0, 0), (5, -1), (5, 1), (-4, -1)] {
        assert_eq!(result_of(&block, x, y), result_of(&old, x, y));
    }
}

#[test]
fn longer_block_is_an_error() {
    let mut block = vec![
        arith("a", ArithOp::Mul, t("x"), t("y")),
        arith("b", ArithOp::Mul, t("a"), t("a")),
        ret(t("b")),
    ];
    let mut counter = 0u32;
    let r = sovle_bb(&mut block, &vec![], &mut counter);
    assert!(matches!(r, Err(SolveError::BlockGrew { old_len: 3, new_len: 4 })));
    assert_eq!(block.len(), 3);
    assert!(matches!(&block[1], BlockInstr::Arith(a) if a.target.name == "b" && a.op == ArithOp::Mul));
}

#[test]
fn non_exact_division_is_kept() {
    let mut block = vec![
        arith("a", ArithOp::Div, t("x"), Value::Int(2)),
        ret(t("a")),
    ];
    let mut counter = 7u32;
    let r = sovle_bb(&mut block, &vec![], &mut counter);
    assert!(matches!(r, Ok(false)));
    assert_eq!(counter, 7);
    assert_eq!(block.len(), 2);
    assert!(matches!(&block[1], BlockInstr::Other(o) if o.kind == OtherKind::Ret && o.reads == vec![t("a")]));
}

#[test]
fn pass_simplifies_every_block() {
    let mut program = BlockProgram {
        funcs: vec![
            BlockFunc {
                blocks: vec![vec![
                    arith("a", ArithOp::Add, t("x"), Value::Int(1)),
                    arith("b", ArithOp::Add, t("a"), Value::Int(2)),
                    ret(t("b")),
                ]],
            },
            BlockFunc { blocks: vec![vec![ret(Value::Int(0))], vec![]] },
        ],
        next_temp: 10,
    };
    let r = ArithSimplify::new().apply(&mut program, &vec![]);
    assert!(matches!(r, Ok(false)));
    assert!(program.next_temp >= 10);
    assert_eq!(program.funcs[0].blocks[0].len(), 2);
    assert_eq!(result_of(&program.funcs[0].blocks[0], 4, 0), 7);
    assert_eq!(program.funcs[1].blocks.len(), 2);
    assert_eq!(program.funcs[1].blocks[0].len(), 1);
}

#[test]
fn pass_reports_where_a_block_grew() {
    let mut program = BlockProgram {
        funcs: vec![
            BlockFunc { blocks: vec![vec![ret(Value::Int(0))]] },
            BlockFunc {
                blocks: vec![
                    vec![ret(Value::Int(1))],
                    vec![
                        arith("a", ArithOp::Mul, t("x"), t("y")),
                        arith("b", ArithOp::Mul, t("a"), t("a")),
                        ret(t("b")),
                    ],
                ],
            },
        ],
        next_temp: 0,
    };
    let r = ArithSimplify::new().apply(&mut program, &vec![]);
    match r {
        Err(e) => {
            assert_eq!(e.func, 1);
            assert_eq!(e.block, 1);
            assert!(matches!(e.error, SolveError::BlockGrew { old_len: 3, new_len: 4 }));
        },
        Ok(_) => panic!("expected an error"),
    }
    assert_eq!(program.funcs[1].blocks[1].len(), 3);
    assert_eq!(program.funcs[1].blocks[0].len(), 1);
}
