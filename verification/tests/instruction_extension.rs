use optimizer::compute_graph::{LlvmTemp, Value, VarType};
use optimizer::instruction_extension::{phis_to_selects, PhiPair};
use optimizer::ir_ops::{ArithOp, CompOp};

fn temp(name: &str) -> LlvmTemp {
    LlvmTemp { name: name.to_string(), is_global: false, var_type: VarType::I32 }
}

fn t(name: &str) -> Value {
    Value::Temp(temp(name))
}

fn phi(target: &str, on_true: Value, on_false: Value) -> PhiPair {
    PhiPair { target: temp(target), on_true, on_false }
}

fn ops(r: &Option<Vec<optimizer::rearrange::ArithInstr>>) -> Vec<ArithOp> {
    r.as_ref().unwrap().iter().map(|i| i.op).collect()
}

#[test]
fn less_than_phis_become_min_and_max() {
    let phis = vec![phi("m", t("a"), t("b")), phi("n", t("b"), t("a"))];
    let r = phis_to_selects(CompOp::SLT, &t("a"), &t("b"), &phis);
    assert_eq!(ops(&r), vec![ArithOp::Min, ArithOp::Max]);
    let r = phis_to_selects(CompOp::SGE, &t("a"), &t("b"), &phis);
    assert_eq!(ops(&r), vec![ArithOp::Max, ArithOp::Min]);
}

#[test]
fn selects_compute_what_the_phi_takes() {
    for op in [CompOp::SLT, CompOp::SLE, CompOp::SGT, CompOp::SGE] {
        for (a, b) in [(1, 2), (2, 1), (3, 3), (-5, 7)] {
            let phis = vec![phi("m", t("a"), t("b")), phi("n", t("b"), t("a"))];
            let r = phis_to_selects(op, &t("a"), &t("b"), &phis).unwrap();
            let cond = match op {
                CompOp::SLT => a < b,
                CompOp::SLE => a <= b,
                CompOp::SGT => a > b,
                _ => a >= b,
            };
            let val = |v: &Value| if let Value::Temp(x) = v { if x.name == "a" { a } else { b } } else { panic!() };
            for (instr, p) in r.iter().zip(phis.iter()) {
                let (x, y) = (val(&instr.lhs), val(&instr.rhs));
                let got = if instr.op == ArithOp::Min { x.min(y) } else { x.max(y) };
                let want = if cond { val(&p.on_true) } else { val(&p.on_false) };
                assert_eq!(got, want);
            }
        }
    }
}

#[test]
fn unrelated_phi_or_equality_gives_nothing() {
    let phis = vec![phi("m", t("a"), t("c"))];
    assert!(phis_to_selects(CompOp::SLT, &t("a"), &t("b"), &phis).is_none());
    let phis = vec![phi("m", t("a"), t("b"))];
    assert!(phis_to_selects(CompOp::EQ, &t("a"), &t("b"), &phis).is_none());
    assert_eq!(phis_to_selects(CompOp::SLE, &t("a"), &Value::Int(0), &vec![]).map(|v| v.len()), Some(0));
}
