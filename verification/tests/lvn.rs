use optimizer::compute_graph::{LlvmTemp, Value, VarType};
use optimizer::ir_ops::ArithOp;
use optimizer::lvn::{get_value_vec, get_vector_lvn_value, try_rewrite, LVN_VEC_LEN};
use optimizer::rearrange::ArithInstr;
use optimizer::rearrange_block::{BlockInstr, OtherInstr, OtherKind};

fn t(name: &str) -> Value {
    Value::Temp(LlvmTemp { name: name.to_string(), is_global: false, var_type: VarType::I32 })
}

#[test]
fn value_vectors_are_recorded() {
    let mut temps = vec![];
    let mut table = vec![];
    assert_eq!(get_value_vec(&Value::Int(7), &mut temps, &mut table), vec![7; LVN_VEC_LEN]);
    assert!(temps.is_empty() && table.is_empty());
    let a = get_value_vec(&t("a"), &mut temps, &mut table);
    assert_eq!(a.len(), LVN_VEC_LEN);
    assert_eq!(get_value_vec(&t("a"), &mut temps, &mut table), a);
    assert_eq!(temps.len(), 1);
    assert_eq!(table.len(), 1);
    assert_eq!(table[0].0, a);
    assert_eq!(table[0].1, t("a"));
    let b = get_value_vec(&t("b"), &mut temps, &mut table);
    assert_eq!(b.len(), LVN_VEC_LEN);
    assert_eq!(temps.len(), 2);
}

fn temp(name: &str) -> LlvmTemp {
    LlvmTemp { name: name.to_string(), is_global: false, var_type: VarType::I32 }
}

#[test]
fn vector_of_sum_is_pointwise() {
    let mut temps = vec![];
    let mut table = vec![];
    let a = get_value_vec(&t("a"), &mut temps, &mut table);
    let add = BlockInstr::Arith(ArithInstr { target: temp("s"), op: ArithOp::Add, var_type: VarType::I32, lhs: t("a"), rhs: Value::Int(3) });
    let (v, dst) = get_vector_lvn_value(&add, &mut temps, &mut table);
    assert_eq!(dst, Some(temp("s")));
    let expected: Vec<i32> = a.iter().map(|x| x.wrapping_add(3)).collect();
    assert_eq!(v, Some(expected));
    let div = BlockInstr::Arith(ArithInstr { target: temp("q"), op: ArithOp::Div, var_type: VarType::I32, lhs: t("a"), rhs: t("b") });
    let (v, dst) = get_vector_lvn_value(&div, &mut temps, &mut table);
    assert_eq!(v, None);
    assert_eq!(dst, Some(temp("q")));
    let ret = BlockInstr::Other(OtherInstr { kind: OtherKind::Ret, reads: vec![t("s")], target: None, callee: None });
    let (v, dst) = get_vector_lvn_value(&ret, &mut temps, &mut table);
    assert!(v.is_none() && dst.is_none());
}

#[test]
fn rewrites_follow_the_chain() {
    let map = vec![(temp("a"), t("b")), (temp("b"), t("c")), (temp("c"), Value::Int(4)), (temp("x"), t("y"))];
    let (changed, v) = try_rewrite(&t("a"), &map);
    assert!(changed);
    assert_eq!(v, Value::Int(4));
    let (changed, v) = try_rewrite(&t("x"), &map);
    assert!(changed);
    assert_eq!(v, t("y"));
    let (changed, v) = try_rewrite(&t("z"), &map);
    assert!(!changed);
    assert_eq!(v, t("z"));
    let (changed, v) = try_rewrite(&Value::Int(9), &map);
    assert!(changed);
    assert_eq!(v, Value::Int(9));
}
