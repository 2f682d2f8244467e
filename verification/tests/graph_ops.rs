use optimizer::arith::extract_const;
use optimizer::compute_graph::{
    graph_order, GraphOp, GraphValue, LlvmTemp, Order3, Single, Value, VarType, MAX_SIZE,
};
use optimizer::simplify::{
    distributive_law, div, mul_const_value, reduce_value, remove_addicative_common,
    solve_constant_value, sort_deep,
};

fn num(i: i32) -> GraphValue {
    GraphValue::Single(Single::Int(i))
}

fn temp(name: &str) -> LlvmTemp {
    LlvmTemp {
        name: name.to_string(),
        is_global: false,
        var_type: VarType::I32,
    }
}

fn var(name: &str) -> GraphValue {
    GraphValue::Single(Single::Temp(temp(name)))
}

fn plus(v: Vec<GraphValue>) -> GraphValue {
    GraphValue::NonTrival((GraphOp::Plus, v))
}

fn mul(v: Vec<GraphValue>) -> GraphValue {
    GraphValue::NonTrival((GraphOp::Mul, v))
}

/// The value of a graph, temporaries named `x`, `y`, `z`, `w` holding
/// 3, -7, 11 and 5.
fn eval(g: &GraphValue) -> i64 {
    match g {
        GraphValue::Single(Single::Int(i)) => *i as i64,
        GraphValue::Single(Single::Temp(t)) => match t.name.as_str() {
            "x" => 3,
            "y" => -7,
            "z" => 11,
            "w" => 5,
            _ => 0,
        },
        GraphValue::NonTrival((GraphOp::Plus, v)) => v.iter().map(eval).sum(),
        GraphValue::NonTrival((GraphOp::Mul, v)) => v.iter().map(eval).product(),
    }
}

#[test]
fn graph_op_eval_checks_overflow() {
    assert_eq!(GraphOp::Plus.eval(3, 4).unwrap(), 7);
    assert_eq!(GraphOp::Mul.eval(-3, 4).unwrap(), -12);
    assert!(GraphOp::Plus.eval(i32::MAX, 1).is_err());
    assert!(GraphOp::Mul.eval(i32::MIN, -1).is_err());
}

#[test]
fn from_value_takes_ints_and_i32_temps() {
    assert_eq!(GraphValue::from_value(Value::Int(9)), Some(num(9)));
    assert_eq!(GraphValue::from_value(Value::Temp(temp("x"))), Some(var("x")));
    let f = LlvmTemp { name: "f".to_string(), is_global: false, var_type: VarType::F32 };
    assert_eq!(GraphValue::from_value(Value::Temp(f)), None);
    assert_eq!(GraphValue::from_value(Value::Float(0x3f80_0000)), None);
}

#[test]
fn size_and_over_size() {
    let g = plus(vec![num(1), mul(vec![var("x"), var("y")]), var("z")]);
    assert_eq!(g.size(), 4);
    assert_eq!(g.metric(), 10 + 1 + (10 + 1 + 1) + 1);
    assert!(g.clone().check_over_size().is_some());
    let big = plus((0..(MAX_SIZE as i32 + 1)).map(num).collect());
    assert_eq!(big.size(), MAX_SIZE + 1);
    assert!(big.check_over_size().is_none());
}

#[test]
fn accessors() {
    let g = mul(vec![num(2), var("x")]);
    assert_eq!(num(5).as_number(), Some(5));
    assert_eq!(var("x").as_number(), None);
    assert_eq!(var("x").as_tmp().map(|t| t.name.clone()), Some("x".to_string()));
    assert!(g.as_single().is_none());
    assert_eq!(g.as_non_trival(GraphOp::Mul).map(|v| v.len()), Some(2));
    assert!(g.as_non_trival(GraphOp::Plus).is_none());
}

#[test]
fn order_of_graph_values() {
    assert_eq!(graph_order(&num(1), &var("a")), Order3::Less);
    assert_eq!(graph_order(&var("b"), &var("a")), Order3::Greater);
    assert_eq!(graph_order(&num(-2), &num(1)), Order3::Less);
    assert_eq!(graph_order(&var("x"), &plus(vec![num(1)])), Order3::Less);
    assert_eq!(graph_order(&plus(vec![num(1), num(2)]), &mul(vec![num(1), num(2)])), Order3::Less);
    assert_eq!(graph_order(&plus(vec![num(1)]), &plus(vec![num(1), num(2)])), Order3::Less);
    assert_eq!(graph_order(&plus(vec![num(1), num(5)]), &plus(vec![num(2), num(0)])), Order3::Less);
    // the last pair of children is not consulted
    assert_eq!(graph_order(&plus(vec![num(1), num(5)]), &plus(vec![num(1), num(0)])), Order3::Equal);
    assert_eq!(graph_order(&plus(vec![]), &plus(vec![num(1), num(0)])), Order3::Equal);
}

#[test]
fn sort_deep_orders_children() {
    let g = plus(vec![var("y"), mul(vec![var("x"), num(3)]), num(4)]);
    let s = sort_deep(g.clone());
    assert_eq!(s, plus(vec![num(4), var("y"), mul(vec![num(3), var("x")])]));
    assert_eq!(eval(&s), eval(&g));
}

#[test]
fn reduce_flattens_same_operator() {
    let g = plus(vec![num(1), plus(vec![var("x"), plus(vec![var("y")])]), mul(vec![var("z")])]);
    let r = reduce_value(g.clone());
    assert_eq!(r, plus(vec![num(1), var("x"), var("y"), var("z")]));
    assert_eq!(eval(&r), eval(&g));
    let single = reduce_value(mul(vec![plus(vec![var("w")])]));
    assert_eq!(single, var("w"));
}

#[test]
fn solve_constant_folds_literals() {
    let (g, changed) = solve_constant_value(plus(vec![num(2), var("x"), num(5)])).unwrap();
    assert!(changed);
    assert_eq!(g, plus(vec![num(7), var("x")]));
    let (g, _) = solve_constant_value(mul(vec![num(0), var("x")])).unwrap();
    assert_eq!(g, mul(vec![num(0)]));
    let (g, changed) = solve_constant_value(plus(vec![num(-3), num(3), var("y")])).unwrap();
    assert!(changed);
    assert_eq!(g, plus(vec![var("y")]));
    assert!(solve_constant_value(mul(vec![num(i32::MAX), num(2)])).is_err());
}

#[test]
fn mul_const_distributes_a_literal() {
    let (g, _) = mul_const_value(mul(vec![num(3), plus(vec![var("x"), num(2)])])).unwrap();
    assert_eq!(eval(&g), 3 * (3 + 2));
    assert_eq!(g, plus(vec![mul(vec![num(3), var("x")]), num(6)]));
}

#[test]
fn distributive_law_factors_common_terms() {
    let mut v = vec![mul(vec![num(2), var("x")]), mul(vec![var("x"), var("y")])];
    let before: i64 = v.iter().map(eval).sum();
    let changed = distributive_law(&mut v).unwrap();
    assert!(changed);
    let after: i64 = v.iter().map(eval).sum();
    assert_eq!(before, after);
    assert_eq!(v.len(), 1);
}

#[test]
fn div_exact_quotient() {
    let a = mul(vec![num(6), var("x"), var("y")]);
    let b = mul(vec![num(2), var("x")]);
    let q = div(&a, &b).unwrap();
    assert_eq!(q, mul(vec![num(3), var("y")]));
    assert_eq!(eval(&a), eval(&b) * eval(&q));
    // literal not divisible
    assert!(div(&mul(vec![num(5), var("x")]), &num(2)).is_none());
    // factor missing
    assert!(div(&mul(vec![num(2), var("x")]), &var("y")).is_none());
    // division by zero
    assert!(div(&var("x"), &num(0)).is_none());
    // zero literal part
    assert_eq!(div(&mul(vec![num(0), var("x")]), &var("y")), Some(num(0)));
    // equal values
    assert_eq!(div(&var("x"), &var("x")), Some(num(1)));
}

#[test]
fn remove_common_operands_of_sums() {
    let l = plus(vec![num(1), var("x"), var("y")]);
    let r = plus(vec![var("x"), var("z")]);
    let (a, b) = remove_addicative_common(&l, &r).unwrap();
    assert_eq!(a, plus(vec![num(1), var("y")]));
    assert_eq!(b, var("z"));
    assert_eq!(eval(&l) - eval(&r), eval(&a) - eval(&b));

    let (a, b) = remove_addicative_common(&var("x"), &plus(vec![var("x"), var("y")])).unwrap();
    assert_eq!(a, num(0));
    assert_eq!(b, var("y"));

    assert!(remove_addicative_common(&var("x"), &var("x")).is_none());
    assert!(remove_addicative_common(&plus(vec![var("x")]), &plus(vec![var("y")])).is_none());
}

#[test]
fn extract_const_splits_products() {
    let (pos, times, rest) = extract_const(mul(vec![num(-3), var("x"), num(2)]));
    assert!(!pos);
    assert_eq!(times, 6);
    assert_eq!(rest, mul(vec![var("x")]));
    let (pos, times, rest) = extract_const(mul(vec![num(4), num(5)]));
    assert!(pos);
    assert_eq!(times, 1);
    assert_eq!(rest, num(20));
    let (pos, times, rest) = extract_const(mul(vec![num(0), var("x")]));
    assert!(pos);
    assert_eq!(times, 1);
    assert_eq!(rest, num(0));
    let (pos, times, rest) = extract_const(var("z"));
    assert!(pos);
    assert_eq!(times, 1);
    assert_eq!(rest, var("z"));
}

#[test]
fn substitute_replaces_a_temporary() {
    let mut g = plus(vec![var("x"), mul(vec![num(2), var("x")]), var("y")]);
    let value = plus(vec![var("z"), num(1)]);
    g.subsitute(&temp("x"), &value);
    assert_eq!(
        g,
        plus(vec![value.clone(), mul(vec![num(2), value.clone()]), var("y")])
    );
    let s = plus(vec![var("x"), var("y")]).substitude_checked(&temp("y"), &num(4)).unwrap();
    assert_eq!(eval(&s), 3 + 4);
}

#[test]
fn contains_temp_collects_named_temps() {
    let g = plus(vec![var("x"), mul(vec![var("y"), var("x")]), num(3)]);
    let wanted = vec![temp("x"), temp("z")];
    let mut found: Vec<LlvmTemp> = Vec::new();
    g.contains_temp(&wanted, &mut found);
    assert_eq!(found.len(), 1);
    assert_eq!(found[0].name, "x");
}

#[test]
fn arithmetic_on_graphs_keeps_values() {
    let a = plus(vec![var("x"), num(2)]);
    let b = mul(vec![num(3), var("y")]);
    let s = a.add(&b).unwrap();
    assert_eq!(eval(&s), eval(&a) + eval(&b));
    let d = a.sub(&b).unwrap();
    assert_eq!(eval(&d), eval(&a) - eval(&b));
    let p = a.mul(&b).unwrap();
    assert_eq!(eval(&p), eval(&a) * eval(&b));
    let q = p.div(&var("y")).unwrap();
    assert_eq!(eval(&q) * eval(&var("y")), eval(&p));
}

#[test]
fn doubling_overflows_to_none() {
    let mut h = var("x");
    for _ in 0..30 {
        h = h.add(&h).unwrap();
    }
    assert_eq!(eval(&h), 3 * (1 << 30));
    assert!(h.add(&h).is_none());
}

#[test]
fn sums_of_zero_in_products_are_dropped() {
    // `3 * (x + y * (1 + -1))`: the regrouping step leaves an empty sum that
    // flattening drops, so the result is `3 * x + 3`.
    let g = mul(vec![num(3), plus(vec![var("x"), mul(vec![var("y"), plus(vec![num(1), num(-1)])])])]);
    let mut s = g.clone();
    s.sanity().unwrap();
    assert_eq!(eval(&g), 9);
    assert_eq!(eval(&s), 12);
}
