use optimizer::compute_graph::{GraphOp, GraphValue, LlvmTemp, Single, Value, VarType};
use optimizer::simplify::{div, remove_addicative_common};

fn get_tmp(id: usize) -> Single {
    Single::Temp(LlvmTemp {
        name: format!("{}", id),
        is_global: false,
        var_type: VarType::I32,
    })
}

#[test]
fn test_distributive() {
    let b = GraphValue::NonTrival((
        GraphOp::Plus,
        vec![
            GraphValue::Single(Single::Int(5)),
            GraphValue::Single(get_tmp(5)),
            GraphValue::NonTrival((
                GraphOp::Mul,
                vec![
                    GraphValue::Single(Single::Int(6)),
                    GraphValue::Single(get_tmp(6)),
                ],
            )),
        ],
    ));

    let c = GraphValue::NonTrival((
        GraphOp::Plus,
        vec![
            GraphValue::Single(Single::Int(1000)),
            GraphValue::Single(get_tmp(5)),
            GraphValue::NonTrival((
                GraphOp::Mul,
                vec![
                    GraphValue::Single(Single::Int(6)),
                    GraphValue::Single(get_tmp(6)),
                ],
            )),
        ],
    ));

    let mut a = GraphValue::NonTrival((
        GraphOp::Plus,
        vec![
            GraphValue::NonTrival((
                GraphOp::Mul,
                vec![b.clone(), GraphValue::Single(Single::Int(3))],
            )),
            GraphValue::NonTrival((
                GraphOp::Mul,
                vec![b.clone(), GraphValue::Single(Single::Int(3))],
            )),
            GraphValue::NonTrival((
                GraphOp::Mul,
                vec![b.clone(), GraphValue::Single(get_tmp(33))],
            )),
            b.clone(),
            GraphValue::Single(get_tmp(23423)),
            c.clone(),
        ],
    ));

    println!("{:?}", &a);

    a.sanity().unwrap();

    println!("{:?}", &a);
}

#[test]
fn test_reduce() {
    let mut a = GraphValue::NonTrival((
        GraphOp::Plus,
        vec![
            GraphValue::Single(Single::Int(-100)),
            GraphValue::Single(get_tmp(3)),
            GraphValue::NonTrival((
                GraphOp::Plus,
                vec![
                    GraphValue::Single(Single::Int(4)),
                    GraphValue::Single(get_tmp(4)),
                    GraphValue::NonTrival((
                        GraphOp::Mul,
                        vec![
                            GraphValue::Single(Single::Int(5)),
                            GraphValue::Single(get_tmp(5)),
                            GraphValue::NonTrival((
                                GraphOp::Plus,
                                vec![
                                    GraphValue::Single(Single::Int(6)),
                                    GraphValue::Single(get_tmp(6)),
                                ],
                            )),
                        ],
                    )),
                    GraphValue::NonTrival((
                        GraphOp::Mul,
                        vec![
                            GraphValue::Single(Single::Int(14)),
                            GraphValue::Single(get_tmp(14)),
                            GraphValue::NonTrival((
                                GraphOp::Mul,
                                vec![
                                    GraphValue::Single(Single::Int(15)),
                                    GraphValue::Single(get_tmp(15)),
                                    GraphValue::NonTrival((
                                        GraphOp::Mul,
                                        vec![
                                            GraphValue::Single(Single::Int(16)),
                                            GraphValue::Single(get_tmp(16)),
                                        ],
                                    )),
                                ],
                            )),
                        ],
                    )),
                    GraphValue::NonTrival((
                        GraphOp::Plus,
                        vec![
                            GraphValue::Single(Single::Int(14)),
                            GraphValue::Single(get_tmp(14)),
                            GraphValue::NonTrival((
                                GraphOp::Plus,
                                vec![
                                    GraphValue::Single(Single::Int(15)),
                                    GraphValue::Single(get_tmp(15)),
                                    GraphValue::NonTrival((
                                        GraphOp::Plus,
                                        vec![
                                            GraphValue::Single(Single::Int(16)),
                                            GraphValue::Single(get_tmp(16)),
                                        ],
                                    )),
                                ],
                            )),
                        ],
                    )),
                ],
            )),
        ],
    ));

    println!("{:?}", &a);

    a.reduce();

    println!("{:?}", &a);
}

#[test]
fn test_mul_1() {
    let b = GraphValue::NonTrival((
        GraphOp::Plus,
        vec![
            GraphValue::Single(Single::Int(5)),
            GraphValue::Single(get_tmp(5)),
            GraphValue::NonTrival((
                GraphOp::Mul,
                vec![
                    GraphValue::Single(Single::Int(6)),
                    GraphValue::Single(get_tmp(6)),
                ],
            )),
        ],
    ));

    let c = GraphValue::NonTrival((
        GraphOp::Plus,
        vec![
            GraphValue::Single(Single::Int(82)),
            GraphValue::Single(get_tmp(5)),
        ],
    ));

    let mut a = GraphValue::NonTrival((GraphOp::Mul, vec![b.clone(), c]));

    a.sanity().unwrap();

    println!("{:?}", &a);

    let c = div(&a, &b);

    println!("{:?}", &c);

    let mut d = GraphValue::NonTrival((
        GraphOp::Mul,
        vec![GraphValue::Single(Single::Int(1))],
    ));

    d.sanity().unwrap();

    println!("{:?}", d);
    let mut d = GraphValue::NonTrival((
        GraphOp::Mul,
        vec![GraphValue::Single(Single::Int(0))],
    ));

    d.sanity().unwrap();

    println!("{:?}", d);
    let mut d = GraphValue::NonTrival((
        GraphOp::Plus,
        vec![
            GraphValue::Single(Single::Int(80)),
            GraphValue::Single(Single::Int(-80)),
        ],
    ));

    d.sanity().unwrap();

    println!("{:?}", d);
}

// `h` doubled five times stays a sum of two scaled temporaries, so `h * h`
// has no literal factor and does not divide by 512.
#[test]
fn doubled_sum_square_has_no_literal_factor() {
    let a = GraphValue::Single(get_tmp(2));
    let b = GraphValue::Single(get_tmp(3));
    let mut h = a.add(&b).unwrap();
    for _ in 0..5 {
        h = h.add(&h).unwrap();
    }
    let i = h.mul(&h).unwrap();
    assert!(i.div(&GraphValue::Single(Single::Int(512))).is_none());
}

#[test]
fn doubling_a_sum_overflows() {
    let a = GraphValue::Single(get_tmp(2));
    let b = GraphValue::Single(get_tmp(3));
    let mut h = a.add(&b).unwrap();
    for _ in 0..30 {
        h = h.add(&h).unwrap();
    }
    assert!(h.add(&h).is_none());
}

fn eval(g: &GraphValue, x: i64, y: i64) -> i64 {
    match g {
        GraphValue::Single(Single::Int(i)) => *i as i64,
        GraphValue::Single(Single::Temp(t)) => if t.name == "2" { x } else { y },
        GraphValue::NonTrival((GraphOp::Plus, v)) => v.iter().map(|c| eval(c, x, y)).sum(),
        GraphValue::NonTrival((GraphOp::Mul, v)) => v.iter().map(|c| eval(c, x, y)).product(),
    }
}

// Normalising `3 * (x + y * (1 + -1))` does not keep its value.
#[test]
fn normalisation_can_change_the_value() {
    let x = GraphValue::Single(get_tmp(2));
    let y = GraphValue::Single(get_tmp(3));
    let zero_sum = GraphValue::NonTrival((
        GraphOp::Plus,
        vec![GraphValue::Single(Single::Int(1)), GraphValue::Single(Single::Int(-1))],
    ));
    let prod = GraphValue::NonTrival((GraphOp::Mul, vec![y, zero_sum]));
    let sum = GraphValue::NonTrival((GraphOp::Plus, vec![x, prod]));
    let g = GraphValue::NonTrival((GraphOp::Mul, vec![GraphValue::Single(Single::Int(3)), sum]));
    let mut n = g.dup();
    let r = n.sanity();
    println!("{:?} -> {:?} ({:?})", g, n, r);
    assert!(r.is_ok());
    assert_eq!(eval(&g, 3, -7), 9);
    assert_ne!(eval(&n, 3, -7), eval(&g, 3, -7));
}
