use optimizer::indvar::IndVar;
use optimizer::calc::{int_arith, int_comp};
use optimizer::calc_coef::{
    calc_mod, get_downcast_status, get_literal_entry, get_typed_add, get_typed_mul, get_typed_one, get_typed_zero,
    get_value_typed_add, is_constant_term, judge_return, value_eq, Entry, ModInstr, ModStatus, ReduceType, FLOAT_ONE_BITS,
};
use optimizer::gvn::{arith_number, combine_numbers, comp_number, constant_value, literal_number};
use optimizer::ir_ops::{ArithOp, CompOp};
use optimizer::compute_graph::{LlvmTemp, Value, VarType};
use optimizer::fvn_utils::MaxMin;
use optimizer::impls::{Action, Event, Optimizer0, Optimizer1, Optimizer2, Pass, Schedule};
use optimizer::lvn::{calculate_vecs, check_all_equal, get_random_vec, literal_vec, vector_lvn_arith, LVN_VEC_LEN};
use optimizer::number::{Number, GVN_EVAL_NUMBER};
use optimizer::stack_hashmap::StackHashMap;
use rand::rngs::StdRng;
use rand::SeedableRng;

fn run_quietly(mut s: Schedule) -> Vec<Pass> {
    let mut seen = Vec::new();
    loop {
        match s.action() {
            Action::Run(p) => {
                seen.push(p);
                s.next(Event::Done(false));
            }
            Action::Finish => return seen,
            Action::Abort => panic!("aborted"),
        }
    }
}

#[test]
fn level0_quiet_run() {
    let passes = run_quietly(Optimizer0::new().apply());
    assert_eq!(passes, vec![Pass::RemoveUnreachCode, Pass::RemoveDeadCode, Pass::Analysis]);
}

#[test]
fn level1_quiet_run() {
    let passes = run_quietly(Optimizer1::new().apply());
    assert_eq!(
        passes,
        vec![
            Pass::RemoveDeadCode,
            Pass::RemoveUnreachCode,
            Pass::InlineFunction,
            Pass::AllocHoisting,
            Pass::FoldConstants,
            Pass::RemoveUselessPhis,
            Pass::Analysis
        ]
    );
}

#[test]
fn level2_quiet_run() {
    let passes = run_quietly(Optimizer2::new().apply());
    assert_eq!(passes.len(), 1 + 12 + 2 + 13 + 1);
    assert_eq!(passes[0], Pass::RemoveUnreachCode);
    assert_eq!(passes[1], Pass::RemoveDeadCode);
    assert_eq!(passes[12], Pass::SolveTailRecursion);
    assert_eq!(passes[13], Pass::LoopSimplify);
    assert_eq!(passes[14], Pass::IndvarExtraction);
    assert_eq!(passes[15], Pass::RemoveDeadCode);
    assert_eq!(passes[19], Pass::GlobalAnalysis);
    assert_eq!(passes[27], Pass::SolveTailRecursion);
    assert_eq!(passes[28], Pass::Analysis);
}

#[test]
fn changed_round_is_repeated() {
    let mut s = Schedule::start(0);
    assert_eq!(s.action(), Action::Run(Pass::RemoveUnreachCode));
    s.next(Event::Done(true));
    assert_eq!(s.action(), Action::Run(Pass::RemoveDeadCode));
    s.next(Event::Done(false));
    // the round changed the program: run it again
    assert_eq!(s.action(), Action::Run(Pass::RemoveUnreachCode));
    s.next(Event::Done(false));
    s.next(Event::Done(false));
    assert_eq!(s.action(), Action::Run(Pass::Analysis));
    s.next(Event::Done(true));
    assert_eq!(s.action(), Action::Finish);
    s.next(Event::Done(true));
    assert_eq!(s.action(), Action::Finish);
}

#[test]
fn failure_aborts_the_run() {
    let mut s = Schedule::start(2);
    s.next(Event::Done(false));
    assert_eq!(s.action(), Action::Run(Pass::RemoveDeadCode));
    s.next(Event::Failed);
    assert_eq!(s.action(), Action::Abort);
    s.next(Event::Done(true));
    assert_eq!(s.action(), Action::Abort);
}

#[test]
fn max_min_tracks_extremes() {
    let mut m = MaxMin::new_with_init(5usize);
    assert_eq!(m.max(), 5);
    assert_eq!(m.min(), 5);
    m.update(9);
    m.update(2);
    m.update(7);
    assert_eq!(m.max(), 9);
    assert_eq!(m.min(), 2);
    let r = m.update(1);
    assert_eq!(r.min(), 1);
}

#[test]
fn stack_hash_map_scopes() {
    let mut s: StackHashMap<u32, &str> = StackHashMap::new();
    assert_eq!(s.get(&1), None);
    s.push();
    assert_eq!(s.insert(1, "outer"), None);
    s.push();
    assert_eq!(s.insert(2, "inner"), None);
    assert_eq!(s.insert(1, "shadow"), None);
    assert_eq!(s.insert(2, "inner2"), Some("inner"));
    // the outermost binding is found first
    assert_eq!(s.get(&1), Some(&"outer"));
    assert_eq!(s.get(&2), Some(&"inner2"));
    s.pop();
    assert_eq!(s.get(&2), None);
    assert_eq!(s.get(&1), Some(&"outer"));
    s.pop();
    s.pop();
    assert_eq!(s.get(&1), None);
}

#[test]
fn number_values() {
    let n = Number::from(7u32);
    assert_eq!(n.value, vec![7u32; GVN_EVAL_NUMBER]);
    assert_eq!(n.same_value(), Some(7));
    let m = Number { value: vec![1, 1, 2] };
    assert_eq!(m.same_value(), None);
    assert_eq!(Number { value: vec![] }.same_value(), None);
    let mut rng = StdRng::seed_from_u64(42);
    let r = Number::new(&mut rng);
    assert_eq!(r.value.len(), GVN_EVAL_NUMBER);
    let r2 = Number::new(&mut rng);
    assert_ne!(r, r2);
}

#[test]
fn vector_numbering() {
    assert_eq!(calculate_vecs(vec![1, 2, 3], vec![10, 20], |x, y| x + y), vec![11, 22]);
    assert_eq!(check_all_equal(&[4, 4, 4]), Some(4));
    assert_eq!(check_all_equal(&[4, 5, 4]), None);
    assert_eq!(check_all_equal(&[]), None);
    assert_eq!(literal_vec(3), vec![3; LVN_VEC_LEN]);
    assert_eq!(get_random_vec(5).len(), 5);
    let a = vec![i32::MAX, 2, -3];
    let b = vec![1, 5, 4];
    assert_eq!(
        vector_lvn_arith(ArithOp::Add, VarType::I32, a.clone(), b.clone()),
        Some(vec![i32::MIN, 7, 1])
    );
    assert_eq!(
        vector_lvn_arith(ArithOp::Sub, VarType::I32, a.clone(), b.clone()),
        Some(vec![i32::MAX - 1, -3, -7])
    );
    assert_eq!(
        vector_lvn_arith(ArithOp::Mul, VarType::I32, a.clone(), b.clone()),
        Some(vec![i32::MAX.wrapping_mul(1), 10, -12])
    );
    assert_eq!(vector_lvn_arith(ArithOp::Div, VarType::I32, a.clone(), b.clone()), None);
    assert_eq!(vector_lvn_arith(ArithOp::Add, VarType::F32, a, b), None);
}

fn int_entry(k: Vec<i32>, b: i32, m: Option<i32>, active: bool) -> Entry {
    Entry {
        params_len: k.len(),
        k_val: k.into_iter().map(Value::Int).collect(),
        b_val: Value::Int(b),
        mod_val: ModStatus { mod_val: m.map(Value::Int), is_activated: active },
    }
}

fn mod_of(r: &Option<ModStatus>) -> Option<(Option<i32>, bool)> {
    r.as_ref().map(|s| {
        (
            match s.mod_val {
                Some(Value::Int(i)) => Some(i),
                None => None,
                _ => panic!("not an int"),
            },
            s.is_activated,
        )
    })
}

#[test]
fn mod_status_of_sums() {
    let a = int_entry(vec![1, 0], 0, Some(7), true);
    let b = int_entry(vec![0, 2], 1, Some(7), false);
    let r = calc_mod(ModInstr::Arith(ArithOp::Add), vec![a, b]);
    assert_eq!(mod_of(&r), Some((Some(7), false)));

    // different moduli, the constant side drops its own
    let a = int_entry(vec![1, 0], 0, Some(7), true);
    let c = int_entry(vec![0, 0], 5, Some(9), false);
    assert_eq!(mod_of(&calc_mod(ModInstr::Arith(ArithOp::Mul), vec![a, c])), Some((Some(7), false)));

    // different moduli on two non-constant sides cannot be reconciled
    let a = int_entry(vec![1, 0], 0, Some(7), true);
    let d = int_entry(vec![0, 1], 0, Some(9), false);
    assert_eq!(mod_of(&calc_mod(ModInstr::Arith(ArithOp::Sub), vec![a, d])), None);

    let a = int_entry(vec![1], 0, None, false);
    let b = int_entry(vec![1], 0, None, false);
    assert_eq!(mod_of(&calc_mod(ModInstr::Arith(ArithOp::Div), vec![a, b])), Some((None, false)));
}

#[test]
fn mod_status_of_remainders() {
    // x % 7 where x carries no modulus: now reduced modulo 7
    let x = int_entry(vec![1], 0, None, false);
    let seven = int_entry(vec![0], 7, None, false);
    assert_eq!(mod_of(&calc_mod(ModInstr::Arith(ArithOp::Rem), vec![x, seven])), Some((Some(7), true)));

    // x % 5 where x is kept modulo 7 (not activated, not constant): refused
    let x = int_entry(vec![1], 0, Some(7), false);
    let five = int_entry(vec![0], 5, None, false);
    assert_eq!(mod_of(&calc_mod(ModInstr::Arith(ArithOp::Rem), vec![x, five])), None);

    // x % 9 where x is reduced modulo 7 already
    let x = int_entry(vec![1], 0, Some(7), true);
    let nine = int_entry(vec![0], 9, None, false);
    assert_eq!(mod_of(&calc_mod(ModInstr::Arith(ArithOp::Rem), vec![x, nine])), Some((Some(7), true)));

    // modulus not a literal
    let x = int_entry(vec![1], 0, None, false);
    let y = int_entry(vec![1], 0, None, false);
    assert_eq!(mod_of(&calc_mod(ModInstr::Arith(ArithOp::RemD), vec![x, y])), None);
}

#[test]
fn mod_status_of_shifts_phis_and_calls() {
    let x = int_entry(vec![1], 0, Some(3), false);
    let c = int_entry(vec![0], 2, None, false);
    assert_eq!(mod_of(&calc_mod(ModInstr::Arith(ArithOp::Shl), vec![x, c])), None);
    let x = int_entry(vec![1], 0, None, false);
    let c = int_entry(vec![0], 2, None, false);
    assert_eq!(mod_of(&calc_mod(ModInstr::Arith(ArithOp::Shl), vec![x, c])), Some((None, false)));

    let p = vec![
        int_entry(vec![1], 0, Some(3), false),
        int_entry(vec![0], 4, Some(5), false),
        int_entry(vec![2], 0, Some(3), true),
    ];
    assert_eq!(mod_of(&calc_mod(ModInstr::Phi, p)), Some((None, false)));
    let p = vec![int_entry(vec![1], 0, Some(3), false), int_entry(vec![2], 0, Some(5), true)];
    assert_eq!(mod_of(&calc_mod(ModInstr::Call, p)), None);
    assert_eq!(mod_of(&calc_mod(ModInstr::JumpCond, vec![])), Some((None, false)));

    let x = int_entry(vec![1], 0, Some(3), false);
    let y = int_entry(vec![0], 0, Some(3), false);
    assert_eq!(mod_of(&calc_mod(ModInstr::Comp, vec![x, y])), None);
}

#[test]
fn entries_and_operands() {
    assert!(is_constant_term(&int_entry(vec![0, 0], 3, None, false)));
    assert!(!is_constant_term(&int_entry(vec![0, 1], 3, None, false)));
    let e = Entry {
        params_len: 1,
        k_val: vec![Value::Float(0x8000_0000)],
        b_val: Value::Float(0),
        mod_val: ModStatus { mod_val: Some(Value::Int(4)), is_activated: true },
    };
    assert!(is_constant_term(&e));
    assert!(get_downcast_status(&e).mod_val.is_none());
    let e = int_entry(vec![1], 0, Some(4), true);
    let s = get_downcast_status(&e);
    assert!(s.is_activated);
    assert!(matches!(s.mod_val, Some(Value::Int(4))));
    assert!(value_eq(&Value::Float(0), &Value::Float(0x8000_0000)));
    assert!(!value_eq(&Value::Float(0x7fc0_0000), &Value::Float(0x7fc0_0000)));
    let t = LlvmTemp { name: "a".to_string(), is_global: true, var_type: VarType::I32 };
    let u = LlvmTemp { name: "a".to_string(), is_global: false, var_type: VarType::I32 };
    assert!(!value_eq(&Value::Temp(t), &Value::Temp(u)));
    let _ = (ReduceType::Sub, ReduceType::Half);
    assert!(ModStatus::new().mod_val.is_none());
}

#[test]
fn integer_folding() {
    assert_eq!(int_arith(7, ArithOp::Add, 5), Some(12));
    assert_eq!(int_arith(i32::MAX, ArithOp::Add, 1), Some(i32::MIN));
    assert_eq!(int_arith(3, ArithOp::Sub, 5), Some(-2));
    assert_eq!(int_arith(-7, ArithOp::Mul, 6), Some(-42));
    assert_eq!(int_arith(-7, ArithOp::Div, 2), Some(-3));
    assert_eq!(int_arith(7, ArithOp::Div, -2), Some(-3));
    assert_eq!(int_arith(i32::MIN, ArithOp::Div, -1), Some(i32::MIN));
    assert_eq!(int_arith(-7, ArithOp::Rem, 2), Some(-1));
    assert_eq!(int_arith(7, ArithOp::Rem, -2), Some(1));
    assert_eq!(int_arith(i32::MIN, ArithOp::Rem, -1), Some(0));
    assert_eq!(int_arith(1, ArithOp::Shl, 2), None);
    assert_eq!(int_comp(1, CompOp::SLT, 2), Some(1));
    assert_eq!(int_comp(2, CompOp::SLE, 2), Some(1));
    assert_eq!(int_comp(-1, CompOp::SGT, 2), Some(0));
    assert_eq!(int_comp(3, CompOp::SGE, 2), Some(1));
    assert_eq!(int_comp(3, CompOp::EQ, 2), Some(0));
    assert_eq!(int_comp(3, CompOp::NE, 2), Some(1));
    assert_eq!(int_comp(3, CompOp::OEQ, 3), None);
}

fn nums(v: Vec<u32>) -> Number {
    Number { value: v }
}

#[test]
fn value_numbers_of_instructions() {
    let a = nums(vec![1, 2, 3]);
    let b = nums(vec![10, u32::MAX, 5]);
    assert_eq!(arith_number(ArithOp::Add, &a, &b).unwrap().value, vec![11, 1, 8]);
    assert_eq!(arith_number(ArithOp::Sub, &a, &b).unwrap().value, vec![1u32.wrapping_sub(10), 3, 3u32.wrapping_sub(5)]);
    assert_eq!(arith_number(ArithOp::Mul, &a, &b).unwrap().value, vec![10, u32::MAX.wrapping_mul(2), 15]);
    assert_eq!(arith_number(ArithOp::Xor, &a, &b).unwrap().value, vec![11, u32::MAX ^ 2, 6]);
    // divisions need constant operands
    assert!(arith_number(ArithOp::Div, &a, &b).is_none());
    let c7 = Number::from(7u32);
    let cm2 = Number::from((-2i32) as u32);
    assert_eq!(arith_number(ArithOp::Div, &c7, &cm2).unwrap(), Number::from((-3i32) as u32));
    assert_eq!(arith_number(ArithOp::Rem, &c7, &cm2).unwrap(), Number::from(1u32));
    assert_eq!(arith_number(ArithOp::Shl, &c7, &Number::from(2u32)).unwrap(), Number::from(28u32));
    assert_eq!(arith_number(ArithOp::Lshr, &cm2, &Number::from(1u32)).unwrap(), Number::from(0x7fff_ffffu32));
    assert_eq!(arith_number(ArithOp::Ashr, &cm2, &Number::from(1u32)).unwrap(), Number::from(u32::MAX));
    assert!(arith_number(ArithOp::Fadd, &c7, &c7).is_none());
    assert!(arith_number(ArithOp::And, &c7, &c7).is_none());
    assert_eq!(comp_number(CompOp::SLT, &cm2, &c7).unwrap(), Number::from(1u32));
    assert_eq!(comp_number(CompOp::EQ, &cm2, &c7).unwrap(), Number::from(0u32));
    assert!(comp_number(CompOp::SLT, &a, &c7).is_none());
    assert!(comp_number(CompOp::OLT, &c7, &c7).is_none());
    assert_eq!(combine_numbers(&a, &nums(vec![1, 1]), |x, y| x * 10 + y).value, vec![11, 21]);
}

#[test]
fn literal_numbers_and_values() {
    assert_eq!(literal_number(&Value::Int(-1)).unwrap(), Number::from(u32::MAX));
    assert_eq!(literal_number(&Value::Float(0x3f80_0000)).unwrap(), Number::from(0x3f80_0000u32));
    let t = LlvmTemp { name: "t".to_string(), is_global: false, var_type: VarType::I32 };
    assert!(literal_number(&Value::Temp(t)).is_none());
    assert_eq!(constant_value(&Number::from(5u32), VarType::I32), Some(Value::Int(5)));
    assert_eq!(constant_value(&Number::from(u32::MAX), VarType::I32), Some(Value::Int(-1)));
    assert_eq!(constant_value(&Number::from(0x3f80_0000u32), VarType::F32), Some(Value::Float(0x3f80_0000)));
    assert_eq!(constant_value(&nums(vec![1, 2]), VarType::I32), None);
}

#[test]
fn typed_operators_and_literal_entries() {
    let i = LlvmTemp { name: "i".to_string(), is_global: false, var_type: VarType::I32 };
    let f = LlvmTemp { name: "f".to_string(), is_global: false, var_type: VarType::F32 };
    let p = LlvmTemp { name: "p".to_string(), is_global: false, var_type: VarType::I32Ptr };
    assert_eq!(get_typed_add(&i), ArithOp::AddD);
    assert_eq!(get_typed_add(&f), ArithOp::Fadd);
    assert_eq!(get_typed_mul(&i), ArithOp::MulD);
    assert_eq!(get_typed_mul(&f), ArithOp::Fmul);
    assert_eq!(get_value_typed_add(&Value::Int(3)), ArithOp::AddD);
    assert_eq!(get_value_typed_add(&Value::Float(FLOAT_ONE_BITS)), ArithOp::Fadd);
    assert_eq!(get_value_typed_add(&Value::Temp(f.clone())), ArithOp::Fadd);
    assert_eq!(get_typed_zero(&i), Value::Int(0));
    assert_eq!(get_typed_zero(&f), Value::Float(0));
    assert_eq!(get_typed_zero(&p), Value::Int(0));
    assert_eq!(get_typed_one(&i), Value::Int(1));
    assert_eq!(get_typed_one(&f), Value::Float(1.0f32.to_bits()));
    let e = get_literal_entry(&Value::Int(5), 3).unwrap();
    assert_eq!(e.k_val, vec![Value::Int(0), Value::Int(0), Value::Int(0)]);
    assert_eq!(e.b_val, Value::Int(5));
    assert_eq!(e.params_len, 3);
    assert!(e.mod_val.mod_val.is_none() && !e.mod_val.is_activated);
    let e = get_literal_entry(&Value::Float(FLOAT_ONE_BITS), 1).unwrap();
    assert_eq!(e.k_val, vec![Value::Float(0)]);
    assert!(get_literal_entry(&Value::Temp(i), 2).is_none());
}

#[test]
fn shared_modulus_of_returned_values() {
    let c3 = int_entry(vec![0], 3, None, false);
    let m7 = int_entry(vec![1], 0, Some(7), true);
    let m7b = int_entry(vec![2], 1, Some(7), true);
    let r = judge_return(&[c3, m7, m7b]);
    assert!(matches!(r, Some(Some(Value::Int(7)))));
    let c9 = int_entry(vec![0], 9, None, false);
    let m7 = int_entry(vec![1], 0, Some(7), true);
    assert!(judge_return(&[c9, m7]).is_none());
    let inactive = int_entry(vec![1], 0, Some(7), false);
    assert!(judge_return(&[inactive]).is_none());
    let free = int_entry(vec![1], 0, None, false);
    let m7 = int_entry(vec![1], 0, Some(7), true);
    assert!(matches!(judge_return(&[free, m7]), Some(Some(Value::Int(7)))));
    let free = int_entry(vec![1], 0, None, false);
    let m7 = int_entry(vec![1], 0, Some(7), true);
    assert!(judge_return(&[m7, free]).is_none());
    let m5 = int_entry(vec![1], 0, Some(5), true);
    let m7 = int_entry(vec![1], 0, Some(7), true);
    assert!(judge_return(&[m5, m7]).is_none());
    assert!(matches!(judge_return(&[]), Some(None)));
}

#[test]
fn induction_variables_of_invariants_keep_their_base() {
    let v = IndVar::from_loop_invariant(Value::Int(7));
    assert!(matches!(v.base, Value::Int(7)));
    assert!(matches!(v.scale, Value::Int(1)));
    assert!(matches!(v.step, Value::Int(0)));
    assert!(v.is_zfp.is_none());
    let w = IndVar::new(Value::Int(0), Value::Int(2), Value::Int(3), Some(Value::Int(5)));
    assert!(matches!(w.scale, Value::Int(2)));
    assert!(matches!(w.is_zfp, Some(Value::Int(5))));
}
