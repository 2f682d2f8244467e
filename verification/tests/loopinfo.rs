use optimizer::compute_graph::{LlvmTemp, Value, VarType};
use optimizer::indvar::IndVar;
use optimizer::ir_ops::CompOp;
use optimizer::loopinfo::LoopInfo;

fn temp(name: &str) -> LlvmTemp {
    LlvmTemp { name: name.to_string(), is_global: false, var_type: VarType::I32 }
}

#[test]
fn loop_bounds_come_from_the_condition_variable() {
    let info = LoopInfo {
        indvars: vec![
            (temp("2"), IndVar::new(Value::Int(0), Value::Int(1), Value::Temp(temp("1")), None)),
            (temp("1"), IndVar::new(Value::Int(0), Value::Int(1), Value::Int(1), None)),
        ],
        branch_temp: temp("3"),
        comp_op: CompOp::SLT,
        end: Value::Int(100),
        loop_cond_temp: temp("1"),
        loop_cnt: Value::Int(100),
        header: 1,
        preheader: 0,
        single_exit: 3,
    };
    assert_eq!(info.get_start(), Value::Int(0));
    assert_eq!(info.get_end(), Value::Int(100));
    assert_eq!(info.get_step(), Value::Int(1));
}

#[test]
fn later_entry_for_a_variable_counts() {
    let info = LoopInfo {
        indvars: vec![
            (temp("i"), IndVar::new(Value::Int(0), Value::Int(1), Value::Int(1), None)),
            (temp("i"), IndVar::new(Value::Int(5), Value::Int(1), Value::Int(2), None)),
        ],
        branch_temp: temp("c"),
        comp_op: CompOp::SLE,
        end: Value::Temp(temp("n")),
        loop_cond_temp: temp("i"),
        loop_cnt: Value::Temp(temp("k")),
        header: 0,
        preheader: 0,
        single_exit: 0,
    };
    assert_eq!(info.get_start(), Value::Int(5));
    assert_eq!(info.get_step(), Value::Int(2));
    assert_eq!(info.get_end(), Value::Temp(temp("n")));
}
