pub mod compute_graph;
pub mod simplify;
pub mod arith;
pub mod fvn_utils;
pub mod stack_hashmap;
pub mod number;
pub mod impls;
pub mod ir_ops;
pub mod calc_coef;
pub mod lvn;
pub mod calc;
pub mod gvn;
pub mod rearrange;
pub mod emit;
pub mod rearrange_block;
pub mod fold_constants;
pub mod instruction_extension;
pub mod indvar;
pub mod arith_pass;
pub mod if_combine;
pub mod node_info;
pub mod loopinfo;
pub mod topo;
