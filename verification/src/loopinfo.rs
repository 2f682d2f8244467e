use vstd::prelude::*;
use crate::calc_coef::dup_value;
use crate::compute_graph::{LlvmTemp, Value};
use crate::indvar::IndVar;
use crate::ir_ops::CompOp;

verus! {

/// What is known of a counted loop: its induction variables, the branch
/// that leaves it (`branch_temp = loop_cond_temp comp_op end`), how often
/// it runs, and its header, preheader and single exit, by block index.
pub struct LoopInfo {
    pub indvars: Vec<(LlvmTemp, IndVar)>,
    pub branch_temp: LlvmTemp,
    pub comp_op: CompOp,
    pub end: Value,
    pub loop_cond_temp: LlvmTemp,
    pub loop_cnt: Value,
    pub header: usize,
    pub preheader: usize,
    pub single_exit: usize,
}

/// The induction variable recorded for the temporary named `n` (a later
/// entry stands in place of earlier ones).
pub open spec fn indvar_of(s: Seq<(LlvmTemp, IndVar)>, n: Seq<char>) -> Option<IndVar>
    decreases s.len(),
{
    if s.len() == 0 {
        None
    } else if s.last().0.name@ == n {
        Some(s.last().1)
    } else {
        indvar_of(s.drop_last(), n)
    }
}

impl LoopInfo {
    /// The position of the entry for the loop's condition variable.
    fn cond_index(&self) -> (r: usize)
        requires
            indvar_of(self.indvars@, self.loop_cond_temp.name@) is Some,
        ensures
            r < self.indvars@.len(),
            indvar_of(self.indvars@, self.loop_cond_temp.name@) == Some(self.indvars@[r as int].1),
    {
        let s = &self.indvars;
        let mut i: usize = s.len();
        proof {
            assert(s@.take(i as int) =~= s@);
        }
        while i > 0
            invariant
                i <= s@.len(),
                s@ == self.indvars@,
                indvar_of(s@, self.loop_cond_temp.name@) == indvar_of(s@.take(i as int), self.loop_cond_temp.name@),
                indvar_of(s@, self.loop_cond_temp.name@) is Some,
            decreases i,
        {
            proof {
                assert(s@.take(i as int).drop_last() =~= s@.take(i - 1));
                assert(s@.take(i as int).last() == s@[i - 1]);
            }
            if s[i - 1].0.name == self.loop_cond_temp.name {
                return i - 1;
            }
            i = i - 1;
        }
        proof {
            assert(s@.take(0) =~= Seq::<(LlvmTemp, IndVar)>::empty());
        }
        0
    }

    /// Where the loop's condition variable starts.
    pub fn get_start(&self) -> (r: Value)
        requires
            indvar_of(self.indvars@, self.loop_cond_temp.name@) is Some,
        ensures
            r == indvar_of(self.indvars@, self.loop_cond_temp.name@)->0.base,
    {
        let i = self.cond_index();
        dup_value(&self.indvars[i].1.base)
    }

    /// The bound the loop's condition variable is compared with.
    pub fn get_end(&self) -> (r: Value)
        ensures
            r == self.end,
    {
        dup_value(&self.end)
    }

    /// How much the loop's condition variable grows each iteration (its
    /// scale must be one).
    pub fn get_step(&self) -> (r: Value)
        requires
            indvar_of(self.indvars@, self.loop_cond_temp.name@) matches Some(v) && v.scale == Value::Int(1),
        ensures
            r == indvar_of(self.indvars@, self.loop_cond_temp.name@)->0.step,
    {
        let i = self.cond_index();
        dup_value(&self.indvars[i].1.step)
    }
}

} // verus!
