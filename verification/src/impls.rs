use vstd::prelude::*;

verus! {

/// The IR passes that the optimisation levels run.
#[derive(PartialEq, Eq, Structural, Clone, Copy, Debug)]
pub enum Pass {
    RemoveUnreachCode,
    RemoveDeadCode,
    InlineFunction,
    AllocHoisting,
    FoldConstants,
    RemoveUselessPhis,
    GlobalAnalysis,
    RemoveUselessCode,
    GlobalValueNumbering,
    Mem2Reg,
    CodeHoisting,
    SolveTailRecursion,
    LoopSimplify,
    IndvarExtraction,
    Analysis,
}

/// What the driver is asked to do next.
#[derive(PartialEq, Eq, Structural, Clone, Copy, Debug)]
pub enum Action {
    /// Run this pass on the program and report back.
    Run(Pass),
    /// All passes are done.
    Finish,
    /// A pass failed; stop and report its error.
    Abort,
}

/// What the driver reports after running a pass.
#[derive(PartialEq, Eq, Structural, Clone, Copy, Debug)]
pub enum Event {
    /// The pass ran; `true` where it changed the program.
    Done(bool),
    /// The pass failed.
    Failed,
}

/// A stage of an optimisation level: a list of passes, run once or
/// repeated until a whole round changes nothing.
pub struct Stage {
    pub passes: Seq<Pass>,
    pub repeat: bool,
}

pub open spec fn once(p: Pass) -> Stage {
    Stage { passes: seq![p], repeat: false }
}

pub open spec fn round0() -> Seq<Pass> {
    seq![Pass::RemoveUnreachCode, Pass::RemoveDeadCode]
}

pub open spec fn round1() -> Seq<Pass> {
    seq![Pass::RemoveDeadCode, Pass::RemoveUnreachCode, Pass::InlineFunction, Pass::AllocHoisting,
        Pass::FoldConstants, Pass::RemoveUselessPhis]
}

pub open spec fn round2_first() -> Seq<Pass> {
    seq![Pass::RemoveDeadCode, Pass::GlobalAnalysis, Pass::RemoveUselessCode, Pass::RemoveUnreachCode,
        Pass::FoldConstants, Pass::GlobalValueNumbering, Pass::Mem2Reg, Pass::RemoveUselessPhis,
        Pass::InlineFunction, Pass::AllocHoisting, Pass::CodeHoisting, Pass::SolveTailRecursion]
}

pub open spec fn round2_second() -> Seq<Pass> {
    seq![Pass::RemoveDeadCode, Pass::GlobalAnalysis, Pass::RemoveUselessCode, Pass::RemoveUnreachCode,
        Pass::GlobalAnalysis, Pass::FoldConstants, Pass::GlobalValueNumbering, Pass::Mem2Reg,
        Pass::RemoveUselessPhis, Pass::InlineFunction, Pass::AllocHoisting, Pass::CodeHoisting,
        Pass::SolveTailRecursion]
}

/// The stages of each level: level 0 and 1 repeat one round then analyse;
/// level 2 removes unreachable code once, repeats a round, simplifies loops
/// and extracts induction variables, repeats a second round, then analyses.
pub open spec fn stages(level: u8) -> Seq<Stage> {
    if level == 0 {
        seq![Stage { passes: round0(), repeat: true }, once(Pass::Analysis)]
    } else if level == 1 {
        seq![Stage { passes: round1(), repeat: true }, once(Pass::Analysis)]
    } else {
        seq![once(Pass::RemoveUnreachCode), Stage { passes: round2_first(), repeat: true },
            once(Pass::LoopSimplify), once(Pass::IndvarExtraction),
            Stage { passes: round2_second(), repeat: true }, once(Pass::Analysis)]
    }
}

/// Where a run of an optimisation level stands.
#[derive(Debug)]
pub struct Schedule {
    pub level: u8,
    pub stage: usize,
    pub pos: usize,
    pub changed: bool,
    pub aborted: bool,
}

impl Schedule {
    pub open spec fn well_formed(&self) -> bool {
        &&& self.level <= 2
        &&& self.stage <= stages(self.level).len()
        &&& self.stage < stages(self.level).len() ==> self.pos < stages(self.level)[self.stage as int].passes.len()
    }

    /// The action this state asks for.
    pub open spec fn requested(&self) -> Action {
        if self.aborted {
            Action::Abort
        } else if self.stage < stages(self.level).len() {
            Action::Run(stages(self.level)[self.stage as int].passes[self.pos as int])
        } else {
            Action::Finish
        }
    }

    /// The state after `event`, reported for the pass this state asked for.
    pub open spec fn after(&self, event: Event) -> Schedule {
        if self.aborted || self.stage >= stages(self.level).len() {
            *self
        } else {
            match event {
                Event::Failed => Schedule { aborted: true, ..*self },
                Event::Done(c) => {
                    let st = stages(self.level)[self.stage as int];
                    let flag = self.changed || c;
                    if self.pos + 1 < st.passes.len() {
                        Schedule { pos: (self.pos + 1) as usize, changed: flag, ..*self }
                    } else if st.repeat && flag {
                        Schedule { pos: 0, changed: false, ..*self }
                    } else {
                        Schedule { stage: (self.stage + 1) as usize, pos: 0, changed: false, ..*self }
                    }
                },
            }
        }
    }
}

fn stage_count(level: u8) -> (r: usize)
    requires
        level <= 2,
    ensures
        r == stages(level).len(),
{
    if level == 0 {
        2
    } else if level == 1 {
        2
    } else {
        6
    }
}

fn stage_len(level: u8, stage: usize) -> (r: usize)
    requires
        level <= 2,
        stage < stages(level).len(),
    ensures
        r == stages(level)[stage as int].passes.len(),
{
    if level == 0 {
        if stage == 0 { 2 } else { 1 }
    } else if level == 1 {
        if stage == 0 { 6 } else { 1 }
    } else {
        if stage == 1 { 12 } else if stage == 4 { 13 } else { 1 }
    }
}

fn stage_repeats(level: u8, stage: usize) -> (r: bool)
    requires
        level <= 2,
        stage < stages(level).len(),
    ensures
        r == stages(level)[stage as int].repeat,
{
    if level <= 1 {
        stage == 0
    } else {
        stage == 1 || stage == 4
    }
}

fn pass_at(level: u8, stage: usize, pos: usize) -> (r: Pass)
    requires
        level <= 2,
        stage < stages(level).len(),
        pos < stages(level)[stage as int].passes.len(),
    ensures
        r == stages(level)[stage as int].passes[pos as int],
{
    let r0: [Pass; 2] = [Pass::RemoveUnreachCode, Pass::RemoveDeadCode];
    let r1: [Pass; 6] = [Pass::RemoveDeadCode, Pass::RemoveUnreachCode, Pass::InlineFunction,
        Pass::AllocHoisting, Pass::FoldConstants, Pass::RemoveUselessPhis];
    let first: [Pass; 12] = [Pass::RemoveDeadCode, Pass::GlobalAnalysis, Pass::RemoveUselessCode,
        Pass::RemoveUnreachCode, Pass::FoldConstants, Pass::GlobalValueNumbering, Pass::Mem2Reg,
        Pass::RemoveUselessPhis, Pass::InlineFunction, Pass::AllocHoisting, Pass::CodeHoisting,
        Pass::SolveTailRecursion];
    let second: [Pass; 13] = [Pass::RemoveDeadCode, Pass::GlobalAnalysis, Pass::RemoveUselessCode,
        Pass::RemoveUnreachCode, Pass::GlobalAnalysis, Pass::FoldConstants, Pass::GlobalValueNumbering,
        Pass::Mem2Reg, Pass::RemoveUselessPhis, Pass::InlineFunction, Pass::AllocHoisting,
        Pass::CodeHoisting, Pass::SolveTailRecursion];
    proof {
        assert(r0@ == round0());
        assert(r1@ == round1());
        assert(first@ == round2_first());
        assert(second@ == round2_second());
    }
    if level == 0 {
        if stage == 0 { r0[pos] } else { Pass::Analysis }
    } else if level == 1 {
        if stage == 0 { r1[pos] } else { Pass::Analysis }
    } else {
        if stage == 0 {
            Pass::RemoveUnreachCode
        } else if stage == 1 {
            first[pos]
        } else if stage == 2 {
            Pass::LoopSimplify
        } else if stage == 3 {
            Pass::IndvarExtraction
        } else if stage == 4 {
            second[pos]
        } else {
            Pass::Analysis
        }
    }
}

impl Schedule {
    /// A run of optimisation level `level` (0, 1 or 2), before its first pass.
    pub fn start(level: u8) -> (r: Schedule)
        requires
            level <= 2,
        ensures
            r.well_formed(),
            r.level == level,
            r.stage == 0 && r.pos == 0 && !r.changed && !r.aborted,
    {
        Schedule { level, stage: 0, pos: 0, changed: false, aborted: false }
    }

    /// The action this state asks for.
    pub fn action(&self) -> (r: Action)
        requires
            self.well_formed(),
        ensures
            r == self.requested(),
    {
        if self.aborted {
            Action::Abort
        } else if self.stage < stage_count(self.level) {
            Action::Run(pass_at(self.level, self.stage, self.pos))
        } else {
            Action::Finish
        }
    }

    /// Takes in the outcome of the pass this state asked for.
    pub fn next(&mut self, event: Event)
        requires
            old(self).well_formed(),
        ensures
            *final(self) == old(self).after(event),
            final(self).well_formed(),
    {
        if self.aborted || self.stage >= stage_count(self.level) {
            return;
        }
        match event {
            Event::Failed => {
                self.aborted = true;
            },
            Event::Done(c) => {
                let flag = self.changed || c;
                let len = stage_len(self.level, self.stage);
                if self.pos + 1 < len {
                    self.pos = self.pos + 1;
                    self.changed = flag;
                } else if stage_repeats(self.level, self.stage) && flag {
                    self.pos = 0;
                    self.changed = false;
                } else {
                    self.stage = self.stage + 1;
                    self.pos = 0;
                    self.changed = false;
                    proof {
                        if self.stage < stages(self.level).len() {
                            assert(stages(self.level)[self.stage as int].passes.len() > 0);
                        }
                    }
                }
            },
        }
    }
}

/// Once a pass has failed, the run stays aborted whatever is reported.
pub proof fn law_abort_is_final(s: Schedule, event: Event)
    requires
        s.well_formed(),
        s.aborted,
    ensures
        s.requested() == Action::Abort,
        s.after(event) == s,
{
}

/// A failing pass aborts the run.
pub proof fn law_failure_aborts(s: Schedule)
    requires
        s.well_formed(),
        s.requested() is Run,
    ensures
        s.after(Event::Failed).requested() == Action::Abort,
        s.after(Event::Failed).well_formed(),
{
}

/// Once every stage has run, the run is finished whatever is reported.
pub proof fn law_finish_is_final(s: Schedule, event: Event)
    requires
        s.well_formed(),
        s.requested() == Action::Finish,
    ensures
        s.after(event) == s,
{
}

/// A repeated round is left only after a whole round in which no pass
/// changed the program; after a round with a change it starts over.
pub proof fn law_round_repeats_until_quiet(s: Schedule, c: bool)
    requires
        s.well_formed(),
        s.requested() is Run,
        stages(s.level)[s.stage as int].repeat,
    ensures
        s.after(Event::Done(c)).stage != s.stage ==> !s.changed && !c
            && s.pos + 1 == stages(s.level)[s.stage as int].passes.len(),
        s.after(Event::Done(c)).stage == s.stage ==> s.after(Event::Done(c)).requested() is Run,
{
}

/// A pass of a stage that is not repeated runs once: reporting it done
/// moves to the next pass, or to the next stage after the last one.
pub proof fn law_single_stage_advances(s: Schedule, c: bool)
    requires
        s.well_formed(),
        s.requested() is Run,
        !stages(s.level)[s.stage as int].repeat,
    ensures
        s.after(Event::Done(c)).stage == s.stage + 1
            || (s.after(Event::Done(c)).stage == s.stage && s.after(Event::Done(c)).pos == s.pos + 1),
{
}

/// The driver for optimisation level 0.
#[derive(Default)]
pub struct Optimizer0 {}

/// The driver for optimisation level 1.
#[derive(Default)]
pub struct Optimizer1 {}

/// The driver for optimisation level 2.
#[derive(Default)]
pub struct Optimizer2 {}

impl Optimizer0 {
    pub fn new() -> (r: Self)
        ensures
            r == (Optimizer0 {}),
    {
        Optimizer0 {}
    }

    /// The schedule of passes this level runs.
    pub fn apply(self) -> (r: Schedule)
        ensures
            r.well_formed() && r.level == 0 && r.stage == 0 && r.pos == 0 && !r.changed && !r.aborted,
    {
        Schedule::start(0)
    }
}

impl Optimizer1 {
    pub fn new() -> (r: Self)
        ensures
            r == (Optimizer1 {}),
    {
        Optimizer1 {}
    }

    /// The schedule of passes this level runs.
    pub fn apply(self) -> (r: Schedule)
        ensures
            r.well_formed() && r.level == 1 && r.stage == 0 && r.pos == 0 && !r.changed && !r.aborted,
    {
        Schedule::start(1)
    }
}

impl Optimizer2 {
    pub fn new() -> (r: Self)
        ensures
            r == (Optimizer2 {}),
    {
        Optimizer2 {}
    }

    /// The schedule of passes this level runs.
    pub fn apply(self) -> (r: Schedule)
        ensures
            r.well_formed() && r.level == 2 && r.stage == 0 && r.pos == 0 && !r.changed && !r.aborted,
    {
        Schedule::start(2)
    }
}

} // verus!
