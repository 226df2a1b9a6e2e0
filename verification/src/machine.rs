//! A run taken one top-level instruction at a time, so that a host can
//! look at its cancellation signal between instructions.
use crate::assembly::{Assembly, Instr, Program};
use crate::error::{Fault, RuntimeError};
use crate::semantics::Outcome;
use crate::value::{views, Array, Value};
use crate::vm::{step, yields_all};
use vstd::prelude::*;

verus! {

/// What is left of a run within a budget of top-level instructions: the
/// run goes on while the budget lasts and is interrupted when an
/// instruction is due and the budget is spent.
pub open spec fn run_within(
    p: Program,
    main: Seq<Instr>,
    pc: nat,
    s: Seq<Array>,
    budget: nat,
) -> Outcome
    decreases main.len() - pc,
{
    if pc >= main.len() {
        Ok(s)
    } else if budget == 0 {
        Err(Fault::Interrupted)
    } else {
        match p.step(p.functions.len(), main[pc as int], s) {
            Ok(t) => run_within(p, main, pc + 1, t, (budget - 1) as nat),
            Err(e) => Err(e),
        }
    }
}

/// A budget that lasts for every instruction changes nothing.
pub proof fn lemma_budget_enough(p: Program, main: Seq<Instr>, pc: nat, s: Seq<Array>, budget: nat)
    requires
        pc + budget >= main.len(),
    ensures
        run_within(p, main, pc, s, budget) == p.run_from(p.functions.len(), main, pc, s),
    decreases main.len() - pc,
{
    if pc < main.len() {
        if let Ok(t) = p.step(p.functions.len(), main[pc as int], s) {
            lemma_budget_enough(p, main, pc + 1, t, (budget - 1) as nat);
        }
    }
}

/// One run of an assembly, between two of its top-level instructions.
pub struct Machine<'a> {
    prog: &'a Assembly,
    pc: usize,
    stack: Vec<Value>,
}

impl<'a> Machine<'a> {
    /// The assembly that is run.
    pub closed spec fn program(self) -> Assembly {
        *self.prog
    }

    /// How many top-level instructions have run.
    pub closed spec fn done(self) -> nat {
        self.pc as nat
    }

    /// The stack as it stands.
    pub closed spec fn stack(self) -> Seq<Array> {
        views(self.stack@)
    }

    /// The outcome that the run has if it goes on to its end.
    pub open spec fn outcome(self) -> Outcome {
        self.program()@.run_from(
            self.program()@.functions.len(),
            self.program().top(),
            self.done(),
            self.stack(),
        )
    }

    /// A run of `prog` that has not begun.
    pub fn start(prog: &'a Assembly) -> (m: Machine<'a>)
        ensures
            m.program() == *prog,
            m.done() == 0,
            m.stack() == Seq::<Array>::empty(),
            m.outcome() == prog@.run(prog.top()),
    {
        let m = Machine { prog, pc: 0, stack: Vec::new() };
        assert(views(m.stack@) =~= Seq::<Array>::empty());
        m
    }

    /// Whether every top-level instruction has run.
    pub fn finished(&self) -> (r: bool)
        ensures
            r == (self.done() >= self.program().top().len()),
            r ==> self.outcome() == Ok::<Seq<Array>, Fault>(self.stack()),
    {
        self.pc >= self.prog.main().len()
    }

    /// Runs the next top-level instruction. After a failure the run is
    /// over and the stack holds no particular values.
    pub fn step(&mut self) -> (r: Result<(), RuntimeError>)
        requires
            old(self).done() < old(self).program().top().len(),
        ensures
            final(self).program() == old(self).program(),
            match r {
                Ok(()) => {
                    &&& final(self).done() == old(self).done() + 1
                    &&& final(self).outcome() == old(self).outcome()
                    &&& old(self).program()@.step(
                        old(self).program()@.functions.len(),
                        old(self).program().top()[old(self).done() as int],
                        old(self).stack(),
                    ) == Ok::<Seq<Array>, Fault>(final(self).stack())
                },
                Err(e) => {
                    &&& old(self).outcome() == Err::<Seq<Array>, Fault>(e@)
                    &&& old(self).program()@.step(
                        old(self).program()@.functions.len(),
                        old(self).program().top()[old(self).done() as int],
                        old(self).stack(),
                    ) == Err::<Seq<Array>, Fault>(e@)
                },
            },
    {
        let n = self.prog.main().len();
        let instr = self.prog.main()[self.pc];
        match step(self.prog, self.prog.function_count(), instr, &mut self.stack) {
            Ok(()) => {
                self.pc += 1;
                Ok(())
            },
            Err(e) => Err(e),
        }
    }

    /// Gives the run up because the host asked for it. What the stack held
    /// is dropped.
    pub fn interrupt(self) -> (e: RuntimeError)
        ensures
            e@ == Fault::Interrupted,
    {
        RuntimeError::Interrupted
    }

    /// The values that a finished run has left, the top of the stack last.
    pub fn finish(self) -> (values: Vec<Value>)
        requires
            self.done() >= self.program().top().len(),
        ensures
            self.outcome() == Ok::<Seq<Array>, Fault>(views(values@)),
    {
        self.stack
    }
}

impl Assembly {
    /// Runs the program, but no more than `budget` top-level instructions
    /// of it: a run that needs more is interrupted and leaves nothing.
    pub fn run_within(&self, budget: usize) -> (r: Result<Vec<Value>, RuntimeError>)
        ensures
            yields_all(r, run_within(self@, self.top(), 0, Seq::empty(), budget as nat)),
    {
        let mut m = Machine::start(self);
        let mut left = budget;
        while !m.finished()
            invariant
                m.program() == *self,
                m.done() <= self.top().len(),
                run_within(self@, self.top(), 0, Seq::empty(), budget as nat) == run_within(
                    self@,
                    self.top(),
                    m.done(),
                    m.stack(),
                    left as nat,
                ),
            decreases self.top().len() - m.done(),
        {
            if left == 0 {
                return Err(m.interrupt());
            }
            match m.step() {
                Ok(()) => {},
                Err(e) => {
                    return Err(e);
                },
            }
            left -= 1;
        }
        Ok(m.finish())
    }
}

} // verus!
