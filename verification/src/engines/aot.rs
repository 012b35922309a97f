//! The trace-accelerated engine: before each interpreted step it offers
//! the current cursor to a precompiled layer; a hit executes a whole
//! straight-line trace at once, a miss falls back to one interpreter
//! step. Either way the machine moves along the same specification-level
//! chain, so output and exit code match pure interpretation exactly.

use crate::engines::interpreter::Interpreter;
use crate::inst::Inst;
use crate::semantics::{env_ok, spec_step, steps_to, EnvModel, Fault, StepRes};
use crate::vm::{Engine, Env, Flow};
use vstd::prelude::*;

verus! {

/// What the precompiled layer did with the current state.
pub enum TraceOutcome {
    /// No trace applies here; the state is untouched.
    Miss,
    /// A trace ran: the machine advanced at least one step.
    Hit,
    /// A trace ran into a fatal condition of the program itself.
    Broke(Fault),
}

/// A precompiled layer: whatever it executes is some number of steps of
/// the specification-level chain, never anything else — and a state the
/// layer declares itself answerable for is never passed by.
pub trait Precompiled {
    /// The grid the layer was compiled from.
    spec fn code_model(&self) -> Seq<Seq<Inst>>;

    /// The layer's own soundness.
    spec fn wf(&self) -> bool;

    /// The states the layer owes a hit (or a fault) for, rather than a
    /// miss: for the trace table, a cursor matching a stored entry with
    /// a stack selected that holds the trace's live values.
    spec fn hit_owed(&self, s: crate::semantics::EnvModel) -> bool;

    /// Offers the current state to the layer.
    fn execute(&self, env: &mut Env) -> (r: TraceOutcome)
        requires
            self.wf(),
            old(env).wf(),
            env_ok(self.code_model(), old(env)@),
        ensures
            self.wf() && self.hit_owed(old(env)@) ==> !(r is Miss),
            ({
                let code = self.code_model();
                match r {
                    TraceOutcome::Miss => *final(env) == *old(env),
                    TraceOutcome::Hit => {
                        &&& final(env).wf()
                        &&& env_ok(code, final(env)@)
                        &&& exists|k: nat|
                            1 <= k && steps_to(code, old(env)@, k) == Some(final(env)@)
                    },
                    TraceOutcome::Broke(f) => exists|n: nat, s: EnvModel|
                        steps_to(code, old(env)@, n) == Some(s) && spec_step(code, s)
                            == StepRes::Aborted(f, final(env)@.output),
                }
            }),
    ;
}

/// The interpreter with a precompiled fast path in front of it.
pub struct AOT<'a, P> {
    pub interpreter: Interpreter<'a>,
    pub precompiled: P,
}

impl<'a, P: Precompiled> AOT<'a, P> {
    /// Combines the fallback interpreter with a precompiled layer over
    /// the same grid.
    pub fn new(interpreter: Interpreter<'a>, precompiled: P) -> (r: Self)
        ensures
            r.interpreter == interpreter,
            r.precompiled == precompiled,
    {
        Self { interpreter, precompiled }
    }
}

impl<'a, P: Precompiled> Engine for AOT<'a, P> {
    open spec fn code_model(&self) -> Seq<Seq<Inst>> {
        self.interpreter.code_model()
    }

    open spec fn wf(&self) -> bool {
        &&& self.interpreter.wf()
        &&& self.precompiled.wf()
        &&& self.precompiled.code_model() == self.interpreter.code_model()
    }

    fn step(&self, env: &mut Env) -> (r: Flow) {
        match self.precompiled.execute(env) {
            TraceOutcome::Hit => Flow::Continue,
            TraceOutcome::Broke(f) => Flow::Fault(f),
            TraceOutcome::Miss => self.interpreter.step(env),
        }
    }
}

} // verus!
