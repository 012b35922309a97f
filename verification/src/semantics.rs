//! The machine's observable semantics: one specification-level step
//! function over a model of the whole state, and the run it induces.
//!
//! Every engine is proved against `spec_step`: the interpreter performs
//! exactly one such step at a time, the trace-accelerated engine many.
//! Because `spec_step` is a function of the program and the state alone,
//! a program's output and exit code are uniquely determined — proved in
//! [`lemma_run_deterministic`] — and all engines agree on them.

use crate::arith::{bin_eval, BinaryOp};
use crate::codec::{dec_repr, line_consumed, next_scalar, read_int_spec};
use crate::inst::{sel_valid, Inst, Oper, Select};
use crate::storage::{dup_of, fold_of, front_val, rest_of, swap_of};
use crate::vm::{cell_at, grid_ok, spec_advance, step_ok, Cursor};
use vstd::prelude::*;
use vstd::utf8::{encode_scalar, is_scalar};

verus! {

/// Why an execution stopped without halting: runtime-fatal conditions.
/// Control-flow failures (underflow, a popped zero) are not faults; they
/// reverse the cursor instead.
#[derive(Copy, Clone, PartialEq, Eq, Structural, Debug)]
pub enum Fault {
    /// The cursor left the grid — impossible from a valid start.
    OffGrid,
    /// The channel container was used; it cannot be executed.
    Channel,
    /// The input ended inside, or held, an invalid UTF-8 encoding.
    Input,
    /// An input line did not parse as a decimal 32-bit value.
    Parse,
    /// A value written as a character is no Unicode scalar value.
    Scalar,
    /// Division or remainder by zero.
    DivByZero,
}

/// The machine state the specification speaks of: cursor, selector, the
/// 28 stacks and the queue, the input still unread, and the output
/// written so far.
#[verifier::ext_equal]
pub struct EnvModel {
    pub cursor: Cursor,
    pub sel: Select,
    pub stacks: Seq<Seq<i32>>,
    pub queue: Seq<i32>,
    pub input: Seq<u8>,
    pub output: Seq<u8>,
}

/// What one step yields: the next state, a halt with exit code, or an
/// abort. The latter two carry the output at that moment.
pub enum StepRes {
    Next(EnvModel),
    Halted(i32, Seq<u8>),
    Aborted(Fault, Seq<u8>),
}

/// What an operation (cursor movement aside) yields: a new state with
/// the reverse flag, a halt, or an abort.
pub enum OpRes {
    Go(EnvModel, bool),
    Stop(i32),
    Fail(Fault),
}

/// The contents of the container a (non-channel) selector names.
pub open spec fn contents_of(s: EnvModel, sel: Select) -> Seq<i32> {
    match sel {
        Select::Stack(id) => s.stacks[id as int],
        _ => s.queue,
    }
}

/// The state with that container's contents replaced.
pub open spec fn with_container(s: EnvModel, sel: Select, c: Seq<i32>) -> EnvModel {
    match sel {
        Select::Stack(id) => EnvModel { stacks: s.stacks.update(id as int, c), ..s },
        _ => EnvModel { queue: c, ..s },
    }
}

impl EnvModel {
    /// The selected container's contents.
    pub open spec fn sel_contents(self) -> Seq<i32> {
        contents_of(self, self.sel)
    }

    /// Whether the selected container is the queue.
    pub open spec fn sel_is_queue(self) -> bool {
        self.sel is Queue
    }

    /// The state with the selected container's contents replaced.
    pub open spec fn with_sel(self, c: Seq<i32>) -> EnvModel {
        with_container(self, self.sel, c)
    }
}

/// A state fit for execution over a grid: the grid is well formed, the
/// cursor stands on a cell with a legal direction, the family has its
/// 28 stacks, and the selector is one the decoder can produce.
pub open spec fn env_ok(code: Seq<Seq<Inst>>, s: EnvModel) -> bool {
    &&& grid_ok(code)
    &&& cell_at(code, s.cursor.address) is Some
    &&& step_ok(s.cursor.step)
    &&& s.stacks.len() == 28
    &&& sel_valid(s.sel)
}

/// The binary operation an arithmetic or comparison instruction folds
/// with.
pub open spec fn binop_of(oper: Oper) -> BinaryOp {
    match oper {
        Oper::Sub => BinaryOp::Sub,
        Oper::Mul => BinaryOp::Mul,
        Oper::Div => BinaryOp::Div,
        Oper::Mod => BinaryOp::Mod,
        Oper::Compare => BinaryOp::Cmp,
        _ => BinaryOp::Add,
    }
}

/// A binary fold on the selected container: underflow reverses, a zero
/// divisor aborts, otherwise the two front values fold into one.
pub open spec fn binary_result(s: EnvModel, op: BinaryOp) -> OpRes {
    if s.sel is Channel {
        OpRes::Fail(Fault::Channel)
    } else {
        let c = s.sel_contents();
        if c.len() < 2 {
            OpRes::Go(s, true)
        } else {
            let q = s.sel_is_queue();
            let a = front_val(c, q);
            let b = front_val(rest_of(c, q), q);
            match bin_eval(op, b, a) {
                Some(v) => OpRes::Go(s.with_sel(fold_of(c, q, v)), false),
                None => OpRes::Fail(Fault::DivByZero),
            }
        }
    }
}

/// A move: pop from the selected container, push onto the named one.
pub open spec fn move_result(s: EnvModel, sel: Select) -> OpRes {
    if s.sel is Channel {
        OpRes::Fail(Fault::Channel)
    } else {
        let c = s.sel_contents();
        if c.len() == 0 {
            OpRes::Go(s, true)
        } else {
            let v = front_val(c, s.sel_is_queue());
            let s1 = s.with_sel(rest_of(c, s.sel_is_queue()));
            if sel is Channel {
                OpRes::Fail(Fault::Channel)
            } else {
                OpRes::Go(with_container(s1, sel, contents_of(s1, sel).push(v)), false)
            }
        }
    }
}

/// What one operation does to the state, before the cursor moves.
pub open spec fn op_result(s: EnvModel, oper: Oper) -> OpRes {
    match oper {
        Oper::Nop => OpRes::Go(s, false),
        Oper::Halt => if s.sel is Channel {
            OpRes::Fail(Fault::Channel)
        } else if s.sel_contents().len() == 0 {
            OpRes::Stop(0)
        } else {
            OpRes::Stop(front_val(s.sel_contents(), s.sel_is_queue()))
        },
        Oper::Add | Oper::Sub | Oper::Mul | Oper::Div | Oper::Mod | Oper::Compare
            => binary_result(s, binop_of(oper)),
        Oper::Pop => if s.sel is Channel {
            OpRes::Fail(Fault::Channel)
        } else if s.sel_contents().len() == 0 {
            OpRes::Go(s, true)
        } else {
            OpRes::Go(s.with_sel(rest_of(s.sel_contents(), s.sel_is_queue())), false)
        },
        Oper::Push(n) => if s.sel is Channel {
            OpRes::Fail(Fault::Channel)
        } else {
            OpRes::Go(s.with_sel(s.sel_contents().push(n as i32)), false)
        },
        Oper::Dup => if s.sel is Channel {
            OpRes::Fail(Fault::Channel)
        } else if s.sel_contents().len() == 0 {
            OpRes::Go(s, true)
        } else {
            OpRes::Go(s.with_sel(dup_of(s.sel_contents(), s.sel_is_queue())), false)
        },
        Oper::Swap => if s.sel is Channel {
            OpRes::Fail(Fault::Channel)
        } else if s.sel_contents().len() < 2 {
            OpRes::Go(s, true)
        } else {
            OpRes::Go(s.with_sel(swap_of(s.sel_contents(), s.sel_is_queue())), false)
        },
        Oper::WriteChar => if s.sel is Channel {
            OpRes::Fail(Fault::Channel)
        } else if s.sel_contents().len() == 0 {
            OpRes::Go(s, true)
        } else {
            let v = front_val(s.sel_contents(), s.sel_is_queue());
            if v < 0 || !is_scalar(v as u32) {
                OpRes::Fail(Fault::Scalar)
            } else {
                let s1 = s.with_sel(rest_of(s.sel_contents(), s.sel_is_queue()));
                OpRes::Go(EnvModel { output: s1.output + encode_scalar(v as u32), ..s1 }, false)
            }
        },
        Oper::WriteInt => if s.sel is Channel {
            OpRes::Fail(Fault::Channel)
        } else if s.sel_contents().len() == 0 {
            OpRes::Go(s, true)
        } else {
            let v = front_val(s.sel_contents(), s.sel_is_queue());
            let s1 = s.with_sel(rest_of(s.sel_contents(), s.sel_is_queue()));
            OpRes::Go(EnvModel { output: s1.output + dec_repr(v), ..s1 }, false)
        },
        Oper::ReadChar => match next_scalar(s.input) {
            None => OpRes::Fail(Fault::Input),
            Some(p) => if s.sel is Channel {
                OpRes::Fail(Fault::Channel)
            } else {
                let s1 = EnvModel { input: s.input.skip(p.1), ..s };
                OpRes::Go(s1.with_sel(s1.sel_contents().push(p.0 as i32)), false)
            },
        },
        Oper::ReadInt => match read_int_spec(s.input) {
            None => OpRes::Fail(Fault::Parse),
            Some(v) => if s.sel is Channel {
                OpRes::Fail(Fault::Channel)
            } else {
                let s1 = EnvModel { input: s.input.skip(line_consumed(s.input)), ..s };
                OpRes::Go(s1.with_sel(s1.sel_contents().push(v)), false)
            },
        },
        Oper::Select(sel) => OpRes::Go(EnvModel { sel, ..s }, false),
        Oper::Move(sel) => move_result(s, sel),
        Oper::Cond => if s.sel is Channel {
            OpRes::Fail(Fault::Channel)
        } else if s.sel_contents().len() == 0 {
            OpRes::Go(s, true)
        } else {
            let v = front_val(s.sel_contents(), s.sel_is_queue());
            OpRes::Go(s.with_sel(rest_of(s.sel_contents(), s.sel_is_queue())), v == 0)
        },
    }
}

/// One machine step: fetch the cell under the cursor, apply its
/// operation, then move the cursor by its movement directive and the
/// reverse flag.
pub open spec fn spec_step(code: Seq<Seq<Inst>>, s: EnvModel) -> StepRes {
    match cell_at(code, s.cursor.address) {
        None => StepRes::Aborted(Fault::OffGrid, s.output),
        Some(inst) => match op_result(s, inst.oper) {
            OpRes::Stop(exit) => StepRes::Halted(exit, s.output),
            OpRes::Fail(f) => StepRes::Aborted(f, s.output),
            OpRes::Go(s1, reverse) => match spec_advance(
                code,
                s.cursor,
                inst.cursor_control,
                reverse,
            ) {
                Some(c2) => StepRes::Next(EnvModel { cursor: c2, ..s1 }),
                None => StepRes::Aborted(Fault::OffGrid, s1.output),
            },
        },
    }
}

/// The state after `n` ordinary steps; `None` when the run halts or
/// aborts earlier.
pub open spec fn steps_to(code: Seq<Seq<Inst>>, s: EnvModel, n: nat) -> Option<EnvModel>
    decreases n,
{
    if n == 0 {
        Some(s)
    } else {
        match spec_step(code, s) {
            StepRes::Next(s1) => steps_to(code, s1, (n - 1) as nat),
            _ => None,
        }
    }
}

/// Step runs compose.
pub proof fn lemma_steps_to_compose(
    code: Seq<Seq<Inst>>,
    s0: EnvModel,
    s1: EnvModel,
    n: nat,
    k: nat,
)
    requires
        steps_to(code, s0, n) == Some(s1),
    ensures
        steps_to(code, s0, n + k) == steps_to(code, s1, k),
    decreases n,
{
    if n > 0 {
        match spec_step(code, s0) {
            StepRes::Next(s2) => {
                lemma_steps_to_compose(code, s2, s1, (n - 1) as nat, k);
            },
            _ => {},
        }
    }
}

/// An ordinary step keeps the state fit for execution.
pub proof fn lemma_step_preserves_ok(code: Seq<Seq<Inst>>, s: EnvModel)
    requires
        env_ok(code, s),
        spec_step(code, s) is Next,
    ensures
        env_ok(code, spec_step(code, s)->Next_0),
{
    let inst = cell_at(code, s.cursor.address)->Some_0;
    assert(crate::inst::inst_valid(inst));
    match op_result(s, inst.oper) {
        OpRes::Go(s1, reverse) => {
            assert(s1.stacks.len() == 28);
            assert(sel_valid(s1.sel));
            assert(s1.cursor == s.cursor);
            crate::vm::lemma_spec_advance_cell(code, s.cursor, inst.cursor_control, reverse);
        },
        _ => {},
    }
}

/// Determinism: from one start, the run ends at exactly one point,
/// with one outcome — the exit code and the output of a halt, or the
/// fault and the output of an abort. A program's observable behaviour
/// is a function of the program and its input alone.
pub proof fn lemma_run_deterministic(code: Seq<Seq<Inst>>, s0: EnvModel, n1: nat, n2: nat)
    requires
        ({
            let r1 = steps_to(code, s0, n1);
            r1 is Some && !(spec_step(code, r1.unwrap()) is Next)
        }),
        ({
            let r2 = steps_to(code, s0, n2);
            r2 is Some && !(spec_step(code, r2.unwrap()) is Next)
        }),
    ensures
        n1 == n2,
        spec_step(code, steps_to(code, s0, n1).unwrap()) == spec_step(
            code,
            steps_to(code, s0, n2).unwrap(),
        ),
    decreases n1,
{
    if n1 == 0 {
        if n2 != 0 {
            assert(steps_to(code, s0, n2) is None);
        }
    } else if n2 == 0 {
        assert(steps_to(code, s0, n1) is None);
    } else {
        match spec_step(code, s0) {
            StepRes::Next(s1) => {
                lemma_run_deterministic(code, s1, (n1 - 1) as nat, (n2 - 1) as nat);
            },
            _ => {
                assert(steps_to(code, s0, n1) is None);
            },
        }
    }
}

/// Soundness persists along the whole run.
pub proof fn lemma_steps_to_preserves_ok(code: Seq<Seq<Inst>>, s: EnvModel, n: nat)
    requires
        env_ok(code, s),
        steps_to(code, s, n) is Some,
    ensures
        env_ok(code, steps_to(code, s, n).unwrap()),
    decreases n,
{
    if n > 0 {
        lemma_step_preserves_ok(code, s);
        match spec_step(code, s) {
            StepRes::Next(s1) => {
                lemma_steps_to_preserves_ok(code, s1, (n - 1) as nat);
            },
            _ => {},
        }
    }
}

/// A pop from an empty selected container modifies no container and
/// only reverses the cursor's direction.
pub proof fn lemma_pop_empty_reverses(code: Seq<Seq<Inst>>, s: EnvModel)
    requires
        env_ok(code, s),
        cell_at(code, s.cursor.address).unwrap().oper == Oper::Pop,
        !(s.sel is Channel),
        s.sel_contents().len() == 0,
    ensures
        spec_step(code, s) is Next,
        ({
            let inst = cell_at(code, s.cursor.address).unwrap();
            let s1 = spec_step(code, s)->Next_0;
            &&& s1.stacks == s.stacks
            &&& s1.queue == s.queue
            &&& s1.sel == s.sel
            &&& s1.input == s.input
            &&& s1.output == s.output
            &&& Some(s1.cursor) == spec_advance(code, s.cursor, inst.cursor_control, true)
        }),
{
    let inst = cell_at(code, s.cursor.address).unwrap();
    crate::vm::lemma_spec_advance_some(code, s.cursor, inst.cursor_control, true);
}

/// `Dup` with an empty selected container, and `Swap` with fewer than
/// two values, modify no container and only reverse the cursor.
pub proof fn lemma_dup_swap_underflow_reverses(code: Seq<Seq<Inst>>, s: EnvModel)
    requires
        env_ok(code, s),
        cell_at(code, s.cursor.address).unwrap().oper == Oper::Dup || cell_at(
            code,
            s.cursor.address,
        ).unwrap().oper == Oper::Swap,
        !(s.sel is Channel),
        cell_at(code, s.cursor.address).unwrap().oper == Oper::Dup ==> s.sel_contents().len()
            == 0,
        cell_at(code, s.cursor.address).unwrap().oper == Oper::Swap ==> s.sel_contents().len()
            < 2,
    ensures
        spec_step(code, s) is Next,
        ({
            let inst = cell_at(code, s.cursor.address).unwrap();
            let s1 = spec_step(code, s)->Next_0;
            &&& s1.stacks == s.stacks
            &&& s1.queue == s.queue
            &&& s1.sel == s.sel
            &&& s1.input == s.input
            &&& s1.output == s.output
            &&& Some(s1.cursor) == spec_advance(code, s.cursor, inst.cursor_control, true)
        }),
{
    let inst = cell_at(code, s.cursor.address).unwrap();
    crate::vm::lemma_spec_advance_some(code, s.cursor, inst.cursor_control, true);
}

/// Halting with an empty selected container exits with code 0, and the
/// output is whatever was written before.
pub proof fn lemma_halt_empty_exits_zero(code: Seq<Seq<Inst>>, s: EnvModel)
    requires
        env_ok(code, s),
        cell_at(code, s.cursor.address).unwrap().oper == Oper::Halt,
        !(s.sel is Channel),
        s.sel_contents().len() == 0,
    ensures
        spec_step(code, s) == StepRes::Halted(0, s.output),
{
}

/// `Cond` pops one value either way; zero reverses the cursor, any
/// other value continues forward.
pub proof fn lemma_cond_branches_on_zero(code: Seq<Seq<Inst>>, s: EnvModel)
    requires
        env_ok(code, s),
        cell_at(code, s.cursor.address).unwrap().oper == Oper::Cond,
        !(s.sel is Channel),
        s.sel_contents().len() > 0,
    ensures
        spec_step(code, s) is Next,
        ({
            let inst = cell_at(code, s.cursor.address).unwrap();
            let popped = front_val(s.sel_contents(), s.sel_is_queue());
            let s1 = spec_step(code, s)->Next_0;
            &&& s1 == (EnvModel {
                cursor: s1.cursor,
                ..s.with_sel(rest_of(s.sel_contents(), s.sel_is_queue()))
            })
            &&& Some(s1.cursor) == spec_advance(
                code,
                s.cursor,
                inst.cursor_control,
                popped == 0,
            )
        }),
{
    let inst = cell_at(code, s.cursor.address).unwrap();
    let popped = front_val(s.sel_contents(), s.sel_is_queue());
    crate::vm::lemma_spec_advance_some(code, s.cursor, inst.cursor_control, popped == 0);
}

/// Agreement: any two halting runs over the same grid from the same
/// start — the plain interpreter's and the trace-accelerated engine's —
/// report the same exit code and the same output.
pub proof fn lemma_engines_agree(
    code: Seq<Seq<Inst>>,
    s0: EnvModel,
    e1: i32,
    o1: Seq<u8>,
    e2: i32,
    o2: Seq<u8>,
)
    requires
        exists|n: nat, s: EnvModel|
            steps_to(code, s0, n) == Some(s) && spec_step(code, s) == StepRes::Halted(e1, o1),
        exists|n: nat, s: EnvModel|
            steps_to(code, s0, n) == Some(s) && spec_step(code, s) == StepRes::Halted(e2, o2),
    ensures
        e1 == e2,
        o1 == o2,
{
    let (n1, s1): (nat, EnvModel) = choose|n1: nat, s1: EnvModel|
        steps_to(code, s0, n1) == Some(s1) && spec_step(code, s1) == StepRes::Halted(e1, o1);
    let (n2, s2): (nat, EnvModel) = choose|n2: nat, s2: EnvModel|
        steps_to(code, s0, n2) == Some(s2) && spec_step(code, s2) == StepRes::Halted(e2, o2);
    lemma_run_deterministic(code, s0, n1, n2);
}

} // verus!
