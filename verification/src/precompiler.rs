//! The tracing precompiler: discovery of deterministic entry points,
//! straight-line traces over the trace-eligible operations, virtual
//! stack-depth accounting, and a fused executor that batches all pops
//! and pushes against the live container.
//!
//! A trace is correct by construction: its recorded path is a chain of
//! specification-level steps, and executing the fused body is proved
//! (in [`lemma_trace_sim`]) to take the machine exactly along that
//! chain. Running with the trace table therefore produces the same
//! output and exit code as pure interpretation.

use crate::arith::{bin_eval, BinaryOp};
use crate::inst::{CursorControl, Inst, Oper, Select};
use crate::semantics::{env_ok, op_result, spec_step, steps_to, EnvModel, Fault, OpRes, StepRes};
use crate::storage::{dup_of, fold_of, front_val, rest_of, swap_of};
use crate::vm::{cell_at, grid_ok, spec_advance, step_next, step_ok, Address, BorrowedCode, Cursor, Env, Step};
use vstd::prelude::*;

verus! {

/// The operations a trace may contain: they touch only the selected
/// container, never the cursor, the streams, or the selector.
#[derive(Copy, Clone, PartialEq, Eq, Structural)]
pub enum LinearOp {
    Binary(BinaryOp),
    Pop,
    Push(i32),
    Dup,
    Swap,
}

/// The linear form of an operation, when it is trace-eligible.
pub open spec fn linear_op_of(oper: Oper) -> Option<LinearOp> {
    match oper {
        Oper::Add => Some(LinearOp::Binary(BinaryOp::Add)),
        Oper::Sub => Some(LinearOp::Binary(BinaryOp::Sub)),
        Oper::Mul => Some(LinearOp::Binary(BinaryOp::Mul)),
        Oper::Div => Some(LinearOp::Binary(BinaryOp::Div)),
        Oper::Mod => Some(LinearOp::Binary(BinaryOp::Mod)),
        Oper::Compare => Some(LinearOp::Binary(BinaryOp::Cmp)),
        Oper::Pop => Some(LinearOp::Pop),
        Oper::Push(v) => Some(LinearOp::Push(v as i32)),
        Oper::Dup => Some(LinearOp::Dup),
        Oper::Swap => Some(LinearOp::Swap),
        _ => None,
    }
}

/// How many values an operation consumes from the virtual stack.
pub open spec fn op_need(op: LinearOp) -> int {
    match op {
        LinearOp::Binary(_) => 2,
        LinearOp::Pop => 1,
        LinearOp::Push(_) => 0,
        LinearOp::Dup => 1,
        LinearOp::Swap => 2,
    }
}

/// How many values an operation leaves in their place.
pub open spec fn op_gain(op: LinearOp) -> int {
    match op {
        LinearOp::Binary(_) => 1,
        LinearOp::Pop => 0,
        LinearOp::Push(_) => 1,
        LinearOp::Dup => 2,
        LinearOp::Swap => 2,
    }
}

/// One linear operation applied to a value stack (top at the end);
/// `None` only on division or remainder by zero.
pub open spec fn apply_op(vs: Seq<i32>, op: LinearOp) -> Option<Seq<i32>>
    recommends
        vs.len() >= op_need(op),
{
    match op {
        LinearOp::Binary(b) => {
            let a = front_val(vs, false);
            let bb = front_val(rest_of(vs, false), false);
            match bin_eval(b, bb, a) {
                Some(v) => Some(fold_of(vs, false, v)),
                None => None,
            }
        },
        LinearOp::Pop => Some(rest_of(vs, false)),
        LinearOp::Push(n) => Some(vs.push(n)),
        LinearOp::Dup => Some(dup_of(vs, false)),
        LinearOp::Swap => Some(swap_of(vs, false)),
    }
}

/// A whole trace body replayed over a value stack. `None` when some
/// operation underflows (precluded by `ops_wf`) or divides by zero.
pub open spec fn run_ops(ops: Seq<LinearOp>, vs: Seq<i32>) -> Option<Seq<i32>>
    decreases ops.len(),
{
    if ops.len() == 0 {
        Some(vs)
    } else if vs.len() < op_need(ops[0]) {
        None
    } else {
        match apply_op(vs, ops[0]) {
            Some(vs1) => run_ops(ops.drop_first(), vs1),
            None => None,
        }
    }
}

/// Starting from `live` values, no operation of the body underflows.
pub open spec fn ops_wf(ops: Seq<LinearOp>, live: int) -> bool
    decreases ops.len(),
{
    ops.len() == 0 || {
        &&& live >= op_need(ops[0])
        &&& ops_wf(ops.drop_first(), live - op_need(ops[0]) + op_gain(ops[0]))
    }
}

/// The deepest the body reaches below its start: the least number of
/// pre-existing values that lets every operation find its operands.
pub open spec fn min_live(ops: Seq<LinearOp>) -> int
    decreases ops.len(),
{
    if ops.len() == 0 {
        0
    } else {
        let m = min_live(ops.drop_first()) - (op_gain(ops[0]) - op_need(ops[0]));
        if m >= op_need(ops[0]) {
            m
        } else {
            op_need(ops[0])
        }
    }
}

/// `min_live` values suffice, and so does anything above it.
pub proof fn lemma_min_live_wf(ops: Seq<LinearOp>, live: int)
    requires
        live >= min_live(ops),
    ensures
        ops_wf(ops, live),
    decreases ops.len(),
{
    if ops.len() > 0 {
        lemma_min_live_wf(ops.drop_first(), live - op_need(ops[0]) + op_gain(ops[0]));
    }
}

/// A movement directive that sets the direction outright, so that a
/// trace entered there behaves the same for every incoming direction.
pub open spec fn cc_explicit(cc: CursorControl) -> bool {
    match cc {
        CursorControl::Nop => false,
        CursorControl::MirrorV => false,
        CursorControl::MirrorH => false,
        CursorControl::Mirror => false,
        _ => true,
    }
}

/// The linear operations read off a path, skipping the transparent
/// no-ops.
pub open spec fn ops_of_path(code: Seq<Seq<Inst>>, path: Seq<Cursor>) -> Seq<LinearOp>
    decreases path.len(),
{
    if path.len() == 0 {
        Seq::empty()
    } else {
        let rest = ops_of_path(code, path.drop_first());
        match linear_op_of(cell_at(code, path[0].address).unwrap().oper) {
            Some(op) => seq![op] + rest,
            None => rest,
        }
    }
}

/// Appending a cell to a path appends its operation (or nothing, for a
/// no-op).
pub proof fn lemma_ops_of_path_push(code: Seq<Seq<Inst>>, path: Seq<Cursor>, c: Cursor)
    ensures
        ops_of_path(code, path.push(c)) == (match linear_op_of(
            cell_at(code, c.address).unwrap().oper,
        ) {
            Some(op) => ops_of_path(code, path).push(op),
            None => ops_of_path(code, path),
        }),
    decreases path.len(),
{
    reveal_with_fuel(ops_of_path, 3);
    if path.len() == 0 {
        assert(path.push(c)[0] == c);
        assert(path.push(c).drop_first() =~= Seq::<Cursor>::empty());
        match linear_op_of(cell_at(code, c.address).unwrap().oper) {
            Some(op) => {
                assert(seq![op] + Seq::<LinearOp>::empty() =~= ops_of_path(code, path).push(op));
            },
            None => {},
        }
    } else {
        assert(path.push(c)[0] == path[0]);
        assert(path.push(c).drop_first() =~= path.drop_first().push(c));
        lemma_ops_of_path_push(code, path.drop_first(), c);
        match linear_op_of(cell_at(code, path[0].address).unwrap().oper) {
            Some(op0) => {
                match linear_op_of(cell_at(code, c.address).unwrap().oper) {
                    Some(op) => {
                        assert(seq![op0] + ops_of_path(code, path.drop_first()).push(op)
                            =~= (seq![op0] + ops_of_path(code, path.drop_first())).push(op));
                    },
                    None => {},
                }
            },
            None => {},
        }
    }
}

/// A straight-line path: every cell exists and is a no-op or
/// trace-eligible, consecutive cells are joined by an un-reversed
/// advance, and the last cell advances onto `end`.
pub open spec fn path_ok(
    code: Seq<Seq<Inst>>,
    path: Seq<Cursor>,
    ops: Seq<LinearOp>,
    end: Cursor,
) -> bool {
    &&& path.len() >= 1
    &&& forall|j: int|
        0 <= j < path.len() ==> cell_at(code, (#[trigger] path[j]).address) is Some
    &&& forall|j: int| 0 <= j < path.len() ==> step_ok((#[trigger] path[j]).step)
    &&& forall|j: int|
        0 <= j < path.len() ==> {
            let oper = cell_at(code, (#[trigger] path[j]).address).unwrap().oper;
            linear_op_of(oper) is Some || oper == Oper::Nop
        }
    &&& forall|j: int|
        0 <= j < path.len() - 1 ==> spec_advance(
            code,
            #[trigger] path[j],
            cell_at(code, path[j].address).unwrap().cursor_control,
            false,
        ) == Some(path[j + 1])
    &&& ops == ops_of_path(code, path)
    &&& spec_advance(
        code,
        path[path.len() - 1],
        cell_at(code, path[path.len() - 1].address).unwrap().cursor_control,
        false,
    ) == Some(end)
}

/// One trace-eligible operation, applied to a state whose selected
/// stack splits into an untouched base and the virtual top `vs`, acts
/// exactly as its replay on `vs`: the base is never read or written.
#[verifier::rlimit(100)]
proof fn lemma_one_linear_step(s: EnvModel, oper: Oper, base: Seq<i32>, vs: Seq<i32>, id: u8)
    requires
        linear_op_of(oper) is Some,
        vs.len() >= op_need(linear_op_of(oper).unwrap()),
        s.sel == Select::Stack(id),
        id < 28,
        s.stacks.len() == 28,
        s.stacks[id as int] == base + vs,
    ensures
        ({
            let op = linear_op_of(oper).unwrap();
            match apply_op(vs, op) {
                Some(vs1) => op_result(s, oper) == OpRes::Go(s.with_sel(base + vs1), false),
                None => op_result(s, oper) == OpRes::Fail(Fault::DivByZero),
            }
        }),
{
    let op = linear_op_of(oper).unwrap();
    let c = s.sel_contents();
    assert(c == base + vs);
    match op {
        LinearOp::Binary(b) => {
            assert(c.last() == vs.last());
            assert(c.drop_last().last() == vs.drop_last().last());
            assert(front_val(c, false) == front_val(vs, false));
            assert(front_val(rest_of(c, false), false) == front_val(rest_of(vs, false), false));
            let a = front_val(vs, false);
            let bb = front_val(rest_of(vs, false), false);
            match bin_eval(b, bb, a) {
                Some(v) => {
                    assert(fold_of(c, false, v) =~= base + fold_of(vs, false, v));
                },
                None => {},
            }
        },
        LinearOp::Pop => {
            assert(c.last() == vs.last());
            assert(rest_of(c, false) =~= base + rest_of(vs, false));
        },
        LinearOp::Push(n) => {
            assert(c.push(n) =~= base + vs.push(n));
        },
        LinearOp::Dup => {
            assert(c.last() == vs.last());
            assert(dup_of(c, false) =~= base + dup_of(vs, false));
        },
        LinearOp::Swap => {
            assert(c.last() == vs.last());
            assert(c.drop_last().last() == vs.drop_last().last());
            assert(swap_of(c, false) =~= base + swap_of(vs, false));
        },
    }
}

/// Replaying the fused body over the top of the selected stack is the
/// same as stepping the machine through the whole traced path: the
/// body's result lands on the base that was never touched, the cursor
/// lands past the trace, and nothing else changes. A division by zero
/// in the body is a division by zero of the run, with the same output.
#[verifier::rlimit(100)]
#[verifier::spinoff_prover]
pub proof fn lemma_trace_sim(
    code: Seq<Seq<Inst>>,
    path: Seq<Cursor>,
    ops: Seq<LinearOp>,
    end: Cursor,
    s: EnvModel,
    base: Seq<i32>,
    vs: Seq<i32>,
    id: u8,
)
    requires
        path_ok(code, path, ops, end),
        ops_wf(ops, vs.len() as int),
        env_ok(code, s),
        s.sel == Select::Stack(id),
        id < 28,
        s.stacks[id as int] == base + vs,
        s.cursor == path[0],
    ensures
        match run_ops(ops, vs) {
            Some(vs1) => steps_to(code, s, path.len() as nat) == Some(
                EnvModel {
                    cursor: end,
                    stacks: s.stacks.update(id as int, base + vs1),
                    ..s
                },
            ),
            None => exists|n: nat, s2: EnvModel|
                steps_to(code, s, n) == Some(s2) && spec_step(code, s2) == StepRes::Aborted(
                    Fault::DivByZero,
                    s.output,
                ),
        },
    decreases path.len(),
{
    let inst = cell_at(code, s.cursor.address).unwrap();
    if inst.oper == Oper::Nop {
        assert(ops_of_path(code, path.drop_first()) == ops);
        let c2 = spec_advance(code, path[0], inst.cursor_control, false).unwrap();
        assert(op_result(s, inst.oper) == OpRes::Go(s, false));
        let s1 = EnvModel { cursor: c2, ..s };
        assert(spec_step(code, s) == StepRes::Next(s1));
        crate::semantics::lemma_step_preserves_ok(code, s);
        if path.len() == 1 {
            assert(c2 == end);
            assert(ops.len() == 0);
            assert(run_ops(ops, vs) == Some(vs));
            assert(s.stacks.update(id as int, base + vs) =~= s.stacks);
            assert(steps_to(code, s, 1) == Some(s1)) by {
                reveal_with_fuel(steps_to, 2);
            }
            assert(s1 =~~= (EnvModel {
                cursor: end,
                stacks: s.stacks.update(id as int, base + vs),
                ..s
            }));
        } else {
            assert(path.drop_first()[0] == path[1]);
            assert(c2 == path[1]);
            assert(forall|j: int|
                0 <= j < path.drop_first().len() ==> path.drop_first()[j] == path[j + 1]);
            lemma_trace_sim(code, path.drop_first(), ops, end, s1, base, vs, id);
            match run_ops(ops, vs) {
                Some(vs1) => {
                    assert(steps_to(code, s, 1) == Some(s1)) by {
                        reveal_with_fuel(steps_to, 2);
                    }
                    crate::semantics::lemma_steps_to_compose(
                        code,
                        s,
                        s1,
                        1,
                        (path.len() - 1) as nat,
                    );
                    assert(EnvModel {
                        cursor: end,
                        stacks: s1.stacks.update(id as int, base + vs1),
                        ..s1
                    } =~~= (EnvModel {
                        cursor: end,
                        stacks: s.stacks.update(id as int, base + vs1),
                        ..s
                    }));
                },
                None => {
                    let (n2, s2): (nat, EnvModel) = choose|n2: nat, s2: EnvModel|
                        steps_to(code, s1, n2) == Some(s2) && spec_step(code, s2)
                            == StepRes::Aborted(Fault::DivByZero, s1.output);
                    assert(steps_to(code, s, 1) == Some(s1)) by {
                        reveal_with_fuel(steps_to, 2);
                    }
                    crate::semantics::lemma_steps_to_compose(code, s, s1, 1, n2);
                    assert(steps_to(code, s, 1 + n2) == Some(s2));
                },
            }
        }
    } else {
        let op = linear_op_of(inst.oper).unwrap();
        assert(ops == seq![op] + ops_of_path(code, path.drop_first()));
        assert(ops[0] == op);
        assert(ops.drop_first() =~= ops_of_path(code, path.drop_first()));
        assert(vs.len() >= op_need(op));
        lemma_one_linear_step(s, inst.oper, base, vs, id);
        match apply_op(vs, op) {
            None => {
                assert(op_result(s, inst.oper) == OpRes::Fail(Fault::DivByZero));
                assert(spec_step(code, s) == StepRes::Aborted(Fault::DivByZero, s.output));
                assert(steps_to(code, s, 0) == Some(s));
                assert(run_ops(ops, vs) is None);
            },
            Some(vs1) => {
                let c2 = spec_advance(code, path[0], inst.cursor_control, false).unwrap();
                let s1 = EnvModel { cursor: c2, ..s.with_sel(base + vs1) };
                assert(spec_step(code, s) == StepRes::Next(s1));
                crate::semantics::lemma_step_preserves_ok(code, s);
                assert(run_ops(ops, vs) == run_ops(ops.drop_first(), vs1));
                assert(steps_to(code, s, 1) == Some(s1)) by {
                    reveal_with_fuel(steps_to, 2);
                }
                if path.len() == 1 {
                    assert(c2 == end);
                    assert(ops.drop_first().len() == 0);
                    assert(run_ops(ops.drop_first(), vs1) == Some(vs1));
                    assert(s1 =~~= (EnvModel {
                        cursor: end,
                        stacks: s.stacks.update(id as int, base + vs1),
                        ..s
                    }));
                } else {
                    assert(path.drop_first()[0] == path[1]);
                    assert(c2 == path[1]);
                    assert(forall|j: int|
                        0 <= j < path.drop_first().len() ==> path.drop_first()[j] == path[j
                            + 1]);
                    assert(s1.stacks[id as int] == base + vs1);
                    lemma_trace_sim(
                        code,
                        path.drop_first(),
                        ops.drop_first(),
                        end,
                        s1,
                        base,
                        vs1,
                        id,
                    );
                    match run_ops(ops.drop_first(), vs1) {
                        Some(vs2) => {
                            crate::semantics::lemma_steps_to_compose(
                                code,
                                s,
                                s1,
                                1,
                                (path.len() - 1) as nat,
                            );
                            assert(EnvModel {
                                cursor: end,
                                stacks: s1.stacks.update(id as int, base + vs2),
                                ..s1
                            } =~~= (EnvModel {
                                cursor: end,
                                stacks: s.stacks.update(id as int, base + vs2),
                                ..s
                            }));
                        },
                        None => {
                            let (n2, s2): (nat, EnvModel) = choose|n2: nat, s2: EnvModel|
                                steps_to(code, s1, n2) == Some(s2) && spec_step(code, s2)
                                    == StepRes::Aborted(Fault::DivByZero, s1.output);
                            crate::semantics::lemma_steps_to_compose(code, s, s1, 1, n2);
                            assert(steps_to(code, s, 1 + n2) == Some(s2));
                        },
                    }
                }
            },
        }
    }
}

/// A trace's identity: an address, and the incoming direction when the
/// instruction there preserves direction — `None` when the movement
/// sets the direction itself, making the entry direction-agnostic.
#[derive(Copy, Clone)]
pub struct EntryPoint {
    pub address: Address,
    pub step: Option<Step>,
}

impl EntryPoint {
    /// The identity of a trace starting at this cursor: the direction
    /// matters only when the cell's movement preserves it.
    pub fn new(cursor: Cursor, inst: Inst) -> (r: EntryPoint)
        ensures
            r.address == cursor.address,
            r.step == (if cc_explicit(inst.cursor_control) {
                Option::<Step>::None
            } else {
                Some(cursor.step)
            }),
    {
        let step = match inst.cursor_control {
            CursorControl::Nop
            | CursorControl::MirrorV
            | CursorControl::MirrorH
            | CursorControl::Mirror => Some(cursor.step),
            _ => None,
        };
        EntryPoint { address: cursor.address, step }
    }
}

/// One straight-line trace: its linear operations, how many values it
/// consumes from the live container, the cursor after its last cell,
/// and (for the proof) the cells it stepped through.
pub struct HappyPathTrace {
    pub ops: Vec<LinearOp>,
    pub live: usize,
    pub end: Cursor,
    pub path: Ghost<Seq<Cursor>>,
}

impl HappyPathTrace {
    /// A sound trace over a grid: the path is a real step chain, and
    /// `live` values suffice for the whole body.
    pub open spec fn wf(&self, code: Seq<Seq<Inst>>) -> bool {
        &&& path_ok(code, self.path@, self.ops@, self.end)
        &&& ops_wf(self.ops@, self.live as int)
        &&& cell_at(code, self.end.address) is Some
        &&& step_ok(self.end.step)
    }

    /// The trace belongs to this entry point: same address, and either
    /// the recorded direction or a direction-setting first movement.
    pub open spec fn matches_entry(&self, code: Seq<Seq<Inst>>, entry: EntryPoint) -> bool {
        &&& self.path@[0].address == entry.address
        &&& match entry.step {
            Some(st) => self.path@[0].step == st,
            None => cc_explicit(cell_at(code, entry.address).unwrap().cursor_control),
        }
    }
}

/// The linear form of an operation, when it is trace-eligible.
pub fn linear_from_oper(oper: Oper) -> (r: Option<LinearOp>)
    ensures
        r == linear_op_of(oper),
{
    match oper {
        Oper::Add => Some(LinearOp::Binary(BinaryOp::Add)),
        Oper::Sub => Some(LinearOp::Binary(BinaryOp::Sub)),
        Oper::Mul => Some(LinearOp::Binary(BinaryOp::Mul)),
        Oper::Div => Some(LinearOp::Binary(BinaryOp::Div)),
        Oper::Mod => Some(LinearOp::Binary(BinaryOp::Mod)),
        Oper::Compare => Some(LinearOp::Binary(BinaryOp::Cmp)),
        Oper::Pop => Some(LinearOp::Pop),
        Oper::Push(v) => Some(LinearOp::Push(v as i32)),
        Oper::Dup => Some(LinearOp::Dup),
        Oper::Swap => Some(LinearOp::Swap),
        _ => None,
    }
}

/// The least number of pre-existing values the body consumes, by the
/// virtual depth accounting run backwards over the operations.
pub fn compute_min_live(ops: &Vec<LinearOp>) -> (r: usize)
    requires
        ops@.len() <= 0x4000_0000,
    ensures
        r as int == min_live(ops@),
{
    let mut m: i64 = 0;
    let mut j: usize = ops.len();
    while j > 0
        invariant
            j <= ops@.len() <= 0x4000_0000,
            m as int == min_live(ops@.skip(j as int)),
            0 <= m <= 2 * (ops@.len() - j),
        decreases j,
    {
        j -= 1;
        let op = ops[j];
        let (need, gain): (i64, i64) = match op {
            LinearOp::Binary(_) => (2, 1),
            LinearOp::Pop => (1, 0),
            LinearOp::Push(_) => (0, 1),
            LinearOp::Dup => (1, 2),
            LinearOp::Swap => (2, 2),
        };
        let m2 = m - (gain - need);
        m = if m2 >= need {
            m2
        } else {
            need
        };
        proof {
            assert(ops@.skip(j as int)[0] == ops@[j as int]);
            assert(ops@.skip(j as int).drop_first() =~= ops@.skip(j as int + 1));
        }
    }
    proof {
        assert(ops@.skip(0) =~= ops@);
    }
    m as usize
}

/// Two directions compared as values.
pub fn step_eq(a: Step, b: Step) -> (r: bool)
    ensures
        r == (a == b),
{
    match (a, b) {
        (Step::Row(x), Step::Row(y)) => x == y,
        (Step::Column(x), Step::Column(y)) => x == y,
        _ => false,
    }
}

/// Two cursors compared as values.
pub fn cursor_eq(a: Cursor, b: Cursor) -> (r: bool)
    ensures
        r == (a == b),
{
    a.address.row == b.address.row && a.address.col == b.address.col && step_eq(a.step, b.step)
}

/// Two entry points compared as values.
pub fn entry_eq(a: EntryPoint, b: EntryPoint) -> (r: bool)
    ensures
        r == (a == b),
{
    let step_same = match (a.step, b.step) {
        (Option::None, Option::None) => true,
        (Some(x), Some(y)) => step_eq(x, y),
        _ => false,
    };
    a.address.row == b.address.row && a.address.col == b.address.col && step_same
}

/// At a cell whose movement sets the direction outright, the step taken
/// does not depend on the incoming direction.
#[verifier::rlimit(100)]
proof fn lemma_agnostic_step(code: Seq<Seq<Inst>>, s: EnvModel, c0: Cursor)
    requires
        env_ok(code, s),
        s.cursor.address == c0.address,
        step_ok(c0.step),
        cc_explicit(cell_at(code, s.cursor.address).unwrap().cursor_control),
    ensures
        spec_step(code, s) == spec_step(code, EnvModel { cursor: c0, ..s }),
{
    let s2 = EnvModel { cursor: c0, ..s };
    let inst = cell_at(code, s.cursor.address).unwrap();
    let cc = inst.cursor_control;
    assert(cell_at(code, s2.cursor.address) == Some(inst));
    assert(step_next(s.cursor.step, cc, false) == step_next(c0.step, cc, false));
    assert(step_next(s.cursor.step, cc, true) == step_next(c0.step, cc, true));
    assert(spec_advance(code, s.cursor, cc, false) == spec_advance(code, c0, cc, false));
    assert(spec_advance(code, s.cursor, cc, true) == spec_advance(code, c0, cc, true));
    match op_result(s, inst.oper) {
        OpRes::Go(s1, r) => {
            assert(op_result(s2, inst.oper) == OpRes::Go(EnvModel { cursor: c0, ..s1 }, r));
            match spec_advance(code, s.cursor, cc, r) {
                Some(c2) => {
                    assert(EnvModel { cursor: c2, ..s1 } =~~= (EnvModel {
                        cursor: c2,
                        ..(EnvModel { cursor: c0, ..s1 })
                    }));
                },
                None => {},
            }
        },
        OpRes::Stop(e) => {
            assert(op_result(s2, inst.oper) == OpRes::Stop(e));
        },
        OpRes::Fail(f) => {
            assert(op_result(s2, inst.oper) == OpRes::Fail(f));
        },
    }
}

/// Runs that agree on their first step agree thereafter.
proof fn lemma_steps_to_eq_first(code: Seq<Seq<Inst>>, s_a: EnvModel, s_b: EnvModel, n: nat)
    requires
        spec_step(code, s_a) == spec_step(code, s_b),
        n >= 1,
    ensures
        steps_to(code, s_a, n) == steps_to(code, s_b, n),
{
}

/// A trace applied at a matching runtime state runs it along the traced
/// path — whether the entry recorded the direction or the first cell
/// sets it.
proof fn lemma_hit_run(
    code: Seq<Seq<Inst>>,
    path: Seq<Cursor>,
    ops: Seq<LinearOp>,
    end: Cursor,
    s: EnvModel,
    base: Seq<i32>,
    vs0: Seq<i32>,
    id: u8,
)
    requires
        path_ok(code, path, ops, end),
        ops_wf(ops, vs0.len() as int),
        env_ok(code, s),
        s.sel == Select::Stack(id),
        id < 28,
        s.stacks[id as int] == base + vs0,
        s.cursor.address == path[0].address,
        s.cursor == path[0] || cc_explicit(cell_at(code, path[0].address).unwrap().cursor_control),
    ensures
        match run_ops(ops, vs0) {
            Some(vs1) => steps_to(code, s, path.len() as nat) == Some(
                EnvModel {
                    cursor: end,
                    stacks: s.stacks.update(id as int, base + vs1),
                    ..s
                },
            ),
            None => exists|n: nat, s2: EnvModel|
                steps_to(code, s, n) == Some(s2) && spec_step(code, s2) == StepRes::Aborted(
                    Fault::DivByZero,
                    s.output,
                ),
        },
{
    if s.cursor == path[0] {
        lemma_trace_sim(code, path, ops, end, s, base, vs0, id);
    } else {
        let sp = EnvModel { cursor: path[0], ..s };
        assert(env_ok(code, sp));
        lemma_trace_sim(code, path, ops, end, sp, base, vs0, id);
        lemma_agnostic_step(code, s, path[0]);
        match run_ops(ops, vs0) {
            Some(vs1) => {
                lemma_steps_to_eq_first(code, s, sp, path.len() as nat);
                assert(EnvModel {
                    cursor: end,
                    stacks: sp.stacks.update(id as int, base + vs1),
                    ..sp
                } =~~= (EnvModel {
                    cursor: end,
                    stacks: s.stacks.update(id as int, base + vs1),
                    ..s
                }));
            },
            None => {
                let (n2, x): (nat, EnvModel) = choose|n2: nat, x: EnvModel|
                    steps_to(code, sp, n2) == Some(x) && spec_step(code, x) == StepRes::Aborted(
                        Fault::DivByZero,
                        sp.output,
                    );
                if n2 == 0 {
                    assert(x == sp);
                    assert(spec_step(code, s) == StepRes::Aborted(Fault::DivByZero, s.output));
                    assert(steps_to(code, s, 0) == Some(s));
                } else {
                    lemma_steps_to_eq_first(code, s, sp, n2);
                    assert(steps_to(code, s, n2) == Some(x));
                }
            },
        }
    }
}

impl HappyPathTrace {
    /// Accumulates trace-eligible operations from an entry point,
    /// treating intervening no-ops as transparent, and stops at the
    /// first non-eligible operation (or when its step budget runs out,
    /// which only shortens the trace). An eligible entry instruction is
    /// owed a trace; its `live` count is exactly the virtual depth the
    /// body reaches below its start.
    pub fn trace(code: &BorrowedCode, start: EntryPoint) -> (r: Option<HappyPathTrace>)
        requires
            code.wf(),
            cell_at(code.lines(), start.address) is Some,
            match start.step {
                Some(st) => step_ok(st),
                None => cc_explicit(cell_at(code.lines(), start.address).unwrap().cursor_control),
            },
        ensures
            match r {
                Some(t) => {
                    &&& t.wf(code.lines())
                    &&& t.matches_entry(code.lines(), start)
                    &&& t.ops@.len() >= 1
                    &&& t.live as int == min_live(t.ops@)
                },
                None => true,
            },
            linear_op_of(cell_at(code.lines(), start.address).unwrap().oper) is Some ==> r
                is Some,
    {
        let ghost lines = code.lines();
        proof {
            code.lemma_grid_ok();
        }
        let mut cursor = Cursor {
            address: start.address,
            step: match start.step {
                Some(st) => st,
                None => Step::Row(1),
            },
        };
        let mut ops: Vec<LinearOp> = Vec::new();
        let ghost mut path: Seq<Cursor> = Seq::empty();
        let cells = if code.code.len() > 0x07ff_fff0 {
            0x07ff_fff0
        } else {
            code.code.len()
        };
        let mut fuel: usize = cells * 8 + 8;
        let ghost fuel0 = fuel as int;
        let mut done = false;
        while !done && fuel > 0
            invariant
                fuel <= fuel0,
                fuel < fuel0 ==> done || path.len() >= 1,
                linear_op_of(cell_at(lines, start.address).unwrap().oper) is Some && (path.len()
                    > 0 || done) ==> ops@.len() >= 1,
                code.wf(),
                lines == code.lines(),
                grid_ok(lines),
                step_ok(cursor.step),
                cell_at(lines, cursor.address) is Some,
                ops@ == ops_of_path(lines, path),
                ops@.len() <= path.len(),
                path.len() <= 0x07ff_fff0 * 8 + 8 - fuel,
                forall|j: int|
                    0 <= j < path.len() ==> cell_at(
                        lines,
                        (#[trigger] path[j]).address,
                    ) is Some,
                forall|j: int| 0 <= j < path.len() ==> step_ok((#[trigger] path[j]).step),
                forall|j: int|
                    0 <= j < path.len() ==> {
                        let oper = cell_at(lines, (#[trigger] path[j]).address).unwrap().oper;
                        linear_op_of(oper) is Some || oper == Oper::Nop
                    },
                forall|j: int|
                    0 <= j < path.len() - 1 ==> spec_advance(
                        lines,
                        #[trigger] path[j],
                        cell_at(lines, path[j].address).unwrap().cursor_control,
                        false,
                    ) == Some(path[j + 1]),
                path.len() > 0 ==> spec_advance(
                    lines,
                    path[path.len() - 1],
                    cell_at(lines, path[path.len() - 1].address).unwrap().cursor_control,
                    false,
                ) == Some(cursor),
                path.len() == 0 ==> cursor.address == start.address && (match start.step {
                    Some(st) => cursor.step == st,
                    None => true,
                }),
                path.len() > 0 ==> path[0].address == start.address && (match start.step {
                    Some(st) => path[0].step == st,
                    None => true,
                }),
            decreases fuel,
        {
            fuel -= 1;
            let inst = match code.get_inst(cursor.address) {
                Some(i) => i,
                None => {
                    proof {
                        assert(false);
                    }
                    Inst { cursor_control: CursorControl::Nop, oper: Oper::Nop }
                },
            };
            let lop = linear_from_oper(inst.oper);
            let is_nop = matches!(inst.oper, Oper::Nop);
            if !is_nop && matches!(lop, Option::None) {
                done = true;
            } else {
                let ghost old_path = path;
                proof {
                    lemma_ops_of_path_push(lines, path, cursor);
                    path = path.push(cursor);
                }
                match lop {
                    Some(op) => ops.push(op),
                    None => {},
                }
                cursor.advance(code, inst.cursor_control, false);
                proof {
                    assert(forall|j: int| 0 <= j < old_path.len() ==> path[j] == old_path[j]);
                    assert(path[path.len() - 1] == old_path.push(
                        path[path.len() - 1],
                    )[old_path.len() as int]);
                }
            }
        }
        proof {
            if linear_op_of(cell_at(lines, start.address).unwrap().oper) is Some {
                assert(ops@.len() >= 1);
            }
        }
        if ops.len() == 0 {
            return None;
        }
        proof {
            assert(path.len() > 0);
        }
        let live = compute_min_live(&ops);
        proof {
            lemma_min_live_wf(ops@, live as int);
        }
        Some(HappyPathTrace { ops, live, end: cursor, path: Ghost(path) })
    }
}

/// The discovery walks' step budget over a grid of that many cells:
/// generous enough that running out means a cursor state repeated, an
/// endless no-op loop.
pub open spec fn walk_fuel(n_cells: int) -> nat {
    ((if n_cells > 0x07ff_fff0 {
        0x07ff_fff0
    } else {
        n_cells
    }) * 8 + 8) as nat
}

/// The no-op walk of entry discovery, at specification level: follow
/// no-ops (never reversing) to the first effective instruction, whose
/// address — with the direction, when the movement there preserves it —
/// is the entry. `None` when the budget runs out, which a `walk_fuel`
/// budget reduces to an endless no-op loop.
pub open spec fn nop_walk(code: Seq<Seq<Inst>>, c: Cursor, fuel: nat) -> Option<EntryPoint>
    decreases fuel,
{
    if fuel == 0 {
        None
    } else {
        match cell_at(code, c.address) {
            None => None,
            Some(inst) => {
                if inst.oper != Oper::Nop {
                    Some(
                        EntryPoint {
                            address: c.address,
                            step: if cc_explicit(inst.cursor_control) {
                                Option::<Step>::None
                            } else {
                                Some(c.step)
                            },
                        },
                    )
                } else {
                    match spec_advance(code, c, inst.cursor_control, false) {
                        Some(c1) => nop_walk(code, c1, (fuel - 1) as nat),
                        None => None,
                    }
                }
            },
        }
    }
}

/// Follows no-ops from a cursor to the first effective instruction; the
/// result identifies a potential trace entry, exactly as the
/// specification-level walk says: in particular, a cursor already on an
/// effective instruction is owed the entry at that very address, and
/// `None` means the budget ran out in an endless no-op loop.
pub fn skip_nops(code: &BorrowedCode, cursor: Cursor) -> (r: Option<EntryPoint>)
    requires
        code.wf(),
        step_ok(cursor.step),
        cell_at(code.lines(), cursor.address) is Some,
    ensures
        r == nop_walk(code.lines(), cursor, walk_fuel(code.code@.len() as int)),
        ({
            let inst = cell_at(code.lines(), cursor.address).unwrap();
            inst.oper != Oper::Nop ==> r == Some(
                EntryPoint {
                    address: cursor.address,
                    step: if cc_explicit(inst.cursor_control) {
                        Option::<Step>::None
                    } else {
                        Some(cursor.step)
                    },
                },
            )
        }),
        match r {
            Some(e) => cell_at(code.lines(), e.address) is Some && (match e.step {
                Some(st) => step_ok(st),
                None => cc_explicit(cell_at(code.lines(), e.address).unwrap().cursor_control),
            }),
            None => true,
        },
{
    let ghost lines = code.lines();
    proof {
        code.lemma_grid_ok();
    }
    let mut cur = cursor;
    let cells = if code.code.len() > 0x07ff_fff0 {
        0x07ff_fff0
    } else {
        code.code.len()
    };
    let mut fuel: usize = cells * 8 + 8;
    proof {
        assert(fuel as nat == walk_fuel(code.code@.len() as int));
    }
    while fuel > 0
        invariant
            code.wf(),
            lines == code.lines(),
            grid_ok(lines),
            step_ok(cur.step),
            cell_at(lines, cur.address) is Some,
            nop_walk(lines, cur, fuel as nat) == nop_walk(
                lines,
                cursor,
                walk_fuel(code.code@.len() as int),
            ),
        decreases fuel,
    {
        let inst = match code.get_inst(cur.address) {
            Some(i) => i,
            None => {
                proof {
                    assert(false);
                }
                Inst { cursor_control: CursorControl::Nop, oper: Oper::Nop }
            },
        };
        if !matches!(inst.oper, Oper::Nop) {
            proof {
                assert(nop_walk(lines, cur, fuel as nat) == Some(
                    EntryPoint {
                        address: cur.address,
                        step: if cc_explicit(inst.cursor_control) {
                            Option::<Step>::None
                        } else {
                            Some(cur.step)
                        },
                    },
                ));
            }
            return Some(EntryPoint::new(cur, inst));
        }
        let ghost pre_cur = cur;
        cur.advance(code, inst.cursor_control, false);
        proof {
            assert(nop_walk(lines, pre_cur, fuel as nat) == nop_walk(
                lines,
                cur,
                (fuel - 1) as nat,
            ));
        }
        fuel -= 1;
    }
    None
}

/// Replays the fused body over locals only — no container access. On a
/// division by zero it reports failure, leaving the locals arbitrary.
pub fn run_linear_body(ops: &Vec<LinearOp>, vs: &mut Vec<i32>) -> (ok: bool)
    requires
        ops_wf(ops@, old(vs)@.len() as int),
    ensures
        match run_ops(ops@, old(vs)@) {
            Some(vs1) => ok && final(vs)@ == vs1,
            None => !ok,
        },
{
    let ghost vs0 = vs@;
    let n_ops = ops.len();
    let mut j: usize = 0;
    proof {
        assert(ops@.skip(0) =~= ops@);
    }
    while j < n_ops
        invariant
            vs0 == old(vs)@,
            j <= n_ops,
            n_ops == ops@.len(),
            ops_wf(ops@.skip(j as int), vs@.len() as int),
            run_ops(ops@, vs0) == run_ops(ops@.skip(j as int), vs@),
        decreases n_ops - j,
    {
        let op = ops[j];
        let ghost vs_pre = vs@;
        proof {
            assert(ops@.skip(j as int)[0] == ops@[j as int]);
            assert(ops@.skip(j as int).drop_first() =~= ops@.skip(j as int + 1));
        }
        match op {
            LinearOp::Binary(b) => {
                let n = vs.len();
                let a = vs[n - 1];
                let bb = vs[n - 2];
                vs.truncate(n - 2);
                match crate::arith::eval_binary(b, bb, a) {
                    Some(v) => {
                        vs.push(v);
                        proof {
                            assert(vs@ =~= fold_of(vs_pre, false, v));
                        }
                    },
                    None => {
                        proof {
                            assert(apply_op(vs_pre, op) is None);
                            assert(run_ops(ops@, vs0) is None);
                        }
                        return false;
                    },
                }
            },
            LinearOp::Pop => {
                let popped = vs.pop();
                proof {
                    assert(vs@ =~= rest_of(vs_pre, false));
                }
            },
            LinearOp::Push(n) => {
                vs.push(n);
            },
            LinearOp::Dup => {
                let v = vs[vs.len() - 1];
                vs.push(v);
                proof {
                    assert(vs@ =~= dup_of(vs_pre, false));
                }
            },
            LinearOp::Swap => {
                let a = match vs.pop() {
                    Some(x) => x,
                    None => 0,
                };
                let bb = match vs.pop() {
                    Some(x) => x,
                    None => 0,
                };
                vs.push(a);
                vs.push(bb);
                proof {
                    assert(vs@ =~= swap_of(vs_pre, false));
                }
            },
        }
        j += 1;
    }
    proof {
        assert(ops@.skip(n_ops as int) =~= Seq::<LinearOp>::empty());
    }
    true
}

/// A stored entry point applies to a cursor: same address, and the
/// same direction where one was recorded.
pub open spec fn entry_matches(e: EntryPoint, c: Cursor) -> bool {
    &&& e.address == c.address
    &&& match e.step {
        Some(st) => st == c.step,
        None => true,
    }
}

/// The index of the first table entry that applies to a cursor — the
/// one the scan takes — or the table's length when none does.
pub open spec fn first_match(entries: Seq<(EntryPoint, HappyPathTrace)>, c: Cursor) -> int
    decreases entries.len(),
{
    if entries.len() == 0 {
        0
    } else if entry_matches(entries[0].0, c) {
        0
    } else {
        1 + first_match(entries.drop_first(), c)
    }
}

/// A scan that stops at the first applicable entry (or the end) finds
/// `first_match`.
proof fn lemma_first_match_at(entries: Seq<(EntryPoint, HappyPathTrace)>, c: Cursor, i: int)
    requires
        0 <= i <= entries.len(),
        forall|q: int| 0 <= q < i ==> !entry_matches((#[trigger] entries[q]).0, c),
        i == entries.len() || entry_matches(entries[i].0, c),
    ensures
        first_match(entries, c) == i,
    decreases i,
{
    if i > 0 {
        assert forall|q: int| 0 <= q < i - 1 implies !entry_matches(
            (#[trigger] entries.drop_first()[q]).0,
            c,
        ) by {
            assert(entries.drop_first()[q] == entries[q + 1]);
        }
        if i < entries.len() {
            assert(entries.drop_first()[i - 1] == entries[i]);
        }
        lemma_first_match_at(entries.drop_first(), c, i - 1);
    }
}

/// The precompiled layer's data: traces keyed by their entry points,
/// over one grid.
pub struct TraceTable {
    pub entries: Vec<(EntryPoint, HappyPathTrace)>,
    pub code: Ghost<Seq<Seq<Inst>>>,
}

impl TraceTable {
    /// Every stored trace is sound over the table's grid and belongs to
    /// its entry point.
    pub open spec fn wf(&self) -> bool {
        forall|i: int|
            0 <= i < self.entries@.len() ==> {
                let p = #[trigger] self.entries@[i];
                p.1.wf(self.code@) && p.1.matches_entry(self.code@, p.0)
            }
    }
}

/// Pops the top `live` values of the selected stack into a vector, in
/// stack order (index 0 deepest); nothing else of the state changes.
fn pop_live(env: &mut Env, id: u8, live: usize) -> (vs: Vec<i32>)
    requires
        old(env).wf(),
        old(env)@.sel == Select::Stack(id),
        id < 28,
        live as int <= old(env)@.stacks[id as int].len(),
    ensures
        final(env).wf(),
        ({
            let total = old(env)@.stacks[id as int];
            &&& vs@ == total.skip(total.len() - live as int)
            &&& final(env)@ == (EnvModel {
                stacks: old(env)@.stacks.update(
                    id as int,
                    total.take(total.len() - live as int),
                ),
                ..old(env)@
            })
        }),
{
    let ghost pre = env@;
    let ghost total = pre.stacks[id as int];
    let mut vs: Vec<i32> = Vec::new();
    let mut k: usize = 0;
    proof {
        assert(total.take(total.len() as int) =~= total);
        assert(pre.stacks.update(id as int, total) =~= pre.stacks);
    }
    while k < live
        invariant
            pre == old(env)@,
            k <= live,
            live as int <= total.len(),
            env.wf(),
            env.storages.select == pre.sel,
            pre.sel == Select::Stack(id),
            id < 28,
            total == pre.stacks[id as int],
            vs@.len() == k,
            vs@ == total.skip(total.len() - k as int),
            env@.stacks == pre.stacks.update(id as int, total.take(total.len() - k as int)),
            env@.queue == pre.queue,
            env@.input == pre.input,
            env@.output == pre.output,
            env@.cursor == pre.cursor,
            env@.sel == pre.sel,
        decreases live - k,
    {
        let ghost pre_st = env.storages;
        let ghost cur_contents = total.take(total.len() - k as int);
        let st = env.storages.selected();
        let v = st.pop();
        vs.insert(0, v);
        k += 1;
        proof {
            crate::storage::lemma_selected_views(pre_st, env.storages, pre.sel);
            assert(cur_contents.drop_last() =~= total.take(total.len() - k as int));
            assert(cur_contents.last() == total[total.len() - k as int]);
            assert(seq![v] + total.skip(total.len() - (k - 1) as int) =~= total.skip(
                total.len() - k as int,
            ));
            assert(env@.stacks =~= pre.stacks.update(
                id as int,
                total.take(total.len() - k as int),
            ));
        }
    }
    proof {
        assert(env@ =~~= (EnvModel {
            stacks: pre.stacks.update(id as int, total.take(total.len() - live as int)),
            ..pre
        }));
    }
    vs
}

/// Pushes the values back onto the selected stack, first element
/// deepest; nothing else of the state changes.
fn push_back(env: &mut Env, id: u8, vs: &Vec<i32>)
    requires
        old(env).wf(),
        old(env)@.sel == Select::Stack(id),
        id < 28,
    ensures
        final(env).wf(),
        final(env)@ == (EnvModel {
            stacks: old(env)@.stacks.update(
                id as int,
                old(env)@.stacks[id as int] + vs@,
            ),
            ..old(env)@
        }),
{
    let ghost pre = env@;
    let ghost base = pre.stacks[id as int];
    let n_out = vs.len();
    let mut k: usize = 0;
    proof {
        assert(base + vs@.take(0) =~= base);
        assert(pre.stacks.update(id as int, base) =~= pre.stacks);
    }
    while k < n_out
        invariant
            pre == old(env)@,
            k <= n_out,
            n_out == vs@.len(),
            env.wf(),
            env.storages.select == pre.sel,
            pre.sel == Select::Stack(id),
            id < 28,
            base == pre.stacks[id as int],
            env@.stacks == pre.stacks.update(id as int, base + vs@.take(k as int)),
            env@.queue == pre.queue,
            env@.input == pre.input,
            env@.output == pre.output,
            env@.cursor == pre.cursor,
            env@.sel == pre.sel,
        decreases n_out - k,
    {
        let ghost pre_st = env.storages;
        let st = env.storages.selected();
        st.push(vs[k]);
        k += 1;
        proof {
            crate::storage::lemma_selected_views(pre_st, env.storages, pre.sel);
            assert((base + vs@.take(k - 1 as int)).push(vs@[k - 1 as int]) =~= base + vs@.take(
                k as int,
            ));
            assert(env@.stacks =~= pre.stacks.update(id as int, base + vs@.take(k as int)));
        }
    }
    proof {
        assert(vs@.take(n_out as int) =~= vs@);
        assert(env@ =~~= (EnvModel { stacks: pre.stacks.update(id as int, base + vs@), ..pre }));
    }
}

/// The index of the first stored entry that applies to the cursor, or
/// the table's length when none does — exactly `first_match`.
fn find_entry(entries: &Vec<(EntryPoint, HappyPathTrace)>, c: Cursor) -> (r: usize)
    ensures
        r <= entries@.len(),
        r as int == first_match(entries@, c),
        r < entries@.len() ==> entry_matches(entries@[r as int].0, c),
{
    let n = entries.len();
    let mut idx: usize = 0;
    let mut found: usize = n;
    while idx < n && found == n
        invariant
            idx <= n,
            n == entries@.len(),
            found <= n,
            found < n ==> entry_matches(entries@[found as int].0, c),
            forall|q: int|
                0 <= q < (if found < n {
                    found as int
                } else {
                    idx as int
                }) ==> !entry_matches((#[trigger] entries@[q]).0, c),
        decreases n - idx,
    {
        let e = entries[idx].0;
        let addr_hit = e.address.row == c.address.row && e.address.col == c.address.col;
        if addr_hit {
            let step_hit = match e.step {
                Some(st) => step_eq(st, c.step),
                None => true,
            };
            if step_hit {
                found = idx;
            }
        }
        idx += 1;
    }
    proof {
        lemma_first_match_at(entries@, c, found as int);
    }
    found
}

impl crate::engines::aot::Precompiled for TraceTable {
    open spec fn code_model(&self) -> Seq<Seq<Inst>> {
        self.code@
    }

    open spec fn wf(&self) -> bool {
        TraceTable::wf(self)
    }

    open spec fn hit_owed(&self, s: EnvModel) -> bool {
        let i = first_match(self.entries@, s.cursor);
        &&& i < self.entries@.len()
        &&& s.sel is Stack
        &&& s.sel_contents().len() >= self.entries@[i].1.live
    }

    /// Matches the cursor against the table; a hit pops the trace's
    /// live values, runs the fused body over locals only, pushes the
    /// remainder back, and jumps the cursor past the trace. The fused
    /// replay has stack semantics, so a hit also requires one of the
    /// stacks to be selected: with the queue (or too few values) the
    /// layer misses and the interpreter takes the step instead.
    #[verifier::rlimit(100)]
    fn execute(&self, env: &mut Env) -> (r: crate::engines::aot::TraceOutcome) {
        let ghost code = self.code@;
        let ghost pre = env@;
        let n_entries = self.entries.len();
        let found = find_entry(&self.entries, env.cursor);
        if found == n_entries {
            return crate::engines::aot::TraceOutcome::Miss;
        }
        let ghost entry = self.entries@[found as int].0;
        let t = &self.entries[found].1;
        let ghost path = t.path@;
        let ghost ops = t.ops@;
        let id = match env.storages.get_select() {
            Select::Stack(id) => id,
            _ => {
                return crate::engines::aot::TraceOutcome::Miss;
            },
        };
        proof {
            assert(id < 28);
        }
        let live = t.live;
        let st_len = env.storages.stacks[id as usize].len();
        if st_len < live {
            return crate::engines::aot::TraceOutcome::Miss;
        }
        // --- prologue: pop the live values into locals ---
        let ghost total = pre.stacks[id as int];
        let ghost base = total.take(total.len() - live as int);
        let ghost vs0 = total.skip(total.len() - live as int);
        proof {
            match entry.step {
                Some(st) => {
                    assert(pre.cursor == path[0]);
                },
                None => {},
            }
        }
        let mut vs = pop_live(env, id, live);
        proof {
            assert(vs@ == vs0);
            assert(base + vs0 =~= total);
            assert(ops_wf(ops, vs0.len() as int));
        }
        // --- body: replay the operations over locals only ---
        let ok = run_linear_body(&t.ops, &mut vs);
        if !ok {
            proof {
                assert(pre.stacks[id as int] == base + vs0);
                assert(run_ops(ops, vs0) is None);
                lemma_hit_run(code, path, ops, t.end, pre, base, vs0, id);
            }
            return crate::engines::aot::TraceOutcome::Broke(Fault::DivByZero);
        }
        proof {
            assert(run_ops(ops, vs0) == Some(vs@));
        }
        // --- epilogue: push the remaining locals back, in order ---
        let ghost vs_fin = vs@;
        push_back(env, id, &vs);
        proof {
            assert(total.take(total.len() - live as int) + vs_fin =~= base + vs_fin);
            assert(env@.stacks == pre.stacks.update(id as int, base + vs_fin));
        }
        // --- the cursor jumps past the whole trace ---
        env.cursor = t.end;
        proof {
            lemma_hit_run(code, path, ops, t.end, pre, base, vs0, id);
            let target = EnvModel {
                cursor: t.end,
                stacks: pre.stacks.update(id as int, base + vs_fin),
                ..pre
            };
            assert(env@ =~~= target);
            assert(steps_to(code, pre, path.len() as nat) == Some(env@));
            crate::semantics::lemma_steps_to_preserves_ok(code, pre, path.len() as nat);
        }
        crate::engines::aot::TraceOutcome::Hit
    }
}

/// Entry coverage: when the no-op walk from `c` reaches an effective,
/// trace-eligible instruction, the table holds a trace for that entry.
pub open spec fn entry_covered(
    code_lines: Seq<Seq<Inst>>,
    n_cells: int,
    c: Cursor,
    entries: Seq<(EntryPoint, HappyPathTrace)>,
) -> bool {
    match nop_walk(code_lines, c, walk_fuel(n_cells)) {
        Some(entry) => linear_op_of(cell_at(code_lines, entry.address).unwrap().oper) is Some
            ==> exists|i: int| 0 <= i < entries.len() && (#[trigger] entries[i]).0 == entry,
        None => true,
    }
}

/// Processes one discovery cursor: walks its no-ops to the entry,
/// traces the entry unless the table already holds it, stores the
/// result, and queues both branches of the trace's final instruction
/// for further discovery.
fn explore(
    code: &BorrowedCode,
    cur: Cursor,
    entries: &mut Vec<(EntryPoint, HappyPathTrace)>,
    worklist: &mut Vec<Cursor>,
)
    requires
        code.wf(),
        step_ok(cur.step),
        cell_at(code.lines(), cur.address) is Some,
        forall|i: int|
            0 <= i < old(entries)@.len() ==> {
                let p = #[trigger] old(entries)@[i];
                p.1.wf(code.lines()) && p.1.matches_entry(code.lines(), p.0)
            },
        forall|i: int|
            0 <= i < old(worklist)@.len() ==> cell_at(
                code.lines(),
                (#[trigger] old(worklist)@[i]).address,
            ) is Some && step_ok(old(worklist)@[i].step),
    ensures
        forall|i: int|
            0 <= i < final(entries)@.len() ==> {
                let p = #[trigger] final(entries)@[i];
                p.1.wf(code.lines()) && p.1.matches_entry(code.lines(), p.0)
            },
        forall|i: int|
            0 <= i < final(worklist)@.len() ==> cell_at(
                code.lines(),
                (#[trigger] final(worklist)@[i]).address,
            ) is Some && step_ok(final(worklist)@[i].step),
        final(entries)@.len() >= old(entries)@.len(),
        forall|i: int|
            0 <= i < old(entries)@.len() ==> #[trigger] final(entries)@[i] == old(entries)@[i],
        entry_covered(code.lines(), code.code@.len() as int, cur, final(entries)@),
{
    let ghost lines = code.lines();
    match skip_nops(code, cur) {
        None => {},
        Some(entry) => {
            let mut have = false;
            let mut ei: usize = 0;
            while ei < entries.len()
                invariant
                    ei <= entries@.len(),
                    have ==> exists|i: int|
                        0 <= i < entries@.len() && (#[trigger] entries@[i]).0 == entry,
                decreases entries@.len() - ei,
            {
                if entry_eq(entries[ei].0, entry) {
                    have = true;
                    proof {
                        assert(entries@[ei as int].0 == entry);
                    }
                }
                ei += 1;
            }
            if !have {
                match HappyPathTrace::trace(code, entry) {
                    None => {},
                    Some(t) => {
                        let end_inst = match code.get_inst(t.end.address) {
                            Some(i) => i,
                            None => {
                                proof {
                                    assert(false);
                                }
                                Inst { cursor_control: CursorControl::Nop, oper: Oper::Nop }
                            },
                        };
                        proof {
                            code.lemma_grid_ok();
                        }
                        let mut cf = t.end;
                        cf.advance(code, end_inst.cursor_control, false);
                        let mut cr = t.end;
                        cr.advance(code, end_inst.cursor_control, true);
                        worklist.push(cf);
                        worklist.push(cr);
                        let ghost pre_entries = entries@;
                        entries.push((entry, t));
                        proof {
                            assert(entries@[pre_entries.len() as int].0 == entry);
                        }
                    },
                }
            }
        },
    }
}

/// Discovers entry points from the initial cursor outward, traces each,
/// and collects the results. Both branches of each trace's final
/// instruction are explored further; the budget only bounds how much of
/// the grid is precompiled, never what the traces mean. The initial
/// cursor itself is always explored: whenever its no-op walk reaches a
/// trace-eligible instruction, the table holds that entry.
pub fn precompile(code: &BorrowedCode) -> (r: TraceTable)
    requires
        code.wf(),
    ensures
        r.wf(),
        r.code@ == code.lines(),
        ({
            let c0 = Cursor { address: Address { row: 0, col: 0 }, step: Step::Row(1i8) };
            cell_at(code.lines(), c0.address) is Some ==> entry_covered(
                code.lines(),
                code.code@.len() as int,
                c0,
                r.entries@,
            )
        }),
{
    let ghost lines = code.lines();
    proof {
        code.lemma_grid_ok();
    }
    let mut entries: Vec<(EntryPoint, HappyPathTrace)> = Vec::new();
    let mut worklist: Vec<Cursor> = Vec::new();
    let c0 = Cursor::new();
    let origin_exists = match code.get_inst(c0.address) {
        Some(_) => true,
        None => false,
    };
    if origin_exists {
        explore(code, c0, &mut entries, &mut worklist);
    }
    let cells = if code.code.len() > 0x07ff_fff0 {
        0x07ff_fff0
    } else {
        code.code.len()
    };
    let mut visited: Vec<Cursor> = Vec::new();
    let mut fuel: usize = cells * 16 + 16;
    while fuel > 0 && worklist.len() > 0
        invariant
            code.wf(),
            lines == code.lines(),
            grid_ok(lines),
            forall|i: int|
                0 <= i < worklist@.len() ==> cell_at(
                    lines,
                    (#[trigger] worklist@[i]).address,
                ) is Some && step_ok(worklist@[i].step),
            forall|i: int|
                0 <= i < entries@.len() ==> {
                    let p = #[trigger] entries@[i];
                    p.1.wf(lines) && p.1.matches_entry(lines, p.0)
                },
            origin_exists == (cell_at(lines, c0.address) is Some),
            c0 == (Cursor { address: Address { row: 0, col: 0 }, step: Step::Row(1i8) }),
            origin_exists ==> entry_covered(lines, code.code@.len() as int, c0, entries@),
        decreases fuel,
    {
        fuel -= 1;
        let cur = match worklist.pop() {
            Some(c) => c,
            None => {
                proof {
                    assert(false);
                }
                Cursor::new()
            },
        };
        let mut seen = false;
        let mut vi: usize = 0;
        while vi < visited.len()
            invariant
                vi <= visited@.len(),
            decreases visited@.len() - vi,
        {
            if cursor_eq(visited[vi], cur) {
                seen = true;
            }
            vi += 1;
        }
        if !seen {
            visited.push(cur);
            let ghost pre_entries = entries@;
            explore(code, cur, &mut entries, &mut worklist);
            proof {
                if origin_exists {
                    match nop_walk(lines, c0, walk_fuel(code.code@.len() as int)) {
                        Some(entry0) => {
                            if linear_op_of(
                                cell_at(lines, entry0.address).unwrap().oper,
                            ) is Some {
                                let i0 = choose|i: int|
                                    0 <= i < pre_entries.len() && (#[trigger] pre_entries[i]).0
                                        == entry0;
                                assert(entries@[i0].0 == entry0);
                            }
                        },
                        None => {},
                    }
                }
            }
        }
    }
    TraceTable { entries, code: Ghost(lines) }
}

} // verus!} // verus!
