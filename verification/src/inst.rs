//! The instruction model: operations, cursor movements, and container
//! selectors, as decoded from one Hangul syllable.

use vstd::prelude::*;

verus! {

/// One grid cell: a cursor movement paired with an operation.
#[derive(Copy, Clone, PartialEq, Eq, Structural, Debug)]
pub struct Inst {
    pub cursor_control: CursorControl,
    pub oper: Oper,
}

impl Inst {
    pub fn new(cursor_control: CursorControl, oper: Oper) -> (r: Inst)
        ensures
            r == (Inst { cursor_control, oper }),
    {
        Inst { cursor_control, oper }
    }
}

/// How the cursor's direction changes after a cell executes.
///
/// Explicit directions override the current direction; the doubled forms
/// set magnitude two. The mirror forms negate the current direction's
/// magnitude when its axis matches (`MirrorV` acts on vertical movement,
/// `MirrorH` on horizontal, `Mirror` on either).
#[derive(Copy, Clone, PartialEq, Eq, Structural, Debug)]
pub enum CursorControl {
    Nop,
    Left,
    Left2,
    Right,
    Right2,
    Up,
    Up2,
    Down,
    Down2,
    MirrorV,
    MirrorH,
    Mirror,
}

/// The operation a cell performs on the container family.
#[derive(Copy, Clone, PartialEq, Eq, Structural, Debug)]
pub enum Oper {
    Nop,
    Halt,
    Add,
    Mul,
    Sub,
    Div,
    Mod,
    WriteChar,
    WriteInt,
    Pop,
    ReadChar,
    ReadInt,
    Push(u8),
    Dup,
    Swap,
    Select(Select),
    Move(Select),
    Compare,
    Cond,
}

/// Names one container of the family: one of the 28 stacks, the queue,
/// or the channel (which decodes but cannot be used; see `semantics`).
#[derive(Copy, Clone, PartialEq, Eq, Structural, Debug)]
pub enum Select {
    Stack(u8),
    Queue,
    Channel,
}

/// A selector the execution engine can act on: stack indices stay below
/// 28. The decoder only produces such selectors.
pub open spec fn sel_valid(s: Select) -> bool {
    match s {
        Select::Stack(id) => id < 28,
        Select::Queue => true,
        Select::Channel => true,
    }
}

/// An instruction as the decoder produces it: any selector it names is
/// valid. Grids built by `parse` contain only such instructions.
pub open spec fn inst_valid(inst: Inst) -> bool {
    match inst.oper {
        Oper::Select(s) => sel_valid(s),
        Oper::Move(s) => sel_valid(s),
        _ => true,
    }
}

} // verus!
