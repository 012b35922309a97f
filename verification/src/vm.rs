//! The grid representation and the cursor: addresses, directions, and the
//! movement engine with its wrap and skip semantics.
//!
//! The grid is ragged: rows may differ in length. A horizontal move wraps
//! within the current row. A vertical move that lands past the end of a
//! shorter row enters a skip loop that walks rows cyclically (downward
//! moves wrap from the next-to-last rule `row + 1 < height` back to row
//! zero, exactly as the language defines) until it finds a row populated
//! at that column. The move's doubled magnitude applies only to the
//! initial jump, never to the skip.

use crate::codec::{line_consumed, next_scalar, read_int_at, read_int_spec, take_scalar};
use crate::inst::{inst_valid, CursorControl, Inst, Select};
use crate::semantics::{env_ok, spec_step, steps_to, EnvModel, Fault, StepRes};
use crate::storage::StorageSelector;
use vstd::prelude::*;

verus! {

/// A cell position: signed, so that an initial jump may overshoot before
/// wrap or skip brings it back inside the grid.
#[derive(Copy, Clone, PartialEq, Eq, Structural)]
pub struct Address {
    pub row: i32,
    pub col: i32,
}

/// A direction with magnitude: along rows (vertical) or columns
/// (horizontal), by -2, -1, +1 or +2 during execution.
#[derive(Copy, Clone, PartialEq, Eq, Structural)]
pub enum Step {
    Row(i8),
    Column(i8),
}

/// The execution cursor: where, and which way.
#[derive(Copy, Clone, PartialEq, Eq, Structural)]
pub struct Cursor {
    pub address: Address,
    pub step: Step,
}

/// A direction's signed magnitude.
pub open spec fn step_mag(s: Step) -> int {
    match s {
        Step::Row(d) => d as int,
        Step::Column(d) => d as int,
    }
}

/// Directions that occur during execution: magnitude 1 or 2, either way.
pub open spec fn step_ok(s: Step) -> bool {
    -2 <= step_mag(s) <= 2 && step_mag(s) != 0
}

/// A direction with its magnitude negated.
pub open spec fn step_rev(s: Step) -> Step {
    match s {
        Step::Row(d) => Step::Row((-(d as int)) as i8),
        Step::Column(d) => Step::Column((-(d as int)) as i8),
    }
}

/// The direction after a cell's movement directive and the reverse flag
/// are applied to the current direction.
pub open spec fn step_next(cur: Step, cc: CursorControl, reverse: bool) -> Step {
    let base = match cc {
        CursorControl::Nop => cur,
        CursorControl::Left => Step::Column(-1i8),
        CursorControl::Left2 => Step::Column(-2i8),
        CursorControl::Right => Step::Column(1i8),
        CursorControl::Right2 => Step::Column(2i8),
        CursorControl::Up => Step::Row(-1i8),
        CursorControl::Up2 => Step::Row(-2i8),
        CursorControl::Down => Step::Row(1i8),
        CursorControl::Down2 => Step::Row(2i8),
        CursorControl::MirrorV => match cur {
            Step::Row(_) => step_rev(cur),
            _ => cur,
        },
        CursorControl::MirrorH => match cur {
            Step::Column(_) => step_rev(cur),
            _ => cur,
        },
        CursorControl::Mirror => step_rev(cur),
    };
    if reverse {
        step_rev(base)
    } else {
        base
    }
}

impl Step {
    /// Negates the magnitude.
    pub fn reverse(self) -> (r: Step)
        requires
            step_ok(self),
        ensures
            r == step_rev(self),
    {
        match self {
            Step::Row(v) => Step::Row(-v),
            Step::Column(v) => Step::Column(-v),
        }
    }

    /// Applies a movement directive and the reverse flag.
    pub fn next(self, cursor_control: CursorControl, reverse: bool) -> (r: Step)
        requires
            step_ok(self),
        ensures
            r == step_next(self, cursor_control, reverse),
            step_ok(r),
    {
        let result = match cursor_control {
            CursorControl::Nop => self,
            CursorControl::Left => Step::Column(-1),
            CursorControl::Left2 => Step::Column(-2),
            CursorControl::Right => Step::Column(1),
            CursorControl::Right2 => Step::Column(2),
            CursorControl::Up => Step::Row(-1),
            CursorControl::Up2 => Step::Row(-2),
            CursorControl::Down => Step::Row(1),
            CursorControl::Down2 => Step::Row(2),
            CursorControl::MirrorV => match self {
                Step::Row(value) => Step::Row(-value),
                _ => self,
            },
            CursorControl::MirrorH => match self {
                Step::Column(value) => Step::Column(-value),
                _ => self,
            },
            CursorControl::Mirror => self.reverse(),
        };
        if reverse {
            result.reverse()
        } else {
            result
        }
    }
}

/// The grid as two borrowed slices: a flat cell sequence and a prefix-sum
/// index of row starts (one entry more than there are rows). The grid is
/// borrowed immutably for the whole execution: no operation can mutate a
/// cell.
pub struct BorrowedCode<'a> {
    pub index: &'a [usize],
    pub code: &'a [Inst],
}

/// Row `r` exists and holds a cell at column `col`.
pub open spec fn row_populated(lines: Seq<Seq<Inst>>, r: int, col: int) -> bool {
    0 <= r < lines.len() && 0 <= col < lines[r].len()
}

/// The cell a signed address names, if it exists.
pub open spec fn cell_at(lines: Seq<Seq<Inst>>, a: Address) -> Option<Inst> {
    if row_populated(lines, a.row as int, a.col as int) {
        Some(lines[a.row as int][a.col as int])
    } else {
        None
    }
}

/// Grid bounds and cell validity, as the movement engine and the
/// execution engine need them: dimensions stay clear of `i32` overflow
/// and every cell is an instruction the decoder could have produced.
pub open spec fn grid_ok(lines: Seq<Seq<Inst>>) -> bool {
    &&& lines.len() + 2 <= i32::MAX
    &&& forall|r: int| 0 <= r < lines.len() ==> (#[trigger] lines[r]).len() + 2 <= i32::MAX
    &&& forall|r: int, c: int|
        row_populated(lines, r, c) ==> inst_valid(#[trigger] lines[r][c])
}

/// Structural soundness of a prefix-sum row index over a flat cell
/// sequence, with the bounds `grid_ok` asks of the resulting lines.
pub open spec fn code_wf(index: Seq<usize>, code: Seq<Inst>) -> bool {
    &&& index.len() >= 1
    &&& index[0] == 0
    &&& index[index.len() - 1] == code.len()
    &&& forall|i: int| 0 <= i < index.len() - 1 ==> #[trigger] index[i] <= index[i + 1]
    &&& index.len() + 1 <= i32::MAX
    &&& forall|i: int|
        0 <= i < index.len() - 1 ==> #[trigger] index[i + 1] - index[i] + 2 <= i32::MAX
    &&& forall|i: int| 0 <= i < code.len() ==> inst_valid(#[trigger] code[i])
}

/// The rows a prefix-sum index cuts out of a flat cell sequence.
pub open spec fn code_lines(index: Seq<usize>, code: Seq<Inst>) -> Seq<Seq<Inst>> {
    Seq::new(
        (index.len() - 1) as nat,
        |r: int| code.subrange(index[r] as int, index[r + 1] as int),
    )
}

impl<'a> BorrowedCode<'a> {
    /// Structural soundness of the prefix-sum index.
    pub open spec fn wf(&self) -> bool {
        code_wf(self.index@, self.code@)
    }

    /// The number of rows.
    pub open spec fn height(&self) -> int {
        self.index@.len() - 1
    }

    /// The grid as a sequence of rows.
    pub open spec fn lines(&self) -> Seq<Seq<Inst>> {
        code_lines(self.index@, self.code@)
    }

    /// The index is monotone between any two positions, not only between
    /// neighbours.
    pub proof fn lemma_index_mono(&self, i: int, j: int)
        requires
            self.wf(),
            0 <= i <= j < self.index@.len(),
        ensures
            self.index@[i] <= self.index@[j],
        decreases j - i,
    {
        if i < j {
            self.lemma_index_mono(i, j - 1);
        }
    }

    /// Any row's cell range lies within the flat cell sequence.
    pub proof fn lemma_index_bounds(&self, r: int)
        requires
            self.wf(),
            0 <= r < self.height(),
        ensures
            self.index@[r] <= self.index@[r + 1] <= self.code@.len(),
    {
        self.lemma_index_mono(r + 1, self.index@.len() - 1);
    }

    /// A well-formed grid satisfies the bounds the engines need.
    pub proof fn lemma_grid_ok(&self)
        requires
            self.wf(),
        ensures
            grid_ok(self.lines()),
    {
        assert forall|r: int| 0 <= r < self.lines().len() implies (#[trigger] self.lines()[r]).len()
            + 2 <= i32::MAX by {
            self.lemma_index_bounds(r);
        }
        assert forall|r: int, c: int|
            row_populated(self.lines(), r, c) implies inst_valid(
            #[trigger] self.lines()[r][c],
        ) by {
            self.lemma_index_bounds(r);
            assert(self.lines()[r][c] == self.code@[self.index@[r] + c]);
        }
    }

    /// One row, when the signed row number names one.
    pub fn get_line(&self, row: i32) -> (r: Option<&'a [Inst]>)
        requires
            self.wf(),
        ensures
            match r {
                Some(line) => 0 <= row < self.height() && line@ == self.lines()[row as int],
                None => !(0 <= row < self.height()),
            },
    {
        if row < 0 {
            return None;
        }
        let r_us = row as usize;
        if r_us >= self.index.len() - 1 {
            return None;
        }
        let begin = self.index[r_us];
        let end = self.index[r_us + 1];
        proof {
            self.lemma_index_bounds(r_us as int);
        }
        Some(&self.code[begin..end])
    }

    /// The cell at a signed address, if it exists.
    pub fn get_inst(&self, address: Address) -> (r: Option<Inst>)
        requires
            self.wf(),
        ensures
            r == cell_at(self.lines(), address),
    {
        if address.col < 0 {
            return None;
        }
        let col = address.col as usize;
        match self.get_line(address.row) {
            None => None,
            Some(line) => {
                if col < line.len() {
                    Some(line[col])
                } else {
                    None
                }
            },
        }
    }
}

/// The row one skip step below `r` (wrapping to the top by the language's
/// `row + 1 < height` rule).
pub open spec fn next_row_down(h: int, r: int) -> int {
    if r + 1 < h {
        r + 1
    } else {
        0
    }
}

/// The row one skip step above `r` (wrapping to the bottom).
pub open spec fn next_row_up(h: int, r: int) -> int {
    if r >= 1 {
        r - 1
    } else {
        h - 1
    }
}

/// The first row populated at `col` on the cyclic skip walk from `r`,
/// within `fuel` steps.
pub open spec fn row_search(lines: Seq<Seq<Inst>>, col: int, r: int, down: bool, fuel: nat)
    -> Option<int>
    decreases fuel,
{
    if row_populated(lines, r, col) {
        Some(r)
    } else if fuel == 0 {
        None
    } else {
        let r1 = if down {
            next_row_down(lines.len() as int, r)
        } else {
            next_row_up(lines.len() as int, r)
        };
        row_search(lines, col, r1, down, (fuel - 1) as nat)
    }
}

/// How many skip steps the walk from `r0` needs to reach row `p`.
pub open spec fn search_dist(h: int, r0: int, p: int, down: bool) -> int {
    if down {
        if 0 <= r0 <= p {
            p - r0
        } else if p < r0 && r0 < h {
            h - r0 + p
        } else {
            1 + p
        }
    } else {
        if p <= r0 && r0 < h {
            r0 - p
        } else if 0 <= r0 && r0 < p {
            h + r0 - p
        } else {
            h - p
        }
    }
}

/// The skip walk finds a populated row whenever one exists in that
/// column, and `height + 1` fuel always suffices.
pub proof fn lemma_row_search_some(
    lines: Seq<Seq<Inst>>,
    col: int,
    r0: int,
    down: bool,
    p: int,
    fuel: nat,
)
    requires
        row_populated(lines, p, col),
        down ==> r0 >= 0,
        !down ==> r0 < lines.len(),
        fuel >= search_dist(lines.len() as int, r0, p, down),
    ensures
        row_search(lines, col, r0, down, fuel) is Some,
    decreases search_dist(lines.len() as int, r0, p, down),
{
    let h = lines.len() as int;
    if !row_populated(lines, r0, col) {
        assert(r0 != p);
        let r1 = if down {
            next_row_down(h, r0)
        } else {
            next_row_up(h, r0)
        };
        assert(search_dist(h, r1, p, down) == search_dist(h, r0, p, down) - 1);
        lemma_row_search_some(lines, col, r1, down, p, (fuel - 1) as nat);
    }
}

/// The skip distance never exceeds the height, so the fuel `height + 1`
/// used by the movement specification is always enough.
pub proof fn lemma_search_dist_bound(h: int, r0: int, p: int, down: bool)
    requires
        0 <= p < h,
        down ==> r0 >= 0,
        !down ==> r0 < h,
    ensures
        0 <= search_dist(h, r0, p, down) <= h,
{
}

/// The skip walk only ever answers with a populated row.
pub proof fn lemma_row_search_populated(
    lines: Seq<Seq<Inst>>,
    col: int,
    r: int,
    down: bool,
    fuel: nat,
)
    ensures
        row_search(lines, col, r, down, fuel) is Some ==> {
            let r1 = row_search(lines, col, r, down, fuel).unwrap();
            row_populated(lines, r1, col)
        },
    decreases fuel,
{
    if !row_populated(lines, r, col) && fuel > 0 {
        let r1 = if down {
            next_row_down(lines.len() as int, r)
        } else {
            next_row_up(lines.len() as int, r)
        };
        lemma_row_search_populated(lines, col, r1, down, (fuel - 1) as nat);
    }
}

/// Movement directives keep the direction legal.
pub proof fn lemma_step_next_ok(cur: Step, cc: CursorControl, reverse: bool)
    requires
        step_ok(cur),
    ensures
        step_ok(step_next(cur, cc, reverse)),
{
}

/// Whatever one advance yields, it stands on a cell with a legal
/// direction.
pub proof fn lemma_spec_advance_cell(
    lines: Seq<Seq<Inst>>,
    cursor: Cursor,
    cc: CursorControl,
    reverse: bool,
)
    requires
        grid_ok(lines),
        step_ok(cursor.step),
        cell_at(lines, cursor.address) is Some,
    ensures
        spec_advance(lines, cursor, cc, reverse) is Some ==> {
            let c2 = spec_advance(lines, cursor, cc, reverse).unwrap();
            &&& cell_at(lines, c2.address) is Some
            &&& step_ok(c2.step)
        },
{
    lemma_step_next_ok(cursor.step, cc, reverse);
    let d = step_next(cursor.step, cc, reverse);
    let a = cursor.address;
    match d {
        Step::Row(k) => {
            lemma_row_search_populated(
                lines,
                a.col as int,
                a.row + k,
                k > 0,
                (lines.len() + 1) as nat,
            );
        },
        Step::Column(_) => {},
    }
}

/// From a cell, an advance always finds a cell: the wrap stays in the
/// populated row, and the skip can always come back to the row the
/// cursor left.
pub proof fn lemma_spec_advance_some(
    lines: Seq<Seq<Inst>>,
    cursor: Cursor,
    cc: CursorControl,
    reverse: bool,
)
    requires
        grid_ok(lines),
        step_ok(cursor.step),
        cell_at(lines, cursor.address) is Some,
    ensures
        spec_advance(lines, cursor, cc, reverse) is Some,
{
    lemma_step_next_ok(cursor.step, cc, reverse);
    let d = step_next(cursor.step, cc, reverse);
    let a = cursor.address;
    match d {
        Step::Row(k) => {
            lemma_search_dist_bound(lines.len() as int, a.row + k, a.row as int, k > 0);
            lemma_row_search_some(
                lines,
                a.col as int,
                a.row + k,
                k > 0,
                a.row as int,
                (lines.len() + 1) as nat,
            );
        },
        Step::Column(_) => {},
    }
}

/// The cursor after one advance: the new direction, and the address the
/// wrap or skip rules produce. `None` only when no row is populated at
/// the target column, which cannot happen while the cursor stands on a
/// cell.
pub open spec fn spec_advance(
    lines: Seq<Seq<Inst>>,
    cursor: Cursor,
    cc: CursorControl,
    reverse: bool,
) -> Option<Cursor> {
    let d = step_next(cursor.step, cc, reverse);
    let a = cursor.address;
    match d {
        Step::Column(k) => {
            let len = lines[a.row as int].len() as int;
            let c1 = a.col + k;
            let c2 = if c1 < 0 && k < 0 {
                len - 1
            } else if c1 >= len && k > 0 {
                0
            } else {
                c1
            };
            if row_populated(lines, a.row as int, c2) {
                Some(Cursor { address: Address { row: a.row, col: c2 as i32 }, step: d })
            } else {
                None
            }
        },
        Step::Row(k) => {
            match row_search(lines, a.col as int, a.row + k, k > 0, (lines.len() + 1) as nat) {
                Some(r) => Some(
                    Cursor { address: Address { row: r as i32, col: a.col }, step: d },
                ),
                None => None,
            }
        },
    }
}

impl Cursor {
    /// The initial cursor: origin, moving down.
    pub fn new() -> (r: Cursor)
        ensures
            r == (Cursor { address: Address { row: 0, col: 0 }, step: Step::Row(1i8) }),
    {
        Cursor { address: Address { row: 0, col: 0 }, step: Step::Row(1) }
    }

    /// Moves the cursor once: applies the movement directive and the
    /// reverse flag to the direction, then advances with wrap (columns)
    /// or skip (rows). The cursor must stand on a cell, and lands on one.
    pub fn advance(&mut self, code: &BorrowedCode, cursor_control: CursorControl, reverse: bool)
        requires
            code.wf(),
            step_ok(old(self).step),
            cell_at(code.lines(), old(self).address) is Some,
        ensures
            spec_advance(code.lines(), *old(self), cursor_control, reverse) == Some(*final(self)),
            step_ok(final(self).step),
            cell_at(code.lines(), final(self).address) is Some,
    {
        let ghost lines = code.lines();
        let ghost start = *old(self);
        proof {
            code.lemma_grid_ok();
        }
        self.step = self.step.next(cursor_control, reverse);
        match self.step {
            Step::Row(amount) => {
                let ghost p = start.address.row as int;
                let ghost col = start.address.col as int;
                self.address.row = self.address.row + amount as i32;
                let height: i32 = (code.index.len() - 1) as i32;
                proof {
                    lemma_search_dist_bound(lines.len() as int, self.address.row as int, p,
                        amount > 0);
                    lemma_row_search_some(lines, col, self.address.row as int, amount > 0, p,
                        (lines.len() + 1) as nat);
                }
                let ghost target = row_search(lines, col, self.address.row as int, amount > 0,
                    (lines.len() + 1) as nat);
                let ghost mut fuel = (lines.len() + 1) as nat;
                loop
                    invariant
                        code.wf(),
                        lines == code.lines(),
                        grid_ok(lines),
                        height == lines.len() as i32,
                        col == self.address.col as int,
                        self.address.col == start.address.col,
                        self.step == step_next(start.step, cursor_control, reverse),
                        self.step == Step::Row(amount),
                        amount != 0,
                        amount > 0 ==> self.address.row >= 0,
                        amount <= 0 ==> (self.address.row as int) < lines.len(),
                        self.address.row as int <= lines.len() + 1,
                        self.address.row as int >= -2,
                        0 <= p < lines.len(),
                        row_populated(lines, p, col),
                        target is Some,
                        row_search(lines, col, self.address.row as int, amount > 0, fuel)
                            == target,
                    ensures
                        row_populated(lines, self.address.row as int, col),
                        target == Some(self.address.row as int),
                        col == self.address.col as int,
                        self.address.col == start.address.col,
                        self.step == step_next(start.step, cursor_control, reverse),
                        self.step == Step::Row(amount),
                    decreases fuel,
                {
                    match code.get_inst(self.address) {
                        Some(_) => {
                            break ;
                        },
                        None => {
                            if amount > 0 {
                                if self.address.row + 1 < height {
                                    self.address.row = self.address.row + 1;
                                } else {
                                    self.address.row = 0;
                                }
                            } else {
                                if self.address.row >= 1 {
                                    self.address.row = self.address.row - 1;
                                } else {
                                    self.address.row = height - 1;
                                }
                            }
                            proof {
                                fuel = (fuel - 1) as nat;
                            }
                        },
                    }
                }
            },
            Step::Column(amount) => {
                self.address.col = self.address.col + amount as i32;
                let line_len: i32 = match code.get_line(self.address.row) {
                    Some(line) => line.len() as i32,
                    None => {
                        // the cursor stood on a cell of this very row
                        proof {
                            assert(false);
                        }
                        0
                    },
                };
                if self.address.col < 0 && amount < 0 {
                    self.address.col = line_len - 1;
                } else if self.address.col >= line_len && amount > 0 {
                    self.address.col = 0;
                }
            },
        }
    }
}

/// The live machine state: cursor, containers, and byte-level input and
/// output. The view abstracts it to the model the semantics steps.
pub struct Env {
    pub cursor: Cursor,
    pub storages: StorageSelector,
    pub input: Vec<u8>,
    pub pos: usize,
    pub output: Vec<u8>,
}

impl View for Env {
    type V = EnvModel;

    open spec fn view(&self) -> EnvModel {
        EnvModel {
            cursor: self.cursor,
            sel: self.storages.select,
            stacks: self.storages.stacks_view(),
            queue: self.storages.queue_view(),
            input: self.input@.skip(self.pos as int),
            output: self.output@,
        }
    }
}

impl Env {
    /// The state's own soundness: a proper container family, and a read
    /// position inside the input.
    pub open spec fn wf(&self) -> bool {
        &&& self.storages.wf()
        &&& self.pos <= self.input@.len()
    }

    /// A fresh machine over the given input: cursor at the origin
    /// moving down, all containers empty, stack 0 selected, no output.
    pub fn new(input: Vec<u8>) -> (r: Env)
        ensures
            r.wf(),
            r@.cursor == (Cursor { address: Address { row: 0, col: 0 }, step: Step::Row(1i8) }),
            r@.sel == Select::Stack(0u8),
            r@.stacks.len() == 28,
            forall|i: int| 0 <= i < 28 ==> (#[trigger] r@.stacks[i]).len() == 0,
            r@.queue.len() == 0,
            r@.input == input@,
            r@.output == Seq::<u8>::empty(),
    {
        let r = Env {
            cursor: Cursor::new(),
            storages: StorageSelector::new(),
            input,
            pos: 0,
            output: Vec::new(),
        };
        proof {
            assert(r@.input =~= r.input@);
        }
        r
    }

    /// Reads one UTF-8 scalar from the input and returns its code
    /// point; a fault when no valid encoding starts there (also at the
    /// end of the input).
    pub fn read_char(&mut self) -> (r: Result<i32, Fault>)
        requires
            old(self).wf(),
        ensures
            final(self).wf(),
            final(self).cursor == old(self).cursor,
            final(self).storages == old(self).storages,
            final(self).output == old(self).output,
            match r {
                Ok(v) => {
                    let p = next_scalar(old(self)@.input).unwrap();
                    &&& next_scalar(old(self)@.input) is Some
                    &&& v == p.0 as i32
                    &&& final(self)@.input == old(self)@.input.skip(p.1)
                },
                Err(f) => {
                    &&& f == Fault::Input
                    &&& next_scalar(old(self)@.input) is None
                    &&& *final(self) == *old(self)
                },
            },
    {
        match take_scalar(&self.input, self.pos) {
            Some((v, len)) => {
                let ghost rest = self.input@.skip(self.pos as int);
                let n = self.input.len();
                proof {
                    assert(self.pos + len <= n);
                }
                self.pos = self.pos + len;
                proof {
                    assert(self.input@.skip(self.pos as int) =~= rest.skip(len as int));
                }
                Ok(v as i32)
            },
            None => Err(Fault::Input),
        }
    }

    /// Reads one line from the input and parses its whitespace-trimmed
    /// content as a decimal 32-bit value; a fault when it does not
    /// parse. The line and its terminator are consumed either way.
    pub fn read_int(&mut self) -> (r: Result<i32, Fault>)
        requires
            old(self).wf(),
        ensures
            final(self).wf(),
            final(self).cursor == old(self).cursor,
            final(self).storages == old(self).storages,
            final(self).output == old(self).output,
            match r {
                Ok(v) => {
                    &&& read_int_spec(old(self)@.input) == Some(v)
                    &&& final(self)@.input == old(self)@.input.skip(
                        line_consumed(old(self)@.input),
                    )
                },
                Err(f) => {
                    &&& f == Fault::Parse
                    &&& read_int_spec(old(self)@.input) is None
                    &&& *final(self) == *old(self)
                },
            },
    {
        let ghost rest = self.input@.skip(self.pos as int);
        let (v, new_pos) = read_int_at(&self.input, self.pos);
        match v {
            Some(v) => {
                self.pos = new_pos;
                proof {
                    assert(self.input@.skip(self.pos as int) =~= rest.skip(line_consumed(rest)));
                }
                Ok(v)
            },
            None => Err(Fault::Parse),
        }
    }
}

/// What an engine's step reports: keep going, halt with an exit code,
/// or abort with a fault.
pub enum Flow {
    Continue,
    Halt(i32),
    Fault(Fault),
}

/// An execution engine: it advances the machine along the chain that
/// `spec_step` defines — one step for the plain interpreter, several at
/// once for the trace-accelerated engine — and reports halts and faults
/// exactly as the chain does.
pub trait Engine {
    /// The grid the engine runs.
    spec fn code_model(&self) -> Seq<Seq<Inst>>;

    /// The engine's own soundness.
    spec fn wf(&self) -> bool;

    /// Advances the machine.
    fn step(&self, env: &mut Env) -> (r: Flow)
        requires
            self.wf(),
            old(env).wf(),
            env_ok(self.code_model(), old(env)@),
        ensures
            ({
                let code = self.code_model();
                match r {
                    Flow::Continue => {
                        &&& final(env).wf()
                        &&& env_ok(code, final(env)@)
                        &&& exists|k: nat|
                            1 <= k && steps_to(code, old(env)@, k) == Some(final(env)@)
                    },
                    Flow::Halt(exit) => exists|n: nat, s: EnvModel|
                        steps_to(code, old(env)@, n) == Some(s) && spec_step(code, s)
                            == StepRes::Halted(exit, final(env)@.output),
                    Flow::Fault(f) => exists|n: nat, s: EnvModel|
                        steps_to(code, old(env)@, n) == Some(s) && spec_step(code, s)
                            == StepRes::Aborted(f, final(env)@.output),
                }
            }),
    ;
}

/// A machine wired to an engine.
pub struct VM<E> {
    pub engine: E,
    pub env: Env,
}

impl<E: Engine> VM<E> {
    /// Ready to run: engine and state sound, and the initial cell
    /// exists.
    pub open spec fn wf(&self) -> bool {
        &&& self.engine.wf()
        &&& self.env.wf()
        &&& env_ok(self.engine.code_model(), self.env@)
    }

    /// Wires a machine state to an engine.
    pub fn new(env: Env, engine: E) -> (r: VM<E>)
        ensures
            r.engine == engine,
            r.env == env,
    {
        VM { engine, env }
    }

    /// Runs the machine for at most `budget` engine rounds. `Halt`
    /// carries the exit code and `Fault` the fatal condition, each with
    /// the output being exactly that of the unique point where the
    /// specification-level run halts or aborts; `Continue` means the
    /// budget ran out first, and the machine can simply be run further.
    /// A program that never halts returns `Continue` however large the
    /// budget.
    pub fn execute(&mut self, budget: u64) -> (r: Flow)
        requires
            old(self).wf(),
        ensures
            final(self).engine == old(self).engine,
            ({
                let code = old(self).engine.code_model();
                match r {
                    Flow::Continue => final(self).wf() && exists|n: nat|
                        n >= budget && steps_to(code, old(self).env@, n) == Some(
                            final(self).env@,
                        ),
                    Flow::Halt(exit) => exists|n: nat, s: EnvModel|
                        steps_to(code, old(self).env@, n) == Some(s) && spec_step(code, s)
                            == StepRes::Halted(exit, final(self).env@.output),
                    Flow::Fault(f) => exists|n: nat, s: EnvModel|
                        steps_to(code, old(self).env@, n) == Some(s) && spec_step(code, s)
                            == StepRes::Aborted(f, final(self).env@.output),
                }
            }),
    {
        let ghost s0 = self.env@;
        let ghost code = self.engine.code_model();
        let ghost mut n: nat = 0;
        let mut i: u64 = 0;
        while i < budget
            invariant
                i <= budget,
                self.engine == old(self).engine,
                code == self.engine.code_model(),
                s0 == old(self).env@,
                self.engine.wf(),
                self.env.wf(),
                env_ok(code, self.env@),
                steps_to(code, s0, n) == Some(self.env@),
                n >= i,
            decreases budget - i,
        {
            let ghost pre = self.env@;
            let flow = self.engine.step(&mut self.env);
            match flow {
                Flow::Continue => {
                    proof {
                        let k = choose|k: nat|
                            1 <= k && steps_to(code, pre, k) == Some(self.env@);
                        crate::semantics::lemma_steps_to_compose(code, s0, pre, n, k);
                        n = n + k;
                    }
                },
                Flow::Halt(exit) => {
                    proof {
                        let (n2, s): (nat, EnvModel) = choose|n2: nat, s: EnvModel|
                            steps_to(code, pre, n2) == Some(s) && spec_step(code, s)
                                == StepRes::Halted(exit, self.env@.output);
                        crate::semantics::lemma_steps_to_compose(code, s0, pre, n, n2);
                        assert(steps_to(code, s0, n + n2) == Some(s));
                    }
                    return Flow::Halt(exit);
                },
                Flow::Fault(f) => {
                    proof {
                        let (n2, s): (nat, EnvModel) = choose|n2: nat, s: EnvModel|
                            steps_to(code, pre, n2) == Some(s) && spec_step(code, s)
                                == StepRes::Aborted(f, self.env@.output);
                        crate::semantics::lemma_steps_to_compose(code, s0, pre, n, n2);
                        assert(steps_to(code, s0, n + n2) == Some(s));
                    }
                    return Flow::Fault(f);
                },
            }
            i += 1;
        }
        Flow::Continue
    }

    /// The output written so far.
    pub fn output(&self) -> (r: &Vec<u8>)
        ensures
            r@ == self.env@.output,
    {
        &self.env.output
    }
}

} // verus!
