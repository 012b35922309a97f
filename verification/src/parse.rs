//! The syllable decoder and the grid builder.
//!
//! A character inside the precomposed Hangul block `[U+AC00, U+D7A3]`
//! decomposes into an initial consonant (choseong), a medial vowel
//! (jungseong) and a final consonant (jongseong); the vowel selects the
//! cursor movement, the two consonants select the operation. Every other
//! character decodes to a no-op. Decoding never fails.

use crate::inst::{sel_valid, CursorControl, Inst, Oper, Select};
use crate::text::{chars_of, source_lines, split_source};
use crate::vm::{code_lines, code_wf, BorrowedCode};
use vstd::arithmetic::div_mod::{
    lemma_fundamental_div_mod, lemma_mod_bound, lemma_mod_mod,
};
use vstd::prelude::*;

verus! {

/// The movement a medial vowel selects.
pub open spec fn movement_of(second: int) -> CursorControl {
    if second == 0 {
        CursorControl::Right
    } else if second == 2 {
        CursorControl::Right2
    } else if second == 4 {
        CursorControl::Left
    } else if second == 6 {
        CursorControl::Left2
    } else if second == 8 {
        CursorControl::Up
    } else if second == 12 {
        CursorControl::Up2
    } else if second == 13 {
        CursorControl::Down
    } else if second == 17 {
        CursorControl::Down2
    } else if second == 18 {
        CursorControl::MirrorV
    } else if second == 19 {
        CursorControl::Mirror
    } else if second == 20 {
        CursorControl::MirrorH
    } else {
        CursorControl::Nop
    }
}

/// The operation a final consonant selects under the initial "ㅂ": a
/// literal push of that jamo's stroke count, or one of the two reads.
pub open spec fn jongseong_push(last: int) -> Oper {
    if last == 0 {
        Oper::Push(0u8)
    } else if last == 1 || last == 4 || last == 19 {
        Oper::Push(2u8)
    } else if last == 7 || last == 22 || last == 24 {
        Oper::Push(3u8)
    } else if last == 2 || last == 3 || last == 16 || last == 17 || last == 20 || last == 23
        || last == 25 || last == 26 {
        Oper::Push(4u8)
    } else if last == 5 || last == 6 || last == 8 {
        Oper::Push(5u8)
    } else if last == 18 {
        Oper::Push(6u8)
    } else if last == 9 || last == 12 {
        Oper::Push(7u8)
    } else if last == 15 {
        Oper::Push(8u8)
    } else if last == 10 || last == 11 || last == 13 || last == 14 {
        Oper::Push(9u8)
    } else if last == 21 {
        Oper::ReadInt
    } else if last == 27 {
        Oper::ReadChar
    } else {
        Oper::Nop
    }
}

/// The container a final consonant selects.
pub open spec fn container_of(last: int) -> Select {
    if last == 21 {
        Select::Queue
    } else if last == 27 {
        Select::Channel
    } else {
        Select::Stack(last as u8)
    }
}

/// The operation an initial consonant selects, some inspecting the
/// final consonant.
pub open spec fn oper_of(first: int, last: int) -> Oper {
    if first == 2 {
        Oper::Div
    } else if first == 3 {
        Oper::Add
    } else if first == 4 {
        Oper::Mul
    } else if first == 5 {
        Oper::Mod
    } else if first == 6 {
        if last == 21 {
            Oper::WriteInt
        } else if last == 27 {
            Oper::WriteChar
        } else {
            Oper::Pop
        }
    } else if first == 7 {
        jongseong_push(last)
    } else if first == 8 {
        Oper::Dup
    } else if first == 9 {
        Oper::Select(container_of(last))
    } else if first == 10 {
        Oper::Move(container_of(last))
    } else if first == 12 {
        Oper::Compare
    } else if first == 14 {
        Oper::Cond
    } else if first == 16 {
        Oper::Sub
    } else if first == 17 {
        Oper::Swap
    } else if first == 18 {
        Oper::Halt
    } else {
        Oper::Nop
    }
}

/// The instruction a code point decodes to: `(Nop, Nop)` outside the
/// Hangul syllable block, the jamo-selected pair inside it.
pub open spec fn decode_cp(cp: u32) -> Inst {
    if cp < 0xAC00 || cp > 0xD7A3 {
        Inst { cursor_control: CursorControl::Nop, oper: Oper::Nop }
    } else {
        let idx = cp - 0xAC00;
        Inst {
            cursor_control: movement_of(idx % 588 / 28),
            oper: oper_of(idx / 588, idx % 28),
        }
    }
}

/// The instruction a character decodes to.
pub open spec fn spec_decode(ch: char) -> Inst {
    decode_cp(ch as u32)
}

/// Decoding only produces valid instructions: selectors stay within the
/// container family.
pub proof fn lemma_decode_valid(cp: u32)
    ensures
        crate::inst::inst_valid(decode_cp(cp)),
{
    if 0xAC00 <= cp <= 0xD7A3 {
        let idx = (cp - 0xAC00) as int;
        lemma_mod_bound(idx, 28);
        assert(sel_valid(container_of(idx % 28)));
    }
}

/// The decomposition round-trips: recombining the three jamo indices of
/// a code point in the Hangul syllable block reproduces its offset, and
/// each index stays within its table.
pub proof fn lemma_syllable_roundtrip(cp: u32)
    requires
        0xAC00 <= cp <= 0xD7A3,
    ensures
        ({
            let idx = (cp - 0xAC00) as int;
            let first = idx / 588;
            let second = idx % 588 / 28;
            let last = idx % 28;
            &&& 0 <= first < 19
            &&& 0 <= second < 21
            &&& 0 <= last < 28
            &&& first * 588 + second * 28 + last == idx
        }),
{
    let idx = (cp - 0xAC00) as int;
    let first = idx / 588;
    let r = idx % 588;
    let second = r / 28;
    let last = idx % 28;
    lemma_fundamental_div_mod(idx, 588);
    lemma_mod_bound(idx, 588);
    lemma_fundamental_div_mod(r, 28);
    lemma_mod_bound(r, 28);
    lemma_mod_mod(idx, 28, 21);
    assert(r % 28 == idx % 28);
    assert(first * 588 + second * 28 + last == idx) by (nonlinear_arith)
        requires
            idx == 588 * first + r,
            r == 28 * second + r % 28,
            r % 28 == last,
    ;
    assert(0 <= first < 19) by (nonlinear_arith)
        requires
            idx == 588 * first + r,
            0 <= r < 588,
            0 <= idx <= 0x2BA3,
    ;
    assert(0 <= second < 21) by (nonlinear_arith)
        requires
            r == 28 * second + r % 28,
            0 <= r % 28 < 28,
            0 <= r < 588,
    ;
}

/// A character outside the Hangul syllable block decodes to a plain
/// no-op: no movement, no operation.
pub proof fn lemma_decode_outside_block(cp: u32)
    requires
        cp < 0xAC00 || cp > 0xD7A3,
    ensures
        decode_cp(cp) == (Inst { cursor_control: CursorControl::Nop, oper: Oper::Nop }),
{
}

/// Decodes the final consonant's push operation (initial "ㅂ").
pub fn push_from_jongseong_index(index: u32) -> (r: Oper)
    requires
        index < 28,
    ensures
        r == jongseong_push(index as int),
{
    match index {
        0 => Oper::Push(0),
        1 => Oper::Push(2),
        2 => Oper::Push(4),
        3 => Oper::Push(4),
        4 => Oper::Push(2),
        5 => Oper::Push(5),
        6 => Oper::Push(5),
        7 => Oper::Push(3),
        8 => Oper::Push(5),
        9 => Oper::Push(7),
        10 => Oper::Push(9),
        11 => Oper::Push(9),
        12 => Oper::Push(7),
        13 => Oper::Push(9),
        14 => Oper::Push(9),
        15 => Oper::Push(8),
        16 => Oper::Push(4),
        17 => Oper::Push(4),
        18 => Oper::Push(6),
        19 => Oper::Push(2),
        20 => Oper::Push(4),
        21 => Oper::ReadInt,
        22 => Oper::Push(3),
        23 => Oper::Push(4),
        24 => Oper::Push(3),
        25 => Oper::Push(4),
        26 => Oper::Push(4),
        _ => Oper::ReadChar,
    }
}

/// Decodes the final consonant's container selector.
pub fn select_from_jongseong_index(index: u32) -> (r: Select)
    requires
        index < 28,
    ensures
        r == container_of(index as int),
{
    match index {
        21 => Select::Queue,
        27 => Select::Channel,
        _ => Select::Stack(index as u8),
    }
}

impl core::convert::From<char> for Inst {
    /// Decodes one character into its instruction.
    fn from(ch: char) -> (r: Inst) {
        let cp = ch as u32;
        if cp < 0xAC00 || cp > 0xD7A3 {
            return Inst::new(CursorControl::Nop, Oper::Nop);
        }
        let index = cp - 0xAC00;
        let first = index / (28 * 21);
        let second = index % (28 * 21) / 28;
        let last = index % 28;

        let cursor_control = match second {
            0 => CursorControl::Right,
            2 => CursorControl::Right2,
            4 => CursorControl::Left,
            6 => CursorControl::Left2,
            8 => CursorControl::Up,
            12 => CursorControl::Up2,
            13 => CursorControl::Down,
            17 => CursorControl::Down2,
            18 => CursorControl::MirrorV,
            19 => CursorControl::Mirror,
            20 => CursorControl::MirrorH,
            _ => CursorControl::Nop,
        };

        let oper = match first {
            2 => Oper::Div,
            3 => Oper::Add,
            4 => Oper::Mul,
            5 => Oper::Mod,
            6 => match last {
                21 => Oper::WriteInt,
                27 => Oper::WriteChar,
                _ => Oper::Pop,
            },
            7 => push_from_jongseong_index(last),
            8 => Oper::Dup,
            9 => Oper::Select(select_from_jongseong_index(last)),
            10 => Oper::Move(select_from_jongseong_index(last)),
            11 => Oper::Nop,
            12 => Oper::Compare,
            14 => Oper::Cond,
            16 => Oper::Sub,
            17 => Oper::Swap,
            18 => Oper::Halt,
            _ => Oper::Nop,
        };

        Inst::new(cursor_control, oper)
    }
}

impl vstd::std_specs::convert::FromSpecImpl<char> for Inst {
    open spec fn obeys_from_spec() -> bool {
        true
    }

    open spec fn from_spec(ch: char) -> Inst {
        spec_decode(ch)
    }
}

/// One line of characters, decoded cell by cell.
pub open spec fn decode_line(l: Seq<char>) -> Seq<Inst> {
    l.map_values(|c: char| spec_decode(c))
}

/// A whole source, decoded line by line.
pub open spec fn grid_of(lines: Seq<Seq<char>>) -> Seq<Seq<Inst>> {
    lines.map_values(|l: Seq<char>| decode_line(l))
}

/// The number of cells on the first `k` lines.
pub open spec fn flat_len(lines: Seq<Seq<char>>, k: int) -> int
    decreases k,
{
    if k <= 0 {
        0
    } else {
        flat_len(lines, k - 1) + lines[k - 1].len()
    }
}

/// The first `k` lines, decoded and laid out flat.
pub open spec fn flat_decode(lines: Seq<Seq<char>>, k: int) -> Seq<Inst>
    decreases k,
{
    if k <= 0 {
        Seq::empty()
    } else {
        flat_decode(lines, k - 1) + decode_line(lines[k - 1])
    }
}

proof fn lemma_flat_decode_len(lines: Seq<Seq<char>>, k: int)
    requires
        0 <= k <= lines.len(),
    ensures
        flat_decode(lines, k).len() == flat_len(lines, k),
    decreases k,
{
    if k > 0 {
        lemma_flat_decode_len(lines, k - 1);
    }
}

/// Every cell of the flattened decode is a decoded instruction, hence
/// valid.
proof fn lemma_flat_decode_valid(lines: Seq<Seq<char>>, k: int)
    requires
        0 <= k <= lines.len(),
    ensures
        forall|i: int|
            0 <= i < flat_decode(lines, k).len() ==> crate::inst::inst_valid(
                #[trigger] flat_decode(lines, k)[i],
            ),
    decreases k,
{
    if k > 0 {
        lemma_flat_decode_valid(lines, k - 1);
        assert forall|i: int| 0 <= i < flat_decode(lines, k).len() implies crate::inst::inst_valid(
            #[trigger] flat_decode(lines, k)[i],
        ) by {
            if i >= flat_decode(lines, k - 1).len() {
                let l = lines[k - 1];
                let j = i - flat_decode(lines, k - 1).len();
                assert(flat_decode(lines, k)[i] == decode_line(l)[j]);
                assert(decode_line(l)[j] == spec_decode(l[j]));
                lemma_decode_valid(l[j] as u32);
            }
        }
    }
}

/// Cutting the flattened decode at the prefix sums recovers each
/// decoded line.
proof fn lemma_flat_decode_slice(lines: Seq<Seq<char>>, r: int, k: int)
    requires
        0 <= r < k <= lines.len(),
    ensures
        flat_decode(lines, k).subrange(flat_len(lines, r), flat_len(lines, r + 1))
            == decode_line(lines[r]),
    decreases k,
{
    lemma_flat_decode_len(lines, k);
    if k == r + 1 {
        lemma_flat_decode_len(lines, r);
        assert(flat_decode(lines, k).subrange(flat_len(lines, r), flat_len(lines, r + 1))
            =~= decode_line(lines[r]));
    } else {
        lemma_flat_decode_slice(lines, r, k - 1);
        lemma_flat_decode_len(lines, k - 1);
        lemma_flat_len_mono(lines, 0, r);
        lemma_flat_len_mono(lines, r, r + 1);
        lemma_flat_len_mono(lines, r + 1, k - 1);
        assert(flat_decode(lines, k) == flat_decode(lines, k - 1) + decode_line(lines[k - 1]));
        assert forall|i: int|
            flat_len(lines, r) <= i < flat_len(lines, r + 1) implies #[trigger] flat_decode(
            lines,
            k,
        )[i] == flat_decode(lines, k - 1)[i] by {
            assert(i < flat_decode(lines, k - 1).len());
        }
        assert(flat_decode(lines, k).subrange(flat_len(lines, r), flat_len(lines, r + 1))
            =~= flat_decode(lines, k - 1).subrange(flat_len(lines, r), flat_len(lines, r + 1)));
    }
}

/// Prefix sums of line lengths grow with the line count.
proof fn lemma_flat_len_mono(lines: Seq<Seq<char>>, a: int, b: int)
    requires
        0 <= a <= b,
    ensures
        flat_len(lines, a) <= flat_len(lines, b),
    decreases b - a,
{
    if a < b {
        lemma_flat_len_mono(lines, a, b - 1);
    }
}

/// The grid: a flat cell sequence and a prefix-sum index of row starts.
/// Immutable once built; execution borrows it.
pub struct OwnedCode {
    pub index: Vec<usize>,
    pub code: Vec<Inst>,
}

impl OwnedCode {
    /// Structural soundness of the prefix-sum index.
    pub open spec fn wf(&self) -> bool {
        code_wf(self.index@, self.code@)
    }

    /// The grid as a sequence of rows.
    pub open spec fn lines(&self) -> Seq<Seq<Inst>> {
        code_lines(self.index@, self.code@)
    }

    /// Builds the grid from pre-split lines, decoding every character.
    #[verifier::rlimit(100)]
    pub fn parse_lines(lines: &Vec<Vec<char>>) -> (r: OwnedCode)
        requires
            lines@.len() + 2 <= i32::MAX,
            forall|i: int|
                0 <= i < lines@.len() ==> (#[trigger] lines@[i])@.len() + 2 <= i32::MAX,
        ensures
            r.wf(),
            r.lines() == grid_of(lines@.map_values(|l: Vec<char>| l@)),
    {
        let ghost ls = lines@.map_values(|l: Vec<char>| l@);
        let mut result = OwnedCode { index: Vec::new(), code: Vec::new() };
        let mut k: usize = 0;
        while k < lines.len()
            invariant
                k <= lines.len(),
                ls == lines@.map_values(|l: Vec<char>| l@),
                lines@.len() + 2 <= i32::MAX,
                forall|i: int|
                    0 <= i < lines@.len() ==> (#[trigger] lines@[i])@.len() + 2 <= i32::MAX,
                result.index@.len() == k,
                forall|r_i: int|
                    0 <= r_i < k ==> #[trigger] result.index@[r_i] == flat_len(ls, r_i),
                result.code@ == flat_decode(ls, k as int),
                result.code@.len() == flat_len(ls, k as int),
            decreases lines.len() - k,
        {
            result.index.push(result.code.len());
            let line = &lines[k];
            let mut j: usize = 0;
            while j < line.len()
                invariant
                    k < lines.len(),
                    j <= line.len(),
                    line@ == ls[k as int],
                    ls == lines@.map_values(|l: Vec<char>| l@),
                    lines@.len() + 2 <= i32::MAX,
                    forall|i: int|
                        0 <= i < lines@.len() ==> (#[trigger] lines@[i])@.len() + 2 <= i32::MAX,
                    result.index@.len() == k + 1,
                    forall|r_i: int|
                        0 <= r_i <= k ==> #[trigger] result.index@[r_i] == flat_len(ls, r_i),
                    result.code@ == flat_decode(ls, k as int) + decode_line(ls[k as int]).take(
                        j as int,
                    ),
                decreases line.len() - j,
            {
                let ghost pre = result.code@;
                result.code.push(Inst::from(line[j]));
                proof {
                    assert(decode_line(ls[k as int])[j as int] == spec_decode(line@[j as int]));
                    assert(flat_decode(ls, k as int) + decode_line(ls[k as int]).take(
                        j as int + 1,
                    ) =~= pre.push(spec_decode(line@[j as int])));
                }
                j += 1;
            }
            proof {
                assert(decode_line(ls[k as int]).take(line@.len() as int) =~= decode_line(
                    ls[k as int],
                ));
                lemma_flat_decode_len(ls, k as int + 1);
            }
            k += 1;
        }
        result.index.push(result.code.len());
        proof {
            let n = ls.len() as int;
            assert(result.index@[n] == flat_len(ls, n));
            lemma_flat_decode_valid(ls, n);
            assert forall|i: int| 0 <= i < result.index@.len() - 1 implies #[trigger] result
                .index@[i] <= result.index@[i + 1] by {
                lemma_flat_len_mono(ls, i, i + 1);
            }
            assert(result.wf());
            assert forall|r_i: int| 0 <= r_i < n implies #[trigger] result.lines()[r_i]
                == grid_of(ls)[r_i] by {
                lemma_flat_decode_slice(ls, r_i, n);
            }
            assert(result.lines() =~= grid_of(ls));
        }
        result
    }

    /// Decodes source text into the grid: split into lines at newlines,
    /// then decoded character by character.
    pub fn parse(code: &str) -> (r: OwnedCode)
        requires
            code@.len() + 2 <= i32::MAX,
        ensures
            r.wf(),
            r.lines() == grid_of(source_lines(code@)),
    {
        let chars = chars_of(code);
        let lines = split_source(&chars);
        proof {
            lemma_source_lines_bounds(chars@);
            assert forall|i: int| 0 <= i < lines@.len() implies (#[trigger] lines@[i])@.len() + 2
                <= i32::MAX by {
                assert(lines@.map_values(|l: Vec<char>| l@)[i] == (lines@[i])@);
                assert(lines@.map_values(|l: Vec<char>| l@)[i] == source_lines(chars@)[i]);
            }
            assert(lines@.len() == source_lines(chars@).len());
        }
        let r = Self::parse_lines(&lines);
        r
    }

    /// The grid as borrowed slices, for the engines to query.
    pub fn as_borrowed(&self) -> (r: BorrowedCode)
        ensures
            r.index@ == self.index@,
            r.code@ == self.code@,
            r.wf() == self.wf(),
            r.lines() == self.lines(),
    {
        BorrowedCode { index: self.index.as_slice(), code: self.code.as_slice() }
    }
}

/// Splitting cannot produce more lines than characters, nor a line
/// longer than the text.
proof fn lemma_split_raw_bounds(s: Seq<char>)
    ensures
        crate::text::split_raw(s).len() <= s.len(),
        forall|i: int|
            0 <= i < crate::text::split_raw(s).len() ==> (#[trigger] crate::text::split_raw(
                s,
            )[i]).len() <= s.len(),
    decreases s.len(),
{
    if s.len() > 0 {
        lemma_split_raw_bounds(s.drop_first());
    }
}

/// Bounds for `parse_lines`, carried over from the text's length.
proof fn lemma_source_lines_bounds(s: Seq<char>)
    requires
        s.len() + 2 <= i32::MAX,
    ensures
        source_lines(s).len() + 2 <= i32::MAX,
        forall|i: int|
            0 <= i < source_lines(s).len() ==> (#[trigger] source_lines(s)[i]).len() + 2
                <= i32::MAX,
{
    lemma_split_raw_bounds(s);
    assert forall|i: int| 0 <= i < source_lines(s).len() implies (#[trigger] source_lines(
        s,
    )[i]).len() + 2 <= i32::MAX by {
        assert(source_lines(s)[i] == crate::text::strip_cr(crate::text::split_raw(s)[i]));
    }
}

} // verus!
