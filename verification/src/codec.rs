//! Byte-level text codecs for the machine's input and output: an
//! incremental UTF-8 decoder and encoder, decimal formatting of 32-bit
//! values, and line-oriented decimal parsing with ASCII whitespace
//! trimming.
//!
//! The UTF-8 functions are specified against vstd's UTF-8 model: the
//! decoder consumes one to four bytes and rejects the first definitively
//! invalid prefix (bad leading byte, bad continuation byte, overlong
//! encoding, surrogate, or out-of-range value), exactly as strict UTF-8
//! validation does.

use vstd::prelude::*;
use vstd::utf8::{
    decode_first_scalar, encode_scalar, is_scalar, length_of_first_scalar, valid_first_scalar,
};

verus! {

/// The first scalar encoded at the front of `bytes` with its byte
/// length, or `None` when no valid encoding starts there.
pub open spec fn next_scalar(bytes: Seq<u8>) -> Option<(u32, int)> {
    if valid_first_scalar(bytes) {
        Some((decode_first_scalar(bytes), length_of_first_scalar(bytes)))
    } else {
        None
    }
}

/// Decodes the scalar starting at `pos`, returning it with its byte
/// length; `None` when the bytes there are not a valid encoding (also
/// when the input ends inside one).
pub fn take_scalar(input: &Vec<u8>, pos: usize) -> (r: Option<(u32, usize)>)
    requires
        pos <= input@.len(),
    ensures
        ({
            let rest = input@.skip(pos as int);
            match r {
                Some(p) => next_scalar(rest) == Some((p.0, p.1 as int)) && pos + p.1
                    <= input@.len(),
                None => next_scalar(rest) is None,
            }
        }),
{
    let ghost rest = input@.skip(pos as int);
    let n = input.len();
    if pos >= n {
        return None;
    }
    let b0 = input[pos];
    proof {
        assert(rest.len() == input@.len() - pos);
        assert(rest[0] == b0);
    }
    if b0 <= 0x7f {
        proof {
            assert((b0 & 0x7f) == b0) by (bit_vector)
                requires
                    b0 <= 0x7f,
            ;
        }
        Some((b0 as u32, 1))
    } else if 0xc0 <= b0 && b0 <= 0xdf {
        if n - pos < 2 {
            return None;
        }
        let b1 = input[pos + 1];
        if !(0x80 <= b1 && b1 <= 0xbf) {
            return None;
        }
        let v: u32 = (((b0 & 0x1f) as u32) << 6u32) | ((b1 & 0x3f) as u32);
        proof {
            assert(rest[1] == b1);
            assert(v <= 0x7ff) by (bit_vector)
                requires
                    v == (((b0 & 0x1f) as u32) << 6u32) | ((b1 & 0x3f) as u32),
            ;
            assert(vstd::utf8::decode_first_codepoint(rest) == v);
        }
        if v < 0x80 {
            return None;
        }
        Some((v, 2))
    } else if 0xe0 <= b0 && b0 <= 0xef {
        if n - pos < 3 {
            return None;
        }
        let b1 = input[pos + 1];
        let b2 = input[pos + 2];
        if !(0x80 <= b1 && b1 <= 0xbf) || !(0x80 <= b2 && b2 <= 0xbf) {
            return None;
        }
        let v: u32 = (((b0 & 0x0f) as u32) << 12u32) | (((b1 & 0x3f) as u32) << 6u32) | ((b2
            & 0x3f) as u32);
        proof {
            assert(rest[1] == b1 && rest[2] == b2);
            assert(v <= 0xffff) by (bit_vector)
                requires
                    v == (((b0 & 0x0f) as u32) << 12u32) | (((b1 & 0x3f) as u32) << 6u32) | ((b2
                        & 0x3f) as u32),
            ;
            assert(vstd::utf8::decode_first_codepoint(rest) == v);
        }
        if v < 0x800 {
            return None;
        }
        if 0xd800 <= v && v <= 0xdfff {
            return None;
        }
        Some((v, 3))
    } else if 0xf0 <= b0 && b0 <= 0xf7 {
        if n - pos < 4 {
            return None;
        }
        let b1 = input[pos + 1];
        let b2 = input[pos + 2];
        let b3 = input[pos + 3];
        if !(0x80 <= b1 && b1 <= 0xbf) || !(0x80 <= b2 && b2 <= 0xbf) || !(0x80 <= b3 && b3
            <= 0xbf) {
            return None;
        }
        let v: u32 = (((b0 & 0x07) as u32) << 18u32) | (((b1 & 0x3f) as u32) << 12u32) | (((b2
            & 0x3f) as u32) << 6u32) | ((b3 & 0x3f) as u32);
        proof {
            assert(rest[1] == b1 && rest[2] == b2 && rest[3] == b3);
            assert(vstd::utf8::decode_first_codepoint(rest) == v);
        }
        if v < 0x10000 || v > 0x10ffff {
            return None;
        }
        Some((v, 4))
    } else {
        None
    }
}

/// True exactly of the values UTF-8 can encode: at most `0x10FFFF` and
/// not a surrogate.
pub fn is_scalar_value(v: u32) -> (r: bool)
    ensures
        r == is_scalar(v),
{
    v < 0xd800 || (0xe000 <= v && v <= 0x10ffff)
}

/// Appends the UTF-8 encoding of a scalar to the output.
pub fn push_scalar_utf8(out: &mut Vec<u8>, v: u32)
    requires
        is_scalar(v),
    ensures
        final(out)@ == old(out)@ + encode_scalar(v),
{
    proof {
        assert(((v >> 6u32) & 0x1f) <= 0x1f && ((v >> 6u32) & 0x3f) <= 0x3f && (v & 0x3f) <= 0x3f
            && ((v >> 12u32) & 0x0f) <= 0x0f && ((v >> 12u32) & 0x3f) <= 0x3f && ((v >> 18u32)
            & 0x07) <= 0x07) by (bit_vector);
    }
    if v <= 0x7f {
        proof {
            assert((v & 0x7f) == v) by (bit_vector)
                requires
                    v <= 0x7f,
            ;
            assert(encode_scalar(v) =~= seq![(v & 0x7f) as u8]);
        }
        out.push(v as u8);
        proof {
            assert(v as u8 == (v & 0x7f) as u8);
        }
    } else if v <= 0x7ff {
        proof {
            assert(encode_scalar(v) =~= seq![
                0xc0 | ((v >> 6u32) & 0x1f) as u8,
                0x80 | (v & 0x3f) as u8,
            ]);
        }
        out.push(0xc0 | ((v >> 6u32) & 0x1f) as u8);
        out.push(0x80 | (v & 0x3f) as u8);
    } else if v <= 0xffff {
        out.push(0xe0 | ((v >> 12u32) & 0x0f) as u8);
        out.push(0x80 | ((v >> 6u32) & 0x3f) as u8);
        out.push(0x80 | (v & 0x3f) as u8);
    } else {
        out.push(0xf0 | ((v >> 18u32) & 0x07) as u8);
        out.push(0x80 | ((v >> 12u32) & 0x3f) as u8);
        out.push(0x80 | ((v >> 6u32) & 0x3f) as u8);
        out.push(0x80 | (v & 0x3f) as u8);
    }
    proof {
        assert(out@ =~= old(out)@ + encode_scalar(v));
    }
}

/// The decimal digits of a natural number, most significant first.
pub open spec fn dec_digits(n: nat) -> Seq<u8>
    decreases n,
{
    if n < 10 {
        seq![(48 + n) as u8]
    } else {
        dec_digits(n / 10).push((48 + n % 10) as u8)
    }
}

/// The decimal representation of a 32-bit value: no padding, a leading
/// `-` exactly for negative values.
pub open spec fn dec_repr(v: i32) -> Seq<u8> {
    if v >= 0 {
        dec_digits(v as nat)
    } else {
        seq![45u8] + dec_digits((-(v as int)) as nat)
    }
}

/// Appends the decimal digits of an unsigned value to the output.
pub fn push_dec_u32(out: &mut Vec<u8>, n: u32)
    ensures
        final(out)@ == old(out)@ + dec_digits(n as nat),
    decreases n,
{
    if n >= 10 {
        push_dec_u32(out, n / 10);
    }
    out.push(48 + (n % 10) as u8);
    proof {
        assert(out@ =~= old(out)@ + dec_digits(n as nat));
    }
}

/// Appends the decimal representation of a signed value to the output.
pub fn push_dec_i32(out: &mut Vec<u8>, v: i32)
    ensures
        final(out)@ == old(out)@ + dec_repr(v),
{
    if v >= 0 {
        push_dec_u32(out, v as u32);
    } else {
        out.push(45);
        let mag: u32 = (-(v as i64)) as u32;
        push_dec_u32(out, mag);
        proof {
            assert(out@ =~= old(out)@ + dec_repr(v));
        }
    }
}

/// ASCII whitespace, as `u8::is_ascii_whitespace` defines it.
pub open spec fn is_ascii_ws(b: u8) -> bool {
    b == 32 || b == 9 || b == 10 || b == 12 || b == 13
}

/// Tests a byte for ASCII whitespace.
pub fn is_ws_byte(b: u8) -> (r: bool)
    ensures
        r == is_ascii_ws(b),
{
    b == 32 || b == 9 || b == 10 || b == 12 || b == 13
}

/// A sequence without its leading ASCII whitespace.
pub open spec fn trim_front(s: Seq<u8>) -> Seq<u8>
    decreases s.len(),
{
    if s.len() > 0 && is_ascii_ws(s[0]) {
        trim_front(s.drop_first())
    } else {
        s
    }
}

/// A sequence without its trailing ASCII whitespace.
pub open spec fn trim_back(s: Seq<u8>) -> Seq<u8>
    decreases s.len(),
{
    if s.len() > 0 && is_ascii_ws(s.last()) {
        trim_back(s.drop_last())
    } else {
        s
    }
}

/// A sequence without leading and trailing ASCII whitespace.
pub open spec fn trimmed(s: Seq<u8>) -> Seq<u8> {
    trim_back(trim_front(s))
}

/// Skipping a fully-whitespace prefix that ends at a non-whitespace
/// byte (or at the end) is exactly `trim_front`.
proof fn lemma_trim_front_skip(s: Seq<u8>, j: int)
    requires
        0 <= j <= s.len(),
        forall|k: int| 0 <= k < j ==> is_ascii_ws(#[trigger] s[k]),
        j == s.len() || !is_ascii_ws(s[j]),
    ensures
        trim_front(s) == s.skip(j),
    decreases j,
{
    if j == 0 {
        assert(s.skip(0) =~= s);
    } else {
        lemma_trim_front_skip(s.drop_first(), j - 1);
        assert(s.drop_first().skip(j - 1) =~= s.skip(j));
    }
}

/// Dropping a fully-whitespace suffix that begins after a
/// non-whitespace byte (or at the start) is exactly `trim_back`.
proof fn lemma_trim_back_take(s: Seq<u8>, j: int)
    requires
        0 <= j <= s.len(),
        forall|k: int| j <= k < s.len() ==> is_ascii_ws(#[trigger] s[k]),
        j == 0 || !is_ascii_ws(s[j - 1]),
    ensures
        trim_back(s) == s.take(j),
    decreases s.len(),
{
    if j == s.len() {
        if s.len() > 0 && is_ascii_ws(s.last()) {
            assert(!is_ascii_ws(s[j - 1]));
            assert(false);
        }
        assert(s.take(j) =~= s);
    } else {
        lemma_trim_back_take(s.drop_last(), j);
        assert(s.drop_last().take(j) =~= s.take(j));
    }
}

/// The bounds of the trimmed segment within `[from, to)`: the smallest
/// window whose bytes carry the segment with ASCII whitespace removed
/// from both ends.
pub fn trim_range(input: &Vec<u8>, from: usize, to: usize) -> (r: (usize, usize))
    requires
        from <= to <= input@.len(),
    ensures
        from <= r.0 <= r.1 <= to,
        input@.subrange(r.0 as int, r.1 as int) == trimmed(
            input@.subrange(from as int, to as int),
        ),
{
    let ghost s = input@.subrange(from as int, to as int);
    let mut a = from;
    while a < to && is_ws_byte(input[a])
        invariant
            from <= a <= to <= input@.len(),
            forall|k: int| from <= k < a ==> is_ascii_ws(#[trigger] input@[k]),
        decreases to - a,
    {
        a += 1;
    }
    proof {
        lemma_trim_front_skip(s, a - from);
        assert(trim_front(s) =~= input@.subrange(a as int, to as int));
    }
    if a == to {
        proof {
            assert(trim_back(trim_front(s)) =~= input@.subrange(a as int, a as int));
        }
        return (a, a);
    }
    let ghost t = input@.subrange(a as int, to as int);
    let mut b = to;
    while b > a && is_ws_byte(input[b - 1])
        invariant
            from <= a <= b <= to <= input@.len(),
            forall|k: int| b <= k < to ==> is_ascii_ws(#[trigger] input@[k]),
        decreases b - a,
    {
        b -= 1;
    }
    proof {
        assert(b > a) by {
            assert(!is_ascii_ws(input@[a as int]));
        }
        lemma_trim_back_take(t, b - a);
        assert(t.take(b - a) =~= input@.subrange(a as int, b as int));
    }
    (a, b)
}

/// The length of the line that starts a byte sequence: the bytes before
/// its first newline, or all of it when none follows.
pub open spec fn line_split(s: Seq<u8>) -> int
    decreases s.len(),
{
    if s.len() == 0 {
        0
    } else if s[0] == 10 {
        0
    } else {
        1 + line_split(s.drop_first())
    }
}

/// How many bytes reading that line consumes: its content and the
/// newline that ends it, when one does.
pub open spec fn line_consumed(s: Seq<u8>) -> int {
    if line_split(s) < s.len() {
        line_split(s) + 1
    } else {
        line_split(s)
    }
}

/// A scan that stops at the first newline (or the end) finds
/// `line_split`.
proof fn lemma_line_split_at(s: Seq<u8>, j: int)
    requires
        0 <= j <= s.len(),
        forall|k: int| 0 <= k < j ==> #[trigger] s[k] != 10,
        j == s.len() || s[j] == 10,
    ensures
        line_split(s) == j,
    decreases j,
{
    if j > 0 {
        lemma_line_split_at(s.drop_first(), j - 1);
    }
}

/// The index one past the current line's content: the position of the
/// first newline at or after `pos`, or the input's end.
pub fn find_line_end(input: &Vec<u8>, pos: usize) -> (r: usize)
    requires
        pos <= input@.len(),
    ensures
        pos <= r <= input@.len(),
        r - pos == line_split(input@.skip(pos as int)),
{
    let n = input.len();
    let mut i = pos;
    while i < n && input[i] != 10
        invariant
            pos <= i <= n == input@.len(),
            forall|k: int| pos <= k < i ==> #[trigger] input@[k] != 10,
        decreases n - i,
    {
        i += 1;
    }
    proof {
        lemma_line_split_at(input@.skip(pos as int), i - pos);
    }
    i
}

/// Every byte of a decimal digit run is an ASCII digit.
pub open spec fn all_digits(s: Seq<u8>) -> bool {
    forall|i: int| 0 <= i < s.len() ==> 48 <= #[trigger] s[i] <= 57
}

/// The value of a digit run, most significant first.
pub open spec fn digits_val(s: Seq<u8>) -> nat
    decreases s.len(),
{
    if s.len() == 0 {
        0
    } else {
        digits_val(s.drop_last()) * 10 + (s.last() - 48) as nat
    }
}

/// Appending digits never shrinks the value.
proof fn lemma_digits_val_monotone(s: Seq<u8>, k: int)
    requires
        0 <= k <= s.len(),
    ensures
        digits_val(s) >= digits_val(s.take(k)),
    decreases s.len() - k,
{
    if k < s.len() {
        assert(s.take(k + 1).drop_last() =~= s.take(k));
        assert(digits_val(s.take(k + 1)) >= digits_val(s.take(k)));
        lemma_digits_val_monotone(s, k + 1);
        assert(s.take(s.len() as int) =~= s);
    } else {
        assert(s.take(k) =~= s);
    }
}

/// What parsing a byte run as a decimal 32-bit value yields: an optional
/// sign, then at least one digit, with the result in range — `None`
/// otherwise.
pub open spec fn parse_dec_i32(s: Seq<u8>) -> Option<i32> {
    let signed = s.len() > 0 && (s[0] == 43 || s[0] == 45);
    let neg = s.len() > 0 && s[0] == 45;
    let ds = if signed {
        s.drop_first()
    } else {
        s
    };
    if ds.len() == 0 || !all_digits(ds) {
        None
    } else {
        let v = if neg {
            -1 * (digits_val(ds) as int)
        } else {
            digits_val(ds) as int
        };
        if i32::MIN <= v <= i32::MAX {
            Some(v as i32)
        } else {
            None
        }
    }
}

/// Parses the bytes in `[from, to)` as a decimal 32-bit value.
#[verifier::rlimit(50)]
pub fn parse_dec_range(input: &Vec<u8>, from: usize, to: usize) -> (r: Option<i32>)
    requires
        from <= to <= input@.len(),
    ensures
        r == parse_dec_i32(input@.subrange(from as int, to as int)),
{
    let ghost s = input@.subrange(from as int, to as int);
    if from == to {
        return None;
    }
    let first = input[from];
    let neg = first == 45;
    let dstart = if first == 45 || first == 43 {
        from + 1
    } else {
        from
    };
    let ghost ds = input@.subrange(dstart as int, to as int);
    proof {
        if first == 45 || first == 43 {
            assert(ds =~= s.drop_first());
        }
    }
    if dstart == to {
        return None;
    }
    let mut acc: u64 = 0;
    let mut i = dstart;
    while i < to
        invariant
            from <= dstart <= i <= to <= input@.len(),
            dstart < to,
            s == input@.subrange(from as int, to as int),
            ds == input@.subrange(dstart as int, to as int),
            first == input@[from as int],
            neg == (first == 45),
            dstart == (if first == 45 || first == 43 { from + 1int } else { from as int }),
            ds == (if first == 45 || first == 43 { s.drop_first() } else { s }),
            all_digits(ds.take(i - dstart)),
            acc == digits_val(ds.take(i - dstart)),
            acc <= 0x8000_0000,
        decreases to - i,
    {
        let b = input[i];
        if b < 48 || b > 57 {
            proof {
                assert(!all_digits(ds)) by {
                    assert(ds[i - dstart] == b);
                }
                assert(parse_dec_i32(s) is None);
            }
            return None;
        }
        proof {
            assert(ds.take(i - dstart + 1).drop_last() =~= ds.take(i - dstart));
            assert(ds.take(i - dstart + 1).last() == b);
        }
        acc = acc * 10 + (b - 48) as u64;
        i += 1;
        if acc > 0x8000_0000 {
            proof {
                assert(acc == digits_val(ds.take(i - dstart)));
                if all_digits(ds) {
                    assert(ds.take(to - dstart) =~= ds);
                    lemma_digits_val_monotone(ds, i - dstart);
                    assert(digits_val(ds) >= acc);
                    assert(digits_val(ds) > 0x8000_0000);
                }
                assert(parse_dec_i32(s) is None);
            }
            return None;
        }
    }
    proof {
        assert(ds.take(to - dstart) =~= ds);
    }
    if neg {
        Some((-(acc as i64)) as i32)
    } else {
        if acc > 0x7fff_ffff {
            return None;
        }
        Some(acc as i32)
    }
}

/// What a `ReadInt` sees in the remaining input: one line, trimmed of
/// ASCII whitespace, parsed as a decimal 32-bit value.
pub open spec fn read_int_spec(s: Seq<u8>) -> Option<i32> {
    parse_dec_i32(trimmed(s.take(line_split(s))))
}

/// Reads one line starting at `pos` and parses its trimmed content;
/// returns the parse result and the position after the consumed bytes
/// (the line and its newline, when one ends it).
pub fn read_int_at(input: &Vec<u8>, pos: usize) -> (r: (Option<i32>, usize))
    requires
        pos <= input@.len(),
    ensures
        pos <= r.1 <= input@.len(),
        r.0 == read_int_spec(input@.skip(pos as int)),
        r.1 - pos == line_consumed(input@.skip(pos as int)),
{
    let ghost rest = input@.skip(pos as int);
    let line_end = find_line_end(input, pos);
    proof {
        assert(rest.take(line_split(rest)) =~= input@.subrange(pos as int, line_end as int));
    }
    let (a, b) = trim_range(input, pos, line_end);
    let v = parse_dec_range(input, a, b);
    let consumed_to = if line_end < input.len() {
        line_end + 1
    } else {
        line_end
    };
    (v, consumed_to)
}

} // verus!
