//! Decomposing program source text into lines.
//!
//! Source text is split at newline characters; a final line needs no
//! terminator, and a terminator after the last line adds no empty line.
//! A carriage return immediately before a line break (or at the end of
//! the text) is not part of the line.

use vstd::prelude::*;

verus! {

/// A line without one trailing carriage return.
pub open spec fn strip_cr(l: Seq<char>) -> Seq<char> {
    if l.len() > 0 && l.last() as u32 == 13 {
        l.drop_last()
    } else {
        l
    }
}

/// The text split at newlines, carriage returns kept: every newline ends
/// a line, and a last unterminated line counts when it is nonempty.
pub open spec fn split_raw(s: Seq<char>) -> Seq<Seq<char>>
    decreases s.len(),
{
    if s.len() == 0 {
        Seq::empty()
    } else if s[0] as u32 == 10 {
        seq![Seq::<char>::empty()] + split_raw(s.drop_first())
    } else {
        let r = split_raw(s.drop_first());
        if r.len() == 0 {
            seq![s]
        } else {
            seq![seq![s[0]] + r[0]] + r.drop_first()
        }
    }
}

/// The lines of a source text: split at newlines, each line without a
/// trailing carriage return.
pub open spec fn source_lines(s: Seq<char>) -> Seq<Seq<char>> {
    split_raw(s).map_values(|l: Seq<char>| strip_cr(l))
}

/// The lines still to come, given the unfinished line gathered so far
/// and the text not yet read.
pub open spec fn split_pending(cur: Seq<char>, rest: Seq<char>) -> Seq<Seq<char>> {
    let r = split_raw(rest);
    if r.len() == 0 {
        if cur.len() == 0 {
            Seq::empty()
        } else {
            seq![cur]
        }
    } else {
        seq![cur + r[0]] + r.drop_first()
    }
}

/// Nothing read yet: the pending lines are all of the text's lines.
proof fn lemma_split_pending_init(s: Seq<char>)
    ensures
        split_pending(Seq::empty(), s) == split_raw(s),
{
    let r = split_raw(s);
    if r.len() > 0 {
        assert(Seq::<char>::empty() + r[0] =~= r[0]);
        assert(seq![r[0]] + r.drop_first() =~= r);
    }
}

/// Reading a newline closes the unfinished line.
proof fn lemma_split_pending_nl(cur: Seq<char>, rest: Seq<char>)
    requires
        rest.len() > 0,
        rest[0] as u32 == 10,
    ensures
        split_pending(cur, rest) == seq![cur] + split_pending(Seq::empty(), rest.drop_first()),
{
    lemma_split_pending_init(rest.drop_first());
    let r1 = split_raw(rest.drop_first());
    assert(split_raw(rest) == seq![Seq::<char>::empty()] + r1);
    assert(cur + Seq::<char>::empty() =~= cur);
    if r1.len() == 0 {
        assert(split_pending(cur, rest) =~= seq![cur]);
        assert(seq![cur] + split_pending(Seq::empty(), rest.drop_first()) =~= seq![cur]);
    } else {
        assert((seq![Seq::<char>::empty()] + r1).drop_first() =~= r1);
        assert(split_pending(cur, rest) =~= seq![cur] + r1);
        assert(seq![cur] + split_pending(Seq::empty(), rest.drop_first()) =~= seq![cur] + r1);
    }
}

/// Reading an ordinary character extends the unfinished line.
proof fn lemma_split_pending_char(cur: Seq<char>, rest: Seq<char>)
    requires
        rest.len() > 0,
        rest[0] as u32 != 10,
    ensures
        split_pending(cur, rest) == split_pending(cur.push(rest[0]), rest.drop_first()),
{
    let r1 = split_raw(rest.drop_first());
    if r1.len() == 0 {
        assert(split_raw(rest) == seq![rest]);
        assert(cur + rest =~= cur.push(rest[0]));
        assert(split_pending(cur, rest) =~= seq![cur + rest]);
        assert(split_pending(cur.push(rest[0]), rest.drop_first()) =~= seq![cur.push(rest[0])]);
    } else {
        assert(split_raw(rest) == seq![seq![rest[0]] + r1[0]] + r1.drop_first());
        let r = split_raw(rest);
        assert(r.len() > 0);
        assert(r[0] == seq![rest[0]] + r1[0]);
        assert(r.drop_first() =~= r1.drop_first());
        assert(cur + (seq![rest[0]] + r1[0]) =~= (cur.push(rest[0])) + r1[0]);
        assert(split_pending(cur, rest) =~= seq![cur.push(rest[0]) + r1[0]] + r1.drop_first());
        assert(split_pending(cur.push(rest[0]), rest.drop_first()) =~= seq![cur.push(rest[0])
            + r1[0]] + r1.drop_first());
    }
}

/// Splits source text (as characters) into its lines.
pub fn split_source(chars: &Vec<char>) -> (r: Vec<Vec<char>>)
    ensures
        r@.map_values(|l: Vec<char>| l@) == source_lines(chars@),
{
    let s = chars;
    let ghost whole = chars@;
    let mut result: Vec<Vec<char>> = Vec::new();
    let mut cur: Vec<char> = Vec::new();
    let ghost mut done_raw: Seq<Seq<char>> = Seq::empty();
    let mut i: usize = 0;
    proof {
        lemma_split_pending_init(whole);
        assert(whole.skip(0) =~= whole);
        assert(result@.map_values(|l: Vec<char>| l@) =~= done_raw.map_values(
            |l: Seq<char>| strip_cr(l),
        ));
    }
    while i < s.len()
        invariant
            i <= s.len(),
            whole == s@,
            split_raw(whole) == done_raw + split_pending(cur@, whole.skip(i as int)),
            result@.map_values(|l: Vec<char>| l@) == done_raw.map_values(
                |l: Seq<char>| strip_cr(l),
            ),
        decreases s.len() - i,
    {
        let ghost rest = whole.skip(i as int);
        proof {
            assert(rest[0] == whole[i as int]);
            assert(rest.drop_first() =~= whole.skip(i as int + 1));
        }
        let c = s[i];
        if c as u32 == 10 {
            proof {
                lemma_split_pending_nl(cur@, rest);
            }
            let ghost closed = cur@;
            let ghost old_done = done_raw;
            let ghost old_map = result@.map_values(|l: Vec<char>| l@);
            let mut line = cur;
            cur = Vec::new();
            if line.len() > 0 && line[line.len() - 1] as u32 == 13 {
                line.pop();
            }
            proof {
                assert(line@ == strip_cr(closed));
            }
            result.push(line);
            proof {
                done_raw = done_raw.push(closed);
                assert(old_done + (seq![closed] + split_pending(Seq::empty(), whole.skip(
                    i as int + 1,
                ))) =~= done_raw + split_pending(Seq::empty(), whole.skip(i as int + 1)));
                assert(result@.map_values(|l: Vec<char>| l@) =~= old_map.push(strip_cr(closed)));
                assert(done_raw.map_values(|l: Seq<char>| strip_cr(l)) =~= old_done.map_values(
                    |l: Seq<char>| strip_cr(l),
                ).push(strip_cr(closed)));
            }
        } else {
            proof {
                lemma_split_pending_char(cur@, rest);
            }
            cur.push(c);
        }
        i += 1;
    }
    proof {
        assert(whole.skip(whole.len() as int) =~= Seq::<char>::empty());
    }
    if cur.len() > 0 {
        let ghost closed = cur@;
        let ghost old_done = done_raw;
        let ghost old_map = result@.map_values(|l: Vec<char>| l@);
        let mut line = cur;
        if line.len() > 0 && line[line.len() - 1] as u32 == 13 {
            line.pop();
        }
        proof {
            assert(line@ == strip_cr(closed));
        }
        result.push(line);
        proof {
            done_raw = done_raw.push(closed);
            assert(split_pending(closed, Seq::empty()) =~= seq![closed]);
            assert(old_done + seq![closed] =~= done_raw);
            assert(result@.map_values(|l: Vec<char>| l@) =~= old_map.push(strip_cr(closed)));
            assert(done_raw.map_values(|l: Seq<char>| strip_cr(l)) =~= old_done.map_values(
                |l: Seq<char>| strip_cr(l),
            ).push(strip_cr(closed)));
        }
    } else {
        proof {
            assert(split_pending(cur@, Seq::empty()) =~= Seq::<Seq<char>>::empty());
        }
    }
    proof {
        assert(split_raw(whole) =~= done_raw);
        assert(result@.map_values(|l: Vec<char>| l@) =~= source_lines(whole));
    }
    result
}

/// Relies on `str::chars`: it yields exactly the string's characters in
/// order, so collecting it gives a vector whose view is the string's.
#[verifier::external_body]
pub(crate) fn chars_of(s: &str) -> (r: Vec<char>)
    ensures
        r@ == s@,
{
    s.chars().collect()
}

/// ASCII whitespace, at the character level.
pub open spec fn is_ascii_ws_char(c: char) -> bool {
    c as u32 == 32 || c as u32 == 9 || c as u32 == 10 || c as u32 == 12 || c as u32 == 13
}

/// Unicode whitespace, as `char::is_whitespace` defines it: the
/// characters with the White_Space property.
pub open spec fn is_uni_ws(c: char) -> bool {
    let u = c as u32;
    ||| u == 0x20
    ||| (0x9 <= u && u <= 0xD)
    ||| u == 0x85
    ||| u == 0xA0
    ||| u == 0x1680
    ||| (0x2000 <= u && u <= 0x200A)
    ||| u == 0x2028
    ||| u == 0x2029
    ||| u == 0x202F
    ||| u == 0x205F
    ||| u == 0x3000
}

/// Tests a character for Unicode whitespace.
pub fn is_uni_ws_char(c: char) -> (r: bool)
    ensures
        r == is_uni_ws(c),
{
    let u = c as u32;
    u == 0x20 || (0x9 <= u && u <= 0xD) || u == 0x85 || u == 0xA0 || u == 0x1680 || (0x2000 <= u
        && u <= 0x200A) || u == 0x2028 || u == 0x2029 || u == 0x202F || u == 0x205F || u == 0x3000
}

/// A line of nothing but ASCII whitespace.
pub open spec fn is_blank(l: Seq<char>) -> bool {
    forall|i: int| 0 <= i < l.len() ==> is_ascii_ws_char(#[trigger] l[i])
}

/// The lines without their leading blank lines.
pub open spec fn trim_lines_front(ls: Seq<Seq<char>>) -> Seq<Seq<char>>
    decreases ls.len(),
{
    if ls.len() > 0 && is_blank(ls[0]) {
        trim_lines_front(ls.drop_first())
    } else {
        ls
    }
}

/// The lines without their trailing blank lines.
pub open spec fn trim_lines_back(ls: Seq<Seq<char>>) -> Seq<Seq<char>>
    decreases ls.len(),
{
    if ls.len() > 0 && is_blank(ls.last()) {
        trim_lines_back(ls.drop_last())
    } else {
        ls
    }
}

/// The lines without blank lines at either end.
pub open spec fn trimmed_block(ls: Seq<Seq<char>>) -> Seq<Seq<char>> {
    trim_lines_back(trim_lines_front(ls))
}

proof fn lemma_trim_lines_front_skip(ls: Seq<Seq<char>>, j: int)
    requires
        0 <= j <= ls.len(),
        forall|k: int| 0 <= k < j ==> is_blank(#[trigger] ls[k]),
        j == ls.len() || !is_blank(ls[j]),
    ensures
        trim_lines_front(ls) == ls.skip(j),
    decreases j,
{
    if j == 0 {
        assert(ls.skip(0) =~= ls);
    } else {
        lemma_trim_lines_front_skip(ls.drop_first(), j - 1);
        assert(ls.drop_first().skip(j - 1) =~= ls.skip(j));
    }
}

proof fn lemma_trim_lines_back_take(ls: Seq<Seq<char>>, j: int)
    requires
        0 <= j <= ls.len(),
        forall|k: int| j <= k < ls.len() ==> is_blank(#[trigger] ls[k]),
        j == 0 || !is_blank(ls[j - 1]),
    ensures
        trim_lines_back(ls) == ls.take(j),
    decreases ls.len(),
{
    if j == ls.len() {
        if ls.len() > 0 && is_blank(ls.last()) {
            assert(!is_blank(ls[j - 1]));
            assert(false);
        }
        assert(ls.take(j) =~= ls);
    } else {
        lemma_trim_lines_back_take(ls.drop_last(), j);
        assert(ls.drop_last().take(j) =~= ls.take(j));
    }
}

/// Whether a line holds nothing but ASCII whitespace.
pub fn is_blank_line(l: &Vec<char>) -> (r: bool)
    ensures
        r == is_blank(l@),
{
    let mut i: usize = 0;
    while i < l.len()
        invariant
            i <= l@.len(),
            forall|k: int| 0 <= k < i ==> is_ascii_ws_char(#[trigger] l@[k]),
        decreases l@.len() - i,
    {
        let u = l[i] as u32;
        if !(u == 32 || u == 9 || u == 10 || u == 12 || u == 13) {
            return false;
        }
        i += 1;
    }
    true
}

/// Removes blank lines from both ends of a block of lines.
pub fn trim_empty_lines(lines: &Vec<Vec<char>>) -> (r: Vec<Vec<char>>)
    ensures
        r@.map_values(|l: Vec<char>| l@) == trimmed_block(
            lines@.map_values(|l: Vec<char>| l@),
        ),
{
    let ghost ls = lines@.map_values(|l: Vec<char>| l@);
    let n = lines.len();
    let mut a: usize = 0;
    while a < n && is_blank_line(&lines[a])
        invariant
            a <= n == lines@.len(),
            ls == lines@.map_values(|l: Vec<char>| l@),
            forall|k: int| 0 <= k < a ==> is_blank(#[trigger] ls[k]),
        decreases n - a,
    {
        a += 1;
    }
    proof {
        lemma_trim_lines_front_skip(ls, a as int);
    }
    if a == n {
        let empty: Vec<Vec<char>> = Vec::new();
        proof {
            assert(ls.skip(a as int) =~= Seq::<Seq<char>>::empty());
            assert(empty@.map_values(|l: Vec<char>| l@) =~= trimmed_block(ls));
        }
        return empty;
    }
    let ghost mid = ls.skip(a as int);
    let mut b: usize = n;
    while b > a && is_blank_line(&lines[b - 1])
        invariant
            a <= b <= n == lines@.len(),
            ls == lines@.map_values(|l: Vec<char>| l@),
            forall|k: int| b <= k < n ==> is_blank(#[trigger] ls[k]),
        decreases b - a,
    {
        b -= 1;
    }
    proof {
        assert(b > a) by {
            assert(!is_blank(ls[a as int]));
        }
        assert(forall|k: int|
            b - a <= k < mid.len() ==> is_blank(#[trigger] mid[k]));
        assert(!is_blank(mid[b - a - 1]));
        lemma_trim_lines_back_take(mid, b - a);
    }
    let mut r: Vec<Vec<char>> = Vec::new();
    let mut i: usize = a;
    while i < b
        invariant
            a <= i <= b <= lines@.len(),
            ls == lines@.map_values(|l: Vec<char>| l@),
            r@.map_values(|l: Vec<char>| l@) =~= ls.subrange(a as int, i as int),
        decreases b - i,
    {
        let line = vstd::slice::slice_to_vec(lines[i].as_slice());
        let ghost prev = r@.map_values(|l: Vec<char>| l@);
        r.push(line);
        i += 1;
        proof {
            assert(r@.map_values(|l: Vec<char>| l@) =~= prev.push(ls[i - 1]));
            assert(prev.push(ls[i - 1]) =~= ls.subrange(a as int, i as int));
        }
    }
    proof {
        assert(ls.subrange(a as int, b as int) =~= mid.take(b - a));
    }
    r
}

/// The length of a line's leading Unicode-whitespace run.
pub open spec fn indent_len(l: Seq<char>) -> int
    decreases l.len(),
{
    if l.len() > 0 && is_uni_ws(l[0]) {
        1 + indent_len(l.drop_first())
    } else {
        0
    }
}

/// The indent run stays within the line and consists of whitespace, and
/// any all-whitespace prefix stays within it.
proof fn lemma_indent_len_facts(l: Seq<char>)
    ensures
        0 <= indent_len(l) <= l.len(),
        forall|m: int| 0 <= m < indent_len(l) ==> is_uni_ws(#[trigger] l[m]),
        indent_len(l) == l.len() || !is_uni_ws(l[indent_len(l)]),
    decreases l.len(),
{
    if l.len() > 0 && is_uni_ws(l[0]) {
        lemma_indent_len_facts(l.drop_first());
        assert forall|m: int| 0 <= m < indent_len(l) implies is_uni_ws(#[trigger] l[m]) by {
            if m > 0 {
                assert(l.drop_first()[m - 1] == l[m]);
            }
        }
        if indent_len(l) < l.len() {
            assert(l.drop_first()[indent_len(l) - 1] == l[indent_len(l)]);
        }
    }
}

/// A prefix of whitespace characters is no longer than the indent run.
proof fn lemma_indent_len_ge(l: Seq<char>, j: int)
    requires
        0 <= j <= l.len(),
        forall|m: int| 0 <= m < j ==> is_uni_ws(#[trigger] l[m]),
    ensures
        indent_len(l) >= j,
    decreases j,
{
    if j > 0 {
        assert(is_uni_ws(l[0]));
        assert forall|m: int| 0 <= m < j - 1 implies is_uni_ws(
            #[trigger] l.drop_first()[m],
        ) by {
            assert(l.drop_first()[m] == l[m + 1]);
        }
        lemma_indent_len_ge(l.drop_first(), j - 1);
        assert(indent_len(l) == 1 + indent_len(l.drop_first()));
    } else {
        lemma_indent_len_facts(l);
    }
}

/// The length of the longest common prefix of two character sequences.
pub open spec fn common_prefix_len(a: Seq<char>, b: Seq<char>) -> int
    decreases a.len(),
{
    if a.len() > 0 && b.len() > 0 && a[0] == b[0] {
        1 + common_prefix_len(a.drop_first(), b.drop_first())
    } else {
        0
    }
}

/// A scan that stops at the first mismatch (or either end) finds the
/// common prefix length.
proof fn lemma_common_prefix_at(a: Seq<char>, b: Seq<char>, j: int)
    requires
        0 <= j <= a.len(),
        j <= b.len(),
        forall|m: int| 0 <= m < j ==> a[m] == b[m],
        j == a.len() || j == b.len() || a[j] != b[j],
    ensures
        common_prefix_len(a, b) == j,
    decreases j,
{
    if j == 0 {
    } else {
        lemma_common_prefix_at(a.drop_first(), b.drop_first(), j - 1);
    }
}

proof fn lemma_common_prefix_bounds(a: Seq<char>, b: Seq<char>)
    ensures
        0 <= common_prefix_len(a, b) <= a.len(),
        common_prefix_len(a, b) <= b.len(),
    decreases a.len(),
{
    if a.len() > 0 && b.len() > 0 && a[0] == b[0] {
        lemma_common_prefix_bounds(a.drop_first(), b.drop_first());
    }
}

/// The indent shared by the first `k` lines: the first line's indent,
/// narrowed by each further line's indent in turn, as a prefix of the
/// first line.
pub open spec fn common_indent_len(ls: Seq<Seq<char>>, k: int) -> int
    decreases k,
{
    if k <= 1 {
        indent_len(ls[0])
    } else {
        common_prefix_len(
            ls[k - 1].take(indent_len(ls[k - 1])),
            ls[0].take(common_indent_len(ls, k - 1)),
        )
    }
}

/// How much `dedent` removes from every line.
pub open spec fn dedent_amount(ls: Seq<Seq<char>>) -> int {
    if ls.len() == 0 {
        0
    } else {
        common_indent_len(ls, ls.len() as int)
    }
}

/// The common indent never exceeds any line's own indent run.
proof fn lemma_common_indent_bounds(ls: Seq<Seq<char>>, k: int)
    requires
        1 <= k <= ls.len(),
    ensures
        0 <= common_indent_len(ls, k),
        forall|i: int| 0 <= i < k ==> common_indent_len(ls, k) <= indent_len(#[trigger] ls[i]),
    decreases k,
{
    lemma_indent_len_facts(ls[0]);
    if k <= 1 {
    } else {
        lemma_common_indent_bounds(ls, k - 1);
        lemma_indent_len_facts(ls[k - 1]);
        lemma_common_prefix_bounds(
            ls[k - 1].take(indent_len(ls[k - 1])),
            ls[0].take(common_indent_len(ls, k - 1)),
        );
    }
}

/// The leading whitespace run of a line, as a vector index.
pub fn indent_end(l: &Vec<char>) -> (r: usize)
    ensures
        r as int == indent_len(l@),
{
    let mut i: usize = 0;
    while i < l.len() && is_uni_ws_char(l[i])
        invariant
            i <= l@.len(),
            forall|m: int| 0 <= m < i ==> is_uni_ws(#[trigger] l@[m]),
        decreases l@.len() - i,
    {
        i += 1;
    }
    proof {
        lemma_indent_len_ge(l@, i as int);
        lemma_indent_len_facts(l@);
    }
    i
}

/// Removes the longest whitespace indent common to all lines from each
/// of them, as the embedding front-end does before decoding.
#[verifier::rlimit(100)]
pub fn dedent(lines: &Vec<Vec<char>>) -> (r: Vec<Vec<char>>)
    ensures
        r@.len() == lines@.len(),
        forall|i: int|
            0 <= i < lines@.len() ==> (#[trigger] r@[i])@ == (lines@[i])@.skip(
                dedent_amount(lines@.map_values(|l: Vec<char>| l@)),
            ),
{
    let ghost ls = lines@.map_values(|l: Vec<char>| l@);
    if lines.len() == 0 {
        return Vec::new();
    }
    let mut n: usize = indent_end(&lines[0]);
    let mut k: usize = 1;
    proof {
        lemma_indent_len_facts(ls[0]);
    }
    while k < lines.len()
        invariant
            1 <= k <= lines@.len(),
            ls == lines@.map_values(|l: Vec<char>| l@),
            n as int == common_indent_len(ls, k as int),
            n as int <= indent_len(ls[0]),
        decreases lines@.len() - k,
    {
        let line = &lines[k];
        let first = &lines[0];
        let ghost lk = ls[k as int];
        let ghost acc = ls[0].take(n as int);
        proof {
            lemma_indent_len_facts(ls[0]);
            assert(first@ == ls[0]);
            assert(line@ == ls[k as int]);
        }
        let mut j: usize = 0;
        while j < n && j < line.len() && line[j] == first[j]
            invariant
                j <= n,
                n <= first@.len(),
                line@ == lk,
                first@ == ls[0],
                j <= lk.len(),
                n as int <= indent_len(ls[0]),
                forall|m: int| 0 <= m < j ==> lk[m] == ls[0][m],
            decreases n - j,
        {
            j += 1;
        }
        proof {
            lemma_indent_len_facts(ls[0]);
            assert(forall|m: int| 0 <= m < j ==> is_uni_ws(#[trigger] lk[m]));
            lemma_indent_len_ge(lk, j as int);
            lemma_indent_len_facts(lk);
            let a_seq = lk.take(indent_len(lk));
            assert(forall|m: int| 0 <= m < j ==> a_seq[m] == acc[m]);
            if j < n && j < lk.len() && lk[j as int] != ls[0][j as int] {
                if j < indent_len(lk) {
                    assert(a_seq[j as int] != acc[j as int]);
                    lemma_common_prefix_at(a_seq, acc, j as int);
                } else {
                    lemma_common_prefix_at(a_seq, acc, j as int);
                }
            } else if j == n {
                lemma_common_prefix_at(a_seq, acc, j as int);
            } else {
                assert(j == lk.len() || lk[j as int] == ls[0][j as int]);
                if j < lk.len() {
                    assert(is_uni_ws(ls[0][j as int]));
                    assert(is_uni_ws(lk[j as int]));
                    assert(indent_len(lk) > j) by {
                        lemma_indent_len_ge(lk, j as int + 1);
                    }
                    assert(false);
                }
                assert(indent_len(lk) == j);
                lemma_common_prefix_at(a_seq, acc, j as int);
            }
            assert(common_indent_len(ls, k as int + 1) == j);
        }
        n = j;
        k += 1;
        proof {
            lemma_common_indent_bounds(ls, k as int);
        }
    }
    proof {
        lemma_common_indent_bounds(ls, ls.len() as int);
    }
    let mut r: Vec<Vec<char>> = Vec::new();
    let mut i: usize = 0;
    while i < lines.len()
        invariant
            i <= lines@.len(),
            ls == lines@.map_values(|l: Vec<char>| l@),
            n as int == dedent_amount(ls),
            forall|q: int| 0 <= q < ls.len() ==> n as int <= indent_len(#[trigger] ls[q]),
            r@.len() == i,
            forall|q: int|
                0 <= q < i ==> (#[trigger] r@[q])@ == (ls[q]).skip(dedent_amount(ls)),
        decreases lines@.len() - i,
    {
        let line = &lines[i];
        proof {
            lemma_indent_len_facts(ls[i as int]);
        }
        let mut cut: Vec<char> = Vec::new();
        let mut j: usize = n;
        while j < line.len()
            invariant
                n <= j <= line@.len(),
                line@ == ls[i as int],
                i < ls.len(),
                cut@ =~= (line@).subrange(n as int, j as int),
            decreases line@.len() - j,
        {
            cut.push(line[j]);
            j += 1;
            proof {
                assert(cut@ =~= (line@).subrange(n as int, j as int));
            }
        }
        proof {
            assert(cut@ =~= (ls[i as int]).skip(n as int));
        }
        r.push(cut);
        i += 1;
    }
    r
}

} // verus!
