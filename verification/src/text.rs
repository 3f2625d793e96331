//! The mathematical model of text shared by the buffers, spans and motions:
//! newline counting, rows and columns of an index, and the lines of a text
//! as `str::lines` yields them. It also holds the few std calls on
//! characters and strings that vstd does not specify.
use vstd::prelude::*;

verus! {

/// Number of `'\n'` in `s`.
pub open spec fn newlines(s: Seq<char>) -> nat
    decreases s.len(),
{
    if s.len() == 0 {
        0
    } else {
        newlines(s.drop_last()) + if s.last() == '\n' {
            1nat
        } else {
            0nat
        }
    }
}

/// Number of characters after the last `'\n'` of `s` (all of them if there is none).
pub open spec fn trailing_col(s: Seq<char>) -> nat
    decreases s.len(),
{
    if s.len() == 0 {
        0
    } else if s.last() == '\n' {
        0
    } else {
        trailing_col(s.drop_last()) + 1
    }
}

/// Row of the character at index `i` of `s`: the newlines before it.
pub open spec fn row_at(s: Seq<char>, i: int) -> nat {
    newlines(s.take(i))
}

/// Column of the character at index `i` of `s`: the characters between it and
/// the newline before it.
pub open spec fn col_at(s: Seq<char>, i: int) -> nat {
    trailing_col(s.take(i))
}

/// Number of lines that `str::lines` yields for `s`: every newline ends a
/// line, and a last line without newline counts when it is not empty.
pub open spec fn line_count(s: Seq<char>) -> nat {
    if s.len() == 0 {
        0
    } else if s.last() == '\n' {
        newlines(s)
    } else {
        newlines(s) + 1
    }
}

/// First index `j >= i` whose row is at least `r`, or `s.len()`.
pub open spec fn first_index_of_row(s: Seq<char>, r: nat, i: int) -> int
    decreases s.len() - i,
{
    if i >= s.len() {
        s.len() as int
    } else if i < 0 {
        first_index_of_row(s, r, 0)
    } else if row_at(s, i) >= r {
        i
    } else {
        first_index_of_row(s, r, i + 1)
    }
}

/// Index of the first character of row `r` in `s` (the index after the
/// `r`-th newline), or `s.len()` when `s` has fewer newlines.
pub open spec fn row_start(s: Seq<char>, r: nat) -> int {
    first_index_of_row(s, r, 0)
}

/// Index of the first `'\n'` at or after `i`, or `s.len()`.
pub open spec fn line_end_from(s: Seq<char>, i: int) -> int
    decreases s.len() - i,
{
    if i >= s.len() {
        s.len() as int
    } else if i < 0 {
        line_end_from(s, 0)
    } else if s[i] == '\n' {
        i
    } else {
        line_end_from(s, i + 1)
    }
}

/// The characters of row `r` of `s`, without its newline: what
/// `str::lines().nth(r)` yields, apart from the carriage return that `lines`
/// takes off before a newline (see `line_text`).
pub open spec fn raw_line(s: Seq<char>, r: nat) -> Seq<char> {
    s.subrange(row_start(s, r), line_end_from(s, row_start(s, r)))
}

/// Row `r` of `s` as `str::lines` yields it: a `'\r'` that stands right
/// before the row's newline is taken off.
pub open spec fn line_text(s: Seq<char>, r: nat) -> Seq<char> {
    let raw = raw_line(s, r);
    let end = line_end_from(s, row_start(s, r));
    if end < s.len() && raw.len() > 0 && raw.last() == '\r' {
        raw.drop_last()
    } else {
        raw
    }
}

pub proof fn lemma_newlines_push(s: Seq<char>, c: char)
    ensures
        newlines(s.push(c)) == newlines(s) + if c == '\n' {
            1nat
        } else {
            0nat
        },
        trailing_col(s.push(c)) == if c == '\n' {
            0
        } else {
            trailing_col(s) + 1
        },
{
    assert(s.push(c).drop_last() =~= s);
}

pub proof fn lemma_newlines_append(a: Seq<char>, b: Seq<char>)
    ensures
        newlines(a + b) == newlines(a) + newlines(b),
    decreases b.len(),
{
    if b.len() == 0 {
        assert(a + b =~= a);
    } else {
        assert((a + b).drop_last() =~= a + b.drop_last());
        lemma_newlines_append(a, b.drop_last());
    }
}

pub proof fn lemma_newlines_bound(s: Seq<char>)
    ensures
        newlines(s) <= s.len(),
        trailing_col(s) <= s.len(),
    decreases s.len(),
{
    if s.len() > 0 {
        lemma_newlines_bound(s.drop_last());
    }
}

/// Stepping the index one to the right updates row and column as a cursor
/// does: a newline starts a new row at column 0.
pub proof fn lemma_step_right(s: Seq<char>, i: int)
    requires
        0 <= i < s.len(),
    ensures
        row_at(s, i + 1) == row_at(s, i) + if s[i] == '\n' {
            1nat
        } else {
            0nat
        },
        col_at(s, i + 1) == if s[i] == '\n' {
            0
        } else {
            col_at(s, i) + 1
        },
{
    assert(s.take(i + 1) =~= s.take(i).push(s[i]));
    lemma_newlines_push(s.take(i), s[i]);
}

/// Rows never decrease from left to right, and on one row neither do
/// columns.
pub proof fn lemma_position_monotonic(s: Seq<char>, i: int, j: int)
    requires
        0 <= i <= j <= s.len(),
    ensures
        row_at(s, i) <= row_at(s, j),
        row_at(s, i) == row_at(s, j) ==> col_at(s, i) <= col_at(s, j),
    decreases j - i,
{
    if i < j {
        lemma_position_monotonic(s, i, j - 1);
        lemma_step_right(s, j - 1);
    }
}

/// Two different indices never stand at the same row and column.
pub proof fn lemma_positions_distinct(s: Seq<char>, i: int, j: int)
    requires
        0 <= i < j <= s.len(),
    ensures
        !(row_at(s, i) == row_at(s, j) && col_at(s, i) == col_at(s, j)),
{
    lemma_position_monotonic(s, i, j - 1);
    lemma_step_right(s, j - 1);
}

pub proof fn lemma_row_col_bound(s: Seq<char>, i: int)
    requires
        0 <= i <= s.len(),
    ensures
        row_at(s, i) <= i,
        col_at(s, i) <= i,
{
    lemma_newlines_bound(s.take(i));
}

pub proof fn lemma_first_index_of_row_bound(s: Seq<char>, r: nat, i: int)
    ensures
        0 <= first_index_of_row(s, r, i) <= s.len(),
        i >= 0 ==> i <= first_index_of_row(s, r, i) || i > s.len(),
    decreases s.len() - i,
{
    if i < s.len() && i < 0 {
        lemma_first_index_of_row_bound(s, r, 0);
    } else if 0 <= i < s.len() && row_at(s, i) < r {
        lemma_first_index_of_row_bound(s, r, i + 1);
    }
}

pub proof fn lemma_line_end_bound(s: Seq<char>, i: int)
    ensures
        line_end_from(s, i) <= s.len(),
        0 <= i <= s.len() ==> i <= line_end_from(s, i),
        i < 0 ==> 0 <= line_end_from(s, i),
    decreases s.len() - i,
{
    if i < 0 {
        lemma_line_end_bound(s, 0);
    } else if 0 <= i < s.len() && s[i] != '\n' {
        lemma_line_end_bound(s, i + 1);
    }
}

/// A row's text is no longer than the text.
pub proof fn lemma_line_text_len(s: Seq<char>, r: nat)
    ensures
        line_text(s, r).len() <= s.len(),
        row_start(s, r) <= line_end_from(s, row_start(s, r)) <= s.len(),
        0 <= row_start(s, r),
{
    lemma_first_index_of_row_bound(s, r, 0);
    lemma_line_end_bound(s, row_start(s, r));
}

/// Bytes that UTF-8 takes for `c`.
pub open spec fn utf8_width(c: char) -> nat {
    if (c as u32) < 0x80 {
        1
    } else if (c as u32) < 0x800 {
        2
    } else if (c as u32) < 0x10000 {
        3
    } else {
        4
    }
}

/// Bytes that UTF-8 takes for the characters `s`: what `str::len` gives.
pub open spec fn byte_len(s: Seq<char>) -> nat
    decreases s.len(),
{
    if s.len() == 0 {
        0
    } else {
        byte_len(s.drop_last()) + utf8_width(s.last())
    }
}

pub proof fn lemma_byte_len_bounds(s: Seq<char>)
    ensures
        s.len() <= byte_len(s) <= 4 * s.len(),
    decreases s.len(),
{
    if s.len() > 0 {
        lemma_byte_len_bounds(s.drop_last());
    }
}

/// UTF-8 width of `c`.
pub fn char_width(c: char) -> (n: usize)
    ensures
        n == utf8_width(c),
{
    let v = c as u32;
    if v < 0x80 {
        1
    } else if v < 0x800 {
        2
    } else if v < 0x10000 {
        3
    } else {
        4
    }
}

/// Byte length of `v` in UTF-8.
pub fn bytes_of(v: &[char]) -> (n: usize)
    requires
        v.len() <= usize::MAX / 4,
    ensures
        n == byte_len(v@),
{
    let mut n: usize = 0;
    let mut i: usize = 0;
    while i < v.len()
        invariant
            i <= v.len() <= usize::MAX / 4,
            n == byte_len(v@.take(i as int)),
            n <= 4 * i,
        decreases v.len() - i,
    {
        proof {
            assert(v@.take(i + 1).drop_last() =~= v@.take(i as int));
        }
        n = n + char_width(v[i]);
        i = i + 1;
    }
    proof {
        assert(v@.take(v.len() as int) =~= v@);
    }
    n
}

/// Named result of `char::is_alphanumeric`.
pub uninterp spec fn alphanumeric(c: char) -> bool;

/// Named result of `char::is_whitespace`.
pub uninterp spec fn whitespace(c: char) -> bool;

/// Named result of `char::is_numeric`.
pub uninterp spec fn numeric(c: char) -> bool;

/// An ASCII letter or digit.
pub open spec fn ascii_alnum(c: char) -> bool {
    ('a' <= c && c <= 'z') || ('A' <= c && c <= 'Z') || ('0' <= c && c <= '9')
}

/// Trusted: `char::is_alphanumeric`, whose result depends on `c` alone
/// (the Unicode properties Alphabetic and Numeric), known here by name; of
/// ASCII it states that letters and digits are alphanumeric and space,
/// tab, line feed and carriage return are not.
#[verifier::external_body]
pub(crate) fn is_alphanumeric(c: char) -> (r: bool)
    ensures
        r == alphanumeric(c),
        ascii_alnum(c) ==> r,
        (c == ' ' || c == '\t' || c == '\n' || c == '\r') ==> !r,
{
    c.is_alphanumeric()
}

/// Trusted: `char::is_whitespace`, whose result depends on `c` alone (the
/// Unicode property White_Space), known here by name; of ASCII it states
/// that space, tab, line feed and carriage return are white space and
/// letters and digits are not.
#[verifier::external_body]
pub(crate) fn is_whitespace(c: char) -> (r: bool)
    ensures
        r == whitespace(c),
        (c == ' ' || c == '\t' || c == '\n' || c == '\r') ==> r,
        ascii_alnum(c) ==> !r,
{
    c.is_whitespace()
}

/// Trusted: `char::is_numeric`, whose result depends on `c` alone (the
/// Unicode general categories Nd, Nl, No), known here by name; of ASCII
/// it states that digits are numeric and letters are not.
#[verifier::external_body]
pub(crate) fn is_numeric(c: char) -> (r: bool)
    ensures
        r == numeric(c),
        ('0' <= c && c <= '9') ==> r,
        (('a' <= c && c <= 'z') || ('A' <= c && c <= 'Z')) ==> !r,
{
    c.is_numeric()
}

/// Trusted: `str::chars` collected into a vector; the vector holds the
/// characters of `s` in order.
#[verifier::external_body]
pub(crate) fn chars_of(s: &str) -> (v: Vec<char>)
    ensures
        v@ == s@,
{
    s.chars().collect()
}

/// Trusted: a `String` collected from characters; it holds them in order.
#[verifier::external_body]
pub(crate) fn string_of(v: &[char]) -> (s: String)
    ensures
        s@ == v@,
{
    v.iter().collect()
}

/// Copies `v[from..to]` into a new vector.
pub fn slice_to_vec(v: &Vec<char>, from: usize, to: usize) -> (r: Vec<char>)
    requires
        from <= to <= v.len(),
    ensures
        r@ == v@.subrange(from as int, to as int),
{
    let mut r: Vec<char> = Vec::new();
    let mut i: usize = from;
    while i < to
        invariant
            from <= i <= to <= v.len(),
            r@ == v@.subrange(from as int, i as int),
        decreases to - i,
    {
        r.push(v[i]);
        i = i + 1;
    }
    r
}

/// Counts the newlines of `v`.
pub fn count_newlines(v: &Vec<char>) -> (n: usize)
    ensures
        n == newlines(v@),
{
    let mut n: usize = 0;
    let mut i: usize = 0;
    while i < v.len()
        invariant
            i <= v.len(),
            n == newlines(v@.take(i as int)),
        decreases v.len() - i,
    {
        proof {
            assert(v@.take(i + 1) =~= v@.take(i as int).push(v@[i as int]));
            lemma_newlines_push(v@.take(i as int), v@[i as int]);
            lemma_newlines_bound(v@.take(i as int));
        }
        if v[i] == '\n' {
            n = n + 1;
        }
        i = i + 1;
    }
    assert(v@.take(v.len() as int) =~= v@);
    n
}

/// Number of lines of `v` as `str::lines` counts them.
pub fn count_lines(v: &Vec<char>) -> (n: usize)
    ensures
        n == line_count(v@),
{
    if v.len() == 0 {
        return 0;
    }
    let n = count_newlines(v);
    proof {
        lemma_newlines_bound(v@.drop_last());
    }
    if v[v.len() - 1] == '\n' {
        n
    } else {
        n + 1
    }
}

/// Row `r` of `v` as `str::lines` gives it (empty past the last line).
pub fn line_of(v: &Vec<char>, r: usize) -> (line: Vec<char>)
    ensures
        line@ == line_text(v@, r as nat),
{
    let ghost t = v@;
    let n = v.len();
    let mut i: usize = 0;
    let mut rows: usize = 0;
    while i < n && rows < r
        invariant
            t == v@,
            n == t.len(),
            i <= n,
            rows == row_at(t, i as int),
            first_index_of_row(t, r as nat, 0) == first_index_of_row(t, r as nat, i as int),
        decreases n - i,
    {
        proof {
            lemma_step_right(t, i as int);
            lemma_row_col_bound(t, i as int);
        }
        if v[i] == '\n' {
            rows = rows + 1;
        }
        i = i + 1;
    }
    let start = i;
    let mut e = i;
    while e < n && v[e] != '\n'
        invariant
            t == v@,
            n == t.len(),
            start <= e <= n,
            line_end_from(t, start as int) == line_end_from(t, e as int),
        decreases n - e,
    {
        e = e + 1;
    }
    let mut line: Vec<char> = Vec::new();
    let mut k = start;
    while k < e
        invariant
            t == v@,
            n == t.len(),
            start <= k <= e <= n,
            line_end_from(t, start as int) == e,
            first_index_of_row(t, r as nat, 0) == start,
            line@ == t.subrange(start as int, k as int),
        decreases e - k,
    {
        line.push(v[k]);
        k = k + 1;
        assert(line@ =~= t.subrange(start as int, k as int));
    }
    if e < n && line.len() > 0 && line[line.len() - 1] == '\r' {
        line.pop();
    }
    line
}

} // verus!
