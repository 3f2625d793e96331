//! Scanning the buffer while a condition holds, and what is built on it:
//! deleting a word (`d`), the span of a text object, the text of a span,
//! deleting and inserting text at positions, and undo.
use vstd::prelude::*;
use super::{
    Buffer, position_target, seek_position, cut_before,
};
use crate::gap::removed;
use crate::span::{Position, Span};
use crate::text::string_of;
use crate::text::{
    row_at, col_at, line_count, lemma_newlines_append, whitespace, alphanumeric, is_whitespace, is_alphanumeric,
    line_text, byte_len, utf8_width, char_width,
};
use crate::textobject::{Boundary, TextObject};
use crate::pattern::Motion;

verus! {

/// The class of a character for word motions.
#[derive(Debug, Clone, Copy, PartialEq, Eq, Structural)]
pub enum CharClass {
    /// Letters, digits and underscore.
    AlphaNumeric,
    /// Space or tab.
    Whitespace,
    /// Anything else.
    Symbols,
    Newline,
}

pub open spec fn class_of(c: char) -> CharClass {
    if alphanumeric(c) || c == '_' {
        CharClass::AlphaNumeric
    } else if c == '\n' {
        CharClass::Newline
    } else if c == ' ' || c == '\t' {
        CharClass::Whitespace
    } else {
        CharClass::Symbols
    }
}

impl CharClass {
    /// The class of `c`.
    pub fn from(c: char) -> (r: CharClass)
        ensures
            r == class_of(c),
    {
        if is_alphanumeric(c) || c == '_' {
            CharClass::AlphaNumeric
        } else if c == '\n' {
            CharClass::Newline
        } else if c == ' ' || c == '\t' {
            CharClass::Whitespace
        } else {
            CharClass::Symbols
        }
    }

    /// `c` is of this class.
    pub fn eq(&self, c: char) -> (r: bool)
        ensures
            r == (class_of(c) == *self),
    {
        let k = CharClass::from(c);
        match (k, *self) {
            (CharClass::AlphaNumeric, CharClass::AlphaNumeric) => true,
            (CharClass::Whitespace, CharClass::Whitespace) => true,
            (CharClass::Symbols, CharClass::Symbols) => true,
            (CharClass::Newline, CharClass::Newline) => true,
            _ => false,
        }
    }
}

/// Letters, digits and the characters of `[]().,$_` belong to words.
pub open spec fn word_char(c: char) -> bool {
    alphanumeric(c) || c == '[' || c == ']' || c == '(' || c == ')' || c == '.' || c == ','
        || c == '$' || c == '_'
}

/// Whitespace and newlines are blank.
pub open spec fn blank_char(c: char) -> bool {
    whitespace(c) || c == '\n'
}

/// A character of a word.
pub fn is_word(c: char) -> (r: bool)
    ensures
        r == word_char(c),
{
    is_alphanumeric(c) || c == '[' || c == ']' || c == '(' || c == ')' || c == '.' || c == ','
        || c == '$' || c == '_'
}

/// A blank character.
pub fn is_blank(c: char) -> (r: bool)
    ensures
        r == blank_char(c),
{
    is_whitespace(c) || c == '\n'
}

/// The conditions that the scans test, on the current character and its
/// neighbour.
#[derive(Debug, Clone, Copy)]
pub enum Scan {
    /// The current character belongs to a word.
    CurrWord,
    /// The current character is a space.
    CurrSpace,
    /// The next character is blank (`true`) or of a word (`false`).
    NextBlankOrWord(bool),
    /// The next character is of the class.
    NextClass(CharClass),
    /// The current character is a space or tab.
    CurrWhitespace,
    /// The current character is not the one given.
    CurrNot(char),
    /// The previous character is blank (`true`) or of a word (`false`).
    PrevBlankOrWord(bool),
    /// The previous character is of the class.
    PrevClass(CharClass),
}

pub open spec fn blank_or_word(blank: bool, c: char) -> bool {
    if blank {
        blank_char(c)
    } else {
        word_char(c)
    }
}

/// The condition on the character `curr` at hand and its neighbour `other`
/// (the next one for forward scans, the previous one for backward scans).
pub open spec fn holds(k: Scan, curr: char, other: Option<char>) -> bool {
    match k {
        Scan::CurrWord => word_char(curr),
        Scan::CurrSpace => curr == ' ',
        Scan::NextBlankOrWord(b) => other matches Some(c) && blank_or_word(b, c),
        Scan::NextClass(cls) => other matches Some(c) && class_of(c) == cls,
        Scan::CurrWhitespace => class_of(curr) == CharClass::Whitespace,
        Scan::CurrNot(x) => curr != x,
        Scan::PrevBlankOrWord(b) => other matches Some(c) && blank_or_word(b, c),
        Scan::PrevClass(cls) => other matches Some(c) && class_of(c) == cls,
    }
}

/// The first `i >= from` at which a forward scan from `s` stops: the end
/// of the text, or a character for which the condition fails.
pub open spec fn fw_from(t: Seq<char>, s: int, k: Scan, i: int) -> int
    decreases t.len() - (s + i),
{
    if s + i >= t.len() || s + i < 0 {
        i
    } else if !holds(
        k,
        t[s + i],
        if s + i + 1 < t.len() {
            Some(t[s + i + 1])
        } else {
            None
        },
    ) {
        i
    } else {
        fw_from(t, s, k, i + 1)
    }
}

/// How far a forward scan from index `s` gets.
pub open spec fn fw(t: Seq<char>, s: int, k: Scan) -> int {
    fw_from(t, s, k, 0)
}

/// The first `i >= from` at which a backward scan from `s` stops: the start
/// of the text, or a character for which the condition fails.
pub open spec fn bw_from(t: Seq<char>, s: int, k: Scan, i: int) -> int
    decreases s - i,
{
    if s - i <= 0 {
        i
    } else if !holds(k, t[s - i], Some(t[s - i - 1])) {
        i
    } else {
        bw_from(t, s, k, i + 1)
    }
}

/// How far a backward scan from index `s` gets.
pub open spec fn bw(t: Seq<char>, s: int, k: Scan) -> int {
    bw_from(t, s, k, 0)
}

proof fn lemma_fw_from(t: Seq<char>, s: int, k: Scan, i: int)
    requires
        0 <= s,
        0 <= i,
    ensures
        i <= fw_from(t, s, k, i),
        s + fw_from(t, s, k, i) <= t.len() || fw_from(t, s, k, i) == i,
    decreases t.len() - (s + i),
{
    if !(s + i >= t.len() || s + i < 0) && holds(
        k,
        t[s + i],
        if s + i + 1 < t.len() {
            Some(t[s + i + 1])
        } else {
            None
        },
    ) {
        lemma_fw_from(t, s, k, i + 1);
    }
}

proof fn lemma_fw_next(t: Seq<char>, s: int, k: Scan, i: int)
    requires
        0 <= s,
        0 <= i,
        s < t.len(),
        k is NextBlankOrWord || k is NextClass,
    ensures
        s + fw_from(t, s, k, i) < t.len() || fw_from(t, s, k, i) == i,
    decreases t.len() - (s + i),
{
    if !(s + i >= t.len() || s + i < 0) && holds(
        k,
        t[s + i],
        if s + i + 1 < t.len() {
            Some(t[s + i + 1])
        } else {
            None
        },
    ) {
        lemma_fw_next(t, s, k, i + 1);
    }
}

proof fn lemma_bw_from(t: Seq<char>, s: int, k: Scan, i: int)
    requires
        0 <= i,
    ensures
        i <= bw_from(t, s, k, i),
        bw_from(t, s, k, i) <= s || bw_from(t, s, k, i) == i,
    decreases s - i,
{
    if !(s - i <= 0) && holds(k, t[s - i], Some(t[s - i - 1])) {
        lemma_bw_from(t, s, k, i + 1);
    }
}

/// One round of `a(`: back to the opening symbol and forward to the closing
/// one; between rounds each side steps over its symbol unless it stands at
/// the first or the last character of the text. `None` when a scan gives
/// up.
pub open spec fn around_walk(
    t: Seq<char>,
    c: int,
    open: char,
    close: char,
    count: int,
    k: int,
    back: int,
    fwd: int,
) -> Option<(int, int)>
    decreases count - k,
{
    if k >= count {
        Some((back, fwd))
    } else {
        let bb = bw(t, c - back, Scan::CurrNot(open));
        let ff = fw(t, c + fwd, Scan::CurrNot(close));
        if bb >= 10000 || ff >= 10000 {
            None
        } else {
            let b1 = back + bb;
            let f1 = fwd + ff;
            let last = k == count - 1;
            let b2 = if !last && !(c - b1 == 0 || c - b1 >= t.len() - 1) {
                b1 + 1
            } else {
                b1
            };
            let f2 = if !last && !(c + f1 == 0 || c + f1 >= t.len() - 1) {
                f1 + 1
            } else {
                f1
            };
            around_walk(t, c, open, close, count, k + 1, b2, f2)
        }
    }
}

/// The rounds of `w` in a span from the cursor: to the end of the cursor's
/// class (always counted from the cursor), over whitespace, and one more
/// character when the text goes on.
pub open spec fn cw_walk(t: Seq<char>, c: int, wc: CharClass, count: int, k: int, fwd: int) -> Option<int>
    decreases count - k,
{
    if k >= count {
        Some(fwd)
    } else {
        let a = fw(t, c, Scan::NextClass(wc));
        let f1 = fwd + a;
        let b = fw(t, c + f1 + 1, Scan::CurrWhitespace);
        if a >= 10000 || b >= 10000 {
            None
        } else {
            let f2 = f1 + b;
            let f3 = if c + f2 + 1 < t.len() {
                f2 + 1
            } else {
                f2
            };
            cw_walk(t, c, wc, count, k + 1, f3)
        }
    }
}

/// The rounds of `iw` forward: to the end of the current class; unless it
/// is the last round or the text ends, one more character, whose class is
/// the next one to follow.
pub open spec fn iw_walk(t: Seq<char>, c: int, count: int, k: int, fwd: int, wcf: CharClass) -> Option<int>
    decreases count - k,
{
    if k >= count {
        Some(fwd)
    } else {
        let tmp = fw(t, c + fwd, Scan::NextClass(wcf));
        if tmp >= 10000 {
            None
        } else {
            let f1 = fwd + tmp;
            if k == count - 1 || c + f1 + 1 >= t.len() {
                Some(f1)
            } else {
                let f2 = f1 + 1;
                let w2 = if c + f2 >= t.len() {
                    CharClass::Whitespace
                } else {
                    class_of(t[c + f2])
                };
                iw_walk(t, c, count, k + 1, f2, w2)
            }
        }
    }
}

/// The start of a span, `k` characters back from the cursor: a newline at
/// index `c - k` (the character under the cursor for `k == 0`) moves it to
/// the end of the previous row, any other character one column left.
/// `None` where a row or column would go below 0.
pub open spec fn start_back(t: Seq<char>, c: int, back: int, k: int, p: Position) -> Option<Position>
    decreases back - k,
{
    if k >= back {
        Some(p)
    } else if t[c - k] == '\n' {
        if p.row == 0 {
            None
        } else {
            start_back(
                t,
                c,
                back,
                k + 1,
                Position {
                    row: (p.row - 1) as usize,
                    col: line_text(t, (p.row - 1) as nat).len() as usize,
                },
            )
        }
    } else {
        if p.col == 0 {
            None
        } else {
            start_back(t, c, back, k + 1, Position { row: p.row, col: (p.col - 1) as usize })
        }
    }
}

/// The end of a span, `k` characters forward from the cursor: a newline
/// moves it to column 1 of the next row, any other character one column
/// right. `None` where the text ends first.
pub open spec fn end_fwd(t: Seq<char>, c: int, fwd: int, k: int, p: Position) -> Option<Position>
    decreases fwd - k,
{
    if k >= fwd {
        Some(p)
    } else if c + k >= t.len() {
        None
    } else if t[c + k] == '\n' {
        end_fwd(t, c, fwd, k + 1, Position { row: (p.row + 1) as usize, col: 1 })
    } else {
        end_fwd(t, c, fwd, k + 1, Position { row: p.row, col: (p.col + 1) as usize })
    }
}

/// The span from `back` characters before the cursor to `fwd` characters
/// after it, starting from the cursor's own character.
pub open spec fn build_span(t: Seq<char>, c: int, row: usize, col: usize, back: int, fwd: int) -> Option<Span> {
    match start_back(t, c, back, 0, Position { row, col }) {
        None => None,
        Some(s) => match end_fwd(t, c, fwd, 0, Position { row, col: (col + 1) as usize }) {
            None => None,
            Some(e) => Some(Span { start: s, end: e }),
        },
    }
}

/// The span of `a(` or `a{` around the cursor, empty at the cursor when the
/// symbols are not both found.
pub open spec fn around_span(
    t: Seq<char>,
    c: int,
    row: usize,
    col: usize,
    open: char,
    close: char,
    count: int,
) -> Option<Span> {
    match around_walk(t, c, open, close, count, 0, 0, 0) {
        None => None,
        Some((back, fwd)) => if !(t[c - back] == open && c + fwd < t.len() && t[c + fwd]
            == close) {
            Some(Span { start: Position { row, col }, end: Position { row, col } })
        } else {
            build_span(t, c, row, col, back, fwd)
        },
    }
}

/// The span of a text object at the cursor (which must stand on a
/// character): `a(`/`a{` from symbol to symbol, `i(`/`i{` the same without
/// the symbols, `w` from the cursor over `count` words, `iw` over `count`
/// runs of one class each. `None` where it gives up: an object it
/// does not handle, a scan past ten thousand characters, a span that leaves
/// the text or goes below row or column 0.
pub open spec fn span_spec(t: Seq<char>, c: int, row: usize, col: usize, m: Motion) -> Option<Span> {
    let count: int = match m.count {
        Some(n) => n as int,
        None => 1,
    };
    let wc = class_of(t[c]);
    match (m.boundary, m.object) {
        (Boundary::Around, TextObject::Paren) => around_span(t, c, row, col, '(', ')', count),
        (Boundary::Around, TextObject::CurlyBracket) => around_span(
            t,
            c,
            row,
            col,
            '{',
            '}',
            count,
        ),
        (Boundary::Inner, TextObject::Paren) | (Boundary::Inner, TextObject::CurlyBracket) => {
            let (open, close) = if m.object == TextObject::Paren {
                ('(', ')')
            } else {
                ('{', '}')
            };
            match around_span(t, c, row, col, open, close, count) {
                None => None,
                Some(s) => if s.start == s.end {
                    Some(s)
                } else if s.end.col < 1 {
                    None
                } else {
                    Some(
                        Span {
                            start: Position { row: s.start.row, col: (s.start.col + 1) as usize },
                            end: Position { row: s.end.row, col: (s.end.col - 1) as usize },
                        },
                    )
                },
            }
        },
        (Boundary::Current, TextObject::Word) => match cw_walk(t, c, wc, count, 0, 0) {
            None => None,
            Some(fwd) => build_span(t, c, row, col, 0, fwd),
        },
        (Boundary::Inner, TextObject::Word) => {
            let back = bw(t, c, Scan::PrevClass(wc));
            if back >= 10000 {
                None
            } else {
                match iw_walk(t, c, count, 0, 0, wc) {
                    None => None,
                    Some(fwd) => build_span(t, c, row, col, back, fwd),
                }
            }
        },
        _ => None,
    }
}

impl Buffer {
    /// How far the condition holds going forward from index `start`; it gives
    /// up with a panic after ten thousand characters, which `requires` rules
    /// out.
    fn forward_while(&self, start: usize, k: Scan) -> (r: usize)
        requires
            self.wf(),
            fw(self.chars(), start as int, k) < 10000,
        ensures
            r == fw(self.chars(), start as int, k),
    {
        let ghost t = self.chars();
        let n = self.len();
        let mut i: usize = 0;
        while i < 10000
            invariant
                self.wf(),
                t == self.chars(),
                n == t.len(),
                fw(t, start as int, k) < 10000,
                fw(t, start as int, k) == fw_from(t, start as int, k, i as int),
                i <= 10000,
            decreases 10000 - i,
        {
            if start >= n || i >= n - start {
                return i;
            }
            let curr = self.gap.get(start + i);
            let next = if start + i + 1 >= n {
                None
            } else {
                Some(self.gap.get(start + i + 1))
            };
            if !self.test(k, curr, next) {
                return i;
            }
            i = i + 1;
        }
        proof {
            lemma_fw_from(t, start as int, k, i as int);
        }
        i
    }

    /// How far the condition holds going backward from index `start` (the
    /// character at `start` itself included as the current one); it gives up
    /// with a panic after ten thousand characters, which `requires` rules out.
    fn back_while(&self, start: usize, k: Scan) -> (r: usize)
        requires
            self.wf(),
            start < self.chars().len(),
            bw(self.chars(), start as int, k) < 10000,
        ensures
            r == bw(self.chars(), start as int, k),
    {
        let ghost t = self.chars();
        let mut i: usize = 0;
        while i < 10000
            invariant
                self.wf(),
                t == self.chars(),
                start < t.len(),
                bw(t, start as int, k) < 10000,
                bw(t, start as int, k) == bw_from(t, start as int, k, i as int),
                i <= 10000,
            decreases 10000 - i,
        {
            if i >= start {
                return i;
            }
            let curr = self.gap.get(start - i);
            let prev = self.gap.get(start - i - 1);
            if !self.test(k, curr, Some(prev)) {
                return i;
            }
            i = i + 1;
        }
        proof {
            lemma_bw_from(t, start as int, k, i as int);
        }
        i
    }

    /// Evaluates the condition `k`.
    fn test(&self, k: Scan, curr: char, other: Option<char>) -> (b: bool)
        ensures
            b == holds(k, curr, other),
    {
        match k {
            Scan::CurrWord => is_word(curr),
            Scan::CurrSpace => curr == ' ',
            Scan::NextBlankOrWord(b) => match other {
                Some(c) => if b {
                    is_blank(c)
                } else {
                    is_word(c)
                },
                None => false,
            },
            Scan::NextClass(cls) => match other {
                Some(c) => cls.eq(c),
                None => false,
            },
            Scan::CurrWhitespace => CharClass::Whitespace.eq(curr),
            Scan::CurrNot(x) => curr != x,
            Scan::PrevBlankOrWord(b) => match other {
                Some(c) => if b {
                    is_blank(c)
                } else {
                    is_word(c)
                },
                None => false,
            },
            Scan::PrevClass(cls) => match other {
                Some(c) => cls.eq(c),
                None => false,
            },
        }
    }
}

/// The characters from the cursor up to (not including) the position
/// `end`, or up to and including the last character, at most `fuel`
/// steps. `None` where it gives up: no character under the
/// cursor, or too many steps.
pub open spec fn span_text_walk(t: Seq<char>, c: int, end: Position, fuel: nat) -> Option<Seq<char>>
    decreases fuel,
{
    if fuel == 0 {
        None
    } else if row_at(t, c) == end.row && col_at(t, c) == end.col {
        Some(Seq::<char>::empty())
    } else if c < 0 || c >= t.len() {
        None
    } else if c + 1 >= t.len() {
        Some(seq![t[c]])
    } else {
        match span_text_walk(t, c + 1, end, (fuel - 1) as nat) {
            Some(rest) => Some(seq![t[c]] + rest),
            None => None,
        }
    }
}

pub open spec fn prefixed(a: Seq<char>, o: Option<Seq<char>>) -> Option<Seq<char>> {
    match o {
        Some(s) => Some(a + s),
        None => None,
    }
}

/// The index at which a walk over the text, counting rows and columns
/// from 0 (columns again from 0 after each newline), first stands at `end`
/// or below its row; the walk looks at index `j` before stepping over it.
pub open spec fn find_end_from(t: Seq<char>, end: Position, j: int, loc: (int, int)) -> Option<int>
    decreases t.len() - j,
{
    if j >= t.len() || j < 0 {
        None
    } else if (loc.0 == end.row && loc.1 == end.col) || loc.0 > end.row {
        Some(j)
    } else if t[j] == '\n' {
        find_end_from(t, end, j + 1, (loc.0 + 1, 0))
    } else {
        find_end_from(t, end, j + 1, (loc.0, loc.1 + 1))
    }
}

/// Where deleting a span ends: the index of the character at the span's
/// end, one further when the end is included.
pub open spec fn delete_end(t: Seq<char>, end: Position, include_end: bool) -> Option<int> {
    match find_end_from(t, end, 0, (0, 0)) {
        None => None,
        Some(j) => Some(
            j + if include_end {
                1int
            } else {
                0int
            },
        ),
    }
}

/// Deleting `span` does not give up: its end is found, and where the
/// deletion ends lies between its start and the end of the text.
pub open spec fn delete_span_ok(t: Seq<char>, c: int, span: Span, include_end: bool) -> bool {
    delete_end(t, span.end, include_end) matches Some(e) && position_target(
        t,
        c,
        span.start.row as int,
        span.start.col as int,
    ) <= e <= t.len()
}

/// What inserting `s` at `at` does to a buffer with text `t` and cursor
/// `c` at position `pos`: the cursor moves to `at`, the text goes in, and
/// the cursor returns to where its character now is: `pos` when it was
/// before `at`, otherwise `pos` moved by the inserted text.
pub open spec fn insert_text_spec(t: Seq<char>, c: int, pos: Position, at: Position, s: Seq<char>) -> (
    Seq<char>,
    int,
) {
    let c1 = position_target(t, c, at.row as int, at.col as int);
    let t2 = t.take(c1) + s + t.skip(c1);
    let c2 = c1 + s.len();
    let e = if crate::span::position_lt(pos, at) {
        pos
    } else {
        crate::span::position_plus(pos, crate::span::span_of_text(s))
    };
    (t2, position_target(t2, c2, e.row as int, e.col as int))
}

/// `d` on a word from the cursor, `k` times: at the end of the text the
/// character before the cursor goes (and it stops); on a blank it deletes
/// the run of spaces and tabs up to the next word (and stops); on a word
/// it deletes the word and the spaces after it. `None` where a scan gives
/// up.
pub open spec fn d_current(t: Seq<char>, c: int, k: nat) -> Option<(Seq<char>, int)>
    decreases k,
{
    if k == 0 {
        Some((t, c))
    } else if c >= t.len() {
        if c > 0 {
            Some((removed(t, c - 1), c - 1))
        } else {
            Some((t, c))
        }
    } else if whitespace(t[c]) {
        let i = fw(t, c, Scan::CurrWhitespace);
        if i >= 10000 {
            None
        } else {
            Some((t.take(c) + t.skip(c + i), c))
        }
    } else {
        let i = fw(t, c, Scan::CurrWord);
        let t1 = t.take(c) + t.skip(c + i);
        let j = fw(t1, c, Scan::CurrSpace);
        if i >= 10000 || j >= 10000 {
            None
        } else {
            d_current(t1.take(c) + t1.skip(c + j), c, (k - 1) as nat)
        }
    }
}

/// `diw`: on a blank, the blanks around the cursor go, otherwise the word
/// characters around it; backwards only within the line. `None` where it
/// gives up: a scan past ten thousand characters, or a backward
/// run longer than the column.
pub open spec fn d_inner(t: Seq<char>, c: int) -> Option<(Seq<char>, int)> {
    let want = whitespace(t[c]);
    let i = bw(t, c, Scan::PrevBlankOrWord(want));
    if i >= 10000 || i > col_at(t, c) {
        None
    } else {
        let t1 = cut_before(t, c, i);
        let c1 = c - i;
        let j = fw(t1, c1, Scan::NextBlankOrWord(want));
        if j >= 10000 {
            None
        } else {
            Some((t1.take(c1) + t1.skip(c1 + j + 1), c1))
        }
    }
}

/// What `d(count, boundary, object)` does to the text and the cursor; only
/// words are handled, `aw` does nothing.
pub open spec fn d_spec(t: Seq<char>, c: int, count: nat, b: Boundary, o: TextObject) -> Option<
    (Seq<char>, int),
> {
    match (b, o) {
        (Boundary::Current, TextObject::Word) => d_current(t, c, count),
        (Boundary::Inner, TextObject::Word) => if c < t.len() {
            d_inner(t, c)
        } else {
            None
        },
        (Boundary::Around, TextObject::Word) => Some((t, c)),
        _ => None,
    }
}

proof fn lemma_cw_mono(t: Seq<char>, c: int, wc: CharClass, count: int, k: int, fwd: int)
    requires
        0 <= c,
        0 <= fwd,
        cw_walk(t, c, wc, count, k, fwd) is Some,
    ensures
        fwd <= cw_walk(t, c, wc, count, k, fwd)->0,
    decreases count - k,
{
    if k < count {
        let a = fw(t, c, Scan::NextClass(wc));
        let f1 = fwd + a;
        let b = fw(t, c + f1 + 1, Scan::CurrWhitespace);
        lemma_fw_from(t, c, Scan::NextClass(wc), 0);
        lemma_fw_from(t, c + f1 + 1, Scan::CurrWhitespace, 0);
        let f2 = f1 + b;
        let f3 = if c + f2 + 1 < t.len() {
            f2 + 1
        } else {
            f2
        };
        lemma_cw_mono(t, c, wc, count, k + 1, f3);
    }
}

proof fn lemma_iw_mono(t: Seq<char>, c: int, count: int, k: int, fwd: int, wcf: CharClass)
    requires
        0 <= c,
        0 <= fwd,
        iw_walk(t, c, count, k, fwd, wcf) is Some,
    ensures
        fwd <= iw_walk(t, c, count, k, fwd, wcf)->0,
    decreases count - k,
{
    if k < count {
        let tmp = fw(t, c + fwd, Scan::NextClass(wcf));
        lemma_fw_from(t, c + fwd, Scan::NextClass(wcf), 0);
        let f1 = fwd + tmp;
        if !(k == count - 1 || c + f1 + 1 >= t.len()) {
            let f2 = f1 + 1;
            let w2 = if c + f2 >= t.len() {
                CharClass::Whitespace
            } else {
                class_of(t[c + f2])
            };
            lemma_iw_mono(t, c, count, k + 1, f2, w2);
        }
    }
}

proof fn lemma_end_fwd_in_text(t: Seq<char>, c: int, fwd: int, k: int, p: Position)
    requires
        end_fwd(t, c, fwd, k, p) is Some,
        0 <= k,
    ensures
        k < fwd ==> c + fwd <= t.len(),
    decreases fwd - k,
{
    if k < fwd {
        if k + 1 < fwd {
            let p1 = if t[c + k] == '\n' {
                Position { row: (p.row + 1) as usize, col: 1 }
            } else {
                Position { row: p.row, col: (p.col + 1) as usize }
            };
            lemma_end_fwd_in_text(t, c, fwd, k + 1, p1);
        }
    }
}

impl Buffer {
    /// Storage size.
    pub fn storage_size(&self) -> (n: usize)
        ensures
            n == self.capacity(),
    {
        self.gap.storage_len()
    }

    /// `forward_while`, but `None` where that one gives up.
    fn forward_checked(&self, start: usize, k: Scan) -> (r: Option<usize>)
        requires
            self.wf(),
        ensures
            r == (if fw(self.chars(), start as int, k) < 10000 {
                Some(fw(self.chars(), start as int, k) as usize)
            } else {
                None::<usize>
            }),
    {
        let ghost t = self.chars();
        let n = self.len();
        let mut i: usize = 0;
        while i < 10000
            invariant
                self.wf(),
                t == self.chars(),
                n == t.len(),
                fw(t, start as int, k) == fw_from(t, start as int, k, i as int),
                i <= 10000,
            decreases 10000 - i,
        {
            if start >= n || i >= n - start {
                proof {
                    lemma_fw_from(t, start as int, k, i as int);
                }
                return Some(i);
            }
            let curr = self.gap.get(start + i);
            let next = if start + i + 1 >= n {
                None
            } else {
                Some(self.gap.get(start + i + 1))
            };
            if !self.test(k, curr, next) {
                proof {
                    lemma_fw_from(t, start as int, k, i as int);
                }
                return Some(i);
            }
            i = i + 1;
        }
        proof {
            lemma_fw_from(t, start as int, k, i as int);
        }
        None
    }

    /// `back_while`, but `None` where that one gives up.
    fn back_checked(&self, start: usize, k: Scan) -> (r: Option<usize>)
        requires
            self.wf(),
            start < self.chars().len(),
        ensures
            r == (if bw(self.chars(), start as int, k) < 10000 {
                Some(bw(self.chars(), start as int, k) as usize)
            } else {
                None::<usize>
            }),
    {
        let ghost t = self.chars();
        let mut i: usize = 0;
        while i < 10000
            invariant
                self.wf(),
                t == self.chars(),
                start < t.len(),
                bw(t, start as int, k) == bw_from(t, start as int, k, i as int),
                i <= 10000,
            decreases 10000 - i,
        {
            if i >= start {
                proof {
                    lemma_bw_from(t, start as int, k, i as int);
                }
                return Some(i);
            }
            let curr = self.gap.get(start - i);
            let prev = self.gap.get(start - i - 1);
            if !self.test(k, curr, Some(prev)) {
                proof {
                    lemma_bw_from(t, start as int, k, i as int);
                }
                return Some(i);
            }
            i = i + 1;
        }
        proof {
            lemma_bw_from(t, start as int, k, i as int);
        }
        None
    }

    /// Back and forward distances to the symbols of an `a(`-like object,
    /// and whether they were not both found; `None` where a scan gives up.
    fn span_around_symbol(&self, open: char, close: char, count: usize) -> (r: Option<
        (usize, usize, bool),
    >)
        requires
            self.wf(),
            self.cursor() < self.chars().len(),
            close != '\0',
        ensures
            (r is Some) == (around_walk(self.chars(), self.cursor(), open, close, count as int, 0, 0, 0) is Some),
            r matches Some(x) ==> {
                &&& around_walk(self.chars(), self.cursor(), open, close, count as int, 0, 0, 0) == Some((x.0 as int, x.1 as int))
                &&& x.0 <= self.cursor()
                &&& self.cursor() + x.1 <= self.chars().len()
                &&& x.2 == !(self.chars()[self.cursor() - x.0] == open && self.cursor() + x.1
                    < self.chars().len() && self.chars()[self.cursor() + x.1] == close)
            },
    {
        let ghost t = self.chars();
        proof {
            self.lemma_wf();
        }
        let n = self.len();
        let c = self.cursor_index();
        let mut back: usize = 0;
        let mut fwd: usize = 0;
        let mut k: usize = 0;
        while k < count
            invariant
                self.wf(),
                t == self.chars(),
                n == t.len(),
                n <= usize::MAX / 8,
                c == self.cursor(),
                c < n,
                k <= count,
                back <= c,
                c + fwd <= n,
                around_walk(t, c as int, open, close, count as int, 0, 0, 0)
                    == around_walk(t, c as int, open, close, count as int, k as int, back as int, fwd as int),
            decreases count - k,
        {
            proof {
                lemma_bw_from(t, c - back, Scan::CurrNot(open), 0);
                lemma_fw_from(t, (c + fwd) as int, Scan::CurrNot(close), 0);
            }
            let bb = match self.back_checked(c - back, Scan::CurrNot(open)) {
                Some(x) => x,
                None => {
                    return None;
                },
            };
            let ff = match self.forward_checked(c + fwd, Scan::CurrNot(close)) {
                Some(x) => x,
                None => {
                    return None;
                },
            };
            back = back + bb;
            fwd = fwd + ff;
            let last = k == count - 1;
            if !last && !(c - back == 0 || c - back >= n - 1) {
                back = back + 1;
            }
            if !last && !(c + fwd == 0 || c + fwd >= n - 1) {
                fwd = fwd + 1;
            }
            k = k + 1;
        }
        let a = self.gap.get(c - back);
        let b = if c + fwd < n {
            self.gap.get(c + fwd)
        } else {
            '\0'
        };
        Some((back, fwd, !(a == open && b == close)))
    }

    /// How far `w` reaches in a span from the cursor; see `cw_walk`. `None`
    /// where a scan gives up or the reach goes past the text.
    fn word_forward(&self, wc: CharClass, count: usize) -> (r: Option<usize>)
        requires
            self.wf(),
            self.cursor() < self.chars().len(),
        ensures
            r matches Some(fwd) ==> cw_walk(self.chars(), self.cursor(), wc, count as int, 0, 0)
                == Some(fwd as int) && self.cursor() + fwd <= self.chars().len(),
            r is None ==> cw_walk(self.chars(), self.cursor(), wc, count as int, 0, 0) is None
                || self.cursor() + cw_walk(self.chars(), self.cursor(), wc, count as int, 0, 0)->0
                > self.chars().len(),
    {
        let ghost t = self.chars();
        proof {
            self.lemma_wf();
        }
        let n = self.len();
        let c = self.cursor_index();
        let mut fwd: usize = 0;
        let mut k: usize = 0;
        while k < count
            invariant
                self.wf(),
                t == self.chars(),
                n == t.len(),
                c == self.cursor(),
                c < n,
                n <= usize::MAX / 8,
                k <= count,
                c + fwd <= n,
                cw_walk(t, c as int, wc, count as int, 0, 0) == cw_walk(
                    t,
                    c as int,
                    wc,
                    count as int,
                    k as int,
                    fwd as int,
                ),
            decreases count - k,
        {
            proof {
                lemma_fw_from(t, c as int, Scan::NextClass(wc), 0);
            }
            let a = match self.forward_checked(c, Scan::NextClass(wc)) {
                Some(x) => x,
                None => {
                    return None;
                },
            };
            if a > n - c - fwd {
                proof {
                    let f1 = fwd + a;
                    let b = fw(t, c + f1 + 1, Scan::CurrWhitespace);
                    lemma_fw_from(t, c + f1 + 1, Scan::CurrWhitespace, 0);
                    if b < 10000 {
                        let f2 = f1 + b;
                        let f3 = if c + f2 + 1 < t.len() {
                            f2 + 1
                        } else {
                            f2
                        };
                        if cw_walk(t, c as int, wc, count as int, k + 1, f3) is Some {
                            lemma_cw_mono(t, c as int, wc, count as int, k + 1, f3);
                        }
                    }
                }
                return None;
            }
            fwd = fwd + a;
            proof {
                lemma_fw_from(t, c + fwd + 1, Scan::CurrWhitespace, 0);
            }
            let b = match self.forward_checked(c + fwd + 1, Scan::CurrWhitespace) {
                Some(x) => x,
                None => {
                    return None;
                },
            };
            fwd = fwd + b;
            if c + fwd + 1 < n {
                fwd = fwd + 1;
            }
            k = k + 1;
        }
        Some(fwd)
    }

    /// How far `iw` reaches forward; see `iw_walk`. `None` where a scan
    /// gives up.
    fn inner_word_forward(&self, wc: CharClass, count: usize) -> (r: Option<usize>)
        requires
            self.wf(),
            self.cursor() < self.chars().len(),
        ensures
            r matches Some(fwd) ==> iw_walk(self.chars(), self.cursor(), count as int, 0, 0, wc)
                == Some(fwd as int) && self.cursor() + fwd <= self.chars().len(),
            r is None ==> iw_walk(self.chars(), self.cursor(), count as int, 0, 0, wc) is None,
    {
        let ghost t = self.chars();
        proof {
            self.lemma_wf();
        }
        let n = self.len();
        let c = self.cursor_index();
        let mut fwd: usize = 0;
        let mut wcf = wc;
        let mut k: usize = 0;
        while k < count
            invariant
                self.wf(),
                t == self.chars(),
                n == t.len(),
                c == self.cursor(),
                c < n,
                n <= usize::MAX / 8,
                k <= count,
                c + fwd <= n,
                iw_walk(t, c as int, count as int, 0, 0, wc) == iw_walk(
                    t,
                    c as int,
                    count as int,
                    k as int,
                    fwd as int,
                    wcf,
                ),
            decreases count - k,
        {
            proof {
                lemma_fw_from(t, c + fwd, Scan::NextClass(wcf), 0);
            }
            let tmp = match self.forward_checked(c + fwd, Scan::NextClass(wcf)) {
                Some(x) => x,
                None => {
                    return None;
                },
            };
            fwd = fwd + tmp;
            if k == count - 1 {
                return Some(fwd);
            }
            if c + fwd + 1 >= n {
                return Some(fwd);
            }
            fwd = fwd + 1;
            wcf = if c + fwd >= n {
                CharClass::Whitespace
            } else {
                CharClass::from(self.gap.get(c + fwd))
            };
            k = k + 1;
        }
        Some(fwd)
    }

    /// The span from `back` characters before the cursor to `fwd` after it;
    /// see `build_span`.
    fn build_span(&self, back: usize, fwd: usize) -> (r: Option<Span>)
        requires
            self.wf(),
            back <= self.cursor() < self.chars().len(),
        ensures
            r == build_span(
                self.chars(),
                self.cursor(),
                self.cur_row(),
                self.cur_col(),
                back as int,
                fwd as int,
            ),
            r matches Some(s) ==> s.start.col <= self.chars().len(),
    {
        let ghost t = self.chars();
        proof {
            self.lemma_wf();
        }
        let c = self.cursor_index();
        let n = self.len();
        let row = self.row_index();
        let col = self.col_index();
        let mut start = Position { row, col };
        proof {
            crate::text::lemma_row_col_bound(t, c as int);
        }
        let mut k: usize = 0;
        while k < back
            invariant
                self.wf(),
                t == self.chars(),
                c == self.cursor(),
                back <= c < n,
                n == t.len(),
                k <= back,
                start_back(t, c as int, back as int, 0, Position { row, col }) == start_back(
                    t,
                    c as int,
                    back as int,
                    k as int,
                    start,
                ),
                start.col <= n,
                row == self.cur_row(),
                col == self.cur_col(),
            decreases back - k,
        {
            if self.gap.get(c - k) == '\n' {
                if start.row == 0 {
                    assert(start_back(t, c as int, back as int, k as int, start) is None);
                    return None;
                }
                let r = start.row - 1;
                proof {
                    crate::text::lemma_line_text_len(t, r as nat);
                }
                start = Position { row: r, col: self.num_columns(r) };
            } else {
                if start.col == 0 {
                    assert(start_back(t, c as int, back as int, k as int, start) is None);
                    return None;
                }
                start = Position { row: start.row, col: start.col - 1 };
            }
            k = k + 1;
        }
        proof {
            crate::text::lemma_row_col_bound(t, c as int);
        }
        assert(start_back(t, c as int, back as int, back as int, start) == Some(start));
        let ghost e0 = Position { row, col: (col + 1) as usize };
        let mut end = Position { row, col: col + 1 };
        let mut k: usize = 0;
        while k < fwd
            invariant
                self.wf(),
                start_back(t, c as int, back as int, 0, Position { row, col }) == Some(start),
                e0 == (Position { row, col: (col + 1) as usize }),
                row == self.cur_row(),
                col == self.cur_col(),
                t == self.chars(),
                c == self.cursor(),
                c < n,
                n == t.len(),
                n <= usize::MAX / 8,
                k <= fwd,
                c + k <= n,
                end.row <= row + k,
                row <= c,
                end.col <= col + 1 + k,
                col <= c,
                end_fwd(t, c as int, fwd as int, 0, e0) == end_fwd(
                    t,
                    c as int,
                    fwd as int,
                    k as int,
                    end,
                ),
            decreases fwd - k,
        {
            if c + k >= n {
                assert(end_fwd(t, c as int, fwd as int, k as int, end) is None);
                return None;
            }
            if self.gap.get(c + k) == '\n' {
                end = Position { row: end.row + 1, col: 1 };
            } else {
                end = Position { row: end.row, col: end.col + 1 };
            }
            k = k + 1;
        }
        Some(Span { start, end })
    }

    /// The span of the text object that `motion` names at the cursor, or
    /// `None` where it gives up; see `span_spec`.
    pub fn span_checked(&self, motion: Motion) -> (r: Option<Span>)
        requires
            self.wf(),
            self.cursor() < self.chars().len(),
        ensures
            r == span_spec(self.chars(), self.cursor(), self.cur_row(), self.cur_col(), motion),
    {
        let ghost t = self.chars();
        proof {
            self.lemma_wf();
        }
        let wc = CharClass::from(self.current_char());
        let count: usize = match motion.count {
            Some(n) => n,
            None => 1,
        };
        match (motion.boundary, motion.object) {
            (Boundary::Around, TextObject::Paren) => self.around_span('(', ')', count),
            (Boundary::Around, TextObject::CurlyBracket) => self.around_span('{', '}', count),
            (Boundary::Inner, TextObject::Paren) | (Boundary::Inner, TextObject::CurlyBracket) => {
                let (open, close) = if motion.object == TextObject::Paren {
                    ('(', ')')
                } else {
                    ('{', '}')
                };
                match self.around_span(open, close, count) {
                    None => None,
                    Some(s) => {
                        if s.is_empty() {
                            Some(s)
                        } else if s.end.col < 1 {
                            None
                        } else {
                            Some(s.shrink(1))
                        }
                    },
                }
            },
            (Boundary::Current, TextObject::Word) => {
                match self.word_forward(wc, count) {
                    Some(fwd) => self.build_span(0, fwd),
                    None => {
                        proof {
                            let w = cw_walk(t, self.cursor(), wc, count as int, 0, 0);
                            if w is Some {
                                let fwd = w->0;
                                let e0 = Position {
                                    row: self.cur_row(),
                                    col: (self.cur_col() + 1) as usize,
                                };
                                if end_fwd(t, self.cursor(), fwd, 0, e0) is Some {
                                    lemma_end_fwd_in_text(t, self.cursor(), fwd, 0, e0);
                                }
                            }
                        }
                        None
                    },
                }
            },
            (Boundary::Inner, TextObject::Word) => {
                proof {
                    lemma_bw_from(t, self.cursor(), Scan::PrevClass(wc), 0);
                }
                let back = match self.back_checked(self.cursor_index(), Scan::PrevClass(wc)) {
                    Some(x) => x,
                    None => {
                        return None;
                    },
                };
                match self.inner_word_forward(wc, count) {
                    Some(fwd) => self.build_span(back, fwd),
                    None => None,
                }
            },
            _ => None,
        }
    }

    /// The span of the text object that `motion` names at the cursor; see
    /// `span_spec`.
    pub fn span(&self, motion: Motion) -> (s: Span)
        requires
            self.wf(),
            self.cursor() < self.chars().len(),
            span_spec(self.chars(), self.cursor(), self.cur_row(), self.cur_col(), motion) is Some,
        ensures
            span_spec(self.chars(), self.cursor(), self.cur_row(), self.cur_col(), motion) == Some(s),
    {
        self.span_checked(motion).unwrap()
    }

    /// The span of `a(`/`a{` at the cursor; see `around_span`.
    fn around_span(&self, open: char, close: char, count: usize) -> (r: Option<Span>)
        requires
            self.wf(),
            self.cursor() < self.chars().len(),
            close != '\0',
        ensures
            r == around_span(self.chars(), self.cursor(), self.cur_row(), self.cur_col(), open, close, count as int),
            r matches Some(s) ==> s.start.col <= self.chars().len(),
    {
        proof {
            self.lemma_wf();
        }
        match self.span_around_symbol(open, close, count) {
            None => None,
            Some((back, fwd, empty)) => {
                if empty {
                    Some(Span::empty_at(self.row_index(), self.col_index()))
                } else {
                    self.build_span(back, fwd)
                }
            },
        }
    }

    /// The span of `count` of `object` with `boundary` at the cursor, or
    /// `None` where it gives up; see `span_spec`.
    pub fn span_for_textobject_checked(
        &self,
        object: TextObject,
        boundary: Boundary,
        count: usize,
    ) -> (r: Option<Span>)
        requires
            self.wf(),
            self.cursor() < self.chars().len(),
        ensures
            r == span_spec(self.chars(), self.cursor(), self.cur_row(), self.cur_col(), Motion { count: Some(count), boundary, object }),
    {
        self.span_checked(Motion { count: Some(count), boundary, object })
    }

    /// The span of `count` of `object` with `boundary` at the cursor.
    pub fn span_for_textobject(&self, object: TextObject, boundary: Boundary, count: usize) -> (s: Span)
        requires
            self.wf(),
            self.cursor() < self.chars().len(),
            span_spec(self.chars(), self.cursor(), self.cur_row(), self.cur_col(), Motion { count: Some(count), boundary, object }) is Some,
        ensures
            span_spec(self.chars(), self.cursor(), self.cur_row(), self.cur_col(), Motion { count: Some(count), boundary, object }) == Some(s),
    {
        self.span(Motion { count: Some(count), boundary, object })
    }
}

impl Buffer {
    /// The text of `span`, read from a copy of the buffer: from the start
    /// position up to the end position, or to the last character; see
    /// `span_text_walk`.
    pub fn text_for_span(&self, span: Span) -> (s: String)
        requires
            self.wf(),
            span_text_walk(
                self.chars(),
                position_target(self.chars(), self.cursor(), span.start.row as int, span.start.col as int),
                span.end,
                10000,
            ) is Some,
        ensures
            Some(s@) == span_text_walk(
                self.chars(),
                position_target(self.chars(), self.cursor(), span.start.row as int, span.start.col as int),
                span.end,
                10000,
            ),
    {
        let ghost t = self.chars();
        let mut cloned = self.duplicate();
        cloned.position(span.start.row, span.start.col);
        let ghost c0 = cloned.cursor();
        let mut chars: Vec<char> = Vec::new();
        let mut i: usize = 0;
        while i < 10000
            invariant
                cloned.wf(),
                cloned.chars() == t,
                t == self.chars(),
                c0 == position_target(self.chars(), self.cursor(), span.start.row as int, span.start.col as int),
                i <= 10000,
                span_text_walk(t, c0, span.end, 10000) is Some,
                span_text_walk(t, c0, span.end, 10000) == prefixed(
                    chars@,
                    span_text_walk(t, cloned.cursor(), span.end, (10000 - i) as nat),
                ),
            decreases 10000 - i,
        {
            proof {
                cloned.lemma_wf();
            }
            if cloned.row_index() == span.end.row && cloned.col_index() == span.end.col {
                proof {
                    assert(chars@ + Seq::<char>::empty() =~= chars@);
                }
                return string_of(chars.as_slice());
            }
            let ch = cloned.current_char();
            chars.push(ch);
            if cloned.at_eof() {
                proof {
                    assert(chars@.drop_last() + seq![ch] =~= chars@);
                }
                return string_of(chars.as_slice());
            }
            proof {
                assert(chars@.drop_last() + (seq![ch] + span_text_walk(
                    t,
                    cloned.cursor() + 1,
                    span.end,
                    (10000 - i - 1) as nat,
                )->0) =~= chars@ + span_text_walk(
                    t,
                    cloned.cursor() + 1,
                    span.end,
                    (10000 - i - 1) as nat,
                )->0);
            }
            cloned.right(1);
            i = i + 1;
        }
        string_of(chars.as_slice())
    }

    /// Deletes `k` characters from the cursor on.
    fn delete_forward_n(&mut self, k: usize)
        requires
            old(self).wf(),
            old(self).cursor() + k <= old(self).chars().len(),
        ensures
            final(self).wf(),
            final(self).chars() == old(self).chars().take(old(self).cursor()) + old(
                self,
            ).chars().skip(old(self).cursor() + k),
            final(self).cursor() == old(self).cursor(),
            final(self).capacity() == old(self).capacity(),
            final(self).target() == old(self).target(),
            final(self).history() == old(self).history(),
    {
        let ghost t = self.chars();
        let ghost c = self.cursor();
        proof {
            assert(t.take(c) + t.skip(c) =~= t);
        }
        let mut m: usize = 0;
        while m < k
            invariant
                self.wf(),
                m <= k,
                c + k <= t.len(),
                self.cursor() == c,
                self.chars() == t.take(c) + t.skip(c + m),
                self.capacity() == old(self).capacity(),
                self.target() == old(self).target(),
                self.history() == old(self).history(),
            decreases k - m,
        {
            self.delete_forward();
            proof {
                assert(removed(t.take(c) + t.skip(c + m), c) =~= t.take(c) + t.skip(c + m + 1));
            }
            m = m + 1;
        }
    }

    /// Deletes the text of `span` after moving the cursor to its start, and
    /// gives it back. The end is found as `delete_end` says; the number of
    /// characters deleted is that end minus the cursor index.
    pub fn delete_span(&mut self, span: Span, include_end: bool) -> (deleted: String)
        requires
            old(self).wf(),
            ({
                let c1 = position_target(old(self).chars(), old(self).cursor(), span.start.row as int, span.start.col as int);
                delete_end(old(self).chars(), span.end, include_end) matches Some(e) && c1 <= e
                    <= old(self).chars().len()
            }),
        ensures
            final(self).wf(),
            ({
                let c1 = position_target(old(self).chars(), old(self).cursor(), span.start.row as int, span.start.col as int);
                let e = delete_end(old(self).chars(), span.end, include_end)->0;
                &&& final(self).cursor() == c1
                &&& deleted@ == old(self).chars().subrange(c1, e)
                &&& final(self).chars() == old(self).chars().take(c1) + old(self).chars().skip(e)
            }),
            final(self).capacity() == old(self).capacity(),
            final(self).target() == old(self).target(),
            final(self).history() == old(self).history(),
    {
        self.delete_span_checked(span, include_end).unwrap()
    }

    /// `delete_span`, but `None` where that one gives up: the end is not
    /// found, or it is not between the start and the end of the text.
    pub fn delete_span_checked(&mut self, span: Span, include_end: bool) -> (r: Option<String>)
        requires
            old(self).wf(),
        ensures
            final(self).wf(),
            (r is Some) == delete_span_ok(old(self).chars(), old(self).cursor(), span, include_end),
            r matches Some(deleted) ==> ({
                let c1 = position_target(old(self).chars(), old(self).cursor(), span.start.row as int, span.start.col as int);
                let e = delete_end(old(self).chars(), span.end, include_end)->0;
                &&& final(self).cursor() == c1
                &&& deleted@ == old(self).chars().subrange(c1, e)
                &&& final(self).chars() == old(self).chars().take(c1) + old(self).chars().skip(e)
            }),
            final(self).capacity() == old(self).capacity(),
            final(self).target() == old(self).target(),
            final(self).history() == old(self).history(),
    {
        let ghost t = self.chars();
        self.position(span.start.row, span.start.col);
        let c = self.cursor_index();
        let v = self.chars_vec();
        let n = v.len();
        proof {
            self.lemma_wf();
        }
        let mut row: usize = 0;
        let mut col: usize = 0;
        let mut j: usize = 0;
        let mut found = false;
        while j < n && !found
            invariant
                v@ == t,
                n == t.len(),
                n <= usize::MAX / 8,
                j <= n,
                row <= j,
                col <= j,
                found ==> find_end_from(t, span.end, 0, (0, 0)) == Some(j as int),
                !found ==> find_end_from(t, span.end, 0, (0, 0)) == find_end_from(
                    t,
                    span.end,
                    j as int,
                    (row as int, col as int),
                ),
            decreases n - j + if found { 0int } else { 1int },
        {
            if (row == span.end.row && col == span.end.col) || row > span.end.row {
                found = true;
            } else {
                if v[j] == '\n' {
                    row = row + 1;
                    col = 0;
                } else {
                    col = col + 1;
                }
                j = j + 1;
            }
        }
        if !found {
            assert(find_end_from(t, span.end, j as int, (row as int, col as int)) is None);
            return None;
        }
        let end_index = if include_end {
            j + 1
        } else {
            j
        };
        assert(delete_end(t, span.end, include_end) == Some(end_index as int));
        if end_index < c || end_index > n {
            return None;
        }
        let diff = end_index - c;
        let mut out: Vec<char> = Vec::new();
        let mut m: usize = 0;
        while m < diff
            invariant
                v@ == t,
                n == t.len(),
                c + diff <= n,
                m <= diff,
                out@ == t.subrange(c as int, c + m),
            decreases diff - m,
        {
            out.push(v[c + m]);
            m = m + 1;
            proof {
                assert(out@ =~= t.subrange(c as int, c + m));
            }
        }
        self.delete_forward_n(diff);
        Some(string_of(out.as_slice()))
    }

    /// Inserts `text` at `insert_at` and puts the cursor back on the
    /// character it stood on; see `insert_text_spec`.
    pub fn insert_text(&mut self, insert_at: Position, text: &str)
        requires
            old(self).wf(),
            old(self).chars().len() + text@.len() <= usize::MAX / 16,
            text@.len() > 0 ==> old(self).capacity() > 0,
        ensures
            final(self).wf(),
            insert_text_spec(
                old(self).chars(),
                old(self).cursor(),
                Position { row: old(self).cur_row(), col: old(self).cur_col() },
                insert_at,
                text@,
            ) == (final(self).chars(), final(self).cursor()),
            final(self).target() == old(self).target(),
            final(self).history() == old(self).history(),
    {
        let ghost t = self.chars();
        let ghost cap0 = self.capacity();
        proof {
            self.lemma_wf();
        }
        let pos = self.current_position();
        self.position(insert_at.row, insert_at.col);
        let ghost c1 = self.cursor();
        proof {
            self.lemma_wf();
        }
        let s = crate::text::chars_of(text);
        let mut i: usize = 0;
        proof {
            assert(t.take(c1) + s@.take(0) + t.skip(c1) =~= t);
        }
        while i < s.len()
            invariant
                self.wf(),
                i <= s.len(),
                s@ == text@,
                t.len() + s@.len() <= usize::MAX / 16,
                0 <= c1 <= t.len(),
                self.chars() == t.take(c1) + s@.take(i as int) + t.skip(c1),
                self.cursor() == c1 + i,
                self.capacity() >= cap0,
                s@.len() > 0 ==> self.capacity() > 0,
                s@.len() == 0 ==> self.capacity() == cap0,
                self.target() == old(self).target(),
                self.history() == old(self).history(),
            decreases s.len() - i,
        {
            proof {
                self.lemma_wf();
                assert(t.take(c1) + s@.take(i + 1) + t.skip(c1) =~= crate::gap::inserted(
                    self.chars(),
                    c1 + i,
                    s@[i as int],
                ));
            }
            self.insert(s[i]);
            i = i + 1;
        }
        proof {
            assert(s@.take(s@.len() as int) =~= s@);
            self.lemma_wf();
            crate::text::lemma_newlines_bound(s@);
        }
        let end_pos = if pos.lt(&insert_at) {
            pos
        } else {
            pos.add(Span::from_chars(s.as_slice()))
        };
        self.position(end_pos.row, end_pos.col);
    }

    /// Undoes the last change in effect by writing its old text back at its
    /// start; nothing when no change is in effect.
    pub fn undo(&mut self)
        requires
            old(self).wf(),
            old(self).history().position() > 0 ==> ({
                let ch = old(self).history()@[old(self).history().position() - 1];
                &&& old(self).chars().len() + ch.old@.len() <= usize::MAX / 16
                &&& ch.old@.len() > 0 ==> old(self).capacity() > 0
            }),
        ensures
            final(self).wf(),
            final(self).target() == old(self).target(),
            final(self).history()@ == old(self).history()@,
            old(self).history().position() == 0 ==> final(self).chars() == old(self).chars()
                && final(self).cursor() == old(self).cursor() && final(self).history().position()
                == 0,
            old(self).history().position() > 0 ==> ({
                let ch = old(self).history()@[old(self).history().position() - 1];
                &&& final(self).history().position() == old(self).history().position() - 1
                &&& insert_text_spec(
                    old(self).chars(),
                    old(self).cursor(),
                    Position { row: old(self).cur_row(), col: old(self).cur_col() },
                    ch.span.start,
                    ch.old@,
                ) == (final(self).chars(), final(self).cursor())
            }),
    {
        proof {
            self.lemma_wf();
        }
        if let Some(change) = self.changes.undo() {
            self.insert_text(change.span.start, change.old.as_str());
        }
    }

    /// Redo of a change is not supported: the buffer must have no undone
    /// change, and then nothing happens.
    pub fn redo(&mut self)
        requires
            old(self).wf(),
            old(self).history().position() >= old(self).history()@.len(),
        ensures
            final(self).wf(),
            final(self).chars() == old(self).chars(),
            final(self).cursor() == old(self).cursor(),
            final(self).target() == old(self).target(),
            final(self).history()@ == old(self).history()@,
            final(self).history().position() == old(self).history().position(),
            *final(self) == *old(self),
    {
        proof {
            self.lemma_wf();
        }
        let _ = self.changes.redo();
    }

    /// `d` with a word object: see `d_spec`.
    pub fn d(&mut self, count: usize, boundary: Boundary, obj: TextObject)
        requires
            old(self).wf(),
            d_spec(old(self).chars(), old(self).cursor(), count as nat, boundary, obj) is Some,
        ensures
            final(self).wf(),
            d_spec(old(self).chars(), old(self).cursor(), count as nat, boundary, obj) == Some(
                (final(self).chars(), final(self).cursor()),
            ),
            final(self).capacity() == old(self).capacity(),
            final(self).target() == old(self).target(),
            final(self).history() == old(self).history(),
    {
        proof {
            self.lemma_wf();
        }
        match (boundary, obj) {
            (Boundary::Current, TextObject::Word) => self.d_word(count),
            (Boundary::Inner, TextObject::Word) => self.d_inner_word(),
            _ => {},
        }
    }

    fn d_word(&mut self, count: usize)
        requires
            old(self).wf(),
            d_current(old(self).chars(), old(self).cursor(), count as nat) is Some,
        ensures
            final(self).wf(),
            d_current(old(self).chars(), old(self).cursor(), count as nat) == Some(
                (final(self).chars(), final(self).cursor()),
            ),
            final(self).capacity() == old(self).capacity(),
            final(self).target() == old(self).target(),
            final(self).history() == old(self).history(),
    {
        let mut k: usize = 0;
        while k < count
            invariant
                self.wf(),
                k <= count,
                d_current(old(self).chars(), old(self).cursor(), count as nat) == d_current(
                    self.chars(),
                    self.cursor(),
                    (count - k) as nat,
                ),
                d_current(self.chars(), self.cursor(), (count - k) as nat) is Some,
                self.capacity() == old(self).capacity(),
                self.target() == old(self).target(),
                self.history() == old(self).history(),
            decreases count - k,
        {
            let ghost t = self.chars();
            let ghost c = self.cursor();
            proof {
                self.lemma_wf();
            }
            if self.cursor_index() >= self.len() {
                if self.cursor_index() > 0 {
                    self.remove_before();
                }
                return;
            }
            let start = self.current_char();
            if is_whitespace(start) {
                proof {
                    lemma_fw_from(t, c, Scan::CurrWhitespace, 0);
                }
                let i = self.forward_while(self.cursor_index(), Scan::CurrWhitespace);
                self.delete_forward_n(i);
                return;
            }
            proof {
                lemma_fw_from(t, c, Scan::CurrWord, 0);
            }
            let i = self.forward_while(self.cursor_index(), Scan::CurrWord);
            self.delete_forward_n(i);
            let ghost t1 = self.chars();
            proof {
                lemma_fw_from(t1, c, Scan::CurrSpace, 0);
            }
            let j = self.forward_while(self.cursor_index(), Scan::CurrSpace);
            self.delete_forward_n(j);
            k = k + 1;
        }
    }

    fn d_inner_word(&mut self)
        requires
            old(self).wf(),
            old(self).cursor() < old(self).chars().len(),
            d_inner(old(self).chars(), old(self).cursor()) is Some,
        ensures
            final(self).wf(),
            d_inner(old(self).chars(), old(self).cursor()) == Some(
                (final(self).chars(), final(self).cursor()),
            ),
            final(self).capacity() == old(self).capacity(),
            final(self).target() == old(self).target(),
            final(self).history() == old(self).history(),
    {
        let ghost t = self.chars();
        let ghost c = self.cursor();
        proof {
            self.lemma_wf();
        }
        let want = is_whitespace(self.current_char());
        proof {
            lemma_bw_from(t, c, Scan::PrevBlankOrWord(want), 0);
        }
        let i = self.back_while(self.cursor_index(), Scan::PrevBlankOrWord(want));
        self.backspace(i);
        let ghost t1 = self.chars();
        let ghost c1 = self.cursor();
        proof {
            self.lemma_wf();
            assert(t1[c1] == t[c]);
            lemma_fw_next(t1, c1, Scan::NextBlankOrWord(want), 0);
            lemma_fw_from(t1, c1, Scan::NextBlankOrWord(want), 0);
        }
        let j = self.forward_while(self.cursor_index(), Scan::NextBlankOrWord(want));
        self.delete_forward_n(j + 1);
    }

    /// `d` when it does not give up: `true` and the buffer changed as
    /// `d_spec` says where that gives a result; `false` and the text and
    /// cursor unchanged where it gives up.
    pub fn d_checked(&mut self, count: usize, boundary: Boundary, obj: TextObject) -> (ok: bool)
        requires
            old(self).wf(),
        ensures
            final(self).wf(),
            ok == d_spec(old(self).chars(), old(self).cursor(), count as nat, boundary, obj) is Some,
            ok ==> d_spec(old(self).chars(), old(self).cursor(), count as nat, boundary, obj)
                == Some((final(self).chars(), final(self).cursor())),
            !ok ==> final(self).chars() == old(self).chars() && final(self).cursor() == old(
                self,
            ).cursor(),
            final(self).capacity() == old(self).capacity(),
            final(self).target() == old(self).target(),
            final(self).history()@ == old(self).history()@,
            final(self).history().position() == old(self).history().position(),
    {
        proof {
            self.lemma_wf();
        }
        match (boundary, obj) {
            (Boundary::Current, TextObject::Word) => {
                let mut copy = self.duplicate();
                if copy.d_word_try(count) {
                    *self = copy;
                    true
                } else {
                    false
                }
            },
            (Boundary::Inner, TextObject::Word) => {
                if self.cursor_index() >= self.len() {
                    return false;
                }
                let mut copy = self.duplicate();
                if copy.d_inner_try() {
                    *self = copy;
                    true
                } else {
                    false
                }
            },
            (Boundary::Around, TextObject::Word) => true,
            _ => false,
        }
    }

    /// `d_word`, but `false` where a scan gives up (the buffer is then left
    /// in some state that the caller drops).
    fn d_word_try(&mut self, count: usize) -> (ok: bool)
        requires
            old(self).wf(),
        ensures
            final(self).wf(),
            ok == d_current(old(self).chars(), old(self).cursor(), count as nat) is Some,
            ok ==> d_current(old(self).chars(), old(self).cursor(), count as nat) == Some(
                (final(self).chars(), final(self).cursor()),
            ),
            final(self).capacity() == old(self).capacity(),
            final(self).target() == old(self).target(),
            final(self).history() == old(self).history(),
    {
        let mut k: usize = 0;
        while k < count
            invariant
                self.wf(),
                k <= count,
                d_current(old(self).chars(), old(self).cursor(), count as nat) == d_current(
                    self.chars(),
                    self.cursor(),
                    (count - k) as nat,
                ),
                self.capacity() == old(self).capacity(),
                self.target() == old(self).target(),
                self.history() == old(self).history(),
            decreases count - k,
        {
            let ghost t = self.chars();
            let ghost c = self.cursor();
            proof {
                self.lemma_wf();
            }
            if self.cursor_index() >= self.len() {
                if self.cursor_index() > 0 {
                    self.remove_before();
                }
                return true;
            }
            let start = self.current_char();
            if is_whitespace(start) {
                proof {
                    lemma_fw_from(t, c, Scan::CurrWhitespace, 0);
                }
                match self.forward_checked(self.cursor_index(), Scan::CurrWhitespace) {
                    Some(i) => {
                        self.delete_forward_n(i);
                        return true;
                    },
                    None => {
                        return false;
                    },
                }
            }
            proof {
                lemma_fw_from(t, c, Scan::CurrWord, 0);
            }
            let i = match self.forward_checked(self.cursor_index(), Scan::CurrWord) {
                Some(i) => i,
                None => {
                    return false;
                },
            };
            self.delete_forward_n(i);
            let ghost t1 = self.chars();
            proof {
                lemma_fw_from(t1, c, Scan::CurrSpace, 0);
            }
            let j = match self.forward_checked(self.cursor_index(), Scan::CurrSpace) {
                Some(j) => j,
                None => {
                    return false;
                },
            };
            self.delete_forward_n(j);
            k = k + 1;
        }
        true
    }

    /// `d_inner_word`, but `false` where it gives up.
    fn d_inner_try(&mut self) -> (ok: bool)
        requires
            old(self).wf(),
            old(self).cursor() < old(self).chars().len(),
        ensures
            final(self).wf(),
            ok == d_inner(old(self).chars(), old(self).cursor()) is Some,
            ok ==> d_inner(old(self).chars(), old(self).cursor()) == Some(
                (final(self).chars(), final(self).cursor()),
            ),
            final(self).capacity() == old(self).capacity(),
            final(self).target() == old(self).target(),
            final(self).history() == old(self).history(),
    {
        let ghost t = self.chars();
        let ghost c = self.cursor();
        proof {
            self.lemma_wf();
        }
        let want = is_whitespace(self.current_char());
        proof {
            lemma_bw_from(t, c, Scan::PrevBlankOrWord(want), 0);
        }
        let i = match self.back_checked(self.cursor_index(), Scan::PrevBlankOrWord(want)) {
            Some(i) => i,
            None => {
                return false;
            },
        };
        if i > self.col_index() {
            return false;
        }
        self.backspace(i);
        let ghost t1 = self.chars();
        let ghost c1 = self.cursor();
        proof {
            self.lemma_wf();
            assert(t1[c1] == t[c]);
            lemma_fw_next(t1, c1, Scan::NextBlankOrWord(want), 0);
            lemma_fw_from(t1, c1, Scan::NextBlankOrWord(want), 0);
        }
        let j = match self.forward_checked(self.cursor_index(), Scan::NextBlankOrWord(want)) {
            Some(j) => j,
            None => {
                return false;
            },
        };
        self.delete_forward_n(j + 1);
        true
    }
}

/// Row and column depend only on the text before the index.
proof fn lemma_position_prefix(t: Seq<char>, u: Seq<char>, i: int)
    requires
        0 <= i <= t.len(),
        i <= u.len(),
        t.take(i) == u.take(i),
    ensures
        row_at(t, i) == row_at(u, i),
        col_at(t, i) == col_at(u, i),
{
}

/// The index `position` seeks lies between where the search starts and
/// the end of the text.
proof fn lemma_seek_bounds(t: Seq<char>, r: int, cl: int, i: int)
    requires
        0 <= i,
    ensures
        i <= seek_position(t, r, cl, i) <= t.len() || (i > t.len() && seek_position(t, r, cl, i)
            == t.len()),
    decreases t.len() - i,
{
    if 0 <= i < t.len() && !(row_at(t, i) >= r && (row_at(t, i) > r || col_at(t, i) >= cl || t[i]
        == '\n')) {
        lemma_seek_bounds(t, r, cl, i + 1);
    }
}

/// Two texts that agree before index `k`, where the search in the first
/// stops, give the same search result when it stops at `k` in the second
/// too (or the second ends there).
proof fn lemma_seek_prefix(t: Seq<char>, u: Seq<char>, r: int, cl: int, i: int, k: int)
    requires
        0 <= i <= k <= t.len(),
        k <= u.len(),
        t.take(k) == u.take(k),
        seek_position(t, r, cl, i) == k,
        k < u.len() ==> row_at(u, k) >= r && (row_at(u, k) > r || col_at(u, k) >= cl || u[k]
            == '\n'),
    ensures
        seek_position(u, r, cl, i) == k,
    decreases k - i,
{
    if i < k {
        assert(t[i] == t.take(k)[i]);
        assert(u[i] == u.take(k)[i]);
        assert(t.take(i) =~= t.take(k).take(i));
        assert(u.take(i) =~= u.take(k).take(i));
        lemma_position_prefix(t, u, i);
        if row_at(t, i) >= r && (row_at(t, i) > r || col_at(t, i) >= cl || t[i] == '\n') {
            assert(seek_position(t, r, cl, i) == i);
        } else {
            lemma_seek_prefix(t, u, r, cl, i + 1, k);
        }
    }
}

/// Deleting a span that starts at a position of the text, and then
/// writing the deleted text back at the span's start, as undo does with the
/// change recorded for the deletion, gives the text back.
pub proof fn law_undo_restores_deleted_text(t: Seq<char>, c: int, span: Span, include_end: bool)
    requires
        0 <= c <= t.len() <= usize::MAX,
        delete_span_ok(t, c, span, include_end),
        ({
            let c1 = position_target(t, c, span.start.row as int, span.start.col as int);
            row_at(t, c1) == span.start.row && col_at(t, c1) == span.start.col
        }),
    ensures
        ({
            let c1 = position_target(t, c, span.start.row as int, span.start.col as int);
            let e = delete_end(t, span.end, include_end)->0;
            let t2 = t.take(c1) + t.skip(e);
            let back = insert_text_spec(
                t2,
                c1,
                Position { row: row_at(t2, c1) as usize, col: col_at(t2, c1) as usize },
                span.start,
                t.subrange(c1, e),
            );
            back.0 == t
        }),
{
    let r = span.start.row as int;
    let cl = span.start.col as int;
    let c1 = position_target(t, c, r, cl);
    let e = delete_end(t, span.end, include_end)->0;
    let t2 = t.take(c1) + t.skip(e);
    assert(r <= line_count(t)) by {
        if r > line_count(t) {
            crate::text::lemma_newlines_append(t.take(c), t.skip(c));
            assert(t.take(c) + t.skip(c) =~= t);
        }
    }
    lemma_seek_bounds(t, r, cl, 0);
    assert(t2.take(c1) =~= t.take(c1));
    lemma_position_prefix(t, t2, c1);
    if r <= line_count(t2) {
        lemma_seek_prefix(t, t2, r, cl, 0, c1);
    }
    assert(t2.take(c1) + t.subrange(c1, e) + t2.skip(c1) =~= t);
}

/// A forward scan for the next character's class runs to the last
/// character of the run of that class.
proof fn lemma_fw_run(t: Seq<char>, c: int, e: int, wc: CharClass, i: int)
    requires
        0 <= c <= e < t.len(),
        0 <= i <= e - c,
        forall|j: int| c < j <= e ==> class_of(#[trigger] t[j]) == wc,
        e + 1 == t.len() || class_of(t[e + 1]) != wc,
    ensures
        fw_from(t, c, Scan::NextClass(wc), i) == e - c,
    decreases e - c - i,
{
    if i < e - c {
        assert(class_of(t[c + i + 1]) == wc);
        lemma_fw_run(t, c, e, wc, i + 1);
    }
}

/// A backward scan for the previous character's class runs to the first
/// character of the run of that class.
proof fn lemma_bw_run(t: Seq<char>, c: int, s: int, wc: CharClass, i: int)
    requires
        0 <= s <= c < t.len(),
        0 <= i <= c - s,
        forall|j: int| s <= j < c ==> class_of(#[trigger] t[j]) == wc,
        s == 0 || class_of(t[s - 1]) != wc,
    ensures
        bw_from(t, c, Scan::PrevClass(wc), i) == c - s,
    decreases c - s - i,
{
    if i < c - s {
        assert(class_of(t[c - i - 1]) == wc);
        lemma_bw_run(t, c, s, wc, i + 1);
    }
}

/// Without a newline on the way, the columns count the characters.
proof fn lemma_cols_along(t: Seq<char>, a: int, b: int)
    requires
        0 <= a <= b <= t.len(),
        forall|j: int| a <= j < b ==> t[j] != '\n',
    ensures
        row_at(t, b) == row_at(t, a),
        col_at(t, b) == col_at(t, a) + (b - a),
    decreases b - a,
{
    if a < b {
        lemma_cols_along(t, a, b - 1);
        crate::text::lemma_step_right(t, b - 1);
    }
}

/// Going back over characters that are no newline takes one column each.
proof fn lemma_start_back_flat(t: Seq<char>, c: int, back: int, k: int, p: Position)
    requires
        0 <= k <= back <= c < t.len(),
        forall|j: int| c - back < j <= c ==> t[j] != '\n',
        p.col >= back - k,
    ensures
        start_back(t, c, back, k, p) == Some(Position { row: p.row, col: (p.col - (back - k)) as usize }),
    decreases back - k,
{
    if k < back {
        assert(t[c - k] != '\n');
        lemma_start_back_flat(t, c, back, k + 1, Position { row: p.row, col: (p.col - 1) as usize });
    }
}

/// Going forward over characters that are no newline takes one column
/// each.
proof fn lemma_end_fwd_flat(t: Seq<char>, c: int, fwd: int, k: int, p: Position)
    requires
        0 <= c,
        0 <= k <= fwd,
        c + fwd <= t.len(),
        forall|j: int| c <= j < c + fwd ==> t[j] != '\n',
        p.col + (fwd - k) <= usize::MAX,
    ensures
        end_fwd(t, c, fwd, k, p) == Some(Position { row: p.row, col: (p.col + (fwd - k)) as usize }),
    decreases fwd - k,
{
    if k < fwd {
        assert(t[c + k] != '\n');
        lemma_end_fwd_flat(t, c, fwd, k + 1, Position { row: p.row, col: (p.col + 1) as usize });
    }
}

/// `iw` covers the run of the cursor's class around it: from the first
/// character of the run to just after its last, on the cursor's row (for a
/// run within one line and within ten thousand characters).
pub proof fn law_inner_word_covers_run(t: Seq<char>, c: int, s: int, e: int)
    requires
        0 <= s <= c <= e < t.len() <= usize::MAX,
        e - s < 10000,
        forall|j: int| s <= j <= e ==> class_of(#[trigger] t[j]) == class_of(t[c]) && t[j] != '\n',
        s == 0 || class_of(t[s - 1]) != class_of(t[c]),
        e + 1 == t.len() || class_of(t[e + 1]) != class_of(t[c]),
    ensures
        span_spec(
            t,
            c,
            row_at(t, c) as usize,
            col_at(t, c) as usize,
            Motion { count: None, boundary: Boundary::Inner, object: TextObject::Word },
        ) == Some(
            Span {
                start: Position { row: row_at(t, s) as usize, col: col_at(t, s) as usize },
                end: Position { row: row_at(t, e) as usize, col: (col_at(t, e) + 1) as usize },
            },
        ),
{
    let wc = class_of(t[c]);
    lemma_fw_run(t, c, e, wc, 0);
    lemma_bw_run(t, c, s, wc, 0);
    lemma_cols_along(t, s, c);
    lemma_cols_along(t, c, e);
    crate::text::lemma_row_col_bound(t, e);
    let row = row_at(t, c) as usize;
    let col = col_at(t, c) as usize;
    assert(iw_walk(t, c, 1, 0, 0, wc) == Some(e - c));
    lemma_start_back_flat(t, c, c - s, 0, Position { row, col });
    lemma_end_fwd_flat(t, c, e - c, 0, Position { row, col: (col + 1) as usize });
}

/// `iw` with a count of two covers the run of the cursor's class and the
/// run right after it (of another class): from the first character of the
/// one to just after the last of the other (for runs within one line and
/// within ten thousand characters).
pub proof fn law_inner_word_two_runs(t: Seq<char>, c: int, s: int, e: int, e2: int)
    requires
        0 <= s <= c <= e < e2 < t.len() <= usize::MAX,
        e2 - s < 10000,
        forall|j: int| s <= j <= e ==> class_of(#[trigger] t[j]) == class_of(t[c]),
        s == 0 || class_of(t[s - 1]) != class_of(t[c]),
        class_of(t[e + 1]) != class_of(t[c]),
        forall|j: int| e < j <= e2 ==> class_of(#[trigger] t[j]) == class_of(t[e + 1]),
        e2 + 1 == t.len() || class_of(t[e2 + 1]) != class_of(t[e + 1]),
        forall|j: int| s <= j <= e2 ==> t[j] != '\n',
    ensures
        span_spec(
            t,
            c,
            row_at(t, c) as usize,
            col_at(t, c) as usize,
            Motion { count: Some(2), boundary: Boundary::Inner, object: TextObject::Word },
        ) == Some(
            Span {
                start: Position { row: row_at(t, s) as usize, col: col_at(t, s) as usize },
                end: Position { row: row_at(t, e2) as usize, col: (col_at(t, e2) + 1) as usize },
            },
        ),
{
    let wc = class_of(t[c]);
    let wc2 = class_of(t[e + 1]);
    lemma_fw_run(t, c, e, wc, 0);
    lemma_fw_run(t, e + 1, e2, wc2, 0);
    lemma_bw_run(t, c, s, wc, 0);
    lemma_cols_along(t, s, c);
    lemma_cols_along(t, c, e2);
    crate::text::lemma_row_col_bound(t, e2);
    let row = row_at(t, c) as usize;
    let col = col_at(t, c) as usize;
    assert(iw_walk(t, c, 2, 1, e + 1 - c, wc2) == Some(e2 - c));
    assert(iw_walk(t, c, 2, 0, 0, wc) == Some(e2 - c));
    lemma_start_back_flat(t, c, c - s, 0, Position { row, col });
    lemma_end_fwd_flat(t, c, e2 - c, 0, Position { row, col: (col + 1) as usize });
}

/// A forward scan over spaces and tabs runs to the first other character.
proof fn lemma_fw_blanks(t: Seq<char>, s0: int, w: int, i: int)
    requires
        0 <= s0 <= w <= t.len(),
        0 <= i <= w - s0,
        forall|j: int| s0 <= j < w ==> class_of(#[trigger] t[j]) == CharClass::Whitespace,
        w == t.len() || class_of(t[w]) != CharClass::Whitespace,
    ensures
        fw_from(t, s0, Scan::CurrWhitespace, i) == w - s0,
    decreases w - s0 - i,
{
    if i < w - s0 {
        assert(class_of(t[s0 + i]) == CharClass::Whitespace);
        lemma_fw_blanks(t, s0, w, i + 1);
    }
}

/// The span of `w` (as `dw` deletes it) runs from the cursor over the rest
/// of the run of its class and the spaces after it, to one column past the
/// first character after them, or to the end of the text (for a stretch
/// within one line and within ten thousand characters).
pub proof fn law_word_span_covers_run_and_blanks(t: Seq<char>, c: int, e: int, w: int)
    requires
        0 <= c <= e < w <= t.len() <= usize::MAX,
        w - c < 10000,
        forall|j: int| c <= j <= e ==> class_of(#[trigger] t[j]) == class_of(t[c]),
        e + 1 == t.len() || class_of(t[e + 1]) != class_of(t[c]),
        forall|j: int| e < j < w ==> class_of(#[trigger] t[j]) == CharClass::Whitespace,
        w == t.len() || class_of(t[w]) != CharClass::Whitespace,
        forall|j: int| c <= j < w ==> t[j] != '\n',
    ensures
        span_spec(
            t,
            c,
            row_at(t, c) as usize,
            col_at(t, c) as usize,
            Motion { count: None, boundary: Boundary::Current, object: TextObject::Word },
        ) == Some(
            Span {
                start: Position { row: row_at(t, c) as usize, col: col_at(t, c) as usize },
                end: if w < t.len() {
                    Position { row: row_at(t, w) as usize, col: (col_at(t, w) + 1) as usize }
                } else {
                    Position { row: row_at(t, w - 1) as usize, col: (col_at(t, w - 1) + 1) as usize }
                },
            },
        ),
{
    let wc = class_of(t[c]);
    lemma_fw_run(t, c, e, wc, 0);
    lemma_fw_blanks(t, e + 1, w, 0);
    lemma_cols_along(t, c, w);
    lemma_cols_along(t, c, w - 1);
    crate::text::lemma_row_col_bound(t, w - 1);
    if w < t.len() {
        crate::text::lemma_row_col_bound(t, w);
    }
    let row = row_at(t, c) as usize;
    let col = col_at(t, c) as usize;
    let f3 = if w < t.len() {
        w - c
    } else {
        w - c - 1
    };
    assert(cw_walk(t, c, wc, 1, 1, f3) == Some(f3));
    assert(cw_walk(t, c, wc, 1, 0, 0) == Some(f3));
    assert(start_back(t, c, 0, 0, Position { row, col }) == Some(Position { row, col }));
    lemma_end_fwd_flat(t, c, f3, 0, Position { row, col: (col + 1) as usize });
}

/// A backward scan until the character `x` stops on its nearest
/// occurrence at or before `c`.
proof fn lemma_bw_until(t: Seq<char>, c: int, o: int, x: char, i: int)
    requires
        0 <= o <= c < t.len(),
        0 <= i <= c - o,
        t[o] == x,
        forall|j: int| o < j <= c ==> t[j] != x,
    ensures
        bw_from(t, c, Scan::CurrNot(x), i) == c - o,
    decreases c - o - i,
{
    if i < c - o {
        assert(t[c - i] != x);
        lemma_bw_until(t, c, o, x, i + 1);
    }
}

/// A forward scan until the character `x` stops on its nearest
/// occurrence at or after `c`.
proof fn lemma_fw_until(t: Seq<char>, c: int, q: int, x: char, i: int)
    requires
        0 <= c <= q < t.len(),
        0 <= i <= q - c,
        t[q] == x,
        forall|j: int| c <= j < q ==> t[j] != x,
    ensures
        fw_from(t, c, Scan::CurrNot(x), i) == q - c,
    decreases q - c - i,
{
    if i < q - c {
        assert(t[c + i] != x);
        lemma_fw_until(t, c, q, x, i + 1);
    }
}

/// `a(` (and `a{`) spans from the nearest opening symbol at or before the
/// cursor to just after the nearest closing one at or after it (for a
/// stretch within one line and within ten thousand characters).
pub proof fn law_around_covers_symbols(t: Seq<char>, c: int, o: int, q: int, object: TextObject)
    requires
        object == TextObject::Paren || object == TextObject::CurlyBracket,
        0 <= o <= c <= q < t.len() <= usize::MAX,
        q - o < 10000,
        t[o] == (if object == TextObject::Paren { '(' } else { '{' }),
        t[q] == (if object == TextObject::Paren { ')' } else { '}' }),
        forall|j: int| o < j <= c ==> t[j] != (if object == TextObject::Paren { '(' } else { '{' }),
        forall|j: int| c <= j < q ==> t[j] != (if object == TextObject::Paren { ')' } else { '}' }),
        forall|j: int| o <= j <= q ==> t[j] != '\n',
    ensures
        span_spec(
            t,
            c,
            row_at(t, c) as usize,
            col_at(t, c) as usize,
            Motion { count: None, boundary: Boundary::Around, object },
        ) == Some(
            Span {
                start: Position { row: row_at(t, o) as usize, col: col_at(t, o) as usize },
                end: Position { row: row_at(t, q) as usize, col: (col_at(t, q) + 1) as usize },
            },
        ),
{
    let open = if object == TextObject::Paren { '(' } else { '{' };
    let close = if object == TextObject::Paren { ')' } else { '}' };
    lemma_bw_until(t, c, o, open, 0);
    lemma_fw_until(t, c, q, close, 0);
    lemma_cols_along(t, o, c);
    lemma_cols_along(t, c, q);
    crate::text::lemma_row_col_bound(t, q);
    let row = row_at(t, c) as usize;
    let col = col_at(t, c) as usize;
    assert(around_walk(t, c, open, close, 1, 1, c - o, q - c) == Some((c - o, q - c)));
    assert(around_walk(t, c, open, close, 1, 0, 0, 0) == Some((c - o, q - c)));
    lemma_start_back_flat(t, c, c - o, 0, Position { row, col });
    lemma_end_fwd_flat(t, c, q - c, 0, Position { row, col: (col + 1) as usize });
    assert(around_span(t, c, row, col, open, close, 1) == build_span(t, c, row, col, c - o, q - c));
}

/// A forward scan on the current character alone runs over the `n`
/// characters for which the condition holds, up to the first for which it
/// fails or the end of the text.
proof fn lemma_fw_curr(t: Seq<char>, s: int, n: int, k: Scan, i: int)
    requires
        k is CurrWord || k is CurrSpace || k is CurrWhitespace || k is CurrNot,
        0 <= s,
        0 <= i <= n,
        s + n <= t.len(),
        forall|m: int| 0 <= m < n ==> holds(k, #[trigger] t[s + m], None),
        s + n == t.len() || !holds(k, t[s + n], None),
    ensures
        fw_from(t, s, k, i) == n,
    decreases n - i,
{
    if i < n {
        assert(holds(k, t[s + i], None));
        lemma_fw_curr(t, s, n, k, i + 1);
    }
}

/// `d` once on a word (as `dw`) takes out the word characters from the
/// cursor and the spaces after them, and nothing else; the cursor stays.
pub proof fn law_d_word_deletes_word_and_spaces(t: Seq<char>, c: int, e: int, w: int)
    requires
        0 <= c <= e < w <= t.len(),
        w - c < 10000,
        !whitespace(t[c]),
        forall|j: int| c <= j <= e ==> word_char(#[trigger] t[j]),
        e + 1 == t.len() || !word_char(t[e + 1]),
        forall|j: int| e < j < w ==> #[trigger] t[j] == ' ',
        w == t.len() || t[w] != ' ',
    ensures
        d_spec(t, c, 1, Boundary::Current, TextObject::Word) == Some((t.take(c) + t.skip(w), c)),
{
    assert forall|m: int| 0 <= m < e + 1 - c implies holds(Scan::CurrWord, #[trigger] t[c + m], None) by {
        assert(word_char(t[c + m]));
    }
    lemma_fw_curr(t, c, e + 1 - c, Scan::CurrWord, 0);
    let t1 = t.take(c) + t.skip(e + 1);
    assert forall|m: int| 0 <= m < w - e - 1 implies holds(Scan::CurrSpace, #[trigger] t1[c + m], None) by {
        assert(t1[c + m] == t[e + 1 + m]);
    }
    if w < t.len() {
        assert(t1[c + (w - e - 1)] == t[w]);
    }
    lemma_fw_curr(t1, c, w - e - 1, Scan::CurrSpace, 0);
    let t2 = t1.take(c) + t1.skip(c + (w - e - 1));
    assert(t2 =~= t.take(c) + t.skip(w));
    assert(d_current(t2, c, 0) == Some((t2, c)));
}

/// `d` on a blank (as `dw` there) takes out the run of spaces and tabs from
/// the cursor, and nothing else; the cursor stays.
pub proof fn law_d_word_on_blank_deletes_blanks(t: Seq<char>, c: int, w: int, count: nat)
    requires
        0 <= c < w <= t.len(),
        w - c < 10000,
        whitespace(t[c]),
        count > 0,
        forall|j: int| c <= j < w ==> class_of(#[trigger] t[j]) == CharClass::Whitespace,
        w == t.len() || class_of(t[w]) != CharClass::Whitespace,
    ensures
        d_spec(t, c, count, Boundary::Current, TextObject::Word) == Some((t.take(c) + t.skip(w), c)),
{
    assert forall|m: int| 0 <= m < w - c implies holds(Scan::CurrWhitespace, #[trigger] t[c + m], None) by {
        assert(class_of(t[c + m]) == CharClass::Whitespace);
    }
    lemma_fw_curr(t, c, w - c, Scan::CurrWhitespace, 0);
}

/// On a character that is not blank, `d` on words `n + 1` times is `d`
/// once and then `n` times from where it leaves the cursor.
pub proof fn law_d_word_count(t: Seq<char>, c: int, n: nat)
    requires
        0 <= c < t.len(),
        !whitespace(t[c]),
    ensures
        d_spec(t, c, n + 1, Boundary::Current, TextObject::Word) == match d_spec(
            t,
            c,
            1,
            Boundary::Current,
            TextObject::Word,
        ) {
            Some((t1, c1)) => d_spec(t1, c1, n, Boundary::Current, TextObject::Word),
            None => None,
        },
{
    let i = fw(t, c, Scan::CurrWord);
    let t1 = t.take(c) + t.skip(c + i);
    let j = fw(t1, c, Scan::CurrSpace);
    let t2 = t1.take(c) + t1.skip(c + j);
    if !(i >= 10000 || j >= 10000) {
        assert(d_current(t, c, 1) == d_current(t2, c, 0));
        assert(d_current(t, c, n + 1) == d_current(t2, c, n));
    }
}

/// The inner span of a bracket object is its around span without the two
/// brackets: the same span when it is empty, and otherwise one column in
/// at each end, whenever its end is not at column 0 (where taking a column
/// off the end gives up).
pub proof fn law_inner_is_around_shrunk(
    t: Seq<char>,
    c: int,
    row: usize,
    col: usize,
    count: Option<usize>,
    object: TextObject,
)
    requires
        object == TextObject::Paren || object == TextObject::CurlyBracket,
    ensures
        ({
            let a = span_spec(t, c, row, col, Motion { count, boundary: Boundary::Around, object });
            let i = span_spec(t, c, row, col, Motion { count, boundary: Boundary::Inner, object });
            match a {
                None => i is None,
                Some(s) => if s.start == s.end {
                    i == Some(s)
                } else if s.end.col >= 1 {
                    i == Some(
                        Span {
                            start: Position { row: s.start.row, col: (s.start.col + 1) as usize },
                            end: Position { row: s.end.row, col: (s.end.col - 1) as usize },
                        },
                    )
                } else {
                    i is None
                },
            }
        }),
{
}

/// The search of `position` stops at index `i`: on row `r` at column `cl`
/// or further, or on the newline ending row `r`, or on a later row.
spec fn seek_stops(t: Seq<char>, r: int, cl: int, i: int) -> bool {
    row_at(t, i) >= r && (row_at(t, i) > r || col_at(t, i) >= cl || t[i] == '\n')
}

/// The search from `j` ends at the first index where it stops, or at the
/// end of the text.
proof fn lemma_seek_first(t: Seq<char>, r: int, cl: int, j: int)
    requires
        0 <= j <= t.len(),
    ensures
        j <= seek_position(t, r, cl, j) <= t.len(),
        forall|k: int| j <= k < seek_position(t, r, cl, j) ==> !seek_stops(t, r, cl, k),
        seek_position(t, r, cl, j) < t.len() ==> seek_stops(t, r, cl, seek_position(t, r, cl, j)),
    decreases t.len() - j,
{
    if j < t.len() && !seek_stops(t, r, cl, j) {
        lemma_seek_first(t, r, cl, j + 1);
    }
}

/// `position(r, cl)` for a row of the text puts the cursor on row `r`, at
/// column `cl` or, when the row is shorter, at its end (its newline, or the
/// end of the text); never past column `cl`.
pub proof fn law_position_reaches_row(t: Seq<char>, c: int, r: int, cl: int)
    requires
        0 <= r <= row_at(t, t.len() as int),
        0 <= cl,
    ensures
        ({
            let p = position_target(t, c, r, cl);
            &&& 0 <= p <= t.len()
            &&& row_at(t, p) == r
            &&& col_at(t, p) <= cl
            &&& col_at(t, p) == cl || p == t.len() || t[p] == '\n'
        }),
{
    assert(t.take(t.len() as int) =~= t);
    lemma_seek_first(t, r, cl, 0);
    let p = seek_position(t, r, cl, 0);
    if p > 0 {
        crate::text::lemma_step_right(t, p - 1);
        assert(!seek_stops(t, r, cl, p - 1));
        crate::text::lemma_position_monotonic(t, p - 1, t.len() as int);
    } else {
        assert(t.take(0) =~= Seq::<char>::empty());
    }
}

/// When some index of the text stands at row `r`, column `cl`, the search
/// of `position` lands on such an index.
pub proof fn lemma_seek_exact(t: Seq<char>, r: int, cl: int, j: int, i: int)
    requires
        0 <= j <= i <= t.len(),
        row_at(t, i) == r,
        col_at(t, i) == cl,
    ensures
        row_at(t, seek_position(t, r, cl, j)) == r,
        col_at(t, seek_position(t, r, cl, j)) == cl,
        0 <= seek_position(t, r, cl, j) <= t.len(),
    decreases i - j,
{
    if j == t.len() {
    } else if row_at(t, j) >= r && (row_at(t, j) > r || col_at(t, j) >= cl || t[j] == '\n') {
        crate::text::lemma_position_monotonic(t, j, i);
        if t[j] == '\n' && col_at(t, j) < cl {
            crate::text::lemma_step_right(t, j);
            crate::text::lemma_position_monotonic(t, j + 1, i);
        }
    } else {
        lemma_seek_exact(t, r, cl, j + 1, i);
    }
}

} // verus!
