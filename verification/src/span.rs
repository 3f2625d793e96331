//! Positions (row, column) in a text and spans between two positions.
use vstd::prelude::*;
use vstd::std_specs::convert::FromSpecImpl;
use crate::digits::{decimal, decimal_chars};
use crate::text::{newlines, trailing_col, lemma_newlines_push, string_of, chars_of};

verus! {

/// A place in a text: the row (counted from 0) and the column in that row.
#[derive(Debug, Copy, Clone, PartialEq, Eq, Structural, PartialOrd, Ord, Hash)]
pub struct Position {
    pub row: usize,
    pub col: usize,
}

/// The text between two positions; the end column is not included.
#[derive(Debug, Copy, Clone, PartialEq, Eq, Structural, Hash)]
pub struct Span {
    pub start: Position,
    pub end: Position,
}

/// `a` comes before `b` in reading order (rows first, then columns).
pub open spec fn position_lt(a: Position, b: Position) -> bool {
    a.row < b.row || (a.row == b.row && a.col < b.col)
}

/// The position that follows `p` when the text spanned by `s` is written at
/// `p`: the span's rows are added, and the column is the span's end column,
/// offset by `p.col` when the span stays on one row.
pub open spec fn position_plus(p: Position, s: Span) -> Position {
    let delta = s.end.row - s.start.row;
    Position {
        row: (p.row + delta) as usize,
        col: if delta > 0 {
            s.end.col
        } else {
            (p.col + s.end.col) as usize
        },
    }
}

/// The span of a text written from (0,0): it ends after the text's last
/// newline count of rows, at the column after its last character.
pub open spec fn span_of_text(t: Seq<char>) -> Span {
    Span {
        start: Position { row: 0, col: 0 },
        end: Position { row: newlines(t) as usize, col: trailing_col(t) as usize },
    }
}

/// `(row,col)`, the way a position is shown.
pub open spec fn position_text(p: Position) -> Seq<char> {
    seq!['('] + decimal_chars(p.row as nat) + seq![','] + decimal_chars(p.col as nat) + seq![')']
}

impl Position {
    /// Reading-order comparison.
    pub fn lt(&self, other: &Position) -> (r: bool)
        ensures
            r == position_lt(*self, *other),
    {
        self.row < other.row || (self.row == other.row && self.col < other.col)
    }

    /// Where the text of `rhs` ends when it is written at `self`.
    pub fn add(self, rhs: Span) -> (r: Position)
        requires
            rhs.start.row <= rhs.end.row,
            self.row + (rhs.end.row - rhs.start.row) <= usize::MAX,
            rhs.end.row == rhs.start.row ==> self.col + rhs.end.col <= usize::MAX,
        ensures
            r == position_plus(self, rhs),
    {
        let delta = rhs.delta_rows();
        Position {
            row: self.row + delta,
            col: if delta > 0 {
                rhs.end.col
            } else {
                self.col + rhs.end.col
            },
        }
    }

    /// The position shown as `(row,col)`.
    pub fn to_string(&self) -> (s: String)
        ensures
            s@ == position_text(*self),
    {
        let mut v: Vec<char> = vec!['('];
        let mut r = decimal(self.row);
        v.append(&mut r);
        v.push(',');
        let mut c = decimal(self.col);
        v.append(&mut c);
        v.push(')');
        proof {
            assert(v@ =~= position_text(*self));
        }
        string_of(v.as_slice())
    }
}

impl From<(usize, usize)> for Position {
    fn from(value: (usize, usize)) -> (r: Self) {
        Position { row: value.0, col: value.1 }
    }
}

impl FromSpecImpl<(usize, usize)> for Position {
    open spec fn obeys_from_spec() -> bool {
        true
    }

    open spec fn from_spec(v: (usize, usize)) -> Position {
        Position { row: v.0, col: v.1 }
    }
}

impl Span {
    /// The empty span at `(row, col)`.
    pub fn empty_at(row: usize, col: usize) -> (s: Self)
        ensures
            s.start == (Position { row, col }),
            s.end == (Position { row, col }),
    {
        Span { start: Position { row, col }, end: Position { row, col } }
    }

    /// Rows that the span crosses.
    pub fn delta_rows(&self) -> (d: usize)
        requires
            self.start.row <= self.end.row,
        ensures
            d == self.end.row - self.start.row,
    {
        self.end.row - self.start.row
    }

    /// The span starts where it ends.
    pub fn is_empty(&self) -> (b: bool)
        ensures
            b == (self.start == self.end),
    {
        self.start.row == self.end.row && self.start.col == self.end.col
    }

    /// The span with `n` columns taken off at both ends.
    pub fn shrink(&self, n: usize) -> (s: Self)
        requires
            self.end.col >= n,
            self.start.col + n <= usize::MAX,
        ensures
            s.start == (Position { row: self.start.row, col: (self.start.col + n) as usize }),
            s.end == (Position { row: self.end.row, col: (self.end.col - n) as usize }),
    {
        Span {
            start: Position { row: self.start.row, col: self.start.col + n },
            end: Position { row: self.end.row, col: self.end.col - n },
        }
    }

    /// The span shown as `(a,b), (c,d)`.
    pub fn to_string(&self) -> (s: String)
        ensures
            s@ == position_text(self.start) + seq![',', ' '] + position_text(self.end),
    {
        let mut v: Vec<char> = vec!['('];
        let mut a = decimal(self.start.row);
        v.append(&mut a);
        v.push(',');
        let mut b = decimal(self.start.col);
        v.append(&mut b);
        v.push(')');
        v.push(',');
        v.push(' ');
        v.push('(');
        let mut c = decimal(self.end.row);
        v.append(&mut c);
        v.push(',');
        let mut d = decimal(self.end.col);
        v.append(&mut d);
        v.push(')');
        proof {
            assert(v@ =~= position_text(self.start) + seq![',', ' '] + position_text(self.end));
        }
        string_of(v.as_slice())
    }

    /// The span that the characters `t` cover when written from (0,0).
    pub fn from_chars(t: &[char]) -> (s: Span)
        ensures
            s == span_of_text(t@),
    {
        let mut row: usize = 0;
        let mut col: usize = 0;
        let mut i: usize = 0;
        while i < t.len()
            invariant
                i <= t.len(),
                row == newlines(t@.take(i as int)),
                col == trailing_col(t@.take(i as int)),
            decreases t.len() - i,
        {
            proof {
                assert(t@.take(i + 1) =~= t@.take(i as int).push(t@[i as int]));
                lemma_newlines_push(t@.take(i as int), t@[i as int]);
                crate::text::lemma_newlines_bound(t@.take(i as int));
            }
            if t[i] == '\n' {
                row = row + 1;
                col = 0;
            } else {
                col = col + 1;
            }
            i = i + 1;
        }
        proof {
            assert(t@.take(t.len() as int) =~= t@);
        }
        Span { start: Position { row: 0, col: 0 }, end: Position { row, col } }
    }
}

impl From<(usize, usize, usize, usize)> for Span {
    fn from(value: (usize, usize, usize, usize)) -> (r: Self) {
        Span {
            start: Position { row: value.0, col: value.1 },
            end: Position { row: value.2, col: value.3 },
        }
    }
}

impl FromSpecImpl<(usize, usize, usize, usize)> for Span {
    open spec fn obeys_from_spec() -> bool {
        true
    }

    open spec fn from_spec(v: (usize, usize, usize, usize)) -> Span {
        Span { start: Position { row: v.0, col: v.1 }, end: Position { row: v.2, col: v.3 } }
    }
}

impl<'a> From<&'a str> for Span {
    fn from(value: &'a str) -> (r: Self) {
        let v = chars_of(value);
        Span::from_chars(v.as_slice())
    }
}

impl<'a> FromSpecImpl<&'a str> for Span {
    open spec fn obeys_from_spec() -> bool {
        true
    }

    open spec fn from_spec(v: &'a str) -> Span {
        span_of_text(v@)
    }
}

} // verus!
