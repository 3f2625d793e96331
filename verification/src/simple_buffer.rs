//! A first gap buffer for a file being edited, with the row and column it
//! keeps by hand as the cursor moves: word motions over blanks and moving
//! to a row and column.
use vstd::prelude::*;
use crate::text::{
    chars_of, string_of, trailing_col, newlines, whitespace, is_whitespace, line_text, row_at,
    row_start, line_end_from, first_index_of_row, lemma_step_right, lemma_newlines_push,
};

verus! {

/// A file being edited, kept as a gap buffer: the text is the storage
/// before the cursor `c` and from the gap end `d` on.
pub struct Buffer {
    buf: Vec<char>,
    c: usize,
    d: usize,
    pub row: usize,
    pub col: usize,
}

/// The whole state as values: storage, cursor, gap end, row, column.
pub type Shape = (Seq<char>, int, int, int, int);

/// The text a shape holds.
pub open spec fn text_of(s: Shape) -> Seq<char> {
    s.0.take(s.1) + s.0.skip(s.2)
}

/// One step left: the character before the cursor is copied to the cell
/// before the gap end; a newline takes the row up one (not below 0) and
/// sets the column to that of the end of the whole text, any other
/// character takes the column left one (not below 0).
pub open spec fn left_once(s: Shape) -> Shape {
    if s.1 <= 0 {
        s
    } else {
        let recv = s.0[s.1 - 1];
        let cells = s.0.update(s.2 - 1, recv);
        if recv == '\n' {
            (
                cells,
                s.1 - 1,
                s.2 - 1,
                if s.3 > 0 {
                    s.3 - 1
                } else {
                    0
                },
                trailing_col(text_of(s)) as int,
            )
        } else {
            (
                cells,
                s.1 - 1,
                s.2 - 1,
                s.3,
                if s.4 > 0 {
                    s.4 - 1
                } else {
                    0
                },
            )
        }
    }
}

/// `k` steps left, stopping at the start.
pub open spec fn left_n(s: Shape, k: nat) -> Shape
    decreases k,
{
    if k == 0 || s.1 <= 0 {
        s
    } else {
        left_n(left_once(s), (k - 1) as nat)
    }
}

/// One step right: the character at the gap end is copied to the cursor's
/// cell; a newline takes the row down one and the column to 0, any other
/// character the column right one.
pub open spec fn right_once(s: Shape) -> Shape {
    if s.2 >= s.0.len() {
        s
    } else {
        let recv = s.0[s.2];
        let cells = s.0.update(s.1, recv);
        if recv == '\n' {
            (cells, s.1 + 1, s.2 + 1, s.3 + 1, 0)
        } else {
            (cells, s.1 + 1, s.2 + 1, s.3, s.4 + 1)
        }
    }
}

/// `k` steps right, stopping at the end.
pub open spec fn right_n(s: Shape, k: nat) -> Shape
    decreases k,
{
    if k == 0 || s.2 >= s.0.len() {
        s
    } else {
        right_n(right_once(s), (k - 1) as nat)
    }
}

/// The storage after it doubles: the cells before the cursor stay, those
/// from the cursor on move to the end, `'x'` between.
pub open spec fn grown(cells: Seq<char>, c: int) -> Seq<char> {
    let m = cells.len() as int;
    Seq::new(
        (2 * m) as nat,
        |k: int|
            if k < c {
                cells[k]
            } else if k >= m + c {
                cells[k - m]
            } else {
                'x'
            },
    )
}

/// Inserting `v`: the storage doubles when the gap is empty, `v` goes into
/// the cursor's cell, the cursor moves past it, and row and column follow.
pub open spec fn insert_shape(s: Shape, v: char) -> Shape {
    let (cells, d) = if s.1 == s.2 {
        (grown(s.0, s.1), s.2 + s.0.len())
    } else {
        (s.0, s.2)
    };
    let (row, col) = if v == '\n' {
        (s.3 + 1, 0int)
    } else {
        (s.3, s.4 + 1)
    };
    (cells.update(s.1, v), s.1 + 1, d, row, col)
}

pub open spec fn min(a: int, b: int) -> int {
    if a <= b {
        a
    } else {
        b
    }
}

/// The first index from `i` on that stands on row `r` at column `cl` or
/// more, or on the last character of row `r` (its newline when the row is
/// empty) when the row is shorter; the end of the text when none does.
pub open spec fn seek_char(t: Seq<char>, r: int, cl: int, i: int) -> int
    decreases t.len() - i,
{
    if i < 0 || i >= t.len() {
        t.len() as int
    } else if row_at(t, i) >= r && (row_at(t, i) > r || crate::text::col_at(t, i) >= cl || t[i]
        == '\n' || i + 1 == t.len() || t[i + 1] == '\n') {
        i
    } else {
        seek_char(t, r, cl, i + 1)
    }
}

/// Where moving to (`row`, `col`) lands in text `t`: row `row`, column
/// `col`, or the last character of the row when it is shorter; past the
/// last row, the last character of the last row.
pub open spec fn position_index(t: Seq<char>, row: int, col: int) -> int {
    if row > newlines(t) {
        seek_char(t, newlines(t) as int, usize::MAX as int, 0)
    } else {
        seek_char(t, row, col, 0)
    }
}

/// What moving to (`row`, `col`) does to a shape: the cursor moves to
/// `position_index`, and row and column are those of that index.
pub open spec fn position_shape(s: Shape, row: int, col: int) -> Shape {
    let t = text_of(s);
    let dst = position_index(t, row, col);
    let moved = if dst > s.1 {
        right_n(s, (dst - s.1) as nat)
    } else {
        left_n(s, (s.1 - dst) as nat)
    };
    (moved.0, moved.1, moved.2, row_at(t, dst) as int, crate::text::col_at(t, dst) as int)
}

/// The storage as the debug view shows it: newlines as `'N'`.
pub open spec fn shown_cells(s: Seq<char>) -> Seq<char> {
    Seq::new(s.len(), |i: int| if s[i] == '\n' { 'N' } else { s[i] })
}

/// The character under the cursor: the cell at the gap end.
pub open spec fn cell_at_cursor(s: Shape) -> char {
    s.0[s.2]
}

/// The character before the cursor, if any.
pub open spec fn prev_cell(s: Shape) -> Option<char> {
    if s.1 <= 0 {
        None
    } else {
        Some(s.0[s.1 - 1])
    }
}

/// The cursor is on a word just after a blank.
pub open spec fn at_word_start(s: Shape) -> bool {
    !whitespace(cell_at_cursor(s)) && match prev_cell(s) {
        Some(p) => whitespace(p),
        None => false,
    }
}

/// `advance_word(count)` for `count >= 0`: step right and count word
/// starts, stopping once `count` were seen, at most `fuel` steps. `None`
/// where no character is under the cursor.
pub open spec fn advance_walk(s: Shape, count: int, words: int, fuel: nat) -> Option<Shape>
    decreases fuel,
{
    if fuel == 0 {
        Some(s)
    } else {
        let s1 = right_once(s);
        if s1.2 >= s1.0.len() {
            None
        } else {
            let w1 = if at_word_start(s1) {
                words + 1
            } else {
                words
            };
            if w1 == count {
                Some(s1)
            } else {
                advance_walk(s1, count, w1, (fuel - 1) as nat)
            }
        }
    }
}

/// One search of `prev_word`: look at the cursor, at most `fuel` times
/// stepping left, for a word start. `(found, shape)`; `None` where no
/// character is under the cursor.
pub open spec fn prev_search(s: Shape, fuel: nat) -> Option<(bool, Shape)>
    decreases fuel,
{
    if fuel == 0 {
        Some((false, s))
    } else if s.2 >= s.0.len() {
        None
    } else if at_word_start(s) {
        Some((true, s))
    } else {
        prev_search(left_once(s), (fuel - 1) as nat)
    }
}

/// `prev_word(count)`: one step left, then a search of at most fifty steps
/// for a word start; when found and `count > 1`, again with one less.
pub open spec fn prev_walk(s: Shape, count: nat) -> Option<Shape>
    decreases count,
{
    if count == 0 {
        Some(s)
    } else {
        match prev_search(left_once(s), 50) {
            None => None,
            Some((found, s2)) => if found && count > 1 {
                prev_walk(s2, (count - 1) as nat)
            } else {
                Some(s2)
            },
        }
    }
}

/// What `advance_word(count)` does: forward for `count >= 0`, back by
/// words otherwise.
pub open spec fn advance_spec(s: Shape, count: int) -> Option<Shape> {
    if count < 0 {
        prev_walk(s, (-count) as nat)
    } else {
        advance_walk(s, count, 0, 10000)
    }
}

proof fn lemma_left_once(s: Shape)
    requires
        0 <= s.1 <= s.2 <= s.0.len(),
    ensures
        0 <= left_once(s).1 <= left_once(s).2 <= left_once(s).0.len(),
        left_once(s).0.len() == s.0.len(),
        text_of(left_once(s)) == text_of(s),
        left_once(s).2 - left_once(s).1 == s.2 - s.1,
        left_once(s).1 == if s.1 > 0 { s.1 - 1 } else { 0 },
        s.3 >= 0 ==> left_once(s).3 >= 0,
        s.4 >= 0 ==> left_once(s).4 >= 0,
        left_once(s).3 <= s.3 || s.3 < 0,
{
    if s.1 > 0 {
        let l = left_once(s);
        assert(text_of(l) =~= text_of(s)) by {
            assert forall|k: int| 0 <= k < text_of(s).len() implies text_of(l)[k] == text_of(s)[k] by {
                if k < s.1 - 1 {
                } else if k == s.1 - 1 {
                    assert(text_of(l)[k] == l.0[l.2]);
                } else {
                    assert(text_of(l)[k] == l.0[l.2 + k - l.1]);
                }
            }
        }
    }
}

proof fn lemma_right_once(s: Shape)
    requires
        0 <= s.1 <= s.2 <= s.0.len(),
    ensures
        0 <= right_once(s).1 <= right_once(s).2 <= right_once(s).0.len(),
        right_once(s).0.len() == s.0.len(),
        text_of(right_once(s)) == text_of(s),
        right_once(s).2 - right_once(s).1 == s.2 - s.1,
        s.2 < s.0.len() ==> right_once(s).1 == s.1 + 1,
        s.2 >= s.0.len() ==> right_once(s) == s,
{
    if s.2 < s.0.len() {
        let r = right_once(s);
        assert(text_of(r) =~= text_of(s)) by {
            assert forall|k: int| 0 <= k < text_of(s).len() implies text_of(r)[k] == text_of(s)[k] by {
                if k < s.1 {
                } else if k == s.1 {
                    assert(text_of(s)[k] == s.0[s.2]);
                } else {
                    assert(text_of(r)[k] == r.0[r.2 + k - r.1]);
                    assert(text_of(s)[k] == s.0[s.2 + k - s.1]);
                }
            }
        }
    }
}

/// Moving the cursor left or right never changes the text, and moves the
/// cursor by the number of steps asked for, up to the start or the end.
pub proof fn law_moves_keep_text(s: Shape, k: nat)
    requires
        0 <= s.1 <= s.2 <= s.0.len(),
    ensures
        text_of(left_n(s, k)) == text_of(s),
        text_of(right_n(s, k)) == text_of(s),
        left_n(s, k).1 == if s.1 >= k { s.1 - k } else { 0 },
        right_n(s, k).1 == if s.2 + k <= s.0.len() { s.1 + k } else { s.1 + (s.0.len() - s.2) },
        0 <= left_n(s, k).1 <= left_n(s, k).2 <= left_n(s, k).0.len(),
        0 <= right_n(s, k).1 <= right_n(s, k).2 <= right_n(s, k).0.len(),
        left_n(s, k).2 - left_n(s, k).1 == s.2 - s.1,
        right_n(s, k).2 - right_n(s, k).1 == s.2 - s.1,
        left_n(s, k).0.len() == s.0.len(),
        right_n(s, k).0.len() == s.0.len(),
    decreases k,
{
    if k > 0 {
        if s.1 > 0 {
            lemma_left_once(s);
            law_moves_keep_text(left_once(s), (k - 1) as nat);
        }
        if s.2 < s.0.len() {
            lemma_right_once(s);
            law_moves_keep_text(right_once(s), (k - 1) as nat);
        }
    }
}

/// Moving right `k` steps and then left `k` steps brings the cursor back
/// where it was, with the same text, when the end was not reached.
pub proof fn law_right_then_left(s: Shape, k: nat)
    requires
        0 <= s.1 <= s.2 <= s.0.len(),
        s.2 + k <= s.0.len(),
    ensures
        left_n(right_n(s, k), k).1 == s.1,
        text_of(left_n(right_n(s, k), k)) == text_of(s),
{
    law_moves_keep_text(s, k);
    law_moves_keep_text(right_n(s, k), k);
}

/// The walk forward for word starts keeps the text, moves right, and
/// stops on a word start unless its steps run out.
proof fn lemma_advance_walk(s: Shape, count: int, words: int, fuel: nat)
    requires
        0 <= s.1 <= s.2 <= s.0.len(),
        words < count,
        fuel > 0,
    ensures
        advance_walk(s, count, words, fuel) matches Some(r) ==> {
            &&& text_of(r) == text_of(s)
            &&& 0 <= r.1 <= r.2 <= r.0.len()
            &&& s.1 < r.1 <= s.1 + fuel
            &&& at_word_start(r) || r.1 == s.1 + fuel
        },
    decreases fuel,
{
    lemma_right_once(s);
    let s1 = right_once(s);
    if s1.2 < s1.0.len() {
        let w1 = if at_word_start(s1) {
            words + 1
        } else {
            words
        };
        if w1 != count && fuel > 1 {
            lemma_advance_walk(s1, count, w1, (fuel - 1) as nat);
        } else if w1 != count {
            assert(advance_walk(s1, count, w1, 0) == Some(s1));
        }
    }
}

/// `advance_word` forward keeps the text and moves the cursor right onto
/// a word start (a non-blank character after a blank one), unless it gives
/// up after ten thousand steps.
pub proof fn law_advance_word_lands_on_word_start(s: Shape, count: int)
    requires
        0 <= s.1 <= s.2 <= s.0.len(),
        count >= 1,
    ensures
        advance_spec(s, count) matches Some(r) ==> {
            &&& text_of(r) == text_of(s)
            &&& s.1 < r.1
            &&& at_word_start(r) || r.1 == s.1 + 10000
        },
{
    lemma_advance_walk(s, count, 0, 10000);
}

impl Buffer {
    /// The state as values.
    pub closed spec fn shape(&self) -> Shape {
        (self.buf@, self.c as int, self.d as int, self.row as int, self.col as int)
    }

    /// The storage and the cursor agree, and the storage stays within what
    /// memory can hold.
    pub closed spec fn wf(&self) -> bool {
        &&& self.c <= self.d <= self.buf.len()
        &&& self.buf.len() <= usize::MAX / 8
    }

    /// The text held.
    pub open spec fn chars(&self) -> Seq<char> {
        text_of(self.shape())
    }

    /// The cursor's index in the text.
    pub open spec fn cursor(&self) -> int {
        self.shape().1
    }

    pub proof fn lemma_wf(&self)
        requires
            self.wf(),
        ensures
            0 <= self.shape().1 <= self.shape().2 <= self.shape().0.len() <= usize::MAX / 8,
            0 <= self.shape().3 <= usize::MAX,
            0 <= self.shape().4 <= usize::MAX,
            self.chars().len() == self.shape().0.len() - (self.shape().2 - self.shape().1),
    {
    }

    /// An empty buffer with `cap` cells of storage.
    pub fn new(cap: usize) -> (b: Self)
        requires
            cap <= usize::MAX / 8,
        ensures
            b.wf(),
            b.shape() == (Seq::new(cap as nat, |i: int| 'x'), 0int, cap as int, 0int, 0int),
    {
        let b = Buffer { buf: vec!['x'; cap], c: 0, d: cap, row: 0, col: 0 };
        assert(b.buf@ =~= Seq::new(cap as nat, |i: int| 'x'));
        b
    }

    /// A buffer holding `value`, built by inserting its characters into a
    /// storage half as large again; the cursor ends after the text.
    pub fn from(value: &str) -> (b: Self)
        requires
            value@.len() <= usize::MAX / 16,
        ensures
            b.wf(),
            b.chars() == value@,
            b.cursor() == value@.len(),
            b.shape().3 == newlines(value@),
            b.shape().4 == trailing_col(value@),
    {
        let v = chars_of(value);
        let n = v.len();
        let cap = n * 3 / 2;
        let mut b = Buffer::new(cap);
        let mut i: usize = 0;
        while i < n
            invariant
                n == v.len(),
                n <= usize::MAX / 16,
                cap == n * 3 / 2,
                i <= n,
                b.wf(),
                b.buf.len() == cap,
                b.c == i,
                b.d == cap,
                b.chars() == v@.take(i as int),
                b.row == newlines(v@.take(i as int)),
                b.col == trailing_col(v@.take(i as int)),
                b.row <= i,
                b.col <= i,
            decreases n - i,
        {
            proof {
                crate::text::lemma_newlines_bound(v@.take(i as int));
                lemma_newlines_push(v@.take(i as int), v@[i as int]);
                assert(v@.take(i + 1) =~= v@.take(i as int).push(v@[i as int]));
                assert(v@.take(i + 1).drop_last() =~= v@.take(i as int));
            }
            b.insert(v[i]);
            i = i + 1;
        }
        assert(v@.take(n as int) =~= v@);
        b
    }

    /// The text as a string.
    pub fn text(&self) -> (s: String)
        requires
            self.wf(),
        ensures
            s@ == self.chars(),
    {
        let v = self.chars_vec();
        string_of(v.as_slice())
    }

    /// The characters of the text.
    fn chars_vec(&self) -> (v: Vec<char>)
        requires
            self.wf(),
        ensures
            v@ == self.chars(),
    {
        let mut v: Vec<char> = Vec::new();
        let mut i: usize = 0;
        while i < self.c
            invariant
                self.wf(),
                i <= self.c,
                v@ == self.buf@.take(i as int),
            decreases self.c - i,
        {
            v.push(self.buf[i]);
            i = i + 1;
            assert(v@ =~= self.buf@.take(i as int));
        }
        let mut j: usize = self.d;
        while j < self.buf.len()
            invariant
                self.wf(),
                self.d <= j <= self.buf.len(),
                v@ == self.buf@.take(self.c as int) + self.buf@.subrange(self.d as int, j as int),
            decreases self.buf.len() - j,
        {
            v.push(self.buf[j]);
            j = j + 1;
            assert(v@ =~= self.buf@.take(self.c as int) + self.buf@.subrange(
                self.d as int,
                j as int,
            ));
        }
        assert(self.buf@.subrange(self.d as int, self.buf.len() as int) =~= self.buf@.skip(
            self.d as int,
        ));
        v
    }

    /// Column of the end of the text: the characters after its last
    /// newline.
    fn end_column(&self) -> (n: usize)
        requires
            self.wf(),
        ensures
            n == trailing_col(self.chars()),
    {
        let v = self.chars_vec();
        let mut k: usize = v.len();
        let mut n: usize = 0;
        assert(v@.take(k as int) =~= v@);
        while k > 0 && v[k - 1] != '\n'
            invariant
                k <= v.len(),
                n == v.len() - k,
                trailing_col(v@) == trailing_col(v@.take(k as int)) + n,
            decreases k,
        {
            assert(v@.take(k as int).drop_last() =~= v@.take(k - 1));
            k = k - 1;
            n = n + 1;
        }
        proof {
            if k > 0 {
                assert(v@.take(k as int).last() == '\n');
            }
        }
        n
    }

    /// Moves the cursor left `n` times; see `left_n`.
    pub fn left(&mut self, n: usize)
        requires
            old(self).wf(),
        ensures
            final(self).wf(),
            final(self).shape() == left_n(old(self).shape(), n as nat),
    {
        let mut k: usize = 0;
        while k < n
            invariant
                self.wf(),
                k <= n,
                left_n(old(self).shape(), n as nat) == left_n(self.shape(), (n - k) as nat),
            decreases n - k,
        {
            if self.c == 0 {
                return;
            }
            let ghost s = self.shape();
            let recv = self.buf[self.c - 1];
            if recv == '\n' {
                let col = self.end_column();
                self.buf.set(self.d - 1, recv);
                self.row = if self.row > 0 {
                    self.row - 1
                } else {
                    0
                };
                self.col = col;
            } else {
                self.buf.set(self.d - 1, recv);
                self.col = if self.col > 0 {
                    self.col - 1
                } else {
                    0
                };
            }
            self.c = self.c - 1;
            self.d = self.d - 1;
            assert(self.shape() == left_once(s));
            k = k + 1;
        }
    }

    /// Moves the cursor right `n` times; see `right_n`.
    pub fn right(&mut self, n: usize)
        requires
            old(self).wf(),
            old(self).shape().3 + n <= usize::MAX,
            old(self).shape().4 + n <= usize::MAX,
        ensures
            final(self).wf(),
            final(self).shape() == right_n(old(self).shape(), n as nat),
    {
        let mut k: usize = 0;
        while k < n
            invariant
                self.wf(),
                k <= n,
                self.row <= old(self).row + k,
                self.col <= old(self).col + k,
                old(self).row + n <= usize::MAX,
                old(self).col + n <= usize::MAX,
                right_n(old(self).shape(), n as nat) == right_n(self.shape(), (n - k) as nat),
            decreases n - k,
        {
            if self.d == self.buf.len() {
                return;
            }
            let ghost s = self.shape();
            let recv = self.buf[self.d];
            self.buf.set(self.c, recv);
            if recv == '\n' {
                self.row = self.row + 1;
                self.col = 0;
            } else {
                self.col = self.col + 1;
            }
            self.d = self.d + 1;
            self.c = self.c + 1;
            assert(self.shape() == right_once(s));
            k = k + 1;
        }
    }

    /// Doubles the storage, keeping the cells before the cursor and moving
    /// those from the cursor on to the end.
    fn grow(&mut self)
        requires
            old(self).wf(),
            old(self).c == old(self).d,
            old(self).buf.len() <= usize::MAX / 16,
        ensures
            final(self).shape() == (
                grown(old(self).shape().0, old(self).shape().1),
                old(self).shape().1,
                old(self).shape().2 + old(self).shape().0.len(),
                old(self).shape().3,
                old(self).shape().4,
            ),
            final(self).c <= final(self).d <= final(self).buf.len(),
            final(self).buf.len() == 2 * old(self).buf.len(),
    {
        let m = self.buf.len();
        let n = m * 2;
        let offset = m - self.d;
        let mut buf = vec!['x'; n];
        let mut i: usize = 0;
        while i < self.c
            invariant
                self.wf(),
                i <= self.c,
                m == self.buf.len(),
                buf.len() == n,
                n == 2 * m,
                forall|k: int| 0 <= k < i ==> buf@[k] == self.buf@[k],
                forall|k: int| i <= k < n ==> buf@[k] == 'x',
            decreases self.c - i,
        {
            buf.set(i, self.buf[i]);
            i = i + 1;
        }
        let mut j: usize = self.c;
        while j < m
            invariant
                self.wf(),
                m == self.buf.len(),
                self.c <= j <= m,
                buf.len() == n,
                n == 2 * m,
                forall|k: int| 0 <= k < self.c ==> buf@[k] == self.buf@[k],
                forall|k: int| m + self.c <= k < m + j ==> buf@[k] == self.buf@[k - m],
                forall|k: int| self.c <= k < m + self.c ==> buf@[k] == 'x',
                forall|k: int| m + j <= k < n ==> buf@[k] == 'x',
            decreases m - j,
        {
            buf.set(m + j, self.buf[j]);
            j = j + 1;
        }
        proof {
            assert(buf@ =~= grown(self.buf@, self.c as int));
        }
        self.buf = buf;
        self.d = n - offset;
    }

    /// Inserts `v` at the cursor; see `insert_shape`.
    pub fn insert(&mut self, v: char)
        requires
            old(self).wf(),
            old(self).shape().1 == old(self).shape().2 ==> 0 < old(self).shape().0.len() <= usize::MAX
                / 16,
            v == '\n' ==> old(self).shape().3 < usize::MAX,
            v != '\n' ==> old(self).shape().4 < usize::MAX,
        ensures
            final(self).wf() || old(self).shape().0.len() > usize::MAX / 16,
            final(self).shape() == insert_shape(old(self).shape(), v),
            final(self).chars() == crate::gap::inserted(old(self).chars(), old(self).cursor(), v),
    {
        let ghost s0 = self.shape();
        if self.c == self.d {
            self.grow();
        }
        let ghost s1 = self.shape();
        self.buf.set(self.c, v);
        self.c = self.c + 1;
        if v == '\n' {
            self.row = self.row + 1;
            self.col = 0;
        } else {
            self.col = self.col + 1;
        }
        proof {
            assert(self.shape().0 =~= s1.0.update(s1.1, v));
            assert(self.chars() =~= crate::gap::inserted(text_of(s0), s0.1, v)) by {
                assert(text_of(s1) =~= text_of(s0)) by {
                    if s0.1 == s0.2 {
                        assert forall|k: int| 0 <= k < text_of(s0).len() implies text_of(s1)[k]
                            == text_of(s0)[k] by {
                            if k >= s0.1 {
                                assert(s1.0[s1.2 + k - s1.1] == s0.0[s0.2 + k - s0.1]);
                            }
                        }
                    }
                }
                assert forall|k: int| 0 <= k < self.chars().len() implies self.chars()[k]
                    == crate::gap::inserted(text_of(s0), s0.1, v)[k] by {
                    if k < s0.1 {
                        assert(self.chars()[k] == s1.0[k]);
                        assert(text_of(s1)[k] == s1.0[k]);
                    } else if k > s0.1 {
                        assert(self.chars()[k] == s1.0[s1.2 + k - s1.1 - 1]);
                        assert(text_of(s1)[k - 1] == s1.0[s1.2 + k - 1 - s1.1]);
                    }
                }
            }
        }
    }

    /// Moves to (`row`, `col`) as `position_shape` says.
    pub fn position(&mut self, row: usize, col: usize)
        requires
            old(self).wf(),
            old(self).shape().3 + old(self).chars().len() <= usize::MAX,
            old(self).shape().4 + old(self).chars().len() <= usize::MAX,
        ensures
            final(self).wf(),
            final(self).shape() == position_shape(old(self).shape(), row as int, col as int),
    {
        let ghost s0 = self.shape();
        let v = self.chars_vec();
        let ghost t = v@;
        let n = v.len();
        let nl = crate::text::count_newlines(&v);
        proof {
            crate::text::lemma_newlines_bound(t);
            self.lemma_wf();
            assert(t.take(0) =~= Seq::<char>::empty());
        }
        let (want_row, want_col) = if row > nl {
            (nl, usize::MAX)
        } else {
            (row, col)
        };
        let mut r: usize = 0;
        let mut cl: usize = 0;
        let mut i: usize = 0;
        let mut found = false;
        while i < n && !found
            invariant
                self.wf(),
                self.shape() == s0,
                s0 == old(self).shape(),
                t == v@,
                t == text_of(s0),
                n == t.len(),
                i <= n,
                r == row_at(t, i as int),
                cl == crate::text::col_at(t, i as int),
                found ==> position_index(t, row as int, col as int) == i,
                !found ==> position_index(t, row as int, col as int) == seek_char(
                    t,
                    want_row as int,
                    want_col as int,
                    i as int,
                ),
            decreases n - i + if found { 0int } else { 1int },
        {
            proof {
                crate::text::lemma_row_col_bound(t, i as int);
            }
            let ch = v[i];
            if r >= want_row && (r > want_row || cl >= want_col || ch == '\n' || i + 1 == n || v[i
                + 1] == '\n') {
                found = true;
            } else {
                proof {
                    crate::text::lemma_step_right(t, i as int);
                }
                if ch == '\n' {
                    r = r + 1;
                    cl = 0;
                } else {
                    cl = cl + 1;
                }
                i = i + 1;
            }
        }
        let dst = i;
        proof {
            crate::text::lemma_row_col_bound(t, dst as int);
        }
        if dst > self.c {
            self.right(dst - self.c);
        } else {
            self.left(self.c - dst);
        }
        self.row = r;
        self.col = cl;
    }

    /// The character the cursor is on.
    pub fn current_char(&self) -> (ch: char)
        requires
            self.wf(),
            self.shape().2 < self.shape().0.len(),
        ensures
            ch == cell_at_cursor(self.shape()),
            ch == self.chars()[self.cursor()],
    {
        self.buf[self.d]
    }

    /// The character before the cursor, if any.
    pub fn prev_char(&self) -> (r: Option<char>)
        requires
            self.wf(),
        ensures
            r == prev_cell(self.shape()),
    {
        if self.c == 0 {
            None
        } else {
            Some(self.buf[self.c - 1])
        }
    }

    /// Moves `count` words forward, or back for a negative count; see
    /// `advance_spec`.
    pub fn advance_word(&mut self, count: isize)
        requires
            old(self).wf(),
            count > isize::MIN,
            count >= 0 ==> old(self).shape().3 + 10000 <= usize::MAX && old(self).shape().4
                + 10000 <= usize::MAX,
            advance_spec(old(self).shape(), count as int) is Some,
        ensures
            final(self).wf(),
            Some(final(self).shape()) == advance_spec(old(self).shape(), count as int),
    {
        if count < 0 {
            self.prev_word((-count) as usize);
            return;
        }
        let ghost s0 = self.shape();
        let mut words: isize = 0;
        let mut fuel: usize = 10000;
        while fuel > 0
            invariant
                self.wf(),
                0 <= count,
                fuel <= 10000,
                0 <= words <= 10000 - fuel,
                self.shape().3 <= s0.3 + (10000 - fuel),
                self.shape().4 <= s0.4 + (10000 - fuel),
                s0.3 + 10000 <= usize::MAX,
                s0.4 + 10000 <= usize::MAX,
                s0 == old(self).shape(),
                advance_walk(s0, count as int, 0, 10000) == advance_walk(
                    self.shape(),
                    count as int,
                    words as int,
                    fuel as nat,
                ),
                advance_walk(self.shape(), count as int, words as int, fuel as nat) is Some,
            decreases fuel,
        {
            let ghost s = self.shape();
            self.right(1);
            proof {
                reveal_with_fuel(right_n, 2);
            }
            let curr_is_word = !is_whitespace(self.current_char());
            let prev_is_whitespace = match self.prev_char() {
                Some(p) => is_whitespace(p),
                None => false,
            };
            if curr_is_word && prev_is_whitespace {
                words = words + 1;
            }
            if words == count {
                return;
            }
            fuel = fuel - 1;
        }
    }

    /// Moves back `count` word starts; see `prev_walk`.
    fn prev_word(&mut self, count: usize)
        requires
            old(self).wf(),
            prev_walk(old(self).shape(), count as nat) is Some,
        ensures
            final(self).wf(),
            Some(final(self).shape()) == prev_walk(old(self).shape(), count as nat),
        decreases count,
    {
        if count == 0 {
            return;
        }
        let ghost s0 = self.shape();
        self.left(1);
        proof {
            reveal_with_fuel(left_n, 2);
        }
        let mut i: usize = 0;
        while i < 50
            invariant
                self.wf(),
                i <= 50,
                count > 0,
                s0 == old(self).shape(),
                prev_search(left_once(s0), 50) == prev_search(self.shape(), (50 - i) as nat),
                prev_search(self.shape(), (50 - i) as nat) is Some,
                prev_walk(s0, count as nat) is Some,
            decreases 50 - i,
        {
            let curr_is_word = !is_whitespace(self.current_char());
            let prev_is_whitespace = match self.prev_char() {
                Some(p) => is_whitespace(p),
                None => false,
            };
            if curr_is_word && prev_is_whitespace {
                if count > 1 {
                    return self.prev_word(count - 1);
                }
                return;
            }
            let ghost s = self.shape();
            self.left(1);
            proof {
                reveal_with_fuel(left_n, 2);
            }
            i = i + 1;
        }
    }

    /// The line at the row this buffer keeps, as `str::lines` gives it
    /// (empty past the last line).
    pub fn current_line(&self) -> (s: String)
        requires
            self.wf(),
        ensures
            s@ == line_text(self.chars(), self.shape().3 as nat),
    {
        let v = self.chars_vec();
        let line = crate::text::line_of(&v, self.row);
        string_of(line.as_slice())
    }

    /// Debug view: the storage with newlines shown as `'N'`, a newline, and
    /// a marker line one longer than the room allocated, with `'C'` at the
    /// cursor and `'D'` at the gap end.
    pub fn show(&self) -> (s: String)
        requires
            self.wf(),
        ensures
            exists|k: nat|
                k > self.shape().0.len() && s@ == shown_cells(self.shape().0) + seq!['\n']
                    + #[trigger] crate::gap::marker_line(
                    k,
                    self.shape().1,
                    self.shape().2,
                ),
    {
        let mut v: Vec<char> = Vec::new();
        let mut i: usize = 0;
        while i < self.buf.len()
            invariant
                i <= self.buf.len(),
                v@ == shown_cells(self.buf@.take(i as int)),
            decreases self.buf.len() - i,
        {
            let ch = self.buf[i];
            v.push(if ch == '\n' { 'N' } else { ch });
            i = i + 1;
            proof {
                assert(v@ =~= shown_cells(self.buf@.take(i as int)));
            }
        }
        v.push('\n');
        let alloc = crate::gap::vec_capacity(&self.buf);
        let mut marks = vec!['.'; alloc + 1];
        marks.set(self.c, 'C');
        marks.set(self.d, 'D');
        let mut k: usize = 0;
        while k < marks.len()
            invariant
                k <= marks.len(),
                v@ == shown_cells(self.buf@) + seq!['\n'] + marks@.take(k as int),
            decreases marks.len() - k,
        {
            v.push(marks[k]);
            k = k + 1;
            proof {
                assert(v@ =~= shown_cells(self.buf@) + seq!['\n'] + marks@.take(k as int));
            }
        }
        proof {
            assert(self.buf@.take(self.buf.len() as int) =~= self.buf@);
            assert(marks@.take(marks.len() as int) =~= marks@);
            assert(marks@ =~= crate::gap::marker_line(
                (alloc + 1) as nat,
                self.c as int,
                self.d as int,
            ));
        }
        let s = string_of(v.as_slice());
        assert(s@ == shown_cells(self.shape().0) + seq!['\n'] + crate::gap::marker_line(
            (alloc + 1) as nat,
            self.shape().1,
            self.shape().2,
        ));
        s
    }

    /// Takes back the cursor up to `count` characters, stopping at the
    /// start; row and column stay.
    pub fn backspace(&mut self, count: usize)
        requires
            old(self).wf(),
        ensures
            final(self).wf(),
            final(self).shape() == ({
                let s = old(self).shape();
                (s.0, s.1 - min(count as int, s.1), s.2, s.3, s.4)
            }),
    {
        if count == 0 {
            return;
        }
        let mut k: usize = 0;
        while k < count
            invariant
                self.wf(),
                k <= count,
                self.buf@ == old(self).buf@,
                self.d == old(self).d,
                self.row == old(self).row,
                self.col == old(self).col,
                self.c == old(self).c - min(k as int, old(self).c as int),
            decreases count - k,
        {
            if self.c == 0 {
                return;
            }
            self.c = self.c - 1;
            k = k + 1;
        }
    }
}

} // verus!
