//! The editor's buffer: a gap buffer of characters with a cursor that sits
//! on a character, its row and column, the column that vertical motions
//! aim for, and the history of changes.
//!
//! The cursor is the index of the character it stands on; motions never
//! change the text. Where a motion reads the character in front of the gap,
//! it reads the character the cursor stands on.
use vstd::prelude::*;
use crate::gap::{Gap, inserted, removed};
use crate::history::{Change, ChangeHistory};
use crate::span::Position;
use crate::text::{
    row_at, col_at, line_count, newlines, trailing_col, chars_of, count_lines, lemma_step_right,
    lemma_row_col_bound, lemma_newlines_push,
};



pub mod motion;
pub mod scan;

verus! {

/// A file being edited, kept as a gap buffer.
pub struct Buffer {
    gap: Gap,
    pub row: usize,
    pub col: usize,
    /// The column that vertical motions aim for.
    target_col: Option<usize>,
    /// Undo and redo.
    changes: ChangeHistory,
}

/// The column vertical motions aim for when `eol` has run.
pub open spec fn eol_column() -> usize {
    9999
}

/// The cursor one step right: it stops on the last character.
pub open spec fn right1(t: Seq<char>, c: int) -> int {
    if c + 1 < t.len() {
        c + 1
    } else {
        c
    }
}

/// The cursor one step left: it stops on the first character.
pub open spec fn left1(c: int) -> int {
    if c > 0 {
        c - 1
    } else {
        0
    }
}

/// The character after the cursor, if any.
pub open spec fn next_char_at(t: Seq<char>, c: int) -> Option<char> {
    if c + 1 < t.len() {
        Some(t[c + 1])
    } else {
        None
    }
}

/// The next character exists and is not a newline.
pub open spec fn next_in_line(t: Seq<char>, c: int) -> bool {
    c + 1 < t.len() && t[c + 1] != '\n'
}

/// The text after `k` characters before index `c` are taken out.
pub open spec fn cut_before(t: Seq<char>, c: int, k: int) -> Seq<char> {
    t.take(c - k) + t.skip(c)
}

/// The first index from `i` on that stands on row `r` at column `cl`, or
/// at the end of row `r` (its newline, or the end of the text) when the row
/// is shorter; the end of the text when no index from `i` on is on row `r`.
pub open spec fn seek_position(t: Seq<char>, r: int, cl: int, i: int) -> int
    decreases t.len() - i,
{
    if i < 0 || i >= t.len() {
        t.len() as int
    } else if row_at(t, i) >= r && (row_at(t, i) > r || col_at(t, i) >= cl || t[i] == '\n') {
        i
    } else {
        seek_position(t, r, cl, i + 1)
    }
}

/// Where `position(r, cl)` leaves a cursor at `c`: rows past the number of
/// lines are refused and leave it where it is; otherwise it goes to row
/// `r`, column `cl`, or to the end of row `r` when that row is shorter.
pub open spec fn position_target(t: Seq<char>, c: int, r: int, cl: int) -> int {
    if r > line_count(t) {
        c
    } else {
        seek_position(t, r, cl, 0)
    }
}

/// What `x` does `k` times: delete the character under the cursor, or, on a
/// newline, the character before the cursor unless the cursor is at the
/// start of a line. `None` when there is no character under the cursor.
pub open spec fn x_walk(t: Seq<char>, c: int, k: nat) -> Option<(Seq<char>, int)>
    decreases k,
{
    if k == 0 {
        Some((t, c))
    } else if c < 0 || c >= t.len() {
        None
    } else if t[c] == '\n' {
        if c == 0 || col_at(t, c) == 0 {
            x_walk(t, c, (k - 1) as nat)
        } else {
            x_walk(removed(t, c - 1), c - 1, (k - 1) as nat)
        }
    } else {
        x_walk(removed(t, c), c, (k - 1) as nat)
    }
}

/// First index `j >= c` where the line ends: no next character, or the next
/// character is a newline.
pub open spec fn eol_stop(t: Seq<char>, c: int) -> int
    decreases t.len() - c,
{
    if c < 0 || c + 1 >= t.len() || t[c + 1] == '\n' {
        c
    } else {
        eol_stop(t, c + 1)
    }
}

impl Buffer {
    /// The storage, the row and the column agree with the cursor, and the
    /// sizes stay within what memory can hold.
    pub closed spec fn wf(&self) -> bool {
        &&& self.gap.wf()
        &&& self.gap.capacity() <= usize::MAX / 8
        &&& self.row == row_at(self.gap.chars(), self.gap.cursor() as int)
        &&& self.col == col_at(self.gap.chars(), self.gap.cursor() as int)
        &&& (self.target_col matches Some(tc) ==> tc < usize::MAX)
        &&& self.changes.wf()
    }

    /// The row field.
    pub closed spec fn cur_row(&self) -> usize {
        self.row
    }

    /// The column field.
    pub closed spec fn cur_col(&self) -> usize {
        self.col
    }

    /// The text.
    pub closed spec fn chars(&self) -> Seq<char> {
        self.gap.chars()
    }

    /// Index of the character under the cursor.
    pub closed spec fn cursor(&self) -> int {
        self.gap.cursor() as int
    }

    /// Size of the storage.
    pub closed spec fn capacity(&self) -> nat {
        self.gap.capacity()
    }

    /// The raw storage, gap included.
    pub closed spec fn cells(&self) -> Seq<char> {
        self.gap.cells()
    }

    /// Where the gap ends in the storage.
    pub closed spec fn gap_end(&self) -> nat {
        self.gap.gap_end()
    }

    /// The storage is empty.
    pub open spec fn no_storage(&self) -> bool {
        self.capacity() == 0
    }

    /// The column that vertical motions aim for.
    pub closed spec fn target(&self) -> Option<usize> {
        self.target_col
    }

    /// The change history.
    pub closed spec fn history(&self) -> ChangeHistory {
        self.changes
    }

    pub proof fn lemma_wf(&self)
        requires
            self.wf(),
        ensures
            0 <= self.cursor() <= self.chars().len() <= self.capacity() <= usize::MAX / 8,
            self.cur_row() == row_at(self.chars(), self.cursor()),
            self.cur_col() == col_at(self.chars(), self.cursor()),
            self.cur_row() <= self.cursor(),
            self.cur_col() <= self.cursor(),
            self.target() matches Some(tc) ==> tc < usize::MAX,
            self.history().wf(),
    {
        self.gap.lemma_wf();
        lemma_row_col_bound(self.chars(), self.cursor());
    }

    /// An empty buffer with room for `cap` characters.
    pub fn new(cap: usize) -> (b: Self)
        requires
            cap <= usize::MAX / 8,
        ensures
            b.wf(),
            b.chars() == Seq::<char>::empty(),
            b.cursor() == 0,
            b.capacity() == cap,
            b.target() is None,
            b.history()@ == Seq::<Change>::empty(),
    {
        let b = Buffer {
            row: 0,
            col: 0,
            target_col: None,
            gap: Gap::new(cap),
            changes: ChangeHistory::default(),
        };
        proof {
            assert(b.chars().take(0) =~= Seq::<char>::empty());
        }
        b
    }

    /// A buffer holding `value` with the cursor moved to (0, 0); its storage
    /// is half as large again as the text.
    pub fn from(value: &str) -> (b: Self)
        requires
            value@.len() <= usize::MAX / 16,
        ensures
            b.wf(),
            b.chars() == value@,
            b.capacity() == value@.len() * 3 / 2,
            b.cursor() == 0,
            b.target() is None,
            b.history()@ == Seq::<Change>::empty(),
    {
        let chars = chars_of(value);
        let n = chars.len();
        let cap = if n <= usize::MAX / 3 {
            n * 3 / 2
        } else {
            usize::MAX / 2
        };
        let mut buffer = Self::new(cap);
        let mut i: usize = 0;
        while i < n
            invariant
                n == chars.len(),
                n <= usize::MAX / 16,
                cap == n * 3 / 2,
                i <= n,
                buffer.wf(),
                buffer.capacity() == cap,
                buffer.chars() == chars@.take(i as int),
                buffer.cursor() == i,
                buffer.target() is None,
                buffer.history()@ == Seq::<Change>::empty(),
            decreases n - i,
        {
            proof {
                buffer.lemma_wf();
                assert(chars@.take(i + 1) =~= inserted(chars@.take(i as int), i as int, chars@[i as int]));
            }
            buffer.insert(chars[i]);
            i = i + 1;
        }
        proof {
            assert(chars@.take(n as int) =~= chars@);
            if n > 0 {
                assert(chars@.take(0) =~= Seq::<char>::empty());
            }
        }
        buffer.position(0, 0);
        buffer
    }

    /// The text as a string.
    pub fn text(&self) -> (s: String)
        requires
            self.wf(),
        ensures
            s@ == self.chars(),
    {
        self.gap.text()
    }

    /// The characters of the text.
    pub fn chars_vec(&self) -> (v: Vec<char>)
        requires
            self.wf(),
        ensures
            v@ == self.chars(),
    {
        self.gap.to_vec()
    }

    /// Number of characters.
    pub fn len(&self) -> (n: usize)
        requires
            self.wf(),
        ensures
            n == self.chars().len(),
    {
        self.gap.len()
    }

    /// A copy of this buffer.
    pub fn duplicate(&self) -> (b: Self)
        requires
            self.wf(),
        ensures
            b.wf(),
            b.chars() == self.chars(),
            b.cursor() == self.cursor(),
            b.capacity() == self.capacity(),
            b.target() == self.target(),
            b.history()@ == self.history()@,
            b.history().position() == self.history().position(),
    {
        Buffer {
            gap: self.gap.duplicate(),
            row: self.row,
            col: self.col,
            target_col: self.target_col,
            changes: self.changes.clone(),
        }
    }

    /// The row of the cursor.
    pub fn row_index(&self) -> (r: usize)
        ensures
            r == self.cur_row(),
    {
        self.row
    }

    /// The column of the cursor.
    pub fn col_index(&self) -> (r: usize)
        ensures
            r == self.cur_col(),
    {
        self.col
    }

    /// Index of the character under the cursor.
    pub fn cursor_index(&self) -> (n: usize)
        ensures
            n == self.cursor(),
    {
        self.gap.cursor_index()
    }

    /// Moves left by `count` characters, stopping at the start of the text;
    /// row and column follow.
    pub fn left(&mut self, count: usize)
        requires
            old(self).wf(),
        ensures
            final(self).wf(),
            final(self).chars() == old(self).chars(),
            final(self).capacity() == old(self).capacity(),
            final(self).cursor() == old(self).cursor() - if count <= old(self).cursor() {
                count as int
            } else {
                old(self).cursor()
            },
            final(self).target() == old(self).target(),
            final(self).history() == old(self).history(),
    {
        let mut k: usize = 0;
        while k < count
            invariant
                self.wf(),
                k <= count,
                self.chars() == old(self).chars(),
                self.capacity() == old(self).capacity(),
                self.cursor() == old(self).cursor() - if k <= old(self).cursor() {
                    k as int
                } else {
                    old(self).cursor()
                },
                self.target() == old(self).target(),
                self.history() == old(self).history(),
            decreases count - k,
        {
            if self.gap.cursor_index() == 0 {
                return;
            }
            self.step_left();
            k = k + 1;
        }
    }

    /// One step left from a cursor that is not at the start.
    fn step_left(&mut self)
        requires
            old(self).wf(),
            old(self).cursor() > 0,
        ensures
            final(self).wf(),
            final(self).chars() == old(self).chars(),
            final(self).capacity() == old(self).capacity(),
            final(self).cursor() == old(self).cursor() - 1,
            final(self).target() == old(self).target(),
            final(self).history() == old(self).history(),
    {
        let ghost t = self.chars();
        let ghost c = self.cursor();
        proof {
            self.lemma_wf();
            lemma_step_right(t, c - 1);
        }
        let recv = self.gap.get(self.gap.cursor_index() - 1);
        let p = self.gap.cursor_index() - 1;
        let new_col = if recv == '\n' {
            self.column_at(p)
        } else {
            proof {
                lemma_step_right(t, c - 1);
            }
            self.col - 1
        };
        self.gap.left();
        if recv == '\n' {
            self.row = self.row - 1;
        }
        self.col = new_col;
    }

    /// Column of index `p`: the characters back to the previous newline.
    fn column_at(&self, p: usize) -> (col: usize)
        requires
            self.wf(),
            p <= self.chars().len(),
        ensures
            col == col_at(self.chars(), p as int),
    {
        let ghost t = self.chars();
        let mut col: usize = 0;
        let mut i: usize = p;
        while i > 0 && self.gap.get(i - 1) != '\n'
            invariant
                self.wf(),
                t == self.chars(),
                p <= t.len(),
                i <= p,
                col == p - i,
                forall|j: int| i <= j < p ==> t[j] != '\n',
            decreases i,
        {
            col = col + 1;
            i = i - 1;
        }
        proof {
            lemma_col_from_last_newline(t, p as int, i as int);
        }
        col
    }

    /// Moves right by `count` characters, stopping on the last character;
    /// row and column follow.
    pub fn right(&mut self, count: usize)
        requires
            old(self).wf(),
            count > 0 ==> old(self).cursor() < old(self).chars().len(),
        ensures
            final(self).wf(),
            final(self).chars() == old(self).chars(),
            final(self).capacity() == old(self).capacity(),
            count > 0 ==> final(self).cursor() == if old(self).cursor() + count < old(
                self,
            ).chars().len() {
                old(self).cursor() + count
            } else {
                old(self).chars().len() - 1
            },
            count == 0 ==> final(self).cursor() == old(self).cursor(),
            final(self).target() == old(self).target(),
            final(self).history() == old(self).history(),
    {
        let mut k: usize = 0;
        while k < count
            invariant
                self.wf(),
                k <= count,
                self.chars() == old(self).chars(),
                self.capacity() == old(self).capacity(),
                count > 0 ==> old(self).cursor() < old(self).chars().len(),
                self.cursor() == if k == 0 {
                    old(self).cursor()
                } else if old(self).cursor() + k < old(self).chars().len() {
                    old(self).cursor() + k
                } else {
                    old(self).chars().len() - 1
                },
                self.target() == old(self).target(),
                self.history() == old(self).history(),
            decreases count - k,
        {
            proof {
                self.lemma_wf();
            }
            if self.gap.cursor_index() + 1 == self.gap.len() {
                return;
            }
            self.step_right();
            k = k + 1;
        }
    }

    /// One step right from a cursor that stands on a character.
    fn step_right(&mut self)
        requires
            old(self).wf(),
            old(self).cursor() < old(self).chars().len(),
        ensures
            final(self).wf(),
            final(self).chars() == old(self).chars(),
            final(self).capacity() == old(self).capacity(),
            final(self).cursor() == old(self).cursor() + 1,
            final(self).target() == old(self).target(),
            final(self).history() == old(self).history(),
    {
        let ghost t = self.chars();
        let ghost c = self.cursor();
        proof {
            self.lemma_wf();
            lemma_step_right(t, c);
        }
        let recv = self.gap.get(self.gap.cursor_index());
        self.gap.right();
        if recv == '\n' {
            self.row = self.row + 1;
            self.col = 0;
        } else {
            self.col = self.col + 1;
        }
    }

    /// Whether `insert` can take another character: the storage has room,
    /// or it is not empty and can double.
    pub fn can_insert(&self) -> (b: bool)
        requires
            self.wf(),
        ensures
            b == (self.chars().len() == self.capacity() ==> 0 < self.capacity() <= usize::MAX
                / 16),
    {
        let n = self.gap.len();
        let cap = self.gap.storage_len();
        n != cap || (0 < cap && cap <= usize::MAX / 16)
    }

    /// Inserts `v` before the cursor; the cursor stays on its character.
    pub fn insert(&mut self, v: char)
        requires
            old(self).wf(),
            old(self).chars().len() == old(self).capacity() ==> 0 < old(self).capacity()
                <= usize::MAX / 16,
        ensures
            final(self).wf(),
            final(self).chars() == inserted(old(self).chars(), old(self).cursor(), v),
            final(self).cursor() == old(self).cursor() + 1,
            final(self).capacity() == if old(self).chars().len() == old(self).capacity() {
                2 * old(self).capacity() as int
            } else {
                old(self).capacity() as int
            },
            final(self).target() == old(self).target(),
            final(self).history() == old(self).history(),
    {
        let ghost t = self.chars();
        let ghost c = self.cursor();
        proof {
            self.lemma_wf();
        }
        self.gap.insert(v);
        proof {
            let t2 = self.chars();
            assert(t2.take(c + 1) =~= t.take(c).push(v));
            lemma_newlines_push(t.take(c), v);
        }
        if v == '\n' {
            self.row = self.row + 1;
            self.col = 0;
        } else {
            self.col = self.col + 1;
        }
    }

    /// Deletes up to `count` characters before the cursor, never a newline:
    /// it stops at the start of the line.
    pub fn backspace(&mut self, count: usize)
        requires
            old(self).wf(),
        ensures
            final(self).wf(),
            final(self).capacity() == old(self).capacity(),
            ({
                let k = if count <= old(self).cur_col() {
                    count as int
                } else {
                    old(self).cur_col() as int
                };
                &&& final(self).chars() == cut_before(old(self).chars(), old(self).cursor(), k)
                &&& final(self).cursor() == old(self).cursor() - k
            }),
            final(self).target() == old(self).target(),
            final(self).history() == old(self).history(),
    {
        let ghost t = self.chars();
        let ghost c = self.cursor();
        proof {
            self.lemma_wf();
            assert(cut_before(t, c, 0) =~= t);
            old(self).lemma_wf();
        }
        let mut k: usize = 0;
        while k < count
            invariant
                self.wf(),
                t == old(self).chars(),
                c == old(self).cursor(),
                0 <= c <= t.len(),
                k <= count,
                k <= old(self).col,
                self.capacity() == old(self).capacity(),
                self.chars() == cut_before(t, c, k as int),
                self.cursor() == c - k,
                self.col == old(self).col - k,
                old(self).col == col_at(t, c),
                old(self).col <= c,
                self.target() == old(self).target(),
                self.history() == old(self).history(),
            decreases count - k,
        {
            if self.gap.cursor_index() == 0 || self.col == 0 {
                return;
            }
            let ghost t1 = self.chars();
            let ghost c1 = self.cursor();
            proof {
                self.lemma_wf();
                lemma_trailing_col_last(t1.take(c1));
                assert(t1.take(c1).drop_last() =~= t1.take(c1 - 1));
            }
            self.gap.backspace();
            proof {
                let t2 = self.chars();
                assert(t1.take(c1 - 1) =~= t.take(c - k - 1));
                assert(t1.skip(c1) =~= t.skip(c));
                assert(t2 =~= cut_before(t, c, k + 1));
                assert(t2.take(c1 - 1) =~= t1.take(c1 - 1));
            }
            self.col = self.col - 1;
            k = k + 1;
        }
    }

    /// Deletes the character under the cursor; nothing past the end.
    pub(crate) fn delete_forward(&mut self)
        requires
            old(self).wf(),
        ensures
            final(self).wf(),
            final(self).capacity() == old(self).capacity(),
            final(self).cursor() == old(self).cursor(),
            final(self).chars() == if old(self).cursor() < old(self).chars().len() {
                removed(old(self).chars(), old(self).cursor())
            } else {
                old(self).chars()
            },
            final(self).target() == old(self).target(),
            final(self).history() == old(self).history(),
    {
        let ghost t = self.chars();
        let ghost c = self.cursor();
        proof {
            self.lemma_wf();
        }
        self.gap.delete_forward();
        proof {
            assert(self.chars().take(c) =~= t.take(c));
        }
    }

    /// Deletes the character before the cursor, whatever it is; row and
    /// column follow.
    pub(crate) fn remove_before(&mut self)
        requires
            old(self).wf(),
            old(self).cursor() > 0,
        ensures
            final(self).wf(),
            final(self).capacity() == old(self).capacity(),
            final(self).cursor() == old(self).cursor() - 1,
            final(self).chars() == removed(old(self).chars(), old(self).cursor() - 1),
            final(self).target() == old(self).target(),
            final(self).history() == old(self).history(),
    {
        let ghost t = self.chars();
        let ghost c = self.cursor();
        proof {
            self.lemma_wf();
        }
        let p = self.gap.cursor_index() - 1;
        let new_row = if self.gap.get(p) == '\n' {
            proof {
                lemma_step_right(t, c - 1);
            }
            self.row - 1
        } else {
            proof {
                lemma_step_right(t, c - 1);
            }
            self.row
        };
        let new_col = self.column_at(p);
        self.gap.backspace();
        proof {
            assert(self.chars().take(c - 1) =~= t.take(c - 1));
        }
        self.row = new_row;
        self.col = new_col;
    }

    /// The storage: its characters, the cursor and the end of the gap.
    pub(crate) fn storage(&self) -> (r: (&Gap, usize))
        requires
            self.wf(),
        ensures
            r.0.wf(),
            r.0.chars() == self.chars(),
            r.0.cursor() == self.cursor(),
            r.0.capacity() == self.capacity(),
            r.1 == self.cursor(),
    {
        (&self.gap, self.gap.cursor_index())
    }

    /// The character under the cursor.
    pub fn current_char(&self) -> (ch: char)
        requires
            self.wf(),
            self.cursor() < self.chars().len(),
        ensures
            ch == self.chars()[self.cursor()],
    {
        self.gap.get(self.gap.cursor_index())
    }

    /// The character after the cursor, if any.
    pub fn next_char(&self) -> (r: Option<char>)
        requires
            self.wf(),
            !self.no_storage(),
        ensures
            r == next_char_at(self.chars(), self.cursor()),
    {
        proof {
            self.lemma_wf();
        }
        if self.gap.cursor_index() + 1 >= self.gap.len() {
            None
        } else {
            Some(self.gap.get(self.gap.cursor_index() + 1))
        }
    }

    /// The cursor is on the last character (or past the end).
    pub fn at_eof(&self) -> (b: bool)
        requires
            self.wf(),
            !self.no_storage(),
        ensures
            b == (self.cursor() + 1 >= self.chars().len()),
    {
        proof {
            self.lemma_wf();
        }
        self.gap.cursor_index() + 1 >= self.gap.len()
    }

    /// The character at index `i` of the text.
    pub fn char_at(&self, i: usize) -> (r: Option<char>)
        requires
            self.wf(),
        ensures
            r == (if i < self.chars().len() {
                Some(self.chars()[i as int])
            } else {
                None
            }),
    {
        if i < self.gap.len() {
            Some(self.gap.get(i))
        } else {
            None
        }
    }

    /// Row and column of index `i`, for `i` up to the length of the text.
    pub fn to_position(&self, i: usize) -> (r: Option<Position>)
        requires
            self.wf(),
        ensures
            r == (if i <= self.chars().len() {
                Some(
                    Position {
                        row: row_at(self.chars(), i as int) as usize,
                        col: col_at(self.chars(), i as int) as usize,
                    },
                )
            } else {
                None
            }),
    {
        proof {
            self.lemma_wf();
        }
        if i > self.gap.len() {
            return None;
        }
        let mut row: usize = 0;
        let mut col: usize = 0;
        let mut k: usize = 0;
        while k < i
            invariant
                self.wf(),
                k <= i <= self.chars().len(),
                row == row_at(self.chars(), k as int),
                col == col_at(self.chars(), k as int),
            decreases i - k,
        {
            proof {
                lemma_step_right(self.chars(), k as int);
                lemma_row_col_bound(self.chars(), k as int);
                self.lemma_wf();
            }
            if self.gap.get(k) == '\n' {
                row = row + 1;
                col = 0;
            } else {
                col = col + 1;
            }
            k = k + 1;
        }
        Some(Position { row, col })
    }

    /// The first index, up to the length of the text, whose row and column
    /// are those of `p`.
    pub fn to_index(&self, p: Position) -> (r: Option<usize>)
        requires
            self.wf(),
        ensures
            r matches Some(i) ==> i <= self.chars().len() && row_at(self.chars(), i as int)
                == p.row && col_at(self.chars(), i as int) == p.col,
            r matches Some(i) ==> forall|j: int|
                0 <= j < i ==> !(row_at(self.chars(), j) == p.row && col_at(self.chars(), j)
                    == p.col),
            r is None ==> forall|j: int|
                0 <= j <= self.chars().len() ==> !(row_at(self.chars(), j) == p.row && col_at(
                    self.chars(),
                    j,
                ) == p.col),
    {
        proof {
            self.lemma_wf();
        }
        let n = self.gap.len();
        let mut row: usize = 0;
        let mut col: usize = 0;
        let mut k: usize = 0;
        loop
            invariant
                self.wf(),
                n == self.chars().len(),
                k <= n,
                row == row_at(self.chars(), k as int),
                col == col_at(self.chars(), k as int),
                forall|j: int|
                    0 <= j < k ==> !(row_at(self.chars(), j) == p.row && col_at(self.chars(), j)
                        == p.col),
            decreases n - k,
        {
            if row == p.row && col == p.col {
                return Some(k);
            }
            if k == n {
                return None;
            }
            proof {
                lemma_step_right(self.chars(), k as int);
                lemma_row_col_bound(self.chars(), k as int);
                self.lemma_wf();
            }
            if self.gap.get(k) == '\n' {
                row = row + 1;
                col = 0;
            } else {
                col = col + 1;
            }
            k = k + 1;
        }
    }

    /// The character at position `p`, if the text has one there.
    pub fn char_at_position(&self, p: Position) -> (r: Option<char>)
        requires
            self.wf(),
        ensures
            r is Some ==> exists|i: int|
                0 <= i < self.chars().len() && row_at(self.chars(), i) == p.row && col_at(
                    self.chars(),
                    i,
                ) == p.col && r == Some(self.chars()[i]),
            r is None ==> forall|i: int|
                0 <= i < self.chars().len() ==> !(row_at(self.chars(), i) == p.row && col_at(
                    self.chars(),
                    i,
                ) == p.col),
    {
        match self.to_index(p) {
            Some(i) => {
                let r = self.char_at(i);
                proof {
                    if i == self.chars().len() {
                        assert forall|j: int|
                            0 <= j < self.chars().len() implies !(row_at(self.chars(), j) == p.row
                            && col_at(self.chars(), j) == p.col) by {
                            assert(j < i);
                        }
                    }
                }
                r
            },
            None => None,
        }
    }

    /// Row and column of the cursor.
    pub fn current_position(&self) -> (p: Position)
        requires
            self.wf(),
        ensures
            p == (Position {
                row: row_at(self.chars(), self.cursor()) as usize,
                col: col_at(self.chars(), self.cursor()) as usize,
            }),
    {
        Position { row: self.row, col: self.col }
    }

    /// Forgets the column that vertical motions aim for.
    pub fn clear_target_col(&mut self)
        requires
            old(self).wf(),
        ensures
            final(self).wf(),
            final(self).chars() == old(self).chars(),
            final(self).cursor() == old(self).cursor(),
            final(self).capacity() == old(self).capacity(),
            final(self).target() is None,
            final(self).history() == old(self).history(),
    {
        self.target_col = None;
    }

    /// Aims vertical motions at the cursor's column.
    pub fn update_target_col(&mut self)
        requires
            old(self).wf(),
        ensures
            final(self).wf(),
            final(self).chars() == old(self).chars(),
            final(self).cursor() == old(self).cursor(),
            final(self).capacity() == old(self).capacity(),
            final(self).target() == Some(old(self).cur_col()),
            final(self).history() == old(self).history(),
    {
        proof {
            self.lemma_wf();
        }
        self.target_col = Some(self.col);
    }

    /// Aims vertical motions at column `col`.
    pub fn set_target_col(&mut self, col: Option<usize>)
        requires
            old(self).wf(),
            col matches Some(tc) ==> tc < usize::MAX,
        ensures
            final(self).wf(),
            final(self).chars() == old(self).chars(),
            final(self).cursor() == old(self).cursor(),
            final(self).capacity() == old(self).capacity(),
            final(self).target() == col,
            final(self).history() == old(self).history(),
    {
        self.target_col = col;
    }

    /// The column that vertical motions aim for.
    pub fn target_col(&self) -> (r: Option<usize>)
        ensures
            r == self.target(),
    {
        self.target_col
    }

    /// Records a change for undo.
    pub fn register_change(&mut self, change: Change)
        requires
            old(self).wf(),
        ensures
            final(self).wf(),
            final(self).chars() == old(self).chars(),
            final(self).cursor() == old(self).cursor(),
            final(self).capacity() == old(self).capacity(),
            final(self).target() == old(self).target(),
            (final(self).history()@, final(self).history().position())
                == crate::history::after_register(
                old(self).history()@,
                old(self).history().position(),
                change,
            ),
    {
        self.changes.register(change);
    }

    /// Number of lines, as `str::lines` counts them.
    pub fn num_lines(&self) -> (n: usize)
        requires
            self.wf(),
        ensures
            n == line_count(self.chars()),
    {
        let v = self.gap.to_vec();
        count_lines(&v)
    }

    /// Moves the cursor to (`row`, `col`), or to the end of `row` when it is
    /// shorter; nothing when `row` is past the number of lines. See
    /// `position_target`.
    pub fn position(&mut self, row: usize, col: usize)
        requires
            old(self).wf(),
        ensures
            final(self).wf(),
            final(self).chars() == old(self).chars(),
            final(self).capacity() == old(self).capacity(),
            final(self).target() == old(self).target(),
            final(self).history() == old(self).history(),
            final(self).cursor() == position_target(
                old(self).chars(),
                old(self).cursor(),
                row as int,
                col as int,
            ),
    {
        let ghost t = self.chars();
        proof {
            self.lemma_wf();
        }
        let num_rows = self.num_lines();
        if row > num_rows {
            return;
        }
        let target = self.seek(row, col);
        let c = self.cursor_index();
        if target < c {
            self.left(c - target);
        } else {
            let mut k: usize = c;
            while k < target
                invariant
                    self.wf(),
                    self.chars() == t,
                    c <= k <= target <= t.len(),
                    self.cursor() == k,
                    self.capacity() == old(self).capacity(),
                    self.target() == old(self).target(),
                    self.history() == old(self).history(),
                decreases target - k,
            {
                self.step_right();
                k = k + 1;
            }
        }
    }

    /// The index `position` goes to on a row that exists; see
    /// `seek_position`.
    fn seek(&self, row: usize, col: usize) -> (i: usize)
        requires
            self.wf(),
        ensures
            i == seek_position(self.chars(), row as int, col as int, 0),
            i <= self.chars().len(),
    {
        let ghost t = self.chars();
        proof {
            self.lemma_wf();
            assert(t.take(0) =~= Seq::<char>::empty());
        }
        let n = self.gap.len();
        let mut r: usize = 0;
        let mut cl: usize = 0;
        let mut i: usize = 0;
        while i < n
            invariant
                self.wf(),
                t == self.chars(),
                n == t.len(),
                i <= n,
                r == row_at(t, i as int),
                cl == col_at(t, i as int),
                seek_position(t, row as int, col as int, 0) == seek_position(t, row as int, col as int, i as int),
            decreases n - i,
        {
            proof {
                lemma_row_col_bound(t, i as int);
            }
            let ch = self.gap.get(i);
            if r >= row && (r > row || cl >= col || ch == '\n') {
                return i;
            }
            proof {
                lemma_step_right(t, i as int);
            }
            if ch == '\n' {
                r = r + 1;
                cl = 0;
            } else {
                cl = cl + 1;
            }
            i = i + 1;
        }
        n
    }

    /// The next character exists and is not a newline; an empty storage
    /// (where asking for the next character fails) is left out.
    fn next_in_line(&self) -> (b: bool)
        requires
            self.wf(),
            !self.no_storage(),
        ensures
            b == next_in_line(self.chars(), self.cursor()),
    {
        match self.next_char() {
            Some(ch) => ch != '\n',
            None => false,
        }
    }
}

pub proof fn lemma_col_from_last_newline(t: Seq<char>, p: int, i: int)
    requires
        0 <= i <= p <= t.len(),
        forall|j: int| i <= j < p ==> t[j] != '\n',
        i == 0 || t[i - 1] == '\n',
    ensures
        col_at(t, p) == p - i,
    decreases p - i,
{
    if p == i {
        if i > 0 {
            assert(t.take(i).last() == t[i - 1]);
        } else {
            assert(t.take(0).len() == 0);
        }
    } else {
        assert(t.take(p).drop_last() =~= t.take(p - 1));
        assert(t.take(p).last() == t[p - 1]);
        lemma_col_from_last_newline(t, p - 1, i);
    }
}

pub proof fn lemma_trailing_col_last(s: Seq<char>)
    requires
        trailing_col(s) > 0,
    ensures
        s.len() > 0,
        s.last() != '\n',
        trailing_col(s.drop_last()) == trailing_col(s) - 1,
        newlines(s.drop_last()) == newlines(s),
{
}

} // verus!
