//! The span a movement covers: from the cursor to where the movement would
//! take it, found by character classes (`w`, `b`) or by rows and columns.
use vstd::prelude::*;
use super::Movement;
use crate::buffer::Buffer;
use crate::span::{Position, Span};
use crate::text::{row_at, col_at, line_count, line_text};
use crate::wordclass::{WordClass, class_bits};

verus! {

/// Row and column of index `i`.
pub open spec fn pos_at(t: Seq<char>, i: int) -> Position {
    Position { row: row_at(t, i) as usize, col: col_at(t, i) as usize }
}

/// Index `i` stands at row `r`, column `c`.
pub open spec fn at_pos(t: Seq<char>, i: int, r: int, c: int) -> bool {
    row_at(t, i) == r && col_at(t, i) == c
}

/// `i` is the first index (up to the length) at row `r`, column `c`.
pub open spec fn first_at(t: Seq<char>, i: int, r: int, c: int) -> bool {
    &&& 0 <= i <= t.len()
    &&& at_pos(t, i, r, c)
    &&& forall|j: int| 0 <= j < i ==> !at_pos(t, j, r, c)
}

/// The first index at row `r`, column `c`, if there is one.
pub open spec fn first_index_at(t: Seq<char>, r: int, c: int) -> Option<int> {
    if exists|i: int| first_at(t, i, r, c) {
        Some(choose|i: int| first_at(t, i, r, c))
    } else {
        None
    }
}

/// From `i` on, over the characters of class `wc`.
pub open spec fn advance_class(t: Seq<char>, i: int, wc: u8) -> int
    decreases t.len() - i,
{
    if 0 <= i < t.len() && class_bits(t[i]) == wc {
        advance_class(t, i + 1, wc)
    } else {
        i
    }
}

/// From `i` back over the characters of class `wc`, stopping at index 0.
pub open spec fn back_class(t: Seq<char>, i: int, wc: u8) -> int
    decreases i,
{
    if i <= 0 {
        i
    } else if i < t.len() && class_bits(t[i]) == wc {
        back_class(t, i - 1, wc)
    } else {
        i
    }
}

/// `w` `k` times from `i`, for a cursor that started on class `start`:
/// over the run of that class and the blanks after it (over blanks only
/// when it started on a blank).
pub open spec fn w_moves(t: Seq<char>, i: int, start: u8, k: nat) -> int
    decreases k,
{
    if k == 0 {
        i
    } else {
        let j = if start == 2 {
            advance_class(t, i, 2)
        } else {
            let a = advance_class(t, i, start);
            if 0 <= a < t.len() && class_bits(t[a]) == 2 {
                advance_class(t, a, 2)
            } else {
                a
            }
        };
        w_moves(t, j, start, (k - 1) as nat)
    }
}

/// `b` `k` times from `i`: one step back, back over blanks (unless the
/// class in hand is the blank one), then back over the run of the class
/// found there, stopping on its first character. `None` where no character
/// stands at the index looked at.
pub open spec fn b_moves(t: Seq<char>, i: int, start: u8, k: nat) -> Option<int>
    decreases k,
{
    if k == 0 {
        Some(i)
    } else {
        let i1 = if i > 0 {
            i - 1
        } else {
            0
        };
        let i2 = if start != 2 {
            back_class(t, i1, 2)
        } else {
            i1
        };
        if i2 < 0 || i2 >= t.len() {
            None
        } else {
            let s2 = class_bits(t[i2]);
            let i3 = back_class(t, i2, s2);
            let i4 = if 0 <= i3 < t.len() && class_bits(t[i3]) != s2 {
                i3 + 1
            } else {
                i3
            };
            b_moves(t, i4, s2, (k - 1) as nat)
        }
    }
}

pub open spec fn min(a: int, b: int) -> int {
    if a <= b {
        a
    } else {
        b
    }
}

/// Where movement `m` takes a cursor at index `c`, with `target` the
/// column vertical moves aim for. `None` where it gives up: no
/// character under the cursor for `w`/`b`, a `j` below an empty text or
/// from past its last line, a column that no index has, an overflowing
/// `l`, or a key it has no movement for.
pub open spec fn movement_target(t: Seq<char>, c: int, target: Option<usize>, m: Movement) -> Option<
    int,
> {
    let count: int = match m.count {
        Some(n) => n as int,
        None => 1,
    };
    let pr = row_at(t, c) as int;
    let pc = col_at(t, c) as int;
    let aim: int = match target {
        Some(tc) => tc as int,
        None => pc,
    };
    if m.char == 'w' {
        if 0 <= c < t.len() {
            Some(w_moves(t, c, class_bits(t[c]), count as nat))
        } else {
            None
        }
    } else if m.char == 'b' {
        if 0 <= c < t.len() {
            b_moves(t, c, class_bits(t[c]), count as nat)
        } else {
            None
        }
    } else if m.char == 'j' {
        let rows = line_count(t) as int;
        if rows == 0 || pr > rows - 1 {
            None
        } else {
            let row = pr + min(count, rows - 1 - pr);
            first_index_at(t, row, min(aim, line_text(t, row as nat).len() as int))
        }
    } else if m.char == 'k' {
        let row = pr - min(count, pr);
        first_index_at(t, row, min(aim, line_text(t, row as nat).len() as int))
    } else if m.char == 'h' {
        first_index_at(t, pr, pc - min(count, pc))
    } else if m.char == 'l' {
        if pc + count > usize::MAX {
            None
        } else {
            first_index_at(t, pr, min(pc + count, line_text(t, pr as nat).len() as int))
        }
    } else if m.char == '$' {
        first_index_at(t, pr, line_text(t, pr as nat).len() as int)
    } else if m.char == '0' {
        first_index_at(t, pr, 0)
    } else {
        None
    }
}

/// The span of movement `m` from a cursor at index `c`: between the cursor
/// and where the movement takes it, the earlier of the two first.
pub open spec fn movement_span_spec(t: Seq<char>, c: int, target: Option<usize>, m: Movement) -> Option<
    Span,
> {
    match movement_target(t, c, target, m) {
        Some(e) => if 0 <= e <= t.len() {
            if e < c {
                Some(Span { start: pos_at(t, e), end: pos_at(t, c) })
            } else {
                Some(Span { start: pos_at(t, c), end: pos_at(t, e) })
            }
        } else {
            None
        },
        None => None,
    }
}

/// Where movement `m` takes a cursor at index `c`, as a position.
pub open spec fn movement_end_spec(t: Seq<char>, c: int, target: Option<usize>, m: Movement) -> Option<
    Position,
> {
    match movement_target(t, c, target, m) {
        Some(e) => if 0 <= e <= t.len() {
            Some(pos_at(t, e))
        } else {
            None
        },
        None => None,
    }
}

/// The span of a movement never ends before it starts: whichever way the
/// movement goes, the earlier position comes first.
pub proof fn law_movement_span_ordered(t: Seq<char>, c: int, target: Option<usize>, m: Movement)
    requires
        0 <= c <= t.len() <= usize::MAX,
    ensures
        movement_span_spec(t, c, target, m) matches Some(s) ==> !crate::span::position_lt(
            s.end,
            s.start,
        ),
{
    if let Some(e) = movement_target(t, c, target, m) {
        if 0 <= e <= t.len() {
            crate::text::lemma_row_col_bound(t, e);
            crate::text::lemma_row_col_bound(t, c);
            if e < c {
                crate::text::lemma_position_monotonic(t, e, c);
            } else {
                crate::text::lemma_position_monotonic(t, c, e);
            }
        }
    }
}

/// An index at row `r`, column `c` is the first one there.
proof fn lemma_first_of_position(t: Seq<char>, i: int)
    requires
        0 <= i <= t.len(),
    ensures
        first_index_at(t, row_at(t, i) as int, col_at(t, i) as int) == Some(i),
{
    assert forall|j: int| 0 <= j < i implies !at_pos(t, j, row_at(t, i) as int, col_at(t, i) as int) by {
        crate::text::lemma_positions_distinct(t, j, i);
    }
    lemma_first_unique(t, i, row_at(t, i) as int, col_at(t, i) as int);
}

/// The search for the start of row `r`, from an index below which all
/// rows are smaller, lands on that row at column 0.
proof fn lemma_row_start_at(t: Seq<char>, r: int, i: int)
    requires
        0 <= i <= t.len(),
        0 <= r <= crate::text::newlines(t),
        forall|j: int| 0 <= j < i ==> row_at(t, j) < r,
    ensures
        i <= crate::text::first_index_of_row(t, r as nat, i) <= t.len(),
        row_at(t, crate::text::first_index_of_row(t, r as nat, i)) == r,
        col_at(t, crate::text::first_index_of_row(t, r as nat, i)) == 0,
    decreases t.len() - i,
{
    if i < t.len() && row_at(t, i) < r {
        lemma_row_start_at(t, r, i + 1);
    } else {
        if i == 0 {
            assert(t.take(0) =~= Seq::<char>::empty());
        } else {
            crate::text::lemma_step_right(t, i - 1);
        }
        if i == t.len() {
            assert(t.take(t.len() as int) =~= t);
        }
    }
}

/// No newline lies before the end of a line, and the end is a newline or
/// the end of the text.
proof fn lemma_line_end_clear(t: Seq<char>, i: int)
    requires
        0 <= i <= t.len(),
    ensures
        i <= crate::text::line_end_from(t, i) <= t.len(),
        forall|j: int| i <= j < crate::text::line_end_from(t, i) ==> t[j] != '\n',
        crate::text::line_end_from(t, i) < t.len() ==> t[crate::text::line_end_from(t, i)] == '\n',
    decreases t.len() - i,
{
    if i < t.len() && t[i] != '\n' {
        lemma_line_end_clear(t, i + 1);
    }
}

/// Column `x` of row `r`, up to the row's length, is found at the row's
/// start plus `x`, and movements that aim there end at (`r`, `x`).
pub proof fn lemma_index_in_row(t: Seq<char>, r: int, x: int)
    requires
        0 <= r <= crate::text::newlines(t),
        0 <= x <= crate::text::raw_line(t, r as nat).len(),
        t.len() <= usize::MAX,
    ensures
        first_index_at(t, r, x) == Some(crate::text::row_start(t, r as nat) + x),
        0 <= crate::text::row_start(t, r as nat) + x <= t.len(),
        pos_at(t, crate::text::row_start(t, r as nat) + x) == (Position {
            row: r as usize,
            col: x as usize,
        }),
{
    lemma_row_start_at(t, r, 0);
    let st = crate::text::row_start(t, r as nat);
    lemma_line_end_clear(t, st);
    let i0 = st + x;
    crate::buffer::motion::lemma_same_row(t, st, i0);
    if st > 0 {
        crate::text::lemma_step_right(t, st - 1);
    }
    crate::buffer::lemma_col_from_last_newline(t, i0, st);
    lemma_first_of_position(t, i0);
    crate::text::lemma_row_col_bound(t, i0);
}

/// The start of the cursor's row is the cursor less its column, and the
/// cursor stands no further than the row's end.
proof fn lemma_cursor_row(t: Seq<char>, c: int)
    requires
        0 <= c <= t.len(),
    ensures
        crate::text::row_start(t, row_at(t, c)) == c - col_at(t, c),
        c - col_at(t, c) + col_at(t, c) <= crate::text::line_end_from(t, c - col_at(t, c)),
        row_at(t, c) <= crate::text::newlines(t),
{
    crate::text::lemma_position_monotonic(t, c, t.len() as int);
    assert(t.take(t.len() as int) =~= t);
    let r = row_at(t, c) as int;
    crate::buffer::motion::lemma_row_start_back(t, c);
    let st = c - col_at(t, c);
    crate::buffer::motion::lemma_same_row(t, st, c);
    if st > 0 {
        crate::text::lemma_step_right(t, st - 1);
    } else {
        assert(t.take(0) =~= Seq::<char>::empty());
    }
    crate::buffer::lemma_col_from_last_newline(t, st, st);
    lemma_row_start_at(t, r, 0);
    let rs = crate::text::row_start(t, r as nat);
    if rs < st {
        crate::text::lemma_positions_distinct(t, rs, st);
    } else if st < rs {
        crate::text::lemma_positions_distinct(t, st, rs);
    }
    lemma_line_end_clear(t, st);
}

/// `0` goes to column 0 and `$` to the line's length, on the cursor's row.
pub proof fn law_line_ends(t: Seq<char>, c: int, target: Option<usize>, n: Option<usize>)
    requires
        0 <= c <= t.len() <= usize::MAX,
    ensures
        movement_end_spec(t, c, target, Movement { count: n, char: '0' }) == Some(
            Position { row: row_at(t, c) as usize, col: 0 },
        ),
        movement_end_spec(t, c, target, Movement { count: n, char: '$' }) == Some(
            Position {
                row: row_at(t, c) as usize,
                col: line_text(t, row_at(t, c)).len() as usize,
            },
        ),
{
    lemma_cursor_row(t, c);
    let r = row_at(t, c) as int;
    lemma_index_in_row(t, r, 0);
    lemma_index_in_row(t, r, line_text(t, r as nat).len() as int);
}

/// `l` with count `n` (1 when none) moves `n` columns right on the cursor's
/// row, not past the line's length.
pub proof fn law_l_moves_right(t: Seq<char>, c: int, target: Option<usize>, n: Option<usize>)
    requires
        0 <= c <= t.len() <= usize::MAX,
        col_at(t, c) + match n {
            Some(x) => x as int,
            None => 1,
        } <= usize::MAX,
    ensures
        ({
            let k: int = match n {
                Some(x) => x as int,
                None => 1,
            };
            movement_end_spec(t, c, target, Movement { count: n, char: 'l' }) == Some(
                Position {
                    row: row_at(t, c) as usize,
                    col: min(col_at(t, c) + k, line_text(t, row_at(t, c)).len() as int) as usize,
                },
            )
        }),
{
    let k: int = match n {
        Some(x) => x as int,
        None => 1,
    };
    lemma_cursor_row(t, c);
    let r = row_at(t, c) as int;
    lemma_index_in_row(t, r, min(col_at(t, c) + k, line_text(t, r as nat).len() as int));
}

/// `j` with count `n` moves `n` rows down, not past the last line, and `k`
/// `n` rows up, not above the first; both land at the aimed column, or the
/// line's length when that is smaller.
pub proof fn law_vertical_moves(t: Seq<char>, c: int, target: Option<usize>, n: Option<usize>)
    requires
        0 <= c <= t.len() <= usize::MAX,
    ensures
        ({
            let k: int = match n {
                Some(x) => x as int,
                None => 1,
            };
            let pr = row_at(t, c) as int;
            let aim: int = match target {
                Some(tc) => tc as int,
                None => col_at(t, c) as int,
            };
            let rows = crate::text::line_count(t) as int;
            let down = pr + min(k, rows - 1 - pr);
            let up = pr - min(k, pr);
            &&& (rows > 0 && pr <= rows - 1) ==> movement_end_spec(
                t,
                c,
                target,
                Movement { count: n, char: 'j' },
            ) == Some(
                Position { row: down as usize, col: min(aim, line_text(t, down as nat).len() as int) as usize },
            )
            &&& movement_end_spec(t, c, target, Movement { count: n, char: 'k' }) == Some(
                Position { row: up as usize, col: min(aim, line_text(t, up as nat).len() as int) as usize },
            )
        }),
{
    let k: int = match n {
        Some(x) => x as int,
        None => 1,
    };
    lemma_cursor_row(t, c);
    let pr = row_at(t, c) as int;
    let aim: int = match target {
        Some(tc) => tc as int,
        None => col_at(t, c) as int,
    };
    let rows = crate::text::line_count(t) as int;
    let up = pr - min(k, pr);
    lemma_index_in_row(t, up, min(aim, line_text(t, up as nat).len() as int));
    if rows > 0 && pr <= rows - 1 {
        let down = pr + min(k, rows - 1 - pr);
        assert(down <= crate::text::newlines(t));
        lemma_index_in_row(t, down, min(aim, line_text(t, down as nat).len() as int));
    }
}

/// `h` with count `n` (1 when none) moves `n` columns left on the
/// cursor's row, stopping at column 0; the span it covers runs from there
/// to the cursor.
pub proof fn law_h_moves_left(t: Seq<char>, c: int, target: Option<usize>, n: Option<usize>)
    requires
        0 <= c <= t.len() <= usize::MAX,
    ensures
        ({
            let k: int = match n {
                Some(x) => x as int,
                None => 1,
            };
            let col = col_at(t, c);
            let end = Position {
                row: row_at(t, c) as usize,
                col: (col - if k <= col { k } else { col as int }) as usize,
            };
            &&& movement_end_spec(t, c, target, Movement { count: n, char: 'h' }) == Some(end)
            &&& movement_span_spec(t, c, target, Movement { count: n, char: 'h' }) == Some(
                Span { start: end, end: pos_at(t, c) },
            )
        }),
{
    let k: int = match n {
        Some(x) => x as int,
        None => 1,
    };
    let col = col_at(t, c) as int;
    let d = if k <= col { k } else { col };
    let i0 = c - d;
    crate::buffer::motion::lemma_row_start_back(t, c);
    let st = c - col;
    crate::buffer::motion::lemma_same_row(t, i0, c);
    crate::buffer::motion::lemma_same_row(t, st, i0);
    crate::buffer::lemma_col_from_last_newline(t, i0, st);
    crate::buffer::lemma_col_from_last_newline(t, c, st);
    lemma_first_of_position(t, i0);
    crate::text::lemma_row_col_bound(t, c);
    crate::text::lemma_row_col_bound(t, i0);
}

proof fn lemma_advance_bounds(t: Seq<char>, i: int, wc: u8)
    requires
        0 <= i <= t.len(),
    ensures
        i <= advance_class(t, i, wc) <= t.len(),
    decreases t.len() - i,
{
    if 0 <= i < t.len() && class_bits(t[i]) == wc {
        lemma_advance_bounds(t, i + 1, wc);
    }
}

proof fn lemma_back_bounds(t: Seq<char>, i: int, wc: u8)
    requires
        0 <= i,
    ensures
        0 <= back_class(t, i, wc) <= i,
    decreases i,
{
    if i > 0 && i < t.len() && class_bits(t[i]) == wc {
        lemma_back_bounds(t, i - 1, wc);
    }
}

proof fn lemma_first_unique(t: Seq<char>, i: int, r: int, c: int)
    requires
        first_at(t, i, r, c),
    ensures
        first_index_at(t, r, c) == Some(i),
{
    let k = choose|k: int| first_at(t, k, r, c);
    assert(first_at(t, k, r, c));
    if k < i {
        assert(!at_pos(t, k, r, c));
    } else if i < k {
        assert(!at_pos(t, i, r, c));
    }
}

/// Advancing over a class passes only characters of that class, and moves
/// when the first one is of it.
proof fn lemma_advance_run(t: Seq<char>, i: int, wc: u8)
    requires
        0 <= i <= t.len(),
    ensures
        i <= advance_class(t, i, wc) <= t.len(),
        i < t.len() && class_bits(t[i]) == wc ==> i < advance_class(t, i, wc),
        forall|j: int| i <= j < advance_class(t, i, wc) ==> class_bits(#[trigger] t[j]) == wc,
    decreases t.len() - i,
{
    if 0 <= i < t.len() && class_bits(t[i]) == wc {
        lemma_advance_run(t, i + 1, wc);
    }
}

/// One `w` from `i` passes only characters of the start class or blanks,
/// and moves when the cursor stands on a character of the start class.
proof fn lemma_w_once(t: Seq<char>, i: int, start: u8)
    requires
        0 <= i <= t.len(),
    ensures
        i <= w_moves(t, i, start, 1) <= t.len(),
        i < t.len() && class_bits(t[i]) == start ==> i < w_moves(t, i, start, 1),
        forall|j: int|
            i <= j < w_moves(t, i, start, 1) ==> class_bits(#[trigger] t[j]) == start
                || class_bits(t[j]) == 2,
{
    lemma_advance_run(t, i, start);
    let a = advance_class(t, i, start);
    if start != 2 && 0 <= a < t.len() && class_bits(t[a]) == 2 {
        lemma_advance_run(t, a, 2);
    }
    let j = if start == 2 {
        advance_class(t, i, 2)
    } else if 0 <= a < t.len() && class_bits(t[a]) == 2 {
        advance_class(t, a, 2)
    } else {
        a
    };
    assert(w_moves(t, i, start, 1) == w_moves(t, j, start, 0));
}

/// `k` times `w` is once and then `k - 1` times.
proof fn lemma_w_unfold(t: Seq<char>, i: int, start: u8, k: nat)
    requires
        k > 0,
    ensures
        w_moves(t, i, start, k) == w_moves(t, w_moves(t, i, start, 1), start, (k - 1) as nat),
{
    let a = advance_class(t, i, start);
    let j = if start == 2 {
        advance_class(t, i, 2)
    } else if 0 <= a < t.len() && class_bits(t[a]) == 2 {
        advance_class(t, a, 2)
    } else {
        a
    };
    assert(w_moves(t, i, start, 1) == w_moves(t, j, start, 0));
    assert(w_moves(t, i, start, k) == w_moves(t, j, start, (k - 1) as nat));
}

/// `k` times `w` passes only characters of the start class or blanks.
proof fn lemma_w_range(t: Seq<char>, i: int, start: u8, k: nat)
    requires
        0 <= i <= t.len(),
    ensures
        i <= w_moves(t, i, start, k) <= t.len(),
        forall|j: int|
            i <= j < w_moves(t, i, start, k) ==> class_bits(#[trigger] t[j]) == start
                || class_bits(t[j]) == 2,
    decreases k,
{
    if k > 0 {
        lemma_w_once(t, i, start);
        let j = w_moves(t, i, start, 1);
        lemma_w_unfold(t, i, start, k);
        lemma_w_range(t, j, start, (k - 1) as nat);
    }
}

/// `k + 1` times `w` is `k` times and then once more, with the same start
/// class.
proof fn lemma_w_compose(t: Seq<char>, i: int, start: u8, k: nat)
    ensures
        w_moves(t, i, start, k + 1) == w_moves(t, w_moves(t, i, start, k), start, 1),
    decreases k,
{
    if k > 0 {
        let j = w_moves(t, i, start, 1);
        lemma_w_unfold(t, i, start, k);
        lemma_w_unfold(t, i, start, k + 1);
        lemma_w_compose(t, j, start, (k - 1) as nat);
    }
}

/// `w` with a count moves forward over characters of the class the cursor
/// started on and blanks only; and a count one higher goes at least as far,
/// and further whenever the first stop is on a character of that class
/// again (the next word of it after blanks).
pub proof fn law_w_moves_forward(t: Seq<char>, c: int, target: Option<usize>, n: usize)
    requires
        0 <= c < t.len(),
        1 <= n < usize::MAX,
    ensures
        ({
            let s = class_bits(t[c]);
            let m1 = Movement { count: Some(n), char: 'w' };
            let m2 = Movement { count: Some((n + 1) as usize), char: 'w' };
            &&& movement_target(t, c, target, m1) matches Some(r) && c < r <= t.len() && (forall|j: int|
                c <= j < r ==> class_bits(#[trigger] t[j]) == s || class_bits(t[j]) == 2)
            &&& movement_target(t, c, target, m2) matches Some(r2) && movement_target(t, c, target, m1)->0 <= r2
            &&& ({
                let r = movement_target(t, c, target, m1)->0;
                r < t.len() && class_bits(t[r]) == s ==> r < movement_target(t, c, target, m2)->0
            })
        }),
{
    let s = class_bits(t[c]);
    lemma_w_once(t, c, s);
    let j = w_moves(t, c, s, 1);
    lemma_w_unfold(t, c, s, n as nat);
    lemma_w_range(t, j, s, (n - 1) as nat);
    let r = w_moves(t, c, s, n as nat);
    lemma_w_range(t, c, s, n as nat);
    lemma_w_compose(t, c, s, n as nat);
    lemma_w_once(t, r, s);
}

/// Going back over a class passes only characters of that class, and
/// stops on one of it only at index 0.
proof fn lemma_back_run(t: Seq<char>, i: int, wc: u8)
    requires
        0 <= i < t.len(),
    ensures
        0 <= back_class(t, i, wc) <= i,
        forall|j: int| back_class(t, i, wc) < j <= i ==> class_bits(#[trigger] t[j]) == wc,
        class_bits(t[back_class(t, i, wc)]) == wc ==> back_class(t, i, wc) == 0 || back_class(
            t,
            i,
            wc,
        ) == i && class_bits(t[i]) != wc,
    decreases i,
{
    if i > 0 && class_bits(t[i]) == wc {
        lemma_back_run(t, i - 1, wc);
    }
}

/// One `b` from a character lands on a character at or before it, before
/// it unless at index 0, and on the class it goes on with.
proof fn lemma_b_once(t: Seq<char>, i: int, start: u8, k: nat)
    requires
        0 <= i < t.len(),
    ensures
        b_moves(t, i, start, 1) matches Some(r) && 0 <= r <= i && (i > 0 ==> r < i) && b_moves(
            t,
            i,
            start,
            k + 1,
        ) == b_moves(t, r, class_bits(t[r]), k),
{
    let i1 = if i > 0 {
        i - 1
    } else {
        0
    };
    lemma_back_run(t, i1, 2);
    let i2 = if start != 2 {
        back_class(t, i1, 2)
    } else {
        i1
    };
    let s2 = class_bits(t[i2]);
    lemma_back_run(t, i2, s2);
    let i3 = back_class(t, i2, s2);
    let i4 = if 0 <= i3 < t.len() && class_bits(t[i3]) != s2 {
        i3 + 1
    } else {
        i3
    };
    assert(class_bits(t[i4]) == s2);
    assert(b_moves(t, i, start, k + 1) == b_moves(t, i4, s2, k));
    assert(b_moves(t, i, start, 1) == b_moves(t, i4, s2, 0));
}

/// `k` times `b` from a character, starting on its own class, lands on a
/// character at or before it, and once more is one `b` from there.
proof fn lemma_b_walk(t: Seq<char>, i: int, k: nat)
    requires
        0 <= i < t.len(),
    ensures
        b_moves(t, i, class_bits(t[i]), k) matches Some(r) && 0 <= r <= i && (k > 0 && i > 0 ==> r
            < i) && b_moves(t, i, class_bits(t[i]), k + 1) == b_moves(t, r, class_bits(t[r]), 1),
    decreases k,
{
    if k > 0 {
        lemma_b_once(t, i, class_bits(t[i]), (k - 1) as nat);
        lemma_b_once(t, i, class_bits(t[i]), k);
        let r1 = b_moves(t, i, class_bits(t[i]), 1)->0;
        lemma_b_walk(t, r1, (k - 1) as nat);
    }
}

/// `b` from a character always lands on a character at or before it, and
/// before it unless at the start of the text; a count one higher is one
/// more `b` from where the count lands.
pub proof fn law_b_moves_back(t: Seq<char>, c: int, target: Option<usize>, n: usize)
    requires
        0 <= c < t.len(),
        n < usize::MAX,
    ensures
        ({
            let m = Movement { count: Some(n), char: 'b' };
            let m1 = Movement { count: Some(1), char: 'b' };
            let m2 = Movement { count: Some((n + 1) as usize), char: 'b' };
            &&& movement_target(t, c, target, m) matches Some(r) && 0 <= r <= c && (n > 0 && c > 0
                ==> r < c)
            &&& movement_target(t, c, target, m2) == movement_target(
                t,
                movement_target(t, c, target, m)->0,
                target,
                m1,
            )
        }),
{
    lemma_b_walk(t, c, n as nat);
}

/// From `index` on over the characters of class `wc`.
fn advance_while(index: usize, buf: &Buffer, wc: WordClass) -> (r: usize)
    requires
        buf.wf(),
        index <= buf.chars().len(),
    ensures
        r == advance_class(buf.chars(), index as int, wc.0),
        index <= r <= buf.chars().len(),
{
    let ghost t = buf.chars();
    proof {
        lemma_advance_bounds(t, index as int, wc.0);
        buf.lemma_wf();
    }
    let mut i = index;
    loop
        invariant
            buf.wf(),
            t == buf.chars(),
            t.len() <= usize::MAX / 8,
            index <= i <= t.len(),
            advance_class(t, index as int, wc.0) == advance_class(t, i as int, wc.0),
        decreases t.len() - i,
    {
        match buf.char_at(i) {
            Some(ch) => {
                if WordClass::from(ch).0 == wc.0 {
                    i = i + 1;
                } else {
                    return i;
                }
            },
            None => {
                return i;
            },
        }
    }
}

/// From `index` back over the characters of class `wc`, stopping at 0.
fn back_while(index: usize, buf: &Buffer, wc: WordClass) -> (r: usize)
    requires
        buf.wf(),
    ensures
        r == back_class(buf.chars(), index as int, wc.0),
        r <= index,
{
    let ghost t = buf.chars();
    let mut i = index;
    loop
        invariant
            buf.wf(),
            t == buf.chars(),
            i <= index,
            back_class(t, index as int, wc.0) == back_class(t, i as int, wc.0),
        decreases i,
    {
        if i == 0 {
            return i;
        }
        match buf.char_at(i) {
            Some(ch) => {
                if WordClass::from(ch).0 == wc.0 {
                    i = i - 1;
                } else {
                    return i;
                }
            },
            None => {
                return i;
            },
        }
    }
}

/// The first index at `p`, with what it means for `first_index_at`.
fn index_of(buf: &Buffer, p: Position) -> (r: Option<usize>)
    requires
        buf.wf(),
    ensures
        r matches Some(i) ==> first_index_at(buf.chars(), p.row as int, p.col as int) == Some(
            i as int,
        ),
        r is None ==> first_index_at(buf.chars(), p.row as int, p.col as int) is None,
{
    let r = buf.to_index(p);
    proof {
        let t = buf.chars();
        match r {
            Some(i) => {
                assert(first_at(t, i as int, p.row as int, p.col as int));
                lemma_first_unique(t, i as int, p.row as int, p.col as int);
            },
            None => {
                assert forall|i: int| !first_at(t, i, p.row as int, p.col as int) by {
                    if 0 <= i <= t.len() {
                        assert(!at_pos(t, i, p.row as int, p.col as int));
                    }
                }
            },
        }
    }
    r
}

impl Movement {
    /// Where the movement takes the cursor; see `movement_target`.
    fn target_index(&self, buf: &Buffer) -> (r: Option<usize>)
        requires
            buf.wf(),
        ensures
            r matches Some(e) ==> movement_target(buf.chars(), buf.cursor(), buf.target(), *self)
                == Some(e as int) && e <= buf.chars().len(),
            r is None ==> movement_target(buf.chars(), buf.cursor(), buf.target(), *self) is None,
    {
        let ghost t = buf.chars();
        proof {
            buf.lemma_wf();
        }
        let c = buf.cursor_index();
        let n = buf.len();
        let p = buf.current_position();
        let count: usize = match self.count {
            Some(k) => k,
            None => 1,
        };
        let aim: usize = match buf.target_col() {
            Some(tc) => tc,
            None => p.col,
        };
        if self.char == 'w' {
            if c >= n {
                return None;
            }
            let start = WordClass::from(buf.current_char());
            let mut index = c;
            let mut k: usize = 0;
            while k < count
                invariant
                    buf.wf(),
                    t == buf.chars(),
                    k <= count,
                    index <= t.len(),
                    c < t.len(),
                    start.0 == class_bits(t[c as int]),
                    w_moves(t, c as int, start.0, count as nat) == w_moves(
                        t,
                        index as int,
                        start.0,
                        (count - k) as nat,
                    ),
                decreases count - k,
            {
                if start.0 == 2 {
                    index = advance_while(index, buf, start);
                } else {
                    index = advance_while(index, buf, start);
                    match buf.char_at(index) {
                        Some(ch) => {
                            if WordClass::from(ch).0 == 2 {
                                index = advance_while(index, buf, WordClass::whitespace());
                            }
                        },
                        None => {},
                    }
                }
                k = k + 1;
            }
            Some(index)
        } else if self.char == 'b' {
            if c >= n {
                return None;
            }
            let mut start = WordClass::from(buf.current_char());
            let ghost s0 = start.0;
            let mut index = c;
            let mut k: usize = 0;
            while k < count
                invariant
                    buf.wf(),
                    t == buf.chars(),
                    k <= count,
                    index <= t.len(),
                    c < t.len(),
                    s0 == class_bits(t[c as int]),
                    b_moves(t, c as int, s0, count as nat) == b_moves(
                        t,
                        index as int,
                        start.0,
                        (count - k) as nat,
                    ),
                decreases count - k,
            {
                index = if index > 0 {
                    index - 1
                } else {
                    0
                };
                if start.0 != 2 {
                    index = back_while(index, buf, WordClass::whitespace());
                }
                match buf.char_at(index) {
                    Some(ch) => {
                        start = WordClass::from(ch);
                    },
                    None => {
                        return None;
                    },
                }
                index = back_while(index, buf, start);
                match buf.char_at(index) {
                    Some(ch) => {
                        if WordClass::from(ch).0 != start.0 {
                            index = index + 1;
                        }
                    },
                    None => {},
                }
                k = k + 1;
            }
            Some(index)
        } else if self.char == 'j' {
            let rows = buf.num_lines();
            if rows == 0 || p.row > rows - 1 {
                return None;
            }
            let step = if count < rows - 1 - p.row {
                count
            } else {
                rows - 1 - p.row
            };
            let row = p.row + step;
            let w = buf.num_columns(row);
            let col = if aim < w {
                aim
            } else {
                w
            };
            index_of(buf, Position { row, col })
        } else if self.char == 'k' {
            let row = if count < p.row {
                p.row - count
            } else {
                0
            };
            let w = buf.num_columns(row);
            let col = if aim < w {
                aim
            } else {
                w
            };
            index_of(buf, Position { row, col })
        } else if self.char == 'h' {
            let col = if count < p.col {
                p.col - count
            } else {
                0
            };
            index_of(buf, Position { row: p.row, col })
        } else if self.char == 'l' {
            if p.col > usize::MAX - count {
                return None;
            }
            let w = buf.num_columns(p.row);
            let col = if p.col + count < w {
                p.col + count
            } else {
                w
            };
            index_of(buf, Position { row: p.row, col })
        } else if self.char == '$' {
            let w = buf.num_columns(p.row);
            index_of(buf, Position { row: p.row, col: w })
        } else if self.char == '0' {
            index_of(buf, Position { row: p.row, col: 0 })
        } else {
            None
        }
    }

    /// The span from the cursor to where the movement takes it, or `None`
    /// where it gives up; see `movement_span_spec`.
    pub fn span_checked(&self, buf: &Buffer) -> (r: Option<Span>)
        requires
            buf.wf(),
        ensures
            r == movement_span_spec(buf.chars(), buf.cursor(), buf.target(), *self),
    {
        match self.target_index(buf) {
            Some(e) => {
                let there = buf.to_position(e).unwrap();
                let here = buf.current_position();
                if e < buf.cursor_index() {
                    Some(Span { start: there, end: here })
                } else {
                    Some(Span { start: here, end: there })
                }
            },
            None => None,
        }
    }

    /// Where the movement takes the cursor, or `None` where it
    /// gives up; see `movement_end_spec`.
    pub fn end_checked(&self, buf: &Buffer) -> (r: Option<Position>)
        requires
            buf.wf(),
        ensures
            r == movement_end_spec(buf.chars(), buf.cursor(), buf.target(), *self),
    {
        match self.target_index(buf) {
            Some(e) => buf.to_position(e),
            None => None,
        }
    }

    /// The span from the cursor to where the movement takes it; see
    /// `movement_span_spec`.
    pub fn span(&self, buf: &Buffer) -> (s: Span)
        requires
            buf.wf(),
            movement_span_spec(buf.chars(), buf.cursor(), buf.target(), *self) is Some,
        ensures
            movement_span_spec(buf.chars(), buf.cursor(), buf.target(), *self) == Some(s),
    {
        self.span_checked(buf).unwrap()
    }
}

} // verus!
