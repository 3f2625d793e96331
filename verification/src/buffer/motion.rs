//! Cursor motions of the buffer (`h`, `l`, `w`, `b`, `e`, `j`, `k`, `$`),
//! `x`, and the reading of the current line.
use vstd::prelude::*;
use super::{Buffer, right1, left1, next_in_line, eol_stop, eol_column, x_walk, cut_before};
use crate::gap::{removed, marker_line};
use crate::text::{
    row_at, col_at, line_count, line_end_from, whitespace, is_whitespace, line_text, raw_line,
    row_start, first_index_of_row, newlines, lemma_step_right, string_of,
};

verus! {

/// `w` for `count` words from index `c`, `words` of them already passed:
/// the index of the `count`-th word start ahead (a non-blank character
/// after a blank one), or the last character when fewer words follow.
pub open spec fn w_walk(t: Seq<char>, c: int, count: nat, words: nat) -> int
    decreases t.len() - c,
{
    if c < 0 || c + 1 >= t.len() {
        c
    } else {
        let w1 = if whitespace(t[c]) && !whitespace(t[c + 1]) {
            words + 1
        } else {
            words
        };
        if w1 == count {
            c + 1
        } else {
            w_walk(t, c + 1, count, w1)
        }
    }
}

/// Where `w(count)` leaves the cursor.
pub open spec fn w_target(t: Seq<char>, c: int, count: nat) -> int {
    if count == 0 {
        c
    } else {
        w_walk(t, c, count, 0)
    }
}

/// A word ends at `j`: a non-blank character followed by a blank one, or by
/// the end of the text, read as a space.
pub open spec fn word_end_at(t: Seq<char>, j: int) -> bool {
    !whitespace(t[j]) && whitespace(
        if j + 1 < t.len() {
            t[j + 1]
        } else {
            ' '
        },
    )
}

/// The first word end at or after `s`, or `t.len()`.
pub open spec fn first_word_end(t: Seq<char>, s: int) -> int
    decreases t.len() - s,
{
    if s < 0 || s >= t.len() {
        t.len() as int
    } else if word_end_at(t, s) {
        s
    } else {
        first_word_end(t, s + 1)
    }
}

/// Where `e(k)` leaves the cursor: each time, one step right and on to the
/// next word end. `None` when no word end is ahead, where the motion
/// would never stop.
pub open spec fn e_walk(t: Seq<char>, c: int, k: nat) -> Option<int>
    decreases k,
{
    if k == 0 {
        Some(c)
    } else {
        let j = first_word_end(t, right1(t, c));
        if j >= t.len() {
            None
        } else {
            e_walk(t, j, (k - 1) as nat)
        }
    }
}

/// Looking back for a word start: step left and stop where a blank
/// character precedes a non-blank one (not on the first step), the cursor
/// then going back to the non-blank one; not found when the start of the
/// text is reached first.
pub open spec fn b_find(t: Seq<char>, c: int, first: bool) -> (bool, int)
    decreases c,
{
    let c1 = left1(c);
    if !first && whitespace(t[c1]) && !whitespace(t[c]) {
        (true, right1(t, c1))
    } else if c1 == c || c <= 0 {
        (false, c)
    } else {
        b_find(t, c1, false)
    }
}

/// Where `b(count)` leaves the cursor.
pub open spec fn b_walk(t: Seq<char>, c: int, count: nat) -> int
    decreases count,
{
    if count == 0 {
        c
    } else {
        let (found, p) = b_find(t, c, true);
        if found {
            b_walk(t, p, (count - 1) as nat)
        } else {
            p
        }
    }
}

/// A word starts at `j`: a non-blank character right after a blank one.
pub open spec fn word_start_at(t: Seq<char>, j: int) -> bool {
    0 < j < t.len() && whitespace(t[j - 1]) && !whitespace(t[j])
}

/// The walk of `w` ahead for one more word start, from `c`.
proof fn lemma_w_walk_once(t: Seq<char>, c: int)
    requires
        0 <= c < t.len(),
    ensures
        c <= w_walk(t, c, 1, 0) < t.len(),
        w_walk(t, c, 1, 0) == c ==> c + 1 == t.len(),
        word_start_at(t, w_walk(t, c, 1, 0)) || w_walk(t, c, 1, 0) == t.len() - 1,
        forall|j: int| c < j < w_walk(t, c, 1, 0) ==> !word_start_at(t, j),
    decreases t.len() - c,
{
    if c + 1 < t.len() && !(whitespace(t[c]) && !whitespace(t[c + 1])) {
        lemma_w_walk_once(t, c + 1);
    }
}

/// Only the number of word starts still owed matters to the walk.
proof fn lemma_w_walk_shift(t: Seq<char>, c: int, count: nat, words: nat, d: nat)
    ensures
        w_walk(t, c, count + d, words + d) == w_walk(t, c, count, words),
    decreases t.len() - c,
{
    if !(c < 0 || c + 1 >= t.len()) {
        let w1 = if whitespace(t[c]) && !whitespace(t[c + 1]) {
            words + 1
        } else {
            words
        };
        if w1 != count {
            lemma_w_walk_shift(t, c + 1, count, w1, d);
            assert(w_walk(t, c + 1, count + d, (w1 + d) as nat) == w_walk(t, c + 1, count, w1));
        }
    }
}

/// Walking for one more word start is walking for the others, then for
/// one more.
proof fn lemma_w_walk_compose(t: Seq<char>, c: int, count: nat, words: nat)
    requires
        0 <= c,
        words < count,
    ensures
        w_walk(t, c, count + 1, words) == w_walk(t, w_walk(t, c, count, words), 1, 0),
    decreases t.len() - c,
{
    if c + 1 < t.len() {
        let w1 = if whitespace(t[c]) && !whitespace(t[c + 1]) {
            words + 1
        } else {
            words
        };
        if w1 == count {
            lemma_w_walk_shift(t, c + 1, 1, 0, count);
            assert(w_walk(t, c + 1, 1 + count, (0 + count) as nat) == w_walk(t, c + 1, 1, 0));
        } else {
            lemma_w_walk_compose(t, c + 1, count, w1);
        }
    }
}

/// `w` moves to the next word start after the cursor (a non-blank
/// character after a blank one), passing none, or to the last character
/// when no word starts ahead; `count + 1` words is `count` words and then
/// one more.
pub proof fn law_buffer_w(t: Seq<char>, c: int, count: nat)
    requires
        0 <= c < t.len(),
    ensures
        c <= w_target(t, c, 1) < t.len(),
        w_target(t, c, 1) == c ==> c == t.len() - 1,
        word_start_at(t, w_target(t, c, 1)) || w_target(t, c, 1) == t.len() - 1,
        forall|j: int| c < j < w_target(t, c, 1) ==> !word_start_at(t, j),
        w_target(t, c, count + 1) == w_target(t, w_target(t, c, count), 1),
{
    lemma_w_walk_once(t, c);
    if count > 0 {
        lemma_w_walk_compose(t, c, count, 0);
    }
}

/// The look back of `b` from `x`: found, it is the nearest word start at
/// or before `x` (before it on the first look); not found, none is there
/// and it ends at index 0.
proof fn lemma_b_find_nearest(t: Seq<char>, x: int, first: bool)
    requires
        0 <= x < t.len(),
    ensures
        b_find(t, x, first).0 ==> ({
            let p = b_find(t, x, first).1;
            &&& 0 < p <= x
            &&& first ==> p < x
            &&& word_start_at(t, p)
            &&& forall|j: int| p < j <= x && !(first && j == x) ==> !word_start_at(t, j)
        }),
        !b_find(t, x, first).0 ==> b_find(t, x, first).1 == 0 && forall|j: int|
            0 < j <= x && !(first && j == x) ==> !word_start_at(t, j),
    decreases x,
{
    let c1 = left1(x);
    if !first && whitespace(t[c1]) && !whitespace(t[x]) {
    } else if c1 == x || x <= 0 {
    } else {
        lemma_b_find_nearest(t, c1, false);
    }
}

/// `b` moves back to the nearest word start before the cursor, or to the
/// start of the text when none is there; `count + 1` words back is `count`
/// words back and then one more.
pub proof fn law_buffer_b(t: Seq<char>, c: int, count: nat)
    requires
        0 <= c < t.len(),
    ensures
        0 <= b_walk(t, c, 1) <= c,
        c > 0 ==> b_walk(t, c, 1) < c,
        b_walk(t, c, 1) == 0 || word_start_at(t, b_walk(t, c, 1)),
        forall|j: int| b_walk(t, c, 1) < j < c ==> !word_start_at(t, j),
        b_walk(t, c, count + 1) == b_walk(t, b_walk(t, c, count), 1),
    decreases count,
{
    lemma_b_find_nearest(t, c, true);
    let (found, p) = b_find(t, c, true);
    assert(b_walk(t, c, 1) == p) by {
        if found {
            assert(b_walk(t, p, 0) == p);
        }
    }
    if count > 0 {
        if found {
            law_buffer_b(t, p, (count - 1) as nat);
            assert(b_walk(t, c, count + 1) == b_walk(t, p, count));
            assert(b_walk(t, c, count) == b_walk(t, p, (count - 1) as nat));
        } else {
            assert(b_walk(t, c, count) == 0);
            assert(b_walk(t, c, count + 1) == 0);
            assert(b_find(t, 0, true) == (false, 0int));
        }
    }
}

/// `e` moves to the first word end after the cursor (a non-blank character
/// followed by a blank one or by the end of the text), passing none, and
/// finds none where it gives up; `count + 1` word ends is `count` of them
/// and then one more.
pub proof fn law_buffer_e(t: Seq<char>, c: int, count: nat)
    requires
        0 <= c < t.len(),
    ensures
        e_walk(t, c, 1) matches Some(r) ==> c <= r < t.len() && (c + 1 < t.len() ==> c < r)
            && word_end_at(t, r) && forall|j: int| right1(t, c) <= j < r ==> !word_end_at(t, j),
        e_walk(t, c, 1) is None ==> forall|j: int| right1(t, c) <= j < t.len() ==> !word_end_at(t, j),
        e_walk(t, c, count + 1) == match e_walk(t, c, count) {
            Some(r) => e_walk(t, r, 1),
            None => None,
        },
    decreases count,
{
    let j = first_word_end(t, right1(t, c));
    lemma_first_word_end(t, right1(t, c));
    if j < t.len() {
        assert(e_walk(t, j, 0) == Some(j));
    }
    if count > 0 && j < t.len() {
        law_buffer_e(t, j, (count - 1) as nat);
        assert(e_walk(t, c, count + 1) == e_walk(t, j, count));
        assert(e_walk(t, c, count) == e_walk(t, j, (count - 1) as nat));
    }
}

/// Right at most `k` times, stopping on a newline or where the line ends
/// (the check comes after each step).
pub open spec fn j_inner(t: Seq<char>, c: int, k: nat) -> int
    decreases k,
{
    if k == 0 {
        c
    } else {
        let c1 = right1(t, c);
        if t[c1] == '\n' || !next_in_line(t, c1) {
            c1
        } else {
            j_inner(t, c1, (k - 1) as nat)
        }
    }
}

/// Where `j(count)` leaves the cursor, aiming at column `tc`: each time,
/// unless on the last line, on to the end of the line and then at most
/// `tc + 1` steps into the next one.
pub open spec fn j_walk(t: Seq<char>, c: int, tc: nat, count: nat) -> int
    decreases count,
{
    if count == 0 || row_at(t, c) + 1 >= line_count(t) {
        c
    } else {
        j_walk(t, j_inner(t, line_end_from(t, c), tc + 1), tc, (count - 1) as nat)
    }
}

/// Index of the last newline at or before `c`, or -1.
pub open spec fn last_newline(t: Seq<char>, c: int) -> int
    decreases c + 1,
{
    if c < 0 {
        -1
    } else if c < t.len() && t[c] == '\n' {
        c
    } else {
        last_newline(t, c - 1)
    }
}

/// Right at most `k` times while the line goes on (the check comes before
/// each step); a newline (an empty line) is not left.
pub open spec fn k_fwd(t: Seq<char>, c: int, k: nat) -> int
    decreases k,
{
    if k == 0 || t[c] == '\n' || !next_in_line(t, c) {
        c
    } else {
        k_fwd(t, c + 1, (k - 1) as nat)
    }
}

/// Where `k(count)` leaves the cursor, aiming at column `tc`: each time,
/// unless on the first row, back to the newline that ends the row above,
/// back to the start of that row, and at most `tc` steps into it. `None`
/// when more than a thousand steps back are needed in one go, where the
/// motion gives up.
pub open spec fn k_walk(t: Seq<char>, c: int, tc: nat, count: nat) -> Option<int>
    decreases count,
{
    if count == 0 || row_at(t, c) == 0 {
        Some(c)
    } else {
        let p = last_newline(t, c - 1);
        if c - p > 1000 || (c - p) + col_at(t, p) > 1001 {
            None
        } else {
            k_walk(t, k_fwd(t, p - col_at(t, p), tc), tc, (count - 1) as nat)
        }
    }
}

proof fn lemma_first_word_end(t: Seq<char>, s: int)
    requires
        0 <= s <= t.len(),
    ensures
        s <= first_word_end(t, s) <= t.len(),
        first_word_end(t, s) < t.len() ==> word_end_at(t, first_word_end(t, s)),
        forall|j: int| s <= j < first_word_end(t, s) && j < t.len() ==> !word_end_at(t, j),
    decreases t.len() - s,
{
    if s < t.len() && !word_end_at(t, s) {
        lemma_first_word_end(t, s + 1);
    }
}

proof fn lemma_eol_stop(t: Seq<char>, c: int)
    requires
        0 <= c,
    ensures
        c <= eol_stop(t, c),
        eol_stop(t, c) < t.len() || eol_stop(t, c) == c,
        !next_in_line(t, eol_stop(t, c)),
        forall|j: int| c <= j < eol_stop(t, c) ==> next_in_line(t, j),
    decreases t.len() - c,
{
    if !(c + 1 >= t.len() || t[c + 1] == '\n') {
        lemma_eol_stop(t, c + 1);
    }
}

/// `$` goes to the last character of the cursor's line: the first index
/// from the cursor on after which the line ends (a newline or the end of
/// the text follows), passing no newline; from a character other than a
/// newline it stays on the row.
pub proof fn law_eol_reaches_line_end(t: Seq<char>, c: int)
    requires
        0 <= c < t.len(),
    ensures
        c <= eol_stop(t, c) < t.len(),
        !next_in_line(t, eol_stop(t, c)),
        forall|j: int| c < j <= eol_stop(t, c) ==> t[j] != '\n',
        t[c] != '\n' ==> row_at(t, eol_stop(t, c)) == row_at(t, c),
{
    lemma_eol_stop(t, c);
    assert forall|j: int| c < j <= eol_stop(t, c) implies t[j] != '\n' by {
        assert(next_in_line(t, j - 1));
    }
    if t[c] != '\n' {
        lemma_same_row(t, c, eol_stop(t, c));
    }
}

/// With a row below the last line, a newline lies ahead of the cursor.
proof fn lemma_newline_ahead(t: Seq<char>, c: int)
    requires
        0 <= c <= t.len(),
        row_at(t, c) + 1 < line_count(t),
    ensures
        c <= line_end_from(t, c) < t.len(),
        t[line_end_from(t, c)] == '\n',
        forall|j: int| c <= j < line_end_from(t, c) ==> t[j] != '\n',
    decreases t.len() - c,
{
    if c == t.len() {
        assert(t.take(c) =~= t);
    } else if t[c] != '\n' {
        lemma_step_right(t, c);
        lemma_newline_ahead(t, c + 1);
    }
}

/// With a row above 0, a newline lies at or before the cursor.
proof fn lemma_newline_behind(t: Seq<char>, c: int)
    requires
        0 <= c <= t.len(),
        row_at(t, c) > 0 || (c < t.len() && t[c] == '\n'),
    ensures
        0 <= last_newline(t, c) <= c,
        last_newline(t, c) < t.len(),
        t[last_newline(t, c)] == '\n',
        forall|j: int| last_newline(t, c) < j <= c && j < t.len() ==> t[j] != '\n',
    decreases c,
{
    if c < t.len() && t[c] == '\n' {
    } else {
        if c == 0 {
            assert(t.take(0) =~= Seq::<char>::empty());
        } else {
            lemma_step_right(t, c - 1);
            lemma_newline_behind(t, c - 1);
        }
    }
}

/// A character of the text lies on a row below the number of lines.
proof fn lemma_row_below_line_count(t: Seq<char>, c: int)
    requires
        0 <= c < t.len(),
    ensures
        row_at(t, c) + 1 <= line_count(t),
{
    crate::text::lemma_position_monotonic(t, c, t.len() - 1);
    assert(t.take(t.len() - 1) =~= t.drop_last());
}

/// Without a newline between them, two indices are on the same row.
pub proof fn lemma_same_row(t: Seq<char>, a: int, b: int)
    requires
        0 <= a <= b <= t.len(),
        forall|j: int| a <= j < b ==> t[j] != '\n',
    ensures
        row_at(t, b) == row_at(t, a),
    decreases b - a,
{
    if a < b {
        lemma_same_row(t, a, b - 1);
        lemma_step_right(t, b - 1);
    }
}

/// The steps into a line stay on the row the first step reaches.
proof fn lemma_j_inner_row(t: Seq<char>, c: int, k: nat)
    requires
        0 <= c < t.len(),
    ensures
        0 <= j_inner(t, c, k) < t.len(),
        k > 0 ==> row_at(t, j_inner(t, c, k)) == row_at(t, right1(t, c)),
    decreases k,
{
    if k > 0 {
        let c1 = right1(t, c);
        if !(t[c1] == '\n' || !next_in_line(t, c1)) {
            lemma_j_inner_row(t, c1, (k - 1) as nat);
            if k - 1 > 0 {
                lemma_step_right(t, c1);
            }
        }
    }
}

/// The steps into a line from `c` walk the columns from the one the first
/// step reaches, at most `k` of them, and stop short of the last only on a
/// newline or on the last character of the line.
proof fn lemma_j_inner_col(t: Seq<char>, c: int, k: nat)
    requires
        0 <= c < t.len(),
        k > 0,
    ensures
        col_at(t, right1(t, c)) <= col_at(t, j_inner(t, c, k)) <= col_at(t, right1(t, c)) + k - 1,
        col_at(t, j_inner(t, c, k)) == col_at(t, right1(t, c)) + k - 1 || t[j_inner(t, c, k)]
            == '\n' || !next_in_line(t, j_inner(t, c, k)),
    decreases k,
{
    let c1 = right1(t, c);
    if !(t[c1] == '\n' || !next_in_line(t, c1)) {
        assert(j_inner(t, c, k) == j_inner(t, c1, (k - 1) as nat));
        if k > 1 {
            lemma_step_right(t, c1);
            lemma_j_inner_col(t, c1, (k - 1) as nat);
        } else {
            assert(j_inner(t, c1, 0) == c1);
        }
    } else {
        assert(j_inner(t, c, k) == c1);
    }
}

/// `j` moves down `count` rows, stopping on the last line, and keeps the
/// cursor on a character. Where it moves, the cursor lands on the target
/// column `tc`, or before it on the last character of a shorter line (the
/// newline of an empty one).
pub proof fn law_j_moves_down(t: Seq<char>, c: int, tc: nat, count: nat)
    requires
        0 <= c < t.len(),
    ensures
        0 <= j_walk(t, c, tc, count) < t.len(),
        row_at(t, j_walk(t, c, tc, count)) == if row_at(t, c) + count < line_count(t) - 1 {
            (row_at(t, c) + count) as int
        } else {
            line_count(t) - 1
        },
        count > 0 && row_at(t, c) + 1 < line_count(t) ==> ({
            let r = j_walk(t, c, tc, count);
            &&& col_at(t, r) <= tc
            &&& col_at(t, r) == tc || t[r] == '\n' || !next_in_line(t, r)
        }),
    decreases count,
{
    lemma_row_below_line_count(t, c);
    if count > 0 && row_at(t, c) + 1 < line_count(t) {
        lemma_newline_ahead(t, c);
        let e = line_end_from(t, c);
        lemma_same_row(t, c, e);
        lemma_step_right(t, e);
        if e + 1 == t.len() {
            assert(t.take(e + 1) =~= t);
            assert(t.last() == '\n');
        }
        lemma_j_inner_row(t, e, tc + 1);
        lemma_j_inner_col(t, e, tc + 1);
        law_j_moves_down(t, j_inner(t, e, tc + 1), tc, (count - 1) as nat);
    }
}

/// Going back from `p` by its column reaches the start of its row.
pub proof fn lemma_row_start_back(t: Seq<char>, p: int)
    requires
        0 <= p <= t.len(),
    ensures
        0 <= p - col_at(t, p) <= p,
        p - col_at(t, p) == 0 || t[p - col_at(t, p) - 1] == '\n',
        forall|j: int| p - col_at(t, p) <= j < p ==> t[j] != '\n',
        row_at(t, p - col_at(t, p)) == row_at(t, p),
    decreases p,
{
    if p > 0 {
        lemma_step_right(t, p - 1);
        if t[p - 1] != '\n' {
            lemma_row_start_back(t, p - 1);
        }
        lemma_same_row(t, p - col_at(t, p), p);
    }
}

/// The steps into a row from a character stay on its row.
proof fn lemma_k_fwd_row(t: Seq<char>, c: int, k: nat)
    requires
        0 <= c < t.len(),
    ensures
        c <= k_fwd(t, c, k) < t.len(),
        row_at(t, k_fwd(t, c, k)) == row_at(t, c),
    decreases k,
{
    if !(k == 0 || t[c] == '\n' || !next_in_line(t, c)) {
        lemma_step_right(t, c);
        lemma_k_fwd_row(t, c + 1, (k - 1) as nat);
    }
}

/// The steps into a row from `c` walk at most `k` columns on, and stop
/// short of `k` only on a newline or on the last character of the line.
proof fn lemma_k_fwd_col(t: Seq<char>, c: int, k: nat)
    requires
        0 <= c < t.len(),
    ensures
        col_at(t, c) <= col_at(t, k_fwd(t, c, k)) <= col_at(t, c) + k,
        col_at(t, k_fwd(t, c, k)) == col_at(t, c) + k || t[k_fwd(t, c, k)] == '\n' || !next_in_line(
            t,
            k_fwd(t, c, k),
        ),
    decreases k,
{
    if !(k == 0 || t[c] == '\n' || !next_in_line(t, c)) {
        lemma_step_right(t, c);
        lemma_k_fwd_col(t, c + 1, (k - 1) as nat);
    }
}

/// `k` moves up `count` rows, stopping on the first row, and keeps the
/// cursor on a character; it does not give up within the first thousand
/// characters of the text. Where it moves, the cursor lands on the target
/// column `tc`, or before it on the last character of a shorter line (the
/// newline of an empty one).
pub proof fn law_k_moves_up(t: Seq<char>, c: int, tc: nat, count: nat)
    requires
        0 <= c < t.len(),
    ensures
        c <= 1000 ==> k_walk(t, c, tc, count) is Some,
        k_walk(t, c, tc, count) matches Some(c2) ==> 0 <= c2 < t.len() && row_at(t, c2) == row_at(
            t,
            c,
        ) - if count <= row_at(t, c) {
            count as int
        } else {
            row_at(t, c) as int
        },
        count > 0 && row_at(t, c) > 0 ==> (k_walk(t, c, tc, count) matches Some(c2) ==> {
            &&& col_at(t, c2) <= tc
            &&& col_at(t, c2) == tc || t[c2] == '\n' || !next_in_line(t, c2)
        }),
    decreases count,
{
    if count > 0 && row_at(t, c) > 0 {
        if c == 0 {
            assert(t.take(0) =~= Seq::<char>::empty());
        }
        lemma_step_right(t, c - 1);
        lemma_newline_behind(t, c - 1);
        let p = last_newline(t, c - 1);
        lemma_same_row(t, p + 1, c);
        lemma_step_right(t, p);
        lemma_row_start_back(t, p);
        let st = p - col_at(t, p);
        lemma_k_fwd_row(t, st, tc);
        lemma_k_fwd_col(t, st, tc);
        let c2 = k_fwd(t, st, tc);
        if c2 > p {
            crate::text::lemma_position_monotonic(t, p + 1, c2);
        }
        law_k_moves_up(t, c2, tc, (count - 1) as nat);
    }
}

/// `x` on a character other than a newline takes out that character and
/// leaves the cursor where it was; `x` with a count `n + 1` is `x` with a
/// count `n` and then once more.
pub proof fn law_x_deletes_under_cursor(t: Seq<char>, c: int, n: nat)
    ensures
        0 <= c < t.len() && t[c] != '\n' ==> x_walk(t, c, 1) == Some((removed(t, c), c)),
        x_walk(t, c, n + 1) == match x_walk(t, c, n) {
            Some((t1, c1)) => x_walk(t1, c1, 1),
            None => None,
        },
    decreases n,
{
    if 0 <= c < t.len() && t[c] != '\n' {
        assert(x_walk(removed(t, c), c, 0) == Some((removed(t, c), c)));
    }
    if n > 0 && 0 <= c < t.len() {
        if t[c] == '\n' {
            if c == 0 || col_at(t, c) == 0 {
                law_x_deletes_under_cursor(t, c, (n - 1) as nat);
            } else {
                law_x_deletes_under_cursor(removed(t, c - 1), c - 1, (n - 1) as nat);
            }
        } else {
            law_x_deletes_under_cursor(removed(t, c), c, (n - 1) as nat);
        }
    }
}

impl Buffer {
    /// Deletes `count` times the character under the cursor; on a newline it
    /// deletes the character before the cursor instead, unless the cursor is
    /// at the start of a line. See `x_walk`.
    pub fn x(&mut self, count: usize)
        requires
            old(self).wf(),
            x_walk(old(self).chars(), old(self).cursor(), count as nat) is Some,
        ensures
            final(self).wf(),
            x_walk(old(self).chars(), old(self).cursor(), count as nat) == Some(
                (final(self).chars(), final(self).cursor()),
            ),
            final(self).capacity() == old(self).capacity(),
            final(self).target() == old(self).target(),
            final(self).history() == old(self).history(),
    {
        let _ = self.x_checked(count);
    }

    /// `x`, but it stops and answers `false` where that one gives up (no
    /// character under the cursor); see `x_walk`.
    pub fn x_checked(&mut self, count: usize) -> (ok: bool)
        requires
            old(self).wf(),
        ensures
            final(self).wf(),
            ok == x_walk(old(self).chars(), old(self).cursor(), count as nat) is Some,
            ok ==> x_walk(old(self).chars(), old(self).cursor(), count as nat) == Some(
                (final(self).chars(), final(self).cursor()),
            ),
            final(self).capacity() == old(self).capacity(),
            final(self).target() == old(self).target(),
            final(self).history() == old(self).history(),
    {
        let mut k: usize = 0;
        while k < count
            invariant
                self.wf(),
                k <= count,
                x_walk(old(self).chars(), old(self).cursor(), count as nat) == x_walk(
                    self.chars(),
                    self.cursor(),
                    (count - k) as nat,
                ),
                self.capacity() == old(self).capacity(),
                self.target() == old(self).target(),
                self.history() == old(self).history(),
            decreases count - k,
        {
            proof {
                self.lemma_wf();
            }
            if self.cursor_index() >= self.len() {
                return false;
            }
            if self.current_char() == '\n' {
                proof {
                    if self.cursor() > 0 && self.cur_col() > 0 {
                        assert(cut_before(self.chars(), self.cursor(), 1) =~= removed(
                            self.chars(),
                            self.cursor() - 1,
                        ));
                    } else {
                        assert(cut_before(self.chars(), self.cursor(), 0) =~= self.chars());
                    }
                }
                self.backspace(1);
            } else {
                self.delete_forward();
            }
            k = k + 1;
        }
        true
    }

    /// `h`: left by `size`, unless the cursor is at the start of its line;
    /// a move forgets the target column.
    pub fn h(&mut self, size: usize)
        requires
            old(self).wf(),
        ensures
            final(self).wf(),
            final(self).chars() == old(self).chars(),
            final(self).capacity() == old(self).capacity(),
            final(self).history() == old(self).history(),
            old(self).cur_col() == 0 ==> final(self).cursor() == old(self).cursor()
                && final(self).target() == old(self).target(),
            old(self).cur_col() > 0 ==> final(self).cursor() == old(self).cursor() - (
            if size <= old(self).cursor() {
                size as int
            } else {
                old(self).cursor()
            }) && final(self).target() is None,
    {
        if self.col_index() == 0 {
            return;
        }
        self.left(size);
        self.target_col = None;
    }

    /// `l`: right by `size`, unless the line ends after the cursor; a move
    /// forgets the target column.
    pub fn l(&mut self, size: usize)
        requires
            old(self).wf(),
            !old(self).no_storage(),
        ensures
            final(self).wf(),
            final(self).chars() == old(self).chars(),
            final(self).capacity() == old(self).capacity(),
            final(self).history() == old(self).history(),
            !next_in_line(old(self).chars(), old(self).cursor()) ==> final(self).cursor() == old(
                self,
            ).cursor() && final(self).target() == old(self).target(),
            next_in_line(old(self).chars(), old(self).cursor()) ==> final(self).target() is None
                && final(self).cursor() == if size == 0 {
                old(self).cursor()
            } else if old(self).cursor() + size < old(self).chars().len() {
                old(self).cursor() + size
            } else {
                old(self).chars().len() - 1
            },
    {
        match self.next_char() {
            None => return,
            Some(ch) => if ch == '\n' {
                return;
            },
        }
        self.right(size);
        self.target_col = None;
    }

    /// `$`: right until the line ends, at most 150 steps; when it gets
    /// there the target column becomes the end of every line.
    pub fn eol(&mut self)
        requires
            old(self).wf(),
            !old(self).no_storage(),
        ensures
            final(self).wf(),
            final(self).chars() == old(self).chars(),
            final(self).capacity() == old(self).capacity(),
            final(self).history() == old(self).history(),
            ({
                let j = eol_stop(old(self).chars(), old(self).cursor());
                if j - old(self).cursor() < 150 {
                    final(self).cursor() == j && final(self).target() == Some(eol_column())
                } else {
                    final(self).cursor() == old(self).cursor() + 150 && final(self).target()
                        == old(self).target()
                }
            }),
    {
        let ghost t = self.chars();
        let ghost c0 = self.cursor();
        proof {
            self.lemma_wf();
            lemma_eol_stop(t, c0);
        }
        let mut i: usize = 0;
        while i < 150
            invariant
                self.wf(),
                !self.no_storage(),
                t == old(self).chars(),
                c0 == old(self).cursor(),
                self.chars() == t,
                i <= 150,
                self.cursor() == c0 + i,
                c0 + i <= eol_stop(t, c0),
                c0 <= eol_stop(t, c0),
                eol_stop(t, c0) < t.len() || eol_stop(t, c0) == c0,
                !next_in_line(t, eol_stop(t, c0)),
                forall|j: int| c0 <= j < eol_stop(t, c0) ==> next_in_line(t, j),
                self.capacity() == old(self).capacity(),
                self.target() == old(self).target(),
                self.history() == old(self).history(),
            decreases 150 - i,
        {
            let stop = match self.next_char() {
                None => true,
                Some(ch) => ch == '\n',
            };
            if stop {
                proof {
                    assert(!next_in_line(t, self.cursor()));
                }
                self.target_col = Some(9999);
                return;
            }
            proof {
                assert(next_in_line(t, self.cursor()));
            }
            self.right(1);
            i = i + 1;
        }
    }

    /// `w`: forward `count` words; see `w_walk`.
    pub fn w(&mut self, count: usize)
        requires
            old(self).wf(),
            count > 0 ==> old(self).cursor() < old(self).chars().len(),
        ensures
            final(self).wf(),
            final(self).chars() == old(self).chars(),
            final(self).capacity() == old(self).capacity(),
            final(self).target() == old(self).target(),
            final(self).history() == old(self).history(),
            final(self).cursor() == w_target(old(self).chars(), old(self).cursor(), count as nat),
    {
        if count == 0 {
            return;
        }
        let ghost t = self.chars();
        let mut words: usize = 0;
        while self.cursor_index() < self.len() - 1
            invariant
                self.wf(),
                self.chars() == t,
                t == old(self).chars(),
                count > 0,
                self.cursor() < t.len(),
                words < count,
                w_target(t, old(self).cursor(), count as nat) == w_walk(
                    t,
                    self.cursor(),
                    count as nat,
                    words as nat,
                ),
                self.capacity() == old(self).capacity(),
                self.target() == old(self).target(),
                self.history() == old(self).history(),
            decreases t.len() - self.cursor(),
        {
            let prev_is_whitespace = is_whitespace(self.current_char());
            self.right(1);
            let curr_is_word = !is_whitespace(self.current_char());
            if curr_is_word && prev_is_whitespace {
                words = words + 1;
            }
            if words == count {
                return;
            }
        }
    }

    /// The cursor is at a word end.
    fn at_word_end(&self) -> (b: bool)
        requires
            self.wf(),
            self.cursor() < self.chars().len(),
        ensures
            b == word_end_at(self.chars(), self.cursor()),
    {
        proof {
            self.lemma_wf();
        }
        let c = self.current_char();
        let d = match self.next_char() {
            Some(ch) => ch,
            None => ' ',
        };
        !is_whitespace(c) && is_whitespace(d)
    }

    /// `e`: `k` times, one step right and on to the next word end; see
    /// `e_walk` (it must find one each time).
    pub fn e(&mut self, count: usize)
        requires
            old(self).wf(),
            count > 0 ==> old(self).cursor() < old(self).chars().len(),
            e_walk(old(self).chars(), old(self).cursor(), count as nat) is Some,
        ensures
            final(self).wf(),
            final(self).chars() == old(self).chars(),
            final(self).capacity() == old(self).capacity(),
            final(self).target() == old(self).target(),
            final(self).history() == old(self).history(),
            e_walk(old(self).chars(), old(self).cursor(), count as nat) == Some(
                final(self).cursor(),
            ),
    {
        let _ = self.e_checked(count);
    }

    /// The first word end at or after index `s`; see `first_word_end`.
    fn word_end_from(&self, s: usize) -> (j: usize)
        requires
            self.wf(),
            s <= self.chars().len(),
        ensures
            j == first_word_end(self.chars(), s as int),
    {
        let ghost t = self.chars();
        proof {
            self.lemma_wf();
            lemma_first_word_end(t, s as int);
        }
        let n = self.len();
        let mut j = s;
        while j < n
            invariant
                self.wf(),
                t == self.chars(),
                n == t.len(),
                s <= j <= n,
                first_word_end(t, s as int) == first_word_end(t, j as int),
            decreases n - j,
        {
            let c = self.gap.get(j);
            let d = if j + 1 < n {
                self.gap.get(j + 1)
            } else {
                ' '
            };
            if !is_whitespace(c) && is_whitespace(d) {
                return j;
            }
            j = j + 1;
        }
        j
    }

    /// `e`, but it answers `false`, without moving, where that one would
    /// find no word end ahead; see `e_walk`.
    pub fn e_checked(&mut self, count: usize) -> (ok: bool)
        requires
            old(self).wf(),
        ensures
            final(self).wf(),
            final(self).chars() == old(self).chars(),
            final(self).capacity() == old(self).capacity(),
            final(self).target() == old(self).target(),
            final(self).history() == old(self).history(),
            ok == e_walk(old(self).chars(), old(self).cursor(), count as nat) is Some,
            ok ==> e_walk(old(self).chars(), old(self).cursor(), count as nat) == Some(
                final(self).cursor(),
            ),
    {
        let ghost t = self.chars();
        let mut k: usize = 0;
        while k < count
            invariant
                self.wf(),
                self.chars() == t,
                t == old(self).chars(),
                k <= count,
                e_walk(t, old(self).cursor(), count as nat) == e_walk(
                    t,
                    self.cursor(),
                    (count - k) as nat,
                ),
                self.capacity() == old(self).capacity(),
                self.target() == old(self).target(),
                self.history() == old(self).history(),
            decreases count - k,
        {
            proof {
                self.lemma_wf();
            }
            let c0 = self.cursor_index();
            let n = self.len();
            let s1 = if c0 + 1 < n {
                c0 + 1
            } else {
                c0
            };
            let jj = self.word_end_from(s1);
            if jj >= n {
                return false;
            }
            let ghost c = self.cursor();
            let ghost j = first_word_end(t, right1(t, c));
            proof {
                lemma_first_word_end(t, right1(t, c));
            }
            self.right(1);
            while !self.at_word_end()
                invariant
                    self.wf(),
                    self.chars() == t,
                    right1(t, c) <= self.cursor() <= j < t.len(),
                    first_word_end(t, self.cursor()) == j,
                    word_end_at(t, j),
                    self.capacity() == old(self).capacity(),
                    self.target() == old(self).target(),
                    self.history() == old(self).history(),
                decreases j - self.cursor(),
            {
                self.right(1);
            }
            k = k + 1;
        }
        true
    }

    /// `b`: back `count` word starts; see `b_walk`.
    pub fn b(&mut self, count: usize)
        requires
            old(self).wf(),
            count > 0 ==> old(self).cursor() < old(self).chars().len(),
        ensures
            final(self).wf(),
            final(self).chars() == old(self).chars(),
            final(self).capacity() == old(self).capacity(),
            final(self).target() == old(self).target(),
            final(self).history() == old(self).history(),
            final(self).cursor() == b_walk(old(self).chars(), old(self).cursor(), count as nat),
        decreases count,
    {
        if count == 0 {
            return;
        }
        let ghost t = self.chars();
        let mut first = true;
        loop
            invariant
                self.wf(),
                self.chars() == t,
                t == old(self).chars(),
                count > 0,
                self.cursor() < t.len(),
                b_find(t, old(self).cursor(), true) == b_find(t, self.cursor(), first),
                self.capacity() == old(self).capacity(),
                self.target() == old(self).target(),
                self.history() == old(self).history(),
            decreases self.cursor() + if first {
                1int
            } else {
                0int
            },
        {
            let right = self.current_char();
            if self.cursor_index() == 0 {
                return;
            }
            self.left(1);
            let left = self.current_char();
            if !first && is_whitespace(left) && !is_whitespace(right) {
                self.right(1);
                self.b(count - 1);
                return;
            }
            first = false;
        }
    }

    /// The target column, set to the cursor's column when there is none.
    fn take_target(&mut self) -> (tc: usize)
        requires
            old(self).wf(),
        ensures
            final(self).wf(),
            final(self).chars() == old(self).chars(),
            final(self).cursor() == old(self).cursor(),
            final(self).capacity() == old(self).capacity(),
            final(self).history() == old(self).history(),
            tc == match old(self).target() {
                Some(t) => t,
                None => old(self).cur_col(),
            },
            final(self).target() == Some(tc),
            tc < usize::MAX,
    {
        proof {
            self.lemma_wf();
        }
        if self.target_col.is_none() {
            self.target_col = Some(self.col);
        }
        match self.target_col {
            Some(t) => t,
            None => 0,
        }
    }

    /// `j`: down `count` lines towards the target column, which is set to the
    /// cursor's column when there is none; see `j_walk`.
    pub fn j(&mut self, count: usize)
        requires
            old(self).wf(),
            count > 0 ==> old(self).chars().len() > 0 && (old(self).cursor() < old(
                self,
            ).chars().len() || row_at(old(self).chars(), old(self).cursor()) + 1 >= line_count(
                old(self).chars(),
            )),
        ensures
            final(self).wf(),
            final(self).chars() == old(self).chars(),
            final(self).capacity() == old(self).capacity(),
            final(self).history() == old(self).history(),
            ({
                let tc = match old(self).target() {
                    Some(t) => t,
                    None => old(self).cur_col(),
                };
                &&& final(self).target() == Some(tc)
                &&& final(self).cursor() == j_walk(
                    old(self).chars(),
                    old(self).cursor(),
                    tc as nat,
                    count as nat,
                )
            }),
    {
        let ghost t = self.chars();
        let tc = self.take_target();
        let mut k: usize = 0;
        while k < count
            invariant
                self.wf(),
                self.chars() == t,
                t == old(self).chars(),
                k <= count,
                tc < usize::MAX,
                tc == match old(self).target() {
                    Some(t) => t,
                    None => old(self).cur_col(),
                },
                count > 0 ==> t.len() > 0 && (self.cursor() < t.len() || row_at(t, self.cursor())
                    + 1 >= line_count(t)),
                j_walk(t, old(self).cursor(), tc as nat, count as nat) == j_walk(
                    t,
                    self.cursor(),
                    tc as nat,
                    (count - k) as nat,
                ),
                self.capacity() == old(self).capacity(),
                self.target() == Some(tc),
                self.history() == old(self).history(),
            decreases count - k,
        {
            proof {
                self.lemma_wf();
                crate::text::lemma_newlines_bound(t);
            }
            let lines = self.num_lines();
            if self.row_index() + 1 >= lines {
                return;
            }
            let ghost c = self.cursor();
            proof {
                lemma_newline_ahead(t, c);
            }
            while self.current_char() != '\n'
                invariant
                    self.wf(),
                    self.chars() == t,
                    c <= self.cursor() <= line_end_from(t, c) < t.len(),
                    forall|j: int| c <= j < line_end_from(t, c) ==> t[j] != '\n',
                    t[line_end_from(t, c)] == '\n',
                    self.capacity() == old(self).capacity(),
                    self.target() == Some(tc),
                    self.history() == old(self).history(),
                decreases line_end_from(t, c) - self.cursor(),
            {
                self.right(1);
            }
            let ghost p = self.cursor();
            proof {
                assert(t[p] == '\n');
                assert(p == line_end_from(t, c));
            }
            let mut m: usize = 0;
            let mut done = false;
            while m < tc + 1 && !done
                invariant
                    self.wf(),
                    self.chars() == t,
                    self.cursor() < t.len(),
                    m <= tc + 1,
                    done ==> j_inner(t, p, (tc + 1) as nat) == self.cursor(),
                    !done ==> j_inner(t, p, (tc + 1) as nat) == j_inner(
                        t,
                        self.cursor(),
                        (tc + 1 - m) as nat,
                    ),
                    self.capacity() == old(self).capacity(),
                    self.target() == Some(tc),
                    self.history() == old(self).history(),
                decreases tc + 1 - m + if done { 0int } else { 1int },
            {
                self.right(1);
                proof {
                    self.lemma_wf();
                }
                if self.current_char() == '\n' || !self.next_in_line() {
                    done = true;
                } else {
                    m = m + 1;
                }
            }
            k = k + 1;
        }
    }

    /// `k`: up `count` lines towards the target column, which is set to the
    /// cursor's column when there is none; see `k_walk` (it must not need
    /// more than a thousand steps back at a time).
    pub fn k(&mut self, count: usize)
        requires
            old(self).wf(),
            count > 0 ==> old(self).cursor() < old(self).chars().len() || row_at(
                old(self).chars(),
                old(self).cursor(),
            ) == 0,
            k_walk(
                old(self).chars(),
                old(self).cursor(),
                (match old(self).target() {
                    Some(t) => t,
                    None => old(self).cur_col(),
                }) as nat,
                count as nat,
            ) is Some,
        ensures
            final(self).wf(),
            final(self).chars() == old(self).chars(),
            final(self).capacity() == old(self).capacity(),
            final(self).history() == old(self).history(),
            ({
                let tc = match old(self).target() {
                    Some(t) => t,
                    None => old(self).cur_col(),
                };
                &&& final(self).target() == Some(tc)
                &&& k_walk(old(self).chars(), old(self).cursor(), tc as nat, count as nat) == Some(
                    final(self).cursor(),
                )
            }),
    {
        let _ = self.k_checked(count);
    }

    /// The last newline at or before index `c`, when the cursor there is
    /// below the first row or on a newline; see `last_newline`.
    fn last_newline_at(&self, c: usize) -> (p: usize)
        requires
            self.wf(),
            c <= self.chars().len(),
            row_at(self.chars(), c as int) > 0 || (c < self.chars().len() && self.chars()[c as int]
                == '\n'),
        ensures
            p == last_newline(self.chars(), c as int),
    {
        let ghost t = self.chars();
        proof {
            lemma_newline_behind(t, c as int);
        }
        let n = self.len();
        let mut i = c;
        loop
            invariant
                self.wf(),
                t == self.chars(),
                n == t.len(),
                i <= c <= n,
                0 <= last_newline(t, c as int) <= i,
                last_newline(t, c as int) < n,
                t[last_newline(t, c as int)] == '\n',
                last_newline(t, c as int) == last_newline(t, i as int),
            decreases i,
        {
            if i < n && self.gap.get(i) == '\n' {
                return i;
            }
            assert(last_newline(t, i as int) == last_newline(t, i - 1));
            assert(last_newline(t, c as int) != i);
            i = i - 1;
        }
    }

    /// `k`, but it answers `false` where that one gives up: no character
    /// under the cursor below the first row, or more than a thousand steps
    /// back in one go; see `k_walk`.
    pub fn k_checked(&mut self, count: usize) -> (ok: bool)
        requires
            old(self).wf(),
        ensures
            final(self).wf(),
            final(self).chars() == old(self).chars(),
            final(self).capacity() == old(self).capacity(),
            final(self).history() == old(self).history(),
            ({
                let tc = match old(self).target() {
                    Some(t) => t,
                    None => old(self).cur_col(),
                };
                &&& final(self).target() == Some(tc)
                &&& ok == ((count == 0 || old(self).cursor() < old(self).chars().len() || row_at(
                    old(self).chars(),
                    old(self).cursor(),
                ) == 0) && k_walk(old(self).chars(), old(self).cursor(), tc as nat, count as nat)
                    is Some)
                &&& ok ==> k_walk(old(self).chars(), old(self).cursor(), tc as nat, count as nat)
                    == Some(final(self).cursor())
            }),
    {
        let ghost t = self.chars();
        let tc = self.take_target();
        proof {
            self.lemma_wf();
        }
        if count > 0 && self.cursor_index() >= self.len() && self.row_index() > 0 {
            return false;
        }
        let mut k: usize = 0;
        while k < count
            invariant
                self.wf(),
                self.chars() == t,
                t == old(self).chars(),
                k <= count,
                tc == match old(self).target() {
                    Some(t) => t,
                    None => old(self).cur_col(),
                },
                count > 0 ==> self.cursor() < t.len() || row_at(t, self.cursor()) == 0,
                count == 0 || old(self).cursor() < t.len() || row_at(t, old(self).cursor()) == 0,
                k_walk(t, old(self).cursor(), tc as nat, count as nat) == k_walk(
                    t,
                    self.cursor(),
                    tc as nat,
                    (count - k) as nat,
                ),
                self.capacity() == old(self).capacity(),
                self.target() == Some(tc),
                self.history() == old(self).history(),
            decreases count - k,
        {
            proof {
                self.lemma_wf();
            }
            if self.row_index() == 0 {
                return true;
            }
            let ghost c = self.cursor();
            proof {
                if c == 0 {
                    assert(t.take(0) =~= Seq::<char>::empty());
                }
                lemma_step_right(t, c - 1);
            }
            let ghost p = last_newline(t, c - 1);
            proof {
                lemma_newline_behind(t, c - 1);
            }
            let ce = self.cursor_index();
            let pe = self.last_newline_at(ce - 1);
            let colp = self.column_at(pe);
            if ce - pe > 1000 || colp > 1001 - (ce - pe) {
                return false;
            }
            self.left(1);
            while self.current_char() != '\n'
                invariant
                    self.wf(),
                    self.chars() == t,
                    p <= self.cursor() <= c - 1,
                    c < t.len(),
                    0 <= p,
                    t[p] == '\n',
                    forall|j: int| p < j <= c - 1 ==> t[j] != '\n',
                    self.capacity() == old(self).capacity(),
                    self.target() == Some(tc),
                    self.history() == old(self).history(),
                decreases self.cursor() - p,
            {
                self.left(1);
            }
            proof {
                assert(self.cursor() == p);
                self.lemma_wf();
            }
            while self.col_index() > 0
                invariant
                    self.wf(),
                    self.chars() == t,
                    p < t.len(),
                    self.cursor() <= p,
                    self.cur_col() <= col_at(t, p),
                    self.cursor() == p - (col_at(t, p) - self.cur_col()),
                    self.capacity() == old(self).capacity(),
                    self.target() == Some(tc),
                    self.history() == old(self).history(),
                decreases self.cur_col(),
            {
                proof {
                    self.lemma_wf();
                    crate::buffer::lemma_trailing_col_last(t.take(self.cursor()));
                    assert(t.take(self.cursor()).drop_last() =~= t.take(self.cursor() - 1));
                }
                self.left(1);
            }
            let ghost s = self.cursor();
            let mut m: usize = 0;
            let mut done = false;
            while m < tc && !done
                invariant
                    self.wf(),
                    self.chars() == t,
                    self.cursor() < t.len(),
                    m <= tc,
                    done ==> k_fwd(t, s, tc as nat) == self.cursor(),
                    !done ==> k_fwd(t, s, tc as nat) == k_fwd(t, self.cursor(), (tc - m) as nat),
                    self.capacity() == old(self).capacity(),
                    self.target() == Some(tc),
                    self.history() == old(self).history(),
                decreases tc - m + if done { 0int } else { 1int },
            {
                proof {
                    self.lemma_wf();
                }
                if self.current_char() == '\n' || !self.next_in_line() {
                    done = true;
                } else {
                    self.right(1);
                    m = m + 1;
                }
            }
            k = k + 1;
        }
    true
    }

    /// First index of row `r` and the index where that row ends.
    fn row_bounds(&self, r: usize) -> (b: (usize, usize))
        requires
            self.wf(),
        ensures
            b.0 == row_start(self.chars(), r as nat),
            b.1 == line_end_from(self.chars(), b.0 as int),
            b.0 <= b.1 <= self.chars().len(),
    {
        let ghost t = self.chars();
        proof {
            self.lemma_wf();
        }
        let n = self.gap.len();
        let mut i: usize = 0;
        let mut rows: usize = 0;
        while i < n && rows < r
            invariant
                self.wf(),
                t == self.chars(),
                n == t.len(),
                i <= n,
                rows == row_at(t, i as int),
                first_index_of_row(t, r as nat, 0) == first_index_of_row(t, r as nat, i as int),
            decreases n - i,
        {
            proof {
                lemma_step_right(t, i as int);
                crate::text::lemma_row_col_bound(t, i as int);
            }
            if self.gap.get(i) == '\n' {
                rows = rows + 1;
            }
            i = i + 1;
        }
        let start = i;
        let mut e = i;
        while e < n && self.gap.get(e) != '\n'
            invariant
                self.wf(),
                t == self.chars(),
                n == t.len(),
                start <= e <= n,
                line_end_from(t, start as int) == line_end_from(t, e as int),
            decreases n - e,
        {
            e = e + 1;
        }
        (start, e)
    }

    /// The characters of row `r` as `str::lines` gives them (empty past the
    /// last line).
    fn line_chars(&self, r: usize) -> (v: Vec<char>)
        requires
            self.wf(),
        ensures
            v@ == line_text(self.chars(), r as nat),
    {
        let ghost t = self.chars();
        let (start, end) = self.row_bounds(r);
        let mut v: Vec<char> = Vec::new();
        let mut i = start;
        while i < end
            invariant
                self.wf(),
                t == self.chars(),
                start <= i <= end <= t.len(),
                v@ == t.subrange(start as int, i as int),
            decreases end - i,
        {
            v.push(self.gap.get(i));
            i = i + 1;
            proof {
                assert(v@ =~= t.subrange(start as int, i as int));
            }
        }
        if end < self.gap.len() && v.len() > 0 && v[v.len() - 1] == '\r' {
            v.pop();
        }
        v
    }

    /// The line the cursor is on, as `str::lines` gives it.
    pub fn current_line(&self) -> (s: String)
        requires
            self.wf(),
        ensures
            s@ == line_text(self.chars(), self.cur_row() as nat),
    {
        let v = self.line_chars(self.row);
        string_of(v.as_slice())
    }

    /// Number of characters of row `row` as `str::lines` gives it.
    pub fn num_columns(&self, row: usize) -> (n: usize)
        requires
            self.wf(),
        ensures
            n == line_text(self.chars(), row as nat).len(),
    {
        let v = self.line_chars(row);
        v.len()
    }

    /// The character under the cursor, and a step right; `None` past the end.
    pub fn next(&mut self) -> (r: Option<char>)
        requires
            old(self).wf(),
        ensures
            final(self).wf(),
            final(self).chars() == old(self).chars(),
            final(self).capacity() == old(self).capacity(),
            final(self).target() == old(self).target(),
            final(self).history() == old(self).history(),
            old(self).cursor() < old(self).chars().len() ==> r == Some(
                old(self).chars()[old(self).cursor()],
            ) && final(self).cursor() == right1(old(self).chars(), old(self).cursor()),
            old(self).cursor() >= old(self).chars().len() ==> r is None && final(self).cursor()
                == old(self).cursor(),
    {
        proof {
            self.lemma_wf();
        }
        if self.gap.cursor_index() < self.gap.len() {
            let c = self.current_char();
            self.right(1);
            Some(c)
        } else {
            None
        }
    }

    /// Debug view: a newline, the storage, a newline, and a marker line as
    /// long as the allocated room plus one, with `'C'` at the cursor and
    /// `'D'` at the gap end.
    pub fn show(&self) -> (s: String)
        requires
            self.wf(),
        ensures
            exists|k: nat|
                k > self.capacity() && s@ == seq!['\n'] + self.cells() + seq!['\n']
                    + #[trigger] marker_line(k, self.cursor(), self.gap_end() as int),
    {
        proof {
            self.gap.lemma_wf();
        }
        let cap = self.gap.allocated();
        let d = self.gap.gap_end_index();
        let mut v: Vec<char> = vec!['\n'];
        let mut i: usize = 0;
        let n = self.gap.storage_len();
        while i < n
            invariant
                self.wf(),
                n == self.gap.capacity(),
                i <= n,
                v@ == seq!['\n'] + self.gap.cells().take(i as int),
            decreases n - i,
        {
            proof {
                self.gap.lemma_wf();
            }
            v.push(self.gap.cell(i));
            i = i + 1;
            proof {
                assert(v@ =~= seq!['\n'] + self.gap.cells().take(i as int));
            }
        }
        v.push('\n');
        let mut marks = vec!['.'; cap + 1];
        marks.set(self.gap.cursor_index(), 'C');
        marks.set(d, 'D');
        let mut k: usize = 0;
        while k < marks.len()
            invariant
                k <= marks.len(),
                v@ == seq!['\n'] + self.gap.cells() + seq!['\n'] + marks@.take(k as int),
            decreases marks.len() - k,
        {
            v.push(marks[k]);
            k = k + 1;
            proof {
                assert(v@ =~= seq!['\n'] + self.gap.cells() + seq!['\n'] + marks@.take(k as int));
            }
        }
        proof {
            assert(self.gap.cells().take(n as int) =~= self.gap.cells());
            assert(marks@.take(marks.len() as int) =~= marks@);
            assert(marks@ =~= marker_line(
                (cap + 1) as nat,
                self.cursor(),
                self.gap.gap_end() as int,
            ));
        }
        let out = string_of(v.as_slice());
        proof {
            assert(out@ == seq!['\n'] + self.cells() + seq!['\n'] + marker_line(
                (cap + 1) as nat,
                self.cursor(),
                self.gap_end() as int,
            ));
        }
        out
    }
}

} // verus!
