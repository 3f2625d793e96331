//! Laying highlighted text out in lines for the screen: one line per
//! newline-terminated line of the text, tabs expanded to blanks, each cell
//! keeping the class of its character.
use vstd::prelude::*;
use crate::highlight::Capture;

verus! {

/// A character on the screen with the class that styles it.
pub type Cell = (char, Capture);

/// The blanks a tab at column `col` stands for: up to the next multiple
/// of four.
pub open spec fn tab_width(col: nat) -> nat {
    (4 - col % 4) as nat
}

/// The lines finished so far, the line being filled, and the column that
/// the tab stops are counted from, after the cells `s`: a newline finishes
/// the line and starts the column at 0; a tab adds the blanks up to the
/// next tab stop of the column and moves the column on by twice their
/// number; any other character takes one column.
pub open spec fn layout_state(s: Seq<Cell>) -> (Seq<Seq<Cell>>, Seq<Cell>, nat)
    decreases s.len(),
{
    if s.len() == 0 {
        (Seq::empty(), Seq::empty(), 0)
    } else {
        let (done, cur, col) = layout_state(s.drop_last());
        let c = s.last();
        if c.0 == '\n' {
            (done.push(cur), Seq::empty(), 0)
        } else if c.0 == '\t' {
            let w = tab_width(col);
            (done, cur + Seq::new(w, |k: int| (' ', c.1)), col + 2 * w)
        } else {
            (done, cur.push(c), col + 1)
        }
    }
}

/// The lines of `s` on the screen: the newline-terminated lines, laid out;
/// what follows the last newline is not shown.
pub open spec fn layout_spec(s: Seq<Cell>) -> Seq<Seq<Cell>> {
    layout_state(s).0
}

/// The first `k` lines of `t`, as `str::lines` yields them, each followed
/// by a newline.
pub open spec fn terminated_lines_spec(t: Seq<char>, k: nat) -> Seq<char>
    decreases k,
{
    if k == 0 {
        Seq::empty()
    } else {
        terminated_lines_spec(t, (k - 1) as nat) + crate::text::line_text(t, (k - 1) as nat).push(
            '\n',
        )
    }
}

/// The text shown: every line of `text`, as `str::lines` yields it,
/// followed by a newline.
pub fn terminated_lines(text: &str) -> (r: Vec<char>)
    ensures
        r@ == terminated_lines_spec(text@, crate::text::line_count(text@)),
{
    let v = crate::text::chars_of(text);
    let n = crate::text::count_lines(&v);
    let mut out: Vec<char> = Vec::new();
    let mut k: usize = 0;
    while k < n
        invariant
            v@ == text@,
            n == crate::text::line_count(text@),
            k <= n,
            out@ == terminated_lines_spec(text@, k as nat),
        decreases n - k,
    {
        let mut line = crate::text::line_of(&v, k);
        line.push('\n');
        let ghost before = out@;
        out.append(&mut line);
        k = k + 1;
        proof {
            assert(out@ =~= terminated_lines_spec(text@, k as nat));
        }
    }
    out
}

/// Lays `cells` out in lines; see `layout_spec`.
pub fn layout(cells: &Vec<Cell>) -> (lines: Vec<Vec<Cell>>)
    requires
        cells.len() <= usize::MAX / 8,
    ensures
        lines@.len() == layout_spec(cells@).len(),
        forall|k: int| 0 <= k < lines@.len() ==> #[trigger] lines@[k]@ == layout_spec(cells@)[k],
{
    let mut done: Vec<Vec<Cell>> = Vec::new();
    let mut cur: Vec<Cell> = Vec::new();
    let mut col: usize = 0;
    let mut i: usize = 0;
    while i < cells.len()
        invariant
            i <= cells.len() <= usize::MAX / 8,
            col <= 8 * i,
            done@.len() == layout_state(cells@.take(i as int)).0.len(),
            forall|k: int|
                0 <= k < done@.len() ==> #[trigger] done@[k]@ == layout_state(
                    cells@.take(i as int),
                ).0[k],
            cur@ == layout_state(cells@.take(i as int)).1,
            col == layout_state(cells@.take(i as int)).2,
        decreases cells.len() - i,
    {
        proof {
            assert(cells@.take(i + 1).drop_last() =~= cells@.take(i as int));
            assert(cells@.take(i + 1).last() == cells@[i as int]);
        }
        let c = cells[i];
        if c.0 == '\n' {
            let line = cur;
            cur = Vec::new();
            done.push(line);
            col = 0;
        } else if c.0 == '\t' {
            let ghost before = cur@;
            let w = 4 - col % 4;
            let mut k: usize = 0;
            while k < w
                invariant
                    k <= w,
                    w == tab_width(col as nat),
                    cur@ == before + Seq::new(k as nat, |j: int| (' ', c.1)),
                decreases w - k,
            {
                cur.push((' ', c.1));
                k = k + 1;
                proof {
                    assert(cur@ =~= before + Seq::new(k as nat, |j: int| (' ', c.1)));
                }
            }
            col = col + 2 * w;
        } else {
            cur.push(c);
            col = col + 1;
        }
        i = i + 1;
    }
    proof {
        assert(cells@.take(cells.len() as int) =~= cells@);
    }
    done
}

/// The number of newline cells in `s`.
pub open spec fn newline_cells(s: Seq<Cell>) -> nat
    decreases s.len(),
{
    if s.len() == 0 {
        0
    } else {
        newline_cells(s.drop_last()) + if s.last().0 == '\n' {
            1nat
        } else {
            0nat
        }
    }
}

/// One line on the screen for each newline of the text, tabs or not.
pub proof fn law_layout_line_count(s: Seq<Cell>)
    ensures
        layout_spec(s).len() == newline_cells(s),
    decreases s.len(),
{
    if s.len() > 0 {
        law_layout_line_count(s.drop_last());
    }
}

/// After the cells `p`, a start of line (nothing yet, or a newline last),
/// the cells `a` with no newline and no tab fill the line being laid out
/// as they are, one column each.
proof fn lemma_plain_cells(p: Seq<Cell>, a: Seq<Cell>, k: int)
    requires
        p.len() == 0 || p.last().0 == '\n',
        0 <= k <= a.len(),
        forall|i: int| 0 <= i < a.len() ==> (#[trigger] a[i]).0 != '\n' && a[i].0 != '\t',
    ensures
        layout_state(p + a.take(k)) == (layout_state(p).0, a.take(k), k as nat),
    decreases k,
{
    if k == 0 {
        assert(p + a.take(0) =~= p);
        if p.len() > 0 {
            assert(layout_state(p).1 == Seq::<Cell>::empty());
        }
    } else {
        lemma_plain_cells(p, a, k - 1);
        assert((p + a.take(k)).drop_last() =~= p + a.take(k - 1));
        assert((p + a.take(k)).last() == a[k - 1]);
        assert(a.take(k - 1).push(a[k - 1]) =~= a.take(k));
    }
}

/// A line with no tab is shown as it is: after the lines before it, it is
/// one more line on the screen, holding its cells.
pub proof fn law_plain_line_shown_as_is(p: Seq<Cell>, a: Seq<Cell>, x: Capture)
    requires
        p.len() == 0 || p.last().0 == '\n',
        forall|i: int| 0 <= i < a.len() ==> (#[trigger] a[i]).0 != '\n' && a[i].0 != '\t',
    ensures
        layout_spec(p + a.push(('\n', x))) == layout_spec(p).push(a),
{
    lemma_plain_cells(p, a, a.len() as int);
    assert(a.take(a.len() as int) =~= a);
    let s = p + a.push(('\n', x));
    assert(s.drop_last() =~= p + a);
    assert(s.last() == ('\n', x));
}

/// A tab at the start of a line is shown as four blanks of its class.
pub proof fn law_leading_tab_is_four_blanks(p: Seq<Cell>, x: Capture)
    requires
        p.len() == 0 || p.last().0 == '\n',
    ensures
        layout_state(p.push(('\t', x))).1 == seq![(' ', x), (' ', x), (' ', x), (' ', x)],
{
    lemma_plain_cells(p, Seq::<Cell>::empty(), 0);
    assert(p + Seq::<Cell>::empty().take(0) =~= p);
    assert(p.push(('\t', x)).drop_last() =~= p);
    assert(Seq::<Cell>::empty() + Seq::new(4, |k: int| (' ', x)) =~= seq![(' ', x), (' ', x), (' ', x), (' ', x)]);
}

} // verus!
