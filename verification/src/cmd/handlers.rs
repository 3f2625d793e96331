//! What the editor does for a command once its keys match: enter insert
//! mode, append, delete or change a text object, move, undo; and running a
//! parsed command.
use vstd::prelude::*;
use super::{CmdBuf, Command, Movement};
use super::motion::{movement_span_spec, movement_end_spec};
use crate::app::{App, AppEvent, Mode, same_buf, popped_count, count_fits};
use crate::buffer::{Buffer, eol_stop, eol_column, position_target, right1};
use crate::buffer::scan::{span_spec, delete_end, delete_span_ok, insert_text_spec};
use crate::digits::extract_count_spec;
use crate::history::Change;
use crate::pattern::Motion;
use crate::span::{Position, Span};
use crate::text::{chars_of, string_of, row_at, col_at};
use crate::textobject::{
    Boundary, MatchResult, Pattern, TextObject, parse_textobject, parse_textobject_spec,
    pattern_match_spec, rank,
};

verus! {

/// How a command can fail: with a message for the status line, or
/// by giving up where the editor cannot go on.
pub enum CmdError {
    Message(String),
    GaveUp,
}

/// The commands that typed keys are matched against.
#[derive(Debug, Clone, Copy, PartialEq, Eq, Structural)]
pub enum Handler {
    Insert,
    Append,
    Delete,
    Change,
    Movement,
}

/// What `eol` does to a buffer `a`, giving `b`.
pub open spec fn eol_post(a: Buffer, b: Buffer) -> bool {
    &&& b.chars() == a.chars()
    &&& b.capacity() == a.capacity()
    &&& b.history() == a.history()
    &&& {
        let j = eol_stop(a.chars(), a.cursor());
        if j - a.cursor() < 150 {
            b.cursor() == j && b.target() == Some(eol_column())
        } else {
            b.cursor() == a.cursor() + 150 && b.target() == a.target()
        }
    }
}

/// The span of `n` of `o` with `b` at the cursor of `a`.
pub open spec fn object_span(a: Buffer, o: TextObject, b: Boundary, n: usize) -> Option<Span> {
    if a.cursor() < a.chars().len() {
        span_spec(a.chars(), a.cursor(), a.cur_row(), a.cur_col(), Motion { count: Some(n), boundary: b, object: o })
    } else {
        None
    }
}

/// Deleting `span` from `a` and recording the change gives `b`.
pub open spec fn deleted_and_recorded(a: Buffer, b: Buffer, span: Span, include_end: bool) -> bool {
    let t = a.chars();
    let c1 = position_target(t, a.cursor(), span.start.row as int, span.start.col as int);
    let e = delete_end(t, span.end, include_end)->0;
    let p = a.history().position();
    &&& b.cursor() == c1
    &&& b.chars() == t.take(c1) + t.skip(e)
    &&& b.capacity() == a.capacity()
    &&& b.target() == a.target()
    &&& b.history().position() == p + 1
    &&& b.history()@.len() == p + 1
    &&& b.history()@.take(p as int) == a.history()@.take(p as int)
    &&& b.history()@[p as int].span == span
    &&& b.history()@[p as int].old@ == t.subrange(c1, e)
    &&& b.history()@[p as int].new@ == Seq::<char>::empty()
}

/// Undo right after a recorded deletion gives the text back: writing the
/// recorded old text back at the recorded span's start restores what was
/// there, when the span starts at a position of the text.
pub proof fn law_undo_after_delete(a: Buffer, b: Buffer, span: Span, include_end: bool)
    requires
        a.wf(),
        b.wf(),
        deleted_and_recorded(a, b, span, include_end),
        delete_span_ok(a.chars(), a.cursor(), span, include_end),
        exists|i: int|
            0 <= i <= a.chars().len() && row_at(a.chars(), i) == span.start.row && col_at(
                a.chars(),
                i,
            ) == span.start.col,
    ensures
        ({
            let ch = b.history()@[b.history().position() - 1];
            insert_text_spec(
                b.chars(),
                b.cursor(),
                Position { row: b.cur_row(), col: b.cur_col() },
                ch.span.start,
                ch.old@,
            ).0 == a.chars()
        }),
{
    let t = a.chars();
    a.lemma_wf();
    b.lemma_wf();
    let i = choose|i: int|
        0 <= i <= t.len() && row_at(t, i) == span.start.row && col_at(t, i) == span.start.col;
    crate::text::lemma_row_col_bound(t, i);
    crate::text::lemma_newlines_append(t.take(i), t.skip(i));
    assert(t.take(i) + t.skip(i) =~= t);
    crate::buffer::scan::lemma_seek_exact(
        t,
        span.start.row as int,
        span.start.col as int,
        0,
        i,
    );
    crate::buffer::scan::law_undo_restores_deleted_text(t, a.cursor(), span, include_end);
}

/// Deleting the object `n` `o` `b` at the cursor of `a` does not give up.
pub open spec fn object_delete_ok(a: Buffer, o: TextObject, b: Boundary, n: usize, include_end: bool) -> bool {
    &&& object_span(a, o, b, n) is Some
    &&& delete_span_ok(a.chars(), a.cursor(), object_span(a, o, b, n)->0, include_end)
}

/// Trusted: `format!` of `text` followed by the `Debug` form of `c` in
/// single quotes; nothing is stated of the `Debug` text.
#[verifier::external_body]
fn quoted_debug(text: &str, c: Option<char>) -> (s: String) {
    format!("{}'{:?}'", text, c)
}

/// Deletes the object and records the change, or gives up where the
/// deletion cannot be made.
fn delete_object(app: &mut App, o: TextObject, b: Boundary, n: usize, include_end: bool) -> (r:
    Result<(), CmdError>)
    requires
        old(app).wf(),
    ensures
        final(app).wf(),
        final(app).cmdbuf@ == old(app).cmdbuf@,
        final(app).events@ == old(app).events@,
        final(app).mode == old(app).mode,
        final(app).msg == old(app).msg,
        final(app).running == old(app).running,
        final(app).filename == old(app).filename,
        (r is Ok) == object_delete_ok(old(app).buf, o, b, n, include_end),
        r is Err ==> (r matches Err(CmdError::GaveUp)),
        r is Ok ==> deleted_and_recorded(
            old(app).buf,
            final(app).buf,
            object_span(old(app).buf, o, b, n)->0,
            include_end,
        ),
{
    if app.buf.cursor_index() >= app.buf.len() {
        return Err(CmdError::GaveUp);
    }
    let span = match app.buf.span_for_textobject_checked(o, b, n) {
        Some(s) => s,
        None => {
            return Err(CmdError::GaveUp);
        },
    };
    let ghost before = app.buf;
    let old_text = match app.buf.delete_span_checked(span, include_end) {
        Some(d) => d,
        None => {
            return Err(CmdError::GaveUp);
        },
    };
    proof {
        before.lemma_wf();
        before.history().lemma_wf();
    }
    let ghost mid = app.buf;
    app.buf.register_change(Change { span, old: old_text, new: String::new() });
    proof {
        let p = before.history().position();
        assert(mid.history() == before.history());
        assert(app.buf.history()@.take(p as int) =~= before.history()@.take(p as int));
    }
    Ok(())
}

/// What `insert` does: it sends the change to insert mode.
pub open spec fn insert_post(a0: App, a1: App, r: Result<(), CmdError>) -> bool {
    &&& r is Ok
    &&& a1.events@ == a0.events@.push(AppEvent::ModeChange(Mode::Insert))
    &&& a1.buf == a0.buf
    &&& a1.cmdbuf@ == a0.cmdbuf@
    &&& kept_modes(a0, a1)
}

/// `i`: enter insert mode.
pub fn insert(app: &mut App) -> (r: Result<(), CmdError>)
    ensures
        insert_post(*old(app), *final(app), r),
{
    app.send(AppEvent::ModeChange(Mode::Insert));
    Ok(())
}

/// The command that enters insert mode.
pub struct Insert {}

impl Insert {
    pub fn handle(&self, app: &mut App)
        ensures
            final(app).events@ == old(app).events@.push(AppEvent::ModeChange(Mode::Insert)),
            final(app).buf == old(app).buf,
            final(app).cmdbuf@ == old(app).cmdbuf@,
            final(app).mode == old(app).mode,
            final(app).msg == old(app).msg,
            final(app).running == old(app).running,
    {
        app.send(AppEvent::ModeChange(Mode::Insert));
    }
}

/// The command that writes the buffer to its file; the program around
/// the editor does the writing.
pub struct BufWrite {}

impl BufWrite {
    /// The command's name.
    pub fn to_string(&self) -> (s: String)
        ensures
            s@ == seq!['w'],
    {
        let v = vec!['w'];
        string_of(v.as_slice())
    }
}

/// What `append` does: `a` steps right, `A` goes to the end of the line,
/// and both enter insert mode; the first key is taken out of the command
/// keys.
pub open spec fn append_post(a0: App, a1: App, r: Result<(), CmdError>) -> bool {
    let s = a0.cmdbuf@;
    let a = a0.buf;
    let b = a1.buf;
    let entered = a1.events@ == a0.events@.push(AppEvent::ModeChange(Mode::Insert));
    &&& a1.wf()
    &&& kept_modes(a0, a1)
    &&& s.len() > 0 ==> a1.cmdbuf@ == s.drop_first()
    &&& s.len() == 0 ==> a1.cmdbuf@ == s
    &&& (s.len() == 0 || (s[0] != 'a' && s[0] != 'A')) ==> ((r matches Err(
        CmdError::Message(_),
    )) && same_buf(a, b) && a1.events@ == a0.events@)
    &&& (s.len() > 0 && s[0] == 'a') ==> if a.cursor() < a.chars().len() {
        &&& r is Ok
        &&& entered
        &&& b.chars() == a.chars()
        &&& b.cursor() == right1(a.chars(), a.cursor())
        &&& b.capacity() == a.capacity()
        &&& b.target() == a.target()
        &&& b.history() == a.history()
    } else {
        (r matches Err(CmdError::GaveUp))
    }
    &&& (s.len() > 0 && s[0] == 'A') ==> if a.capacity() > 0 {
        r is Ok && entered && eol_post(a, b)
    } else {
        (r matches Err(CmdError::GaveUp))
    }
}

/// Mode, message, running flag and file name are kept.
pub open spec fn kept_modes(a0: App, a1: App) -> bool {
    &&& a1.mode == a0.mode
    &&& a1.msg == a0.msg
    &&& a1.running == a0.running
    &&& a1.filename == a0.filename
}

/// `a`: right one and insert; `A`: to the end of the line and insert; see
/// `append_post`.
pub fn append(app: &mut App) -> (r: Result<(), CmdError>)
    requires
        old(app).wf(),
    ensures
        append_post(*old(app), *final(app), r),
{
    proof {
        app.buf.lemma_wf();
    }
    let first = app.cmdbuf.pop_left();
    match first {
        Some('a') => {
            if app.buf.cursor_index() >= app.buf.len() {
                return Err(CmdError::GaveUp);
            }
            app.buf.right(1);
        },
        Some('A') => {
            if app.buf.storage_size() == 0 {
                return Err(CmdError::GaveUp);
            }
            app.buf.eol();
        },
        other => {
            return Err(CmdError::Message(quoted_debug("Unexpected ", other)));
        },
    }
    app.send(AppEvent::ModeChange(Mode::Insert));
    Ok(())
}

/// What `delete` does: takes the count and the `d` out of the command
/// keys, reads the rest as a text object and deletes it (with the end
/// included unless the boundary is `Current`), recording the change.
pub open spec fn delete_post(a0: App, a1: App, r: Result<(), CmdError>) -> bool {
    &&& a1.wf()
    &&& kept_modes(a0, a1)
    &&& a1.events@ == a0.events@
    &&& !count_fits(a0.cmdbuf@) ==> (r matches Err(CmdError::GaveUp))
    &&& count_fits(a0.cmdbuf@) ==> {
        let (n0, s1) = popped_count(a0.cmdbuf@);
        if s1.len() == 0 || s1[0] != 'd' {
            (r matches Err(CmdError::GaveUp))
        } else {
            let rest = s1.drop_first();
            &&& a1.cmdbuf@ == rest
            &&& match parse_textobject_spec(rest).0 {
                None => (r matches Err(CmdError::GaveUp)),
                Some((o, b, oc)) => {
                    let n = match oc {
                        Some(k) => k,
                        None => n0,
                    };
                    let inc = b != Boundary::Current;
                    &&& (r is Ok) == object_delete_ok(a0.buf, o, b, n, inc)
                    &&& r is Err ==> (r matches Err(CmdError::GaveUp))
                    &&& r is Ok ==> deleted_and_recorded(
                        a0.buf,
                        a1.buf,
                        object_span(a0.buf, o, b, n)->0,
                        inc,
                    )
                },
            }
        }
    }
}

/// Undo right after a successful `d<object>` gives the text back, when the
/// deleted object's span starts at a position of the text: the change that
/// `delete` records, written back by undo, restores what was there.
pub proof fn law_delete_then_undo(a0: App, a1: App, r: Result<(), CmdError>)
    requires
        a0.wf(),
        delete_post(a0, a1, r),
        r is Ok,
        ({
            let (n0, s1) = popped_count(a0.cmdbuf@);
            let rest = s1.drop_first();
            parse_textobject_spec(rest).0 matches Some((o, b, oc)) && ({
                let n = match oc {
                    Some(k) => k,
                    None => n0,
                };
                let sp = object_span(a0.buf, o, b, n)->0;
                exists|i: int|
                    0 <= i <= a0.buf.chars().len() && row_at(a0.buf.chars(), i) == sp.start.row
                        && col_at(a0.buf.chars(), i) == sp.start.col
            })
        }),
    ensures
        ({
            let b = a1.buf;
            let ch = b.history()@[b.history().position() - 1];
            insert_text_spec(
                b.chars(),
                b.cursor(),
                Position { row: b.cur_row(), col: b.cur_col() },
                ch.span.start,
                ch.old@,
            ).0 == a0.buf.chars()
        }),
{
    let (n0, s1) = popped_count(a0.cmdbuf@);
    let rest = s1.drop_first();
    if let Some((o, b, oc)) = parse_textobject_spec(rest).0 {
        let n = match oc {
            Some(k) => k,
            None => n0,
        };
        let inc = b != Boundary::Current;
        let sp = object_span(a0.buf, o, b, n)->0;
        law_undo_after_delete(a0.buf, a1.buf, sp, inc);
    }
}

/// `[count]d<object>`; see `delete_post`.
pub fn delete(app: &mut App) -> (r: Result<(), CmdError>)
    requires
        old(app).wf(),
    ensures
        delete_post(*old(app), *final(app), r),
{
    if !app.cmdbuf.count_fits() {
        return Err(CmdError::GaveUp);
    }
    let count = app.cmdbuf.pop_count(1);
    match app.cmdbuf.pop_left() {
        Some('d') => {},
        _ => {
            return Err(CmdError::GaveUp);
        },
    }
    let text = app.cmdbuf.text();
    let (parsed, _) = parse_textobject(&text);
    match parsed {
        Some((object, boundary, obj_count)) => {
            let n = match obj_count {
                Some(k) => k,
                None => count,
            };
            let include_end = boundary != Boundary::Current;
            delete_object(app, object, boundary, n, include_end)
        },
        None => Err(CmdError::GaveUp),
    }
}

/// What `change` does: takes the `c` out of the command keys, reads the
/// rest as a text object, deletes one of it (end not included), records the
/// change and enters insert mode.
pub open spec fn change_post(a0: App, a1: App, r: Result<(), CmdError>) -> bool {
    let s = a0.cmdbuf@;
    &&& a1.wf()
    &&& kept_modes(a0, a1)
    &&& if s.len() == 0 || s[0] != 'c' {
        (r matches Err(CmdError::GaveUp))
    } else {
        let rest = s.drop_first();
        &&& a1.cmdbuf@ == rest
        &&& match parse_textobject_spec(rest).0 {
            None => (r matches Err(CmdError::Message(m)) && m@ == "No motion found for change"@)
                && same_buf(a0.buf, a1.buf) && a1.events@ == a0.events@,
            Some((o, b, _)) => {
                &&& (r is Ok) == object_delete_ok(a0.buf, o, b, 1, false)
                &&& r is Err ==> (r matches Err(CmdError::GaveUp))
                &&& r is Ok ==> deleted_and_recorded(
                    a0.buf,
                    a1.buf,
                    object_span(a0.buf, o, b, 1)->0,
                    false,
                ) && a1.events@ == a0.events@.push(AppEvent::ModeChange(Mode::Insert))
            },
        }
    }
}

/// `c<object>`; see `change_post`.
pub fn change(app: &mut App) -> (r: Result<(), CmdError>)
    requires
        old(app).wf(),
    ensures
        change_post(*old(app), *final(app), r),
{
    match app.cmdbuf.pop_left() {
        Some('c') => {},
        _ => {
            return Err(CmdError::GaveUp);
        },
    }
    let text = app.cmdbuf.text();
    let (parsed, _) = parse_textobject(&text);
    match parsed {
        Some((object, boundary, _)) => {
            match delete_object(app, object, boundary, 1, false) {
                Ok(()) => {},
                Err(e) => {
                    return Err(e);
                },
            }
            app.send(AppEvent::ModeChange(Mode::Insert));
            Ok(())
        },
        None => {
            let v = chars_of("No motion found for change");
            Err(CmdError::Message(string_of(v.as_slice())))
        },
    }
}

/// Horizontal movements set the column that vertical ones aim for: `$`
/// aims at the end of lines, `h`, `l`, `0`, `w` at where they land.
pub fn should_update_target_col(movement: &Movement) -> (r: (bool, Option<usize>))
    ensures
        r == (if movement.char == '$' {
            (true, Some(9999usize))
        } else if movement.char == 'h' || movement.char == 'l' || movement.char == '0'
            || movement.char == 'w' {
            (true, None::<usize>)
        } else {
            (false, None::<usize>)
        }),
{
    if movement.char == '$' {
        (true, Some(9999))
    } else if movement.char == 'h' || movement.char == 'l' || movement.char == '0'
        || movement.char == 'w' {
        (true, None)
    } else {
        (false, None)
    }
}

/// What `movement` does: the cursor goes where the movement takes it, and
/// the column vertical moves aim for is updated; it gives up where the
/// movement or the move does.
pub open spec fn movement_post(a0: App, a1: App, m: Movement, r: Result<(), CmdError>) -> bool {
    let a = a0.buf;
    let b = a1.buf;
    let sp = movement_end_spec(a.chars(), a.cursor(), a.target(), m);
    &&& a1.wf()
    &&& kept_modes(a0, a1)
    &&& a1.cmdbuf@ == a0.cmdbuf@
    &&& a1.events@ == a0.events@
    &&& r is Err ==> (r matches Err(CmdError::GaveUp))
    &&& (r is Ok) == (sp is Some)
    &&& r is Ok ==> {
        let end = sp->0;
        &&& b.chars() == a.chars()
        &&& b.capacity() == a.capacity()
        &&& b.history() == a.history()
        &&& b.cursor() == position_target(a.chars(), a.cursor(), end.row as int, end.col as int)
        &&& b.target() == if m.char == '$' {
            Some(9999usize)
        } else if m.char == 'h' || m.char == 'l' || m.char == '0' || m.char == 'w' {
            Some(end.col)
        } else {
            a.target()
        }
    }
}

/// Moves the cursor along `movement`; see `movement_post`.
pub fn movement(app: &mut App, m: &Movement) -> (r: Result<(), CmdError>)
    requires
        old(app).wf(),
    ensures
        movement_post(*old(app), *final(app), *m, r),
{
    proof {
        app.buf.lemma_wf();
    }
    let target_pos = match m.end_checked(&app.buf) {
        Some(p) => p,
        None => {
            return Err(CmdError::GaveUp);
        },
    };
    proof {
        crate::text::lemma_row_col_bound(
            app.buf.chars(),
            movement_span_spec_end(app.buf.chars(), app.buf.cursor(), app.buf.target(), *m),
        );
    }
    app.buf.position(target_pos.row, target_pos.col);
    let (should_update, target_col) = should_update_target_col(m);
    if should_update {
        let tc = match target_col {
            Some(c) => Some(c),
            None => Some(target_pos.col),
        };
        app.buf.set_target_col(tc);
    }
    Ok(())
}

/// The index where the span of a movement ends, when it has one.
spec fn movement_span_spec_end(t: Seq<char>, c: int, target: Option<usize>, m: Movement) -> int {
    super::motion::movement_target(t, c, target, m)->0
}

/// Undoes the last change; see `Buffer::undo`.
pub fn undo(app: &mut App) -> (r: Result<(), CmdError>)
    requires
        old(app).wf(),
        old(app).buf.history().position() > 0 ==> ({
            let b = old(app).buf;
            let ch = b.history()@[b.history().position() - 1];
            &&& b.chars().len() + ch.old@.len() <= usize::MAX / 16
            &&& ch.old@.len() > 0 ==> b.capacity() > 0
        }),
    ensures
        r is Ok,
        final(app).wf(),
        final(app).cmdbuf@ == old(app).cmdbuf@,
        final(app).events@ == old(app).events@,
        final(app).mode == old(app).mode,
        final(app).msg == old(app).msg,
        final(app).running == old(app).running,
        final(app).buf.history()@ == old(app).buf.history()@,
        ({
            let b = old(app).buf;
            let p = b.history().position();
            &&& p == 0 ==> final(app).buf.chars() == b.chars() && final(app).buf.cursor()
                == b.cursor() && final(app).buf.history().position() == 0
            &&& p > 0 ==> {
                let ch = b.history()@[p - 1];
                &&& final(app).buf.history().position() == p - 1
                &&& insert_text_spec(
                    b.chars(),
                    b.cursor(),
                    Position { row: b.cur_row(), col: b.cur_col() },
                    ch.span.start,
                    ch.old@,
                ) == (final(app).buf.chars(), final(app).buf.cursor())
            }
        }),
{
    app.buf.undo();
    Ok(())
}

/// A pattern as values: its verb and its alternatives.
pub type PatternModel = (Option<char>, Seq<(Seq<crate::textobject::Criteria>, bool)>);

/// The patterns of the commands, as values, with their commands: `i`,
/// `a` or `A`, `d<motion>`, `c<motion>`, `<count>w` or `<count>e`.
pub open spec fn handler_models() -> Seq<(PatternModel, Handler)> {
    seq![
        (crate::textobject::pattern_of("i"@), Handler::Insert),
        ((None, crate::textobject::pattern_of("a"@).1 + crate::textobject::pattern_of("A"@).1), Handler::Append),
        (crate::textobject::pattern_of("d<motion>"@), Handler::Delete),
        (crate::textobject::pattern_of("c<motion>"@), Handler::Change),
        ((None, crate::textobject::pattern_of("<count>w"@).1 + crate::textobject::pattern_of("<count>e"@).1), Handler::Movement),
    ]
}

/// How keys `t` match pattern `pm`.
pub open spec fn model_result(pm: PatternModel, t: Seq<char>) -> MatchResult {
    pattern_match_spec(pm.0, pm.1, t)
}

/// Among the first `i + 1` entries, the last one whose match with `t` is
/// best.
pub open spec fn best_index(hs: Seq<(PatternModel, Handler)>, t: Seq<char>, i: int) -> int
    decreases i,
{
    if i <= 0 {
        0
    } else {
        let j = best_index(hs, t, i - 1);
        if rank(model_result(hs[i].0, t)) >= rank(model_result(hs[j].0, t)) {
            i
        } else {
            j
        }
    }
}

/// The best match of keys `t` with the entries `hs` and its command (the
/// last of equally good ones).
pub open spec fn best_of(hs: Seq<(PatternModel, Handler)>, t: Seq<char>) -> (MatchResult, Handler) {
    let i = best_index(hs, t, hs.len() - 1);
    (model_result(hs[i].0, t), hs[i].1)
}

proof fn lemma_best_index_bound(hs: Seq<(PatternModel, Handler)>, t: Seq<char>, i: int)
    requires
        0 <= i,
    ensures
        0 <= best_index(hs, t, i) <= i,
    decreases i,
{
    if i > 0 {
        lemma_best_index_bound(hs, t, i - 1);
    }
}

proof fn lemma_no_motion_tag(s: Seq<char>)
    requires
        s.len() <= 8,
        s.len() == 8 ==> s[1] != 'm',
    ensures
        !crate::textobject::contains_seq(s, crate::textobject::motion_tag()),
{
    if crate::textobject::contains_seq(s, crate::textobject::motion_tag()) {
        let i = choose|i: int|
            0 <= i && i + crate::textobject::motion_tag().len() <= s.len()
                && #[trigger] s.subrange(i, i + crate::textobject::motion_tag().len())
                == crate::textobject::motion_tag();
        assert(s.subrange(i, i + 8)[1] == s[1]);
    }
}

/// The patterns of the commands with their commands; see `handler_models`.
pub fn create_command_handlers() -> (hs: Vec<(Pattern, Handler)>)
    ensures
        hs@.len() == handler_models().len(),
        forall|i: int|
            0 <= i < hs@.len() ==> (#[trigger] hs@[i].0.verb_of(), hs@[i].0.alternatives())
                == handler_models()[i].0 && hs@[i].1 == handler_models()[i].1,
{
    proof {
        reveal_strlit("i");
        reveal_strlit("a");
        reveal_strlit("A");
        reveal_strlit("d<motion>");
        reveal_strlit("c<motion>");
        reveal_strlit("<count>w");
        reveal_strlit("<count>e");
        lemma_no_motion_tag("i"@);
        lemma_no_motion_tag("a"@);
        lemma_no_motion_tag("A"@);
        lemma_no_motion_tag("<count>w"@);
        lemma_no_motion_tag("<count>e"@);
        assert("d<motion>"@.drop_first() =~= crate::textobject::motion_tag());
        assert("c<motion>"@.drop_first() =~= crate::textobject::motion_tag());
    }
    let mut hs: Vec<(Pattern, Handler)> = Vec::new();
    hs.push((Pattern::from("i"), Handler::Insert));
    hs.push((Pattern::from("a").union(Pattern::from("A")), Handler::Append));
    hs.push((Pattern::from("d<motion>"), Handler::Delete));
    hs.push((Pattern::from("c<motion>"), Handler::Change));
    hs.push((Pattern::from("<count>w").union(Pattern::from("<count>e")), Handler::Movement));
    hs
}

/// The rank of a match result.
fn rank_of(m: MatchResult) -> (r: u8)
    ensures
        r == rank(m),
{
    match m {
        MatchResult::NoMatch => 0,
        MatchResult::PartialMatch => 1,
        MatchResult::Match => 2,
    }
}

/// The best match of `keys` with the entries and its command (the last of
/// equally good ones, as `Iterator::max_by` picks); see `best_of`.
pub fn best_handler(hs: &Vec<(Pattern, Handler)>, keys: &Vec<char>) -> (r: (MatchResult, Handler))
    requires
        hs@.len() > 0,
    ensures
        r == best_of(hs@.map_values(|e: (Pattern, Handler)| ((e.0.verb_of(), e.0.alternatives()), e.1)), keys@),
{
    let ghost ms = hs@.map_values(|e: (Pattern, Handler)| ((e.0.verb_of(), e.0.alternatives()), e.1));
    let mut best = hs[0].0.matches_chars(keys);
    let mut bi: usize = 0;
    let mut i: usize = 1;
    assert(ms[0].0 == (hs@[0].0.verb_of(), hs@[0].0.alternatives()));
    while i < hs.len()
        invariant
            1 <= i <= hs.len(),
            ms == hs@.map_values(|e: (Pattern, Handler)| ((e.0.verb_of(), e.0.alternatives()), e.1)),
            bi == best_index(ms, keys@, i - 1),
            bi < i,
            best == model_result(ms[bi as int].0, keys@),
        decreases hs.len() - i,
    {
        let m = hs[i].0.matches_chars(keys);
        assert(ms[i as int].0 == (hs@[i as int].0.verb_of(), hs@[i as int].0.alternatives()));
        if rank_of(m) >= rank_of(best) {
            best = m;
            bi = i;
        }
        i = i + 1;
    }
    assert(ms[bi as int].1 == hs@[bi as int].1);
    (best, hs[bi].1)
}

/// The movement that the keys of a `<count>w`-like command make.
pub open spec fn keys_movement(s: Seq<char>) -> Option<Movement> {
    let (count, rest) = extract_count_spec(s);
    if rest.len() == 1 {
        Some(Movement { count, char: rest[0] })
    } else {
        None
    }
}

/// What running command `h` does; see the commands' own descriptions. The
/// movement command reads its count and key from the command keys.
pub open spec fn handler_post(h: Handler, a0: App, a1: App, r: Result<(), CmdError>) -> bool {
    match h {
        Handler::Insert => insert_post(a0, a1, r),
        Handler::Append => append_post(a0, a1, r),
        Handler::Delete => delete_post(a0, a1, r),
        Handler::Change => change_post(a0, a1, r),
        Handler::Movement => match keys_movement(a0.cmdbuf@) {
            Some(m) => movement_post(a0, a1, m, r),
            None => a1.wf() && (r matches Err(CmdError::GaveUp)),
        },
    }
}

/// Runs command `h`; see `handler_post`.
pub fn run_handler(h: Handler, app: &mut App) -> (r: Result<(), CmdError>)
    requires
        old(app).wf(),
    ensures
        handler_post(h, *old(app), *final(app), r),
{
    match h {
        Handler::Insert => insert(app),
        Handler::Append => append(app),
        Handler::Delete => delete(app),
        Handler::Change => change(app),
        Handler::Movement => {
            let keys = app.cmdbuf.keys();
            let (count, rest) = crate::digits::extract_count(keys.as_slice());
            if rest.len() == 1 {
                let m = Movement { count, char: rest[0] };
                movement(app, &m)
            } else {
                Err(CmdError::GaveUp)
            }
        },
    }
}

/// The span a delete command covers at the cursor of `a`.
pub open spec fn delete_command_span(a: Buffer, d: super::Delete) -> Option<Span> {
    match d.text_object {
        Some((b, o)) => object_span(
            a,
            o,
            b,
            match d.count {
                Some(n) => n,
                None => 1,
            },
        ),
        None => match d.movement {
            Some(m) => movement_span_spec(a.chars(), a.cursor(), a.target(), m),
            None => None,
        },
    }
}

/// What running a parsed command does: a movement moves; a delete deletes
/// its span (end included) and records the change; an invalid command is
/// refused.
pub open spec fn execute_post(c: Command, a0: App, a1: App, r: Result<(), CmdError>) -> bool {
    match c {
        Command::Invalid => (r matches Err(CmdError::Message(m)) && m@ == "Invalid command"@) && a1
            == a0,
        Command::Movement(m) => movement_post(a0, a1, m, r),
        Command::Delete(d) => {
            let sp = delete_command_span(a0.buf, d);
            &&& a1.wf()
            &&& kept_modes(a0, a1)
            &&& a1.cmdbuf@ == a0.cmdbuf@
            &&& a1.events@ == a0.events@
            &&& r is Err ==> (r matches Err(CmdError::GaveUp))
            &&& (r is Ok) == (sp is Some && delete_span_ok(a0.buf.chars(), a0.buf.cursor(), sp->0, true))
            &&& r is Ok ==> deleted_and_recorded(a0.buf, a1.buf, sp->0, true)
        },
    }
}

impl Command {
    /// Runs the command on the editor; see `execute_post`.
    pub fn execute(&self, app: &mut App) -> (r: Result<(), CmdError>)
        requires
            old(app).wf(),
        ensures
            execute_post(*self, *old(app), *final(app), r),
    {
        match self {
            Command::Movement(m) => movement(app, m),
            Command::Delete(d) => {
                let span = match d.text_object {
                    Some((boundary, object)) => {
                        if app.buf.cursor_index() >= app.buf.len() {
                            return Err(CmdError::GaveUp);
                        }
                        let n = match d.count {
                            Some(k) => k,
                            None => 1,
                        };
                        app.buf.span_for_textobject_checked(object, boundary, n)
                    },
                    None => match d.movement {
                        Some(m) => m.span_checked(&app.buf),
                        None => None,
                    },
                };
                let span = match span {
                    Some(s) => s,
                    None => {
                        return Err(CmdError::GaveUp);
                    },
                };
                let ghost before = app.buf;
                let old_text = match app.buf.delete_span_checked(span, true) {
                    Some(t) => t,
                    None => {
                        return Err(CmdError::GaveUp);
                    },
                };
                proof {
                    before.lemma_wf();
                    before.history().lemma_wf();
                }
                let ghost mid = app.buf;
                app.buf.register_change(Change { span, old: old_text, new: String::new() });
                proof {
                    let p = before.history().position();
                    assert(mid.history() == before.history());
                    assert(app.buf.history()@.take(p as int) =~= before.history()@.take(p as int));
                }
                Ok(())
            },
            Command::Invalid => {
                let v = chars_of("Invalid command");
                Err(CmdError::Message(string_of(v.as_slice())))
            },
        }
    }
}

} // verus!
