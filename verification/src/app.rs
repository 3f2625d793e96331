//! The editor's state and what it does with each key and each event: the
//! modes, the events it sends itself, and the requests it makes of the
//! program around it (writing the file). Drawing, the terminal and the
//! file system stay with that program.
use vstd::prelude::*;
use crate::buffer::{Buffer, position_target, next_in_line, cut_before, x_walk};
use crate::buffer::motion::{w_target, b_walk, e_walk, j_walk, k_walk};
use crate::cmd::CmdBuf;
use crate::cmd::handlers::{
    CmdError, Handler, best_of, handler_models, handler_post, run_handler, best_handler,
    create_command_handlers, eol_post,
};
use crate::gap::inserted;
use crate::text::{row_at, line_count};
use crate::digits::parse_usize_spec;
use crate::text::{chars_of, string_of, byte_len};
use crate::textobject::MatchResult;

verus! {

/// Where the cursor is.
#[derive(Debug, Clone, Copy, PartialEq, Eq, Structural, Hash)]
pub struct Cursor {
    pub col: usize,
    pub row: usize,
}

impl Default for Cursor {
    fn default() -> (c: Self)
        ensures
            c == (Cursor { col: 0, row: 0 }),
    {
        Cursor { col: 0, row: 0 }
    }
}

/// The editor's modes.
#[derive(Debug, Clone, Copy, PartialEq, Eq, Structural, Hash)]
pub enum Mode {
    Normal,
    Insert,
    ExCommand,
}

impl Default for Mode {
    fn default() -> (m: Self)
        ensures
            m == Mode::Normal,
    {
        Mode::Normal
    }
}

/// The name of a mode as the status line shows it.
pub open spec fn mode_name(m: Mode) -> Seq<char> {
    match m {
        Mode::Normal => seq!['N', 'O', 'R', 'M', 'A', 'L'],
        Mode::Insert => seq!['I', 'N', 'S', 'E', 'R', 'T'],
        Mode::ExCommand => seq!['E', 'X', 'C', 'O', 'M', 'M', 'A', 'N', 'D'],
    }
}

impl Mode {
    /// The name of the mode as the status line shows it.
    pub fn to_string(&self) -> (s: String)
        ensures
            s@ == mode_name(*self),
    {
        let v = match self {
            Mode::Normal => vec!['N', 'O', 'R', 'M', 'A', 'L'],
            Mode::Insert => vec!['I', 'N', 'S', 'E', 'R', 'T'],
            Mode::ExCommand => vec!['E', 'X', 'C', 'O', 'M', 'M', 'A', 'N', 'D'],
        };
        proof {
            assert(v@ =~= mode_name(*self));
        }
        string_of(v.as_slice())
    }
}

/// What the editor sends itself to handle later.
#[derive(Debug, Clone, Copy, PartialEq, Eq, Structural)]
pub enum AppEvent {
    Quit,
    ModeChange(Mode),
    Write(char),
    Movement,
    BufWrite,
    ExCommandSubmit,
}

/// A key as the editor reads it.
#[derive(Debug, Clone, Copy, PartialEq, Eq, Structural)]
pub enum Key {
    Char(char),
    Esc,
    Enter,
    Backspace,
    Other,
}

/// A pressed key; `control` when Control, and no other modifier, is held.
#[derive(Debug, Clone, Copy, PartialEq, Eq, Structural)]
pub struct KeyPress {
    pub key: Key,
    pub control: bool,
}

/// The editor cannot go on: the program around the library stops on it.
#[derive(Debug, Clone, Copy, PartialEq, Eq, Structural)]
pub enum Fault {
    GaveUp,
}

/// What the editor asks of the program around it after an event.
#[derive(Debug, Clone, Copy, PartialEq, Eq, Structural)]
pub enum Request {
    Nothing,
    /// Write the text of the buffer to the file.
    WriteFile,
}

/// The editor.
pub struct App {
    pub filename: String,
    pub buf: Buffer,
    pub cmdbuf: CmdBuf,
    pub msg: Option<String>,
    pub mode: Mode,
    /// Is the application running?
    pub running: bool,
    /// Events sent and not handled yet, oldest first.
    pub events: Vec<AppEvent>,
}

/// What a submitted ex command asks for.
pub enum ExAction {
    Write,
    Quit,
    WriteQuit,
    Unknown,
}

/// How the ex command `keys` is read: `w` to `write`, `q` to `quit`, `wq`.
pub open spec fn ex_action(keys: Seq<char>) -> ExAction {
    if keys == "w"@ || keys == "wr"@ || keys == "wri"@ || keys == "writ"@ || keys == "write"@ {
        ExAction::Write
    } else if keys == "q"@ || keys == "qu"@ || keys == "qui"@ || keys == "quit"@ {
        ExAction::Quit
    } else if keys == "wq"@ {
        ExAction::WriteQuit
    } else {
        ExAction::Unknown
    }
}

/// The message shown after writing the file.
pub open spec fn wrote_message(filename: Seq<char>) -> Seq<char> {
    "Wrote to file "@ + filename
}

/// `a` and `b` hold the same buffer.
pub open spec fn same_buf(a: Buffer, b: Buffer) -> bool {
    &&& a.chars() == b.chars()
    &&& a.cursor() == b.cursor()
    &&& a.capacity() == b.capacity()
    &&& a.target() == b.target()
    &&& a.history() == b.history()
}

/// The count that `pop_count(1)` takes from keys `s`, and the keys left.
pub open spec fn popped_count(s: Seq<char>) -> (usize, Seq<char>) {
    let k = crate::digits::numeric_prefix_len(s);
    let prefix = s.take(k as int);
    if k == 0 {
        (1, s)
    } else {
        (
            match parse_usize_spec(prefix) {
                Some(v) => v,
                None => 1,
            },
            s.skip(byte_len(prefix) as int),
        )
    }
}

/// Whether `pop_count` can take the count from keys `s`.
pub open spec fn count_fits(s: Seq<char>) -> bool {
    byte_len(s.take(crate::digits::numeric_prefix_len(s) as int)) <= s.len()
}

/// `keys` are the characters of `word`.
fn keys_are(keys: &Vec<char>, word: &str) -> (b: bool)
    ensures
        b == (keys@ == word@),
{
    let w = chars_of(word);
    if keys.len() != w.len() {
        return false;
    }
    let mut i: usize = 0;
    while i < keys.len()
        invariant
            i <= keys.len(),
            keys.len() == w.len(),
            w@ == word@,
            forall|j: int| 0 <= j < i ==> keys@[j] == w@[j],
        decreases keys.len() - i,
    {
        if keys[i] != w[i] {
            return false;
        }
        i = i + 1;
    }
    proof {
        assert(keys@ =~= w@);
    }
    true
}

impl App {
    pub open spec fn wf(&self) -> bool {
        self.buf.wf()
    }

    /// A running editor in normal mode on `content`, read from the file
    /// `filename`.
    pub fn new(filename: String, content: &str) -> (app: Self)
        requires
            content@.len() <= usize::MAX / 16,
        ensures
            app.wf(),
            app.filename == filename,
            app.buf.chars() == content@,
            app.buf.cursor() == position_target(content@, content@.len() as int, 0, 0),
            app.buf.target() is None,
            app.cmdbuf@ == Seq::<char>::empty(),
            app.msg is None,
            app.mode == Mode::Normal,
            app.running,
            app.events@ == Seq::<AppEvent>::empty(),
    {
        App {
            filename,
            buf: Buffer::from(content),
            cmdbuf: CmdBuf::new(),
            msg: None,
            mode: Mode::Normal,
            running: true,
            events: Vec::new(),
        }
    }

    /// Sends an event to handle later.
    pub fn send(&mut self, ev: AppEvent)
        ensures
            final(self).events@ == old(self).events@.push(ev),
            final(self).buf == old(self).buf,
            final(self).cmdbuf@ == old(self).cmdbuf@,
            final(self).msg == old(self).msg,
            final(self).mode == old(self).mode,
            final(self).running == old(self).running,
            final(self).filename == old(self).filename,
    {
        self.events.push(ev);
    }

    /// The oldest event not handled yet, taken out of the queue.
    pub fn next_event(&mut self) -> (ev: Option<AppEvent>)
        ensures
            old(self).events@.len() == 0 ==> ev is None && final(self).events@ == old(self).events@,
            old(self).events@.len() > 0 ==> ev == Some(old(self).events@[0])
                && final(self).events@ == old(self).events@.drop_first(),
            final(self).buf == old(self).buf,
            final(self).cmdbuf@ == old(self).cmdbuf@,
            final(self).msg == old(self).msg,
            final(self).mode == old(self).mode,
            final(self).running == old(self).running,
            final(self).filename == old(self).filename,
    {
        if self.events.len() == 0 {
            None
        } else {
            let ev = self.events.remove(0);
            proof {
                assert(self.events@ =~= old(self).events@.drop_first());
            }
            Some(ev)
        }
    }

    pub fn set_msg(&mut self, msg: String)
        ensures
            final(self).msg == Some(msg),
            final(self).buf == old(self).buf,
            final(self).cmdbuf@ == old(self).cmdbuf@,
            final(self).mode == old(self).mode,
            final(self).running == old(self).running,
            final(self).events@ == old(self).events@,
            final(self).filename == old(self).filename,
    {
        self.msg = Some(msg);
    }

    pub fn clear_msg(&mut self)
        ensures
            final(self).msg is None,
            final(self).buf == old(self).buf,
            final(self).cmdbuf@ == old(self).cmdbuf@,
            final(self).mode == old(self).mode,
            final(self).running == old(self).running,
            final(self).events@ == old(self).events@,
            final(self).filename == old(self).filename,
    {
        self.msg = None;
    }

    /// Handles the tick of the terminal: nothing to update.
    pub fn tick(&self) {
    }

    /// Stops the editor.
    pub fn quit(&mut self)
        ensures
            !final(self).running,
            final(self).buf == old(self).buf,
            final(self).cmdbuf@ == old(self).cmdbuf@,
            final(self).msg == old(self).msg,
            final(self).mode == old(self).mode,
            final(self).events@ == old(self).events@,
            final(self).filename == old(self).filename,
    {
        self.running = false;
    }
}

/// What `l(size)` does to buffer `a`, giving `b`.
pub open spec fn l_post(a: Buffer, b: Buffer, size: usize) -> bool {
    let t = a.chars();
    let c = a.cursor();
    &&& b.chars() == t
    &&& b.capacity() == a.capacity()
    &&& b.history() == a.history()
    &&& !next_in_line(t, c) ==> b.cursor() == c && b.target() == a.target()
    &&& next_in_line(t, c) ==> b.target() is None && b.cursor() == if size == 0 {
        c
    } else if c + size < t.len() {
        c + size
    } else {
        t.len() - 1
    }
}

/// What `h(size)` does to buffer `a`, giving `b`.
pub open spec fn h_post(a: Buffer, b: Buffer, size: usize) -> bool {
    let c = a.cursor();
    &&& b.chars() == a.chars()
    &&& b.capacity() == a.capacity()
    &&& b.history() == a.history()
    &&& a.cur_col() == 0 ==> b.cursor() == c && b.target() == a.target()
    &&& a.cur_col() > 0 ==> b.cursor() == c - (if size <= c {
        size as int
    } else {
        c
    }) && b.target() is None
}

/// What inserting `v` does to buffer `a`, giving `b`.
pub open spec fn insert_post(a: Buffer, b: Buffer, v: char) -> bool {
    &&& b.chars() == inserted(a.chars(), a.cursor(), v)
    &&& b.cursor() == a.cursor() + 1
    &&& b.target() == a.target()
    &&& b.history() == a.history()
}

/// `insert` can take a character in buffer `a`.
pub open spec fn can_insert(a: Buffer) -> bool {
    a.chars().len() == a.capacity() ==> 0 < a.capacity() <= usize::MAX / 16
}

/// What a movement key `verb`, `count` times, does to buffer `a`, giving
/// `b`; `ok` is false where the motion gives up.
pub open spec fn motion_key_post(verb: char, count: usize, a: Buffer, b: Buffer, ok: bool) -> bool {
    let t = a.chars();
    let c = a.cursor();
    let kept = b.chars() == t && b.capacity() == a.capacity() && b.history() == a.history();
    let tc = match a.target() {
        Some(x) => x,
        None => a.cur_col(),
    };
    if verb == 'w' {
        &&& ok == (count == 0 || c < t.len())
        &&& ok ==> kept && b.cursor() == w_target(t, c, count as nat) && b.target() is None
    } else if verb == 'b' {
        &&& ok == (count == 0 || c < t.len())
        &&& ok ==> kept && b.cursor() == b_walk(t, c, count as nat) && b.target() is None
    } else if verb == 'e' {
        &&& ok == e_walk(t, c, count as nat) is Some
        &&& ok ==> kept && e_walk(t, c, count as nat) == Some(b.cursor()) && b.target()
            == a.target()
    } else if verb == 'h' {
        ok && h_post(a, b, count)
    } else if verb == 'j' {
        &&& ok == (count == 0 || (t.len() > 0 && (c < t.len() || row_at(t, c) + 1 >= line_count(
            t,
        ))))
        &&& ok ==> kept && b.target() == Some(tc) && b.cursor() == j_walk(
            t,
            c,
            tc as nat,
            count as nat,
        )
    } else if verb == 'k' {
        &&& ok == ((count == 0 || c < t.len() || row_at(t, c) == 0) && k_walk(
            t,
            c,
            tc as nat,
            count as nat,
        ) is Some)
        &&& ok ==> kept && b.target() == Some(tc) && k_walk(t, c, tc as nat, count as nat)
            == Some(b.cursor())
    } else if verb == 'l' {
        &&& ok == (a.capacity() > 0)
        &&& ok ==> l_post(a, b, count)
    } else if verb == '0' {
        &&& ok
        &&& kept && b.cursor() == position_target(t, c, a.cur_row() as int, 0) && b.target() is None
    } else {
        ok && same_buf(a, b)
    }
}

/// What handling event `ev` does to the editor `a0`, giving `a1`.
pub open spec fn event_post(a0: App, a1: App, ev: AppEvent, r: Result<Request, Fault>) -> bool {
    let a = a0.buf;
    let b = a1.buf;
    &&& a1.wf()
    &&& a1.filename == a0.filename
    &&& r is Err ==> r == Err::<Request, Fault>(Fault::GaveUp)
    &&& match ev {
        AppEvent::Quit => r == Ok::<Request, Fault>(Request::Nothing) && !a1.running && a1.buf
            == a0.buf && a1.cmdbuf@ == a0.cmdbuf@ && a1.msg == a0.msg && a1.mode == a0.mode
            && a1.events@ == a0.events@,
        AppEvent::ModeChange(m) => {
            &&& r == Ok::<Request, Fault>(Request::Nothing)
            &&& a1.mode == m
            &&& a1.running == a0.running
            &&& a1.events@ == a0.events@
            &&& a1.cmdbuf@ == a0.cmdbuf@
            &&& a1.msg == if m == Mode::ExCommand || m == Mode::Insert {
                None
            } else {
                a0.msg
            }
            &&& b.chars() == a.chars()
            &&& b.capacity() == a.capacity()
            &&& b.history() == a.history()
            &&& b.target() is None
            &&& b.cursor() == if a0.mode == Mode::Insert && m == Mode::Normal && a.cursor() > 0 {
                a.cursor() - 1
            } else {
                a.cursor()
            }
        },
        AppEvent::Write(v) => {
            &&& a1.mode == a0.mode
            &&& a1.running == a0.running
            &&& a1.events@ == a0.events@
            &&& a1.cmdbuf@ == a0.cmdbuf@
            &&& a1.msg == a0.msg
            &&& (r is Ok) == can_insert(a)
            &&& r is Ok ==> r == Ok::<Request, Fault>(Request::Nothing) && insert_post(a, b, v)
        },
        AppEvent::Movement => {
            let s = a0.cmdbuf@;
            &&& a1.mode == a0.mode
            &&& a1.running == a0.running
            &&& a1.events@ == a0.events@
            &&& a1.msg == a0.msg
            &&& if s.len() == 0 || !count_fits(s.drop_last()) {
                r is Err
            } else {
                let verb = s.last();
                let (count, rest) = popped_count(s.drop_last());
                &&& a1.cmdbuf@ == rest
                &&& motion_key_post(verb, count, a, b, r is Ok)
                &&& r is Ok ==> r == Ok::<Request, Fault>(Request::Nothing)
            }
        },
        AppEvent::BufWrite => r == Ok::<Request, Fault>(Request::WriteFile) && a1.buf == a0.buf
            && a1.cmdbuf@ == a0.cmdbuf@ && a1.msg == a0.msg && a1.mode == a0.mode && a1.running
            == a0.running && a1.events@ == a0.events@,
        AppEvent::ExCommandSubmit => {
            let keys = a0.cmdbuf@;
            let sent = match ex_action(keys) {
                ExAction::Write => seq![AppEvent::BufWrite],
                ExAction::Quit => seq![AppEvent::Quit],
                ExAction::WriteQuit => seq![AppEvent::BufWrite, AppEvent::Quit],
                ExAction::Unknown => Seq::<AppEvent>::empty(),
            };
            &&& r == Ok::<Request, Fault>(Request::Nothing)
            &&& a1.buf == a0.buf
            &&& a1.mode == a0.mode
            &&& a1.running == a0.running
            &&& a1.cmdbuf@ == Seq::<char>::empty()
            &&& a1.events@ == a0.events@ + sent + seq![AppEvent::ModeChange(Mode::Normal)]
            &&& ex_action(keys) is Write ==> a1.msg is Some && a1.msg->0@ == wrote_message(
                a0.filename@,
            )
            &&& !(ex_action(keys) is Write) ==> a1.msg == a0.msg
        },
    }
}

impl App {
    /// Handles an event the editor sent itself; see `event_post`.
    pub fn handle_event(&mut self, ev: AppEvent) -> (r: Result<Request, Fault>)
        requires
            old(self).wf(),
        ensures
            event_post(*old(self), *final(self), ev, r),
    {
        proof {
            self.buf.lemma_wf();
        }
        match ev {
            AppEvent::Quit => {
                self.quit();
                Ok(Request::Nothing)
            },
            AppEvent::ModeChange(mode) => {
                if self.mode == Mode::Insert && mode == Mode::Normal {
                    self.buf.left(1);
                }
                if mode == Mode::ExCommand || mode == Mode::Insert {
                    self.clear_msg();
                }
                self.mode = mode;
                self.buf.clear_target_col();
                Ok(Request::Nothing)
            },
            AppEvent::Write(c) => {
                if !self.buf.can_insert() {
                    return Err(Fault::GaveUp);
                }
                self.buf.insert(c);
                Ok(Request::Nothing)
            },
            AppEvent::Movement => {
                let verb = match self.cmdbuf.pop() {
                    Some(v) => v,
                    None => {
                        return Err(Fault::GaveUp);
                    },
                };
                if !self.cmdbuf.count_fits() {
                    return Err(Fault::GaveUp);
                }
                let count = self.cmdbuf.pop_count(1);
                if self.motion_key(verb, count) {
                    Ok(Request::Nothing)
                } else {
                    Err(Fault::GaveUp)
                }
            },
            AppEvent::BufWrite => Ok(Request::WriteFile),
            AppEvent::ExCommandSubmit => {
                let keys = self.cmdbuf.drain();
                if keys_are(&keys, "w") || keys_are(&keys, "wr") || keys_are(&keys, "wri")
                    || keys_are(&keys, "writ") || keys_are(&keys, "write") {
                    self.send(AppEvent::BufWrite);
                    let mut m = chars_of("Wrote to file ");
                    let mut f = chars_of(self.filename.as_str());
                    m.append(&mut f);
                    self.set_msg(string_of(m.as_slice()));
                } else if keys_are(&keys, "q") || keys_are(&keys, "qu") || keys_are(&keys, "qui")
                    || keys_are(&keys, "quit") {
                    self.send(AppEvent::Quit);
                } else if keys_are(&keys, "wq") {
                    self.send(AppEvent::BufWrite);
                    self.send(AppEvent::Quit);
                }
                self.send(AppEvent::ModeChange(Mode::Normal));
                proof {
                    assert(self.events@ =~= old(self).events@ + match ex_action(keys@) {
                        ExAction::Write => seq![AppEvent::BufWrite],
                        ExAction::Quit => seq![AppEvent::Quit],
                        ExAction::WriteQuit => seq![AppEvent::BufWrite, AppEvent::Quit],
                        ExAction::Unknown => Seq::<AppEvent>::empty(),
                    } + seq![AppEvent::ModeChange(Mode::Normal)]);
                }
                Ok(Request::Nothing)
            },
        }
    }

    /// Runs movement key `verb` `count` times on the buffer; false where
    /// the motion gives up. See `motion_key_post`.
    fn motion_key(&mut self, verb: char, count: usize) -> (ok: bool)
        requires
            old(self).wf(),
        ensures
            final(self).wf(),
            motion_key_post(verb, count, old(self).buf, final(self).buf, ok),
            final(self).cmdbuf@ == old(self).cmdbuf@,
            final(self).events@ == old(self).events@,
            final(self).mode == old(self).mode,
            final(self).msg == old(self).msg,
            final(self).running == old(self).running,
            final(self).filename == old(self).filename,
    {
        proof {
            self.buf.lemma_wf();
        }
        if verb == 'w' {
            if count > 0 && self.buf.cursor_index() >= self.buf.len() {
                return false;
            }
            self.buf.w(count);
            self.buf.clear_target_col();
        } else if verb == 'b' {
            if count > 0 && self.buf.cursor_index() >= self.buf.len() {
                return false;
            }
            self.buf.b(count);
            self.buf.clear_target_col();
        } else if verb == 'e' {
            return self.buf.e_checked(count);
        } else if verb == 'h' {
            self.buf.h(count);
        } else if verb == 'j' {
            if count > 0 && !(self.buf.len() > 0 && (self.buf.cursor_index() < self.buf.len()
                || self.buf.row_index() + 1 >= self.buf.num_lines())) {
                return false;
            }
            self.buf.j(count);
        } else if verb == 'k' {
            return self.buf.k_checked(count);
        } else if verb == 'l' {
            if self.buf.storage_size() == 0 {
                return false;
            }
            self.buf.l(count);
        } else if verb == '0' {
            let row = self.buf.row_index();
            self.buf.position(row, 0);
            self.buf.clear_target_col();
        }
        true
    }
}

/// `a1` is `a0` with other command keys.
pub open spec fn same_but_keys(a0: App, a1: App) -> bool {
    &&& a1.filename == a0.filename
    &&& a1.buf == a0.buf
    &&& a1.msg == a0.msg
    &&& a1.mode == a0.mode
    &&& a1.running == a0.running
    &&& a1.events@ == a0.events@
}

/// `a1` is `a0` with `ev` sent.
pub open spec fn sent(a0: App, a1: App, ev: AppEvent) -> bool {
    &&& a1.filename == a0.filename
    &&& a1.buf == a0.buf
    &&& a1.cmdbuf@ == a0.cmdbuf@
    &&& a1.msg == a0.msg
    &&& a1.mode == a0.mode
    &&& a1.running == a0.running
    &&& a1.events@ == a0.events@.push(ev)
}

/// `a1` is `a0` with another buffer.
pub open spec fn same_but_buf(a0: App, a1: App) -> bool {
    &&& a1.filename == a0.filename
    &&& a1.cmdbuf@ == a0.cmdbuf@
    &&& a1.msg == a0.msg
    &&& a1.mode == a0.mode
    &&& a1.running == a0.running
    &&& a1.events@ == a0.events@
}

/// The keys of normal mode that start a movement.
pub open spec fn movement_key(c: char) -> bool {
    c == 'b' || c == 'e' || c == 'h' || c == 'j' || c == 'k' || c == 'l' || c == '0'
}

/// What a key typed in normal mode that no fixed binding takes does: it
/// joins the command keys, which are matched against the commands; a match
/// runs its command and clears the keys, no match clears them, a partial
/// match keeps them.
pub open spec fn command_key_post(a0: App, a1: App, c: char, r: Result<(), Fault>) -> bool {
    let keys = a0.cmdbuf@.push(c);
    let (res, h) = best_of(handler_models(), keys);
    if res == MatchResult::Match {
        exists|m0: App, m1: App, rr: Result<(), CmdError>|
            {
                &&& same_but_keys(a0, m0)
                &&& m0.cmdbuf@ == keys
                &&& handler_post(h, m0, m1, rr)
                &&& (rr matches Err(CmdError::GaveUp)) ==> r is Err
                &&& !(rr matches Err(CmdError::GaveUp)) ==> r is Ok && same_but_keys(m1, a1)
                    && a1.cmdbuf@ == Seq::<char>::empty()
            }
    } else if res == MatchResult::NoMatch {
        r is Ok && same_but_keys(a0, a1) && a1.cmdbuf@ == Seq::<char>::empty()
    } else {
        r is Ok && same_but_keys(a0, a1) && a1.cmdbuf@ == keys
    }
}

/// What a key does to the editor `a0`, giving `a1`; `r` is an error where
/// the editor gives up.
pub open spec fn key_post(a0: App, a1: App, k: KeyPress, r: Result<(), Fault>) -> bool {
    let a = a0.buf;
    let b = a1.buf;
    &&& a1.wf()
    &&& r is Err ==> r == Err::<(), Fault>(Fault::GaveUp)
    &&& if k.control && (k.key == Key::Char('c') || k.key == Key::Char('C')) {
        r is Ok && sent(a0, a1, AppEvent::Quit)
    } else {
        match a0.mode {
            Mode::Insert => match k.key {
                Key::Esc => r is Ok && sent(a0, a1, AppEvent::ModeChange(Mode::Normal)),
                Key::Char(c) => r is Ok && sent(a0, a1, AppEvent::Write(c)),
                Key::Enter => r is Ok && sent(a0, a1, AppEvent::Write('\n')),
                Key::Backspace => {
                    let n = if 1 <= a.cur_col() {
                        1int
                    } else {
                        a.cur_col() as int
                    };
                    &&& r is Ok
                    &&& same_but_buf(a0, a1)
                    &&& b.chars() == cut_before(a.chars(), a.cursor(), n)
                    &&& b.cursor() == a.cursor() - n
                    &&& b.capacity() == a.capacity()
                    &&& b.target() == a.target()
                    &&& b.history() == a.history()
                },
                Key::Other => r is Ok && a1 == a0,
            },
            Mode::Normal => match k.key {
                Key::Char(c) => if c == ':' || c == ';' {
                    r is Ok && sent(a0, a1, AppEvent::ModeChange(Mode::ExCommand))
                } else if c == 'q' {
                    r is Ok && sent(a0, a1, AppEvent::Quit)
                } else if c == '$' {
                    &&& (r is Ok) == (a.capacity() > 0)
                    &&& r is Ok ==> same_but_buf(a0, a1) && eol_post(a, b)
                } else if movement_key(c) {
                    &&& r is Ok
                    &&& a1.buf == a0.buf
                    &&& a1.cmdbuf@ == a0.cmdbuf@.push(c)
                    &&& a1.events@ == a0.events@.push(AppEvent::Movement)
                    &&& a1.mode == a0.mode && a1.msg == a0.msg && a1.running == a0.running
                    &&& a1.filename == a0.filename
                } else if c == 'x' {
                    if !count_fits(a0.cmdbuf@) {
                        r is Err
                    } else {
                        let (count, rest) = popped_count(a0.cmdbuf@);
                        &&& (r is Ok) == x_walk(a.chars(), a.cursor(), count as nat) is Some
                        &&& r is Ok ==> {
                            &&& a1.cmdbuf@ == rest
                            &&& a1.events@ == a0.events@
                            &&& a1.mode == a0.mode && a1.msg == a0.msg && a1.running
                                == a0.running
                            &&& a1.filename == a0.filename
                            &&& x_walk(a.chars(), a.cursor(), count as nat) == Some(
                                (b.chars(), b.cursor()),
                            )
                            &&& b.target() == a.target()
                            &&& b.history() == a.history()
                        }
                    }
                } else if c == 'o' {
                    &&& (r is Ok) == (a.capacity() > 0 && can_insert(a))
                    &&& r is Ok ==> {
                        &&& exists|m1: Buffer, m2: Buffer|
                            eol_post(a, m1) && l_post(m1, m2, 1) && insert_post(m2, b, '\n')
                        &&& a1.events@ == a0.events@.push(AppEvent::ModeChange(Mode::Insert))
                        &&& a1.cmdbuf@ == a0.cmdbuf@
                        &&& a1.mode == a0.mode && a1.msg == a0.msg && a1.running == a0.running
                        &&& a1.filename == a0.filename
                    }
                } else {
                    command_key_post(a0, a1, c, r)
                },
                Key::Backspace => r is Ok && same_but_buf(a0, a1) && h_post(a, b, 1),
                Key::Esc => r is Ok && same_but_keys(a0, a1) && a1.cmdbuf@ == Seq::<char>::empty(),
                _ => r is Ok && a1 == a0,
            },
            Mode::ExCommand => match k.key {
                Key::Enter => r is Ok && sent(a0, a1, AppEvent::ExCommandSubmit),
                Key::Esc => {
                    &&& r is Ok
                    &&& a1.cmdbuf@ == Seq::<char>::empty()
                    &&& a1.buf == a0.buf && a1.msg == a0.msg && a1.mode == a0.mode
                        && a1.running == a0.running
                    &&& a1.events@ == a0.events@.push(AppEvent::ModeChange(Mode::Normal))
                },
                Key::Char(c) => r is Ok && same_but_keys(a0, a1) && a1.cmdbuf@ == a0.cmdbuf@.push(
                    c,
                ),
                _ => r is Ok && a1 == a0,
            },
        }
    }
}

impl App {
    /// Handles a pressed key; see `key_post`.
    pub fn handle_key_events(&mut self, key_event: KeyPress) -> (r: Result<(), Fault>)
        requires
            old(self).wf(),
        ensures
            key_post(*old(self), *final(self), key_event, r),
    {
        proof {
            self.buf.lemma_wf();
        }
        if key_event.control {
            match key_event.key {
                Key::Char(c) => {
                    if c == 'c' || c == 'C' {
                        self.send(AppEvent::Quit);
                        return Ok(());
                    }
                },
                _ => {},
            }
        }
        match self.mode {
            Mode::Insert => match key_event.key {
                Key::Esc => self.send(AppEvent::ModeChange(Mode::Normal)),
                Key::Char(c) => self.send(AppEvent::Write(c)),
                Key::Enter => self.send(AppEvent::Write('\n')),
                Key::Backspace => self.buf.backspace(1),
                Key::Other => {},
            },
            Mode::Normal => match key_event.key {
                Key::Char(c) => {
                    if c == ':' || c == ';' {
                        self.send(AppEvent::ModeChange(Mode::ExCommand));
                    } else if c == 'q' {
                        self.send(AppEvent::Quit);
                    } else if c == '$' {
                        if self.buf.storage_size() == 0 {
                            return Err(Fault::GaveUp);
                        }
                        self.buf.eol();
                    } else if c == 'b' || c == 'e' || c == 'h' || c == 'j' || c == 'k' || c == 'l'
                        || c == '0' {
                        self.cmdbuf.push(c);
                        self.send(AppEvent::Movement);
                    } else if c == 'x' {
                        if !self.cmdbuf.count_fits() {
                            return Err(Fault::GaveUp);
                        }
                        let count = self.cmdbuf.pop_count(1);
                        if !self.buf.x_checked(count) {
                            return Err(Fault::GaveUp);
                        }
                    } else if c == 'o' {
                        if self.buf.storage_size() == 0 || !self.buf.can_insert() {
                            return Err(Fault::GaveUp);
                        }
                        let ghost b0 = self.buf;
                        self.buf.eol();
                        let ghost b1 = self.buf;
                        self.buf.l(1);
                        let ghost b2 = self.buf;
                        self.buf.insert('\n');
                        assert(eol_post(b0, b1) && l_post(b1, b2, 1) && insert_post(
                            b2,
                            self.buf,
                            '\n',
                        ));
                        self.send(AppEvent::ModeChange(Mode::Insert));
                    } else {
                        return self.command_key(c);
                    }
                },
                Key::Backspace => self.buf.h(1),
                Key::Esc => {
                    let _ = self.cmdbuf.drain();
                },
                _ => {},
            },
            Mode::ExCommand => match key_event.key {
                Key::Enter => self.send(AppEvent::ExCommandSubmit),
                Key::Esc => {
                    self.cmdbuf = CmdBuf::new();
                    self.send(AppEvent::ModeChange(Mode::Normal));
                },
                Key::Char(c) => self.cmdbuf.push(c),
                _ => {},
            },
        }
        Ok(())
    }

    /// A key of normal mode that no fixed binding takes; see
    /// `command_key_post`.
    fn command_key(&mut self, c: char) -> (r: Result<(), Fault>)
        requires
            old(self).wf(),
        ensures
            final(self).wf(),
            r is Err ==> r == Err::<(), Fault>(Fault::GaveUp),
            command_key_post(*old(self), *final(self), c, r),
    {
        self.cmdbuf.push(c);
        let keys = self.cmdbuf.keys();
        let handlers = create_command_handlers();
        proof {
            assert(handlers@.map_values(
                |e: (crate::textobject::Pattern, Handler)| ((e.0.verb_of(), e.0.alternatives()), e.1),
            ) =~= handler_models());
        }
        let (res, h) = best_handler(&handlers, &keys);
        match res {
            MatchResult::Match => {
                let ghost m0 = *self;
                let rr = run_handler(h, self);
                let ghost m1 = *self;
                match rr {
                    Err(CmdError::GaveUp) => {
                        return Err(Fault::GaveUp);
                    },
                    _ => {},
                }
                let _ = self.cmdbuf.drain();
                assert(same_but_keys(*old(self), m0) && m0.cmdbuf@ == old(self).cmdbuf@.push(c)
                    && handler_post(h, m0, m1, rr));
                Ok(())
            },
            MatchResult::NoMatch => {
                let _ = self.cmdbuf.drain();
                Ok(())
            },
            MatchResult::PartialMatch => Ok(()),
        }
    }
}

/// The ex commands: `w` up to `write` write the file, `q` up to `quit`
/// quit, `wq` does both; anything else, such as an empty command or `x`,
/// is unknown.
pub proof fn law_ex_commands()
    ensures
        ex_action("w"@) == ExAction::Write,
        ex_action("wr"@) == ExAction::Write,
        ex_action("wri"@) == ExAction::Write,
        ex_action("writ"@) == ExAction::Write,
        ex_action("write"@) == ExAction::Write,
        ex_action("q"@) == ExAction::Quit,
        ex_action("qu"@) == ExAction::Quit,
        ex_action("qui"@) == ExAction::Quit,
        ex_action("quit"@) == ExAction::Quit,
        ex_action("wq"@) == ExAction::WriteQuit,
        ex_action(Seq::empty()) == ExAction::Unknown,
        ex_action("x"@) == ExAction::Unknown,
        ex_action("writes"@) == ExAction::Unknown,
{
    reveal_strlit("w");
    assert("w"@.len() == 1 && "w"@[0] == 'w');
    reveal_strlit("wr");
    assert("wr"@.len() == 2 && "wr"@[0] == 'w');
    reveal_strlit("wri");
    assert("wri"@.len() == 3 && "wri"@[0] == 'w');
    reveal_strlit("writ");
    assert("writ"@.len() == 4 && "writ"@[0] == 'w');
    reveal_strlit("write");
    assert("write"@.len() == 5 && "write"@[0] == 'w');
    reveal_strlit("q");
    assert("q"@.len() == 1 && "q"@[0] == 'q');
    reveal_strlit("qu");
    assert("qu"@.len() == 2 && "qu"@[0] == 'q');
    reveal_strlit("qui");
    assert("qui"@.len() == 3 && "qui"@[0] == 'q');
    reveal_strlit("quit");
    assert("quit"@.len() == 4 && "quit"@[0] == 'q');
    reveal_strlit("wq");
    assert("wq"@.len() == 2 && "wq"@[0] == 'w');
    reveal_strlit("x");
    assert("x"@.len() == 1 && "x"@[0] == 'x');
    reveal_strlit("writes");
    assert("writes"@.len() == 6 && "writes"@[0] == 'w');
    assert("wq"@[1] != "wr"@[1]);
}

/// A character typed in insert mode, once the event it sends is handled,
/// stands in the text where the cursor was, and the cursor is after it.
pub proof fn law_typed_char_inserted(
    a0: App,
    a1: App,
    a2: App,
    c: char,
    r1: Result<(), Fault>,
    r2: Result<Request, Fault>,
)
    requires
        a0.mode == Mode::Insert,
        key_post(a0, a1, KeyPress { key: Key::Char(c), control: false }, r1),
        event_post(a1, a2, AppEvent::Write(c), r2),
        r2 is Ok,
    ensures
        a1.events@ == a0.events@.push(AppEvent::Write(c)),
        a2.buf.chars() == a0.buf.chars().take(a0.buf.cursor()) + seq![c] + a0.buf.chars().skip(
            a0.buf.cursor(),
        ),
        a2.buf.cursor() == a0.buf.cursor() + 1,
        a2.mode == Mode::Insert,
{
    assert(a0.buf.chars().take(a0.buf.cursor()).push(c) =~= a0.buf.chars().take(a0.buf.cursor())
        + seq![c]);
}

/// Escape in insert mode, once the event it sends is handled, is back in
/// normal mode with the text unchanged and the cursor one step back (unless
/// it is at the start of the text).
pub proof fn law_escape_leaves_insert(
    a0: App,
    a1: App,
    a2: App,
    r1: Result<(), Fault>,
    r2: Result<Request, Fault>,
)
    requires
        a0.mode == Mode::Insert,
        key_post(a0, a1, KeyPress { key: Key::Esc, control: false }, r1),
        event_post(a1, a2, AppEvent::ModeChange(Mode::Normal), r2),
    ensures
        a2.mode == Mode::Normal,
        a2.buf.chars() == a0.buf.chars(),
        a2.buf.cursor() == if a0.buf.cursor() > 0 {
            a0.buf.cursor() - 1
        } else {
            a0.buf.cursor() as int
        },
{
}

/// Control-C, in any mode, once the event it sends is handled, stops the
/// editor and leaves the text as it was.
pub proof fn law_control_c_quits(
    a0: App,
    a1: App,
    a2: App,
    c: char,
    r1: Result<(), Fault>,
    r2: Result<Request, Fault>,
)
    requires
        c == 'c' || c == 'C',
        key_post(a0, a1, KeyPress { key: Key::Char(c), control: true }, r1),
        event_post(a1, a2, AppEvent::Quit, r2),
    ensures
        a1.events@ == a0.events@.push(AppEvent::Quit),
        !a2.running,
        a2.buf == a0.buf,
{
}

/// Submitting a write command queues the write of the file and the return
/// to normal mode; handling the write asks for the file to be written and
/// changes nothing else.
pub proof fn law_write_command_writes(
    a0: App,
    a1: App,
    a2: App,
    r1: Result<Request, Fault>,
    r2: Result<Request, Fault>,
)
    requires
        ex_action(a0.cmdbuf@) == ExAction::Write,
        event_post(a0, a1, AppEvent::ExCommandSubmit, r1),
        event_post(a1, a2, AppEvent::BufWrite, r2),
    ensures
        a1.events@ == a0.events@ + seq![AppEvent::BufWrite, AppEvent::ModeChange(Mode::Normal)],
        a1.cmdbuf@ == Seq::<char>::empty(),
        r2 == Ok::<Request, Fault>(Request::WriteFile),
        a2.buf == a0.buf,
        a2.running == a0.running,
{
    assert(seq![AppEvent::BufWrite] + seq![AppEvent::ModeChange(Mode::Normal)] =~= seq![
        AppEvent::BufWrite,
        AppEvent::ModeChange(Mode::Normal),
    ]);
}

} // verus!
