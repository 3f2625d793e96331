//! Commands typed in normal mode: the keys waiting to be read, the grammar
//! that reads them (`w`, `4e`, `dj`, `4d3j`, `diw`) and what a movement
//! covers in a buffer.
use vstd::prelude::*;
use crate::digits::{is_ascii_digit, parse_usize, parse_usize_spec, numeric_prefix, numeric_prefix_len};
use crate::text::{byte_len, char_width, string_of};
use crate::textobject::{Boundary, TextObject};

pub mod motion;
pub mod handlers;

verus! {

/// Keys typed so far in normal mode.
pub struct CmdBuf {
    buf: Vec<char>,
}

impl View for CmdBuf {
    type V = Seq<char>;

    closed spec fn view(&self) -> Seq<char> {
        self.buf@
    }
}

/// A movement: an optional count and the key that names it.
#[derive(Clone, Copy, Debug, PartialEq, Eq, Structural)]
pub struct Movement {
    pub count: Option<usize>,
    pub char: char,
}

/// A delete, by a text object (`diw`) or by a movement (`dj`).
#[derive(Clone, Debug, PartialEq, Eq)]
pub struct Delete {
    pub count: Option<usize>,
    pub text_object: Option<(Boundary, TextObject)>,
    pub movement: Option<Movement>,
    pub linewise: bool,
}

/// A command read from the typed keys.
#[derive(Clone, Debug, PartialEq, Eq)]
pub enum Command {
    Invalid,
    Movement(Movement),
    Delete(Delete),
}

impl Default for Delete {
    fn default() -> (d: Self)
        ensures
            d == (Delete { count: None, text_object: None, movement: None, linewise: false }),
    {
        Delete { count: None, text_object: None, movement: None, linewise: false }
    }
}

/// Length of the run of ASCII digits at the start of `s`.
pub open spec fn ascii_run(s: Seq<char>) -> nat
    decreases s.len(),
{
    if s.len() > 0 && is_ascii_digit(s[0]) {
        1 + ascii_run(s.drop_first())
    } else {
        0
    }
}

/// The keys that name a movement.
pub open spec fn is_motion_char(c: char) -> bool {
    c == 'h' || c == 'j' || c == 'k' || c == 'l' || c == '0' || c == '$' || c == 'G' || c == 'w'
        || c == 'W' || c == 'b' || c == 'B' || c == 'e' || c == 'E'
}

/// The count in front of `s`: its leading digits read as a number.
pub open spec fn leading_count(s: Seq<char>) -> Option<usize> {
    let k = ascii_run(s);
    if k == 0 {
        None
    } else {
        parse_usize_spec(s.take(k as int))
    }
}

/// `s` read as a whole as a movement: `0` alone, or an optional count and
/// a movement key.
pub open spec fn movement_spec(s: Seq<char>) -> Option<Movement> {
    if s == seq!['0'] {
        Some(Movement { count: None, char: '0' })
    } else {
        let rest = s.skip(ascii_run(s) as int);
        if rest.len() == 1 && is_motion_char(rest[0]) {
            Some(Movement { count: leading_count(s), char: rest[0] })
        } else {
            None
        }
    }
}

/// The object that the last key of `diw`-like input names.
pub open spec fn object_of_char(c: char) -> Option<TextObject> {
    if c == 'w' {
        Some(TextObject::Word)
    } else if c == 'e' {
        Some(TextObject::WordEnd)
    } else if c == '(' || c == ')' {
        Some(TextObject::Paren)
    } else if c == '{' || c == '}' {
        Some(TextObject::CurlyBracket)
    } else {
        None
    }
}

/// Object keys the grammar accepts but has no object for.
pub open spec fn unhandled_object_char(c: char) -> bool {
    c == 'W' || c == '[' || c == ']' || c == '<' || c == '>'
}

/// Walks `s` from `i` with the closing delimiters still owed in `stack`:
/// true when the last one is paid exactly at the end of `s`, with `{}` and
/// `[]` nested properly on the way.
pub open spec fn delims_close(s: Seq<char>, i: int, stack: Seq<char>) -> bool
    decreases s.len() - i,
{
    if i < 0 || i >= s.len() {
        false
    } else {
        let c = s[i];
        if c == '{' {
            delims_close(s, i + 1, stack.push('}'))
        } else if c == '[' {
            delims_close(s, i + 1, stack.push(']'))
        } else if c == '}' || c == ']' {
            if stack.len() > 0 && stack.last() == c {
                if stack.len() == 1 {
                    i + 1 == s.len()
                } else {
                    delims_close(s, i + 1, stack.drop_last())
                }
            } else {
                false
            }
        } else {
            delims_close(s, i + 1, stack)
        }
    }
}

/// Input that the reader recovers from as an invalid command: a `{...}`
/// block, nested properly.
pub open spec fn recovers(s: Seq<char>) -> bool {
    s.len() > 0 && s[0] == '{' && delims_close(s, 1, seq!['}'])
}

/// What reading `s` as a command gives: `[count]d<movement>`, then
/// `[count]d` with `a`/`i` and an object key, then a movement, then the
/// recovery of a `{...}` block; `None` when nothing reads all of `s`.
pub open spec fn parse_spec(s: Seq<char>) -> Option<Command> {
    let count = leading_count(s);
    let rest = s.skip(ascii_run(s) as int);
    if rest.len() >= 1 && rest[0] == 'd' && movement_spec(rest.skip(1)) is Some {
        Some(
            Command::Delete(
                Delete {
                    count,
                    text_object: None,
                    movement: movement_spec(rest.skip(1)),
                    linewise: false,
                },
            ),
        )
    } else if rest.len() == 3 && rest[0] == 'd' && (rest[1] == 'a' || rest[1] == 'i')
        && object_of_char(rest[2]) is Some {
        let boundary = if rest[1] == 'a' {
            Boundary::Around
        } else {
            Boundary::Inner
        };
        Some(
            Command::Delete(
                Delete {
                    count,
                    text_object: Some((boundary, object_of_char(rest[2])->0)),
                    movement: None,
                    linewise: false,
                },
            ),
        )
    } else if movement_spec(s) is Some {
        Some(Command::Movement(movement_spec(s)->0))
    } else if recovers(s) {
        Some(Command::Invalid)
    } else {
        None
    }
}

/// The inputs on which the reader gives up with a panic: a count too large
/// for a `usize` where it reads one, or an object key it has no object for.
pub open spec fn parse_panics(s: Seq<char>) -> bool {
    let k = ascii_run(s);
    let rest = s.skip(k as int);
    let after = rest.skip(1);
    ||| (k > 0 && parse_usize_spec(s.take(k as int)) is None)
    ||| (rest.len() >= 2 && rest[0] == 'd' && rest[1] != '0' && ascii_run(after) > 0
        && parse_usize_spec(after.take(ascii_run(after) as int)) is None)
    ||| (rest.len() >= 3 && rest[0] == 'd' && (rest[1] == 'a' || rest[1] == 'i')
        && unhandled_object_char(rest[2]))
}

proof fn lemma_ascii_run_exact(s: Seq<char>, k: int)
    requires
        0 <= k <= s.len(),
        forall|i: int| 0 <= i < k ==> is_ascii_digit(#[trigger] s[i]),
        k == s.len() || !is_ascii_digit(s[k]),
    ensures
        ascii_run(s) == k,
    decreases s.len(),
{
    if k > 0 {
        assert(is_ascii_digit(s[0]));
        assert forall|i: int| 0 <= i < k - 1 implies is_ascii_digit(#[trigger] s.drop_first()[i]) by {
            assert(s.drop_first()[i] == s[i + 1]);
        }
        if k - 1 < s.drop_first().len() {
            assert(s.drop_first()[k - 1] == s[k]);
        }
        lemma_ascii_run_exact(s.drop_first(), k - 1);
    } else if s.len() > 0 {
        assert(!is_ascii_digit(s[0]));
    }
}

/// A movement key alone reads as that movement with no count, and after
/// `d` as a delete over that movement.
pub proof fn law_motion_key_parses(c: char)
    requires
        is_motion_char(c),
    ensures
        parse_spec(seq![c]) == Some(Command::Movement(Movement { count: None, char: c })),
        parse_spec(seq!['d', c]) == Some(
            Command::Delete(
                Delete {
                    count: None,
                    text_object: None,
                    movement: Some(Movement { count: None, char: c }),
                    linewise: false,
                },
            ),
        ),
{
    let s = seq![c];
    let ds = seq!['d', c];
    if c == '0' {
        lemma_ascii_run_exact(s, 1);
        assert(s.skip(1).len() == 0);
    } else {
        lemma_ascii_run_exact(s, 0);
        assert(s.skip(0) =~= s);
    }
    lemma_ascii_run_exact(ds, 0);
    assert(ds.skip(0) =~= ds);
    assert(ds.skip(0).skip(1) =~= s);
}

/// A count written in decimal before a movement key (other than `0`) reads
/// as that movement with that count.
pub proof fn law_counted_motion_parses(n: usize, c: char)
    requires
        is_motion_char(c),
        !is_ascii_digit(c),
    ensures
        parse_spec(crate::digits::decimal_chars(n as nat).push(c)) == Some(
            Command::Movement(Movement { count: Some(n), char: c }),
        ),
{
    let d = crate::digits::decimal_chars(n as nat);
    let s = d.push(c);
    crate::digits::lemma_decimal_chars(n as nat);
    crate::digits::law_decimal_roundtrip(n);
    assert forall|i: int| 0 <= i < d.len() implies is_ascii_digit(#[trigger] s[i]) by {
        assert(s[i] == d[i]);
    }
    lemma_ascii_run_exact(s, d.len() as int);
    assert(s.take(d.len() as int) =~= d);
    assert(s.skip(d.len() as int) =~= seq![c]);
    assert(s != seq!['0']) by {
        assert(s.len() >= 2);
    }
}

/// The digits of `n` followed by `rest` (which starts with no digit) read
/// `n` as the leading count and leave `rest`.
proof fn lemma_count_then(n: usize, rest: Seq<char>)
    requires
        rest.len() > 0,
        !is_ascii_digit(rest[0]),
    ensures
        ({
            let s = crate::digits::decimal_chars(n as nat) + rest;
            &&& leading_count(s) == Some(n)
            &&& s.skip(ascii_run(s) as int) == rest
            &&& s != seq!['0']
        }),
{
    let d = crate::digits::decimal_chars(n as nat);
    let s = d + rest;
    crate::digits::lemma_decimal_chars(n as nat);
    crate::digits::law_decimal_roundtrip(n);
    assert forall|i: int| 0 <= i < d.len() implies is_ascii_digit(#[trigger] s[i]) by {
        assert(s[i] == d[i]);
    }
    assert(s[d.len() as int] == rest[0]);
    lemma_ascii_run_exact(s, d.len() as int);
    assert(s.take(d.len() as int) =~= d);
    assert(s.skip(d.len() as int) =~= rest);
    assert(s.len() >= 2);
}

/// A delete by a text object, with or without a count before the `d`,
/// reads as that delete: the count is kept, `a` gives the around boundary
/// and `i` the inner one.
pub proof fn law_object_delete_parses(n: usize, b: char, o: char)
    requires
        b == 'a' || b == 'i',
        object_of_char(o) is Some,
    ensures
        ({
            let boundary = if b == 'a' {
                Boundary::Around
            } else {
                Boundary::Inner
            };
            let del = |count: Option<usize>|
                Some(
                    Command::Delete(
                        Delete {
                            count,
                            text_object: Some((boundary, object_of_char(o)->0)),
                            movement: None,
                            linewise: false,
                        },
                    ),
                );
            &&& parse_spec(crate::digits::decimal_chars(n as nat) + seq!['d', b, o]) == del(Some(n))
            &&& parse_spec(seq!['d', b, o]) == del(None)
        }),
{
    let rest = seq!['d', b, o];
    lemma_count_then(n, rest);
    assert(rest.skip(1) =~= seq![b, o]);
    lemma_ascii_run_exact(seq![b, o], 0);
    assert(seq![b, o].skip(0) =~= seq![b, o]);
    lemma_ascii_run_exact(rest, 0);
    assert(rest.skip(0) =~= rest);
}

/// A delete over a movement reads as that delete: a count before the `d`
/// is the delete's count, a count after it is the movement's.
pub proof fn law_movement_delete_parses(n: usize, c: char)
    requires
        is_motion_char(c),
        !is_ascii_digit(c),
    ensures
        parse_spec(crate::digits::decimal_chars(n as nat) + seq!['d', c]) == Some(
            Command::Delete(
                Delete {
                    count: Some(n),
                    text_object: None,
                    movement: Some(Movement { count: None, char: c }),
                    linewise: false,
                },
            ),
        ),
        parse_spec(seq!['d'] + crate::digits::decimal_chars(n as nat).push(c)) == Some(
            Command::Delete(
                Delete {
                    count: None,
                    text_object: None,
                    movement: Some(Movement { count: Some(n), char: c }),
                    linewise: false,
                },
            ),
        ),
{
    let rest = seq!['d', c];
    lemma_count_then(n, rest);
    assert(rest.skip(1) =~= seq![c]);
    lemma_ascii_run_exact(seq![c], 0);
    assert(seq![c].skip(0) =~= seq![c]);
    let m = crate::digits::decimal_chars(n as nat).push(c);
    let s2 = seq!['d'] + m;
    lemma_ascii_run_exact(s2, 0);
    assert(s2.skip(0) =~= s2);
    assert(s2.skip(1) =~= m);
    law_counted_motion_parses(n, c);
    lemma_count_then(n, seq![c]);
    assert(crate::digits::decimal_chars(n as nat) + seq![c] =~= m);
}

/// Length of the run of ASCII digits in `v` from index `from`.
fn digit_run(v: &Vec<char>, from: usize) -> (k: usize)
    requires
        from <= v.len(),
    ensures
        k == ascii_run(v@.skip(from as int)),
        from + k <= v.len(),
{
    let ghost s = v@.skip(from as int);
    let mut k: usize = 0;
    while from + k < v.len() && '0' <= v[from + k] && v[from + k] <= '9'
        invariant
            from + k <= v.len(),
            s == v@.skip(from as int),
            forall|i: int| 0 <= i < k ==> is_ascii_digit(#[trigger] s[i]),
        decreases v.len() - from - k,
    {
        assert(s[k as int] == v@[from + k]);
        k = k + 1;
    }
    proof {
        if from + k < v.len() {
            assert(s[k as int] == v@[from + k]);
        }
        lemma_ascii_run_exact(s, k as int);
    }
    k
}

/// The count written with the `k` digits at `from`, if `k > 0`.
fn count_at(v: &Vec<char>, from: usize, k: usize) -> (r: Option<usize>)
    requires
        from + k <= v.len(),
        k == ascii_run(v@.skip(from as int)),
    ensures
        r == leading_count(v@.skip(from as int)),
{
    if k == 0 {
        None
    } else {
        proof {
            assert(v@.skip(from as int).take(k as int) =~= v@.subrange(from as int, from + k));
        }
        parse_usize(v.as_slice(), from, from + k)
    }
}

/// Whether `c` names a movement.
fn motion_key(c: char) -> (b: bool)
    ensures
        b == is_motion_char(c),
{
    c == 'h' || c == 'j' || c == 'k' || c == 'l' || c == '0' || c == '$' || c == 'G' || c == 'w'
        || c == 'W' || c == 'b' || c == 'B' || c == 'e' || c == 'E'
}

/// `v[from..]` read as a movement; see `movement_spec`.
fn movement_at(v: &Vec<char>, from: usize) -> (r: Option<Movement>)
    requires
        from <= v.len(),
    ensures
        r == movement_spec(v@.skip(from as int)),
{
    let ghost s = v@.skip(from as int);
    if from < v.len() && v.len() - from == 1 && v[from] == '0' {
        assert(s =~= seq!['0']);
        return Some(Movement { count: None, char: '0' });
    }
    proof {
        if s == seq!['0'] {
            assert(s.len() == 1 && s[0] == v@[from as int]);
        }
    }
    let k = digit_run(v, from);
    proof {
        assert(s.skip(k as int) =~= v@.skip(from + k));
    }
    if from + k < v.len() && v.len() - (from + k) == 1 && motion_key(v[from + k]) {
        let count = count_at(v, from, k);
        Some(Movement { count, char: v[from + k] })
    } else {
        None
    }
}

/// The object an object key names.
fn object_key(c: char) -> (r: Option<TextObject>)
    ensures
        r == object_of_char(c),
{
    if c == 'w' {
        Some(TextObject::Word)
    } else if c == 'e' {
        Some(TextObject::WordEnd)
    } else if c == '(' || c == ')' {
        Some(TextObject::Paren)
    } else if c == '{' || c == '}' {
        Some(TextObject::CurlyBracket)
    } else {
        None
    }
}

/// Whether `v` is a `{...}` block that the reader recovers from.
fn recovers_exec(v: &Vec<char>) -> (b: bool)
    ensures
        b == recovers(v@),
{
    if v.len() == 0 || v[0] != '{' {
        return false;
    }
    let mut stack: Vec<char> = vec!['}'];
    assert(stack@ =~= seq!['}']);
    let mut i: usize = 1;
    while i < v.len()
        invariant
            1 <= i <= v.len(),
            v.len() > 0 && v@[0] == '{',
            stack.len() > 0,
            stack.len() <= i,
            delims_close(v@, 1, seq!['}']) == delims_close(v@, i as int, stack@),
        decreases v.len() - i,
    {
        let c = v[i];
        if c == '{' {
            stack.push('}');
        } else if c == '[' {
            stack.push(']');
        } else if c == '}' || c == ']' {
            if stack[stack.len() - 1] == c {
                if stack.len() == 1 {
                    return i + 1 == v.len();
                }
                let ghost before = stack@;
                let _ = stack.pop();
                proof {
                    assert(stack@ =~= before.drop_last());
                }
            } else {
                return false;
            }
        }
        i = i + 1;
    }
    false
}

proof fn lemma_byte_len_prefix(s: Seq<char>, i: int, k: int)
    requires
        0 <= i <= k <= s.len(),
    ensures
        byte_len(s.take(i)) <= byte_len(s.take(k)),
    decreases k - i,
{
    if i < k {
        assert(s.take(k).drop_last() =~= s.take(k - 1));
        lemma_byte_len_prefix(s, i, k - 1);
    }
}

/// Reads `v` as a command; see `parse_spec`.
pub fn parse_command(v: &Vec<char>) -> (r: Option<Command>)
    requires
        !parse_panics(v@),
    ensures
        r == parse_spec(v@),
{
    let ghost s = v@;
    let k = digit_run(v, 0);
    assert(s.skip(0) =~= s);
    let count = count_at(v, 0, k);
    let ghost rest = s.skip(k as int);
    if k < v.len() && v[k] == 'd' {
        assert(rest[0] == v@[k as int]);
        assert(rest.skip(1) =~= s.skip(k + 1));
        let m = movement_at(v, k + 1);
        if m.is_some() {
            return Some(
                Command::Delete(Delete { count, text_object: None, movement: m, linewise: false }),
            );
        }
        if k < v.len() && v.len() - k == 3 && (v[k + 1] == 'a' || v[k + 1] == 'i') {
            assert(rest[1] == v@[k + 1] && rest[2] == v@[k + 2]);
            let obj = object_key(v[k + 2]);
            match obj {
                Some(o) => {
                    let boundary = if v[k + 1] == 'a' {
                        Boundary::Around
                    } else {
                        Boundary::Inner
                    };
                    return Some(
                        Command::Delete(
                            Delete {
                                count,
                                text_object: Some((boundary, o)),
                                movement: None,
                                linewise: false,
                            },
                        ),
                    );
                },
                None => {},
            }
        }
    }
    proof {
        if rest.len() >= 1 && rest[0] == 'd' {
            assert(rest[0] == v@[k as int]);
            if rest.len() == 3 {
                assert(rest[1] == v@[k + 1] && rest[2] == v@[k + 2]);
            }
        }
    }
    let m = movement_at(v, 0);
    if m.is_some() {
        return Some(Command::Movement(m.unwrap()));
    }
    if recovers_exec(v) {
        Some(Command::Invalid)
    } else {
        None
    }
}

impl CmdBuf {
    pub fn new() -> (b: Self)
        ensures
            b@ == Seq::<char>::empty(),
    {
        CmdBuf { buf: Vec::new() }
    }

    /// Appends a typed key.
    pub fn push(&mut self, c: char)
        ensures
            final(self)@ == old(self)@.push(c),
    {
        self.buf.push(c);
    }

    /// Takes all the keys out.
    pub fn drain(&mut self) -> (keys: Vec<char>)
        ensures
            keys@ == old(self)@,
            final(self)@ == Seq::<char>::empty(),
    {
        let mut keys: Vec<char> = Vec::new();
        std::mem::swap(&mut keys, &mut self.buf);
        keys
    }

    /// The last key typed.
    pub fn last(&self) -> (r: Option<char>)
        ensures
            r == (if self@.len() > 0 {
                Some(self@.last())
            } else {
                None
            }),
    {
        if self.buf.len() > 0 {
            Some(self.buf[self.buf.len() - 1])
        } else {
            None
        }
    }

    /// Takes the last key out.
    pub fn pop(&mut self) -> (r: Option<char>)
        ensures
            old(self)@.len() > 0 ==> r == Some(old(self)@.last()) && final(self)@ == old(
                self,
            )@.drop_last(),
            old(self)@.len() == 0 ==> r is None && final(self)@ == old(self)@,
    {
        self.buf.pop()
    }

    /// Takes the first key out.
    pub fn pop_left(&mut self) -> (r: Option<char>)
        ensures
            old(self)@.len() > 0 ==> r == Some(old(self)@[0]) && final(self)@ == old(
                self,
            )@.drop_first(),
            old(self)@.len() == 0 ==> r is None && final(self)@ == old(self)@,
    {
        if self.buf.len() == 0 {
            None
        } else {
            let c = self.buf.remove(0);
            proof {
                assert(self.buf@ =~= old(self)@.drop_first());
            }
            Some(c)
        }
    }

    /// Reads the keys as a command and, when they make one, clears them;
    /// see `parse_spec`.
    pub fn parse(&mut self) -> (r: Option<Command>)
        requires
            !parse_panics(old(self)@),
        ensures
            r == parse_spec(old(self)@),
            r is Some ==> final(self)@ == Seq::<char>::empty(),
            r is None ==> final(self)@ == old(self)@,
    {
        let r = parse_command(&self.buf);
        if r.is_some() {
            self.buf.clear();
        }
        r
    }

    /// Takes a leading count out: the numeric characters at the front are
    /// read as a number (`default_value` when there are none or they do not
    /// read as one), and as many keys are removed as those characters take
    /// bytes.
    pub fn pop_count(&mut self, default_value: usize) -> (n: usize)
        requires
            byte_len(old(self)@.take(numeric_prefix_len(old(self)@) as int)) <= old(self)@.len(),
        ensures
            ({
                let k = numeric_prefix_len(old(self)@);
                let prefix = old(self)@.take(k as int);
                &&& k == 0 ==> n == default_value && final(self)@ == old(self)@
                &&& k > 0 ==> final(self)@ == old(self)@.skip(byte_len(prefix) as int) && n == (
                match parse_usize_spec(prefix) {
                    Some(v) => v,
                    None => default_value,
                })
            }),
    {
        let ghost s = self@;
        let k = numeric_prefix(self.buf.as_slice());
        if k == 0 {
            return default_value;
        }
        proof {
            assert(numeric_prefix_len(s) <= s.len()) by {
                crate::digits::lemma_numeric_prefix_bound(s);
            }
        }
        let value = parse_usize(self.buf.as_slice(), 0, k);
        assert(s.subrange(0, k as int) =~= s.take(k as int));
        let total = self.buf.len();
        let mut bytes: usize = 0;
        let mut i: usize = 0;
        while i < k
            invariant
                i <= k <= s.len(),
                s.len() == total,
                self@ == s,
                bytes == byte_len(s.take(i as int)),
                byte_len(s.take(k as int)) <= s.len(),
            decreases k - i,
        {
            assert(s.take(i + 1).drop_last() =~= s.take(i as int));
            proof {
                lemma_byte_len_prefix(s, i + 1, k as int);
                assert(s.take(i + 1).last() == s[i as int]);
                assert(byte_len(s.take(i + 1)) == bytes + crate::text::utf8_width(s[i as int]));
            }
            bytes = bytes + char_width(self.buf[i]);
            i = i + 1;
        }
        let mut m: usize = 0;
        while m < bytes
            invariant
                m <= bytes <= s.len(),
                self@ == s.skip(m as int),
            decreases bytes - m,
        {
            self.buf.remove(0);
            assert(self@ =~= s.skip(m + 1));
            m = m + 1;
        }
        match value {
            Some(v) => v,
            None => default_value,
        }
    }

    /// Whether `pop_count` can take the leading count out: the characters of
    /// the count take no more bytes than there are keys.
    pub fn count_fits(&self) -> (b: bool)
        ensures
            b == (byte_len(self@.take(numeric_prefix_len(self@) as int)) <= self@.len()),
    {
        let ghost s = self@;
        let k = numeric_prefix(self.buf.as_slice());
        proof {
            crate::digits::lemma_numeric_prefix_bound(s);
        }
        let total = self.buf.len();
        let mut bytes: usize = 0;
        let mut i: usize = 0;
        while i < k
            invariant
                i <= k <= s.len(),
                s.len() == total,
                self@ == s,
                bytes == byte_len(s.take(i as int)),
                bytes <= total,
                k == numeric_prefix_len(s),
            decreases k - i,
        {
            assert(s.take(i + 1).drop_last() =~= s.take(i as int));
            assert(s.take(i + 1).last() == s[i as int]);
            let w = char_width(self.buf[i]);
            assert(byte_len(s.take(i + 1)) == bytes + w);
            if w > total - bytes {
                proof {
                    lemma_byte_len_prefix(s, i + 1, k as int);
                }
                return false;
            }
            bytes = bytes + w;
            i = i + 1;
        }
        true
    }

    /// A copy of the keys.
    pub fn keys(&self) -> (v: Vec<char>)
        ensures
            v@ == self@,
    {
        let mut v: Vec<char> = Vec::new();
        let mut i: usize = 0;
        while i < self.buf.len()
            invariant
                i <= self.buf.len(),
                v@ == self.buf@.take(i as int),
            decreases self.buf.len() - i,
        {
            v.push(self.buf[i]);
            i = i + 1;
            assert(v@ =~= self.buf@.take(i as int));
        }
        assert(self.buf@.take(self.buf.len() as int) =~= self.buf@);
        v
    }

    pub fn is_empty(&self) -> (b: bool)
        ensures
            b == (self@.len() == 0),
    {
        self.buf.len() == 0
    }

    /// The keys as a string.
    pub fn text(&self) -> (s: String)
        ensures
            s@ == self@,
    {
        string_of(self.buf.as_slice())
    }

    /// Takes all keys out and reads them as a number; 1 when there are
    /// none or they do not read as one.
    pub fn count(&mut self) -> (n: usize)
        ensures
            old(self)@.len() == 0 ==> n == 1,
            old(self)@.len() > 0 ==> n == (match parse_usize_spec(old(self)@) {
                Some(v) => v,
                None => 1,
            }),
            final(self)@ == Seq::<char>::empty(),
    {
        if self.buf.len() == 0 {
            return 1;
        }
        let keys = self.drain();
        let r = parse_usize(keys.as_slice(), 0, keys.len());
        assert(keys@.subrange(0, keys.len() as int) =~= keys@);
        match r {
            Some(v) => v,
            None => 1,
        }
    }
}

impl Default for CmdBuf {
    fn default() -> (b: Self)
        ensures
            b@ == Seq::<char>::empty(),
    {
        CmdBuf::new()
    }
}

} // verus!
