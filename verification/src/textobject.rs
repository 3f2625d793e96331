//! Text objects (`w`, `e`, `(`, `{`), their boundaries (`a`, `i`), and the
//! patterns that recognise commands such as `w[rite]`, `<count>g[g]` or
//! `d<motion>` while they are being typed.
use vstd::prelude::*;
use crate::digits::{extract_count, extract_count_spec};
use crate::text::chars_of;

verus! {

/// What a command acts on.
#[derive(Debug, Default, Clone, Copy, PartialEq, Eq, Structural, Hash)]
pub enum TextObject {
    /// `()`
    #[default]
    Paren,
    /// `{}`
    CurlyBracket,
    Word,
    /// `e`
    WordEnd,
    /// `b`
    Back,
}

/// Which part of a text object a command takes.
#[derive(Debug, Default, Clone, Copy, PartialEq, Eq, Structural, Hash)]
pub enum Boundary {
    /// From the cursor on.
    #[default]
    Current,
    Inner,
    /// The object with its surroundings.
    Around,
}

pub open spec fn open_symbol_of(o: TextObject) -> Option<char> {
    match o {
        TextObject::Paren => Some('('),
        TextObject::CurlyBracket => Some('{'),
        _ => None,
    }
}

pub open spec fn close_symbol_of(o: TextObject) -> Option<char> {
    match o {
        TextObject::Paren => Some(')'),
        TextObject::CurlyBracket => Some('}'),
        _ => None,
    }
}

impl TextObject {
    /// The character that opens a delimited object.
    pub fn open_symbol(&self) -> (r: Option<char>)
        ensures
            r == open_symbol_of(*self),
    {
        match self {
            TextObject::Paren => Some('('),
            TextObject::CurlyBracket => Some('{'),
            _ => None,
        }
    }

    /// The character that closes a delimited object.
    pub fn close_symbol(&self) -> (r: Option<char>)
        ensures
            r == close_symbol_of(*self),
    {
        match self {
            TextObject::Paren => Some(')'),
            TextObject::CurlyBracket => Some('}'),
            _ => None,
        }
    }
}

/// How far a typed command is from a pattern.
#[derive(Debug, Clone, Copy, PartialEq, Eq, Structural)]
pub enum MatchResult {
    NoMatch,
    PartialMatch,
    Match,
}

/// The order of match results: no match, partial match, match.
pub open spec fn rank(m: MatchResult) -> int {
    match m {
        MatchResult::NoMatch => 0,
        MatchResult::PartialMatch => 1,
        MatchResult::Match => 2,
    }
}

/// The better of two match results.
pub open spec fn better(a: MatchResult, b: MatchResult) -> MatchResult {
    if rank(b) >= rank(a) {
        b
    } else {
        a
    }
}

/// The better of two match results.
pub fn max_result(a: MatchResult, b: MatchResult) -> (r: MatchResult)
    ensures
        r == better(a, b),
{
    let ra: u8 = match a {
        MatchResult::NoMatch => 0,
        MatchResult::PartialMatch => 1,
        MatchResult::Match => 2,
    };
    let rb: u8 = match b {
        MatchResult::NoMatch => 0,
        MatchResult::PartialMatch => 1,
        MatchResult::Match => 2,
    };
    if rb >= ra {
        b
    } else {
        a
    }
}

/// One letter of a pattern and whether it is required; letters inside
/// `[...]` are optional.
pub type Criteria = (char, bool);

/// The letters of one alternative of a pattern, and whether a count may
/// come first.
#[derive(Debug, Default)]
pub struct Matcher {
    pub criterias: Vec<Criteria>,
    pub accept_count: bool,
}

/// A command pattern, e.g. `w[rite]` matches `w`, `wr`, ... `write`; a
/// pattern with a verb (`d<motion>`) matches the verb followed by a text
/// object.
#[derive(Debug, Default)]
pub struct Pattern {
    verb: Option<char>,
    matchers: Vec<Matcher>,
}

/// A matcher as a value: its letters and whether it takes a count.
pub open spec fn matcher_model(m: Matcher) -> (Seq<Criteria>, bool) {
    (m.criterias@, m.accept_count)
}

/// `t` could still become, or is, a word of the letters `cs`: it is no
/// longer than `cs` and agrees with it letter by letter.
pub open spec fn prefix_of_criteria(cs: Seq<Criteria>, t: Seq<char>) -> bool {
    t.len() <= cs.len() && forall|i: int| 0 <= i < t.len() ==> t[i] == (#[trigger] cs[i]).0
}

/// No letter from index `from` on is required.
pub open spec fn rest_optional(cs: Seq<Criteria>, from: nat) -> bool {
    forall|j: int| from <= j < cs.len() ==> !(#[trigger] cs[j]).1
}

/// How `test` matches one alternative: a count is dropped first where the
/// alternative takes one; then every letter typed must agree with the
/// pattern, and the match is whole when no required letter is left after
/// the typed ones.
pub open spec fn match_one_spec(cs: Seq<Criteria>, accept_count: bool, test: Seq<char>) -> MatchResult {
    let t = if accept_count {
        extract_count_spec(test).1
    } else {
        test
    };
    if !prefix_of_criteria(cs, t) {
        MatchResult::NoMatch
    } else if rest_optional(cs, t.len()) {
        MatchResult::Match
    } else {
        MatchResult::PartialMatch
    }
}

/// The best result over the alternatives `ms`, `NoMatch` when there are none.
pub open spec fn best_over(ms: Seq<(Seq<Criteria>, bool)>, test: Seq<char>) -> MatchResult
    decreases ms.len(),
{
    if ms.len() == 0 {
        MatchResult::NoMatch
    } else {
        better(best_over(ms.drop_last(), test), match_one_spec(ms.last().0, ms.last().1, test))
    }
}

/// What `parse_textobject` gives for `input`: an optional count, then `a`,
/// `i` or an object letter, then optionally an object letter; the object is
/// the last object letter seen. The consumed number counts one for a count
/// (whatever its length), one for the first letter and one for the object.
pub open spec fn parse_textobject_spec(input: Seq<char>) -> (
    Option<(TextObject, Boundary, Option<usize>)>,
    usize,
) {
    let (count, rest) = extract_count_spec(input);
    let base: usize = if count is Some {
        1
    } else {
        0
    };
    if rest.len() == 0 {
        (None, 0)
    } else {
        let first = rest[0];
        let boundary = if first == 'a' {
            Boundary::Around
        } else if first == 'i' {
            Boundary::Inner
        } else {
            Boundary::Current
        };
        let first_object = object_letter(first);
        if first != 'a' && first != 'i' && first_object is None {
            (None, 0)
        } else {
            let second_object = if rest.len() > 1 {
                object_letter(rest[1])
            } else {
                None
            };
            let object = if second_object is Some {
                second_object
            } else {
                first_object
            };
            match object {
                Some(o) => (Some((o, boundary, count)), (base + 2) as usize),
                None => (None, 0),
            }
        }
    }
}

/// The object a letter names: `w`, `e`, `(`, `{`.
pub open spec fn object_letter(c: char) -> Option<TextObject> {
    if c == 'w' {
        Some(TextObject::Word)
    } else if c == 'e' {
        Some(TextObject::WordEnd)
    } else if c == '(' {
        Some(TextObject::Paren)
    } else if c == '{' {
        Some(TextObject::CurlyBracket)
    } else {
        None
    }
}

/// How a typed motion matches: whole when it parses as a text object,
/// partial while only a non-zero count or an `a`/`i` has been typed.
pub open spec fn match_textobject_spec(input: Seq<char>) -> MatchResult {
    let (count, rest) = extract_count_spec(input);
    if parse_textobject_spec(input).0 is Some {
        MatchResult::Match
    } else if count is Some && count->0 > 0 {
        MatchResult::PartialMatch
    } else if rest.len() > 0 && (rest[0] == 'a' || rest[0] == 'i') {
        MatchResult::PartialMatch
    } else {
        MatchResult::NoMatch
    }
}

/// How `test` matches a pattern given by its verb and alternatives.
pub open spec fn pattern_match_spec(
    verb: Option<char>,
    ms: Seq<(Seq<Criteria>, bool)>,
    test: Seq<char>,
) -> MatchResult {
    match verb {
        Some(v) => if test.len() == 0 || test[0] != v {
            MatchResult::NoMatch
        } else if test.len() == 1 {
            MatchResult::PartialMatch
        } else {
            match_textobject_spec(test.drop_first())
        },
        None => best_over(ms, test),
    }
}

pub open spec fn motion_tag() -> Seq<char> {
    seq!['<', 'm', 'o', 't', 'i', 'o', 'n', '>']
}

pub open spec fn count_tag() -> Seq<char> {
    seq!['<', 'c', 'o', 'u', 'n', 't', '>']
}

/// `needle` occurs in `hay`.
pub open spec fn contains_seq(hay: Seq<char>, needle: Seq<char>) -> bool {
    exists|i: int|
        0 <= i && i + needle.len() <= hay.len() && #[trigger] hay.subrange(i, i + needle.len())
            == needle
}

/// The letters of a pattern text without `<count>`: `[` makes the letters up
/// to `]` optional.
pub open spec fn criteria_of(s: Seq<char>, required: bool) -> Seq<Criteria>
    decreases s.len(),
{
    if s.len() == 0 {
        seq![]
    } else if s[0] == '[' {
        criteria_of(s.drop_first(), false)
    } else if s[0] == ']' {
        criteria_of(s.drop_first(), true)
    } else {
        seq![(s[0], required)] + criteria_of(s.drop_first(), required)
    }
}

/// The pattern a text describes: `v<motion>` gives verb `v`; otherwise one
/// alternative, which takes a count when the text starts with `<count>`.
pub open spec fn pattern_of(s: Seq<char>) -> (Option<char>, Seq<(Seq<Criteria>, bool)>) {
    if contains_seq(s, motion_tag()) {
        (Some(s[0]), seq![])
    } else {
        let accept = s.len() >= count_tag().len() && s.take(count_tag().len() as int)
            == count_tag();
        let body = if accept {
            s.skip(count_tag().len() as int)
        } else {
            s
        };
        (None, seq![(criteria_of(body, true), accept)])
    }
}

/// Whether `needle` occurs in `hay`.
pub(crate) fn find_seq(hay: &Vec<char>, needle: &Vec<char>) -> (r: bool)
    ensures
        r == contains_seq(hay@, needle@),
{
    if needle.len() > hay.len() {
        return false;
    }
    let mut i: usize = 0;
    while i <= hay.len() - needle.len()
        invariant
            needle.len() <= hay.len(),
            forall|k: int|
                0 <= k < i ==> #[trigger] hay@.subrange(k, k + needle@.len()) != needle@,
        decreases hay.len() - i,
    {
        let mut j: usize = 0;
        let mut same = true;
        while j < needle.len()
            invariant
                i + needle.len() <= hay.len(),
                j <= needle.len(),
                same == (forall|k: int| 0 <= k < j ==> hay@[i + k] == needle@[k]),
            decreases needle.len() - j,
        {
            if hay[i + j] != needle[j] {
                same = false;
            }
            j = j + 1;
        }
        if same {
            proof {
                assert(hay@.subrange(i as int, i + needle@.len()) =~= needle@);
            }
            return true;
        }
        proof {
            let k = choose|k: int| 0 <= k < needle.len() && hay@[i + k] != needle@[k];
            assert(hay@.subrange(i as int, i + needle@.len())[k] == hay@[i + k]);
            assert(hay@.subrange(i as int, i + needle@.len())[k] != needle@[k]);
        }
        i = i + 1;
    }
    proof {
        assert forall|k: int|
            0 <= k && k + needle@.len() <= hay@.len() implies #[trigger] hay@.subrange(
            k,
            k + needle@.len(),
        ) != needle@ by {
            assert(k < i);
        }
    }
    false
}

proof fn lemma_criteria_step(s: Seq<char>, req: bool)
    requires
        s.len() > 0,
    ensures
        s[0] == '[' ==> criteria_of(s, req) == criteria_of(s.drop_first(), false),
        s[0] == ']' ==> criteria_of(s, req) == criteria_of(s.drop_first(), true),
        s[0] != '[' && s[0] != ']' ==> criteria_of(s, req) == seq![(s[0], req)] + criteria_of(
            s.drop_first(),
            req,
        ),
{
}

fn criteria_from(s: &Vec<char>, from: usize) -> (r: Vec<Criteria>)
    requires
        from <= s.len(),
    ensures
        r@ == criteria_of(s@.skip(from as int), true),
{
    let mut out: Vec<Criteria> = Vec::new();
    let mut required = true;
    let mut i = from;
    while i < s.len()
        invariant
            from <= i <= s.len(),
            out@ + criteria_of(s@.skip(i as int), required) == criteria_of(
                s@.skip(from as int),
                true,
            ),
        decreases s.len() - i,
    {
        let c = s[i];
        proof {
            assert(s@.skip(i as int).drop_first() =~= s@.skip(i + 1));
            assert(s@.skip(i as int)[0] == c);
            lemma_criteria_step(s@.skip(i as int), required);
        }
        if c == '[' {
            proof {
                assert(s@.skip(i as int)[0] == c);
            }
            required = false;
        } else if c == ']' {
            proof {
                assert(s@.skip(i as int)[0] == c);
            }
            required = true;
        } else {
            let cr: Criteria = (c, required);
            proof {
                assert(out@.push(cr) + criteria_of(s@.skip(i + 1), required) =~= out@ + (seq![cr]
                    + criteria_of(s@.skip(i + 1), required)));
            }
            out.push(cr);
        }
        i = i + 1;
    }
    proof {
        assert(out@ + criteria_of(s@.skip(i as int), required) =~= out@);
    }
    out
}

impl Pattern {
    /// The verb of a `v<motion>` pattern.
    pub closed spec fn verb_of(&self) -> Option<char> {
        self.verb
    }

    /// The alternatives as values.
    pub closed spec fn alternatives(&self) -> Seq<(Seq<Criteria>, bool)> {
        self.matchers@.map_values(|m: Matcher| matcher_model(m))
    }

    /// Reads a pattern: `v<motion>` (the text must then be exactly the verb
    /// and `<motion>`), or letters with `[...]` marking optional ones, after
    /// an optional `<count>`.
    pub fn from(value: &str) -> (p: Pattern)
        requires
            contains_seq(value@, motion_tag()) ==> value@.len() >= 1 && value@.drop_first()
                == motion_tag(),
        ensures
            (p.verb_of(), p.alternatives()) == pattern_of(value@),
    {
        let s = chars_of(value);
        let tag = vec!['<', 'm', 'o', 't', 'i', 'o', 'n', '>'];
        proof {
            assert(tag@ =~= motion_tag());
        }
        if find_seq(&s, &tag) {
            let p = Pattern { verb: Some(s[0]), matchers: Vec::new() };
            proof {
                assert(p.alternatives() =~= seq![]);
            }
            return p;
        }
        let ctag = vec!['<', 'c', 'o', 'u', 'n', 't', '>'];
        proof {
            assert(ctag@ =~= count_tag());
        }
        let mut accept = s.len() >= 7;
        if accept {
            let mut k: usize = 0;
            while k < 7
                invariant
                    s.len() >= 7,
                    k <= 7,
                    ctag@ == count_tag(),
                    accept == (forall|j: int| 0 <= j < k ==> s@[j] == ctag@[j]),
                decreases 7 - k,
            {
                if s[k] != ctag[k] {
                    accept = false;
                }
                k = k + 1;
            }
            proof {
                if accept {
                    assert(s@.take(7) =~= count_tag());
                } else {
                    let j = choose|j: int| 0 <= j < 7 && s@[j] != ctag@[j];
                    assert(s@.take(7)[j] != count_tag()[j]);
                }
            }
        }
        let from: usize = if accept {
            7
        } else {
            0
        };
        let criterias = criteria_from(&s, from);
        proof {
            assert(s@.skip(0) =~= s@);
        }
        let mut matchers: Vec<Matcher> = Vec::new();
        matchers.push(Matcher { criterias, accept_count: accept });
        let p = Pattern { verb: None, matchers };
        proof {
            assert(p.alternatives() =~= pattern_of(value@).1);
        }
        p
    }

    /// The verb and the alternatives.
    pub fn into_parts(self) -> (r: (Option<char>, Vec<Matcher>))
        ensures
            r.0 == self.verb_of(),
            r.1@.map_values(|m: Matcher| matcher_model(m)) == self.alternatives(),
    {
        (self.verb, self.matchers)
    }

    /// How `test` matches this pattern.
    pub fn matches(&self, test: &str) -> (r: MatchResult)
        ensures
            r == pattern_match_spec(self.verb_of(), self.alternatives(), test@),
    {
        let t = chars_of(test);
        self.matches_chars(&t)
    }

    /// How the characters `t` match this pattern.
    pub fn matches_chars(&self, t: &Vec<char>) -> (r: MatchResult)
        ensures
            r == pattern_match_spec(self.verb_of(), self.alternatives(), t@),
    {
        match self.verb {
            Some(v) => {
                if t.len() == 0 || t[0] != v {
                    return MatchResult::NoMatch;
                }
                if t.len() == 1 {
                    return MatchResult::PartialMatch;
                }
                let rest = crate::text::slice_to_vec(t, 1, t.len());
                proof {
                    assert(rest@ =~= t@.drop_first());
                }
                match_textobject_chars(&rest)
            },
            None => {
                let mut best = MatchResult::NoMatch;
                let mut i: usize = 0;
                while i < self.matchers.len()
                    invariant
                        self.verb is None,
                        i <= self.matchers.len(),
                        best == best_over(self.alternatives().take(i as int), t@),
                    decreases self.matchers.len() - i,
                {
                    let m = match_one(&self.matchers[i], t);
                    proof {
                        assert(self.alternatives().take(i + 1).drop_last() =~= self.alternatives().take(
                            i as int,
                        ));
                    }
                    best = max_result(best, m);
                    i = i + 1;
                }
                proof {
                    assert(self.alternatives().take(self.matchers.len() as int)
                        =~= self.alternatives());
                }
                best
            },
        }
    }

    /// The pattern that matches what either pattern matches; the verb of
    /// `self` is kept.
    pub fn union(self, rhs: Pattern) -> (p: Pattern)
        ensures
            p.verb_of() == self.verb_of(),
            p.alternatives() == self.alternatives() + rhs.alternatives(),
    {
        let mut s = self;
        let mut r = rhs;
        let ghost a = s.alternatives();
        let ghost b = r.alternatives();
        let ghost ma = s.matchers@;
        let ghost mb = r.matchers@;
        s.matchers.append(&mut r.matchers);
        proof {
            assert(s.matchers@ =~= ma + mb);
            assert(s.alternatives() =~= a + b);
        }
        s
    }
}

/// How `test` matches one alternative of a pattern; see `match_one_spec`.
pub fn match_one(matcher: &Matcher, test: &Vec<char>) -> (r: MatchResult)
    ensures
        r == match_one_spec(matcher.criterias@, matcher.accept_count, test@),
{
    let t: Vec<char> = if matcher.accept_count {
        let (_, stripped) = extract_count(test.as_slice());
        stripped
    } else {
        crate::text::slice_to_vec(test, 0, test.len())
    };
    proof {
        if !matcher.accept_count {
            assert(t@ =~= test@);
        }
    }
    let ghost tt = if matcher.accept_count {
        extract_count_spec(test@).1
    } else {
        test@
    };
    let cs = &matcher.criterias;
    let mut i: usize = 0;
    while i < t.len()
        invariant
            i <= t.len(),
            i <= cs@.len(),
            t@ == tt,
            cs@ == matcher.criterias@,
            tt == (if matcher.accept_count {
                extract_count_spec(test@).1
            } else {
                test@
            }),
            forall|k: int| 0 <= k < i ==> k < cs@.len() && t@[k] == (#[trigger] cs@[k]).0,
        decreases t.len() - i,
    {
        if i >= cs.len() {
            return MatchResult::NoMatch;
        }
        if t[i] != cs[i].0 {
            return MatchResult::NoMatch;
        }
        i = i + 1;
    }
    assert(prefix_of_criteria(cs@, t@));
    let n = t.len();
    let mut j: usize = n;
    while j < cs.len()
        invariant
            n <= j,
            n == t@.len(),
            t@ == tt,
            cs@ == matcher.criterias@,
            prefix_of_criteria(cs@, t@),
            tt == (if matcher.accept_count {
                extract_count_spec(test@).1
            } else {
                test@
            }),
            forall|k: int| n <= k < j ==> !(#[trigger] cs@[k]).1,
        decreases cs.len() - j,
    {
        if cs[j].1 {
            return MatchResult::PartialMatch;
        }
        j = j + 1;
    }
    MatchResult::Match
}


/// No bracket and no `<` among the characters of `s`.
pub open spec fn plain_letters(s: Seq<char>) -> bool {
    forall|i: int| 0 <= i < s.len() ==> s[i] != '[' && s[i] != ']' && s[i] != '<'
}

/// The letters of a pattern text that starts with plain letters: those
/// letters, each required as `r` says, then the letters of the rest.
proof fn lemma_criteria_plain(a: Seq<char>, rest: Seq<char>, r: bool)
    requires
        plain_letters(a),
    ensures
        criteria_of(a + rest, r) == a.map_values(|ch: char| (ch, r)) + criteria_of(rest, r),
    decreases a.len(),
{
    if a.len() == 0 {
        assert(a + rest =~= rest);
        assert(a.map_values(|ch: char| (ch, r)) + criteria_of(rest, r) =~= criteria_of(rest, r));
    } else {
        assert((a + rest).drop_first() =~= a.drop_first() + rest);
        lemma_criteria_plain(a.drop_first(), rest, r);
        assert(a.map_values(|ch: char| (ch, r)) =~= seq![(a[0], r)] + a.drop_first().map_values(
            |ch: char| (ch, r),
        ));
    }
}

/// The pattern of plain letters `a` followed by plain letters `b` in
/// brackets: one alternative without a count, the letters of `a` required
/// and those of `b` optional.
proof fn lemma_optional_pattern(a: Seq<char>, b: Seq<char>)
    requires
        plain_letters(a),
        plain_letters(b),
    ensures
        pattern_of(a + seq!['['] + b + seq![']']) == (
            None::<char>,
            seq![(a.map_values(|ch: char| (ch, true)) + b.map_values(|ch: char| (ch, false)), false)],
        ),
{
    let p = a + seq!['['] + b + seq![']'];
    let tail = seq!['['] + b + seq![']'];
    assert(p =~= a + tail);
    lemma_criteria_plain(a, tail, true);
    assert(tail.drop_first() =~= b + seq![']']);
    lemma_criteria_step(tail, true);
    lemma_criteria_plain(b, seq![']'], false);
    assert(seq![']'].drop_first() =~= Seq::<char>::empty());
    lemma_criteria_step(seq![']'], false);
    assert(criteria_of(Seq::<char>::empty(), true) =~= Seq::<Criteria>::empty());
    assert(criteria_of(p, true) =~= a.map_values(|ch: char| (ch, true)) + b.map_values(
        |ch: char| (ch, false),
    ));
    assert(!contains_seq(p, motion_tag())) by {
        assert forall|i: int|
            0 <= i && i + motion_tag().len() <= p.len() implies #[trigger] p.subrange(
            i,
            i + motion_tag().len(),
        ) != motion_tag() by {
            assert(p.subrange(i, i + motion_tag().len())[0] == p[i]);
            if i < a.len() {
                assert(p[i] == a[i]);
            } else if i == a.len() {
            } else if i < a.len() + 1 + b.len() {
                assert(p[i] == b[i - a.len() - 1]);
            }
        }
    }
    if p.len() >= count_tag().len() {
        assert(p.take(count_tag().len() as int)[0] == p[0]);
        if a.len() > 0 {
            assert(p[0] == a[0]);
        }
    }
}

/// A pattern of one alternative matches as that alternative does.
proof fn lemma_single_alternative(cs: Seq<Criteria>, test: Seq<char>)
    ensures
        best_over(seq![(cs, false)], test) == match_one_spec(cs, false, test),
{
    let ms = seq![(cs, false)];
    assert(ms.drop_last() =~= Seq::<(Seq<Criteria>, bool)>::empty());
    assert(best_over(ms.drop_last(), test) == MatchResult::NoMatch);
    assert(ms.last() == (cs, false));
}

/// A pattern of plain letters `a` followed by plain letters `b` in
/// brackets (`w[rite]`) matches `a` followed by any prefix of `b` whole,
/// a shorter prefix of `a` partly, and nothing that types another letter
/// than the pattern's or more letters than it has.
pub proof fn law_optional_letters_match(a: Seq<char>, b: Seq<char>, k: int, x: char)
    requires
        plain_letters(a),
        plain_letters(b),
    ensures
        ({
            let p = a + seq!['['] + b + seq![']'];
            let verb = pattern_of(p).0;
            let ms = pattern_of(p).1;
            &&& 0 <= k <= b.len() ==> pattern_match_spec(verb, ms, a + b.take(k)) == MatchResult::Match
            &&& 0 <= k < a.len() ==> pattern_match_spec(verb, ms, a.take(k))
                == MatchResult::PartialMatch
            &&& 0 <= k < a.len() && x != a[k] ==> pattern_match_spec(verb, ms, a.take(k).push(x))
                == MatchResult::NoMatch
            &&& 0 <= k < b.len() && x != b[k] ==> pattern_match_spec(
                verb,
                ms,
                (a + b.take(k)).push(x),
            ) == MatchResult::NoMatch
            &&& pattern_match_spec(verb, ms, (a + b).push(x)) == MatchResult::NoMatch
        }),
{
    let ca = a.map_values(|ch: char| (ch, true));
    let cb = b.map_values(|ch: char| (ch, false));
    let cs = ca + cb;
    lemma_optional_pattern(a, b);
    if 0 <= k <= b.len() {
        let t = a + b.take(k);
        lemma_single_alternative(cs, t);
        assert(prefix_of_criteria(cs, t));
        assert(rest_optional(cs, t.len()));
    }
    if 0 <= k < a.len() {
        let t = a.take(k);
        lemma_single_alternative(cs, t);
        assert(prefix_of_criteria(cs, t));
        assert(cs[k].1);
        if x != a[k] {
            let t2 = a.take(k).push(x);
            lemma_single_alternative(cs, t2);
            assert(t2[k] != cs[k].0);
        }
    }
    if 0 <= k < b.len() && x != b[k] {
        let t3 = (a + b.take(k)).push(x);
        lemma_single_alternative(cs, t3);
        assert(t3[a.len() + k] != cs[a.len() + k].0);
    }
    let t4 = (a + b).push(x);
    lemma_single_alternative(cs, t4);
    assert(t4.len() > cs.len());
}

/// With two verb-less patterns, the union matches a command exactly as well
/// as the better of the two.
pub proof fn law_union_matches_best(
    a: Seq<(Seq<Criteria>, bool)>,
    b: Seq<(Seq<Criteria>, bool)>,
    test: Seq<char>,
)
    ensures
        pattern_match_spec(None, a + b, test) == better(
            pattern_match_spec(None, a, test),
            pattern_match_spec(None, b, test),
        ),
    decreases b.len(),
{
    if b.len() == 0 {
        assert(a + b =~= a);
    } else {
        assert((a + b).drop_last() =~= a + b.drop_last());
        law_union_matches_best(a, b.drop_last(), test);
    }
}

/// How a typed motion (`iw`, `2w`, `a(`...) matches.
pub fn match_textobject(input: &str) -> (r: MatchResult)
    ensures
        r == match_textobject_spec(input@),
{
    let v = chars_of(input);
    match_textobject_chars(&v)
}

/// How the characters of a typed motion match.
pub fn match_textobject_chars(input: &Vec<char>) -> (r: MatchResult)
    ensures
        r == match_textobject_spec(input@),
{
    let (m, _) = parse_textobject_chars(input);
    if m.is_some() {
        return MatchResult::Match;
    }
    let (count, rest) = extract_count(input.as_slice());
    if count.is_some() && count.unwrap() > 0 {
        return MatchResult::PartialMatch;
    }
    if rest.len() > 0 && (rest[0] == 'a' || rest[0] == 'i') {
        MatchResult::PartialMatch
    } else {
        MatchResult::NoMatch
    }
}

fn object_letter_exec(c: char) -> (r: Option<TextObject>)
    ensures
        r == object_letter(c),
{
    if c == 'w' {
        Some(TextObject::Word)
    } else if c == 'e' {
        Some(TextObject::WordEnd)
    } else if c == '(' {
        Some(TextObject::Paren)
    } else if c == '{' {
        Some(TextObject::CurlyBracket)
    } else {
        None
    }
}

/// Reads a text object with its count and boundary from a typed motion;
/// see `parse_textobject_spec`.
pub fn parse_textobject(input: &str) -> (r: (Option<(TextObject, Boundary, Option<usize>)>, usize))
    ensures
        r == parse_textobject_spec(input@),
{
    let v = chars_of(input);
    parse_textobject_chars(&v)
}

/// `parse_textobject` on characters.
pub fn parse_textobject_chars(input: &Vec<char>) -> (r: (
    Option<(TextObject, Boundary, Option<usize>)>,
    usize,
))
    ensures
        r == parse_textobject_spec(input@),
{
    let (count, rest) = extract_count(input.as_slice());
    let base: usize = if count.is_some() {
        1
    } else {
        0
    };
    if rest.len() == 0 {
        return (None, 0);
    }
    let first = rest[0];
    let boundary = if first == 'a' {
        Boundary::Around
    } else if first == 'i' {
        Boundary::Inner
    } else {
        Boundary::Current
    };
    let first_object = object_letter_exec(first);
    if first != 'a' && first != 'i' && first_object.is_none() {
        return (None, 0);
    }
    let second_object = if rest.len() > 1 {
        object_letter_exec(rest[1])
    } else {
        None
    };
    let object = if second_object.is_some() {
        second_object
    } else {
        first_object
    };
    match object {
        Some(o) => (Some((o, boundary, count)), base + 2),
        None => (None, 0),
    }
}

/// A place in a text, by row and column.
pub type Location = crate::span::Position;

/// The span of one `object` with `boundary` in `text`, at `at`: the text in
/// a buffer of its own, the cursor moved to `at`. `None` when the cursor
/// does not land on a character, or the span gives up.
pub open spec fn text_span_spec(text: Seq<char>, at: Location, boundary: Boundary, object: TextObject) -> Option<
    crate::span::Span,
> {
    let n = text.len() as int;
    let c = crate::buffer::position_target(text, 0, at.row as int, at.col as int);
    if c >= n {
        None
    } else {
        crate::buffer::scan::span_spec(
            text,
            c,
            crate::text::row_at(text, c) as usize,
            crate::text::col_at(text, c) as usize,
            crate::pattern::Motion { count: Some(1), boundary, object },
        )
    }
}

/// The span of one `object` with `boundary` in `text` at `at`; see
/// `text_span_spec`.
pub fn span(text: &str, at: Location, boundary: Boundary, object: TextObject) -> (r: Option<
    crate::span::Span,
>)
    requires
        text@.len() <= usize::MAX / 16,
    ensures
        r == text_span_spec(text@, at, boundary, object),
{
    let mut buf = crate::buffer::Buffer::from(text);
    proof {
        buf.lemma_wf();
    }
    buf.position(at.row, at.col);
    proof {
        buf.lemma_wf();
    }
    if buf.cursor_index() >= buf.len() {
        return None;
    }
    buf.span_checked(crate::pattern::Motion { count: Some(1), boundary, object })
}

} // verus!
