//! Command patterns whose verb takes a motion (`d<motion>`), where the
//! motion is a word or word-end object with an optional `a`/`i` boundary.
use vstd::prelude::*;
use crate::digits::{extract_count, extract_count_spec};
use crate::text::{chars_of, string_of, slice_to_vec};
pub use crate::textobject::MatchResult;
use crate::textobject::{
    Boundary, TextObject, Matcher, Criteria, best_over, match_one, max_result, motion_tag,
    contains_seq, pattern_of,
};

verus! {

/// A command pattern: letters with optional parts (`w[rite]`), an optional
/// leading count, or a verb that takes a motion (`d<motion>`).
#[derive(Debug, Default)]
pub struct Pattern {
    verb: Option<char>,
    matchers: Vec<Matcher>,
}

/// Something that can say how far a typed command is from it.
pub trait PatternMatcher {
    fn matches_pattern(&self, text: &str) -> MatchResult;
}

/// A motion: how often, which part, and which object.
#[derive(Debug, Default, Clone, Copy, PartialEq, Eq, Structural, Hash)]
pub struct Motion {
    pub count: Option<usize>,
    pub boundary: Boundary,
    pub object: TextObject,
}

/// The object a motion letter names: `w` or `e`.
pub open spec fn motion_letter(c: char) -> Option<TextObject> {
    if c == 'w' {
        Some(TextObject::Word)
    } else if c == 'e' {
        Some(TextObject::WordEnd)
    } else {
        None
    }
}

/// What `Motion::from_cmd` gives: an optional count, then `a`, `i`, `w` or
/// `e`, then optionally `w` or `e`; the object is the last object letter.
/// The consumed number counts one for a count, one for the first letter and
/// one for the object.
pub open spec fn motion_of(input: Seq<char>) -> (Option<Motion>, usize) {
    let (count, rest) = extract_count_spec(input);
    let base: usize = if count is Some {
        1
    } else {
        0
    };
    if rest.len() == 0 {
        (None, 0)
    } else {
        let first = rest[0];
        let boundary = if first == 'a' {
            Boundary::Around
        } else if first == 'i' {
            Boundary::Inner
        } else {
            Boundary::Current
        };
        let first_object = motion_letter(first);
        if first != 'a' && first != 'i' && first_object is None {
            (None, 0)
        } else {
            let second = if rest.len() > 1 {
                motion_letter(rest[1])
            } else {
                None
            };
            let object = if second is Some {
                second
            } else {
                first_object
            };
            match object {
                Some(o) => (Some(Motion { count, boundary, object: o }), (base + 2) as usize),
                None => (None, 0),
            }
        }
    }
}

/// How a typed motion matches: whole when it reads as a motion, partial
/// after a count-stripped `a` or `i`.
pub open spec fn motion_match_spec(input: Seq<char>) -> MatchResult {
    let rest = extract_count_spec(input).1;
    if motion_of(input).0 is Some {
        MatchResult::Match
    } else if rest.len() > 0 && (rest[0] == 'a' || rest[0] == 'i') {
        MatchResult::PartialMatch
    } else {
        MatchResult::NoMatch
    }
}

/// How `test` matches a pattern given by its verb and alternatives.
pub open spec fn verb_pattern_match(
    verb: Option<char>,
    ms: Seq<(Seq<Criteria>, bool)>,
    test: Seq<char>,
) -> MatchResult {
    match verb {
        Some(v) => if test.len() == 0 || test[0] != v {
            MatchResult::NoMatch
        } else if test.len() == 1 {
            MatchResult::PartialMatch
        } else {
            motion_match_spec(test.drop_first())
        },
        None => best_over(ms, test),
    }
}

/// The error text for a motion pattern that does not end with `<motion>`.
pub open spec fn motion_suffix_error() -> Seq<char> {
    seq![
        'd', 'o', 'e', 's', ' ', 'n', 'o', 't', ' ', 'e', 'n', 'd', ' ', 'w', 'i', 't', 'h', ' ',
        '<', 'm', 'o', 't', 'i', 'o', 'n', '>',
    ]
}

impl Pattern {
    pub closed spec fn verb_of(&self) -> Option<char> {
        self.verb
    }

    pub closed spec fn alternatives(&self) -> Seq<(Seq<Criteria>, bool)> {
        self.matchers@.map_values(|m: Matcher| crate::textobject::matcher_model(m))
    }

    /// Reads a pattern as `textobject::Pattern::from` does, but answers a
    /// motion pattern with more after the verb than `<motion>` with an error.
    pub fn try_from(value: &str) -> (r: Result<Pattern, String>)
        ensures
            (contains_seq(value@, motion_tag()) && !(value@.len() >= 1 && value@.drop_first()
                == motion_tag())) ==> r is Err && r->Err_0@ == motion_suffix_error(),
            !(contains_seq(value@, motion_tag()) && !(value@.len() >= 1 && value@.drop_first()
                == motion_tag())) ==> r is Ok && (r->Ok_0.verb_of(), r->Ok_0.alternatives())
                == pattern_of(value@),
    {
        let s = chars_of(value);
        let tag = vec!['<', 'm', 'o', 't', 'i', 'o', 'n', '>'];
        proof {
            assert(tag@ =~= motion_tag());
        }
        if crate::textobject::find_seq(&s, &tag) {
            let mut ok = s.len() == 9;
            if ok {
                let mut k: usize = 0;
                while k < 8
                    invariant
                        s.len() == 9,
                        k <= 8,
                        tag@ == motion_tag(),
                        ok == (forall|j: int| 0 <= j < k ==> s@[j + 1] == tag@[j]),
                    decreases 8 - k,
                {
                    if s[k + 1] != tag[k] {
                        ok = false;
                    }
                    k = k + 1;
                }
            }
            proof {
                if ok {
                    assert(s@.drop_first() =~= motion_tag());
                } else if s@.len() == 9 {
                    let j = choose|j: int| 0 <= j < 8 && s@[j + 1] != tag@[j];
                    assert(s@.drop_first()[j] != motion_tag()[j]);
                } else if s@.len() >= 1 {
                    assert(s@.drop_first().len() != motion_tag().len());
                }
            }
            if !ok {
                let msg = vec![
                    'd', 'o', 'e', 's', ' ', 'n', 'o', 't', ' ', 'e', 'n', 'd', ' ', 'w', 'i', 't',
                    'h', ' ', '<', 'm', 'o', 't', 'i', 'o', 'n', '>',
                ];
                proof {
                    assert(msg@ =~= motion_suffix_error());
                }
                return Err(string_of(msg.as_slice()));
            }
            let p = Pattern { verb: Some(s[0]), matchers: Vec::new() };
            proof {
                assert(p.alternatives() =~= seq![]);
            }
            return Ok(p);
        }
        let q = crate::textobject::Pattern::from(value);
        let (verb, matchers) = q.into_parts();
        let p = Pattern { verb, matchers };
        proof {
            assert(p.alternatives() =~= pattern_of(value@).1);
        }
        Ok(p)
    }

    /// `self | rhs`: the pattern that matches what either pattern matches;
    /// the verb of `self` is kept.
    pub fn bitor(self, rhs: Pattern) -> (p: Pattern)
        ensures
            p.verb_of() == self.verb_of(),
            p.alternatives() == self.alternatives() + rhs.alternatives(),
    {
        let mut s = self;
        let mut r = rhs;
        let ghost a = s.alternatives();
        let ghost b = r.alternatives();
        let ghost ma = s.matchers@;
        let ghost mb = r.matchers@;
        s.matchers.append(&mut r.matchers);
        proof {
            assert(s.matchers@ =~= ma + mb);
            assert(s.alternatives() =~= a + b);
        }
        s
    }

    /// How `test` matches this pattern.
    pub fn matches(&self, test: &str) -> (r: MatchResult)
        ensures
            r == verb_pattern_match(self.verb_of(), self.alternatives(), test@),
    {
        let t = chars_of(test);
        match self.verb {
            Some(v) => {
                if t.len() == 0 || t[0] != v {
                    return MatchResult::NoMatch;
                }
                if t.len() == 1 {
                    return MatchResult::PartialMatch;
                }
                let rest = slice_to_vec(&t, 1, t.len());
                proof {
                    assert(rest@ =~= t@.drop_first());
                }
                Motion::matches_chars(&rest)
            },
            None => {
                let mut best = MatchResult::NoMatch;
                let mut i: usize = 0;
                while i < self.matchers.len()
                    invariant
                        i <= self.matchers.len(),
                        best == best_over(self.alternatives().take(i as int), t@),
                    decreases self.matchers.len() - i,
                {
                    let m = match_one(&self.matchers[i], &t);
                    proof {
                        assert(self.alternatives().take(i + 1).drop_last() =~= self.alternatives().take(
                            i as int,
                        ));
                    }
                    best = max_result(best, m);
                    i = i + 1;
                }
                proof {
                    assert(self.alternatives().take(self.matchers.len() as int)
                        =~= self.alternatives());
                }
                best
            },
        }
    }

    /// The pattern shown as text.
    pub fn to_string(&self) -> (s: String)
        ensures
            s@ == seq!['p', 'a', 't', 't', 'e', 'r', 'n'],
    {
        let v = vec!['p', 'a', 't', 't', 'e', 'r', 'n'];
        string_of(v.as_slice())
    }
}

fn motion_letter_exec(c: char) -> (r: Option<TextObject>)
    ensures
        r == motion_letter(c),
{
    if c == 'w' {
        Some(TextObject::Word)
    } else if c == 'e' {
        Some(TextObject::WordEnd)
    } else {
        None
    }
}

impl Motion {
    /// How a typed motion matches.
    pub fn matches(input: &str) -> (r: MatchResult)
        ensures
            r == motion_match_spec(input@),
    {
        let v = chars_of(input);
        Self::matches_chars(&v)
    }

    /// How the characters of a typed motion match.
    pub fn matches_chars(input: &Vec<char>) -> (r: MatchResult)
        ensures
            r == motion_match_spec(input@),
    {
        let (m, _) = Self::from_chars(input);
        if m.is_some() {
            return MatchResult::Match;
        }
        let (_, rest) = extract_count(input.as_slice());
        if rest.len() > 0 && (rest[0] == 'a' || rest[0] == 'i') {
            MatchResult::PartialMatch
        } else {
            MatchResult::NoMatch
        }
    }

    /// Reads a motion from a typed command; see `motion_of`.
    pub fn from_cmd(input: &str) -> (r: (Option<Self>, usize))
        ensures
            r == motion_of(input@),
    {
        let v = chars_of(input);
        Self::from_chars(&v)
    }

    /// `from_cmd` on characters.
    pub fn from_chars(input: &Vec<char>) -> (r: (Option<Self>, usize))
        ensures
            r == motion_of(input@),
    {
        let (count, rest) = extract_count(input.as_slice());
        let base: usize = if count.is_some() {
            1
        } else {
            0
        };
        if rest.len() == 0 {
            return (None, 0);
        }
        let first = rest[0];
        let boundary = if first == 'a' {
            Boundary::Around
        } else if first == 'i' {
            Boundary::Inner
        } else {
            Boundary::Current
        };
        let first_object = motion_letter_exec(first);
        if first != 'a' && first != 'i' && first_object.is_none() {
            return (None, 0);
        }
        let second = if rest.len() > 1 {
            motion_letter_exec(rest[1])
        } else {
            None
        };
        let object = if second.is_some() {
            second
        } else {
            first_object
        };
        match object {
            Some(o) => (Some(Motion { count, boundary, object: o }), base + 2),
            None => (None, 0),
        }
    }
}

} // verus!
