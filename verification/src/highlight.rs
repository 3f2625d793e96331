//! Syntax highlighting: the grammars a file type uses, parsing the code
//! and running the grammar's highlight query with tree-sitter, the classes
//! of the query's captures, the colours of each class, and how captured
//! byte ranges become a run of styled and plain segments covering the code.
use vstd::prelude::*;
use crate::text::chars_of;
use tree_sitter::StreamingIterator;
use tree_sitter::{Language, Parser, Query, QueryCursor};

verus! {

/// The classes of captured syntax.
#[derive(Debug, Clone, Copy, PartialEq, Eq, Structural)]
pub enum Capture {
    /// No class: plain text.
    Plain,
    Keyword,
    Func,
    String,
    Number,
    Comment,
    Type,
    Operator,
    Property,
    Constant,
    Escape,
}

/// The grammars (language and highlight query) the file types use.
#[derive(Debug, Clone, Copy, PartialEq, Eq, Structural)]
pub enum Grammar {
    Go,
    MarkdownBlock,
    MarkdownInline,
}

/// A colour (as `0xRRGGBB`) with italic and bold flags.
#[derive(Debug, Clone, Copy, PartialEq, Eq, Structural)]
pub struct Style {
    pub fg: u32,
    pub italic: bool,
    pub bold: bool,
}

/// The class of a capture name.
pub open spec fn capture_class_spec(name: Seq<char>) -> Capture {
    if name == "keyword"@ || name == "constant.builtin"@ {
        Capture::Keyword
    } else if name == "function"@ || name == "function.method"@ || name == "function.builtin"@
        || name == "function.call"@ {
        Capture::Func
    } else if name == "string"@ || name == "string.special"@ || name == "text.literal"@ {
        Capture::String
    } else if name == "number"@ || name == "float"@ {
        Capture::Number
    } else if name == "comment"@ {
        Capture::Comment
    } else if name == "type"@ || name == "type.builtin"@ {
        Capture::Type
    } else if name == "operator"@ || name == "punctuation.delimiter"@ {
        Capture::Operator
    } else if name == "property"@ || name == "text.reference"@ {
        Capture::Property
    } else if name == "constant"@ {
        Capture::Constant
    } else if name == "escape"@ || name == "string.escape"@ {
        Capture::Escape
    } else if name == "text.emphasis"@ {
        Capture::Comment
    } else if name == "text.strong"@ || name == "text.title"@ {
        Capture::Keyword
    } else if name == "punctuation.special"@ {
        Capture::Operator
    } else if name == "text.uri"@ {
        Capture::String
    } else {
        Capture::Plain
    }
}

/// `a` holds the characters of `b`.
fn same_text(a: &Vec<char>, b: &str) -> (r: bool)
    ensures
        r == (a@ == b@),
{
    let w = chars_of(b);
    if a.len() != w.len() {
        return false;
    }
    let mut i: usize = 0;
    while i < a.len()
        invariant
            i <= a.len(),
            a.len() == w.len(),
            w@ == b@,
            forall|j: int| 0 <= j < i ==> a@[j] == w@[j],
        decreases a.len() - i,
    {
        if a[i] != w[i] {
            return false;
        }
        i = i + 1;
    }
    assert(a@ =~= w@);
    true
}

/// The class of a capture name; see `capture_class_spec`.
pub fn capture_class(name: &str) -> (c: Capture)
    ensures
        c == capture_class_spec(name@),
{
    let n = chars_of(name);
    if same_text(&n, "keyword") || same_text(&n, "constant.builtin") {
        Capture::Keyword
    } else if same_text(&n, "function") || same_text(&n, "function.method") || same_text(
        &n,
        "function.builtin",
    ) || same_text(&n, "function.call") {
        Capture::Func
    } else if same_text(&n, "string") || same_text(&n, "string.special") || same_text(
        &n,
        "text.literal",
    ) {
        Capture::String
    } else if same_text(&n, "number") || same_text(&n, "float") {
        Capture::Number
    } else if same_text(&n, "comment") {
        Capture::Comment
    } else if same_text(&n, "type") || same_text(&n, "type.builtin") {
        Capture::Type
    } else if same_text(&n, "operator") || same_text(&n, "punctuation.delimiter") {
        Capture::Operator
    } else if same_text(&n, "property") || same_text(&n, "text.reference") {
        Capture::Property
    } else if same_text(&n, "constant") {
        Capture::Constant
    } else if same_text(&n, "escape") || same_text(&n, "string.escape") {
        Capture::Escape
    } else if same_text(&n, "text.emphasis") {
        Capture::Comment
    } else if same_text(&n, "text.strong") || same_text(&n, "text.title") {
        Capture::Keyword
    } else if same_text(&n, "punctuation.special") {
        Capture::Operator
    } else if same_text(&n, "text.uri") {
        Capture::String
    } else {
        Capture::Plain
    }
}

/// Each capture name that the grammars' queries use has its documented
/// class: keywords and built-in constants are keywords; functions, methods,
/// built-ins and calls are functions; strings, special strings and literal
/// text are strings (as are URIs); numbers and floats are numbers; comments
/// (and emphasis) are comments; types and built-in types are types;
/// operators, delimiters and special punctuation are operators; properties
/// and references are properties; constants are constants; escapes are
/// escapes; strong text and titles are keywords. A name outside them, such
/// as the empty name or "variable", is plain.
#[verifier::rlimit(60)]
pub proof fn law_capture_classes()
    ensures
        capture_class_spec("keyword"@) == Capture::Keyword,
        capture_class_spec("constant.builtin"@) == Capture::Keyword,
        capture_class_spec("function"@) == Capture::Func,
        capture_class_spec("function.method"@) == Capture::Func,
        capture_class_spec("function.builtin"@) == Capture::Func,
        capture_class_spec("function.call"@) == Capture::Func,
        capture_class_spec("string"@) == Capture::String,
        capture_class_spec("string.special"@) == Capture::String,
        capture_class_spec("text.literal"@) == Capture::String,
        capture_class_spec("number"@) == Capture::Number,
        capture_class_spec("float"@) == Capture::Number,
        capture_class_spec("comment"@) == Capture::Comment,
        capture_class_spec("type"@) == Capture::Type,
        capture_class_spec("type.builtin"@) == Capture::Type,
        capture_class_spec("operator"@) == Capture::Operator,
        capture_class_spec("punctuation.delimiter"@) == Capture::Operator,
        capture_class_spec("property"@) == Capture::Property,
        capture_class_spec("text.reference"@) == Capture::Property,
        capture_class_spec("constant"@) == Capture::Constant,
        capture_class_spec("escape"@) == Capture::Escape,
        capture_class_spec("string.escape"@) == Capture::Escape,
        capture_class_spec("text.emphasis"@) == Capture::Comment,
        capture_class_spec("text.strong"@) == Capture::Keyword,
        capture_class_spec("text.title"@) == Capture::Keyword,
        capture_class_spec("punctuation.special"@) == Capture::Operator,
        capture_class_spec("text.uri"@) == Capture::String,
        capture_class_spec(Seq::empty()) == Capture::Plain,
        capture_class_spec("variable"@) == Capture::Plain,
{
    reveal_strlit("keyword");
    assert("keyword"@.len() == 7 && "keyword"@[0] == 'k');
    reveal_strlit("constant.builtin");
    assert("constant.builtin"@.len() == 16 && "constant.builtin"@[0] == 'c');
    reveal_strlit("function");
    assert("function"@.len() == 8 && "function"@[0] == 'f');
    reveal_strlit("function.method");
    assert("function.method"@.len() == 15 && "function.method"@[0] == 'f');
    reveal_strlit("function.builtin");
    assert("function.builtin"@.len() == 16 && "function.builtin"@[0] == 'f');
    reveal_strlit("function.call");
    assert("function.call"@.len() == 13 && "function.call"@[0] == 'f');
    reveal_strlit("string");
    assert("string"@.len() == 6 && "string"@[0] == 's');
    reveal_strlit("string.special");
    assert("string.special"@.len() == 14 && "string.special"@[0] == 's');
    reveal_strlit("text.literal");
    assert("text.literal"@.len() == 12 && "text.literal"@[0] == 't');
    reveal_strlit("number");
    assert("number"@.len() == 6 && "number"@[0] == 'n');
    reveal_strlit("float");
    assert("float"@.len() == 5 && "float"@[0] == 'f');
    reveal_strlit("comment");
    assert("comment"@.len() == 7 && "comment"@[0] == 'c');
    reveal_strlit("type");
    assert("type"@.len() == 4 && "type"@[0] == 't');
    reveal_strlit("type.builtin");
    assert("type.builtin"@.len() == 12 && "type.builtin"@[0] == 't');
    assert("type.builtin"@[1] != "text.literal"@[1]);
    reveal_strlit("operator");
    assert("operator"@.len() == 8 && "operator"@[0] == 'o');
    reveal_strlit("punctuation.delimiter");
    assert("punctuation.delimiter"@.len() == 21 && "punctuation.delimiter"@[0] == 'p');
    reveal_strlit("property");
    assert("property"@.len() == 8 && "property"@[0] == 'p');
    reveal_strlit("text.reference");
    assert("text.reference"@.len() == 14 && "text.reference"@[0] == 't');
    reveal_strlit("constant");
    assert("constant"@.len() == 8 && "constant"@[0] == 'c');
    reveal_strlit("escape");
    assert("escape"@.len() == 6 && "escape"@[0] == 'e');
    reveal_strlit("string.escape");
    assert("string.escape"@.len() == 13 && "string.escape"@[0] == 's');
    reveal_strlit("text.emphasis");
    assert("text.emphasis"@.len() == 13 && "text.emphasis"@[0] == 't');
    reveal_strlit("text.strong");
    assert("text.strong"@.len() == 11 && "text.strong"@[0] == 't');
    reveal_strlit("text.title");
    assert("text.title"@.len() == 10 && "text.title"@[0] == 't');
    reveal_strlit("punctuation.special");
    assert("punctuation.special"@.len() == 19 && "punctuation.special"@[0] == 'p');
    reveal_strlit("text.uri");
    assert("text.uri"@.len() == 8 && "text.uri"@[0] == 't');
    reveal_strlit("variable");
    assert("variable"@.len() == 8 && "variable"@[0] == 'v');
}

/// The grammars a file type is highlighted with: Go for `go`, Markdown's
/// block and inline grammars for `md`; `None` for other types.
pub open spec fn grammars_spec(lang: Seq<char>) -> Option<Seq<Grammar>> {
    if lang == "go"@ {
        Some(seq![Grammar::Go])
    } else if lang == "md"@ {
        Some(seq![Grammar::MarkdownBlock, Grammar::MarkdownInline])
    } else {
        None
    }
}

/// Go files are highlighted with the Go grammar, Markdown files with the
/// block grammar and then the inline one; other file types, such as `rs`
/// or none, are not highlighted.
pub proof fn law_file_types()
    ensures
        grammars_spec("go"@) == Some(seq![Grammar::Go]),
        grammars_spec("md"@) == Some(seq![Grammar::MarkdownBlock, Grammar::MarkdownInline]),
        grammars_spec("rs"@) is None,
        grammars_spec(Seq::empty()) is None,
{
    reveal_strlit("go");
    reveal_strlit("md");
    reveal_strlit("rs");
    assert("go"@.len() == 2 && "go"@[0] == 'g');
    assert("md"@.len() == 2 && "md"@[0] == 'm');
    assert("rs"@.len() == 2 && "rs"@[0] == 'r');
}

/// The grammars for file type `lang`; see `grammars_spec`.
pub fn get_config(lang: &str) -> (r: Option<Vec<Grammar>>)
    ensures
        match r {
            Some(v) => grammars_spec(lang@) == Some(v@),
            None => grammars_spec(lang@) is None,
        },
{
    let l = chars_of(lang);
    if same_text(&l, "go") {
        let v = vec![Grammar::Go];
        assert(v@ =~= seq![Grammar::Go]);
        Some(v)
    } else if same_text(&l, "md") {
        let v = vec![Grammar::MarkdownBlock, Grammar::MarkdownInline];
        assert(v@ =~= seq![Grammar::MarkdownBlock, Grammar::MarkdownInline]);
        Some(v)
    } else {
        None
    }
}

/// The colours of the classes (gruvbox); the plain class has none.
pub open spec fn style_spec(cap: Capture) -> Style {
    match cap {
        Capture::Keyword => Style { fg: 0xfb4934, italic: false, bold: false },
        Capture::Func => Style { fg: 0xb8bb26, italic: false, bold: false },
        Capture::String => Style { fg: 0xb8bb26, italic: false, bold: false },
        Capture::Number => Style { fg: 0xd3869b, italic: false, bold: false },
        Capture::Comment => Style { fg: 0x928374, italic: true, bold: false },
        Capture::Type => Style { fg: 0xfabd2f, italic: false, bold: false },
        Capture::Operator => Style { fg: 0xfe8019, italic: false, bold: false },
        Capture::Property => Style { fg: 0x83a598, italic: false, bold: false },
        Capture::Constant => Style { fg: 0xd3869b, italic: false, bold: false },
        Capture::Escape => Style { fg: 0xfe8019, italic: false, bold: true },
        Capture::Plain => Style { fg: 0, italic: false, bold: false },
    }
}

/// The colour of a class; see `style_spec`.
pub fn colorscheme(cap: &Capture) -> (s: Style)
    requires
        *cap != Capture::Plain,
    ensures
        s == style_spec(*cap),
{
    match cap {
        Capture::Keyword => Style { fg: 0xfb4934, italic: false, bold: false },
        Capture::Func => Style { fg: 0xb8bb26, italic: false, bold: false },
        Capture::String => Style { fg: 0xb8bb26, italic: false, bold: false },
        Capture::Number => Style { fg: 0xd3869b, italic: false, bold: false },
        Capture::Comment => Style { fg: 0x928374, italic: true, bold: false },
        Capture::Type => Style { fg: 0xfabd2f, italic: false, bold: false },
        Capture::Operator => Style { fg: 0xfe8019, italic: false, bold: false },
        Capture::Property => Style { fg: 0x83a598, italic: false, bold: false },
        Capture::Constant => Style { fg: 0xd3869b, italic: false, bold: false },
        Capture::Escape => Style { fg: 0xfe8019, italic: false, bold: true },
        Capture::Plain => Style { fg: 0, italic: false, bold: false },
    }
}

/// A captured range of bytes with its class.
pub type Range = (usize, usize, Capture);

/// The captured ranges that keep a class and run forwards from a start
/// within the code, their ends cut at `len`.
pub open spec fn classified(caps: Seq<(usize, usize, Capture)>, len: usize) -> Seq<Range>
    decreases caps.len(),
{
    if caps.len() == 0 {
        Seq::empty()
    } else {
        let rest = classified(caps.drop_last(), len);
        let (s, e, c) = caps.last();
        if c == Capture::Plain || s > e || s > len {
            rest
        } else {
            rest.push(
                (
                    s,
                    if e < len {
                        e
                    } else {
                        len
                    },
                    c,
                ),
            )
        }
    }
}

/// Keeps the ranges with a class that run forwards from a start within
/// the code, their ends cut at `len`; see `classified`.
pub fn classify(caps: &Vec<(usize, usize, Capture)>, len: usize) -> (r: Vec<Range>)
    ensures
        r@ == classified(caps@, len),
{
    let mut r: Vec<Range> = Vec::new();
    let mut i: usize = 0;
    while i < caps.len()
        invariant
            i <= caps.len(),
            r@ == classified(caps@.take(i as int), len),
        decreases caps.len() - i,
    {
        assert(caps@.take(i + 1).drop_last() =~= caps@.take(i as int));
        let (s, e, c) = caps[i];
        if c != Capture::Plain && s <= e && s <= len {
            r.push(
                (
                    s,
                    if e < len {
                        e
                    } else {
                        len
                    },
                    c,
                ),
            );
        }
        i = i + 1;
    }
    assert(caps@.take(caps.len() as int) =~= caps@);
    r
}

/// `x` inserted into the sequence `s` after every range that starts no
/// later than it.
pub open spec fn insert_by_start(s: Seq<Range>, x: Range) -> Seq<Range>
    decreases s.len(),
{
    if s.len() == 0 {
        seq![x]
    } else if s.last().0 <= x.0 {
        s.push(x)
    } else {
        insert_by_start(s.drop_last(), x).push(s.last())
    }
}

/// The ranges ordered by their start, ranges with equal starts kept in
/// their order: a stable sort by start.
pub open spec fn sorted_by_start(s: Seq<Range>) -> Seq<Range>
    decreases s.len(),
{
    if s.len() == 0 {
        Seq::empty()
    } else {
        insert_by_start(sorted_by_start(s.drop_last()), s.last())
    }
}

proof fn lemma_insert_len(s: Seq<Range>, x: Range)
    ensures
        insert_by_start(s, x).len() == s.len() + 1,
    decreases s.len(),
{
    if s.len() > 0 && !(s.last().0 <= x.0) {
        lemma_insert_len(s.drop_last(), x);
    }
}

/// Inserts `x` into `v` after every range that starts no later than it.
fn insert_sorted(v: &mut Vec<Range>, x: Range)
    ensures
        final(v)@ == insert_by_start(old(v)@, x),
{
    let ghost s = v@;
    let mut k = v.len();
    assert(s.take(k as int) =~= s);
    assert(s.skip(k as int) =~= Seq::<Range>::empty());
    assert(insert_by_start(s, x) + Seq::<Range>::empty() =~= insert_by_start(s, x));
    while k > 0 && v[k - 1].0 > x.0
        invariant
            k <= v.len(),
            v@ == s,
            insert_by_start(s, x) == insert_by_start(s.take(k as int), x) + s.skip(k as int),
        decreases k,
    {
        proof {
            assert(s.take(k as int).drop_last() =~= s.take(k - 1));
            assert(s.take(k as int).last() == s[k - 1]);
            assert(insert_by_start(s.take(k - 1), x).push(s[k - 1]) + s.skip(k as int)
                =~= insert_by_start(s.take(k - 1), x) + s.skip(k - 1));
        }
        k = k - 1;
    }
    proof {
        if k > 0 {
            assert(s.take(k as int).last() == s[k - 1]);
        }
        assert(insert_by_start(s.take(k as int), x) =~= s.take(k as int).push(x));
        assert(s.take(k as int).push(x) + s.skip(k as int) =~= s.insert(k as int, x));
    }
    v.insert(k, x);
}

/// The ranges sorted by start, stably; see `sorted_by_start`.
pub fn sort_by_start(v: &Vec<Range>) -> (r: Vec<Range>)
    ensures
        r@ == sorted_by_start(v@),
{
    let mut r: Vec<Range> = Vec::new();
    let mut i: usize = 0;
    while i < v.len()
        invariant
            i <= v.len(),
            r@ == sorted_by_start(v@.take(i as int)),
        decreases v.len() - i,
    {
        assert(v@.take(i + 1).drop_last() =~= v@.take(i as int));
        insert_sorted(&mut r, v[i]);
        i = i + 1;
    }
    assert(v@.take(v.len() as int) =~= v@);
    r
}

/// The segments that sorted ranges `rs` (from index `k`) make of code of
/// `len` bytes, from byte `pos` on: a range that starts before `pos`
/// overlaps one already taken and is skipped; a gap before a range becomes
/// a plain segment; what is left after the last range is a plain segment.
pub open spec fn segments_from(rs: Seq<Range>, k: int, pos: int, len: int) -> Seq<Range>
    decreases rs.len() - k,
{
    if k < 0 || k >= rs.len() {
        if pos < len {
            seq![(pos as usize, len as usize, Capture::Plain)]
        } else {
            Seq::empty()
        }
    } else {
        let (s, e, c) = rs[k];
        if s < pos {
            segments_from(rs, k + 1, pos, len)
        } else {
            let gap = if pos < s {
                seq![(pos as usize, s, Capture::Plain)]
            } else {
                Seq::empty()
            };
            gap + seq![(s, e, c)] + segments_from(rs, k + 1, e as int, len)
        }
    }
}

/// The segments of code of `len` bytes for the captured ranges `caps`:
/// the ranges with a class, sorted by start; see `segments_from`.
pub open spec fn highlight_spec(len: usize, caps: Seq<(usize, usize, Capture)>) -> Seq<Range> {
    segments_from(sorted_by_start(classified(caps, len)), 0, 0, len as int)
}

/// The segments of code of `len` bytes for the captured ranges `caps`;
/// see `highlight_spec`.
pub fn highlight_segments(len: usize, caps: &Vec<(usize, usize, Capture)>) -> (r: Vec<Range>)
    ensures
        r@ == highlight_spec(len, caps@),
{
    let ranges = classify(caps, len);
    let sorted = sort_by_start(&ranges);
    let ghost rs = sorted@;
    let mut out: Vec<Range> = Vec::new();
    let mut pos: usize = 0;
    let mut k: usize = 0;
    while k < sorted.len()
        invariant
            rs == sorted@,
            k <= rs.len(),
            highlight_spec(len, caps@) == out@ + segments_from(rs, k as int, pos as int, len as int),
        decreases rs.len() - k,
    {
        let (s, e, c) = sorted[k];
        if s < pos {
            k = k + 1;
        } else {
            let ghost before = out@;
            if pos < s {
                out.push((pos, s, Capture::Plain));
            }
            out.push((s, e, c));
            proof {
                let gap = if pos < s {
                    seq![(pos, s, Capture::Plain)]
                } else {
                    Seq::<Range>::empty()
                };
                assert(out@ =~= before + gap + seq![(s, e, c)]);
                assert(before + (gap + seq![(s, e, c)] + segments_from(rs, k + 1, e as int, len as int))
                    =~= out@ + segments_from(rs, k + 1, e as int, len as int));
            }
            pos = e;
            k = k + 1;
        }
    }
    if pos < len {
        out.push((pos, len, Capture::Plain));
    }
    proof {
        assert(out@ =~= highlight_spec(len, caps@)) by {
            if pos < len {
            } else {
                assert(out@ + Seq::<Range>::empty() =~= out@);
            }
        }
    }
    out
}

/// Segments `r` cover the bytes from `from` to `to` one after another:
/// each starts where the one before ended, none runs backwards, the first
/// starts at `from` and the last ends at `to` (no segment when the two
/// meet).
pub open spec fn tiles(r: Seq<Range>, from: int, to: int) -> bool {
    if r.len() == 0 {
        from == to
    } else {
        &&& r[0].0 == from
        &&& r.last().1 == to
        &&& forall|i: int| 0 < i < r.len() ==> #[trigger] r[i].0 == r[i - 1].1
        &&& forall|i: int| 0 <= i < r.len() ==> #[trigger] r[i].0 <= r[i].1
    }
}

/// Every range runs forwards and ends within `len` bytes.
pub open spec fn ranges_within(rs: Seq<Range>, len: int) -> bool {
    forall|i: int| 0 <= i < rs.len() ==> #[trigger] rs[i].0 <= rs[i].1 && rs[i].1 <= len
}

proof fn lemma_tiles_append(a: Seq<Range>, b: Seq<Range>, x: int, y: int, z: int)
    requires
        tiles(a, x, y),
        tiles(b, y, z),
    ensures
        tiles(a + b, x, z),
{
    let ab = a + b;
    if a.len() > 0 && b.len() > 0 {
        assert(ab[0] == a[0]);
        assert(ab.last() == b.last());
        assert forall|i: int| 0 < i < ab.len() implies #[trigger] ab[i].0 == ab[i - 1].1 by {
            if i < a.len() {
                assert(ab[i] == a[i] && ab[i - 1] == a[i - 1]);
            } else if i == a.len() {
                assert(ab[i] == b[0] && ab[i - 1] == a.last());
            } else {
                assert(ab[i] == b[i - a.len()] && ab[i - 1] == b[i - 1 - a.len()]);
            }
        }
        assert forall|i: int| 0 <= i < ab.len() implies #[trigger] ab[i].0 <= ab[i].1 by {
            if i < a.len() {
                assert(ab[i] == a[i]);
            } else {
                assert(ab[i] == b[i - a.len()]);
            }
        }
    } else if a.len() == 0 {
        assert(ab =~= b);
    } else {
        assert(ab =~= a);
    }
}

proof fn lemma_classified_within(caps: Seq<(usize, usize, Capture)>, len: usize)
    ensures
        ranges_within(classified(caps, len), len as int),
    decreases caps.len(),
{
    if caps.len() > 0 {
        lemma_classified_within(caps.drop_last(), len);
    }
}

#[verifier::spinoff_prover]
proof fn lemma_insert_within(s: Seq<Range>, x: Range, len: int)
    requires
        ranges_within(s, len),
        x.0 <= x.1 <= len,
    ensures
        ranges_within(insert_by_start(s, x), len),
    decreases s.len(),
{
    if s.len() == 0 {
        assert(insert_by_start(s, x) == seq![x]);
    } else if s.last().0 <= x.0 {
        let r = s.push(x);
        assert(insert_by_start(s, x) == r);
        assert forall|i: int| 0 <= i < r.len() implies #[trigger] r[i].0 <= r[i].1 && r[i].1 <= len by {
            if i < s.len() {
                assert(r[i] == s[i]);
            }
        }
    } else {
        let d = s.drop_last();
        assert forall|i: int| 0 <= i < d.len() implies #[trigger] d[i].0 <= d[i].1 && d[i].1 <= len by {
            assert(d[i] == s[i]);
        }
        lemma_insert_within(d, x, len);
        let q = insert_by_start(d, x);
        let r = q.push(s.last());
        assert(insert_by_start(s, x) == r);
        assert(s.last() == s[s.len() - 1]);
        assert forall|i: int| 0 <= i < r.len() implies #[trigger] r[i].0 <= r[i].1 && r[i].1 <= len by {
            if i < q.len() {
                assert(r[i] == q[i]);
            }
        }
    }
}

proof fn lemma_sorted_within(s: Seq<Range>, len: int)
    requires
        ranges_within(s, len),
    ensures
        ranges_within(sorted_by_start(s), len),
    decreases s.len(),
{
    if s.len() > 0 {
        assert(ranges_within(s.drop_last(), len)) by {
            assert forall|i: int| 0 <= i < s.drop_last().len() implies #[trigger] s.drop_last()[i].0
                <= s.drop_last()[i].1 && s.drop_last()[i].1 <= len by {
                assert(s.drop_last()[i] == s[i]);
            }
        }
        lemma_sorted_within(s.drop_last(), len);
        assert(s.last() == s[s.len() - 1]);
        lemma_insert_within(sorted_by_start(s.drop_last()), s.last(), len);
    }
}

proof fn lemma_segments_tile(rs: Seq<Range>, k: int, pos: int, len: int)
    requires
        ranges_within(rs, len),
        0 <= k,
        0 <= pos <= len <= usize::MAX,
    ensures
        tiles(segments_from(rs, k, pos, len), pos, len),
    decreases rs.len() - k,
{
    if k >= rs.len() {
    } else {
        let (s, e, c) = rs[k];
        if s < pos {
            lemma_segments_tile(rs, k + 1, pos, len);
        } else {
            lemma_segments_tile(rs, k + 1, e as int, len);
            let gap = if pos < s {
                seq![(pos as usize, s, Capture::Plain)]
            } else {
                Seq::<Range>::empty()
            };
            let one = seq![(s, e, c)];
            assert(tiles(gap, pos, s as int));
            assert(tiles(one, s as int, e as int));
            lemma_tiles_append(gap, one, pos, s as int, e as int);
            lemma_tiles_append(gap + one, segments_from(rs, k + 1, e as int, len), pos, e as int, len);
        }
    }
}

/// The segments cover the code exactly: one after another from byte 0 to
/// the last byte, whatever the captured ranges.
pub proof fn law_segments_cover_code(len: usize, caps: Seq<(usize, usize, Capture)>)
    ensures
        tiles(highlight_spec(len, caps), 0, len as int),
{
    lemma_classified_within(caps, len);
    lemma_sorted_within(classified(caps, len), len as int);
    lemma_segments_tile(sorted_by_start(classified(caps, len)), 0, 0, len as int);
}

/// Code with no capture is one plain segment; a single captured range with
/// a class inside the code is shown in that class, with plain segments
/// before and after it.
pub proof fn law_single_capture_shown(len: usize, s: usize, e: usize, c: Capture)
    requires
        0 < s < e < len,
        c != Capture::Plain,
    ensures
        highlight_spec(len, Seq::empty()) == seq![(0usize, len, Capture::Plain)],
        highlight_spec(len, seq![(s, e, c)]) == seq![
            (0usize, s, Capture::Plain),
            (s, e, c),
            (e, len, Capture::Plain),
        ],
{
    let x = seq![(s, e, c)];
    assert(x.drop_last() =~= Seq::<(usize, usize, Capture)>::empty());
    assert(classified(Seq::<(usize, usize, Capture)>::empty(), len) == Seq::<Range>::empty());
    assert(x.last() == (s, e, c));
    assert(classified(x, len) =~= Seq::<Range>::empty().push((s, e, c)));
    let rs = seq![(s, e, c)];
    assert(classified(x, len) =~= rs);
    assert(rs.drop_last() =~= Seq::<Range>::empty());
    assert(sorted_by_start(Seq::<Range>::empty()) == Seq::<Range>::empty());
    assert(rs.last() == (s, e, c));
    assert(insert_by_start(Seq::<Range>::empty(), (s, e, c)) == rs);
    assert(sorted_by_start(rs) =~= rs);
    assert(segments_from(rs, 1, e as int, len as int) == seq![(e, len, Capture::Plain)]);
    assert(seq![(0usize, s, Capture::Plain)] + seq![(s, e, c)] + seq![(e, len, Capture::Plain)]
        =~= seq![(0usize, s, Capture::Plain), (s, e, c), (e, len, Capture::Plain)]);
}

/// Named result of running grammar `g`'s highlight query over `code`
/// with tree-sitter: every capture of every match, in the order found, as
/// start byte, end byte and the index of the capture's name.
pub uninterp spec fn grammar_raw_captures(g: Grammar, code: Seq<char>) -> Seq<(usize, usize, u32)>;

/// Named result of the capture names of grammar `g`'s highlight query, in
/// the query's order.
pub uninterp spec fn grammar_capture_names(g: Grammar) -> Seq<Seq<char>>;

/// tree-sitter's grammar of a language, opaque here.
#[verifier::external_type_specification]
#[verifier::external_body]
pub struct ExLanguage(tree_sitter::Language);

/// Trusted: grammar `g` as tree-sitter's `Language` (its `LANGUAGE`
/// constant turned into one by `From`) with its highlight query constant.
/// Nothing is stated of them: the language is opaque here.
#[verifier::external_body]
fn grammar_language(g: Grammar) -> (Language, &'static str) {
    match g {
        Grammar::Go => (tree_sitter_go::LANGUAGE.into(), tree_sitter_go::HIGHLIGHTS_QUERY),
        Grammar::MarkdownBlock => (tree_sitter_md::LANGUAGE.into(), tree_sitter_md::HIGHLIGHT_QUERY_BLOCK),
        Grammar::MarkdownInline => (tree_sitter_md::INLINE_LANGUAGE.into(), tree_sitter_md::HIGHLIGHT_QUERY_INLINE),
    }
}

/// Trusted: `Query::new` with grammar `g`'s language and highlight query,
/// then `Query::capture_names`, each name copied into a `String`; none
/// where the query is not built. They depend on the grammar alone and are
/// known here by name.
#[verifier::external_body]
fn grammar_names(g: Grammar) -> (r: Vec<String>)
    ensures
        name_views(r@) == grammar_capture_names(g),
{
    let (language, source) = grammar_language(g);
    match Query::new(&language, source) {
        Ok(query) => query.capture_names().iter().map(|n| n.to_string()).collect(),
        Err(_) => Vec::new(),
    }
}

/// Trusted: grammar `g`'s highlight query run over `code` with
/// tree-sitter: `Query::new`, `Parser::new`, `Parser::set_language`,
/// `Parser::parse`, then `QueryCursor::matches` over the root node,
/// drained with `StreamingIterator::next`: every capture of every match in
/// the order found, as its node's start byte, end byte and name index;
/// none where a step fails. They depend on the grammar and the code alone
/// and are known here by name.
#[verifier::external_body]
fn grammar_raw(g: Grammar, code: &str) -> (r: Vec<RawCapture>)
    ensures
        r@ == grammar_raw_captures(g, code@),
{
    let (language, source) = grammar_language(g);
    let Ok(query) = Query::new(&language, source) else { return Vec::new() };
    let (mut parser, mut cursor, mut out) = (Parser::new(), QueryCursor::new(), Vec::new());
    let Some(tree) = parser.set_language(&language).ok().and_then(|_| parser.parse(code, None)) else { return out };
    let mut matches = cursor.matches(&query, tree.root_node(), code.as_bytes());
    while let Some(m) = matches.next() {
        out.extend(m.captures.iter().map(|c| (c.node.start_byte(), c.node.end_byte(), c.index)));
    }
    out
}

/// A capture as the query gives it: start byte, end byte, and the index of
/// the capture's name.
pub type RawCapture = (usize, usize, u32);

/// The captures with the class of their names, in order; a capture whose
/// index names no capture is dropped.
pub open spec fn named_classes(raw: Seq<RawCapture>, names: Seq<Seq<char>>) -> Seq<(usize, usize, Capture)>
    decreases raw.len(),
{
    if raw.len() == 0 {
        Seq::empty()
    } else {
        let rest = named_classes(raw.drop_last(), names);
        let (s, e, i) = raw.last();
        if (i as int) < names.len() {
            rest.push((s, e, capture_class_spec(names[i as int])))
        } else {
            rest
        }
    }
}

/// The views of the names.
pub open spec fn name_views(names: Seq<String>) -> Seq<Seq<char>> {
    names.map_values(|n: String| n@)
}

/// The classes of the captures, by the names of the query's captures; see
/// `named_classes`.
pub fn classify_captures(raw: &Vec<RawCapture>, names: &Vec<String>) -> (r: Vec<(usize, usize, Capture)>)
    ensures
        r@ == named_classes(raw@, name_views(names@)),
{
    let mut classes: Vec<Capture> = Vec::new();
    let mut k: usize = 0;
    while k < names.len()
        invariant
            k <= names.len(),
            classes.len() == k,
            forall|j: int| 0 <= j < k ==> classes@[j] == capture_class_spec(#[trigger] names@[j]@),
        decreases names.len() - k,
    {
        classes.push(capture_class(names[k].as_str()));
        k = k + 1;
    }
    let mut r: Vec<(usize, usize, Capture)> = Vec::new();
    let mut i: usize = 0;
    while i < raw.len()
        invariant
            i <= raw.len(),
            classes.len() == names.len(),
            forall|j: int| 0 <= j < names.len() ==> classes@[j] == capture_class_spec(#[trigger] names@[j]@),
            r@ == named_classes(raw@.take(i as int), name_views(names@)),
        decreases raw.len() - i,
    {
        assert(raw@.take(i + 1).drop_last() =~= raw@.take(i as int));
        let (s, e, idx) = raw[i];
        if (idx as usize) < classes.len() {
            r.push((s, e, classes[idx as usize]));
        }
        i = i + 1;
    }
    assert(raw@.take(raw.len() as int) =~= raw@);
    r
}

/// The captures of grammar `g` over `code`, with the classes of their
/// names.
pub open spec fn grammar_classes(g: Grammar, code: Seq<char>) -> Seq<(usize, usize, Capture)> {
    named_classes(grammar_raw_captures(g, code), grammar_capture_names(g))
}

/// The captures of the grammars `gs` over `code`, grammar after grammar.
pub open spec fn grammars_classes(gs: Seq<Grammar>, code: Seq<char>) -> Seq<(usize, usize, Capture)>
    decreases gs.len(),
{
    if gs.len() == 0 {
        Seq::empty()
    } else {
        grammars_classes(gs.drop_last(), code) + grammar_classes(gs.last(), code)
    }
}

/// Parses `code` with grammar `g` and runs its highlight query: the
/// captures with the classes of their names; see `grammar_classes`.
fn grammar_captures(g: Grammar, code: &str) -> (r: Vec<(usize, usize, Capture)>)
    ensures
        r@ == grammar_classes(g, code@),
{
    let raw = grammar_raw(g, code);
    let names = grammar_names(g);
    classify_captures(&raw, &names)
}

/// The segments of `code` for file type `lang`: for a type with no
/// grammar, one plain segment over the whole code; otherwise the segments
/// that the captures of its grammars' highlight queries make (see
/// `highlight_spec`).
pub fn highlight(lang: &str, code: &str) -> (r: Vec<Range>)
    ensures
        grammars_spec(lang@) is None ==> r@ == seq![(0usize, code.len(), Capture::Plain)],
        grammars_spec(lang@) matches Some(gs) ==> r@ == highlight_spec(
            code.len(),
            grammars_classes(gs, code@),
        ),
        tiles(r@, 0, code.len() as int),
{
    match get_config(lang) {
        None => {
            let v = vec![(0usize, code.len(), Capture::Plain)];
            assert(v@ =~= seq![(0usize, code.len(), Capture::Plain)]);
            v
        },
        Some(grammars) => {
            let mut caps: Vec<(usize, usize, Capture)> = Vec::new();
            let mut k: usize = 0;
            while k < grammars.len()
                invariant
                    k <= grammars.len(),
                    caps@ == grammars_classes(grammars@.take(k as int), code@),
                decreases grammars.len() - k,
            {
                proof {
                    assert(grammars@.take(k + 1).drop_last() =~= grammars@.take(k as int));
                }
                let mut found = grammar_captures(grammars[k], code);
                caps.append(&mut found);
                k = k + 1;
            }
            proof {
                assert(grammars@.take(grammars.len() as int) =~= grammars@);
                law_segments_cover_code(code.len(), caps@);
            }
            highlight_segments(code.len(), &caps)
        },
    }
}

} // verus!
