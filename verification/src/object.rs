//! Text objects as a variant and an object (`iw`, `a(`), the older form of
//! the reader for them, and their spans in a buffer.
use vstd::prelude::*;
use crate::buffer::Buffer;
use crate::buffer::scan::span_spec;
use crate::pattern::Motion;
use crate::span::Span;
use crate::textobject::{self, Boundary, parse_textobject_spec};

verus! {

/// What a text object is made of.
#[derive(Debug, Clone, Copy, PartialEq, Eq, Structural, Hash)]
pub enum Object {
    /// `()`
    Paren,
    /// `{}`
    CurlyBracket,
    Word,
    /// `e`
    WordEnd,
    /// `b`
    Back,
}

impl Default for Object {
    fn default() -> (o: Self)
        ensures
            o == Object::Paren,
    {
        Object::Paren
    }
}

/// Whether a text object takes its surroundings.
#[derive(Debug, Clone, Copy, PartialEq, Eq, Structural, Hash)]
pub enum Variant {
    Inner,
    /// With the whitespace around, preferring the whitespace ahead.
    Around,
}

impl Default for Variant {
    fn default() -> (v: Self)
        ensures
            v == Variant::Inner,
    {
        Variant::Inner
    }
}

/// A text object: its variant and what it is made of.
#[derive(Debug, Clone, Copy, PartialEq, Eq, Structural)]
pub struct TextObject(pub Variant, pub Object);

/// The object kind under the newer name.
pub open spec fn object_kind(o: Object) -> textobject::TextObject {
    match o {
        Object::Paren => textobject::TextObject::Paren,
        Object::CurlyBracket => textobject::TextObject::CurlyBracket,
        Object::Word => textobject::TextObject::Word,
        Object::WordEnd => textobject::TextObject::WordEnd,
        Object::Back => textobject::TextObject::Back,
    }
}

/// The object named by a newer kind.
pub open spec fn object_of_kind(o: textobject::TextObject) -> Object {
    match o {
        textobject::TextObject::Paren => Object::Paren,
        textobject::TextObject::CurlyBracket => Object::CurlyBracket,
        textobject::TextObject::Word => Object::Word,
        textobject::TextObject::WordEnd => Object::WordEnd,
        textobject::TextObject::Back => Object::Back,
    }
}

/// The boundary a variant stands for.
pub open spec fn variant_boundary(v: Variant) -> Boundary {
    match v {
        Variant::Inner => Boundary::Inner,
        Variant::Around => Boundary::Around,
    }
}

/// What the reader gives for `input`: as `textobject::parse_textobject`
/// reads it, with no `a`/`i` read as `Inner`.
pub open spec fn parse_object_spec(input: Seq<char>) -> (Option<(Object, Variant, Option<usize>)>, usize) {
    match parse_textobject_spec(input) {
        (Some((o, b, count)), n) => (
            Some(
                (
                    object_of_kind(o),
                    if b == Boundary::Around {
                        Variant::Around
                    } else {
                        Variant::Inner
                    },
                    count,
                ),
            ),
            n,
        ),
        (None, n) => (None, n),
    }
}

impl Object {
    /// The character that opens a delimited object.
    pub fn open_symbol(&self) -> (r: Option<char>)
        ensures
            r == textobject::open_symbol_of(object_kind(*self)),
    {
        match self {
            Object::Paren => Some('('),
            Object::CurlyBracket => Some('{'),
            _ => None,
        }
    }

    /// The character that closes a delimited object.
    pub fn close_symbol(&self) -> (r: Option<char>)
        ensures
            r == textobject::close_symbol_of(object_kind(*self)),
    {
        match self {
            Object::Paren => Some(')'),
            Object::CurlyBracket => Some('}'),
            _ => None,
        }
    }

    /// The object kind under the newer name.
    pub fn kind(&self) -> (k: textobject::TextObject)
        ensures
            k == object_kind(*self),
    {
        match self {
            Object::Paren => textobject::TextObject::Paren,
            Object::CurlyBracket => textobject::TextObject::CurlyBracket,
            Object::Word => textobject::TextObject::Word,
            Object::WordEnd => textobject::TextObject::WordEnd,
            Object::Back => textobject::TextObject::Back,
        }
    }
}

/// Reads a text object with its count and variant from a typed motion;
/// see `parse_object_spec`.
pub fn parse_textobject(input: &str) -> (r: (Option<(Object, Variant, Option<usize>)>, usize))
    ensures
        r == parse_object_spec(input@),
{
    let (parsed, n) = textobject::parse_textobject(input);
    match parsed {
        Some((o, b, count)) => {
            let obj = match o {
                textobject::TextObject::Paren => Object::Paren,
                textobject::TextObject::CurlyBracket => Object::CurlyBracket,
                textobject::TextObject::Word => Object::Word,
                textobject::TextObject::WordEnd => Object::WordEnd,
                textobject::TextObject::Back => Object::Back,
            };
            let v = match b {
                Boundary::Around => Variant::Around,
                _ => Variant::Inner,
            };
            (Some((obj, v, count)), n)
        },
        None => (None, n),
    }
}

impl TextObject {
    /// The motion this text object makes, once.
    pub open spec fn motion(self) -> Motion {
        Motion { count: Some(1), boundary: variant_boundary(self.0), object: object_kind(self.1) }
    }

    /// The span of one of this text object at the cursor of `buf`; see
    /// `span_spec`.
    pub fn span(&self, buf: &Buffer) -> (s: Span)
        requires
            buf.wf(),
            buf.cursor() < buf.chars().len(),
            span_spec(buf.chars(), buf.cursor(), buf.cur_row(), buf.cur_col(), self.motion()) is Some,
        ensures
            span_spec(buf.chars(), buf.cursor(), buf.cur_row(), buf.cur_col(), self.motion()) == Some(s),
    {
        let boundary = match self.0 {
            Variant::Inner => Boundary::Inner,
            Variant::Around => Boundary::Around,
        };
        buf.span(Motion { count: Some(1), boundary, object: self.1.kind() })
    }
}

} // verus!
