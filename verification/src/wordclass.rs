//! Classes of characters for word motions, as bit flags: letters and
//! digits (with `_`), blanks, newlines and other symbols.
use vstd::prelude::*;
use crate::text::{alphanumeric, is_alphanumeric};

verus! {

/// A set of character classes, one bit per class.
#[derive(Debug, Clone, Copy, PartialEq, Eq, Structural)]
pub struct WordClass(pub u8);

/// The class of a single character.
pub open spec fn class_bits(c: char) -> u8 {
    if alphanumeric(c) || c == '_' {
        1
    } else if c == '\n' {
        8
    } else if c == ' ' || c == '\t' {
        2
    } else {
        4
    }
}

impl WordClass {
    /// Letters, digits and `_`.
    pub fn alphanumeric() -> (w: WordClass)
        ensures
            w.0 == 1,
    {
        WordClass(1)
    }

    /// Space and tab.
    pub fn whitespace() -> (w: WordClass)
        ensures
            w.0 == 2,
    {
        WordClass(2)
    }

    /// Everything else but the newline.
    pub fn symbols() -> (w: WordClass)
        ensures
            w.0 == 4,
    {
        WordClass(4)
    }

    /// The newline.
    pub fn newline() -> (w: WordClass)
        ensures
            w.0 == 8,
    {
        WordClass(8)
    }

    /// Whether the two sets share a class.
    pub fn contains(self, other: WordClass) -> (b: bool)
        ensures
            b == (self.0 & other.0 != 0),
    {
        self.0 & other.0 != 0
    }

    /// The union of two sets.
    pub fn bitor(self, rhs: WordClass) -> (w: WordClass)
        ensures
            w.0 == self.0 | rhs.0,
    {
        WordClass(self.0 | rhs.0)
    }

    /// The intersection of two sets.
    pub fn bitand(self, rhs: WordClass) -> (w: WordClass)
        ensures
            w.0 == self.0 & rhs.0,
    {
        WordClass(self.0 & rhs.0)
    }

    /// The class of `value`.
    pub fn from(value: char) -> (w: WordClass)
        ensures
            w.0 == class_bits(value),
    {
        if is_alphanumeric(value) || value == '_' {
            WordClass(1)
        } else if value == '\n' {
            WordClass(8)
        } else if value == ' ' || value == '\t' {
            WordClass(2)
        } else {
            WordClass(4)
        }
    }
}

/// Each single class is contained in itself and in no other class.
pub proof fn law_single_classes_disjoint(a: char, b: char)
    ensures
        (class_bits(a) & class_bits(b) != 0) == (class_bits(a) == class_bits(b)),
{
    let x = class_bits(a);
    let y = class_bits(b);
    assert((x == 1 || x == 2 || x == 4 || x == 8) && (y == 1 || y == 2 || y == 4 || y == 8));
    assert(((x == 1 || x == 2 || x == 4 || x == 8) && (y == 1 || y == 2 || y == 4 || y == 8)) ==> ((
    x & y != 0) == (x == y))) by (bit_vector);
}

/// A union contains each of its parts.
pub proof fn law_union_contains(a: WordClass, b: WordClass)
    requires
        a.0 != 0,
    ensures
        (a.0 | b.0) & a.0 != 0,
{
    let x = a.0;
    let y = b.0;
    assert(x != 0 ==> (x | y) & x != 0) by (bit_vector);
}

} // verus!
