//! How far a state moves: a byte count, a character, or a literal.
use vstd::prelude::*;

use crate::text::{char_len_utf8, char_width, utf8_len};

verus! {

/// How far a state moves.
#[derive(Copy, Clone, Debug)]
pub enum ParseAdvance {
    /// A number of bytes.
    Offset(usize),
    /// The width of a character.
    Character(char),
    /// The width of a literal.
    String(&'static str),
}

impl ParseAdvance {
    /// The number of bytes it stands for.
    pub open spec fn spec_offset(&self) -> int {
        match *self {
            ParseAdvance::Offset(v) => v as int,
            ParseAdvance::Character(c) => char_width(c) as int,
            ParseAdvance::String(s) => utf8_len(s@) as int,
        }
    }

    /// The number of bytes it stands for: the count itself, or the UTF-8
    /// width of the character or literal.
    pub fn as_offset(&self) -> (r: usize)
        ensures
            self.spec_offset() <= usize::MAX ==> r == self.spec_offset(),
    {
        match *self {
            ParseAdvance::Offset(v) => v,
            ParseAdvance::Character(c) => char_len_utf8(c),
            ParseAdvance::String(s) => s.len(),
        }
    }
}

impl From<usize> for ParseAdvance {
    fn from(v: usize) -> (r: Self)
        ensures
            r == ParseAdvance::Offset(v),
    {
        ParseAdvance::Offset(v)
    }
}

impl vstd::std_specs::convert::FromSpecImpl<usize> for ParseAdvance {
    open spec fn obeys_from_spec() -> bool {
        true
    }

    open spec fn from_spec(v: usize) -> ParseAdvance {
        ParseAdvance::Offset(v)
    }
}

impl From<char> for ParseAdvance {
    fn from(c: char) -> (r: Self)
        ensures
            r == ParseAdvance::Character(c),
    {
        ParseAdvance::Character(c)
    }
}

impl vstd::std_specs::convert::FromSpecImpl<char> for ParseAdvance {
    open spec fn obeys_from_spec() -> bool {
        true
    }

    open spec fn from_spec(c: char) -> ParseAdvance {
        ParseAdvance::Character(c)
    }
}

impl From<&'static str> for ParseAdvance {
    fn from(s: &'static str) -> (r: Self)
        ensures
            r == ParseAdvance::String(s),
    {
        ParseAdvance::String(s)
    }
}

impl vstd::std_specs::convert::FromSpecImpl<&'static str> for ParseAdvance {
    open spec fn obeys_from_spec() -> bool {
        true
    }

    open spec fn from_spec(s: &'static str) -> ParseAdvance {
        ParseAdvance::String(s)
    }
}

} // verus!
