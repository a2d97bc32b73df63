//! The outcome of a matcher: either parsing goes on from a new state with a
//! value, or it stopped for a reason that carries a position.
use core::ops::Range;
use vstd::prelude::*;

use crate::state::ParseState;
use crate::text::utf8_len;

verus! {

/// Outcome of a matcher.
#[derive(Debug, PartialEq, Eq)]
pub enum ParseResult<'i, T> {
    /// Parsing goes on from this state, with this value.
    Pending(ParseState<'i>, T),
    /// Parsing stopped, for this reason.
    Stop(StopBecause),
}

/// Why parsing stopped: the least information needed to report an error.
#[derive(Copy, Clone, Debug, PartialEq, Eq, Hash)]
pub enum StopBecause {
    /// No failure was recorded.
    Uninitialized,
    /// The end of the input was expected.
    ExpectEOF {
        /// Offset where the error occurred.
        position: usize,
    },
    /// A bounded repetition did not reach its minimum.
    ExpectRepeats {
        /// Least number of repeats.
        min: usize,
        /// Number of repeats found.
        current: usize,
        /// Offset where the repetition began.
        position: usize,
    },
    /// A character, or a character in an inclusive range, was expected.
    MissingCharacterRange {
        /// Start of the range.
        start: char,
        /// End of the range.
        end: char,
        /// Offset where the error occurred.
        position: usize,
    },
    /// A character of a named class was expected.
    MissingCharacterSet {
        /// Name of the class.
        expected: &'static str,
        /// Offset where the error occurred.
        position: usize,
    },
    /// A literal or a named pattern was expected.
    MissingString {
        /// The literal, or the name of the pattern.
        message: &'static str,
        /// Offset where the error occurred.
        position: usize,
    },
    /// A positive lookahead failed.
    MustBe {
        /// Name of what was expected.
        message: &'static str,
        /// Offset where the error occurred.
        position: usize,
    },
    /// A negative lookahead failed.
    ShouldNotBe {
        /// Name of what was not expected.
        message: &'static str,
        /// Offset where the error occurred.
        position: usize,
    },
    /// A diagnostic of a helper, with its own range.
    Custom(CustomError<'static>),
}

/// A diagnostic with a message and a half-open byte range.
#[derive(Copy, Clone, Debug, PartialEq, Eq, Hash)]
pub struct CustomError<'i> {
    /// The message.
    pub message: &'i str,
    /// Start offset of the range.
    pub start: usize,
    /// End offset of the range.
    pub end: usize,
}

impl<'i> CustomError<'i> {
    /// Half-open byte range of the diagnostic.
    pub fn range(&self) -> (r: Range<usize>)
        ensures
            r.start == self.start,
            r.end == self.end,
    {
        self.start..self.end
    }
}

impl Default for StopBecause {
    fn default() -> (r: Self)
        ensures
            r == StopBecause::Uninitialized,
    {
        StopBecause::Uninitialized
    }
}

impl StopBecause {
    /// The half-open byte range `[start, end)` that a diagnostic highlights.
    pub open spec fn spec_range(&self) -> (int, int) {
        match *self {
            StopBecause::Uninitialized => (0, 0),
            StopBecause::ExpectEOF { position } => (position as int, position + 1),
            StopBecause::ExpectRepeats { position, .. } => (position as int, position + 1),
            StopBecause::MissingCharacterSet { position, .. } => (position as int, position + 1),
            StopBecause::MissingCharacterRange { position, .. } => (position as int, position + 1),
            StopBecause::MissingString { message, position } => (
                position as int,
                position + utf8_len(message@),
            ),
            StopBecause::MustBe { position, .. } => (position as int, position + 1),
            StopBecause::ShouldNotBe { position, .. } => (position as int, position + 1),
            StopBecause::Custom(e) => (e.start as int, e.end as int),
        }
    }

    /// Error `MustBe`.
    pub fn must_be<T>(message: &'static str, position: usize) -> (r: Result<T, StopBecause>)
        ensures
            r == Err::<T, StopBecause>(StopBecause::MustBe { message, position }),
    {
        Err(StopBecause::MustBe { message, position })
    }

    /// Error `ExpectEOF`.
    pub fn expect_eof<T>(position: usize) -> (r: Result<T, StopBecause>)
        ensures
            r == Err::<T, StopBecause>(StopBecause::ExpectEOF { position }),
    {
        Err(StopBecause::ExpectEOF { position })
    }

    /// Error `MissingCharacterRange` for a single character.
    pub fn missing_character<T>(expected: char, position: usize) -> (r: Result<T, StopBecause>)
        ensures
            r == Err::<T, StopBecause>(
                StopBecause::MissingCharacterRange { start: expected, end: expected, position },
            ),
    {
        Err(StopBecause::MissingCharacterRange { start: expected, end: expected, position })
    }

    /// Error `MissingCharacterRange`.
    pub fn missing_character_range<T>(start: char, end: char, position: usize) -> (r: Result<
        T,
        StopBecause,
    >)
        ensures
            r == Err::<T, StopBecause>(StopBecause::MissingCharacterRange { start, end, position }),
    {
        Err(StopBecause::MissingCharacterRange { start, end, position })
    }

    /// Error `MissingCharacterSet`.
    pub fn missing_character_set<T>(expected: &'static str, position: usize) -> (r: Result<
        T,
        StopBecause,
    >)
        ensures
            r == Err::<T, StopBecause>(StopBecause::MissingCharacterSet { expected, position }),
    {
        Err(StopBecause::MissingCharacterSet { expected, position })
    }

    /// Error `MissingString`.
    pub fn missing_string<T>(message: &'static str, position: usize) -> (r: Result<T, StopBecause>)
        ensures
            r == Err::<T, StopBecause>(StopBecause::MissingString { message, position }),
    {
        Err(StopBecause::MissingString { message, position })
    }

    /// Error `Custom`, with its range.
    pub fn custom_error<T>(message: &'static str, start: usize, end: usize) -> (r: Result<
        T,
        StopBecause,
    >)
        ensures
            r == Err::<T, StopBecause>(StopBecause::Custom(CustomError { message, start, end })),
    {
        Err(StopBecause::Custom(CustomError { message, start, end }))
    }

    /// The half-open byte range `[start, end)` that a diagnostic highlights:
    /// one byte at the position, the length of the literal for a missing
    /// string, the stored range for a custom error.
    pub fn range(&self) -> (r: Range<usize>)
        requires
            self.spec_range().1 <= usize::MAX,
        ensures
            r.start == self.spec_range().0,
            r.end == self.spec_range().1,
    {
        match *self {
            StopBecause::Uninitialized => 0..0,
            StopBecause::ExpectEOF { position } => position..position + 1,
            StopBecause::ExpectRepeats { position, .. } => position..position + 1,
            StopBecause::MissingCharacterSet { position, .. } => position..position + 1,
            StopBecause::MissingCharacterRange { position, .. } => position..position + 1,
            StopBecause::MissingString { message, position } => position..position + message.len(),
            StopBecause::MustBe { position, .. } => position..position + 1,
            StopBecause::ShouldNotBe { position, .. } => position..position + 1,
            StopBecause::Custom(e) => e.range(),
        }
    }
}

/// The decimal digit `d`.
pub open spec fn digit_char(d: nat) -> char {
    ((48 + d) as u32) as char
}

/// The decimal writing of `n`, without leading zeros.
pub open spec fn decimal(n: nat) -> Seq<char>
    decreases n,
{
    if n < 10 {
        seq![digit_char(n)]
    } else {
        decimal(n / 10) + seq![digit_char(n % 10)]
    }
}

/// Relies on `usize`'s `Display`, through `to_string`: its decimal writing.
#[verifier::external_body]
fn usize_text(n: usize) -> (r: String)
    ensures
        r@ == decimal(n as nat),
{
    n.to_string()
}

/// Relies on `char`'s `Display`, through `to_string`: the character alone.
#[verifier::external_body]
fn char_text(c: char) -> (r: String)
    ensures
        r@ == seq![c],
{
    c.to_string()
}

impl StopBecause {
    /// The text of the diagnostic.
    pub open spec fn spec_message(&self) -> Seq<char> {
        match *self {
            StopBecause::Uninitialized => "Uninitialized"@,
            StopBecause::ExpectEOF { .. } => "Expect end of file"@,
            StopBecause::ExpectRepeats { min, current, .. } => "Expect at least "@ + decimal(min as nat)
                + " repeats (got "@ + decimal(current as nat) + ")"@,
            StopBecause::MissingCharacterSet { expected, .. } => "Missing character set `"@ + expected@ + "`"@,
            StopBecause::MissingCharacterRange { start, end, .. } => if start == end {
                "Missing character '"@ + seq![start] + "'"@
            } else {
                "Expect character in range '"@ + seq![start] + "'..='"@ + seq![end] + "'"@
            },
            StopBecause::MissingString { message, .. } => "Missing string '"@ + message@ + "'"@,
            StopBecause::MustBe { message, .. } => "Must be `"@ + message@ + "`"@,
            StopBecause::ShouldNotBe { message, .. } => "Should not be `"@ + message@ + "`"@,
            StopBecause::Custom(e) => "Custom error: "@ + e.message@,
        }
    }

    /// The text of the diagnostic, as it is shown to a user.
    pub fn message(&self) -> (r: String)
        ensures
            r@ == self.spec_message(),
    {
        match *self {
            StopBecause::Uninitialized => String::from_str("Uninitialized"),
            StopBecause::ExpectEOF { .. } => String::from_str("Expect end of file"),
            StopBecause::ExpectRepeats { min, current, .. } => {
                let mut s = String::from_str("Expect at least ");
                s.append(usize_text(min).as_str());
                s.append(" repeats (got ");
                s.append(usize_text(current).as_str());
                s.append(")");
                s
            },
            StopBecause::MissingCharacterSet { expected, .. } => {
                let mut s = String::from_str("Missing character set `");
                s.append(expected);
                s.append("`");
                s
            },
            StopBecause::MissingCharacterRange { start, end, .. } => {
                if start == end {
                    let mut s = String::from_str("Missing character '");
                    s.append(char_text(start).as_str());
                    s.append("'");
                    s
                } else {
                    let mut s = String::from_str("Expect character in range '");
                    s.append(char_text(start).as_str());
                    s.append("'..='");
                    s.append(char_text(end).as_str());
                    s.append("'");
                    s
                }
            },
            StopBecause::MissingString { message, .. } => {
                let mut s = String::from_str("Missing string '");
                s.append(message);
                s.append("'");
                s
            },
            StopBecause::MustBe { message, .. } => {
                let mut s = String::from_str("Must be `");
                s.append(message);
                s.append("`");
                s
            },
            StopBecause::ShouldNotBe { message, .. } => {
                let mut s = String::from_str("Should not be `");
                s.append(message);
                s.append("`");
                s
            },
            StopBecause::Custom(e) => {
                let mut s = String::from_str("Custom error: ");
                s.append(e.message);
                s
            },
        }
    }
}

impl From<CustomError<'static>> for StopBecause {
    fn from(value: CustomError<'static>) -> (r: Self)
        ensures
            r == StopBecause::Custom(value),
    {
        StopBecause::Custom(value)
    }
}

impl vstd::std_specs::convert::FromSpecImpl<CustomError<'static>> for StopBecause {
    open spec fn obeys_from_spec() -> bool {
        true
    }

    open spec fn from_spec(v: CustomError<'static>) -> StopBecause {
        StopBecause::Custom(v)
    }
}

impl<'i, T> ParseResult<'i, T> {
    /// Apply `f` to the value of a success; a stop goes through unchanged.
    pub fn map_inner<F, U>(self, f: F) -> (r: ParseResult<'i, U>)
        where
            F: FnOnce(T) -> U,
        requires
            self matches ParseResult::Pending(_, v) ==> f.requires((v,)),
        ensures
            match self {
                ParseResult::Pending(s, v) => r matches ParseResult::Pending(s2, u) && s2 == s
                    && f.ensures((v,), u),
                ParseResult::Stop(e) => r == ParseResult::<'i, U>::Stop(e),
            },
    {
        match self {
            ParseResult::Pending(state, value) => ParseResult::Pending(state, f(value)),
            ParseResult::Stop(reason) => ParseResult::Stop(reason),
        }
    }

    /// Replace the value of a success by `value`; a stop goes through unchanged.
    pub fn map_value<U>(self, value: U) -> (r: ParseResult<'i, U>)
        ensures
            match self {
                ParseResult::Pending(s, _) => r == ParseResult::<'i, U>::Pending(s, value),
                ParseResult::Stop(e) => r == ParseResult::<'i, U>::Stop(e),
            },
    {
        match self {
            ParseResult::Pending(state, _) => ParseResult::Pending(state, value),
            ParseResult::Stop(reason) => ParseResult::Stop(reason),
        }
    }

    /// Convert the value of a success with `From`; a stop goes through
    /// unchanged.
    pub fn map_into<U>(self) -> (r: ParseResult<'i, U>)
        where
            U: From<T>,
        ensures
            match self {
                ParseResult::Pending(s, v) => r matches ParseResult::Pending(s2, u) && s2 == s
                    && call_ensures(U::from, (v,), u),
                ParseResult::Stop(e) => r == ParseResult::<'i, U>::Stop(e),
            },
    {
        match self {
            ParseResult::Pending(state, value) => ParseResult::Pending(state, U::from(value)),
            ParseResult::Stop(reason) => ParseResult::Stop(reason),
        }
    }

    /// Convert a result into a `Result` of the state and the value.
    pub fn as_result(self) -> (r: Result<(ParseState<'i>, T), StopBecause>)
        ensures
            match self {
                ParseResult::Pending(s, v) => r == Ok::<(ParseState<'i>, T), StopBecause>((s, v)),
                ParseResult::Stop(e) => r == Err::<(ParseState<'i>, T), StopBecause>(e),
            },
    {
        match self {
            ParseResult::Pending(state, value) => Ok((state, value)),
            ParseResult::Stop(reason) => Err(reason),
        }
    }

    /// The value of a success.
    pub fn unwrap(self) -> (r: T)
        requires
            self is Pending,
        ensures
            self matches ParseResult::Pending(_, v) && r == v,
    {
        match self {
            ParseResult::Pending(_, v) => v,
            ParseResult::Stop(_) => vstd::pervasive::unreached(),
        }
    }

    /// Whether parsing goes on.
    pub fn is_success(&self) -> (r: bool)
        ensures
            r == (self is Pending),
    {
        match self {
            ParseResult::Pending(..) => true,
            ParseResult::Stop(..) => false,
        }
    }

    /// Whether parsing stopped.
    pub fn is_failure(&self) -> (r: bool)
        ensures
            r == (self is Stop),
    {
        match self {
            ParseResult::Pending(..) => false,
            ParseResult::Stop(..) => true,
        }
    }

    /// Call `ok` with the state of a success or `fail` with the reason of a
    /// stop, and give the result back unchanged.
    pub fn dispatch<F, G>(self, ok: F, fail: G) -> (r: Self)
        where
            F: FnOnce(ParseState<'i>),
            G: FnOnce(StopBecause),
        requires
            self matches ParseResult::Pending(s, _) ==> ok.requires((s,)),
            self matches ParseResult::Stop(e) ==> fail.requires((e,)),
        ensures
            r == self,
    {
        match &self {
            ParseResult::Pending(data, _) => ok(*data),
            ParseResult::Stop(stop) => fail(*stop),
        }
        self
    }
}

} // verus!
