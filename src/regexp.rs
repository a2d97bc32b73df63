//! Matching a regular expression anchored at the cursor.
use vstd::prelude::*;
use vstd::utf8::{encode_utf8, is_char_boundary};

use crate::results::{CustomError, ParseResult, StopBecause};
use crate::state::ParseState;
use crate::text::utf8_len;

verus! {

#[verifier::external_type_specification]
#[verifier::external_body]
pub struct ExRegex(regex::Regex);

/// Relies on `regex::Regex::find`: the leftmost match as its start and end
/// byte offsets, `start <= end`, both on character boundaries of the
/// haystack.
#[verifier::external_body]
pub(crate) fn regex_find(re: &regex::Regex, haystack: &str) -> (r: Option<(usize, usize)>)
    ensures
        r matches Some((a, b)) ==> a <= b && is_char_boundary(encode_utf8(haystack@), a as int)
            && is_char_boundary(encode_utf8(haystack@), b as int),
{
    re.find(haystack).map(|m| (m.start(), m.end()))
}

#[verifier::external_type_specification]
#[verifier::external_body]
#[verifier::reject_recursive_types(A)]
pub struct ExDfaRegex<A>(regex_automata::dfa::regex::Regex<A>);

#[verifier::external_type_specification]
#[verifier::external_body]
#[verifier::reject_recursive_types(T)]
pub struct ExDenseDfa<T>(regex_automata::dfa::dense::DFA<T>);

/// Why a DFA search stopped without an answer.
#[derive(Copy, Clone, Debug, PartialEq, Eq)]
pub enum SearchFailure {
    /// The search met a byte it was set to quit on, at this offset.
    Quit {
        /// Offset of the byte, in the haystack.
        offset: usize,
    },
    /// The search gave up, at this offset.
    GaveUp {
        /// Offset where the search stopped, in the haystack.
        offset: usize,
    },
    /// Any other reason.
    Other,
}

/// Relies on `regex_automata::dfa::regex::Regex::try_search` over the
/// whole haystack: the leftmost match as its start and end byte offsets,
/// with `start <= end`, or why the search could not complete.
#[verifier::external_body]
pub(crate) fn dfa_search(re: &regex_automata::dfa::regex::Regex, haystack: &str) -> (r: Result<
    Option<(usize, usize)>,
    SearchFailure,
>)
    ensures
        r matches Ok(Some((a, b))) ==> a <= b,
{
    match re.try_search(&regex_automata::Input::new(haystack)) {
        Ok(m) => Ok(m.map(|m| (m.start(), m.end()))),
        Err(e) => match e.kind() {
            regex_automata::MatchErrorKind::Quit { offset, .. } => Err(SearchFailure::Quit { offset: *offset }),
            regex_automata::MatchErrorKind::GaveUp { offset } => Err(SearchFailure::GaveUp { offset: *offset }),
            _ => Err(SearchFailure::Other),
        },
    }
}

impl<'i> ParseState<'i> {
    /// What a DFA search result `found` on the remaining text gives: a
    /// match that starts here and ends on a character boundary succeeds
    /// with its text; any other match, or none, fails with `MustBe`; a
    /// search that quit or gave up fails with a custom error at the offset
    /// where it stopped; any other search failure with a custom error here.
    pub fn dfa_outcome(self, found: Result<Option<(usize, usize)>, SearchFailure>, message: &'static str) -> (r:
        ParseResult<'i, &'i str>)
        requires
            self.wf(),
        ensures
            match found {
                Ok(Some((a, b))) => if a == 0 && self.is_boundary(b as int) {
                    r matches ParseResult::Pending(n, v) && self.reaches(n) && v@ == self.consumed(n)
                        && utf8_len(v@) == b && n.wf() && n.stop_reason == self.stop_reason
                } else {
                    r == ParseResult::<'i, &'i str>::Stop(
                        StopBecause::MustBe { message, position: self.start_offset },
                    )
                },
                Ok(None) => r == ParseResult::<'i, &'i str>::Stop(
                    StopBecause::MustBe { message, position: self.start_offset },
                ),
                Err(SearchFailure::Quit { offset }) => r == ParseResult::<'i, &'i str>::Stop(
                    StopBecause::Custom(
                        CustomError {
                            message: "regex match quit",
                            start: saturated_sum(self.start_offset, offset),
                            end: saturated_sum(self.start_offset, offset),
                        },
                    ),
                ),
                Err(SearchFailure::GaveUp { offset }) => r == ParseResult::<'i, &'i str>::Stop(
                    StopBecause::Custom(
                        CustomError {
                            message: "regex match gave up",
                            start: saturated_sum(self.start_offset, offset),
                            end: saturated_sum(self.start_offset, offset),
                        },
                    ),
                ),
                Err(SearchFailure::Other) => r == ParseResult::<'i, &'i str>::Stop(
                    StopBecause::Custom(
                        CustomError {
                            message: "regex match failed",
                            start: self.start_offset,
                            end: self.start_offset,
                        },
                    ),
                ),
            },
    {
        match found {
            Ok(Some((start, end))) => {
                if start == 0 && self.input.is_char_boundary(end) {
                    self.advance_view(end)
                } else {
                    ParseResult::Stop(StopBecause::MustBe { message, position: self.start_offset })
                }
            },
            Ok(None) => ParseResult::Stop(StopBecause::MustBe { message, position: self.start_offset }),
            Err(SearchFailure::Quit { offset }) => {
                let at = self.start_offset.saturating_add(offset);
                ParseResult::Stop(StopBecause::Custom(CustomError { message: "regex match quit", start: at, end: at }))
            },
            Err(SearchFailure::GaveUp { offset }) => {
                let at = self.start_offset.saturating_add(offset);
                ParseResult::Stop(StopBecause::Custom(CustomError { message: "regex match gave up", start: at, end: at }))
            },
            Err(SearchFailure::Other) => ParseResult::Stop(
                StopBecause::Custom(
                    CustomError { message: "regex match failed", start: self.start_offset, end: self.start_offset },
                ),
            ),
        }
    }

    /// Match a DFA regular expression at the cursor: the search runs on
    /// the remaining text, and `dfa_outcome` decides on what it found.
    pub fn match_regex_automata(&self, re: &regex_automata::dfa::regex::Regex, message: &'static str) -> (r:
        ParseResult<'i, &'i str>)
        requires
            self.wf(),
        ensures
            r matches ParseResult::Pending(n, v) ==> self.reaches(n) && v@ == self.consumed(n) && n.wf()
                && n.stop_reason == self.stop_reason,
            r matches ParseResult::Stop(e) ==> e == (StopBecause::MustBe {
                message,
                position: self.start_offset,
            }) || e is Custom,
    {
        let found = dfa_search(re, self.input);
        self.dfa_outcome(found, message)
    }

    /// What a leftmost match `found` on the remaining text gives: one that
    /// starts here succeeds with its text, moving past its end; none, or
    /// one that starts further on, fails with `MissingString`.
    pub fn anchored_match(self, found: Option<(usize, usize)>, message: &'static str) -> (r: ParseResult<'i, &'i str>)
        requires
            self.wf(),
            found matches Some((a, b)) ==> a <= b && self.is_boundary(b as int),
        ensures
            match found {
                Some((a, b)) => if a == 0 {
                    r matches ParseResult::Pending(n, v) && self.reaches(n) && v@ == self.consumed(n)
                        && utf8_len(v@) == b && n.wf() && n.stop_reason == self.stop_reason
                } else {
                    r == ParseResult::<'i, &'i str>::Stop(
                        StopBecause::MissingString { message, position: self.start_offset },
                    )
                },
                None => r == ParseResult::<'i, &'i str>::Stop(
                    StopBecause::MissingString { message, position: self.start_offset },
                ),
            },
    {
        match found {
            Some((start, end)) => {
                if start == 0 {
                    self.advance_view(end)
                } else {
                    ParseResult::Stop(StopBecause::MissingString { message, position: self.start_offset })
                }
            },
            None => ParseResult::Stop(StopBecause::MissingString { message, position: self.start_offset }),
        }
    }

    /// Match `re` at the cursor: the leftmost match on the remaining text
    /// is found, and `anchored_match` decides on it.
    pub fn match_regex(&self, re: &regex::Regex, message: &'static str) -> (r: ParseResult<'i, &'i str>)
        requires
            self.wf(),
        ensures
            r matches ParseResult::Pending(n, v) ==> self.reaches(n) && v@ == self.consumed(n) && n.wf()
                && n.stop_reason == self.stop_reason,
            r matches ParseResult::Stop(e) ==> e == (StopBecause::MissingString {
                message,
                position: self.start_offset,
            }),
    {
        let found = regex_find(re, self.input);
        self.anchored_match(found, message)
    }
}

/// `a + b`, or `usize::MAX` where that overflows.
pub open spec fn saturated_sum(a: usize, b: usize) -> usize {
    if a + b > usize::MAX {
        usize::MAX
    } else {
        (a + b) as usize
    }
}

} // verus!
