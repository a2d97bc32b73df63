//! Ready-made matchers for common shapes of text, and function forms of the
//! combinators.
use vstd::prelude::*;

use crate::builtin::{is_parser, lemma_run_count, prefix_count, starts_with, stops_on};
use crate::results::{ParseResult, StopBecause};
use crate::state::ParseState;
use crate::text::{char_is_ascii_whitespace, char_is_whitespace, is_ascii_white_space, is_white_space};

pub mod color;
pub mod comment;
pub mod number;
pub mod string;
pub mod trie;
pub mod zero_base;

pub use self::color::HexColor;
pub use self::comment::{rest_of_line, CommentBlock, CommentLine};
pub use self::number::decimal_string;
pub use self::string::{
    paragraph_break, quotation_pair, quotation_pair_escaped, quotation_pair_nested, surround_pair_with_escaper,
    unescape_u, unescape_us, UnicodeUnescape,
};
pub use self::trie::CharactersTrie;
pub use self::zero_base::ZeroBytePattern;
pub use crate::patterns::{SurroundPair, SurroundPattern};

verus! {

/// Match the longest run of ASCII white space; an empty run is a failure.
pub fn ascii_whitespace<'i>(state: ParseState<'i>) -> (r: ParseResult<'i, &'i str>)
    requires
        state.wf(),
    ensures
        ({
            let k = prefix_count(|c: char| is_ascii_white_space(c), state@, true) as int;
            if k == 0 {
                r == ParseResult::<'i, &'i str>::Stop(
                    StopBecause::MissingCharacterRange { start: ' ', end: ' ', position: state.start_offset },
                )
            } else {
                r matches ParseResult::Pending(n, v) && v@ == state@.take(k) && state.moved(n, k) && n.wf()
            }
        }),
{
    let is_ws = |c: char| -> (b: bool)
        ensures
            b == is_ascii_white_space(c),
        { char_is_ascii_whitespace(c) };
    match state.match_str_if(is_ws, "WHITESPACE") {
        ParseResult::Pending(n, v) => {
            proof {
                lemma_run_count(is_ws, |c: char| is_ascii_white_space(c), state@, v@.len() as int, true);
            }
            ParseResult::Pending(n, v)
        },
        ParseResult::Stop(_) => {
            proof {
                lemma_run_count(is_ws, |c: char| is_ascii_white_space(c), state@, 0, true);
            }
            ParseResult::Stop(StopBecause::MissingCharacterRange { start: ' ', end: ' ', position: state.start_offset })
        },
    }
}

/// Match the longest run of Unicode white space; an empty run is a failure.
pub fn whitespace<'i>(state: ParseState<'i>) -> (r: ParseResult<'i, &'i str>)
    requires
        state.wf(),
    ensures
        ({
            let k = prefix_count(|c: char| is_white_space(c), state@, true) as int;
            if k == 0 {
                r == ParseResult::<'i, &'i str>::Stop(
                    StopBecause::MissingCharacterRange { start: ' ', end: ' ', position: state.start_offset },
                )
            } else {
                r matches ParseResult::Pending(n, v) && v@ == state@.take(k) && state.moved(n, k) && n.wf()
            }
        }),
{
    let is_ws = |c: char| -> (b: bool)
        ensures
            b == is_white_space(c),
        { char_is_whitespace(c) };
    match state.match_str_if(is_ws, "WHITESPACE") {
        ParseResult::Pending(n, v) => {
            proof {
                lemma_run_count(is_ws, |c: char| is_white_space(c), state@, v@.len() as int, true);
            }
            ParseResult::Pending(n, v)
        },
        ParseResult::Stop(_) => {
            proof {
                lemma_run_count(is_ws, |c: char| is_white_space(c), state@, 0, true);
            }
            ParseResult::Stop(StopBecause::MissingCharacterRange { start: ' ', end: ' ', position: state.start_offset })
        },
    }
}

/// Run a parser on a whole text: its value where it succeeds and consumes
/// everything; `ExpectEOF` at the first byte left over where it stops early;
/// its failure where it fails.
pub fn make_from_str<'i, T, F>(state: ParseState<'i>, parser: F) -> (r: Result<T, StopBecause>)
    where
        F: FnOnce(ParseState<'i>) -> ParseResult<'i, T>,
    requires
        parser.requires((state,)),
    ensures
        exists|out: ParseResult<'i, T>| #[trigger] parser.ensures((state,), out) && match out {
            ParseResult::Pending(n, v) => if n@.len() == 0 {
                r == Ok::<T, StopBecause>(v)
            } else {
                r == Err::<T, StopBecause>(StopBecause::ExpectEOF { position: n.start_offset })
            },
            ParseResult::Stop(e) => r == Err::<T, StopBecause>(e),
        },
{
    let out = parser(state);
    match out {
        ParseResult::Pending(n, v) => {
            if n.is_empty() {
                Ok(v)
            } else {
                Err(StopBecause::ExpectEOF { position: n.start_offset })
            }
        },
        ParseResult::Stop(e) => Err(e),
    }
}

/// The matcher of the literal `s`, as a function.
pub fn str<'i>(s: &'static str) -> (r: impl Fn(ParseState<'i>) -> ParseResult<'i, &'i str>)
    ensures
        forall|st: ParseState<'i>| st.wf() ==> #[trigger] r.requires((st,)),
        forall|st: ParseState<'i>, out: ParseResult<'i, &'i str>|
            st.wf() && #[trigger] r.ensures((st,), out) ==> (out is Pending <==> starts_with(st@, s@)) && (
            out matches ParseResult::Pending(n, v) ==> v@ == s@ && st.moved(n, s@.len() as int) && n.wf()) && (
            out matches ParseResult::Stop(e) ==> e == (StopBecause::MissingString {
                message: s,
                position: st.start_offset,
            })),
{
    move |input: ParseState<'i>| -> (out: ParseResult<'i, &'i str>)
        requires
            input.wf(),
        ensures
            (out is Pending <==> starts_with(input@, s@)) && (out matches ParseResult::Pending(n, v)
                ==> v@ == s@ && input.moved(n, s@.len() as int) && n.wf()) && (
            out matches ParseResult::Stop(e) ==> e == (StopBecause::MissingString {
                message: s,
                position: input.start_offset,
            })),
        { input.match_str(s) }
}

/// The matcher of the character `c`, as a function.
pub fn char<'i>(c: char) -> (r: impl Fn(ParseState<'i>) -> ParseResult<'i, char>)
    ensures
        forall|st: ParseState<'i>| st.wf() ==> #[trigger] r.requires((st,)),
        forall|st: ParseState<'i>, out: ParseResult<'i, char>|
            st.wf() && #[trigger] r.ensures((st,), out) ==> (out is Pending <==> st@.len() > 0 && st@[0] == c)
                && (out matches ParseResult::Pending(n, v) ==> v == c && st.moved(n, 1) && n.wf()) && (
            out matches ParseResult::Stop(e) ==> e == (StopBecause::MissingCharacterRange {
                start: c,
                end: c,
                position: st.start_offset,
            })),
{
    move |input: ParseState<'i>| -> (out: ParseResult<'i, char>)
        requires
            input.wf(),
        ensures
            (out is Pending <==> input@.len() > 0 && input@[0] == c) && (out matches ParseResult::Pending(
                n,
                v,
            ) ==> v == c && input.moved(n, 1) && n.wf()) && (out matches ParseResult::Stop(e) ==> e == (
            StopBecause::MissingCharacterRange { start: c, end: c, position: input.start_offset })),
        { input.match_char(c) }
}

/// `parse` with its value dropped.
pub fn omit<'i, T, F>(parse: F) -> (r: impl Fn(ParseState<'i>) -> ParseResult<'i, ()>)
    where
        F: Fn(ParseState<'i>) -> ParseResult<'i, T>,
    requires
        is_parser(parse),
    ensures
        is_parser(r),
        forall|st: ParseState<'i>, out: ParseResult<'i, ()>|
            st.wf() && #[trigger] r.ensures((st,), out) ==> match out {
                ParseResult::Pending(n, _) => exists|v: T| #[trigger] parse.ensures((st,), ParseResult::Pending(n, v)),
                ParseResult::Stop(e) => parse.ensures((st,), ParseResult::<'i, T>::Stop(e)),
            },
{
    move |input: ParseState<'i>| -> (out: ParseResult<'i, ()>)
        requires
            input.wf(),
        ensures
            match out {
                ParseResult::Pending(n, _) => input.reaches(n) && n.wf() && exists|v: T|
                    #[trigger] parse.ensures((input,), ParseResult::Pending(n, v)),
                ParseResult::Stop(e) => parse.ensures((input,), ParseResult::<'i, T>::Stop(e)),
            },
        {
            match parse(input) {
                ParseResult::Pending(n, v) => {
                    assert(parse.ensures((input,), ParseResult::Pending(n, v)));
                    ParseResult::Pending(n, ())
                },
                ParseResult::Stop(e) => ParseResult::Stop(e),
            }
        }
}

/// `parse` made optional: `None` from the same state where it fails.
pub fn optional<'i, T, F>(parse: F) -> (r: impl Fn(ParseState<'i>) -> ParseResult<'i, Option<T>>)
    where
        F: Fn(ParseState<'i>) -> ParseResult<'i, T>,
    requires
        is_parser(parse),
    ensures
        is_parser(r),
        forall|st: ParseState<'i>, out: ParseResult<'i, Option<T>>|
            st.wf() && #[trigger] r.ensures((st,), out) ==> (out matches ParseResult::Pending(n, v) && match v {
                Some(x) => parse.ensures((st,), ParseResult::Pending(n, x)),
                None => n == st && stops_on(parse, st),
            }),
{
    move |input: ParseState<'i>| -> (out: ParseResult<'i, Option<T>>)
        requires
            input.wf(),
        ensures
            out matches ParseResult::Pending(n, v) && input.reaches(n) && n.wf() && match v {
                Some(x) => parse.ensures((input,), ParseResult::Pending(n, x)),
                None => n == input && stops_on(parse, input),
            },
        { input.match_optional(&parse) }
}

} // verus!
