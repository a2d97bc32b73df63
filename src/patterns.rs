//! Views of matched text with their offsets, and matchers that name what
//! they look for.
use core::ops::Range;
use vstd::prelude::*;

use crate::builtin::{find_str, occurs_at, starts_with};
use crate::results::{ParseResult, StopBecause};
use crate::state::{lemma_moved_trans, ParseState};
use crate::text::utf8_len;

verus! {

/// A piece of the input with its byte offset in the whole input.
#[derive(Copy, Clone, Debug, PartialEq, Eq)]
pub struct StringView<'i> {
    /// Byte offset of the piece.
    pub start_offset: usize,
    /// The piece.
    pub string: &'i str,
}

impl<'i> View for StringView<'i> {
    type V = Seq<char>;

    /// The text of the piece.
    open spec fn view(&self) -> Seq<char> {
        self.string@
    }
}

impl<'i> StringView<'i> {
    /// The end of the piece fits in `usize`.
    pub open spec fn wf(&self) -> bool {
        self.start_offset + utf8_len(self.string@) <= usize::MAX
    }

    /// A view of `string` at `start_offset`.
    pub fn new(string: &'i str, start_offset: usize) -> (r: Self)
        ensures
            r.string == string,
            r.start_offset == start_offset,
    {
        StringView { start_offset, string }
    }

    /// Byte offset of the start.
    pub fn start_offset(&self) -> (r: usize)
        ensures
            r == self.start_offset,
    {
        self.start_offset
    }

    /// Byte offset just past the end: the start plus the byte length.
    pub fn end_offset(&self) -> (r: usize)
        requires
            self.wf(),
        ensures
            r == self.start_offset + utf8_len(self.string@),
    {
        self.start_offset + self.string.len()
    }

    /// The half-open byte range of the piece.
    pub fn as_range(&self) -> (r: Range<usize>)
        requires
            self.wf(),
        ensures
            r.start == self.start_offset,
            r.end == self.start_offset + utf8_len(self.string@),
    {
        self.start_offset..self.end_offset()
    }

    /// The text of the piece, owned.
    pub fn as_string(&self) -> (r: String)
        ensures
            r@ == self.string@,
    {
        self.string.to_owned()
    }
}

/// A delimited construct: head, body and tail, each with its offset.
#[derive(Copy, Clone, Debug, PartialEq, Eq)]
pub struct SurroundPair<'i> {
    /// The opening delimiter.
    pub head: StringView<'i>,
    /// The content.
    pub body: StringView<'i>,
    /// The closing delimiter.
    pub tail: StringView<'i>,
}

/// A literal with a name to report when it is missing.
#[derive(Copy, Clone, Debug)]
pub struct NamedPattern<P> {
    /// The literal.
    pub pattern: P,
    /// The name reported when the literal is missing.
    pub message: &'static str,
}

impl<P> NamedPattern<P> {
    /// A named pattern.
    pub fn new(pattern: P, message: &'static str) -> (r: Self)
        ensures
            r.pattern == pattern,
            r.message == message,
    {
        NamedPattern { pattern, message }
    }
}

impl NamedPattern<&'static str> {
    /// Match the literal at the start of the input, with its offset.
    pub fn consume<'i>(&self, input: ParseState<'i>) -> (r: ParseResult<'i, StringView<'i>>)
        requires
            input.wf(),
        ensures
            r is Pending <==> starts_with(input@, self.pattern@),
            r matches ParseResult::Pending(n, v) ==> v@ == self.pattern@ && v.start_offset
                == input.start_offset && input.moved(n, self.pattern@.len() as int) && n.wf(),
            r matches ParseResult::Stop(e) ==> e == (StopBecause::MissingString {
                message: self.message,
                position: input.start_offset,
            }),
    {
        match input.match_str(self.pattern) {
            ParseResult::Pending(n, v) => ParseResult::Pending(n, StringView::new(v, input.start_offset)),
            ParseResult::Stop(_) => ParseResult::Stop(
                StopBecause::MissingString { message: self.message, position: input.start_offset },
            ),
        }
    }
}

/// Delimited text without escapes, up to the first closing delimiter, such
/// as a raw string.
#[derive(Copy, Clone, Debug)]
pub struct SurroundPattern {
    /// Opening delimiter.
    pub lhs: &'static str,
    /// Closing delimiter.
    pub rhs: &'static str,
    /// Name reported when the opening delimiter is missing.
    pub lhs_name: &'static str,
    /// Name reported when the closing delimiter is missing.
    pub rhs_name: &'static str,
}

impl SurroundPattern {
    /// Match the opening delimiter, then everything up to the first
    /// closing delimiter, then that delimiter.
    pub fn consume<'i>(&self, input: ParseState<'i>) -> (r: ParseResult<'i, SurroundPair<'i>>)
        requires
            input.wf(),
        ensures
            !starts_with(input@, self.lhs@) ==> r == ParseResult::<'i, SurroundPair<'i>>::Stop(
                StopBecause::MissingString { message: self.lhs_name, position: input.start_offset },
            ),
            starts_with(input@, self.lhs@) ==> ({
                let a = self.lhs@.len() as int;
                let rest = input@.skip(a);
                let pos = input.start_offset + utf8_len(self.lhs@);
                match r {
                    ParseResult::Pending(n, pair) => {
                        let k = pair.body@.len() as int;
                        &&& occurs_at(rest, self.rhs@, k)
                        &&& forall|j: int| 0 <= j < k ==> !#[trigger] occurs_at(rest, self.rhs@, j)
                        &&& pair.head@ == self.lhs@ && pair.head.start_offset == input.start_offset
                        &&& pair.body@ == rest.take(k) && pair.body.start_offset == pos
                        &&& pair.tail@ == self.rhs@ && pair.tail.start_offset == pos + utf8_len(
                            rest.take(k),
                        )
                        &&& input.moved(n, a + k + self.rhs@.len())
                        &&& n.wf()
                    },
                    ParseResult::Stop(e) => {
                        &&& forall|j: int| 0 <= j <= rest.len() ==> !#[trigger] occurs_at(rest, self.rhs@, j)
                        &&& e == StopBecause::MissingString {
                            message: self.rhs_name,
                            position: (pos + utf8_len(rest)) as usize,
                        }
                    },
                }
            }),
    {
        let (body_state, head) = match input.match_str(self.lhs) {
            ParseResult::Pending(s, v) => (s, v),
            ParseResult::Stop(_) => {
                return ParseResult::Stop(
                    StopBecause::MissingString { message: self.lhs_name, position: input.start_offset },
                );
            },
        };
        let lhs = StringView::new(head, input.start_offset);
        match find_str(body_state.input, self.rhs) {
            Some((k, m)) => {
                let (tail_state, body_str) = body_state.step_chars(Ghost(k as int), m);
                let body = StringView::new(body_str, body_state.start_offset);
                let tail_start = tail_state.start_offset;
                assert(starts_with(tail_state@, self.rhs@));
                match tail_state.match_str(self.rhs) {
                    ParseResult::Pending(n, tail_str) => {
                        let rhs = StringView::new(tail_str, tail_start);
                        proof {
                            lemma_moved_trans(input, body_state, tail_state, self.lhs@.len() as int, k as int);
                            lemma_moved_trans(
                                input,
                                tail_state,
                                n,
                                self.lhs@.len() + k,
                                self.rhs@.len() as int,
                            );
                        }
                        ParseResult::Pending(n, SurroundPair { head: lhs, body, tail: rhs })
                    },
                    ParseResult::Stop(e) => ParseResult::Stop(e),
                }
            },
            None => ParseResult::Stop(
                StopBecause::MissingString { message: self.rhs_name, position: body_state.end_offset() },
            ),
        }
    }
}

} // verus!
