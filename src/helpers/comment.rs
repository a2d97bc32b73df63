//! Line comments and block comments.
use vstd::prelude::*;

use crate::builtin::{find_str, lemma_run_count, occurs_at, prefix_count, scan_run, starts_with};
use crate::patterns::{StringView, SurroundPair};
use crate::results::{CustomError, ParseResult, StopBecause};
use crate::state::{lemma_moved_trans, ParseState};
use crate::text::utf8_len;

verus! {

/// Whether a character ends a line.
pub open spec fn is_line_end(c: char) -> bool {
    c == '\r' || c == '\n'
}

/// Number of characters of `s` before the first line end.
pub open spec fn line_len(s: Seq<char>) -> nat {
    prefix_count(|c: char| is_line_end(c), s, false)
}

/// Split off the text before the first line end.
fn take_line<'i>(input: ParseState<'i>) -> (r: (ParseState<'i>, &'i str))
    requires
        input.wf(),
    ensures
        r.1@ == input@.take(line_len(input@) as int),
        input.moved(r.0, line_len(input@) as int),
        r.0.wf(),
{
    let not_end = |c: char| -> (b: bool)
        ensures
            b == is_line_end(c),
        { c == '\r' || c == '\n' };
    let (count, offset) = scan_run(input.input, not_end, false);
    proof {
        lemma_run_count(not_end, |c: char| is_line_end(c), input@, count as int, false);
    }
    input.step_chars(Ghost(count as int), offset)
}

/// The rest of the line, without its line end; never fails.
pub fn rest_of_line<'i>(input: ParseState<'i>) -> (r: ParseResult<'i, StringView<'i>>)
    requires
        input.wf(),
    ensures
        r matches ParseResult::Pending(n, v) && v@ == input@.take(line_len(input@) as int)
            && v.start_offset == input.start_offset && input.moved(n, line_len(input@) as int) && n.wf(),
{
    let (n, body) = take_line(input);
    ParseResult::Pending(n, StringView::new(body, input.start_offset))
}

/// Parser of a line comment: a head, then the rest of the line.
#[derive(Clone, Copy, Debug)]
pub struct CommentLine {
    /// The head, such as `//` or `#`.
    pub head: &'static str,
}

impl CommentLine {
    /// A line comment parser with the given head.
    pub fn new(head: &'static str) -> (r: Self)
        ensures
            r.head == head,
    {
        CommentLine { head }
    }

    /// Match the head and the rest of the line, without the line end; the
    /// tail is empty.
    pub fn consume<'i>(&self, input: ParseState<'i>) -> (r: ParseResult<'i, SurroundPair<'i>>)
        requires
            input.wf(),
        ensures
            !starts_with(input@, self.head@) ==> r == ParseResult::<'i, SurroundPair<'i>>::Stop(
                StopBecause::MissingString { message: self.head, position: input.start_offset },
            ),
            starts_with(input@, self.head@) ==> ({
                let a = self.head@.len() as int;
                let rest = input@.skip(a);
                let b = line_len(rest) as int;
                let pos = input.start_offset + utf8_len(self.head@);
                r matches ParseResult::Pending(n, pair) && pair.head@ == self.head@
                    && pair.head.start_offset == input.start_offset && pair.body@ == rest.take(b)
                    && pair.body.start_offset == pos && pair.tail@.len() == 0
                    && pair.tail.start_offset == pos + utf8_len(rest.take(b)) && input.moved(n, a + b)
                    && n.wf()
            }),
    {
        let (state, head) = match input.match_str(self.head) {
            ParseResult::Pending(s, v) => (s, v),
            ParseResult::Stop(e) => {
                return ParseResult::Stop(e);
            },
        };
        let (n, body) = take_line(state);
        proof {
            lemma_moved_trans(input, state, n, self.head@.len() as int, line_len(state@) as int);
            reveal_strlit("");
            assert(input@.take(self.head@.len() as int) == self.head@);
            assert(state@ == input@.skip(self.head@.len() as int));
        }
        ParseResult::Pending(
            n,
            SurroundPair {
                head: StringView::new(head, input.start_offset),
                body: StringView::new(body, state.start_offset),
                tail: StringView::new("", n.start_offset),
            },
        )
    }
}

/// Parser of a block comment: a head, then everything up to the first tail.
#[derive(Clone, Copy, Debug)]
pub struct CommentBlock {
    /// The head, such as `/*`.
    pub head: &'static str,
    /// The tail, such as `*/`.
    pub tail: &'static str,
    /// Whether blocks nest; nesting is not supported and is reported as an
    /// error.
    pub nested: bool,
}

impl CommentBlock {
    /// A block comment parser, not nested.
    pub fn new(head: &'static str, tail: &'static str) -> (r: Self)
        ensures
            r.head == head,
            r.tail == tail,
            !r.nested,
    {
        CommentBlock { head, tail, nested: false }
    }

    /// The same parser, with nesting set.
    pub fn with_nested(self, nested: bool) -> (r: Self)
        ensures
            r == (CommentBlock { nested, ..self }),
    {
        CommentBlock { nested, ..self }
    }

    /// Match the head, everything up to the first tail, and the tail. A
    /// nested parser fails with a custom error at the head.
    pub fn consume<'i>(&self, input: ParseState<'i>) -> (r: ParseResult<'i, SurroundPair<'i>>)
        requires
            input.wf(),
        ensures
            !starts_with(input@, self.head@) ==> r == ParseResult::<'i, SurroundPair<'i>>::Stop(
                StopBecause::MissingString { message: self.head, position: input.start_offset },
            ),
            starts_with(input@, self.head@) && self.nested ==> r == ParseResult::<
                'i,
                SurroundPair<'i>,
            >::Stop(
                StopBecause::Custom(
                    CustomError {
                        message: "Nested comment blocks are not supported",
                        start: input.start_offset,
                        end: input.start_offset,
                    },
                ),
            ),
            starts_with(input@, self.head@) && !self.nested ==> ({
                let a = self.head@.len() as int;
                let rest = input@.skip(a);
                let pos = input.start_offset + utf8_len(self.head@);
                match r {
                    ParseResult::Pending(n, pair) => {
                        let k = pair.body@.len() as int;
                        &&& occurs_at(rest, self.tail@, k)
                        &&& forall|j: int| 0 <= j < k ==> !#[trigger] occurs_at(rest, self.tail@, j)
                        &&& pair.head@ == self.head@ && pair.head.start_offset == input.start_offset
                        &&& pair.body@ == rest.take(k) && pair.body.start_offset == pos
                        &&& pair.tail@ == self.tail@ && pair.tail.start_offset == pos + utf8_len(
                            rest.take(k),
                        )
                        &&& input.moved(n, a + k + self.tail@.len())
                        &&& n.wf()
                    },
                    ParseResult::Stop(e) => {
                        &&& forall|j: int| 0 <= j <= rest.len() ==> !#[trigger] occurs_at(rest, self.tail@, j)
                        &&& e == StopBecause::MissingString { message: self.tail, position: pos as usize }
                    },
                }
            }),
    {
        let (state, head) = match input.match_str(self.head) {
            ParseResult::Pending(s, v) => (s, v),
            ParseResult::Stop(e) => {
                return ParseResult::Stop(e);
            },
        };
        if self.nested {
            return ParseResult::Stop(
                StopBecause::Custom(
                    CustomError {
                        message: "Nested comment blocks are not supported",
                        start: input.start_offset,
                        end: input.start_offset,
                    },
                ),
            );
        }
        match find_str(state.input, self.tail) {
            Some((k, m)) => {
                let (tail_state, body) = state.step_chars(Ghost(k as int), m);
                let tail_start = tail_state.start_offset;
                assert(starts_with(tail_state@, self.tail@));
                match tail_state.match_str(self.tail) {
                    ParseResult::Pending(n, tail) => {
                        proof {
                            lemma_moved_trans(input, state, tail_state, self.head@.len() as int, k as int);
                            lemma_moved_trans(
                                input,
                                tail_state,
                                n,
                                self.head@.len() + k,
                                self.tail@.len() as int,
                            );
                        }
                        ParseResult::Pending(
                            n,
                            SurroundPair {
                                head: StringView::new(head, input.start_offset),
                                body: StringView::new(body, state.start_offset),
                                tail: StringView::new(tail, tail_start),
                            },
                        )
                    },
                    ParseResult::Stop(e) => ParseResult::Stop(e),
                }
            },
            None => ParseResult::Stop(StopBecause::MissingString { message: self.tail, position: state.start_offset }),
        }
    }
}

} // verus!
