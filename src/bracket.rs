//! Bracketed, delimited lists such as `[1, 2, 3]` or `(x,)`.
use vstd::prelude::*;

use crate::builtin::{after_literal, is_parser, is_strict_parser, lemma_reaches_trans, skipped, starts_with, stops_on};
use crate::patterns::StringView;
use crate::results::{ParseResult, StopBecause};
use crate::state::ParseState;
use crate::text::utf8_len;

verus! {

/// `v` is a value that `parser` returned on some state.
pub open spec fn produced<'i, T, F: Fn(ParseState<'i>) -> ParseResult<'i, T>>(parser: F, v: T) -> bool {
    exists|s: ParseState<'i>, m: ParseState<'i>| #[trigger] parser.ensures((s,), ParseResult::Pending(m, v))
}

/// Delimiter steps of a list: from `states[i - 1]`, `~ delimiter ~ term`
/// reaches `states[i]` with the value `values[i]`.
pub open spec fn is_term_chain<'i, T, U, F: Fn(ParseState<'i>) -> ParseResult<'i, T>, I: Fn(ParseState<'i>) -> ParseResult<'i, U>>(
    pattern: BracketPattern,
    ignore: I,
    parser: F,
    states: Seq<ParseState<'i>>,
    values: Seq<T>,
) -> bool {
    &&& states.len() == values.len()
    &&& forall|i: int|
        1 <= i < states.len() ==> #[trigger] pattern.term_step(ignore, parser, states[i - 1], states[i], values[i])
}

/// A bracket pattern: open and close literals, a delimiter between terms,
/// and the policy on a delimiter after the last term.
#[derive(Copy, Clone, Debug)]
pub struct BracketPattern {
    /// The opening literal.
    pub open: &'static str,
    /// The closing literal.
    pub close: &'static str,
    /// The delimiter between terms.
    pub delimiter: &'static str,
    /// A delimiter after the last term: `Some(true)` required,
    /// `Some(false)` forbidden, `None` optional.
    pub dangling: Option<bool>,
    /// A single term needs a delimiter after it, as in the one-tuple `(x,)`.
    pub one_tailing: bool,
}

/// A matched bracketed list.
#[derive(Debug)]
pub struct BracketPair<'i, T> {
    /// The opening literal.
    pub lhs: StringView<'i>,
    /// The closing literal.
    pub rhs: StringView<'i>,
    /// The terms.
    pub body: Vec<T>,
}

impl BracketPattern {
    /// A pattern with `,` as delimiter, an optional trailing delimiter, and
    /// no one-tuple rule.
    pub fn new(open: &'static str, close: &'static str) -> (r: Self)
        ensures
            r.open == open,
            r.close == close,
            r.delimiter == ",",
            r.dangling is None,
            !r.one_tailing,
    {
        BracketPattern { open, close, delimiter: ",", dangling: None, one_tailing: false }
    }

    /// The same pattern with another delimiter.
    pub fn with_delimiter(self, delimiter: &'static str) -> (r: Self)
        ensures
            r == (BracketPattern { delimiter, ..self }),
    {
        BracketPattern { delimiter, ..self }
    }

    /// The same pattern with a trailing delimiter required or forbidden.
    pub fn with_dangling(self, dangling: bool) -> (r: Self)
        ensures
            r == (BracketPattern { dangling: Some(dangling), ..self }),
    {
        BracketPattern { dangling: Some(dangling), ..self }
    }

    /// The same pattern with the one-tuple rule set.
    pub fn with_one_tailing(self, one_tailing: bool) -> (r: Self)
        ensures
            r == (BracketPattern { one_tailing, ..self }),
    {
        BracketPattern { one_tailing, ..self }
    }

    /// `~ delimiter ~ term` from `s` reaches `n` with the value `v`.
    pub open spec fn term_step<'i, T, U, F: Fn(ParseState<'i>) -> ParseResult<'i, T>, I: Fn(ParseState<'i>) -> ParseResult<'i, U>>(
        &self,
        ignore: I,
        parser: F,
        s: ParseState<'i>,
        n: ParseState<'i>,
        v: T,
    ) -> bool {
        exists|a: ParseState<'i>, b: ParseState<'i>, c: ParseState<'i>|
            #![trigger skipped(ignore, s, a), after_literal(a, self.delimiter, b), skipped(ignore, b, c)]
            skipped(ignore, s, a) && after_literal(a, self.delimiter, b) && skipped(ignore, b, c) && parser.ensures(
                (c,),
                ParseResult::Pending(n, v),
            )
    }

    /// `~ delimiter ~ term` fails from `s`: the delimiter is missing, or the
    /// term after it.
    pub open spec fn no_more_terms<'i, T, U, F: Fn(ParseState<'i>) -> ParseResult<'i, T>, I: Fn(ParseState<'i>) -> ParseResult<'i, U>>(
        &self,
        ignore: I,
        parser: F,
        s: ParseState<'i>,
    ) -> bool {
        exists|a: ParseState<'i>|
            #[trigger] skipped(ignore, s, a) && (!starts_with(a@, self.delimiter@) || exists|
                b: ParseState<'i>,
                c: ParseState<'i>,
            | #![trigger after_literal(a, self.delimiter, b), skipped(ignore, b, c)]
            after_literal(a, self.delimiter, b) && skipped(ignore, b, c) && stops_on(parser, c))
    }

    /// From the state after the last term, the trailing delimiter policy
    /// leads to `s_rhs`: a required delimiter (also for a lone term under the
    /// one-tuple rule) is matched, a forbidden one is not tried, an optional
    /// one is matched where it is there.
    pub open spec fn trailing<'i, U, I: Fn(ParseState<'i>) -> ParseResult<'i, U>>(
        &self,
        ignore: I,
        last: ParseState<'i>,
        count: nat,
        s_rhs: ParseState<'i>,
    ) -> bool {
        if (self.one_tailing && count == 1) || self.dangling == Some(true) {
            exists|a: ParseState<'i>| #[trigger] skipped(ignore, last, a) && after_literal(a, self.delimiter, s_rhs)
        } else if self.dangling is None {
            exists|a: ParseState<'i>|
                #[trigger] skipped(ignore, last, a) && (after_literal(a, self.delimiter, s_rhs) || (
                !starts_with(a@, self.delimiter@) && s_rhs == last))
        } else {
            s_rhs == last
        }
    }

    /// `open ~ close` from `input` reaches `n`, giving `pair`.
    pub open spec fn derives_empty<'i, T, U, I: Fn(ParseState<'i>) -> ParseResult<'i, U>>(
        &self,
        ignore: I,
        input: ParseState<'i>,
        n: ParseState<'i>,
        pair: BracketPair<'i, T>,
    ) -> bool {
        exists|s1: ParseState<'i>, w: ParseState<'i>|
            #![trigger after_literal(input, self.open, s1), skipped(ignore, s1, w)]
            after_literal(input, self.open, s1) && skipped(ignore, s1, w) && after_literal(w, self.close, n)
                && pair.body@.len() == 0 && pair.lhs@ == self.open@ && pair.lhs.start_offset
                == input.start_offset && pair.rhs@ == self.close@ && pair.rhs.start_offset == w.start_offset
    }

    /// One way `open ~ term (~ delimiter ~ term)* trailing ~ close` goes
    /// from `input` to `n`, giving `pair`: after the open literal `s1` and
    /// what `ignore` skips `t0`, the first term reaches `states[0]`, the
    /// delimiter steps the other states, the trailing policy `s_rhs`, and
    /// after what `ignore` skips `w` the close literal ends at `n`.
    pub open spec fn many_steps<'i, T, U, F: Fn(ParseState<'i>) -> ParseResult<'i, T>, I: Fn(ParseState<'i>) -> ParseResult<'i, U>>(
        &self,
        ignore: I,
        parser: F,
        input: ParseState<'i>,
        n: ParseState<'i>,
        pair: BracketPair<'i, T>,
        s1: ParseState<'i>,
        t0: ParseState<'i>,
        states: Seq<ParseState<'i>>,
        s_rhs: ParseState<'i>,
        w: ParseState<'i>,
    ) -> bool {
        &&& after_literal(input, self.open, s1)
        &&& skipped(ignore, s1, t0)
        &&& states.len() >= 1
        &&& parser.ensures((t0,), ParseResult::Pending(states[0], pair.body@[0]))
        &&& is_term_chain(*self, ignore, parser, states, pair.body@)
        &&& self.no_more_terms(ignore, parser, states.last())
        &&& self.trailing(ignore, states.last(), states.len(), s_rhs)
        &&& skipped(ignore, s_rhs, w)
        &&& after_literal(w, self.close, n)
        &&& pair.lhs@ == self.open@ && pair.lhs.start_offset == input.start_offset
        &&& pair.rhs@ == self.close@ && pair.rhs.start_offset == w.start_offset
    }

    /// `open ~ term (~ delimiter ~ term)* trailing ~ close` from `input`
    /// reaches `n`, giving `pair`.
    pub open spec fn derives_many<'i, T, U, F: Fn(ParseState<'i>) -> ParseResult<'i, T>, I: Fn(ParseState<'i>) -> ParseResult<'i, U>>(
        &self,
        ignore: I,
        parser: F,
        input: ParseState<'i>,
        n: ParseState<'i>,
        pair: BracketPair<'i, T>,
    ) -> bool {
        exists|
            s1: ParseState<'i>,
            t0: ParseState<'i>,
            states: Seq<ParseState<'i>>,
            s_rhs: ParseState<'i>,
            w: ParseState<'i>,
        | #[trigger] self.many_steps(ignore, parser, input, n, pair, s1, t0, states, s_rhs, w)
    }

    /// What a successful match gives: the literals at their offsets, the
    /// closing one ending where parsing goes on, and terms that `parser`
    /// returned.
    pub open spec fn matched<'i, T, F: Fn(ParseState<'i>) -> ParseResult<'i, T>>(
        &self,
        parser: F,
        input: ParseState<'i>,
        n: ParseState<'i>,
        pair: BracketPair<'i, T>,
    ) -> bool {
        &&& input.reaches(n)
        &&& n.wf()
        &&& pair.lhs@ == self.open@
        &&& pair.lhs.start_offset == input.start_offset
        &&& pair.rhs@ == self.close@
        &&& pair.rhs.start_offset + utf8_len(self.close@) == n.start_offset
        &&& forall|i: int| 0 <= i < pair.body@.len() ==> produced(parser, #[trigger] pair.body@[i])
    }

    /// `open ~ close` fails from `input` with `e`: after the open literal
    /// and what `ignore` skips, the close literal is missing.
    pub open spec fn fails_empty<'i, U, I: Fn(ParseState<'i>) -> ParseResult<'i, U>>(
        &self,
        ignore: I,
        input: ParseState<'i>,
        e: StopBecause,
    ) -> bool {
        exists|s1: ParseState<'i>, w: ParseState<'i>|
            #![trigger after_literal(input, self.open, s1), skipped(ignore, s1, w)]
            after_literal(input, self.open, s1) && skipped(ignore, s1, w) && !starts_with(w@, self.close@) && e
                == (StopBecause::MissingString { message: self.close, position: w.start_offset })
    }

    /// After the last term, which is at `last` and the `count`-th, the list
    /// fails with `e`: a required trailing delimiter is missing, or after the
    /// trailing policy and what `ignore` skips the close literal is missing.
    pub open spec fn end_fails<'i, U, I: Fn(ParseState<'i>) -> ParseResult<'i, U>>(
        &self,
        ignore: I,
        last: ParseState<'i>,
        count: nat,
        e: StopBecause,
    ) -> bool {
        ||| ((self.one_tailing && count == 1) || self.dangling == Some(true)) && exists|a: ParseState<'i>|
            #[trigger] skipped(ignore, last, a) && !starts_with(a@, self.delimiter@) && e == (
            StopBecause::MissingString { message: self.delimiter, position: a.start_offset })
        ||| exists|s_rhs: ParseState<'i>, w: ParseState<'i>|
            #![trigger self.trailing(ignore, last, count, s_rhs), skipped(ignore, s_rhs, w)]
            self.trailing(ignore, last, count, s_rhs) && skipped(ignore, s_rhs, w) && !starts_with(
                w@,
                self.close@,
            ) && e == (StopBecause::MissingString { message: self.close, position: w.start_offset })
    }

    /// One way `open ~ term (~ delimiter ~ term)* trailing ~ close` fails
    /// with `e` after the open literal `s1` and what `ignore` skips `t0`:
    /// the first term stops with `e`; or the terms reach `states`, with
    /// `values`, no further delimiter step succeeds, and the end fails.
    pub open spec fn many_fails_at<'i, T, U, F: Fn(ParseState<'i>) -> ParseResult<'i, T>, I: Fn(ParseState<'i>) -> ParseResult<'i, U>>(
        &self,
        ignore: I,
        parser: F,
        input: ParseState<'i>,
        e: StopBecause,
        s1: ParseState<'i>,
        t0: ParseState<'i>,
        states: Seq<ParseState<'i>>,
        values: Seq<T>,
    ) -> bool {
        &&& after_literal(input, self.open, s1)
        &&& skipped(ignore, s1, t0)
        &&& if states.len() == 0 {
            parser.ensures((t0,), ParseResult::<'i, T>::Stop(e))
        } else {
            &&& parser.ensures((t0,), ParseResult::Pending(states[0], values[0]))
            &&& is_term_chain(*self, ignore, parser, states, values)
            &&& self.no_more_terms(ignore, parser, states.last())
            &&& self.end_fails(ignore, states.last(), states.len(), e)
        }
    }

    /// `open ~ term (~ delimiter ~ term)* trailing ~ close` fails from
    /// `input` with `e`, after its open literal.
    pub open spec fn fails_many<'i, T, U, F: Fn(ParseState<'i>) -> ParseResult<'i, T>, I: Fn(ParseState<'i>) -> ParseResult<'i, U>>(
        &self,
        ignore: I,
        parser: F,
        input: ParseState<'i>,
        e: StopBecause,
    ) -> bool {
        exists|s1: ParseState<'i>, t0: ParseState<'i>, states: Seq<ParseState<'i>>, values: Seq<T>|
            #[trigger] self.many_fails_at(ignore, parser, input, e, s1, t0, states, values)
    }

    /// The input is the empty list `open close`, and `ignore` matches
    /// nothing between them.
    pub open spec fn empty_here<'i, U, I: Fn(ParseState<'i>) -> ParseResult<'i, U>>(&self, ignore: I, input: ParseState<'i>) -> bool {
        &&& starts_with(input@, self.open@ + self.close@)
        &&& forall|s: ParseState<'i>, out: ParseResult<'i, U>|
            input.moved(s, self.open@.len() as int) && #[trigger] ignore.ensures((s,), out) ==> out is Stop
    }

    /// Match `open ~ close`, or `open ~ term (~ delimiter ~ term)* ~ close`
    /// with the trailing delimiter policy, where `~` is what `ignore`
    /// skips. The empty form is tried first.
    pub fn consume<'i, F, I, T, U>(&self, input: ParseState<'i>, ignore: I, parser: F) -> (r: ParseResult<'i, BracketPair<'i, T>>)
        where
            F: Fn(ParseState<'i>) -> ParseResult<'i, T>,
            I: Fn(ParseState<'i>) -> ParseResult<'i, U>,
        requires
            input.wf(),
            is_parser(ignore),
            is_parser(parser),
            self.delimiter@.len() > 0 || is_strict_parser(parser),
        ensures
            !starts_with(input@, self.open@) ==> r == ParseResult::<'i, BracketPair<'i, T>>::Stop(
                StopBecause::MissingString { message: self.open, position: input.start_offset },
            ),
            self.empty_here(ignore, input) ==> (r matches ParseResult::Pending(_, pair) && pair.body@.len() == 0),
            r matches ParseResult::Pending(n, pair) ==> self.matched(parser, input, n, pair),
            r matches ParseResult::Pending(n, pair) ==> self.derives_empty(ignore, input, n, pair) || exists|
                e: StopBecause,
            | #[trigger] self.derives_many(ignore, parser, ParseState { stop_reason: Some(e), ..input }, n, pair),
            r matches ParseResult::Stop(e) ==> (!starts_with(input@, self.open@) && e == (StopBecause::MissingString {
                message: self.open,
                position: input.start_offset,
            })) || exists|e0: StopBecause|
                #![trigger self.fails_empty(ignore, input, e0)]
                self.fails_empty(ignore, input, e0) && self.fails_many(
                    ignore,
                    parser,
                    ParseState { stop_reason: Some(e0), ..input },
                    e,
                ),
    {
        match self.consume_empty(input, &ignore) {
            ParseResult::Pending(n, pair) => ParseResult::Pending(n, pair),
            ParseResult::Stop(e) => {
                let state = ParseState { stop_reason: Some(e), ..input };
                self.consume_many(state, &ignore, &parser)
            },
        }
    }

    /// `open ~ close`
    fn consume_empty<'i, I, T, U>(&self, input: ParseState<'i>, ignore: &I) -> (r: ParseResult<'i, BracketPair<'i, T>>)
        where
            I: Fn(ParseState<'i>) -> ParseResult<'i, U>,
        requires
            input.wf(),
            is_parser(*ignore),
        ensures
            !starts_with(input@, self.open@) ==> r == ParseResult::<'i, BracketPair<'i, T>>::Stop(
                StopBecause::MissingString { message: self.open, position: input.start_offset },
            ),
            self.empty_here(*ignore, input) ==> r is Pending,
            r matches ParseResult::Stop(e) ==> (!starts_with(input@, self.open@) && e == (StopBecause::MissingString {
                message: self.open,
                position: input.start_offset,
            })) || self.fails_empty(*ignore, input, e),
            r matches ParseResult::Pending(n, pair) ==> self.derives_empty(*ignore, input, n, pair),
            r matches ParseResult::Pending(n, pair) ==> pair.body@.len() == 0 && input.reaches(n) && n.wf()
                && pair.lhs@ == self.open@ && pair.lhs.start_offset == input.start_offset && pair.rhs@
                == self.close@ && pair.rhs.start_offset + utf8_len(self.close@) == n.start_offset,
    {
        proof {
            if self.empty_here(*ignore, input) {
                let o = self.open@.len() as int;
                assert(input@.take((o + self.close@.len()) as int) == self.open@ + self.close@);
                assert forall|i: int| 0 <= i < o implies input@[i] == self.open@[i] by {
                    assert(input@.take((o + self.close@.len()) as int)[i] == (self.open@ + self.close@)[i]);
                }
                assert(input@.take(o) =~= self.open@);
            }
        }
        let (s_rhs, lhs) = match input.match_str(self.open) {
            ParseResult::Pending(s, v) => (s, v),
            ParseResult::Stop(e) => {
                return ParseResult::Stop(e);
            },
        };
        let gap = s_rhs.skip(ignore);
        proof {
            if self.empty_here(*ignore, input) {
                assert(input@.take((self.open@.len() + self.close@.len()) as int) == self.open@ + self.close@);
                assert(gap == s_rhs);
                let o = self.open@.len() as int;
                let c = self.close@.len() as int;
                assert(s_rhs@ == input@.skip(o));
                assert forall|i: int| 0 <= i < c implies s_rhs@[i] == self.close@[i] by {
                    assert(s_rhs@[i] == input@[o + i]);
                    assert(input@.take(o + c)[o + i] == (self.open@ + self.close@)[o + i]);
                }
                assert(s_rhs@.take(c) =~= self.close@);
                assert(starts_with(gap@, self.close@));
            }
        }
        let (finally, rhs) = match gap.match_str(self.close) {
            ParseResult::Pending(s, v) => (s, v),
            ParseResult::Stop(e) => {
                proof {
                    assert(after_literal(input, self.open, s_rhs));
                    assert(skipped(*ignore, s_rhs, gap));
                    assert(self.fails_empty(*ignore, input, e));
                }
                return ParseResult::Stop(e);
            },
        };
        proof {
            lemma_reaches_trans(input, s_rhs, gap);
            lemma_reaches_trans(input, gap, finally);
        }
        let pair = BracketPair {
            lhs: StringView::new(lhs, input.start_offset),
            rhs: StringView::new(rhs, gap.start_offset),
            body: Vec::new(),
        };
        proof {
            assert(after_literal(input, self.open, s_rhs));
            assert(skipped(*ignore, s_rhs, gap));
            assert(after_literal(gap, self.close, finally));
        }
        ParseResult::Pending(finally, pair)
    }

    /// `open ~ term (~ delimiter ~ term)* ~ delimiter? ~ close`
    fn consume_many<'i, F, I, T, U>(&self, input: ParseState<'i>, ignore: &I, parser: &F) -> (r: ParseResult<'i, BracketPair<'i, T>>)
        where
            F: Fn(ParseState<'i>) -> ParseResult<'i, T>,
            I: Fn(ParseState<'i>) -> ParseResult<'i, U>,
        requires
            input.wf(),
            is_parser(*ignore),
            is_parser(*parser),
            self.delimiter@.len() > 0 || is_strict_parser(*parser),
        ensures
            !starts_with(input@, self.open@) ==> r == ParseResult::<'i, BracketPair<'i, T>>::Stop(
                StopBecause::MissingString { message: self.open, position: input.start_offset },
            ),
            r matches ParseResult::Pending(n, pair) ==> self.matched(*parser, input, n, pair),
            r matches ParseResult::Pending(n, pair) ==> self.derives_many(*ignore, *parser, input, n, pair),
            r matches ParseResult::Stop(e) ==> (!starts_with(input@, self.open@) && e == (StopBecause::MissingString {
                message: self.open,
                position: input.start_offset,
            })) || self.fails_many(*ignore, *parser, input, e),
    {
        let (after_open, lhs) = match input.match_str(self.open) {
            ParseResult::Pending(s, v) => (s, v),
            ParseResult::Stop(e) => {
                return ParseResult::Stop(e);
            },
        };
        let before_first = after_open.skip(ignore);
        let (mut state, first) = match parser(before_first) {
            ParseResult::Pending(s, v) => (s, v),
            ParseResult::Stop(e) => {
                proof {
                    assert(after_literal(input, self.open, after_open));
                    assert(skipped(*ignore, after_open, before_first));
                    assert(parser.ensures((before_first,), ParseResult::<'i, T>::Stop(e)));
                    assert(self.many_fails_at(
                        *ignore,
                        *parser,
                        input,
                        e,
                        after_open,
                        before_first,
                        Seq::<ParseState<'i>>::empty(),
                        Seq::<T>::empty(),
                    ));
                }
                return ParseResult::Stop(e);
            },
        };
        proof {
            lemma_reaches_trans(input, after_open, before_first);
            lemma_reaches_trans(input, before_first, state);
            assert(parser.ensures((before_first,), ParseResult::Pending(state, first)));
            assert(produced(*parser, first));
        }
        let mut terms: Vec<T> = Vec::new();
        terms.push(first);
        let ghost mut states: Seq<ParseState<'i>> = seq![state];
        proof {
            assert(after_literal(input, self.open, after_open));
            assert(skipped(*ignore, after_open, before_first));
        }
        loop
            invariant
                after_literal(input, self.open, after_open),
                skipped(*ignore, after_open, before_first),
                states.len() >= 1,
                parser.ensures((before_first,), ParseResult::Pending(states[0], terms@[0])),
                is_term_chain(*self, *ignore, *parser, states, terms@),
                states.last() == state,
                input.wf(),
                state.wf(),
                input.reaches(state),
                is_parser(*ignore),
                is_parser(*parser),
                self.delimiter@.len() > 0 || is_strict_parser(*parser),
                terms@.len() >= 1,
                forall|i: int| 0 <= i < terms@.len() ==> produced(*parser, #[trigger] terms@[i]),
            ensures
                after_literal(input, self.open, after_open),
                skipped(*ignore, after_open, before_first),
                states.len() >= 1,
                parser.ensures((before_first,), ParseResult::Pending(states[0], terms@[0])),
                is_term_chain(*self, *ignore, *parser, states, terms@),
                states.last() == state,
                self.no_more_terms(*ignore, *parser, state),
                input.wf(),
                state.wf(),
                input.reaches(state),
                terms@.len() >= 1,
                forall|i: int| 0 <= i < terms@.len() ==> produced(*parser, #[trigger] terms@[i]),
            decreases state@.len(),
        {
            match self.delimiter_term(state, ignore, parser) {
                ParseResult::Pending(s, term) => {
                    proof {
                        lemma_reaches_trans(input, state, s);
                        let old_terms = terms@;
                        let old_states = states;
                        states = states.push(s);
                        assert forall|i: int| 1 <= i < states.len() implies #[trigger] self.term_step(
                            *ignore,
                            *parser,
                            states[i - 1],
                            states[i],
                            old_terms.push(term)[i],
                        ) by {
                            if i < old_states.len() {
                                assert(states[i - 1] == old_states[i - 1]);
                                assert(states[i] == old_states[i]);
                                assert(old_terms.push(term)[i] == old_terms[i]);
                            }
                        }
                        assert(old_terms.push(term)[0] == old_terms[0]);
                        assert forall|i: int| 0 <= i < old_terms.len() + 1 implies produced(
                            *parser,
                            #[trigger] old_terms.push(term)[i],
                        ) by {
                            if i < old_terms.len() {
                                assert(old_terms.push(term)[i] == old_terms[i]);
                            }
                        }
                    }
                    terms.push(term);
                    state = s;
                },
                ParseResult::Stop(_) => {
                    break;
                },
            }
        }
        let needs_delimiter = if self.one_tailing && terms.len() == 1 {
            true
        } else {
            match self.dangling {
                Some(d) => d,
                None => false,
            }
        };
        let s_rhs = if needs_delimiter {
            let gap = state.skip(ignore);
            match gap.match_str(self.delimiter) {
                ParseResult::Pending(s, _) => {
                    proof {
                        lemma_reaches_trans(input, state, gap);
                        lemma_reaches_trans(input, gap, s);
                        assert(skipped(*ignore, state, gap) && after_literal(gap, self.delimiter, s));
                    }
                    s
                },
                ParseResult::Stop(e) => {
                    proof {
                        assert(skipped(*ignore, state, gap));
                        assert(self.end_fails(*ignore, states.last(), states.len(), e));
                        assert(self.many_fails_at(*ignore, *parser, input, e, after_open, before_first, states, terms@));
                    }
                    return ParseResult::Stop(e);
                },
            }
        } else if self.dangling.is_none() {
            let gap = state.skip(ignore);
            match gap.match_str(self.delimiter) {
                ParseResult::Pending(s, _) => {
                    proof {
                        lemma_reaches_trans(input, state, gap);
                        lemma_reaches_trans(input, gap, s);
                        assert(skipped(*ignore, state, gap) && after_literal(gap, self.delimiter, s));
                    }
                    s
                },
                ParseResult::Stop(_) => {
                    assert(skipped(*ignore, state, gap) && !starts_with(gap@, self.delimiter@));
                    state
                },
            }
        } else {
            state
        };
        let before_close = s_rhs.skip(ignore);
        let (finally, rhs) = match before_close.match_str(self.close) {
            ParseResult::Pending(s, v) => (s, v),
            ParseResult::Stop(e) => {
                proof {
                    assert(self.trailing(*ignore, states.last(), states.len(), s_rhs));
                    assert(skipped(*ignore, s_rhs, before_close));
                    assert(self.end_fails(*ignore, states.last(), states.len(), e));
                    assert(self.many_fails_at(*ignore, *parser, input, e, after_open, before_first, states, terms@));
                }
                return ParseResult::Stop(e);
            },
        };
        proof {
            lemma_reaches_trans(input, s_rhs, before_close);
            lemma_reaches_trans(input, before_close, finally);
        }
        let pair = BracketPair {
            lhs: StringView::new(lhs, input.start_offset),
            rhs: StringView::new(rhs, before_close.start_offset),
            body: terms,
        };
        proof {
            assert(self.trailing(*ignore, states.last(), states.len(), s_rhs));
            assert(skipped(*ignore, s_rhs, before_close));
            assert(after_literal(before_close, self.close, finally));
            assert(self.many_steps(*ignore, *parser, input, finally, pair, after_open, before_first, states, s_rhs, before_close));
        }
        ParseResult::Pending(finally, pair)
    }

    /// `~ delimiter ~ term`
    fn delimiter_term<'i, F, I, T, U>(&self, input: ParseState<'i>, ignore: &I, parser: &F) -> (r: ParseResult<'i, T>)
        where
            F: Fn(ParseState<'i>) -> ParseResult<'i, T>,
            I: Fn(ParseState<'i>) -> ParseResult<'i, U>,
        requires
            input.wf(),
            is_parser(*ignore),
            is_parser(*parser),
            self.delimiter@.len() > 0 || is_strict_parser(*parser),
        ensures
            r matches ParseResult::Pending(n, v) ==> input.reaches(n) && n.wf() && n@.len() < input@.len()
                && produced(*parser, v) && self.term_step(*ignore, *parser, input, n, v),
            r is Stop ==> self.no_more_terms(*ignore, *parser, input),
    {
        let skipped_state = input.skip(ignore);
        let after = match skipped_state.match_str(self.delimiter) {
            ParseResult::Pending(s, _) => s,
            ParseResult::Stop(e) => {
                assert(skipped(*ignore, input, skipped_state));
                return ParseResult::Stop(e);
            },
        };
        let before_term = after.skip(ignore);
        match parser(before_term) {
            ParseResult::Pending(n, v) => {
                proof {
                    lemma_reaches_trans(input, skipped_state, after);
                    lemma_reaches_trans(input, after, before_term);
                    lemma_reaches_trans(input, before_term, n);
                    assert(parser.ensures((before_term,), ParseResult::Pending(n, v)));
                    assert(produced(*parser, v));
                    assert(skipped(*ignore, input, skipped_state));
                    assert(after_literal(skipped_state, self.delimiter, after));
                    assert(skipped(*ignore, after, before_term));
                }
                ParseResult::Pending(n, v)
            },
            ParseResult::Stop(e) => {
                proof {
                    assert(parser.ensures((before_term,), ParseResult::<'i, T>::Stop(e)));
                    assert(skipped(*ignore, input, skipped_state));
                    assert(after_literal(skipped_state, self.delimiter, after));
                    assert(skipped(*ignore, after, before_term));
                }
                ParseResult::Stop(e)
            },
        }
    }
}

} // verus!
