//! Matchers on characters and strings, and the combinators that repeat,
//! try or look ahead with another matcher.
use vstd::prelude::*;

use crate::results::{ParseResult, StopBecause};
use crate::state::ParseState;
use crate::text::{
    char_eq_ignore_ascii_case, char_len_utf8, eq_ignore_ascii_case, lemma_utf8_len_ge,
    lemma_utf8_len_take_next, uncons, utf8_len,
};

verus! {

/// `f` can be called on every well-formed state, and a success that it
/// returns lies at or after the state it was given.
pub open spec fn is_parser<'i, T, F: Fn(ParseState<'i>) -> ParseResult<'i, T>>(f: F) -> bool {
    &&& forall|s: ParseState<'i>| s.wf() ==> #[trigger] f.requires((s,))
    &&& forall|s: ParseState<'i>, r: ParseResult<'i, T>|
        s.wf() && #[trigger] f.ensures((s,), r) ==> (r matches ParseResult::Pending(n, _) ==> s.reaches(n)
            && n.wf())
}

/// A parser whose every success consumes at least one character.
pub open spec fn is_strict_parser<'i, T, F: Fn(ParseState<'i>) -> ParseResult<'i, T>>(f: F) -> bool {
    &&& is_parser(f)
    &&& forall|s: ParseState<'i>, r: ParseResult<'i, T>|
        s.wf() && #[trigger] f.ensures((s,), r) ==> (r matches ParseResult::Pending(n, _) ==> n.input@.len()
            < s.input@.len())
}

/// `f` can be called on every character.
pub open spec fn is_predicate<F: Fn(char) -> bool>(f: F) -> bool {
    forall|c: char| #[trigger] f.requires((c,))
}

/// The first `k` characters of `s` are those for which `f` answers `want`,
/// and the next one, if any, is not.
pub open spec fn is_run<F: Fn(char) -> bool>(f: F, s: Seq<char>, k: int, want: bool) -> bool {
    &&& 0 <= k <= s.len()
    &&& forall|i: int| 0 <= i < k ==> #[trigger] f.ensures((s[i],), want)
    &&& k < s.len() ==> f.ensures((s[k],), !want)
}

/// Number of leading characters of `s` on which `p` is `want`.
pub open spec fn prefix_count(p: spec_fn(char) -> bool, s: Seq<char>, want: bool) -> nat
    decreases s.len(),
{
    if s.len() > 0 && p(s[0]) == want {
        1 + prefix_count(p, s.drop_first(), want)
    } else {
        0
    }
}

/// A run of a predicate that computes `p` is the count of leading
/// characters on which `p` is `want`.
pub proof fn lemma_run_count<F: Fn(char) -> bool>(f: F, p: spec_fn(char) -> bool, s: Seq<char>, k: int, want: bool)
    requires
        is_run(f, s, k, want),
        forall|c: char, b: bool| #[trigger] f.ensures((c,), b) ==> b == p(c),
    ensures
        k == prefix_count(p, s, want),
        forall|i: int| 0 <= i < k ==> p(#[trigger] s[i]) == want,
    decreases s.len(),
{
    if k > 0 {
        assert(f.ensures((s[0],), want));
        let t = s.drop_first();
        assert forall|i: int| 0 <= i < k - 1 implies #[trigger] f.ensures((t[i],), want) by {
            assert(t[i] == s[i + 1]);
        }
        if k - 1 < t.len() {
            assert(t[k - 1] == s[k]);
        }
        lemma_run_count(f, p, t, k - 1, want);
        assert forall|i: int| 0 <= i < k implies p(#[trigger] s[i]) == want by {
            assert(f.ensures((s[i],), want));
        }
    } else if s.len() > 0 {
        assert(f.ensures((s[0],), !want));
    }
}

/// What `skip` can give from `s`: where `f` succeeds, the state it
/// reached; where it stops, `s` itself.
pub open spec fn skipped<'i, T, F: Fn(ParseState<'i>) -> ParseResult<'i, T>>(
    f: F,
    s: ParseState<'i>,
    t: ParseState<'i>,
) -> bool {
    succeeds_on(f, s, t) || (t == s && stops_on(f, s))
}

/// `t` is `s` after the literal `lit`.
pub open spec fn after_literal<'i>(s: ParseState<'i>, lit: &str, t: ParseState<'i>) -> bool {
    starts_with(s@, lit@) && s.moved(t, lit@.len() as int)
}

/// `s` starts with `t`.
pub open spec fn starts_with(s: Seq<char>, t: Seq<char>) -> bool {
    t.len() <= s.len() && s.take(t.len() as int) == t
}

/// `s` starts with `t` up to ASCII case.
pub open spec fn starts_with_ignore_ascii_case(s: Seq<char>, t: Seq<char>) -> bool {
    &&& t.len() <= s.len()
    &&& forall|i: int| 0 <= i < t.len() ==> #[trigger] eq_ignore_ascii_case(s[i], t[i])
}

/// `states` is a chain of successes of `f`, `values` the values along it.
pub open spec fn is_chain<'i, T, F: Fn(ParseState<'i>) -> ParseResult<'i, T>>(
    f: F,
    states: Seq<ParseState<'i>>,
    values: Seq<T>,
) -> bool {
    &&& states.len() == values.len() + 1
    &&& forall|i: int|
        0 <= i < values.len() ==> #[trigger] f.ensures(
            (states[i],),
            ParseResult::Pending(states[i + 1], values[i]),
        )
}

/// `f` stops on `s`, for some reason.
pub open spec fn stops_on<'i, T, F: Fn(ParseState<'i>) -> ParseResult<'i, T>>(f: F, s: ParseState<'i>) -> bool {
    exists|e: StopBecause| #[trigger] f.ensures((s,), ParseResult::<'i, T>::Stop(e))
}

/// `f` succeeds on `s`, reaching `n`.
pub open spec fn succeeds_on<'i, T, F: Fn(ParseState<'i>) -> ParseResult<'i, T>>(
    f: F,
    s: ParseState<'i>,
    n: ParseState<'i>,
) -> bool {
    exists|v: T| #[trigger] f.ensures((s,), ParseResult::Pending(n, v))
}

/// Length of the run of characters at the start of `s` for which `f`
/// answers `want`, in characters and in bytes.
pub(crate) fn scan_run<F>(s: &str, f: F, want: bool) -> (r: (usize, usize))
    where
        F: Fn(char) -> bool,
    requires
        is_predicate(f),
        utf8_len(s@) <= usize::MAX,
    ensures
        is_run(f, s@, r.0 as int, want),
        r.1 == utf8_len(s@.take(r.0 as int)),
{
    let mut rest = s;
    let mut count: usize = 0;
    let mut offset: usize = 0;
    loop
        invariant
            is_predicate(f),
            utf8_len(s@) <= usize::MAX,
            0 <= count <= s@.len(),
            rest@ == s@.skip(count as int),
            offset == utf8_len(s@.take(count as int)),
            forall|i: int| 0 <= i < count ==> #[trigger] f.ensures((s@[i],), want),
        ensures
            is_run(f, s@, count as int, want),
            offset == utf8_len(s@.take(count as int)),
        decreases rest@.len(),
    {
        match uncons(rest) {
            None => {
                break;
            },
            Some((c, next)) => {
                assert(c == s@[count as int]);
                let b = f(c);
                if b != want {
                    break;
                }
                proof {
                    lemma_utf8_len_take_next(s@, count as int);
                    lemma_utf8_len_ge(s@.take(count as int));
                    assert(next@ =~= s@.skip(count + 1));
                }
                offset = offset + char_len_utf8(c);
                count = count + 1;
                rest = next;
            },
        }
    }
    (count, offset)
}

/// Byte length of the start of `s` that matches `t`, exactly or up to ASCII
/// case.
pub(crate) fn match_prefix(s: &str, t: &str, fold: bool) -> (r: Option<usize>)
    requires
        utf8_len(s@) <= usize::MAX,
    ensures
        r is Some <==> if fold {
            starts_with_ignore_ascii_case(s@, t@)
        } else {
            starts_with(s@, t@)
        },
        r matches Some(m) ==> m == utf8_len(s@.take(t@.len() as int)),
{
    let mut rest = s;
    let mut pattern = t;
    let mut count: usize = 0;
    let mut offset: usize = 0;
    loop
        invariant
            utf8_len(s@) <= usize::MAX,
            0 <= count <= s@.len(),
            count <= t@.len(),
            rest@ == s@.skip(count as int),
            pattern@ == t@.skip(count as int),
            offset == utf8_len(s@.take(count as int)),
            fold ==> forall|i: int| 0 <= i < count ==> #[trigger] eq_ignore_ascii_case(s@[i], t@[i]),
            !fold ==> s@.take(count as int) == t@.take(count as int),
        decreases pattern@.len(),
    {
        match uncons(pattern) {
            None => {
                proof {
                    assert(count == t@.len());
                    if !fold {
                        assert(t@.take(count as int) =~= t@);
                    }
                }
                return Some(offset);
            },
            Some((p, pattern_next)) => {
                match uncons(rest) {
                    None => {
                        return None;
                    },
                    Some((c, next)) => {
                        assert(c == s@[count as int]);
                        assert(p == t@[count as int]);
                        let same = if fold {
                            char_eq_ignore_ascii_case(c, p)
                        } else {
                            c == p
                        };
                        if !same {
                            proof {
                                assert(count < t@.len());
                                if !fold && t@.len() <= s@.len() {
                                    assert(s@.take(t@.len() as int)[count as int] == s@[count as int]);
                                }
                            }
                            return None;
                        }
                        proof {
                            lemma_utf8_len_take_next(s@, count as int);
                            lemma_utf8_len_ge(s@.take(count as int));
                            assert(next@ =~= s@.skip(count + 1));
                            assert(pattern_next@ =~= t@.skip(count + 1));
                            if !fold {
                                assert(s@.take(count + 1) =~= s@.take(count as int).push(c));
                                assert(t@.take(count + 1) =~= t@.take(count as int).push(p));
                            }
                        }
                        offset = offset + char_len_utf8(c);
                        count = count + 1;
                        rest = next;
                        pattern = pattern_next;
                    },
                }
            },
        }
    }
}

impl<'i> ParseState<'i> {
    /// Match the character `target`.
    pub fn match_char(self, target: char) -> (r: ParseResult<'i, char>)
        requires
            self.wf(),
        ensures
            r is Pending <==> self.input@.len() > 0 && self.input@[0] == target,
            r matches ParseResult::Pending(n, v) ==> v == target && self.moved(n, 1) && n.wf(),
            r matches ParseResult::Stop(e) ==> e == (StopBecause::MissingCharacterRange {
                start: target,
                end: target,
                position: self.start_offset,
            }),
    {
        match uncons(self.input) {
            Some((c, rest)) => {
                if c == target {
                    return ParseResult::Pending(self.step_char(c, rest), c);
                }
            },
            None => {},
        }
        ParseResult::Stop(
            StopBecause::MissingCharacterRange { start: target, end: target, position: self.start_offset },
        )
    }

    /// Match a character in the inclusive range `start..=end`.
    pub fn match_char_range(self, start: char, end: char) -> (r: ParseResult<'i, char>)
        requires
            self.wf(),
        ensures
            r is Pending <==> self.input@.len() > 0 && start as u32 <= self.input@[0] as u32
                <= end as u32,
            r matches ParseResult::Pending(n, v) ==> v == self.input@[0] && self.moved(n, 1) && n.wf(),
            r matches ParseResult::Stop(e) ==> e == (StopBecause::MissingCharacterRange {
                start,
                end,
                position: self.start_offset,
            }),
    {
        match uncons(self.input) {
            Some((c, rest)) => {
                if start as u32 <= c as u32 && c as u32 <= end as u32 {
                    return ParseResult::Pending(self.step_char(c, rest), c);
                }
            },
            None => {},
        }
        ParseResult::Stop(StopBecause::MissingCharacterRange { start, end, position: self.start_offset })
    }

    /// Succeed, consuming nothing, where no input remains.
    pub fn match_eof(self) -> (r: ParseResult<'i, ()>)
        ensures
            r is Pending <==> self.input@.len() == 0,
            r matches ParseResult::Pending(n, _) ==> n == self,
            r matches ParseResult::Stop(e) ==> e == (StopBecause::ExpectEOF { position: self.start_offset }),
    {
        if self.input.is_empty() {
            ParseResult::Pending(self, ())
        } else {
            ParseResult::Stop(StopBecause::ExpectEOF { position: self.start_offset })
        }
    }

    /// Match any character.
    pub fn match_char_any(self) -> (r: ParseResult<'i, char>)
        requires
            self.wf(),
        ensures
            r is Pending <==> self.input@.len() > 0,
            r matches ParseResult::Pending(n, v) ==> v == self.input@[0] && self.moved(n, 1) && n.wf(),
            r matches ParseResult::Stop(e) ==> e == (StopBecause::MustBe {
                message: "ANY",
                position: self.start_offset,
            }),
    {
        match uncons(self.input) {
            Some((c, rest)) => ParseResult::Pending(self.step_char(c, rest), c),
            None => ParseResult::Stop(StopBecause::MustBe { message: "ANY", position: self.start_offset }),
        }
    }

    /// Match a character for which `predicate` holds.
    pub fn match_char_if<F>(self, predicate: F, message: &'static str) -> (r: ParseResult<'i, char>)
        where
            F: Fn(char) -> bool,
        requires
            self.wf(),
            is_predicate(predicate),
        ensures
            r matches ParseResult::Pending(n, v) ==> self.input@.len() > 0 && v == self.input@[0]
                && predicate.ensures((v,), true) && self.moved(n, 1) && n.wf(),
            r matches ParseResult::Stop(e) ==> e == (StopBecause::MustBe {
                message,
                position: self.start_offset,
            }) && (self.input@.len() == 0 || predicate.ensures((self.input@[0],), false)),
    {
        match uncons(self.input) {
            Some((c, rest)) => {
                if predicate(c) {
                    ParseResult::Pending(self.step_char(c, rest), c)
                } else {
                    ParseResult::Stop(StopBecause::MustBe { message, position: self.start_offset })
                }
            },
            None => ParseResult::Stop(StopBecause::MustBe { message, position: self.start_offset }),
        }
    }

    /// Match the literal `target`.
    pub fn match_str(self, target: &'static str) -> (r: ParseResult<'i, &'i str>)
        requires
            self.wf(),
        ensures
            r is Pending <==> starts_with(self.input@, target@),
            r matches ParseResult::Pending(n, v) ==> v@ == target@ && self.moved(n, target@.len() as int)
                && n.wf(),
            r matches ParseResult::Stop(e) ==> e == (StopBecause::MissingString {
                message: target,
                position: self.start_offset,
            }),
    {
        match match_prefix(self.input, target, false) {
            Some(offset) => {
                let (n, v) = self.step_chars(Ghost(target@.len() as int), offset);
                ParseResult::Pending(n, v)
            },
            None => ParseResult::Stop(StopBecause::MissingString { message: target, position: self.start_offset }),
        }
    }

    /// Match the literal `target`, reporting `message` when it is missing.
    pub fn match_str_pattern(self, target: &'static str, message: &'static str) -> (r: ParseResult<'i, &'i str>)
        requires
            self.wf(),
        ensures
            r is Pending <==> starts_with(self.input@, target@),
            r matches ParseResult::Pending(n, v) ==> v@ == target@ && self.moved(n, target@.len() as int)
                && n.wf(),
            r matches ParseResult::Stop(e) ==> e == (StopBecause::MissingString {
                message,
                position: self.start_offset,
            }),
    {
        match self.match_str(target) {
            ParseResult::Pending(n, v) => ParseResult::Pending(n, v),
            ParseResult::Stop(_) => ParseResult::Stop(StopBecause::MissingString { message, position: self.start_offset }),
        }
    }

    /// Match the literal `target` up to ASCII case.
    pub fn match_str_insensitive(self, target: &'static str) -> (r: ParseResult<'i, &'i str>)
        requires
            self.wf(),
        ensures
            r is Pending <==> starts_with_ignore_ascii_case(self.input@, target@),
            r matches ParseResult::Pending(n, v) ==> v@ == self.input@.take(target@.len() as int)
                && self.moved(n, target@.len() as int) && n.wf(),
            r matches ParseResult::Stop(e) ==> e == (StopBecause::MissingString {
                message: target,
                position: self.start_offset,
            }),
    {
        match match_prefix(self.input, target, true) {
            Some(offset) => {
                let (n, v) = self.step_chars(Ghost(target@.len() as int), offset);
                ParseResult::Pending(n, v)
            },
            None => ParseResult::Stop(StopBecause::MissingString { message: target, position: self.start_offset }),
        }
    }

    /// Match the longest run of characters for which `predicate` holds; an
    /// empty run is a failure.
    pub fn match_str_if<F>(self, predicate: F, message: &'static str) -> (r: ParseResult<'i, &'i str>)
        where
            F: Fn(char) -> bool,
        requires
            self.wf(),
            is_predicate(predicate),
        ensures
            r matches ParseResult::Pending(n, v) ==> v@.len() > 0 && is_run(
                predicate,
                self.input@,
                v@.len() as int,
                true,
            ) && v@ == self.input@.take(v@.len() as int) && self.moved(n, v@.len() as int) && n.wf(),
            r matches ParseResult::Stop(e) ==> e == (StopBecause::MissingString {
                message,
                position: self.start_offset,
            }) && is_run(predicate, self.input@, 0, true),
    {
        self.match_run(predicate, true, message)
    }

    /// Match the longest run of characters for which `predicate` fails; an
    /// empty run is a failure.
    pub fn match_str_until<F>(self, predicate: F, message: &'static str) -> (r: ParseResult<'i, &'i str>)
        where
            F: Fn(char) -> bool,
        requires
            self.wf(),
            is_predicate(predicate),
        ensures
            r matches ParseResult::Pending(n, v) ==> v@.len() > 0 && is_run(
                predicate,
                self.input@,
                v@.len() as int,
                false,
            ) && v@ == self.input@.take(v@.len() as int) && self.moved(n, v@.len() as int) && n.wf(),
            r matches ParseResult::Stop(e) ==> e == (StopBecause::MissingString {
                message,
                position: self.start_offset,
            }) && is_run(predicate, self.input@, 0, false),
    {
        self.match_run(predicate, false, message)
    }

    fn match_run<F>(self, predicate: F, want: bool, message: &'static str) -> (r: ParseResult<'i, &'i str>)
        where
            F: Fn(char) -> bool,
        requires
            self.wf(),
            is_predicate(predicate),
        ensures
            r matches ParseResult::Pending(n, v) ==> v@.len() > 0 && is_run(
                predicate,
                self.input@,
                v@.len() as int,
                want,
            ) && v@ == self.input@.take(v@.len() as int) && self.moved(n, v@.len() as int) && n.wf(),
            r matches ParseResult::Stop(e) ==> e == (StopBecause::MissingString {
                message,
                position: self.start_offset,
            }) && is_run(predicate, self.input@, 0, want),
    {
        let (count, offset) = scan_run(self.input, predicate, want);
        if count == 0 {
            return ParseResult::Stop(StopBecause::MissingString { message, position: self.start_offset });
        }
        let (n, v) = self.step_chars(Ghost(count as int), offset);
        ParseResult::Pending(n, v)
    }
}

impl<'i> ParseState<'i> {
    /// Run `parse` on this state.
    pub fn match_fn<T, F>(self, parse: F) -> (r: ParseResult<'i, T>)
        where
            F: FnOnce(ParseState<'i>) -> ParseResult<'i, T>,
        requires
            parse.requires((self,)),
        ensures
            parse.ensures((self,), r),
    {
        parse(self)
    }

    /// Run `parse` as long as it succeeds, and succeed with all its values
    /// from the state where it first stopped.
    pub fn match_repeats<T, F>(self, parse: F) -> (r: ParseResult<'i, Vec<T>>)
        where
            F: Fn(ParseState<'i>) -> ParseResult<'i, T>,
        requires
            self.wf(),
            is_strict_parser(parse),
        ensures
            r is Pending,
            r matches ParseResult::Pending(n, _) ==> self.reaches(n) && n.wf(),
            r matches ParseResult::Pending(n, _) ==> stops_on(parse, n),
            r matches ParseResult::Pending(n, values) ==> exists|states: Seq<ParseState<'i>>|
                #![trigger is_chain(parse, states, values@)]
                is_chain(parse, states, values@) && states[0] == self && states.last() == n,
    {
        let mut result: Vec<T> = Vec::new();
        let mut state = self;
        let ghost mut states: Seq<ParseState<'i>> = seq![self];
        proof {
            crate::state::lemma_reaches_refl(self);
        }
        loop
            invariant
                is_strict_parser(parse),
                self.wf(),
                state.wf(),
                self.reaches(state),
                is_chain(parse, states, result@),
                states[0] == self,
                states.last() == state,
            ensures
                self.reaches(state),
                state.wf(),
                stops_on(parse, state),
                is_chain(parse, states, result@),
                states[0] == self,
                states.last() == state,
            decreases state.input@.len(),
        {
            let r = parse(state);
            match r {
                ParseResult::Pending(next, value) => {
                    proof {
                        lemma_reaches_trans(self, state, next);
                        let old_states = states;
                        states = states.push(next);
                        assert forall|i: int| 0 <= i < result@.len() + 1 implies #[trigger] parse.ensures(
                            (states[i],),
                            ParseResult::Pending(states[i + 1], result@.push(value)[i]),
                        ) by {
                            if i < result@.len() {
                                assert(states[i] == old_states[i]);
                                assert(states[i + 1] == old_states[i + 1]);
                            }
                        }
                    }
                    result.push(value);
                    state = next;
                },
                ParseResult::Stop(e) => {
                    assert(parse.ensures((state,), ParseResult::<'i, T>::Stop(e)));
                    break;
                },
            }
        }
        assert(is_chain(parse, states, result@) && states[0] == self && states.last() == state);
        let r = ParseResult::Pending(state, result);
        assert(r matches ParseResult::Pending(n, values) && values@ == result@ && n == state);
        r
    }

    /// Run `parse` up to `max` times, and succeed with its values if it
    /// succeeded at least `min` times; else fail with `ExpectRepeats` at the
    /// position where the repetition began.
    pub fn match_repeat_m_n<T, F>(self, min: usize, max: usize, parse: F) -> (r: ParseResult<'i, Vec<T>>)
        where
            F: Fn(ParseState<'i>) -> ParseResult<'i, T>,
        requires
            self.wf(),
            is_parser(parse),
        ensures
            exists|states: Seq<ParseState<'i>>, values: Seq<T>|
                #![trigger is_chain(parse, states, values)]
                {
                    &&& is_chain(parse, states, values)
                    &&& states[0] == self
                    &&& values.len() <= max
                    &&& (values.len() == max || stops_on(parse, states.last()))
                    &&& if values.len() < min {
                        r == ParseResult::<'i, Vec<T>>::Stop(
                            StopBecause::ExpectRepeats {
                                min,
                                current: values.len() as usize,
                                position: self.start_offset,
                            },
                        )
                    } else {
                        r matches ParseResult::Pending(n, v) && v@ == values && n == states.last()
                            && self.reaches(n) && n.wf()
                    }
                },
    {
        let mut result: Vec<T> = Vec::new();
        let mut count: usize = 0;
        let position = self.start_offset;
        let mut state = self;
        let ghost mut states: Seq<ParseState<'i>> = seq![self];
        proof {
            crate::state::lemma_reaches_refl(self);
        }
        while count < max
            invariant
                is_parser(parse),
                self.wf(),
                state.wf(),
                self.reaches(state),
                count == result@.len(),
                count <= max,
                is_chain(parse, states, result@),
                states[0] == self,
                states.last() == state,
            ensures
                self.reaches(state),
                state.wf(),
                count == result@.len(),
                count <= max,
                count == max || stops_on(parse, state),
                is_chain(parse, states, result@),
                states[0] == self,
                states.last() == state,
            decreases max - count,
        {
            let r = parse(state);
            match r {
                ParseResult::Pending(next, value) => {
                    proof {
                        lemma_reaches_trans(self, state, next);
                        let old_states = states;
                        states = states.push(next);
                        assert forall|i: int| 0 <= i < result@.len() + 1 implies #[trigger] parse.ensures(
                            (states[i],),
                            ParseResult::Pending(states[i + 1], result@.push(value)[i]),
                        ) by {
                            if i < result@.len() {
                                assert(states[i] == old_states[i]);
                                assert(states[i + 1] == old_states[i + 1]);
                            }
                        }
                    }
                    result.push(value);
                    state = next;
                    count = count + 1;
                },
                ParseResult::Stop(e) => {
                    assert(parse.ensures((state,), ParseResult::<'i, T>::Stop(e)));
                    break;
                },
            }
        }
        if count < min {
            let r = ParseResult::Stop(StopBecause::ExpectRepeats { min, current: count, position });
            assert(is_chain(parse, states, result@));
            return r;
        }
        assert(is_chain(parse, states, result@));
        ParseResult::Pending(state, result)
    }

    /// Run `parse`: its value if it succeeds, `None` from this same state if
    /// it fails.
    pub fn match_optional<T, F>(self, parse: F) -> (r: ParseResult<'i, Option<T>>)
        where
            F: Fn(ParseState<'i>) -> ParseResult<'i, T>,
        requires
            self.wf(),
            is_parser(parse),
        ensures
            r matches ParseResult::Pending(n, v) && self.reaches(n) && n.wf() && match v {
                Some(x) => parse.ensures((self,), ParseResult::Pending(n, x)),
                None => n == self && stops_on(parse, self),
            },
    {
        proof {
            crate::state::lemma_reaches_refl(self);
        }
        match parse(self) {
            ParseResult::Pending(state, value) => ParseResult::Pending(state, Some(value)),
            ParseResult::Stop(e) => {
                assert(parse.ensures((self,), ParseResult::<'i, T>::Stop(e)));
                ParseResult::Pending(self, None)
            },
        }
    }

    /// Run `parse` and go on from where it ended, or from here if it failed.
    pub fn skip<F, T>(self, parse: F) -> (r: ParseState<'i>)
        where
            F: Fn(ParseState<'i>) -> ParseResult<'i, T>,
        requires
            self.wf(),
            is_parser(parse),
        ensures
            self.reaches(r),
            r.wf(),
            skipped(parse, self, r),
    {
        proof {
            crate::state::lemma_reaches_refl(self);
        }
        match parse(self) {
            ParseResult::Pending(new, v) => {
                assert(parse.ensures((self,), ParseResult::Pending(new, v)));
                new
            },
            ParseResult::Stop(e) => {
                assert(parse.ensures((self,), ParseResult::<'i, T>::Stop(e)));
                self
            },
        }
    }

    /// Succeed without consuming anything where `parse` succeeds; fail with
    /// `MustBe` where it fails.
    pub fn match_positive<F, T>(self, parse: F, message: &'static str) -> (r: ParseResult<'i, ()>)
        where
            F: Fn(ParseState<'i>) -> ParseResult<'i, T>,
        requires
            self.wf(),
            is_parser(parse),
        ensures
            r matches ParseResult::Pending(n, _) ==> n == self && exists|m: ParseState<'i>|
                succeeds_on(parse, self, m),
            r matches ParseResult::Stop(e) ==> e == (StopBecause::MustBe {
                message,
                position: self.start_offset,
            }) && stops_on(parse, self),
    {
        match parse(self) {
            ParseResult::Pending(m, v) => {
                assert(parse.ensures((self,), ParseResult::Pending(m, v)));
                assert(succeeds_on(parse, self, m));
                ParseResult::Pending(self, ())
            },
            ParseResult::Stop(e) => {
                assert(parse.ensures((self,), ParseResult::<'i, T>::Stop(e)));
                ParseResult::Stop(StopBecause::MustBe { message, position: self.start_offset })
            },
        }
    }

    /// Succeed without consuming anything where `parse` fails; fail with
    /// `ShouldNotBe` where it succeeds.
    pub fn match_negative<F, T>(self, parse: F, message: &'static str) -> (r: ParseResult<'i, ()>)
        where
            F: Fn(ParseState<'i>) -> ParseResult<'i, T>,
        requires
            self.wf(),
            is_parser(parse),
        ensures
            r matches ParseResult::Pending(n, _) ==> n == self && stops_on(parse, self),
            r matches ParseResult::Stop(e) ==> e == (StopBecause::ShouldNotBe {
                message,
                position: self.start_offset,
            }) && exists|m: ParseState<'i>| succeeds_on(parse, self, m),
    {
        match parse(self) {
            ParseResult::Pending(m, v) => {
                assert(parse.ensures((self,), ParseResult::Pending(m, v)));
                assert(succeeds_on(parse, self, m));
                ParseResult::Stop(StopBecause::ShouldNotBe { message, position: self.start_offset })
            },
            ParseResult::Stop(e) => {
                assert(parse.ensures((self,), ParseResult::<'i, T>::Stop(e)));
                ParseResult::Pending(self, ())
            },
        }
    }
}

/// A success that consumed a non-empty text leaves less input, which is
/// the progress `match_repeats` asks of its parser: repeating a run matcher
/// such as `match_str_if` or `match_str_until` always ends.
pub proof fn lemma_nonempty_match_progress<'i>(before: ParseState<'i>, after: ParseState<'i>, k: int)
    requires
        before.moved(after, k),
        k > 0,
    ensures
        after@.len() < before@.len(),
{
}

/// A run matcher stops where its run ends: after `match_str_if` or
/// `match_str_until` consumed the run of `s` up to `k`, no non-empty run
/// starts on what is left, where the predicate answers the same way on the
/// same character. So repeating one of them yields at most one value.
pub proof fn lemma_run_then_stop<F: Fn(char) -> bool>(f: F, s: Seq<char>, k: int, want: bool)
    requires
        is_run(f, s, k, want),
        forall|c: char, b1: bool, b2: bool| f.ensures((c,), b1) && f.ensures((c,), b2) ==> b1 == b2,
    ensures
        forall|j: int| 0 < j <= s.skip(k).len() ==> !#[trigger] is_run(f, s.skip(k), j, want),
{
    assert forall|j: int| 0 < j <= s.skip(k).len() implies !#[trigger] is_run(f, s.skip(k), j, want) by {
        if is_run(f, s.skip(k), j, want) {
            assert(s.skip(k)[0] == s[k]);
            assert(f.ensures((s[k],), want));
            assert(f.ensures((s[k],), !want));
        }
    }
}

/// `reaches` is transitive.
pub proof fn lemma_reaches_trans<'i>(a: ParseState<'i>, b: ParseState<'i>, c: ParseState<'i>)
    requires
        a.reaches(b),
        b.reaches(c),
    ensures
        a.reaches(c),
{
    let k1 = a.input@.len() - b.input@.len();
    let k2 = b.input@.len() - c.input@.len();
    let s = a.input@;
    assert(s.take(k1 + k2) =~= s.take(k1) + b.input@.take(k2));
    assert(c.input@ =~= s.skip(k1 + k2));
    crate::text::lemma_utf8_len_concat(s.take(k1), b.input@.take(k2));
}

} // verus!

verus! {

/// `t` occurs in `s` at character index `k`.
pub open spec fn occurs_at(s: Seq<char>, t: Seq<char>, k: int) -> bool {
    0 <= k <= s.len() && starts_with(s.skip(k), t)
}

/// The first occurrence of `t` in `s`, as a character index and a byte
/// offset.
pub fn find_str(s: &str, t: &str) -> (r: Option<(usize, usize)>)
    requires
        utf8_len(s@) <= usize::MAX,
    ensures
        r matches Some((k, m)) ==> occurs_at(s@, t@, k as int) && m == utf8_len(s@.take(k as int))
            && forall|j: int| 0 <= j < k ==> !#[trigger] occurs_at(s@, t@, j),
        r is None ==> forall|j: int| 0 <= j <= s@.len() ==> !#[trigger] occurs_at(s@, t@, j),
{
    let mut rest = s;
    let mut count: usize = 0;
    let mut offset: usize = 0;
    loop
        invariant
            utf8_len(s@) <= usize::MAX,
            0 <= count <= s@.len(),
            rest@ == s@.skip(count as int),
            offset == utf8_len(s@.take(count as int)),
            forall|j: int| 0 <= j < count ==> !#[trigger] occurs_at(s@, t@, j),
        decreases rest@.len(),
    {
        proof {
            lemma_prefix_wf(s@, count as int);
        }
        if match_prefix(rest, t, false).is_some() {
            return Some((count, offset));
        }
        match uncons(rest) {
            None => {
                assert forall|j: int| 0 <= j <= s@.len() implies !#[trigger] occurs_at(s@, t@, j) by {
                    if j == count {
                    }
                }
                return None;
            },
            Some((c, next)) => {
                proof {
                    lemma_utf8_len_take_next(s@, count as int);
                    lemma_utf8_len_ge(s@.take(count as int));
                    assert(next@ =~= s@.skip(count + 1));
                }
                offset = offset + char_len_utf8(c);
                count = count + 1;
                rest = next;
            },
        }
    }
}

proof fn lemma_prefix_wf(s: Seq<char>, k: int)
    requires
        0 <= k <= s.len(),
    ensures
        utf8_len(s.skip(k)) <= utf8_len(s),
{
    crate::text::lemma_prefix_boundary(s, k);
    crate::text::lemma_utf8_len_concat(s.take(k), s.skip(k));
    assert(s =~= s.take(k) + s.skip(k));
}

} // verus!
