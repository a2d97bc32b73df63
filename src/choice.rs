//! Ordered choice: alternatives are tried in order from the same state, the
//! first success wins, and the last failure is kept for the report.
use vstd::prelude::*;

use crate::builtin::is_parser;
use crate::results::{ParseResult, StopBecause};
use crate::state::ParseState;

verus! {

/// Progress of an ordered choice.
#[derive(Debug, Clone)]
pub struct ChoiceHelper<'a, T> {
    /// The state every alternative starts from; it records the last failure.
    pub state: ParseState<'a>,
    /// The first success, once there is one.
    pub result: Option<(ParseState<'a>, T)>,
}

impl<'a, T> ChoiceHelper<'a, T> {
    /// The state is well formed, and a success lies after it.
    pub open spec fn wf(&self) -> bool {
        &&& self.state.wf()
        &&& self.result matches Some((n, _)) ==> self.state.reaches(n) && n.wf()
    }

    /// What `alternative` does: nothing once an alternative succeeded; else try
    /// `parse` and keep its success, or record its failure on the state.
    pub open spec fn chose<F: Fn(ParseState<'a>) -> ParseResult<'a, T>>(&self, parse: F, next: Self) -> bool {
        if self.result is Some {
            next == *self
        } else {
            ||| next.result matches Some((n, v)) && next.state == self.state && parse.ensures(
                (self.state,),
                ParseResult::Pending(n, v),
            )
            ||| next.result is None && exists|e: StopBecause|
                #[trigger] parse.ensures((self.state,), ParseResult::<'a, T>::Stop(e)) && next.state == (
                ParseState { stop_reason: Some(e), ..self.state })
        }
    }

    /// What `end_choice` gives: the first success, or the last failure.
    pub open spec fn spec_end(&self) -> ParseResult<'a, T> {
        match self.result {
            Some((n, v)) => ParseResult::Pending(n, v),
            None => ParseResult::Stop(
                match self.state.stop_reason {
                    Some(e) => e,
                    None => StopBecause::Uninitialized,
                },
            ),
        }
    }

    /// Start a choice from `state`.
    pub fn new(state: ParseState<'a>) -> (r: Self)
        ensures
            r.state == state,
            r.result is None,
    {
        ChoiceHelper { state, result: None }
    }

    /// Try `parse`, unless an earlier alternative succeeded.
    pub fn alternative<F>(self, parse: F) -> (r: Self)
        where
            F: Fn(ParseState<'a>) -> ParseResult<'a, T>,
        requires
            self.wf(),
            is_parser(parse),
        ensures
            self.chose(parse, r),
            r.wf(),
    {
        let mut this = self;
        if this.result.is_none() {
            let r = parse(this.state);
            match r {
                ParseResult::Pending(s, v) => {
                    this.result = Some((s, v));
                },
                ParseResult::Stop(err) => {
                    assert(parse.ensures((self.state,), ParseResult::<'a, T>::Stop(err)));
                    this.state.set_error(err);
                    proof {
                        crate::state::lemma_reaches_refl(this.state);
                    }
                },
            }
        }
        this
    }

    /// Try `parse`, unless an earlier alternative succeeded, and convert its
    /// value with `From`.
    pub fn choose_from<F, U>(self, parse: F) -> (r: Self)
        where
            F: Fn(ParseState<'a>) -> ParseResult<'a, U>,
            T: From<U>,
        requires
            self.wf(),
            is_parser(parse),
        ensures
            r.wf(),
            self.result is Some ==> r == self,
            self.result is None ==> (r.result matches Some((n, v)) ==> r.state == self.state
                && exists|u: U| #[trigger] parse.ensures((self.state,), ParseResult::Pending(n, u))
                && call_ensures(T::from, (u,), v)),
            self.result is None && r.result is None ==> exists|e: StopBecause|
                #[trigger] parse.ensures((self.state,), ParseResult::<'a, U>::Stop(e)) && r.state == (
                ParseState { stop_reason: Some(e), ..self.state }),
    {
        let mut this = self;
        if this.result.is_none() {
            let r = parse(this.state);
            match r {
                ParseResult::Pending(s, u) => {
                    assert(parse.ensures((self.state,), ParseResult::Pending(s, u)));
                    this.result = Some((s, T::from(u)));
                },
                ParseResult::Stop(err) => {
                    assert(parse.ensures((self.state,), ParseResult::<'a, U>::Stop(err)));
                    this.state.set_error(err);
                },
            }
        }
        this
    }

    /// The first success, or the last failure recorded.
    pub fn end_choice(self) -> (r: ParseResult<'a, T>)
        ensures
            r == self.spec_end(),
    {
        match self.result {
            Some(ok) => ParseResult::Pending(ok.0, ok.1),
            None => ParseResult::Stop(self.state.get_error()),
        }
    }
}

impl<'i> ParseState<'i> {
    /// Start a choice from this state.
    pub fn begin_choice<T>(self) -> (r: ChoiceHelper<'i, T>)
        ensures
            r.state == self,
            r.result is None,
    {
        ChoiceHelper { state: self, result: None }
    }
}

/// Ordered choice is first-match: once an alternative has succeeded, a later
/// one, even one that would match more, changes nothing, and the choice
/// ends with the first success.
pub proof fn lemma_choice_first_success<'a, T, F, G>(
    start: ChoiceHelper<'a, T>,
    first: F,
    second: G,
    after_first: ChoiceHelper<'a, T>,
    after_second: ChoiceHelper<'a, T>,
    n: ParseState<'a>,
    v: T,
)
    where
        F: Fn(ParseState<'a>) -> ParseResult<'a, T>,
        G: Fn(ParseState<'a>) -> ParseResult<'a, T>,
    requires
        start.result is None,
        start.chose(first, after_first),
        after_first.chose(second, after_second),
        after_first.result == Some((n, v)),
    ensures
        first.ensures((start.state,), ParseResult::Pending(n, v)),
        after_second.spec_end() == ParseResult::<'a, T>::Pending(n, v),
{
}

} // verus!
