//! The parse state: an immutable cursor over the input, and the primitive
//! matchers on it.
use vstd::prelude::*;
use vstd::utf8::*;

use crate::results::{ParseResult, StopBecause};
use crate::text::{
    char_len_utf8, char_width, lemma_prefix_boundary, lemma_utf8_len_concat, split_at_boundary,
    split_chars, uncons, utf8_len,
};

verus! {

broadcast use vstd::string::group_string_axioms;

/// A cursor over the input: the text that remains, its byte offset in the
/// whole input, and the last failure recorded during a choice.
#[derive(Copy, Clone, Debug, PartialEq, Eq)]
pub struct ParseState<'i> {
    /// The text that remains.
    pub input: &'i str,
    /// Byte offset of `input` in the whole input.
    pub start_offset: usize,
    /// Last failure recorded during a choice.
    pub stop_reason: Option<StopBecause>,
}

impl<'i> View for ParseState<'i> {
    type V = Seq<char>;

    /// The text that remains.
    open spec fn view(&self) -> Seq<char> {
        self.input@
    }
}

/// A state and the value matched to reach it.
pub type Parsed<'i, T> = (ParseState<'i>, T);

impl<'i> ParseState<'i> {
    /// The offsets of the state, and one past its end, fit in `usize`.
    pub open spec fn wf(&self) -> bool {
        self.start_offset + utf8_len(self.input@) < usize::MAX
    }

    /// Byte offset of the end of the input.
    pub open spec fn spec_end_offset(&self) -> int {
        self.start_offset + utf8_len(self.input@)
    }

    /// `next` stands `k` characters after this state: its text is this one
    /// without them, and its offset is past their bytes.
    pub open spec fn advanced(&self, next: ParseState<'i>, k: int) -> bool {
        &&& 0 <= k <= self.input@.len()
        &&& next.input@ == self.input@.skip(k)
        &&& next.start_offset == self.start_offset + utf8_len(self.input@.take(k))
    }

    /// `next` is this state after its first `k` characters, with the same
    /// recorded failure.
    pub open spec fn moved(&self, next: ParseState<'i>, k: int) -> bool {
        &&& self.advanced(next, k)
        &&& next.stop_reason == self.stop_reason
    }

    /// `next` lies at or after this state on the same input.
    pub open spec fn reaches(&self, next: ParseState<'i>) -> bool {
        self.advanced(next, self.input@.len() - next.input@.len())
    }

    /// The characters between this state and `next`.
    pub open spec fn consumed(&self, next: ParseState<'i>) -> Seq<char> {
        self.input@.take(self.input@.len() - next.input@.len())
    }

    /// A state at the start of `input`.
    pub fn new(input: &'i str) -> (r: Self)
        requires
            utf8_len(input@) < usize::MAX,
        ensures
            r.input == input,
            r.start_offset == 0,
            r.stop_reason is None,
            r.wf(),
    {
        ParseState { input, start_offset: 0, stop_reason: None }
    }

    /// Succeed here with `value`.
    pub fn finish<T>(self, value: T) -> (r: ParseResult<'i, T>)
        ensures
            r == ParseResult::<'i, T>::Pending(self, value),
    {
        ParseResult::Pending(self, value)
    }

    /// Whether no input remains.
    pub fn is_empty(&self) -> (r: bool)
        ensures
            r == (self.input@.len() == 0),
    {
        self.input.is_empty()
    }

    /// Byte offset of the end of the input.
    pub fn end_offset(&self) -> (r: usize)
        requires
            self.wf(),
        ensures
            r == self.spec_end_offset(),
    {
        self.start_offset + self.input.len()
    }

    /// Record a failure during a choice.
    pub fn set_error(&mut self, error: StopBecause)
        ensures
            *final(self) == (ParseState { stop_reason: Some(error), ..*old(self) }),
    {
        self.stop_reason = Some(error);
    }

    /// The failure recorded, or `Uninitialized`.
    pub fn get_error(&self) -> (r: StopBecause)
        ensures
            r == match self.stop_reason {
                Some(e) => e,
                None => StopBecause::Uninitialized,
            },
    {
        match self.stop_reason {
            Some(e) => e,
            None => StopBecause::Uninitialized,
        }
    }

    /// The next character, if any.
    pub fn get_character(&self) -> (r: Option<char>)
        ensures
            r is None <==> self.input@.len() == 0,
            r matches Some(c) ==> c == self.input@[0],
    {
        match uncons(self.input) {
            Some((c, _)) => Some(c),
            None => None,
        }
    }

    /// Move past the next character `c`, which is known to be there.
    pub(crate) fn step_char(self, c: char, rest: &'i str) -> (r: ParseState<'i>)
        requires
            self.wf(),
            self.input@.len() > 0,
            c == self.input@[0],
            rest@ == self.input@.drop_first(),
        ensures
            self.moved(r, 1),
            r.wf(),
    {
        proof {
            lemma_moved_wf(self, 1);
            lemma_utf8_len_one(self.input@);
            assert(rest@ == self.input@.skip(1));
        }
        ParseState {
            input: rest,
            start_offset: self.start_offset + char_len_utf8(c),
            stop_reason: self.stop_reason,
        }
    }

    /// Move past the first `k` characters, `offset` being their byte length.
    pub(crate) fn step_chars(self, Ghost(k): Ghost<int>, offset: usize) -> (r: (ParseState<'i>, &'i str))
        requires
            self.wf(),
            0 <= k <= self.input@.len(),
            offset == utf8_len(self.input@.take(k)),
        ensures
            self.moved(r.0, k),
            r.0.wf(),
            r.1@ == self.input@.take(k),
    {
        proof {
            lemma_moved_wf(self, k);
        }
        let (view, rest) = split_chars(self.input, Ghost(k), offset);
        (ParseState { input: rest, start_offset: self.start_offset + offset, stop_reason: self.stop_reason }, view)
    }

    /// Whether `offset` bytes from here fall on a character boundary.
    pub open spec fn is_boundary(&self, offset: int) -> bool {
        is_char_boundary(encode_utf8(self.input@), offset)
    }

    /// Move forward by `offset` bytes, which must fall on a character boundary.
    pub fn advance(self, offset: usize) -> (r: ParseState<'i>)
        requires
            self.wf(),
            self.is_boundary(offset as int),
        ensures
            self.reaches(r),
            utf8_len(self.consumed(r)) == offset,
            r.wf(),
            r.stop_reason == self.stop_reason,
    {
        let (_, r) = self.advance_with_view(offset);
        r
    }

    /// Move forward by `offset` bytes, which must fall on a character
    /// boundary, and succeed with the text passed over.
    pub fn advance_view(self, offset: usize) -> (r: ParseResult<'i, &'i str>)
        requires
            self.wf(),
            self.is_boundary(offset as int),
        ensures
            r matches ParseResult::Pending(n, v) && self.reaches(n) && v@ == self.consumed(n)
                && utf8_len(v@) == offset && n.wf() && n.stop_reason == self.stop_reason,
    {
        let (view, r) = self.advance_with_view(offset);
        ParseResult::Pending(r, view)
    }

    fn advance_with_view(self, offset: usize) -> (r: (&'i str, ParseState<'i>))
        requires
            self.wf(),
            self.is_boundary(offset as int),
        ensures
            self.reaches(r.1),
            r.0@ == self.consumed(r.1),
            utf8_len(r.0@) == offset,
            r.1.wf(),
            r.1.stop_reason == self.stop_reason,
    {
        let (view, rest) = split_at_boundary(self.input, offset);
        let r = ParseState { input: rest, start_offset: self.start_offset + offset, stop_reason: self.stop_reason };
        proof {
            let k = view@.len() as int;
            assert(self.input@.take(k) =~= view@);
            assert(self.input@.skip(k) =~= rest@);
            lemma_moved_wf(self, k);
        }
        (view, r)
    }
}

/// Moving `k` characters keeps the offsets within `usize`.
pub proof fn lemma_moved_wf<'i>(s: ParseState<'i>, k: int)
    requires
        0 <= k <= s.input@.len(),
    ensures
        utf8_len(s.input@) == utf8_len(s.input@.take(k)) + utf8_len(s.input@.skip(k)),
{
    lemma_prefix_boundary(s.input@, k);
}

proof fn lemma_utf8_len_one(s: Seq<char>)
    requires
        s.len() > 0,
    ensures
        utf8_len(s.take(1)) == char_width(s[0]),
{
    crate::text::lemma_utf8_len_cons(s.take(1));
    assert(s.take(1).drop_first() =~= Seq::<char>::empty());
    assert(encode_utf8(Seq::<char>::empty()) =~= Seq::<u8>::empty());
}

/// Moving `a` characters, then `b`, is moving `a + b`.
pub proof fn lemma_moved_trans<'i>(s0: ParseState<'i>, s1: ParseState<'i>, s2: ParseState<'i>, a: int, b: int)
    requires
        s0.moved(s1, a),
        s1.moved(s2, b),
    ensures
        s0.moved(s2, a + b),
{
    let s = s0.input@;
    assert(s.take(a + b) =~= s.take(a) + s1.input@.take(b));
    assert(s2.input@ =~= s.skip(a + b));
    crate::text::lemma_utf8_len_concat(s.take(a), s1.input@.take(b));
}

/// Every state reaches itself.
pub proof fn lemma_reaches_refl<'i>(s: ParseState<'i>)
    ensures
        s.reaches(s),
{
    assert(s.input@.skip(0) =~= s.input@);
    assert(s.input@.take(0) =~= Seq::<char>::empty());
    assert(encode_utf8(Seq::<char>::empty()) =~= Seq::<u8>::empty());
}

/// A matcher that succeeds leaves a state whose offset is the old offset
/// plus the byte length of the text consumed, and whose remaining text is
/// the old one without that text: offset plus remaining length is kept.
pub proof fn lemma_offset_conservation<'i>(before: ParseState<'i>, after: ParseState<'i>)
    requires
        before.reaches(after),
    ensures
        after.start_offset == before.start_offset + utf8_len(before.consumed(after)),
        before.input@ == before.consumed(after) + after.input@,
        after.spec_end_offset() == before.spec_end_offset(),
{
    let k = before.input@.len() - after.input@.len();
    lemma_moved_wf(before, k);
    assert(before.input@ =~= before.input@.take(k) + before.input@.skip(k));
}

} // verus!
