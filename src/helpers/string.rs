//! Quoted strings, raw strings with fences, and Unicode escapes.
use vstd::prelude::*;
use vstd::utf8::is_scalar;

use crate::builtin::{find_str, lemma_run_count, occurs_at, prefix_count, scan_run, starts_with};
use crate::patterns::{StringView, SurroundPair};
use crate::results::{CustomError, ParseResult, StopBecause};
use crate::state::{lemma_moved_trans, ParseState};
use crate::text::{
    char_len_utf8, lemma_utf8_len_ge, lemma_utf8_len_take_next, trim, trimmed, uncons, utf8_len,
};
use crate::utils::{char_from_u32, hex_char_value, hex_to_u8, is_ascii_hexdigit, is_hex_char};

verus! {

/// Where a quoted body that began before index `i` ends: the index just
/// past the closing `bound`; -1 where an `escaper` is the last character;
/// -2 where the input ends before the closing `bound`. An `escaper` takes
/// the next character, whatever it is, as content.
pub open spec fn escape_scan(s: Seq<char>, i: int, bound: char, escaper: char) -> int
    decreases s.len() - i,
{
    if i < 0 || i >= s.len() {
        -2
    } else if s[i] == bound {
        i + 1
    } else if s[i] == escaper {
        if i + 1 >= s.len() {
            -1
        } else {
            escape_scan(s, i + 2, bound, escaper)
        }
    } else {
        escape_scan(s, i + 1, bound, escaper)
    }
}

/// Match `bound`, then characters up to the next `bound` that no `escaper`
/// precedes, then that `bound`; the value is the whole quoted text.
pub fn surround_pair_with_escaper<'i>(state: ParseState<'i>, bound: char, escaper: char) -> (r: ParseResult<'i, &'i str>)
    requires
        state.wf(),
    ensures
        (state@.len() == 0 || state@[0] != bound) ==> r == ParseResult::<'i, &'i str>::Stop(
            StopBecause::MissingCharacterRange { start: bound, end: bound, position: state.start_offset },
        ),
        (state@.len() > 0 && state@[0] == bound) ==> ({
            let k = escape_scan(state@, 1, bound, escaper);
            let end = (state.start_offset + utf8_len(state@)) as usize;
            if k >= 0 {
                r matches ParseResult::Pending(n, v) && v@ == state@.take(k) && state.moved(n, k) && n.wf()
            } else if k == -1 {
                r == ParseResult::<'i, &'i str>::Stop(
                    StopBecause::MissingCharacterSet { expected: "ANY", position: end },
                )
            } else {
                r == ParseResult::<'i, &'i str>::Stop(
                    StopBecause::MissingCharacterRange { start: bound, end: bound, position: end },
                )
            }
        }),
{
    let ghost s = state@;
    let (first, mut rest) = match uncons(state.input) {
        Some((c, next)) => (c, next),
        None => {
            return ParseResult::Stop(
                StopBecause::MissingCharacterRange { start: bound, end: bound, position: state.start_offset },
            );
        },
    };
    if first != bound {
        return ParseResult::Stop(
            StopBecause::MissingCharacterRange { start: bound, end: bound, position: state.start_offset },
        );
    }
    let mut count: usize = 1;
    let mut offset: usize = char_len_utf8(first);
    proof {
        lemma_utf8_len_take_next(s, 0);
        assert(s.take(0) =~= Seq::<char>::empty());
        assert(vstd::utf8::encode_utf8(Seq::<char>::empty()) =~= Seq::<u8>::empty());
        assert(rest@ =~= s.skip(1));
    }
    loop
        invariant_except_break
            escape_scan(s, 1, bound, escaper) == escape_scan(s, count as int, bound, escaper),
        invariant
            state.wf(),
            s == state@,
            s.len() > 0 && s[0] == bound,
            1 <= count <= s.len(),
            rest@ == s.skip(count as int),
            offset == utf8_len(s.take(count as int)),
        ensures
            1 <= count <= s.len(),
            offset == utf8_len(s.take(count as int)),
            escape_scan(s, 1, bound, escaper) == count,
        decreases rest@.len(),
    {
        proof {
            crate::state::lemma_moved_wf(state, count as int);
        }
        match uncons(rest) {
            None => {
                proof {
                    assert(s.take(count as int) =~= s);
                }
                return ParseResult::Stop(
                    StopBecause::MissingCharacterRange { start: bound, end: bound, position: state.start_offset + offset },
                );
            },
            Some((c, next)) => {
                assert(c == s[count as int]);
                proof {
                    lemma_utf8_len_take_next(s, count as int);
                    lemma_utf8_len_ge(s.take(count as int));
                    assert(next@ =~= s.skip(count + 1));
                }
                offset = offset + char_len_utf8(c);
                count = count + 1;
                rest = next;
                if c == bound {
                    break;
                }
                if c == escaper {
                    match uncons(rest) {
                        None => {
                            proof {
                                assert(s.take(count as int) =~= s);
                            }
                            return ParseResult::Stop(
                                StopBecause::MissingCharacterSet { expected: "ANY", position: state.start_offset + offset },
                            );
                        },
                        Some((c2, next2)) => {
                            assert(c2 == s[count as int]);
                            proof {
                                crate::state::lemma_moved_wf(state, count as int);
                                lemma_utf8_len_take_next(s, count as int);
                                lemma_utf8_len_ge(s.take(count as int));
                                assert(next2@ =~= s.skip(count + 1));
                            }
                            offset = offset + char_len_utf8(c2);
                            count = count + 1;
                            rest = next2;
                        },
                    }
                }
            },
        }
    }
    let (n, v) = state.step_chars(Ghost(count as int), offset);
    ParseResult::Pending(n, v)
}

/// A double-quoted style string bounded by `bound`, with `\` as escaper.
pub fn quotation_pair_escaped<'i>(state: ParseState<'i>, bound: char) -> (r: ParseResult<'i, &'i str>)
    requires
        state.wf(),
    ensures
        (state@.len() == 0 || state@[0] != bound) ==> r == ParseResult::<'i, &'i str>::Stop(
            StopBecause::MissingCharacterRange { start: bound, end: bound, position: state.start_offset },
        ),
        (state@.len() > 0 && state@[0] == bound) ==> ({
            let k = escape_scan(state@, 1, bound, '\\');
            let end = (state.start_offset + utf8_len(state@)) as usize;
            if k >= 0 {
                r matches ParseResult::Pending(n, v) && v@ == state@.take(k) && state.moved(n, k) && n.wf()
            } else if k == -1 {
                r == ParseResult::<'i, &'i str>::Stop(
                    StopBecause::MissingCharacterSet { expected: "ANY", position: end },
                )
            } else {
                r == ParseResult::<'i, &'i str>::Stop(
                    StopBecause::MissingCharacterRange { start: bound, end: bound, position: end },
                )
            }
        }),
{
    surround_pair_with_escaper(state, bound, '\\')
}

/// Split off the character `c` where the input starts with it.
fn take_char<'i>(state: ParseState<'i>, c: char) -> (r: Option<(ParseState<'i>, &'i str)>)
    requires
        state.wf(),
    ensures
        r is Some <==> state@.len() > 0 && state@[0] == c,
        r matches Some((n, v)) ==> v@ == seq![c] && state.moved(n, 1) && n.wf(),
{
    match uncons(state.input) {
        Some((d, _)) => {
            if d != c {
                return None;
            }
            proof {
                lemma_utf8_len_take_next(state@, 0);
                assert(state@.take(0) =~= Seq::<char>::empty());
                assert(vstd::utf8::encode_utf8(Seq::<char>::empty()) =~= Seq::<u8>::empty());
            }
            let (n, v) = state.step_chars(Ghost(1), char_len_utf8(d));
            proof {
                assert(v@ =~= seq![c]);
            }
            Some((n, v))
        },
        None => None,
    }
}

/// A quoted text: `lhs`, a body without `rhs`, possibly empty, and `rhs`.
pub fn quotation_pair<'i>(input: ParseState<'i>, lhs: char, rhs: char) -> (r: ParseResult<'i, SurroundPair<'i>>)
    requires
        input.wf(),
    ensures
        ({
            let s = input@;
            let s1 = s.skip(1);
            let pos1 = input.start_offset + utf8_len(s.take(1));
            let b = prefix_count(|c: char| c == rhs, s1, false) as int;
            let s2 = s1.skip(b);
            let pos2 = pos1 + utf8_len(s1.take(b));
            if s.len() == 0 || s[0] != lhs {
                r == ParseResult::<'i, SurroundPair<'i>>::Stop(
                    StopBecause::MissingString { message: "QUOTATION_LHS", position: input.start_offset },
                )
            } else if s2.len() == 0 {
                r == ParseResult::<'i, SurroundPair<'i>>::Stop(
                    StopBecause::MissingString { message: "QUOTATION_RHS", position: pos2 as usize },
                )
            } else {
                r matches ParseResult::Pending(n, pair) && pair.head@ == seq![lhs]
                    && pair.head.start_offset == input.start_offset && pair.body@ == s1.take(b)
                    && pair.body.start_offset == pos1 && pair.tail@ == seq![rhs] && pair.tail.start_offset
                    == pos2 && input.moved(n, b + 2) && n.wf()
            }
        }),
{
    let is_rhs = |c: char| -> (b: bool)
        ensures
            b == (c == rhs),
        { c == rhs };
    let (s_lhs, left) = match take_char(input, lhs) {
        Some(x) => x,
        None => {
            return ParseResult::Stop(
                StopBecause::MissingString { message: "QUOTATION_LHS", position: input.start_offset },
            );
        },
    };
    let (count, offset) = scan_run(s_lhs.input, is_rhs, false);
    proof {
        lemma_run_count(is_rhs, |c: char| c == rhs, s_lhs@, count as int, false);
    }
    let (s_body, body) = s_lhs.step_chars(Ghost(count as int), offset);
    proof {
        lemma_moved_trans(input, s_lhs, s_body, 1, count as int);
    }
    let (s_rhs, right) = match take_char(s_body, rhs) {
        Some(x) => x,
        None => {
            proof {
                if s_body@.len() > 0 {
                    assert(s_body@[0] == s_lhs@[count as int]);
                }
            }
            return ParseResult::Stop(
                StopBecause::MissingString { message: "QUOTATION_RHS", position: s_body.start_offset },
            );
        },
    };
    proof {
        lemma_moved_trans(input, s_body, s_rhs, 1 + count, 1);
    }
    ParseResult::Pending(
        s_rhs,
        SurroundPair {
            head: StringView::new(left, input.start_offset),
            body: StringView::new(body, s_lhs.start_offset),
            tail: StringView::new(right, s_body.start_offset),
        },
    )
}

} // verus!

verus! {

/// A run of `delimiter` opens a fence; the body runs to the first repeat of
/// that fence, which closes it. A fence of two bytes is an empty string.
pub fn quotation_pair_nested<'i>(input: ParseState<'i>, delimiter: char) -> (r: ParseResult<'i, SurroundPair<'i>>)
    requires
        input.wf(),
    ensures
        ({
            let s = input@;
            let a = prefix_count(|c: char| c == delimiter, s, true) as int;
            let fence = s.take(a);
            let rest = s.skip(a);
            let pos1 = input.start_offset + utf8_len(fence);
            if a == 0 {
                r == ParseResult::<'i, SurroundPair<'i>>::Stop(
                    StopBecause::MissingString { message: "QUOTE", position: input.start_offset },
                )
            } else if utf8_len(fence) == 2 {
                r matches ParseResult::Pending(n, pair) && input.moved(n, a) && n.wf() && pair.head@ == fence
                    && pair.head.start_offset == input.start_offset && pair.body@.len() == 0
                    && pair.body.start_offset == input.start_offset + 1 && pair.tail@ == fence
                    && pair.tail.start_offset == input.start_offset + 1
            } else {
                match r {
                    ParseResult::Pending(n, pair) => {
                        let k = pair.body@.len() as int;
                        &&& occurs_at(rest, fence, k)
                        &&& forall|j: int| 0 <= j < k ==> !#[trigger] occurs_at(rest, fence, j)
                        &&& pair.head@ == fence && pair.head.start_offset == input.start_offset
                        &&& pair.body@ == rest.take(k) && pair.body.start_offset == pos1
                        &&& pair.tail@ == fence && pair.tail.start_offset == pos1 + utf8_len(rest.take(k))
                        &&& input.moved(n, a + k + a)
                        &&& n.wf()
                    },
                    ParseResult::Stop(e) => {
                        &&& forall|j: int| 0 <= j <= rest.len() ==> !#[trigger] occurs_at(rest, fence, j)
                        &&& e == StopBecause::MissingCharacterRange {
                            start: delimiter,
                            end: delimiter,
                            position: pos1 as usize,
                        }
                    },
                }
            }
        }),
{
    let is_delimiter = |c: char| -> (b: bool)
        ensures
            b == (c == delimiter),
        { c == delimiter };
    let ghost s = input@;
    let (state, bound) = match input.match_str_if(is_delimiter, "QUOTE") {
        ParseResult::Pending(n, v) => (n, v),
        ParseResult::Stop(e) => {
            proof {
                lemma_run_count(is_delimiter, |c: char| c == delimiter, s, 0, true);
            }
            return ParseResult::Stop(e);
        },
    };
    let ghost a = bound@.len() as int;
    proof {
        lemma_run_count(is_delimiter, |c: char| c == delimiter, s, a, true);
        crate::state::lemma_moved_wf(input, a);
    }
    let n = bound.len();
    if n == 2 {
        proof {
            reveal_strlit("");
        }
        return ParseResult::Pending(
            state,
            SurroundPair {
                head: StringView::new(bound, input.start_offset),
                body: StringView::new("", input.start_offset + 1),
                tail: StringView::new(bound, input.start_offset + 1),
            },
        );
    }
    match find_str(state.input, bound) {
        Some((k, m)) => {
            let (tail_state, body) = state.step_chars(Ghost(k as int), m);
            proof {
                assert(tail_state@.take(a) == bound@);
            }
            let (end_state, tail) = tail_state.step_chars(Ghost(a), n);
            proof {
                lemma_moved_trans(input, state, tail_state, a, k as int);
                lemma_moved_trans(input, tail_state, end_state, a + k, a);
            }
            ParseResult::Pending(
                end_state,
                SurroundPair {
                    head: StringView::new(bound, input.start_offset),
                    body: StringView::new(body, state.start_offset),
                    tail: StringView::new(tail, tail_state.start_offset),
                },
            )
        },
        None => ParseResult::Stop(
            StopBecause::MissingCharacterRange { start: delimiter, end: delimiter, position: state.start_offset },
        ),
    }
}

/// Value of a run of hexadecimal digits, most significant first.
pub open spec fn hex_number(d: Seq<char>) -> nat
    decreases d.len(),
{
    if d.len() == 0 {
        0
    } else {
        (hex_number(d.drop_last()) * 16 + hex_char_value(d.last())) as nat
    }
}

/// Sixteen to the power `i`.
pub open spec fn pow16(i: nat) -> nat
    decreases i,
{
    if i == 0 {
        1
    } else {
        16 * pow16((i - 1) as nat)
    }
}

/// Value of the hexadecimal digits of `s`, which has at most six characters,
/// all of them digits.
fn hex_digits_value(s: &str) -> (r: u32)
    requires
        s@.len() <= 6,
        forall|i: int| 0 <= i < s@.len() ==> is_hex_char(#[trigger] s@[i]),
    ensures
        r == hex_number(s@),
{
    let mut rest = s;
    let mut value: u32 = 0;
    let mut count: usize = 0;
    proof {
        reveal_with_fuel(pow16, 7);
        assert(s@.take(0) =~= Seq::<char>::empty());
    }
    while count < 6
        invariant
            s@.len() <= 6,
            forall|i: int| 0 <= i < s@.len() ==> is_hex_char(#[trigger] s@[i]),
            0 <= count <= s@.len(),
            rest@ == s@.skip(count as int),
            value == hex_number(s@.take(count as int)),
            value < pow16(count as nat),
            pow16(6) == 16777216,
        ensures
            count == s@.len(),
            value == hex_number(s@.take(count as int)),
        decreases 6 - count,
    {
        match uncons(rest) {
            None => {
                break;
            },
            Some((c, next)) => {
                assert(c == s@[count as int]);
                let d = match hex_to_u8(c as u32 as u8) {
                    Some(v) => v as u32,
                    None => 0,
                };
                proof {
                    assert(s@.take(count + 1).drop_last() =~= s@.take(count as int));
                    assert(pow16((count + 1) as nat) == 16 * pow16(count as nat));
                    lemma_pow16_mono(count as nat);
                    assert(next@ =~= s@.skip(count + 1));
                }
                value = value * 16 + d;
                count = count + 1;
                rest = next;
            },
        }
    }
    proof {
        assert(s@.take(count as int) =~= s@);
    }
    value
}

proof fn lemma_pow16_mono(i: nat)
    requires
        i < 6,
    ensures
        pow16(i) * 16 <= 16777216,
{
    reveal_with_fuel(pow16, 7);
}

/// Saturating `start + 4`.
pub open spec fn plus_four(start: int) -> usize {
    if start + 4 <= usize::MAX {
        (start + 4) as usize
    } else {
        usize::MAX
    }
}

/// What `\uXXXX` gives after the `\u`, on the text `s` at offset `start`.
pub open spec fn unescape_u_result<'i>(
    s: Seq<char>,
    start: int,
    reason: Option<StopBecause>,
    r: ParseResult<'i, char>,
) -> bool {
    if s.len() >= 4 && (forall|i: int| 0 <= i < 4 ==> is_hex_char(#[trigger] s[i])) && is_scalar(
        hex_number(s.take(4)) as u32,
    ) {
        r matches ParseResult::Pending(n, c) && c as u32 == hex_number(s.take(4)) && n@ == s.skip(4)
            && n.start_offset == start + 4 && n.stop_reason == reason && n.wf()
    } else {
        r == ParseResult::<'i, char>::Stop(
            StopBecause::Custom(
                CustomError {
                    message: "Invalid unicode escape sequence",
                    start: start as usize,
                    end: plus_four(start),
                },
            ),
        )
    }
}

/// Exactly four hexadecimal digits naming a character: `1234` of `ሴ`.
pub fn unescape_u<'i>(input: ParseState<'i>) -> (r: ParseResult<'i, char>)
    requires
        input.wf(),
    ensures
        unescape_u_result(input@, input.start_offset as int, input.stop_reason, r),
{
    let mut rest = input.input;
    let mut count: usize = 0;
    while count < 4
        invariant
            0 <= count <= 4,
            count <= input@.len(),
            rest@ == input@.skip(count as int),
            forall|i: int| 0 <= i < count ==> is_hex_char(#[trigger] input@[i]),
        decreases 4 - count,
    {
        match uncons(rest) {
            None => {
                return invalid_escape(input.start_offset);
            },
            Some((c, next)) => {
                assert(c == input@[count as int]);
                if !is_ascii_hexdigit(c) {
                    return invalid_escape(input.start_offset);
                }
                proof {
                    assert(next@ =~= input@.skip(count + 1));
                }
                count = count + 1;
                rest = next;
            },
        }
    }
    proof {
        crate::utils::lemma_hex_width(input@.take(4));
    }
    let (state, digits) = input.step_chars(Ghost(4), 4);
    let value = hex_digits_value(digits);
    match char_from_u32(value) {
        Some(c) => ParseResult::Pending(state, c),
        None => invalid_escape(input.start_offset),
    }
}

fn invalid_escape<'i>(start: usize) -> (r: ParseResult<'i, char>)
    ensures
        r == ParseResult::<'i, char>::Stop(
            StopBecause::Custom(
                CustomError {
                    message: "Invalid unicode escape sequence",
                    start,
                    end: plus_four(start as int),
                },
            ),
        ),
{
    ParseResult::Stop(
        StopBecause::Custom(
            CustomError { message: "Invalid unicode escape sequence", start, end: start.saturating_add(4) },
        ),
    )
}

} // verus!

verus! {

/// Whether every character of `s` is a hexadecimal digit.
fn all_hex_digits(s: &str) -> (r: bool)
    ensures
        r == forall|i: int| 0 <= i < s@.len() ==> is_hex_char(#[trigger] s@[i]),
{
    let mut rest = s;
    let ghost mut count: int = 0;
    loop
        invariant
            0 <= count <= s@.len(),
            rest@ == s@.skip(count),
            forall|i: int| 0 <= i < count ==> is_hex_char(#[trigger] s@[i]),
        decreases rest@.len(),
    {
        match uncons(rest) {
            None => {
                return true;
            },
            Some((c, next)) => {
                assert(c == s@[count]);
                if !is_ascii_hexdigit(c) {
                    return false;
                }
                proof {
                    assert(next@ =~= s@.skip(count + 1));
                    count = count + 1;
                }
                rest = next;
            },
        }
    }
}

/// What `\u{...}` gives after the `\u`, on the text `s` at offset `start`:
/// a run of `{`, a body up to `}` that is not empty once trimmed, of at
/// most six bytes, all hexadecimal digits, naming a Unicode scalar value,
/// then `}`.
pub open spec fn unescape_us_result<'i>(
    s: Seq<char>,
    start: int,
    reason: Option<StopBecause>,
    r: ParseResult<'i, char>,
) -> bool {
    let a = prefix_count(|c: char| c == '{', s, true) as int;
    let s1 = s.skip(a);
    let pos1 = start + utf8_len(s.take(a));
    let b = prefix_count(|c: char| c == '}', s1, false) as int;
    let raw = s1.take(b);
    let t = trimmed(raw);
    let pos2 = pos1 + utf8_len(raw);
    let s2 = s1.skip(b);
    if a == 0 {
        r == ParseResult::<'i, char>::Stop(StopBecause::MissingString { message: "BRACE", position: start as usize })
    } else if b == 0 || t.len() == 0 {
        r == ParseResult::<'i, char>::Stop(StopBecause::MissingString { message: "BRACE", position: pos1 as usize })
    } else if utf8_len(t) > 6 {
        r == ParseResult::<'i, char>::Stop(
            StopBecause::Custom(
                CustomError {
                    message: "Escape characters must be 0-6 characters",
                    start: pos1 as usize,
                    end: pos2 as usize,
                },
            ),
        )
    } else if exists|i: int| 0 <= i < t.len() && !is_hex_char(#[trigger] t[i]) {
        r == ParseResult::<'i, char>::Stop(
            StopBecause::Custom(
                CustomError { message: "Escape characters must in 0-9a-fA-F", start: pos1 as usize, end: pos2 as usize },
            ),
        )
    } else if !is_scalar(hex_number(t) as u32) {
        r == ParseResult::<'i, char>::Stop(
            StopBecause::Custom(
                CustomError { message: "Characters must not beyond U+10FFFF", start: pos1 as usize, end: pos2 as usize },
            ),
        )
    } else if s2.len() == 0 {
        r == ParseResult::<'i, char>::Stop(
            StopBecause::MissingCharacterRange { start: '}', end: '}', position: pos2 as usize },
        )
    } else {
        r matches ParseResult::Pending(n, c) && c as u32 == hex_number(t) && n@ == s2.drop_first()
            && n.start_offset == pos2 + 1 && n.stop_reason == reason && n.wf()
    }
}

/// `{1F600}` of `\u{1F600}`: up to six hexadecimal digits in braces, white
/// space around them trimmed. Braces that hold nothing, or only white
/// space, are rejected with `MissingString` just after the `{`.
pub fn unescape_us<'i>(input: ParseState<'i>) -> (r: ParseResult<'i, char>)
    requires
        input.wf(),
    ensures
        unescape_us_result(input@, input.start_offset as int, input.stop_reason, r),
{
    let is_open = |c: char| -> (b: bool)
        ensures
            b == (c == '{'),
        { c == '{' };
    let is_close = |c: char| -> (b: bool)
        ensures
            b == (c == '}'),
        { c == '}' };
    let ghost s = input@;
    let (start, braces) = match input.match_str_if(is_open, "BRACE") {
        ParseResult::Pending(n, v) => (n, v),
        ParseResult::Stop(e) => {
            proof {
                lemma_run_count(is_open, |c: char| c == '{', s, 0, true);
            }
            return ParseResult::Stop(e);
        },
    };
    proof {
        lemma_run_count(is_open, |c: char| c == '{', s, braces@.len() as int, true);
    }
    let (state, raw) = match start.match_str_until(is_close, "BRACE") {
        ParseResult::Pending(n, v) => (n, v),
        ParseResult::Stop(e) => {
            proof {
                lemma_run_count(is_close, |c: char| c == '}', start@, 0, false);
            }
            return ParseResult::Stop(e);
        },
    };
    proof {
        lemma_run_count(is_close, |c: char| c == '}', start@, raw@.len() as int, false);
        crate::state::lemma_moved_wf(start, raw@.len() as int);
    }
    let text = trim(raw);
    if text.is_empty() {
        return ParseResult::Stop(StopBecause::MissingString { message: "BRACE", position: start.start_offset });
    }
    if text.len() > 6 {
        return ParseResult::Stop(
            StopBecause::Custom(
                CustomError {
                    message: "Escape characters must be 0-6 characters",
                    start: start.start_offset,
                    end: state.start_offset,
                },
            ),
        );
    }
    proof {
        crate::text::lemma_utf8_len_ge(text@);
    }
    if !all_hex_digits(text) {
        return ParseResult::Stop(
            StopBecause::Custom(
                CustomError {
                    message: "Escape characters must in 0-9a-fA-F",
                    start: start.start_offset,
                    end: state.start_offset,
                },
            ),
        );
    }
    let value = hex_digits_value(text);
    let c = match char_from_u32(value) {
        Some(c) => c,
        None => {
            return ParseResult::Stop(
                StopBecause::Custom(
                    CustomError {
                        message: "Characters must not beyond U+10FFFF",
                        start: start.start_offset,
                        end: state.start_offset,
                    },
                ),
            );
        },
    };
    match state.match_char('}') {
        ParseResult::Pending(n, _) => {
            proof {
                assert(n@ =~= state@.drop_first());
                reveal_with_fuel(vstd::utf8::encode_utf8, 2);
                assert(state@.take(1) =~= seq!['}']);
            }
            ParseResult::Pending(n, c)
        },
        ParseResult::Stop(e) => {
            proof {
                assert(state@.len() == 0);
            }
            ParseResult::Stop(e)
        },
    }
}

/// Parser of a Unicode escape: `\u` (or `\U` when case does not matter),
/// then `{...}` or exactly four hexadecimal digits.
#[derive(Copy, Clone, Debug)]
pub struct UnicodeUnescape {
    /// Whether `\u` is matched up to ASCII case.
    pub insensitive: bool,
    /// Whether the digits stand in braces, as in `\u{1234}`.
    pub curly_brace: bool,
}

impl Default for UnicodeUnescape {
    fn default() -> (r: Self)
        ensures
            !r.insensitive,
            r.curly_brace,
    {
        UnicodeUnescape { insensitive: false, curly_brace: true }
    }
}

impl UnicodeUnescape {
    /// Match `\u` and the escape after it.
    pub fn consume<'i>(&self, input: ParseState<'i>) -> (r: ParseResult<'i, char>)
        requires
            input.wf(),
        ensures
            ({
                let head_ok = if self.insensitive {
                    crate::builtin::starts_with_ignore_ascii_case(input@, "\\u"@)
                } else {
                    starts_with(input@, "\\u"@)
                };
                let rest = input@.skip(2);
                let pos = input.start_offset + utf8_len(input@.take(2));
                if !head_ok {
                    r == ParseResult::<'i, char>::Stop(
                        StopBecause::MissingString { message: "\\u", position: input.start_offset },
                    )
                } else if self.curly_brace {
                    unescape_us_result(rest, pos, input.stop_reason, r)
                } else {
                    unescape_u_result(rest, pos, input.stop_reason, r)
                }
            }),
    {
        proof {
            reveal_strlit("\\u");
        }
        let head = if self.insensitive {
            input.match_str_insensitive("\\u")
        } else {
            input.match_str("\\u")
        };
        let state = match head {
            ParseResult::Pending(s, _) => s,
            ParseResult::Stop(e) => {
                return ParseResult::Stop(e);
            },
        };
        if self.curly_brace {
            unescape_us(state)
        } else {
            unescape_u(state)
        }
    }
}

} // verus!

verus! {

/// Number of trailing spaces of `s`.
pub open spec fn trailing_spaces(s: Seq<char>) -> nat
    decreases s.len(),
{
    if s.len() > 0 && s.last() == ' ' {
        1 + trailing_spaces(s.drop_last())
    } else {
        0
    }
}

/// Number of line feeds in `s`.
pub open spec fn newline_count(s: Seq<char>) -> nat
    decreases s.len(),
{
    if s.len() == 0 {
        0
    } else {
        newline_count(s.drop_last()) + if s.last() == '\n' {
            1nat
        } else {
            0nat
        }
    }
}

/// A break between paragraphs: a run of white space holding at least two
/// line feeds; trailing spaces of the run are left for what follows.
pub fn paragraph_break<'i>(input: ParseState<'i>) -> (r: ParseResult<'i, &'i str>)
    requires
        input.wf(),
    ensures
        ({
            let w = prefix_count(|c: char| crate::text::is_white_space(c), input@, true) as int;
            let text = input@.take(w);
            let kept = w - trailing_spaces(text);
            if kept == 0 {
                r == ParseResult::<'i, &'i str>::Stop(
                    StopBecause::MissingString { message: "PARAGRAPH_LINE", position: input.start_offset },
                )
            } else if newline_count(text) <= 1 {
                r == ParseResult::<'i, &'i str>::Stop(
                    StopBecause::MissingString { message: "PARAGRAPH_BREAK", position: input.start_offset },
                )
            } else {
                r matches ParseResult::Pending(n, v) && v@ == input@.take(kept) && input.moved(n, kept) && n.wf()
            }
        }),
{
    let is_ws = |c: char| -> (b: bool)
        ensures
            b == crate::text::is_white_space(c),
        { crate::text::char_is_whitespace(c) };
    let (w, w_bytes) = scan_run(input.input, is_ws, true);
    proof {
        lemma_run_count(is_ws, |c: char| crate::text::is_white_space(c), input@, w as int, true);
    }
    let (text, _) = crate::text::split_chars(input.input, Ghost(w as int), w_bytes);
    let mut rest = text;
    let mut count: usize = 0;
    let mut offset: usize = 0;
    let mut kept: usize = 0;
    let mut kept_offset: usize = 0;
    let mut newlines: usize = 0;
    proof {
        assert(text@.take(0) =~= Seq::<char>::empty());
        assert(vstd::utf8::encode_utf8(Seq::<char>::empty()) =~= Seq::<u8>::empty());
        crate::state::lemma_moved_wf(input, w as int);
    }
    loop
        invariant
            input.wf(),
            text@ == input@.take(w as int),
            w <= input@.len(),
            utf8_len(text@) <= usize::MAX,
            0 <= count <= text@.len(),
            rest@ == text@.skip(count as int),
            offset == utf8_len(text@.take(count as int)),
            kept == count - trailing_spaces(text@.take(count as int)),
            kept <= count,
            kept_offset == utf8_len(text@.take(kept as int)),
            newlines == newline_count(text@.take(count as int)),
            newlines <= count,
        ensures
            count == text@.len(),
            kept == count - trailing_spaces(text@.take(count as int)),
            kept <= count,
            kept_offset == utf8_len(text@.take(kept as int)),
            newlines == newline_count(text@.take(count as int)),
        decreases rest@.len(),
    {
        match uncons(rest) {
            None => {
                break;
            },
            Some((c, next)) => {
                assert(c == text@[count as int]);
                proof {
                    lemma_utf8_len_take_next(text@, count as int);
                    lemma_utf8_len_ge(text@.take(count as int));
                    assert(next@ =~= text@.skip(count + 1));
                    assert(text@.take(count + 1).drop_last() =~= text@.take(count as int));
                }
                offset = offset + char_len_utf8(c);
                count = count + 1;
                if c != ' ' {
                    kept = count;
                    kept_offset = offset;
                }
                if c == '\n' {
                    newlines = newlines + 1;
                }
                rest = next;
            },
        }
    }
    proof {
        assert(text@.take(count as int) =~= text@);
    }
    if kept == 0 {
        return ParseResult::Stop(StopBecause::MissingString { message: "PARAGRAPH_LINE", position: input.start_offset });
    }
    if newlines <= 1 {
        return ParseResult::Stop(StopBecause::MissingString { message: "PARAGRAPH_BREAK", position: input.start_offset });
    }
    proof {
        assert(text@.take(kept as int) =~= input@.take(kept as int));
    }
    let (n, v) = input.step_chars(Ghost(kept as int), kept_offset);
    ParseResult::Pending(n, v)
}

} // verus!
