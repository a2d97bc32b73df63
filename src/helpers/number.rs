//! Decimal literals.
use vstd::prelude::*;

use crate::results::{ParseResult, StopBecause};
use crate::state::ParseState;
use crate::text::{uncons, utf8_len};

verus! {

/// Whether a character is an ASCII decimal digit.
pub open spec fn is_decimal_digit(c: char) -> bool {
    '0' <= c <= '9'
}

/// Length of the leading run of digits and of at most one `.` (none once
/// `dot_seen`).
pub open spec fn decimal_run(s: Seq<char>, dot_seen: bool) -> nat
    decreases s.len(),
{
    if s.len() == 0 {
        0
    } else if is_decimal_digit(s[0]) {
        1 + decimal_run(s.drop_first(), dot_seen)
    } else if s[0] == '.' && !dot_seen {
        1 + decimal_run(s.drop_first(), true)
    } else {
        0
    }
}

proof fn lemma_decimal_width(s: Seq<char>, dot_seen: bool, k: int)
    requires
        0 <= k <= decimal_run(s, dot_seen),
    ensures
        k <= s.len(),
        utf8_len(s.take(k)) == k,
    decreases k,
{
    if k > 0 {
        let t = s.drop_first();
        let seen = if is_decimal_digit(s[0]) { dot_seen } else { true };
        lemma_decimal_width(t, seen, k - 1);
        assert(s.take(k) =~= seq![s[0]] + t.take(k - 1));
        crate::text::lemma_utf8_len_concat(seq![s[0]], t.take(k - 1));
        crate::text::lemma_utf8_len_cons(seq![s[0]]);
        assert(seq![s[0]].drop_first() =~= Seq::<char>::empty());
        assert(vstd::utf8::encode_utf8(Seq::<char>::empty()) =~= Seq::<u8>::empty());
    } else {
        assert(s.take(0) =~= Seq::<char>::empty());
        assert(vstd::utf8::encode_utf8(Seq::<char>::empty()) =~= Seq::<u8>::empty());
    }
}

/// Match a decimal literal: digits with at most one `.`; an empty match is
/// a failure.
pub fn decimal_string<'i>(input: ParseState<'i>) -> (r: ParseResult<'i, &'i str>)
    requires
        input.wf(),
    ensures
        ({
            let k = decimal_run(input@, false) as int;
            if k == 0 {
                r == ParseResult::<'i, &'i str>::Stop(
                    StopBecause::MissingString { message: "DECIMAL_LITERAL", position: input.start_offset },
                )
            } else {
                r matches ParseResult::Pending(n, v) && v@ == input@.take(k) && input.moved(n, k) && n.wf()
            }
        }),
{
    let mut rest = input.input;
    let mut offset: usize = 0;
    let mut first_dot = true;
    proof {
        crate::text::lemma_utf8_len_ge(input@);
    }
    loop
        invariant
            input.wf(),
            input@.len() < usize::MAX,
            0 <= offset <= input@.len(),
            rest@ == input@.skip(offset as int),
            decimal_run(input@, false) == offset + decimal_run(rest@, !first_dot),
        ensures
            decimal_run(input@, false) == offset,
        decreases rest@.len(),
    {
        match uncons(rest) {
            None => {
                break;
            },
            Some((c, next)) => {
                proof {
                    assert(next@ =~= input@.skip(offset + 1));
                }
                if '0' <= c && c <= '9' {
                    offset = offset + 1;
                    rest = next;
                } else if c == '.' && first_dot {
                    first_dot = false;
                    offset = offset + 1;
                    rest = next;
                } else {
                    break;
                }
            },
        }
    }
    if offset == 0 {
        return ParseResult::Stop(
            StopBecause::MissingString { message: "DECIMAL_LITERAL", position: input.start_offset },
        );
    }
    proof {
        lemma_decimal_width(input@, false, offset as int);
    }
    let (n, v) = input.step_chars(Ghost(offset as int), offset);
    ParseResult::Pending(n, v)
}

} // verus!
