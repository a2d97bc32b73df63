//! Integers behind a base mark, such as `0x1F`, `0o17`, `0b101`.
use vstd::prelude::*;

use crate::builtin::{lemma_run_count, prefix_count, scan_run, starts_with, starts_with_ignore_ascii_case};
use crate::results::{ParseResult, StopBecause};
use crate::state::{lemma_moved_trans, ParseState};

verus! {

/// Value of a character as a digit of base 36, as `char::to_digit` reads it.
pub open spec fn digit_value(c: char) -> Option<u32> {
    let v = c as u32;
    if 48 <= v <= 57 {
        Some((v - 48) as u32)
    } else if 97 <= v <= 122 {
        Some((v - 97 + 10) as u32)
    } else if 65 <= v <= 90 {
        Some((v - 65 + 10) as u32)
    } else {
        None
    }
}

/// Whether a character is a digit of `base`, as `char::is_digit` has it.
pub open spec fn is_digit_of(c: char, base: u32) -> bool {
    digit_value(c) matches Some(d) && d < base
}

/// Whether a character is a digit of `base`.
pub fn char_is_digit(c: char, base: u32) -> (r: bool)
    ensures
        r == is_digit_of(c, base),
{
    let v = c as u32;
    let d = if 48 <= v && v <= 57 {
        v - 48
    } else if 97 <= v && v <= 122 {
        v - 97 + 10
    } else if 65 <= v && v <= 90 {
        v - 65 + 10
    } else {
        return false;
    };
    d < base
}

/// Whether `s` starts with `mark`, up to ASCII case if `insensitive`.
pub open spec fn mark_matches(s: Seq<char>, mark: &str, insensitive: bool) -> bool {
    if insensitive {
        starts_with_ignore_ascii_case(s, mark@)
    } else {
        starts_with(s, mark@)
    }
}

/// Number of digits of `base` after `mark` at the start of `s`.
pub open spec fn digits_after(s: Seq<char>, mark: &str, base: u32) -> nat {
    prefix_count(|c: char| is_digit_of(c, base), s.skip(mark@.len() as int), true)
}

/// Parser of an integer behind one of several base marks, tried in order.
#[derive(Copy, Clone, Debug)]
pub struct ZeroBytePattern {
    /// Whether marks match up to ASCII case.
    pub insensitive: bool,
    /// The marks and their bases, tried in order.
    pub marks: &'static [(&'static str, u32)],
    /// The name reported when no mark matches.
    pub message: &'static str,
}

impl ZeroBytePattern {
    /// A pattern with these marks, case sensitive.
    pub fn new(marks: &'static [(&'static str, u32)]) -> (r: Self)
        ensures
            r.marks == marks,
            !r.insensitive,
            r.message == "ZeroBytePattern",
    {
        ZeroBytePattern { insensitive: false, marks, message: "ZeroBytePattern" }
    }

    /// The same pattern, with case sensitivity set.
    pub fn with_insensitive(self, insensitive: bool) -> (r: Self)
        ensures
            r == (ZeroBytePattern { insensitive, ..self }),
    {
        ZeroBytePattern { insensitive, ..self }
    }

    /// The same pattern, with another name.
    pub fn with_message(self, message: &'static str) -> (r: Self)
        ensures
            r == (ZeroBytePattern { message, ..self }),
    {
        ZeroBytePattern { message, ..self }
    }

    /// Match `mark`, then the longest run of digits of `base`, possibly
    /// empty; the value is the base and the digits.
    pub fn parse_byte_base<'i>(state: ParseState<'i>, mark: &'static str, base: u32, insensitive: bool) -> (r:
        ParseResult<'i, (u32, &'i str)>)
        requires
            state.wf(),
        ensures
            !mark_matches(state@, mark, insensitive) ==> r == ParseResult::<'i, (u32, &'i str)>::Stop(
                StopBecause::MissingString { message: mark, position: state.start_offset },
            ),
            mark_matches(state@, mark, insensitive) ==> ({
                let a = mark@.len() as int;
                let d = digits_after(state@, mark, base) as int;
                r matches ParseResult::Pending(n, (b, v)) && b == base && v@ == state@.skip(a).take(d)
                    && state.moved(n, a + d) && n.wf()
            }),
    {
        let after = match if insensitive {
            state.match_str_insensitive(mark)
        } else {
            state.match_str(mark)
        } {
            ParseResult::Pending(s, _) => s,
            ParseResult::Stop(e) => {
                return ParseResult::Stop(e);
            },
        };
        let is_digit = |c: char| -> (b: bool)
            ensures
                b == is_digit_of(c, base),
            { char_is_digit(c, base) };
        let (count, offset) = scan_run(after.input, is_digit, true);
        proof {
            lemma_run_count(is_digit, |c: char| is_digit_of(c, base), after@, count as int, true);
        }
        let (n, digits) = after.step_chars(Ghost(count as int), offset);
        proof {
            lemma_moved_trans(state, after, n, mark@.len() as int, count as int);
        }
        ParseResult::Pending(n, (base, digits))
    }

    /// Try each mark in order; the first that matches gives its base and
    /// digits. Fails with `MissingCharacterSet` when none matches.
    pub fn consume<'i>(&self, input: ParseState<'i>) -> (r: ParseResult<'i, (u32, &'i str)>)
        requires
            input.wf(),
        ensures
            (forall|j: int| 0 <= j < self.marks@.len() ==> !mark_matches(input@, #[trigger] self.marks@[j].0, self.insensitive))
                ==> r == ParseResult::<'i, (u32, &'i str)>::Stop(
                StopBecause::MissingCharacterSet { expected: self.message, position: input.start_offset },
            ),
            r is Pending <==> exists|j: int|
                0 <= j < self.marks@.len() && mark_matches(input@, #[trigger] self.marks@[j].0, self.insensitive),
            r matches ParseResult::Pending(n, (b, v)) ==> exists|i: int|
                #![trigger self.marks@[i]]
                {
                    let (mark, base) = self.marks@[i];
                    let a = mark@.len() as int;
                    let d = digits_after(input@, mark, base) as int;
                    &&& 0 <= i < self.marks@.len()
                    &&& forall|j: int| 0 <= j < i ==> !mark_matches(input@, #[trigger] self.marks@[j].0, self.insensitive)
                    &&& mark_matches(input@, mark, self.insensitive)
                    &&& b == base && v@ == input@.skip(a).take(d) && input.moved(n, a + d) && n.wf()
                },
    {
        let mut i: usize = 0;
        while i < self.marks.len()
            invariant
                input.wf(),
                0 <= i <= self.marks@.len(),
                forall|j: int| 0 <= j < i ==> !mark_matches(input@, #[trigger] self.marks@[j].0, self.insensitive),
            decreases self.marks@.len() - i,
        {
            let (mark, base) = self.marks[i];
            match Self::parse_byte_base(input, mark, base, self.insensitive) {
                ParseResult::Pending(s, v) => {
                    assert(self.marks@[i as int] == (mark, base));
                    return ParseResult::Pending(s, v);
                },
                ParseResult::Stop(_) => {
                    assert(self.marks@[i as int].0 == mark);
                },
            }
            i = i + 1;
        }
        ParseResult::Stop(StopBecause::MissingCharacterSet { expected: self.message, position: input.start_offset })
    }
}

} // verus!
