//! A cursor position in a text, as a byte offset on a character boundary,
//! with line and column lookup and in-place matching.
use core::ops::Range;
use vstd::prelude::*;
use vstd::utf8::{encode_utf8, is_char_boundary};

use crate::builtin::{
    lemma_run_count, match_prefix, prefix_count, scan_run, starts_with, starts_with_ignore_ascii_case,
};
use crate::regexp::regex_find;
use crate::text::{
    lemma_prefix_boundary, lemma_take_len_unique, lemma_take_take, lemma_utf8_len_ge,
    lemma_utf8_len_take_next, char_len_utf8, split_at_boundary, split_chars, uncons, utf8_len,
};

verus! {

/// Line and column after reading `s` from `(line, col)`: a line feed, or a
/// carriage return with a line feed after it, starts a new line at column
/// 1; any other character moves one column on.
pub open spec fn line_col(s: Seq<char>, line: int, col: int) -> (int, int)
    decreases s.len(),
{
    if s.len() == 0 {
        (line, col)
    } else if s[0] == '\r' && s.len() > 1 && s[1] == '\n' {
        line_col(s.skip(2), line + 1, 1)
    } else if s[0] == '\n' {
        line_col(s.skip(1), line + 1, 1)
    } else {
        line_col(s.skip(1), line, col + 1)
    }
}

/// Index just past the last line feed of `s`, or 0.
pub open spec fn last_line_start(s: Seq<char>) -> nat
    decreases s.len(),
{
    if s.len() == 0 {
        0
    } else if s.last() == '\n' {
        s.len()
    } else {
        last_line_start(s.drop_last())
    }
}

/// Index just past the first line feed of `s`, or the length of `s`.
pub open spec fn first_line_end(s: Seq<char>) -> nat {
    let n = prefix_count(|c: char| c == '\n', s, false);
    if n == s.len() {
        n
    } else {
        n + 1
    }
}

/// Number of characters before the first line end, `\n` or `\r`.
pub open spec fn rest_of_line_len(s: Seq<char>) -> nat {
    prefix_count(|c: char| c == '\n' || c == '\r', s, false)
}

/// A byte offset on a character boundary of a text.
#[derive(Clone, Copy, Debug)]
pub struct Position<'i> {
    /// The whole text.
    pub input: &'i str,
    /// Byte offset in the text.
    pub position: usize,
}

impl<'i> Position<'i> {
    /// The offset ends a prefix of the text, and the text's length fits.
    pub open spec fn wf(&self) -> bool {
        &&& utf8_len(self.input@) < usize::MAX
        &&& exists|k: int| 0 <= k <= self.input@.len() && utf8_len(self.input@.take(k)) == self.position
    }

    /// Number of characters before the offset.
    pub open spec fn index(&self) -> int {
        choose|k: int| 0 <= k <= self.input@.len() && utf8_len(self.input@.take(k)) == self.position
    }

    /// The characters before the offset.
    pub open spec fn before(&self) -> Seq<char> {
        self.input@.take(self.index())
    }

    /// The characters from the offset on.
    pub open spec fn after(&self) -> Seq<char> {
        self.input@.skip(self.index())
    }

    /// `next` is this position moved `m` characters forward.
    pub open spec fn moved(&self, next: Position<'i>, m: int) -> bool {
        &&& next.input == self.input
        &&& next.wf()
        &&& next.index() == self.index() + m
        &&& next.position == utf8_len(self.input@.take(self.index() + m))
    }

    proof fn lemma_index(&self, k: int)
        requires
            self.wf(),
            0 <= k <= self.input@.len(),
            utf8_len(self.input@.take(k)) == self.position,
        ensures
            self.index() == k,
    {
        let j = self.index();
        lemma_take_len_unique(self.input@, j, k);
    }

    /// The text before and after the offset.
    fn parts(&self) -> (r: (&'i str, &'i str))
        requires
            self.wf(),
        ensures
            r.0@ == self.before(),
            r.1@ == self.after(),
            0 <= self.index() <= self.input@.len(),
            utf8_len(self.before()) == self.position,
            utf8_len(self.before()) + utf8_len(self.after()) == utf8_len(self.input@),
    {
        let ghost k = self.index();
        proof {
            lemma_prefix_boundary(self.input@, k);
        }
        let (before, after) = split_at_boundary(self.input, self.position);
        proof {
            assert(self.input@.take(before@.len() as int) =~= before@);
            self.lemma_index(before@.len() as int);
            assert(self.input@.skip(k) =~= after@);
            crate::text::lemma_utf8_len_concat(before@, after@);
        }
        (before, after)
    }

    /// Move `m` characters forward, `bytes` being their byte length.
    fn forward(&mut self, Ghost(m): Ghost<int>, bytes: usize)
        requires
            old(self).wf(),
            0 <= m <= old(self).after().len(),
            bytes == utf8_len(old(self).after().take(m)),
        ensures
            old(self).moved(*final(self), m),
    {
        let ghost k = self.index();
        proof {
            lemma_take_take(self.input@, k, m);
            lemma_prefix_boundary(self.input@, k + m);
            crate::text::lemma_utf8_len_concat(self.input@.take(k + m), self.input@.skip(k + m));
            assert(self.input@ =~= self.input@.take(k + m) + self.input@.skip(k + m));
        }
        let ghost before = *self;
        self.position = self.position + bytes;
        proof {
            assert(0 <= k + m <= self.input@.len() && utf8_len(self.input@.take(k + m)) == self.position);
            self.lemma_index(k + m);
        }
    }

    /// A position at byte `pos` of `input`, where `pos` is a character
    /// boundary.
    pub fn new(input: &'i str, pos: usize) -> (r: Option<Position<'i>>)
        requires
            utf8_len(input@) < usize::MAX,
        ensures
            r is Some <==> is_char_boundary(encode_utf8(input@), pos as int),
            r matches Some(p) ==> p.input == input && p.position == pos && p.wf(),
    {
        if input.is_char_boundary(pos) {
            let (before, _) = split_at_boundary(input, pos);
            proof {
                assert(input@.take(before@.len() as int) =~= before@);
            }
            Some(Position { input, position: pos })
        } else {
            None
        }
    }

    /// The position at the start of `input`.
    pub fn from_start(input: &'i str) -> (r: Position<'i>)
        requires
            utf8_len(input@) < usize::MAX,
        ensures
            r.input == input,
            r.position == 0,
            r.wf(),
            r.index() == 0,
    {
        let r = Position { input, position: 0 };
        proof {
            assert(input@.take(0) =~= Seq::<char>::empty());
            assert(encode_utf8(Seq::<char>::empty()) =~= Seq::<u8>::empty());
            r.lemma_index(0);
        }
        r
    }

    /// The byte offset.
    pub fn offset(&self) -> (r: usize)
        ensures
            r == self.position,
    {
        self.position
    }

    /// Line and column, both from 1, of the position.
    pub fn line_column(&self) -> (r: (usize, usize))
        requires
            self.wf(),
        ensures
            (r.0 as int, r.1 as int) == line_col(self.before(), 1, 1),
    {
        let (before, _) = self.parts();
        proof {
            lemma_utf8_len_ge(before@);
        }
        let mut rest = before;
        let ghost mut count: int = 0;
        let mut line: usize = 1;
        let mut col: usize = 1;
        loop
            invariant
                before@.len() < usize::MAX,
                0 <= count <= before@.len(),
                rest@ == before@.skip(count),
                line <= count + 1,
                col <= count + 1,
                line_col(before@, 1, 1) == line_col(rest@, line as int, col as int),
            ensures
                line_col(before@, 1, 1) == (line as int, col as int),
            decreases rest@.len(),
        {
            match uncons(rest) {
                None => {
                    break;
                },
                Some((c, next)) => {
                    proof {
                        assert(rest@.skip(1) =~= next@);
                        assert(next@ =~= before@.skip(count + 1));
                    }
                    if c == '\r' {
                        match uncons(next) {
                            Some((c2, next2)) => {
                                if c2 == '\n' {
                                    proof {
                                        assert(rest@.skip(2) =~= next2@);
                                        assert(next2@ =~= before@.skip(count + 2));
                                        count = count + 2;
                                    }
                                    line = line + 1;
                                    col = 1;
                                    rest = next2;
                                    continue;
                                }
                            },
                            None => {},
                        }
                        col = col + 1;
                    } else if c == '\n' {
                        line = line + 1;
                        col = 1;
                    } else {
                        col = col + 1;
                    }
                    proof {
                        count = count + 1;
                    }
                    rest = next;
                },
            }
        }
        (line, col)
    }

    /// Byte offset of the start of the line of the position: just past the
    /// last line feed before it, or 0.
    pub fn find_line_start(&self) -> (r: usize)
        requires
            self.wf(),
        ensures
            r == utf8_len(self.input@.take(last_line_start(self.before()) as int)),
            last_line_start(self.before()) <= self.index(),
    {
        let (before, _) = self.parts();
        let mut rest = before;
        let mut count: usize = 0;
        let mut offset: usize = 0;
        let mut start: usize = 0;
        let mut start_offset: usize = 0;
        proof {
            assert(before@.take(0) =~= Seq::<char>::empty());
            assert(encode_utf8(Seq::<char>::empty()) =~= Seq::<u8>::empty());
        }
        loop
            invariant
                utf8_len(before@) <= usize::MAX,
                0 <= count <= before@.len(),
                rest@ == before@.skip(count as int),
                offset == utf8_len(before@.take(count as int)),
                start == last_line_start(before@.take(count as int)),
                start <= count,
                start_offset == utf8_len(before@.take(start as int)),
            ensures
                start == last_line_start(before@),
                start <= before@.len(),
                start_offset == utf8_len(before@.take(start as int)),
            decreases rest@.len(),
        {
            match uncons(rest) {
                None => {
                    proof {
                        assert(before@.take(count as int) =~= before@);
                    }
                    break;
                },
                Some((c, next)) => {
                    assert(c == before@[count as int]);
                    proof {
                        lemma_utf8_len_take_next(before@, count as int);
                        lemma_utf8_len_ge(before@.take(count as int));
                        assert(next@ =~= before@.skip(count + 1));
                        assert(before@.take(count + 1).drop_last() =~= before@.take(count as int));
                    }
                    offset = offset + char_len_utf8(c);
                    count = count + 1;
                    if c == '\n' {
                        start = count;
                        start_offset = offset;
                    }
                    rest = next;
                },
            }
        }
        proof {
            assert(before@.take(start as int) =~= self.input@.take(start as int));
        }
        start_offset
    }

    /// Byte offset of the end of the line of the position: just past the
    /// first line feed from it on, or the end of the text.
    pub fn find_line_end(&self) -> (r: usize)
        requires
            self.wf(),
        ensures
            r == utf8_len(self.input@.take(self.index() + first_line_end(self.after()))),
            self.index() + first_line_end(self.after()) <= self.input@.len(),
    {
        let (_, after) = self.parts();
        let is_lf = |c: char| -> (b: bool)
            ensures
                b == (c == '\n'),
            { c == '\n' };
        let (n, n_bytes) = scan_run(after, is_lf, false);
        proof {
            lemma_run_count(is_lf, |c: char| c == '\n', after@, n as int, false);
            lemma_take_take(self.input@, self.index(), n as int);
        }
        if n == after.unicode_len() {
            proof {
                assert(after@.take(n as int) =~= after@);
            }
            self.position + n_bytes
        } else {
            proof {
                lemma_utf8_len_take_next(after@, n as int);
                lemma_take_take(self.input@, self.index(), n + 1);
            }
            self.position + n_bytes + 1
        }
    }

    /// The whole line that holds the position, with its line feed.
    pub fn line_of(&self) -> (r: &'i str)
        requires
            self.wf(),
        ensures
            r@ == self.input@.subrange(
                last_line_start(self.before()) as int,
                self.index() + first_line_end(self.after()),
            ),
    {
        let start = self.find_line_start();
        let end = self.find_line_end();
        let ghost a = last_line_start(self.before()) as int;
        let ghost b = self.index() + first_line_end(self.after());
        let (head, _) = split_chars(self.input, Ghost(b), end);
        proof {
            assert(head@.take(a) =~= self.input@.take(a));
        }
        let (_, line) = split_chars(head, Ghost(a), start);
        proof {
            assert(line@ =~= self.input@.subrange(a, b));
        }
        line
    }

    /// Whether the position is the start of the text.
    pub fn match_soi(&self) -> (r: bool)
        ensures
            r == (self.position == 0),
    {
        self.position == 0
    }

    /// Whether the position is the end of the text.
    pub fn match_eoi(&self) -> (r: bool)
        requires
            self.wf(),
        ensures
            r == (self.after().len() == 0),
    {
        let (_, after) = self.parts();
        after.is_empty()
    }

    /// Move to the end of the line, before its `\n` or `\r`; always true.
    pub fn match_rol(&mut self) -> (r: bool)
        requires
            old(self).wf(),
        ensures
            r,
            old(self).moved(*final(self), rest_of_line_len(old(self).after()) as int),
    {
        let (_, after) = self.parts();
        let is_end = |c: char| -> (b: bool)
            ensures
                b == (c == '\n' || c == '\r'),
            { c == '\n' || c == '\r' };
        let (n, n_bytes) = scan_run(after, is_end, false);
        proof {
            lemma_run_count(is_end, |c: char| c == '\n' || c == '\r', after@, n as int, false);
        }
        self.forward(Ghost(n as int), n_bytes);
        true
    }

    /// Move `n` characters forward if there are that many; else stay.
    pub fn skip(&mut self, n: usize) -> (r: bool)
        requires
            old(self).wf(),
        ensures
            r == (n <= old(self).after().len()),
            r ==> old(self).moved(*final(self), n as int),
            !r ==> *final(self) == *old(self),
    {
        let (_, after) = self.parts();
        let mut rest = after;
        let mut count: usize = 0;
        let mut bytes: usize = 0;
        proof {
            assert(after@.take(0) =~= Seq::<char>::empty());
            assert(encode_utf8(Seq::<char>::empty()) =~= Seq::<u8>::empty());
        }
        while count < n
            invariant
                *self == *old(self),
                old(self).wf(),
                after@ == old(self).after(),
                utf8_len(after@) <= usize::MAX,
                0 <= count <= n,
                count <= after@.len(),
                rest@ == after@.skip(count as int),
                bytes == utf8_len(after@.take(count as int)),
            decreases n - count,
        {
            match uncons(rest) {
                None => {
                    return false;
                },
                Some((c, next)) => {
                    proof {
                        lemma_utf8_len_take_next(after@, count as int);
                        lemma_utf8_len_ge(after@.take(count as int));
                        assert(next@ =~= after@.skip(count + 1));
                    }
                    bytes = bytes + char_len_utf8(c);
                    count = count + 1;
                    rest = next;
                },
            }
        }
        self.forward(Ghost(n as int), bytes);
        true
    }

    /// Move `n` characters back if there are that many; else stay.
    pub fn skip_back(&mut self, n: usize) -> (r: bool)
        requires
            old(self).wf(),
        ensures
            r == (n <= old(self).index()),
            r ==> final(self).input == old(self).input && final(self).wf() && final(self).index()
                == old(self).index() - n,
            !r ==> *final(self) == *old(self),
    {
        let (before, _) = self.parts();
        let k = before.unicode_len();
        if n > k {
            return false;
        }
        let target = k - n;
        let mut rest = before;
        let mut count: usize = 0;
        let mut bytes: usize = 0;
        proof {
            assert(before@.take(0) =~= Seq::<char>::empty());
            assert(encode_utf8(Seq::<char>::empty()) =~= Seq::<u8>::empty());
        }
        while count < target
            invariant
                *self == *old(self),
                old(self).wf(),
                before@ == old(self).before(),
                utf8_len(before@) <= usize::MAX,
                0 <= count <= target,
                target <= before@.len(),
                rest@ == before@.skip(count as int),
                bytes == utf8_len(before@.take(count as int)),
            decreases target - count,
        {
            match uncons(rest) {
                None => {
                    return false;
                },
                Some((c, next)) => {
                    proof {
                        lemma_utf8_len_take_next(before@, count as int);
                        lemma_utf8_len_ge(before@.take(count as int));
                        assert(next@ =~= before@.skip(count + 1));
                    }
                    bytes = bytes + char_len_utf8(c);
                    count = count + 1;
                    rest = next;
                },
            }
        }
        self.position = bytes;
        proof {
            assert(before@.take(target as int) =~= self.input@.take(target as int));
            self.lemma_index(target as int);
        }
        true
    }

    /// Whether the character at the position is `c`; the position stays.
    pub fn match_char(&self, c: char) -> (r: bool)
        requires
            self.wf(),
        ensures
            r == (self.after().len() > 0 && self.after()[0] == c),
    {
        let (_, after) = self.parts();
        match uncons(after) {
            Some((d, _)) => d == c,
            None => false,
        }
    }

    /// Move past the character at the position if `f` holds of it.
    pub fn match_char_by<F>(&mut self, f: F) -> (r: bool)
        where
            F: FnOnce(char) -> bool,
        requires
            old(self).wf(),
            old(self).after().len() > 0 ==> f.requires((old(self).after()[0],)),
        ensures
            r ==> old(self).after().len() > 0 && f.ensures((old(self).after()[0],), true) && old(
                self,
            ).moved(*final(self), 1),
            !r ==> *final(self) == *old(self) && (old(self).after().len() == 0 || f.ensures(
                (old(self).after()[0],),
                false,
            )),
    {
        let (_, after) = self.parts();
        match uncons(after) {
            Some((c, _)) => {
                if f(c) {
                    proof {
                                                lemma_utf8_len_take_next(after@, 0);
                        assert(after@.take(0) =~= Seq::<char>::empty());
                        assert(encode_utf8(Seq::<char>::empty()) =~= Seq::<u8>::empty());
                    }
                    self.forward(Ghost(1), char_len_utf8(c));
                    true
                } else {
                    false
                }
            },
            None => false,
        }
    }

    /// Move past `string` if the text goes on with it.
    pub fn match_string(&mut self, string: &str) -> (r: bool)
        requires
            old(self).wf(),
        ensures
            r == starts_with(old(self).after(), string@),
            r ==> old(self).moved(*final(self), string@.len() as int),
            !r ==> *final(self) == *old(self),
    {
        let (_, after) = self.parts();
        match match_prefix(after, string, false) {
            Some(bytes) => {
                self.forward(Ghost(string@.len() as int), bytes);
                true
            },
            None => false,
        }
    }

    /// Move past `string`, compared up to ASCII case, if the text goes on
    /// with it.
    pub fn match_insensitive(&mut self, string: &str) -> (r: bool)
        requires
            old(self).wf(),
        ensures
            r == starts_with_ignore_ascii_case(old(self).after(), string@),
            r ==> old(self).moved(*final(self), string@.len() as int),
            !r ==> *final(self) == *old(self),
    {
        let (_, after) = self.parts();
        match match_prefix(after, string, true) {
            Some(bytes) => {
                self.forward(Ghost(string@.len() as int), bytes);
                true
            },
            None => false,
        }
    }

    /// Move past the character at the position if it lies between the
    /// bounds of `range`, both included.
    pub fn match_range(&mut self, range: Range<char>) -> (r: bool)
        requires
            old(self).wf(),
        ensures
            r == (old(self).after().len() > 0 && range.start as u32 <= old(self).after()[0] as u32
                <= range.end as u32),
            r ==> old(self).moved(*final(self), 1),
            !r ==> *final(self) == *old(self),
    {
        let (_, after) = self.parts();
        match uncons(after) {
            Some((c, _)) => {
                if range.start as u32 <= c as u32 && c as u32 <= range.end as u32 {
                    proof {
                                                lemma_utf8_len_take_next(after@, 0);
                        assert(after@.take(0) =~= Seq::<char>::empty());
                        assert(encode_utf8(Seq::<char>::empty()) =~= Seq::<u8>::empty());
                    }
                    self.forward(Ghost(1), char_len_utf8(c));
                    true
                } else {
                    false
                }
            },
            None => false,
        }
    }

    /// What a leftmost match `found` on the text from the position gives:
    /// one that starts here moves the position past its end, by its end
    /// offset in bytes; none, or one that starts further on, leaves it.
    pub fn advance_match(&mut self, found: Option<(usize, usize)>) -> (r: bool)
        requires
            old(self).wf(),
            found matches Some((a, b)) ==> a <= b && is_char_boundary(encode_utf8(old(self).after()), b as int),
        ensures
            match found {
                Some((a, b)) => if a == 0 {
                    r && final(self).input == old(self).input && final(self).wf() && final(self).position
                        == old(self).position + b && final(self).index() >= old(self).index()
                } else {
                    !r && *final(self) == *old(self)
                },
                None => !r && *final(self) == *old(self),
            },
    {
        let (_, after) = self.parts();
        match found {
            Some((start, end)) => {
                if start != 0 {
                    return false;
                }
                let (matched, _) = split_at_boundary(after, end);
                proof {
                    let m = matched@.len() as int;
                    assert(after@.take(m) =~= matched@);
                    lemma_take_take(self.input@, self.index(), m);
                }
                self.forward(Ghost(matched@.len() as int), end);
                true
            },
            None => false,
        }
    }

    /// Move past a match of `regex` that starts at the position: the
    /// leftmost match on the text from the position is found, and
    /// `advance_match` decides on it.
    pub fn match_regex(&mut self, regex: &regex::Regex) -> (r: bool)
        requires
            old(self).wf(),
        ensures
            r ==> final(self).input == old(self).input && final(self).wf() && final(self).index()
                >= old(self).index(),
            !r ==> *final(self) == *old(self),
    {
        let (_, after) = self.parts();
        let found = regex_find(regex, after);
        self.advance_match(found)
    }
}

} // verus!
