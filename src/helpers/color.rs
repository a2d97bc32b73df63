//! Hexadecimal colours: `#A`, `#AB`, `#ABC`, `#ABCD`, `#ABCDEF`, `#ABCDEFGH`.
use vstd::prelude::*;

use crate::builtin::{lemma_run_count, prefix_count, starts_with};
use crate::results::{CustomError, ParseResult, StopBecause};
use crate::state::{lemma_moved_trans, ParseState};
use crate::text::utf8_len;
use crate::utils::{hex_char_value, hex_to_u8, is_ascii_hexdigit, is_hex_char};

verus! {

/// The byte that two hexadecimal digits write, high digit first.
pub open spec fn hex_pair(a: char, b: char) -> u8 {
    (16 * hex_char_value(a) + hex_char_value(b)) as u8
}

/// The colour `(r, g, b, a)` that a run of hexadecimal digits writes: one or
/// two digits are a grey, three or four a shorthand where each digit is
/// doubled, six or eight two digits a channel; alpha is 255 where absent.
pub open spec fn color_of(d: Seq<char>) -> Option<(u8, u8, u8, u8)> {
    if d.len() == 1 {
        Some((hex_pair(d[0], d[0]), hex_pair(d[0], d[0]), hex_pair(d[0], d[0]), 255))
    } else if d.len() == 2 {
        Some((hex_pair(d[0], d[1]), hex_pair(d[0], d[1]), hex_pair(d[0], d[1]), 255))
    } else if d.len() == 3 {
        Some((hex_pair(d[0], d[0]), hex_pair(d[1], d[1]), hex_pair(d[2], d[2]), 255))
    } else if d.len() == 4 {
        Some((hex_pair(d[0], d[0]), hex_pair(d[1], d[1]), hex_pair(d[2], d[2]), hex_pair(d[3], d[3])))
    } else if d.len() == 6 {
        Some((hex_pair(d[0], d[1]), hex_pair(d[2], d[3]), hex_pair(d[4], d[5]), 255))
    } else if d.len() == 8 {
        Some((hex_pair(d[0], d[1]), hex_pair(d[2], d[3]), hex_pair(d[4], d[5]), hex_pair(d[6], d[7])))
    } else {
        None
    }
}

/// Number of hexadecimal digits at the start of `s`.
pub open spec fn hex_run(s: Seq<char>) -> nat {
    prefix_count(|c: char| is_hex_char(c), s, true)
}

/// Parser of a hexadecimal colour after a fixed head.
#[derive(Clone, Copy, Debug)]
pub struct HexColor {
    /// The head before the digits, `#` by default.
    pub head: &'static str,
}

impl Default for HexColor {
    fn default() -> (r: Self)
        ensures
            r.head@ == "#"@,
    {
        HexColor { head: "#" }
    }
}

impl HexColor {
    /// A colour parser with the given head.
    pub fn new(head: &'static str) -> (r: Self)
        ensures
            r.head == head,
    {
        HexColor { head }
    }

    /// Parse a colour: the head, then the longest run of hexadecimal digits,
    /// whose length must be 1, 2, 3, 4, 6 or 8.
    pub fn consume<'i>(&self, input: ParseState<'i>) -> (r: ParseResult<'i, (u8, u8, u8, u8)>)
        requires
            input.wf(),
        ensures
            !starts_with(input@, self.head@) ==> r == ParseResult::<'i, (u8, u8, u8, u8)>::Stop(
                StopBecause::MissingString { message: self.head, position: input.start_offset },
            ),
            starts_with(input@, self.head@) ==> ({
                let k = self.head@.len() as int;
                let pos = (input.start_offset + utf8_len(self.head@)) as usize;
                let rest = input@.skip(k);
                let d = hex_run(rest) as int;
                if d == 0 {
                    r == ParseResult::<'i, (u8, u8, u8, u8)>::Stop(
                        StopBecause::MissingString { message: "ASCII_HEX", position: pos },
                    )
                } else {
                    match color_of(rest.take(d)) {
                        Some(color) => r matches ParseResult::Pending(n, v) && v == color && input.moved(
                            n,
                            k + d,
                        ) && n.wf(),
                        None => r == ParseResult::<'i, (u8, u8, u8, u8)>::Stop(
                            StopBecause::Custom(
                                CustomError {
                                    message: "Color format wrong, except 1,2,3,4,6,8",
                                    start: (pos + d) as usize,
                                    end: (pos + d + 1) as usize,
                                },
                            ),
                        ),
                    }
                }
            }),
    {
        let ghost k = self.head@.len() as int;
        let state = if self.head.is_empty() {
            proof {
                assert(input@.take(0) =~= self.head@);
                crate::state::lemma_reaches_refl(input);
                assert(input@.skip(0) =~= input@);
            }
            input
        } else {
            match input.match_str(self.head) {
                ParseResult::Pending(s, _) => s,
                ParseResult::Stop(e) => {
                    return ParseResult::Stop(e);
                },
            }
        };
        assert(input.moved(state, k));
        proof {
            assert(self.head@ == input@.take(k));
        }
        let is_hex = |c: char| -> (b: bool)
            ensures
                b == is_hex_char(c),
            { is_ascii_hexdigit(c) };
        let (next, hex) = match state.match_str_if(is_hex, "ASCII_HEX") {
            ParseResult::Pending(s, v) => (s, v),
            ParseResult::Stop(e) => {
                proof {
                    lemma_run_count(is_hex, |c: char| is_hex_char(c), state@, 0, true);
                }
                return ParseResult::Stop(e);
            },
        };
        let ghost d = hex@.len() as int;
        proof {
            lemma_run_count(is_hex, |c: char| is_hex_char(c), state@, d, true);
            lemma_moved_trans(input, state, next, k, d);
            crate::text::lemma_utf8_len_ge(hex@);
        }
        let len = hex.unicode_len();
        let color = if len == 1 {
            let c = self.pair(hex.get_char(0), hex.get_char(0));
            (c, c, c, 255u8)
        } else if len == 2 {
            let c = self.pair(hex.get_char(0), hex.get_char(1));
            (c, c, c, 255u8)
        } else if len == 3 {
            let r = self.pair(hex.get_char(0), hex.get_char(0));
            let g = self.pair(hex.get_char(1), hex.get_char(1));
            let b = self.pair(hex.get_char(2), hex.get_char(2));
            (r, g, b, 255u8)
        } else if len == 4 {
            let r = self.pair(hex.get_char(0), hex.get_char(0));
            let g = self.pair(hex.get_char(1), hex.get_char(1));
            let b = self.pair(hex.get_char(2), hex.get_char(2));
            let a = self.pair(hex.get_char(3), hex.get_char(3));
            (r, g, b, a)
        } else if len == 6 {
            let r = self.pair(hex.get_char(0), hex.get_char(1));
            let g = self.pair(hex.get_char(2), hex.get_char(3));
            let b = self.pair(hex.get_char(4), hex.get_char(5));
            (r, g, b, 255u8)
        } else if len == 8 {
            let r = self.pair(hex.get_char(0), hex.get_char(1));
            let g = self.pair(hex.get_char(2), hex.get_char(3));
            let b = self.pair(hex.get_char(4), hex.get_char(5));
            let a = self.pair(hex.get_char(6), hex.get_char(7));
            (r, g, b, a)
        } else {
            proof {
                crate::utils::lemma_hex_width(hex@);
            }
            return ParseResult::Stop(
                StopBecause::Custom(
                    CustomError {
                        message: "Color format wrong, except 1,2,3,4,6,8",
                        start: state.start_offset + len,
                        end: state.start_offset + len + 1,
                    },
                ),
            );
        };
        ParseResult::Pending(next, color)
    }

    fn pair(&self, a: char, b: char) -> (r: u8)
        requires
            is_hex_char(a),
            is_hex_char(b),
        ensures
            r == hex_pair(a, b),
    {
        let high = match hex_to_u8(a as u32 as u8) {
            Some(v) => v,
            None => 0,
        };
        let low = match hex_to_u8(b as u32 as u8) {
            Some(v) => v,
            None => 0,
        };
        high * 16 + low
    }
}

} // verus!
