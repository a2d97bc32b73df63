//! Hexadecimal digits.
use vstd::prelude::*;
use vstd::utf8::is_scalar;

use crate::text::utf8_len;

verus! {

/// Value of an ASCII hexadecimal digit byte.
pub open spec fn hex_value(b: u8) -> Option<u8> {
    if 48 <= b <= 57 {
        Some((b - 48) as u8)
    } else if 97 <= b <= 102 {
        Some((b - 97 + 10) as u8)
    } else if 65 <= b <= 70 {
        Some((b - 65 + 10) as u8)
    } else {
        None
    }
}

/// Whether a character is an ASCII hexadecimal digit.
pub open spec fn is_hex_char(c: char) -> bool {
    (c as u32) < 128 && hex_value((c as u32) as u8) is Some
}

/// Value of a hexadecimal digit character.
pub open spec fn hex_char_value(c: char) -> int {
    match hex_value((c as u32) as u8) {
        Some(v) => v as int,
        None => 0,
    }
}

/// Value of an ASCII hexadecimal digit byte, `None` for other bytes.
pub fn hex_to_u8(byte: u8) -> (r: Option<u8>)
    ensures
        r == hex_value(byte),
{
    if 48 <= byte && byte <= 57 {
        Some(byte - 48)
    } else if 97 <= byte && byte <= 102 {
        Some(byte - 97 + 10)
    } else if 65 <= byte && byte <= 70 {
        Some(byte - 65 + 10)
    } else {
        None
    }
}

/// The byte written by two hexadecimal digits, high digit first.
pub fn hex2_to_u8(c1: u8, c2: u8) -> (r: Option<u8>)
    ensures
        r is Some <==> hex_value(c1) is Some && hex_value(c2) is Some,
        r matches Some(v) ==> v == 16 * hex_value(c1)->0 + hex_value(c2)->0,
{
    let high = match hex_to_u8(c1) {
        Some(v) => v,
        None => return None,
    };
    let low = match hex_to_u8(c2) {
        Some(v) => v,
        None => return None,
    };
    Some(high * 16 + low)
}

/// The character whose code point four hexadecimal digits write, high digit
/// first; `None` where a digit is not hexadecimal or the code point is a
/// surrogate.
pub fn hex4_to_char(c1: u8, c2: u8, c3: u8, c4: u8) -> (r: Option<char>)
    ensures
        r is Some <==> hex_value(c1) is Some && hex_value(c2) is Some && hex_value(c3) is Some
            && hex_value(c4) is Some && is_scalar(
            (4096 * hex_value(c1)->0 + 256 * hex_value(c2)->0 + 16 * hex_value(c3)->0 + hex_value(
                c4,
            )->0) as u32,
        ),
        r matches Some(c) ==> c as u32 == 4096 * hex_value(c1)->0 + 256 * hex_value(c2)->0 + 16
            * hex_value(c3)->0 + hex_value(c4)->0,
{
    let d1 = match hex_to_u8(c1) {
        Some(v) => v as u32,
        None => return None,
    };
    let d2 = match hex_to_u8(c2) {
        Some(v) => v as u32,
        None => return None,
    };
    let d3 = match hex_to_u8(c3) {
        Some(v) => v as u32,
        None => return None,
    };
    let d4 = match hex_to_u8(c4) {
        Some(v) => v as u32,
        None => return None,
    };
    char_from_u32(d1 * 4096 + d2 * 256 + d3 * 16 + d4)
}

/// Whether a character is an ASCII hexadecimal digit.
pub fn is_ascii_hexdigit(c: char) -> (r: bool)
    ensures
        r == is_hex_char(c),
{
    let v = c as u32;
    v < 128 && hex_to_u8(v as u8).is_some()
}

/// A run of hexadecimal digits takes one byte each.
pub proof fn lemma_hex_width(s: Seq<char>)
    requires
        forall|i: int| 0 <= i < s.len() ==> is_hex_char(#[trigger] s[i]),
    ensures
        utf8_len(s) == s.len(),
    decreases s.len(),
{
    if s.len() > 0 {
        crate::text::lemma_utf8_len_cons(s);
        assert forall|i: int| 0 <= i < s.len() - 1 implies is_hex_char(#[trigger] s.drop_first()[i]) by {
            assert(s.drop_first()[i] == s[i + 1]);
        }
        lemma_hex_width(s.drop_first());
    }
}

/// Relies on `char::from_u32`: `Some` exactly for the Unicode scalar values
/// (at most U+10FFFF, and no surrogate), holding that code point.
#[verifier::external_body]
pub(crate) fn char_from_u32(v: u32) -> (r: Option<char>)
    ensures
        r is Some <==> is_scalar(v),
        r matches Some(c) ==> c as u32 == v,
{
    char::from_u32(v)
}

} // verus!
