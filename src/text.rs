//! UTF-8 facts about string slices, and the two primitive cuts that every
//! matcher is built on: taking the first character off a slice, and cutting
//! a slice after a number of characters.
use vstd::prelude::*;
use vstd::utf8::*;
use vstd::string::StringSliceAdditionalSpecFns;

verus! {

broadcast use vstd::string::group_string_axioms;

/// Number of bytes of the UTF-8 encoding of a character sequence.
pub open spec fn utf8_len(s: Seq<char>) -> nat {
    encode_utf8(s).len()
}

/// Number of bytes of the UTF-8 encoding of one character.
pub open spec fn char_width(c: char) -> nat {
    if (c as u32) < 0x80 {
        1
    } else if (c as u32) < 0x800 {
        2
    } else if (c as u32) < 0x10000 {
        3
    } else {
        4
    }
}

pub proof fn lemma_char_width(c: char)
    ensures
        encode_scalar(c as u32).len() == char_width(c),
{
    char_is_scalar(c);
}

pub proof fn lemma_utf8_len_cons(s: Seq<char>)
    requires
        s.len() > 0,
    ensures
        utf8_len(s) == char_width(s[0]) + utf8_len(s.drop_first()),
{
    lemma_char_width(s[0]);
}

/// The encoding of a concatenation is the concatenation of the encodings.
pub proof fn lemma_encode_concat(a: Seq<char>, b: Seq<char>)
    ensures
        encode_utf8(a + b) == encode_utf8(a) + encode_utf8(b),
    decreases a.len(),
{
    if a.len() == 0 {
        assert(a + b =~= b);
        assert(encode_utf8(a) =~= Seq::<u8>::empty());
        assert(encode_utf8(a) + encode_utf8(b) =~= encode_utf8(b));
    } else {
        assert((a + b).drop_first() =~= a.drop_first() + b);
        lemma_encode_concat(a.drop_first(), b);
        assert(encode_utf8(a + b) =~= encode_scalar(a[0] as u32) + encode_utf8(a.drop_first() + b));
    }
}

pub proof fn lemma_utf8_len_concat(a: Seq<char>, b: Seq<char>)
    ensures
        utf8_len(a + b) == utf8_len(a) + utf8_len(b),
{
    lemma_encode_concat(a, b);
}

/// Encoding is injective.
pub proof fn lemma_encode_injective(a: Seq<char>, b: Seq<char>)
    requires
        encode_utf8(a) == encode_utf8(b),
    ensures
        a == b,
{
    encode_utf8_decode_utf8(a);
    encode_utf8_decode_utf8(b);
}

/// The byte length of the first `k` characters is a character boundary.
pub proof fn lemma_prefix_boundary(s: Seq<char>, k: int)
    requires
        0 <= k <= s.len(),
    ensures
        is_char_boundary(encode_utf8(s), utf8_len(s.take(k)) as int),
        encode_utf8(s) == encode_utf8(s.take(k)) + encode_utf8(s.skip(k)),
    decreases k,
{
    assert(s =~= s.take(k) + s.skip(k));
    lemma_encode_concat(s.take(k), s.skip(k));
    encode_utf8_valid_utf8(s);
    if k > 0 {
        let bytes = encode_utf8(s);
        encode_utf8_first_scalar(s);
        assert(pop_first_scalar(bytes) =~= encode_utf8(s.drop_first()));
        let t = s.drop_first();
        lemma_prefix_boundary(t, k - 1);
        assert(s.take(k) =~= seq![s[0]] + t.take(k - 1));
        lemma_utf8_len_concat(seq![s[0]], t.take(k - 1));
        assert(seq![s[0]].drop_first() =~= Seq::<char>::empty());
        lemma_char_width(s[0]);
        assert(encode_utf8(Seq::<char>::empty()) =~= Seq::<u8>::empty());
        assert(utf8_len(seq![s[0]]) == char_width(s[0]));
    }
}

/// UTF-8 width of a character, in bytes.
pub fn char_len_utf8(c: char) -> (r: usize)
    ensures
        r == char_width(c),
        1 <= r <= 4,
{
    let v = c as u32;
    if v < 0x80 {
        1
    } else if v < 0x800 {
        2
    } else if v < 0x10000 {
        3
    } else {
        4
    }
}

/// Cut a slice after its first `k` characters, `mid` being their byte length.
pub fn split_chars<'a>(s: &'a str, Ghost(k): Ghost<int>, mid: usize) -> (r: (&'a str, &'a str))
    requires
        0 <= k <= s@.len(),
        mid == utf8_len(s@.take(k)),
    ensures
        r.0@ == s@.take(k),
        r.1@ == s@.skip(k),
{
    proof {
        lemma_prefix_boundary(s@, k);
    }
    let r = s.split_at(mid);
    proof {
        assert(encode_utf8(s@).subrange(0, mid as int) =~= encode_utf8(s@.take(k)));
        assert(encode_utf8(s@).subrange(mid as int, encode_utf8(s@).len() as int) =~= encode_utf8(s@.skip(k)));
        lemma_encode_injective(r.0@, s@.take(k));
        lemma_encode_injective(r.1@, s@.skip(k));
    }
    r
}

/// The first character of a slice and the rest of it.
pub fn uncons<'a>(s: &'a str) -> (r: Option<(char, &'a str)>)
    ensures
        r is None <==> s@.len() == 0,
        r matches Some((c, rest)) ==> c == s@[0] && rest@ == s@.drop_first(),
{
    if s.is_empty() {
        None
    } else {
        let c = s.get_char(0);
        let w = char_len_utf8(c);
        proof {
            lemma_utf8_len_cons(s@.take(1));
            assert(s@.take(1).drop_first() =~= Seq::<char>::empty());
            assert(encode_utf8(Seq::<char>::empty()) =~= Seq::<u8>::empty());
        }
        let (_, rest) = split_chars(s, Ghost(1), w);
        proof {
            assert(s@.skip(1) =~= s@.drop_first());
        }
        Some((c, rest))
    }
}

} // verus!

verus! {

/// Cut a slice at a byte offset that falls on a character boundary.
pub fn split_at_boundary<'a>(s: &'a str, mid: usize) -> (r: (&'a str, &'a str))
    requires
        is_char_boundary(encode_utf8(s@), mid as int),
    ensures
        r.0@ + r.1@ == s@,
        utf8_len(r.0@) == mid,
        utf8_len(r.0@) + utf8_len(r.1@) == utf8_len(s@),
{
    proof {
        encode_utf8_valid_utf8(s@);
        reveal_with_fuel(is_char_boundary, 1);
    }
    let r = s.split_at(mid);
    proof {
        assert(r.0.spec_bytes() == encode_utf8(r.0@));
        assert(r.1.spec_bytes() == encode_utf8(r.1@));
        lemma_encode_concat(r.0@, r.1@);
        assert(encode_utf8(r.0@) + encode_utf8(r.1@) =~= encode_utf8(s@));
        lemma_encode_injective(r.0@ + r.1@, s@);
    }
    r
}

} // verus!

verus! {

/// Taking one more character adds its width.
pub proof fn lemma_utf8_len_take_next(s: Seq<char>, k: int)
    requires
        0 <= k < s.len(),
    ensures
        utf8_len(s.take(k + 1)) == utf8_len(s.take(k)) + char_width(s[k]),
        utf8_len(s.take(k + 1)) <= utf8_len(s),
{
    assert(s.take(k + 1) =~= s.take(k) + seq![s[k]]);
    lemma_utf8_len_concat(s.take(k), seq![s[k]]);
    lemma_utf8_len_cons(seq![s[k]]);
    assert(seq![s[k]].drop_first() =~= Seq::<char>::empty());
    assert(encode_utf8(Seq::<char>::empty()) =~= Seq::<u8>::empty());
    lemma_prefix_boundary(s, k + 1);
    lemma_utf8_len_concat(s.take(k + 1), s.skip(k + 1));
    assert(s =~= s.take(k + 1) + s.skip(k + 1));
}

/// Every character takes at least one byte.
pub proof fn lemma_utf8_len_ge(s: Seq<char>)
    ensures
        utf8_len(s) >= s.len(),
    decreases s.len(),
{
    if s.len() > 0 {
        lemma_utf8_len_cons(s);
        lemma_utf8_len_ge(s.drop_first());
    }
}

/// ASCII lower case of a code point; other code points are kept.
pub open spec fn ascii_lower(x: u32) -> u32 {
    if 65 <= x <= 90 {
        (x + 32) as u32
    } else {
        x
    }
}

/// Two characters are equal up to ASCII case.
pub open spec fn eq_ignore_ascii_case(a: char, b: char) -> bool {
    ascii_lower(a as u32) == ascii_lower(b as u32)
}

/// Compare two characters up to ASCII case.
pub fn char_eq_ignore_ascii_case(a: char, b: char) -> (r: bool)
    ensures
        r == eq_ignore_ascii_case(a, b),
{
    let x = a as u32;
    let y = b as u32;
    let lx = if 65 <= x && x <= 90 { x + 32 } else { x };
    let ly = if 65 <= y && y <= 90 { y + 32 } else { y };
    lx == ly
}

} // verus!

verus! {

/// The Unicode `White_Space` property, as `char::is_whitespace` has it.
pub open spec fn is_white_space(c: char) -> bool {
    let v = c as u32;
    ||| 0x09 <= v <= 0x0D
    ||| v == 0x20
    ||| v == 0x85
    ||| v == 0xA0
    ||| v == 0x1680
    ||| 0x2000 <= v <= 0x200A
    ||| v == 0x2028
    ||| v == 0x2029
    ||| v == 0x202F
    ||| v == 0x205F
    ||| v == 0x3000
}

/// ASCII white space as `char::is_ascii_whitespace` has it: space, tab,
/// line feed, form feed and carriage return.
pub open spec fn is_ascii_white_space(c: char) -> bool {
    let v = c as u32;
    v == 0x20 || v == 0x09 || v == 0x0A || v == 0x0C || v == 0x0D
}

/// Whether a character is Unicode white space.
pub fn char_is_whitespace(c: char) -> (r: bool)
    ensures
        r == is_white_space(c),
{
    let v = c as u32;
    (0x09 <= v && v <= 0x0D) || v == 0x20 || v == 0x85 || v == 0xA0 || v == 0x1680 || (0x2000 <= v
        && v <= 0x200A) || v == 0x2028 || v == 0x2029 || v == 0x202F || v == 0x205F || v == 0x3000
}

/// Whether a character is ASCII white space.
pub fn char_is_ascii_whitespace(c: char) -> (r: bool)
    ensures
        r == is_ascii_white_space(c),
{
    let v = c as u32;
    v == 0x20 || v == 0x09 || v == 0x0A || v == 0x0C || v == 0x0D
}

} // verus!

verus! {

/// Number of leading white space characters of `s`.
pub open spec fn leading_ws(s: Seq<char>) -> nat
    decreases s.len(),
{
    if s.len() > 0 && is_white_space(s[0]) {
        1 + leading_ws(s.drop_first())
    } else {
        0
    }
}

/// Number of trailing white space characters of `s`.
pub open spec fn trailing_ws(s: Seq<char>) -> nat
    decreases s.len(),
{
    if s.len() > 0 && is_white_space(s.last()) {
        1 + trailing_ws(s.drop_last())
    } else {
        0
    }
}

/// `s` without its leading and trailing white space, as `str::trim` gives.
pub open spec fn trimmed(s: Seq<char>) -> Seq<char> {
    if leading_ws(s) == s.len() {
        Seq::empty()
    } else {
        s.subrange(leading_ws(s) as int, s.len() - trailing_ws(s))
    }
}

proof fn lemma_leading_ws_step(s: Seq<char>, i: int)
    requires
        0 <= i < s.len(),
        forall|j: int| 0 <= j < i ==> is_white_space(#[trigger] s[j]),
    ensures
        is_white_space(s[i]) ==> leading_ws(s) >= i + 1,
        !is_white_space(s[i]) ==> leading_ws(s) == i,
    decreases i,
{
    if i > 0 {
        let t = s.drop_first();
        assert forall|j: int| 0 <= j < i - 1 implies is_white_space(#[trigger] t[j]) by {
            assert(t[j] == s[j + 1]);
        }
        assert(t[i - 1] == s[i]);
        lemma_leading_ws_step(t, i - 1);
    }
}

proof fn lemma_leading_ws_all(s: Seq<char>)
    requires
        forall|j: int| 0 <= j < s.len() ==> is_white_space(#[trigger] s[j]),
    ensures
        leading_ws(s) == s.len(),
    decreases s.len(),
{
    if s.len() > 0 {
        let t = s.drop_first();
        assert forall|j: int| 0 <= j < t.len() implies is_white_space(#[trigger] t[j]) by {
            assert(t[j] == s[j + 1]);
        }
        lemma_leading_ws_all(t);
    }
}

/// Trailing white space after the last non-white character at `e - 1`.
proof fn lemma_trailing_ws(s: Seq<char>, e: int)
    requires
        0 < e <= s.len(),
        !is_white_space(s[e - 1]),
        forall|j: int| e <= j < s.len() ==> is_white_space(#[trigger] s[j]),
    ensures
        trailing_ws(s) == s.len() - e,
    decreases s.len(),
{
    if s.len() > e {
        let t = s.drop_last();
        assert forall|j: int| e <= j < t.len() implies is_white_space(#[trigger] t[j]) by {
            assert(t[j] == s[j]);
        }
        assert(t[e - 1] == s[e - 1]);
        lemma_trailing_ws(t, e);
    }
}

/// `s` without its leading and trailing white space.
pub fn trim<'a>(s: &'a str) -> (r: &'a str)
    requires
        utf8_len(s@) <= usize::MAX,
    ensures
        r@ == trimmed(s@),
        utf8_len(r@) <= utf8_len(s@),
{
    let mut rest = s;
    let mut count: usize = 0;
    let mut offset: usize = 0;
    // first non-white character: index and byte offset
    let mut first: Option<(usize, usize)> = None;
    // just past the last non-white character: index and byte offset
    let mut end: usize = 0;
    let mut end_offset: usize = 0;
    loop
        invariant
            utf8_len(s@) <= usize::MAX,
            0 <= count <= s@.len(),
            rest@ == s@.skip(count as int),
            offset == utf8_len(s@.take(count as int)),
            first is None ==> forall|j: int| 0 <= j < count ==> is_white_space(#[trigger] s@[j]),
            first matches Some((i, m)) ==> i < count && m == utf8_len(s@.take(i as int)) && !is_white_space(
                s@[i as int],
            ) && forall|j: int| 0 <= j < i ==> is_white_space(#[trigger] s@[j]),
            first is Some ==> 0 < end <= count && end_offset == utf8_len(s@.take(end as int))
                && !is_white_space(s@[end - 1]) && forall|j: int|
                end <= j < count ==> is_white_space(#[trigger] s@[j]),
        ensures
            count == s@.len(),
            offset == utf8_len(s@.take(count as int)),
            first is None ==> forall|j: int| 0 <= j < count ==> is_white_space(#[trigger] s@[j]),
            first matches Some((i, m)) ==> i < count && m == utf8_len(s@.take(i as int)) && !is_white_space(
                s@[i as int],
            ) && forall|j: int| 0 <= j < i ==> is_white_space(#[trigger] s@[j]),
            first is Some ==> 0 < end <= count && end_offset == utf8_len(s@.take(end as int))
                && !is_white_space(s@[end - 1]) && forall|j: int|
                end <= j < count ==> is_white_space(#[trigger] s@[j]),
        decreases rest@.len(),
    {
        match uncons(rest) {
            None => {
                break;
            },
            Some((c, next)) => {
                assert(c == s@[count as int]);
                proof {
                    lemma_utf8_len_take_next(s@, count as int);
                    lemma_utf8_len_ge(s@.take(count as int));
                    assert(next@ =~= s@.skip(count + 1));
                }
                let white = char_is_whitespace(c);
                let next_offset = offset + char_len_utf8(c);
                if !white {
                    if first.is_none() {
                        first = Some((count, offset));
                    }
                    end = count + 1;
                    end_offset = next_offset;
                }
                offset = next_offset;
                count = count + 1;
                rest = next;
            },
        }
    }
    match first {
        None => {
            proof {
                lemma_leading_ws_all(s@);
            }
            let (empty, _) = split_chars(s, Ghost(0), 0);
            proof {
                assert(encode_utf8(Seq::<char>::empty()) =~= Seq::<u8>::empty());
                assert(empty@ =~= Seq::<char>::empty());
                assert(s@.take(0) =~= Seq::<char>::empty());
            }
            empty
        },
        Some((i, m)) => {
            proof {
                lemma_leading_ws_step(s@, i as int);
                lemma_trailing_ws(s@, end as int);
            }
            let (head, _) = split_chars(s, Ghost(end as int), end_offset);
            proof {
                assert(head@.take(i as int) =~= s@.take(i as int));
            }
            let (_, middle) = split_chars(head, Ghost(i as int), m);
            proof {
                assert(middle@ =~= s@.subrange(i as int, end as int));
                lemma_prefix_boundary(s@, end as int);
                lemma_utf8_len_concat(s@.take(end as int), s@.skip(end as int));
                assert(s@ =~= s@.take(end as int) + s@.skip(end as int));
                lemma_prefix_boundary(head@, i as int);
                lemma_utf8_len_concat(head@.take(i as int), head@.skip(i as int));
                assert(head@ =~= head@.take(i as int) + head@.skip(i as int));
            }
            middle
        },
    }
}

} // verus!

verus! {

/// Longer prefixes take more bytes.
pub proof fn lemma_take_len_strict(s: Seq<char>, k1: int, k2: int)
    requires
        0 <= k1 < k2 <= s.len(),
    ensures
        utf8_len(s.take(k1)) < utf8_len(s.take(k2)),
    decreases k2 - k1,
{
    lemma_utf8_len_take_next(s, k2 - 1);
    if k1 < k2 - 1 {
        lemma_take_len_strict(s, k1, k2 - 1);
    }
}

/// The byte length of a prefix determines the prefix.
pub proof fn lemma_take_len_unique(s: Seq<char>, k1: int, k2: int)
    requires
        0 <= k1 <= s.len(),
        0 <= k2 <= s.len(),
        utf8_len(s.take(k1)) == utf8_len(s.take(k2)),
    ensures
        k1 == k2,
{
    if k1 < k2 {
        lemma_take_len_strict(s, k1, k2);
    } else if k2 < k1 {
        lemma_take_len_strict(s, k2, k1);
    }
}

/// The first `k` characters, then `m` more, are the first `k + m`.
pub proof fn lemma_take_take(s: Seq<char>, k: int, m: int)
    requires
        0 <= k,
        0 <= m,
        k + m <= s.len(),
    ensures
        utf8_len(s.take(k + m)) == utf8_len(s.take(k)) + utf8_len(s.skip(k).take(m)),
{
    assert(s.take(k + m) =~= s.take(k) + s.skip(k).take(m));
    lemma_utf8_len_concat(s.take(k), s.skip(k).take(m));
}

} // verus!
