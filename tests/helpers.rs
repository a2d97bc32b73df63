use pex::helpers::color::HexColor;
use pex::helpers::comment::{rest_of_line, CommentBlock, CommentLine};
use pex::helpers::number::decimal_string;
use pex::helpers::string::{
    paragraph_break, quotation_pair, quotation_pair_escaped, quotation_pair_nested, surround_pair_with_escaper,
    unescape_u, unescape_us, UnicodeUnescape,
};
use pex::helpers::trie::CharactersTrie;
use pex::helpers::whitespace;
use pex::helpers::zero_base::ZeroBytePattern;
use pex::utils::{hex2_to_u8, hex4_to_char, hex_to_u8};
use pex::{BracketPattern, CustomError, NamedPattern, ParseResult, ParseState, StopBecause, SurroundPattern};

fn color(text: &str) -> ParseResult<(u8, u8, u8, u8)> {
    HexColor::default().consume(ParseState::new(text))
}

#[test]
fn hex_color_table() {
    assert_eq!(color("#A").unwrap(), (0xAA, 0xAA, 0xAA, 255));
    assert_eq!(color("#AB").unwrap(), (0xAB, 0xAB, 0xAB, 255));
    assert_eq!(color("#ABC").unwrap(), (0xAA, 0xBB, 0xCC, 255));
    assert_eq!(color("#ABCD").unwrap(), (0xAA, 0xBB, 0xCC, 0xDD));
    assert_eq!(color("#ABCDEF").unwrap(), (0xAB, 0xCD, 0xEF, 255));
    assert_eq!(color("#ABCDEF12").unwrap(), (0xAB, 0xCD, 0xEF, 0x12));
    assert_eq!(color("#abcdef").unwrap(), (0xAB, 0xCD, 0xEF, 255));
}

#[test]
fn hex_color_bad_lengths() {
    let message = "Color format wrong, except 1,2,3,4,6,8";
    assert_eq!(color("#ABCDE"), ParseResult::Stop(StopBecause::Custom(CustomError { message, start: 6, end: 7 })));
    assert_eq!(color("#ABCDEF1"), ParseResult::Stop(StopBecause::Custom(CustomError { message, start: 8, end: 9 })));
    assert_eq!(
        color("#123456789"),
        ParseResult::Stop(StopBecause::Custom(CustomError { message, start: 10, end: 11 }))
    );
    assert_eq!(color("ABC"), ParseResult::Stop(StopBecause::MissingString { message: "#", position: 0 }));
    assert_eq!(color("#xyz"), ParseResult::Stop(StopBecause::MissingString { message: "ASCII_HEX", position: 1 }));
}

#[test]
fn hex_color_other_head_and_rest() {
    let (rest, c) = HexColor::new("0x").consume(ParseState::new("0xFF;")).as_result().unwrap();
    assert_eq!(c, (0xFF, 0xFF, 0xFF, 255));
    assert_eq!(rest.input, ";");
    assert_eq!(rest.start_offset, 4);
    assert_eq!(HexColor::new("").consume(ParseState::new("1")).unwrap(), (0x11, 0x11, 0x11, 255));
}

#[test]
fn unicode_escape_bounds() {
    let braces = UnicodeUnescape::default();
    assert_eq!(braces.consume(ParseState::new("\\u{1F600}")).unwrap(), '😀');
    assert_eq!(braces.consume(ParseState::new("\\u{ 41 }")).unwrap(), 'A');
    assert_eq!(
        braces.consume(ParseState::new("\\u{110000}")),
        ParseResult::Stop(StopBecause::Custom(CustomError {
            message: "Characters must not beyond U+10FFFF",
            start: 3,
            end: 9
        }))
    );
    assert_eq!(
        braces.consume(ParseState::new("\\u{}")),
        ParseResult::Stop(StopBecause::MissingString { message: "BRACE", position: 3 })
    );
    assert_eq!(
        braces.consume(ParseState::new("\\u{1234567}")),
        ParseResult::Stop(StopBecause::Custom(CustomError {
            message: "Escape characters must be 0-6 characters",
            start: 3,
            end: 10
        }))
    );
    assert_eq!(
        braces.consume(ParseState::new("\\u{12G}")),
        ParseResult::Stop(StopBecause::Custom(CustomError {
            message: "Escape characters must in 0-9a-fA-F",
            start: 3,
            end: 6
        }))
    );
    assert_eq!(
        braces.consume(ParseState::new("\\u{41")),
        ParseResult::Stop(StopBecause::MissingCharacterRange { start: '}', end: '}', position: 5 })
    );
    assert_eq!(
        braces.consume(ParseState::new("\\x{41}")),
        ParseResult::Stop(StopBecause::MissingString { message: "\\u", position: 0 })
    );
}

#[test]
fn unicode_escape_four_digits() {
    let plain = UnicodeUnescape { insensitive: true, curly_brace: false };
    let (rest, c) = plain.consume(ParseState::new("\\U0041z")).as_result().unwrap();
    assert_eq!(c, 'A');
    assert_eq!(rest.input, "z");
    assert_eq!(
        unescape_u(ParseState::new("12")),
        ParseResult::Stop(StopBecause::Custom(CustomError { message: "Invalid unicode escape sequence", start: 0, end: 4 }))
    );
    assert_eq!(
        unescape_u(ParseState::new("D800")),
        ParseResult::Stop(StopBecause::Custom(CustomError { message: "Invalid unicode escape sequence", start: 0, end: 4 }))
    );
    assert_eq!(unescape_us(ParseState::new("{7A}!")).unwrap(), 'z');
}

fn digits(s: ParseState) -> ParseResult<u32> {
    s.match_str_if(|c| c.is_ascii_digit(), "INTEGER").map_inner(|v: &str| v.parse::<u32>().unwrap())
}

#[test]
fn bracket_list_round_trip() {
    let pattern = BracketPattern::new("[", "]");
    let (rest, pair) = pattern.consume(ParseState::new("[]"), whitespace, digits).as_result().unwrap();
    assert!(pair.body.is_empty());
    assert_eq!(pair.lhs.as_string(), "[");
    assert_eq!(pair.rhs.as_string(), "]");
    assert!(rest.is_empty());
    let (_, pair) = pattern.consume(ParseState::new("[1,2,3]"), whitespace, digits).as_result().unwrap();
    assert_eq!(pair.body, vec![1, 2, 3]);
    let (_, pair) = pattern.consume(ParseState::new("[ 1 , 2 , 3 , ]"), whitespace, digits).as_result().unwrap();
    assert_eq!(pair.body, vec![1, 2, 3]);
    assert_eq!(pair.rhs.start_offset(), 14);
}

#[test]
fn bracket_dangling_policy() {
    let required = BracketPattern::new("[", "]").with_dangling(true);
    assert!(required.consume(ParseState::new("[1,2,3]"), whitespace, digits).is_failure());
    assert_eq!(required.consume(ParseState::new("[1,2,3,]"), whitespace, digits).unwrap().body, vec![1, 2, 3]);
    let forbidden = BracketPattern::new("[", "]").with_dangling(false);
    assert!(forbidden.consume(ParseState::new("[1,2,]"), whitespace, digits).is_failure());
    assert_eq!(forbidden.consume(ParseState::new("[1,2]"), whitespace, digits).unwrap().body, vec![1, 2]);
    let tuple = BracketPattern::new("(", ")").with_one_tailing(true).with_delimiter(";");
    assert!(tuple.consume(ParseState::new("(1)"), whitespace, digits).is_failure());
    assert_eq!(tuple.consume(ParseState::new("(1;)"), whitespace, digits).unwrap().body, vec![1]);
    assert_eq!(tuple.consume(ParseState::new("(1;2)"), whitespace, digits).unwrap().body, vec![1, 2]);
    assert_eq!(
        BracketPattern::new("[", "]").consume(ParseState::new("1"), whitespace, digits).as_result().err(),
        Some(StopBecause::MissingString { message: "[", position: 0 })
    );
}

#[test]
fn quoted_string_escaping() {
    let (_, v) = quotation_pair_escaped(ParseState::new("'hello'"), '\'').as_result().unwrap();
    assert_eq!(v, "'hello'");
    let (rest, v) = quotation_pair_escaped(ParseState::new("'it\\'s' tail"), '\'').as_result().unwrap();
    assert_eq!(v, "'it\\'s'");
    assert_eq!(rest.input, " tail");
    assert_eq!(
        quotation_pair_escaped(ParseState::new("'hello"), '\''),
        ParseResult::Stop(StopBecause::MissingCharacterRange { start: '\'', end: '\'', position: 6 })
    );
    assert_eq!(
        quotation_pair_escaped(ParseState::new("'ab\\"), '\''),
        ParseResult::Stop(StopBecause::MissingCharacterSet { expected: "ANY", position: 4 })
    );
    assert_eq!(
        surround_pair_with_escaper(ParseState::new("x"), '"', '\\'),
        ParseResult::Stop(StopBecause::MissingCharacterRange { start: '"', end: '"', position: 0 })
    );
    assert_eq!(surround_pair_with_escaper(ParseState::new("|a^|b|"), '|', '^').unwrap(), "|a^|b|");
}

#[test]
fn quotation_pair_parts() {
    let pair = quotation_pair(ParseState::new("'hello' x"), '\'', '\'').unwrap();
    assert_eq!(pair.head.as_string(), "'");
    assert_eq!(pair.body.as_string(), "hello");
    assert_eq!(pair.tail.as_string(), "'");
    assert_eq!(pair.tail.start_offset(), 6);
    assert!(quotation_pair(ParseState::new("'hello'"), '"', '"').is_failure());
}

#[test]
fn fenced_raw_strings() {
    let pair = quotation_pair_nested(ParseState::new("```co`de```rest"), '`').unwrap();
    assert_eq!(pair.head.as_string(), "```");
    assert_eq!(pair.body.as_string(), "co`de");
    assert_eq!(pair.tail.as_string(), "```");
    assert_eq!(pair.tail.start_offset(), 8);
    let empty = quotation_pair_nested(ParseState::new("\"\" rest"), '"').unwrap();
    assert_eq!(empty.body.as_string(), "");
    assert_eq!(
        quotation_pair_nested(ParseState::new("```abc"), '`'),
        ParseResult::Stop(StopBecause::MissingCharacterRange { start: '`', end: '`', position: 3 })
    );
}

#[test]
fn surround_pattern_raw() {
    let quoted = SurroundPattern { lhs: "`", rhs: "`", lhs_name: "TEMPLATE_LHS", rhs_name: "TEMPLATE_RHS" };
    let pair = quoted.consume(ParseState::new("`12{x}34`rest text")).unwrap();
    assert_eq!(pair.head.as_string(), "`");
    assert_eq!(pair.body.as_string(), "12{x}34");
    assert_eq!(pair.tail.as_string(), "`");
    let raw = SurroundPattern { lhs: "\"\"\"", rhs: "\"\"\"", lhs_name: "RAW_LHS", rhs_name: "RAW_RHS" };
    let pair = raw.consume(ParseState::new("\"\"\"1234\"\"\"rest")).unwrap();
    assert_eq!(pair.body.as_string(), "1234");
    assert_eq!(
        raw.consume(ParseState::new("\"\"\"12")),
        ParseResult::Stop(StopBecause::MissingString { message: "RAW_RHS", position: 5 })
    );
}

#[test]
fn comments() {
    let pair = CommentLine::new("#").consume(ParseState::new("# comment hash\r text text")).unwrap();
    assert_eq!(pair.body.as_string(), " comment hash");
    let pair = CommentLine::new("//").consume(ParseState::new("// comment slash\n 123456")).unwrap();
    assert_eq!(pair.body.as_string(), " comment slash");
    assert_eq!(pair.tail.start_offset(), 16);
    let pair = CommentBlock::new("(*", "*)").consume(ParseState::new("(*  comment  *) 123456")).unwrap();
    assert_eq!(pair.body.as_string(), "  comment  ");
    let pair = CommentBlock::new("/*", "*/").consume(ParseState::new("/** comment **/ 123456")).unwrap();
    assert_eq!(pair.body.as_string(), "* comment *");
    assert_eq!(pair.tail.start_offset(), 13);
    assert_eq!(
        CommentBlock::new("/*", "*/").consume(ParseState::new("/* open")),
        ParseResult::Stop(StopBecause::MissingString { message: "*/", position: 2 })
    );
    assert!(CommentBlock::new("/*", "*/").with_nested(true).consume(ParseState::new("/* a */")).is_failure());
    assert_eq!(rest_of_line(ParseState::new("abc\ndef")).unwrap().as_string(), "abc");
}

#[test]
fn decimal_literals() {
    let (rest, v) = decimal_string(ParseState::new("3.14.15")).as_result().unwrap();
    assert_eq!(v, "3.14");
    assert_eq!(rest.input, ".15");
    assert_eq!(
        decimal_string(ParseState::new("x")),
        ParseResult::Stop(StopBecause::MissingString { message: "DECIMAL_LITERAL", position: 0 })
    );
}

static MARKS: [(&str, u32); 3] = [("0x", 16), ("0o", 8), ("0b", 2)];

#[test]
fn zero_prefixed_integers() {
    let bytes = ZeroBytePattern::new(&MARKS);
    assert_eq!(bytes.consume(ParseState::new("0x1234")).unwrap(), (16, "1234"));
    assert_eq!(
        bytes.consume(ParseState::new("0X1234")),
        ParseResult::Stop(StopBecause::MissingCharacterSet { expected: "ZeroBytePattern", position: 0 })
    );
    let bytes = bytes.with_insensitive(true).with_message("INT");
    assert_eq!(bytes.consume(ParseState::new("0X1234")).unwrap(), (16, "1234"));
    assert_eq!(bytes.consume(ParseState::new("0b1021")).unwrap(), (2, "10"));
    assert_eq!(bytes.consume(ParseState::new("0o")).unwrap(), (8, ""));
    assert!(ZeroBytePattern::parse_byte_base(ParseState::new("0x12"), "0X", 16, false).is_failure());
    assert!(ZeroBytePattern::parse_byte_base(ParseState::new("0x12"), "0X", 16, true).is_success());
}

// 'a'..='z' are 0x61..=0x7A, bits 33..=58 of the chunk of 0x40..0x7F
static LOWER: [u64; 32] = [
    0, 0x07FF_FFFE_0000_0000, 0, 0, 0, 0, 0, 0, 0, 0, 0, 0, 0, 0, 0, 0, 0, 0, 0, 0, 0, 0, 0, 0, 0, 0, 0, 0, 0, 0, 0,
    0,
];
static EMPTY8: [u8; 0] = [];
static EMPTY64: [u64; 0] = [];

fn lower_trie() -> CharactersTrie {
    CharactersTrie {
        set_name: "LOWER",
        tree1_level1: &LOWER,
        tree2_level1: &EMPTY8,
        tree2_level2: &EMPTY64,
        tree3_level1: &EMPTY8,
        tree3_level2: &EMPTY8,
        tree3_level3: &EMPTY64,
    }
}

#[test]
fn trie_membership_agrees_with_brute_force() {
    let trie = lower_trie();
    for cp in 0u32..0x2000 {
        assert_eq!(trie.contains_u32(cp), (0x61..=0x7A).contains(&cp), "code point {cp:#x}");
    }
    assert!(trie.contains('q'));
    assert!(!trie.contains('Q'));
    assert!(!trie.contains('😀'));
    assert!(!trie.contains_u32(0x110000));
    assert!(!trie.contains_u32(u32::MAX));
    let (rest, c) = trie.consume(ParseState::new("ab")).as_result().unwrap();
    assert_eq!(c, 'a');
    assert_eq!(rest.input, "b");
    assert_eq!(trie.consume(ParseState::new("A")), ParseResult::Stop(StopBecause::MustBe { message: "LOWER", position: 0 }));
}

#[test]
fn hex_digits() {
    assert_eq!(hex_to_u8(b'f'), Some(15));
    assert_eq!(hex_to_u8(b'g'), None);
    assert_eq!(hex2_to_u8(b'A', b'b'), Some(0xAB));
    assert_eq!(hex2_to_u8(b'A', b'x'), None);
    assert_eq!(hex4_to_char(b'0', b'0', b'4', b'1'), Some('A'));
    assert_eq!(hex4_to_char(b'2', b'6', b'0', b'3'), Some('☃'));
    assert_eq!(hex4_to_char(b'D', b'8', b'0', b'0'), None);
}

#[test]
fn paragraph_breaks() {
    let (rest, v) = paragraph_break(ParseState::new("\n \n  text")).as_result().unwrap();
    assert_eq!(v, "\n \n");
    assert_eq!(rest.input, "  text");
    assert_eq!(
        paragraph_break(ParseState::new(" \n text")),
        ParseResult::Stop(StopBecause::MissingString { message: "PARAGRAPH_BREAK", position: 0 })
    );
    assert_eq!(
        paragraph_break(ParseState::new("  text")),
        ParseResult::Stop(StopBecause::MissingString { message: "PARAGRAPH_LINE", position: 0 })
    );
}

#[test]
fn named_pattern() {
    let pattern = NamedPattern::new("let", "KW_LET");
    let (rest, view) = pattern.consume(ParseState::new("let x")).as_result().unwrap();
    assert_eq!(view.as_string(), "let");
    assert_eq!(view.start_offset(), 0);
    assert_eq!(rest.input, " x");
    assert_eq!(
        pattern.consume(ParseState::new("var")),
        ParseResult::Stop(StopBecause::MissingString { message: "KW_LET", position: 0 })
    );
}

#[test]
fn regex_anchored_at_cursor() {
    let re = regex::Regex::new("[0-9]+").unwrap();
    let state = ParseState::new("123abc");
    let (rest, v) = state.match_regex(&re, "NUMBER").as_result().unwrap();
    assert_eq!(v, "123");
    assert_eq!(rest.start_offset, 3);
    assert_eq!(
        ParseState::new("abc123").match_regex(&re, "NUMBER"),
        ParseResult::Stop(StopBecause::MissingString { message: "NUMBER", position: 0 })
    );
}

#[test]
fn dfa_regex_anchored_at_cursor() {
    let re = regex_automata::dfa::regex::Regex::new("[0-9]+").unwrap();
    let state = ParseState::new("42rest");
    let (rest, v) = state.match_regex_automata(&re, "NUMBER").as_result().unwrap();
    assert_eq!(v, "42");
    assert_eq!(rest.input, "rest");
    assert_eq!(
        ParseState::new("x42").match_regex_automata(&re, "NUMBER"),
        ParseResult::Stop(StopBecause::MustBe { message: "NUMBER", position: 0 })
    );
}

#[test]
fn quotation_pair_empty_body() {
    let (rest, pair) = quotation_pair(ParseState::new("''"), '\'', '\'').as_result().unwrap();
    assert_eq!(pair.head.as_range(), 0..1);
    assert_eq!(pair.body.as_string(), "");
    assert_eq!(pair.tail.as_range(), 1..2);
    assert_eq!(rest.start_offset, 2);
    let pair = quotation_pair(ParseState::new("()"), '(', ')').unwrap();
    assert_eq!(pair.body.as_string(), "");
    assert_eq!(pair.tail.start_offset(), 1);
    assert_eq!(
        quotation_pair(ParseState::new("'abc"), '\'', '\''),
        ParseResult::Stop(StopBecause::MissingString { message: "QUOTATION_RHS", position: 4 })
    );
    assert_eq!(
        quotation_pair(ParseState::new("abc'"), '\'', '\''),
        ParseResult::Stop(StopBecause::MissingString { message: "QUOTATION_LHS", position: 0 })
    );
}

#[test]
fn unicode_escape_blank_braces_rejected() {
    let braces = UnicodeUnescape::default();
    assert_eq!(
        braces.consume(ParseState::new("\\u{ }")),
        ParseResult::Stop(StopBecause::MissingString { message: "BRACE", position: 3 })
    );
    assert_eq!(
        braces.consume(ParseState::new("\\u{}")),
        ParseResult::Stop(StopBecause::MissingString { message: "BRACE", position: 3 })
    );
}

#[test]
fn bracket_exact_results() {
    let pattern = BracketPattern::new("[", "]");
    let (rest, pair) = pattern.consume(ParseState::new("[1,2,3]"), whitespace, digits).as_result().unwrap();
    assert_eq!(pair.body, vec![1, 2, 3]);
    assert_eq!(pair.rhs.start_offset(), 6);
    assert_eq!(rest.start_offset, 7);
    let required = pattern.with_dangling(true);
    let (rest, pair) = required.consume(ParseState::new("[1,2,3,]"), whitespace, digits).as_result().unwrap();
    assert_eq!(pair.body, vec![1, 2, 3]);
    assert_eq!(pair.rhs.start_offset(), 7);
    assert_eq!(rest.start_offset, 8);
    assert_eq!(
        required.consume(ParseState::new("[1,2,3]"), whitespace, digits).as_result().err(),
        Some(StopBecause::MissingString { message: ",", position: 6 })
    );
    let tuple = BracketPattern::new("(", ")").with_one_tailing(true);
    assert_eq!(
        tuple.consume(ParseState::new("(1)"), whitespace, digits).as_result().err(),
        Some(StopBecause::MissingString { message: ",", position: 2 })
    );
    let (rest, pair) = tuple.consume(ParseState::new("(1,)"), whitespace, digits).as_result().unwrap();
    assert_eq!(pair.body, vec![1]);
    assert_eq!(rest.start_offset, 4);
    assert_eq!(
        pattern.consume(ParseState::new("[1,2"), whitespace, digits).as_result().err(),
        Some(StopBecause::MissingString { message: "]", position: 4 })
    );
    assert_eq!(
        pattern.consume(ParseState::new("[x]"), whitespace, digits).as_result().err(),
        Some(StopBecause::MissingString { message: "INTEGER", position: 1 })
    );
}

#[test]
fn regex_outcomes_decided_in_the_library() {
    let state = ParseState::new("abc");
    assert_eq!(state.anchored_match(Some((0, 2)), "AB").unwrap(), "ab");
    assert_eq!(
        state.anchored_match(Some((1, 2)), "AB"),
        ParseResult::Stop(StopBecause::MissingString { message: "AB", position: 0 })
    );
    assert_eq!(
        state.anchored_match(None, "AB"),
        ParseResult::Stop(StopBecause::MissingString { message: "AB", position: 0 })
    );
    assert_eq!(state.dfa_outcome(Ok(Some((0, 1))), "A").unwrap(), "a");
    assert_eq!(
        state.dfa_outcome(Ok(None), "A"),
        ParseResult::Stop(StopBecause::MustBe { message: "A", position: 0 })
    );
    assert_eq!(
        state.dfa_outcome(Err(pex::regexp::SearchFailure::Quit { offset: 2 }), "A"),
        ParseResult::Stop(StopBecause::Custom(CustomError { message: "regex match quit", start: 2, end: 2 }))
    );
    let mut p = pex::position::Position::from_start("abc");
    assert!(!p.advance_match(Some((1, 2))));
    assert!(p.advance_match(Some((0, 2))));
    assert_eq!(p.offset(), 2);
}

#[test]
fn repeating_a_run_matcher_gives_one_value() {
    let state = ParseState::new("aaab");
    let (rest, runs) = state.match_repeats(|s: ParseState| s.match_str_if(|c| c == 'a', "A")).as_result().unwrap();
    assert_eq!(runs, vec!["aaa"]);
    assert_eq!(rest.start_offset, 3);
}
