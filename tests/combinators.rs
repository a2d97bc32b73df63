use pex::builtin::find_str;
use pex::helpers::{make_from_str, whitespace};
use pex::{ChoiceHelper, CustomError, Parse, ParseAdvance, ParseResult, ParseState, StopBecause, StringView};

#[test]
fn match_char_advances_by_utf8_width() {
    let state = ParseState::new("é1");
    match state.match_char('é') {
        ParseResult::Pending(next, c) => {
            assert_eq!(c, 'é');
            assert_eq!(next.start_offset, 2);
            assert_eq!(next.input, "1");
        }
        ParseResult::Stop(e) => panic!("{:?}", e),
    }
}

#[test]
fn match_char_failure_reports_range() {
    let state = ParseState::new("abc");
    let r = state.match_char('x');
    assert_eq!(r, ParseResult::Stop(StopBecause::MissingCharacterRange { start: 'x', end: 'x', position: 0 }));
}

#[test]
fn offset_conservation_over_a_chain() {
    let state = ParseState::new("héllo wörld");
    let (s1, v1) = state.match_str("hé").as_result().unwrap();
    assert_eq!(v1, "hé");
    assert_eq!(s1.start_offset, 3);
    let (s2, v2) = s1.match_str_if(|c| c != ' ', "WORD").as_result().unwrap();
    assert_eq!(v2, "llo");
    assert_eq!(s2.start_offset, 6);
    assert_eq!(s2.start_offset + s2.input.len(), "héllo wörld".len());
    assert_eq!(s2.end_offset(), 13);
}

#[test]
fn match_char_range_and_any() {
    let state = ParseState::new("q");
    assert!(state.match_char_range('a', 'z').is_success());
    assert_eq!(
        state.match_char_range('0', '9'),
        ParseResult::Stop(StopBecause::MissingCharacterRange { start: '0', end: '9', position: 0 })
    );
    assert_eq!(state.match_char_any().unwrap(), 'q');
    let empty = ParseState::new("");
    assert_eq!(empty.match_char_any(), ParseResult::Stop(StopBecause::MustBe { message: "ANY", position: 0 }));
}

#[test]
fn match_eof_only_at_end() {
    assert!(ParseState::new("").match_eof().is_success());
    assert_eq!(ParseState::new("x").match_eof(), ParseResult::Stop(StopBecause::ExpectEOF { position: 0 }));
}

#[test]
fn match_str_and_insensitive() {
    let state = ParseState::new("Hello world");
    assert_eq!(state.match_str("hello"), ParseResult::Stop(StopBecause::MissingString { message: "hello", position: 0 }));
    let (rest, v) = state.match_str_insensitive("hello").as_result().unwrap();
    assert_eq!(v, "Hello");
    assert_eq!(rest.input, " world");
    assert_eq!(rest.start_offset, 5);
}

#[test]
fn match_str_if_never_succeeds_empty() {
    let state = ParseState::new("abc");
    assert_eq!(
        state.match_str_if(|c| c.is_ascii_digit(), "DIGITS"),
        ParseResult::Stop(StopBecause::MissingString { message: "DIGITS", position: 0 })
    );
    assert_eq!(
        state.match_str_until(|c| c == 'a', "UNTIL_A"),
        ParseResult::Stop(StopBecause::MissingString { message: "UNTIL_A", position: 0 })
    );
    let (rest, v) = state.match_str_until(|c| c == 'c', "UNTIL_C").as_result().unwrap();
    assert_eq!(v, "ab");
    assert_eq!(rest.input, "c");
}

#[test]
fn repeats_of_a_run_matcher_terminate() {
    let state = ParseState::new("aa bb  cc!");
    let r = state.match_repeats(|s: ParseState| {
        let s = s.skip(whitespace);
        s.match_str_if(|c| c.is_ascii_alphabetic(), "WORD")
    });
    let (rest, words) = r.as_result().unwrap();
    assert_eq!(words, vec!["aa", "bb", "cc"]);
    assert_eq!(rest.input, "!");
}

#[test]
fn repeat_m_n_bounds() {
    let state = ParseState::new("aaaa");
    let (rest, v) = state.match_repeat_m_n(1, 3, |s: ParseState| s.match_char('a')).as_result().unwrap();
    assert_eq!(v.len(), 3);
    assert_eq!(rest.input, "a");
    let state = ParseState::new("ab");
    assert_eq!(
        state.match_repeat_m_n(2, 5, |s: ParseState| s.match_char('a')),
        ParseResult::Stop(StopBecause::ExpectRepeats { min: 2, current: 1, position: 0 })
    );
}

#[test]
fn optional_and_skip_keep_state_on_failure() {
    let state = ParseState::new("xyz");
    let (rest, v) = state.match_optional(|s: ParseState| s.match_char('a')).as_result().unwrap();
    assert_eq!(v, None);
    assert_eq!(rest, state);
    let (rest, v) = state.match_optional(|s: ParseState| s.match_char('x')).as_result().unwrap();
    assert_eq!(v, Some('x'));
    assert_eq!(rest.start_offset, 1);
    assert_eq!(state.skip(|s: ParseState| s.match_char('a')), state);
    assert_eq!(state.skip(|s: ParseState| s.match_char('x')).input, "yz");
}

#[test]
fn lookahead_is_zero_width() {
    let state = ParseState::new("abc");
    let (rest, _) = state.match_positive(|s: ParseState| s.match_str("ab"), "AB").as_result().unwrap();
    assert_eq!(rest, state);
    assert_eq!(
        state.match_positive(|s: ParseState| s.match_str("x"), "X"),
        ParseResult::Stop(StopBecause::MustBe { message: "X", position: 0 })
    );
    let (rest, _) = state.match_negative(|s: ParseState| s.match_str("x"), "X").as_result().unwrap();
    assert_eq!(rest, state);
    assert_eq!(
        state.match_negative(|s: ParseState| s.match_str("ab"), "AB"),
        ParseResult::Stop(StopBecause::ShouldNotBe { message: "AB", position: 0 })
    );
}

#[test]
fn choice_takes_first_success_not_longest() {
    let state = ParseState::new("abc");
    let r = state
        .begin_choice()
        .alternative(|s: ParseState| s.match_str("a"))
        .alternative(|s: ParseState| s.match_str("abc"))
        .end_choice();
    let (rest, v) = r.as_result().unwrap();
    assert_eq!(v, "a");
    assert_eq!(rest.input, "bc");
}

#[test]
fn choice_reports_last_failure() {
    let state = ParseState::new("abc");
    let r: ParseResult<&str> = ChoiceHelper::new(state)
        .alternative(|s: ParseState| s.match_str("x"))
        .alternative(|s: ParseState| s.match_str("y"))
        .end_choice();
    assert_eq!(r, ParseResult::Stop(StopBecause::MissingString { message: "y", position: 0 }));
    let empty: ParseResult<&str> = ChoiceHelper::new(state).end_choice();
    assert_eq!(empty, ParseResult::Stop(StopBecause::Uninitialized));
}

#[test]
fn choose_from_converts() {
    let state = ParseState::new("7");
    let r: ParseResult<u32> = state
        .begin_choice()
        .choose_from(|s: ParseState| s.match_char_range('0', '9').map_value(7u8))
        .end_choice();
    assert_eq!(r.unwrap(), 7u32);
}

#[test]
fn result_maps() {
    let state = ParseState::new("hello");
    let r = state.finish(());
    assert_eq!(r.map_inner(|_| 1), ParseResult::Pending(state, 1));
    assert_eq!(state.finish(()).map_value(2), ParseResult::Pending(state, 2));
    let r: ParseResult<u64> = state.finish(3u32).map_into();
    assert_eq!(r, ParseResult::Pending(state, 3u64));
    assert_eq!(state.finish(()).as_result(), Ok((state, ())));
    let stop: ParseResult<()> = ParseResult::Stop(StopBecause::Uninitialized);
    assert!(stop.is_failure());
    assert!(!stop.is_success());
    assert_eq!(stop.as_result(), Err(StopBecause::Uninitialized));
    let mut seen = 0usize;
    let _ = state.finish(()).dispatch(|s| seen = s.start_offset + 10, |_| {});
    assert_eq!(seen, 10);
}

#[test]
fn stop_reason_ranges() {
    assert_eq!(StopBecause::MissingString { message: "abc", position: 3 }.range(), 3..6);
    assert_eq!(StopBecause::ExpectEOF { position: 4 }.range(), 4..5);
    assert_eq!(StopBecause::Uninitialized.range(), 0..0);
    let custom = CustomError { message: "m", start: 2, end: 9 };
    assert_eq!(StopBecause::from(custom).range(), 2..9);
    assert_eq!(custom.range(), 2..9);
    assert_eq!(StopBecause::default(), StopBecause::Uninitialized);
}

#[test]
fn stop_reason_constructors() {
    assert_eq!(StopBecause::must_be::<()>("m", 1), Err(StopBecause::MustBe { message: "m", position: 1 }));
    assert_eq!(StopBecause::expect_eof::<()>(2), Err(StopBecause::ExpectEOF { position: 2 }));
    assert_eq!(
        StopBecause::missing_character::<()>('a', 3),
        Err(StopBecause::MissingCharacterRange { start: 'a', end: 'a', position: 3 })
    );
    assert_eq!(
        StopBecause::missing_character_range::<()>('a', 'z', 3),
        Err(StopBecause::MissingCharacterRange { start: 'a', end: 'z', position: 3 })
    );
    assert_eq!(
        StopBecause::missing_character_set::<()>("SET", 4),
        Err(StopBecause::MissingCharacterSet { expected: "SET", position: 4 })
    );
    assert_eq!(
        StopBecause::missing_string::<()>("s", 5),
        Err(StopBecause::MissingString { message: "s", position: 5 })
    );
    assert_eq!(
        StopBecause::custom_error::<()>("c", 6, 8),
        Err(StopBecause::Custom(CustomError { message: "c", start: 6, end: 8 }))
    );
}

#[test]
fn advance_and_views() {
    let state = ParseState::new("añb");
    let (rest, v) = state.advance_view(3).as_result().unwrap();
    assert_eq!(v, "añ");
    assert_eq!(rest.input, "b");
    assert_eq!(state.advance(1).start_offset, 1);
    assert_eq!(ParseAdvance::Character('ñ').as_offset(), 2);
    assert_eq!(ParseAdvance::String("añ").as_offset(), 3);
    assert_eq!(ParseAdvance::from(5usize).as_offset(), 5);
    let view = StringView::new("añ", 4);
    assert_eq!(view.start_offset(), 4);
    assert_eq!(view.end_offset(), 7);
    assert_eq!(view.as_range(), 4..7);
    assert_eq!(view.as_string(), "añ".to_string());
}

#[test]
fn make_from_str_requires_full_input() {
    let r = make_from_str(ParseState::new("abc"), |s: ParseState| s.match_str("abc"));
    assert_eq!(r, Ok("abc"));
    let r = make_from_str(ParseState::new("abcd"), |s: ParseState| s.match_str("abc"));
    assert_eq!(r, Err(StopBecause::ExpectEOF { position: 3 }));
    let r = make_from_str(ParseState::new("x"), |s: ParseState| s.match_str("abc"));
    assert_eq!(r, Err(StopBecause::MissingString { message: "abc", position: 0 }));
}

#[test]
fn whitespace_runs() {
    let state = ParseState::new("  \n\u{3000}a");
    let (rest, v) = whitespace(state).as_result().unwrap();
    assert_eq!(v, "  \n\u{3000}");
    assert_eq!(rest.input, "a");
    assert_eq!(
        whitespace(ParseState::new("a")),
        ParseResult::Stop(StopBecause::MissingCharacterRange { start: ' ', end: ' ', position: 0 })
    );
    let (rest, _) = pex::helpers::ascii_whitespace(ParseState::new(" \t\u{3000}")).as_result().unwrap();
    assert_eq!(rest.input, "\u{3000}");
}

#[test]
fn find_str_first_occurrence() {
    assert_eq!(find_str("aébcbc", "bc"), Some((2, 3)));
    assert_eq!(find_str("abc", "x"), None);
    assert_eq!(find_str("abc", ""), Some((0, 0)));
}

#[test]
fn function_forms() {
    let state = ParseState::new("ab");
    let a = pex::helpers::char('a');
    let b = pex::helpers::str("b");
    let (s1, _) = a(state).as_result().unwrap();
    let (s2, v) = b(s1).as_result().unwrap();
    assert_eq!(v, "b");
    assert!(s2.is_empty());
    let omitted = pex::helpers::omit(|s: ParseState| s.match_char('a'));
    assert_eq!(omitted(state).unwrap(), ());
    let opt = pex::helpers::optional(|s: ParseState| s.match_char('z'));
    assert_eq!(opt(state), ParseResult::Pending(state, None));
}

#[test]
fn stop_reason_messages() {
    assert_eq!(StopBecause::Uninitialized.message(), "Uninitialized");
    assert_eq!(StopBecause::ExpectEOF { position: 1 }.message(), "Expect end of file");
    assert_eq!(
        StopBecause::ExpectRepeats { min: 12, current: 0, position: 0 }.message(),
        "Expect at least 12 repeats (got 0)"
    );
    assert_eq!(
        StopBecause::MissingCharacterRange { start: 'a', end: 'a', position: 0 }.message(),
        "Missing character 'a'"
    );
    assert_eq!(
        StopBecause::MissingCharacterRange { start: 'a', end: 'z', position: 0 }.message(),
        "Expect character in range 'a'..='z'"
    );
    assert_eq!(
        StopBecause::MissingCharacterSet { expected: "HEX", position: 0 }.message(),
        "Missing character set `HEX`"
    );
    assert_eq!(StopBecause::MissingString { message: "let", position: 0 }.message(), "Missing string 'let'");
    assert_eq!(StopBecause::MustBe { message: "X", position: 0 }.message(), "Must be `X`");
    assert_eq!(StopBecause::ShouldNotBe { message: "X", position: 0 }.message(), "Should not be `X`");
    assert_eq!(
        StopBecause::Custom(CustomError { message: "oops", start: 0, end: 1 }).message(),
        "Custom error: oops"
    );
}

struct Word {
    start: usize,
    end: usize,
}

impl Parse for Word {
    fn parse(input: ParseState) -> ParseResult<Self> {
        let start = input.start_offset;
        match input.match_str_if(|c| c.is_alphabetic(), "WORD") {
            ParseResult::Pending(s, _) => s.finish(Word { start, end: s.start_offset }),
            ParseResult::Stop(e) => ParseResult::Stop(e),
        }
    }

    fn get_range(&self) -> core::ops::Range<usize> {
        self.start..self.end
    }
}

#[test]
fn parse_trait_defaults() {
    let word = Word::parse_text("héllo world").unwrap();
    assert_eq!(word.get_range(), 0..6);
    assert_eq!(word.get_range32(), 0u32..6u32);
}

#[test]
fn state_accessors() {
    let mut state = ParseState::new("ab");
    assert_eq!(state.get_character(), Some('a'));
    assert!(!state.is_empty());
    assert_eq!(state.end_offset(), 2);
    assert_eq!(state.get_error(), StopBecause::Uninitialized);
    state.set_error(StopBecause::ExpectEOF { position: 1 });
    assert_eq!(state.get_error(), StopBecause::ExpectEOF { position: 1 });
    assert_eq!(ParseState::new("").get_character(), None);
    let r = state.match_fn(|s: ParseState| s.match_char('a'));
    let (rest, c) = r.as_result().unwrap();
    assert_eq!(c, 'a');
    assert_eq!(rest.stop_reason, Some(StopBecause::ExpectEOF { position: 1 }));
}

#[test]
fn match_str_pattern_reports_its_name() {
    let state = ParseState::new("fn main");
    assert_eq!(state.match_str_pattern("fn", "KW_FN").unwrap(), "fn");
    assert_eq!(
        state.match_str_pattern("let", "KW_LET"),
        ParseResult::Stop(StopBecause::MissingString { message: "KW_LET", position: 0 })
    );
}

#[test]
fn multibyte_failure_positions() {
    let state = ParseState::new("日本語");
    let (rest, _) = state.match_char('日').as_result().unwrap();
    assert_eq!(
        rest.match_char('x'),
        ParseResult::Stop(StopBecause::MissingCharacterRange { start: 'x', end: 'x', position: 3 })
    );
    let (end, v) = rest.match_str_if(|c| c != 'x', "ANY").as_result().unwrap();
    assert_eq!(v, "本語");
    assert_eq!(end.start_offset, 9);
    assert!(end.match_eof().is_success());
}
