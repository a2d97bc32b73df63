use pex::position::Position;

#[test]
fn position_on_boundaries_only() {
    let heart = "💖";
    assert!(Position::new(heart, 1).is_none());
    assert!(Position::new(heart, 4).is_some());
    assert!(Position::new(heart, 5).is_none());
    assert_eq!(Position::from_start("").offset(), 0);
}

#[test]
fn line_and_column() {
    let text = "ab\ncd\r\nef\rg";
    assert_eq!(Position::new(text, 0).unwrap().line_column(), (1, 1));
    assert_eq!(Position::new(text, 2).unwrap().line_column(), (1, 3));
    assert_eq!(Position::new(text, 3).unwrap().line_column(), (2, 1));
    assert_eq!(Position::new(text, 7).unwrap().line_column(), (3, 1));
    assert_eq!(Position::new(text, 11).unwrap().line_column(), (3, 5));
    assert_eq!(Position::new("\na", 2).unwrap().line_column(), (2, 2));
}

#[test]
fn line_of_position() {
    let text = "first\nsecond\nthird";
    let p = Position::new(text, 8).unwrap();
    assert_eq!(p.find_line_start(), 6);
    assert_eq!(p.find_line_end(), 13);
    assert_eq!(p.line_of(), "second\n");
    assert_eq!(Position::new("\na", 2).unwrap().line_of(), "a");
    assert_eq!(Position::new(text, 0).unwrap().line_of(), "first\n");
}

#[test]
fn position_matching() {
    let mut p = Position::from_start("héllo\nworld");
    assert!(p.match_soi());
    assert!(p.match_char('h'));
    assert!(p.match_string("hé"));
    assert_eq!(p.offset(), 3);
    assert!(!p.match_string("x"));
    assert!(p.match_insensitive("LL"));
    assert!(p.match_range('a'..'z'));
    assert!(!p.match_range('a'..'b'));
    assert!(p.match_rol());
    assert_eq!(p.offset(), 6);
    assert!(p.match_char_by(|c| c == '\n'));
    assert!(p.skip(5));
    assert!(p.match_eoi());
    assert!(!p.skip(1));
    assert!(p.skip_back(5));
    assert_eq!(p.offset(), 7);
    assert!(!p.skip_back(100));
    let re = regex::Regex::new("w[a-z]+").unwrap();
    assert!(p.match_regex(&re));
    assert!(p.match_eoi());
}
