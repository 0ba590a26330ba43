use toy_engine::assoc::StrMap;
use toy_engine::css::less_specific;
use toy_engine::text::{
    chars_of, digit_of, hex_of, is_digit, is_name_char, is_whitespace, str_eq, string_of, CharClass,
    Cursor, ParseError, ParseErrorKind,
};

#[test]
fn strings_compare_by_content() {
    assert!(str_eq("", ""));
    assert!(str_eq("héllo", "héllo"));
    assert!(!str_eq("hello", "hellp"));
    assert!(!str_eq("hello", "hell"));
}

#[test]
fn characters_and_back() {
    let v = chars_of("aé<");
    assert_eq!(v, vec!['a', 'é', '<']);
    assert_eq!(string_of(&v, 1, 3), "é<");
    assert_eq!(string_of(&v, 2, 2), "");
}

#[test]
fn character_classes() {
    for c in [' ', '\t', '\n', '\r', '\u{b}', '\u{c}', '\u{85}', '\u{a0}', '\u{2003}', '\u{3000}'] {
        assert!(is_whitespace(c));
        assert!(c.is_whitespace());
    }
    for c in ['a', '<', '\u{200b}', '\u{1f}'] {
        assert!(!is_whitespace(c));
        assert!(!c.is_whitespace());
    }
    assert!(is_name_char('a') && is_name_char('Z') && is_name_char('5'));
    assert!(!is_name_char('-') && !is_name_char('_') && !is_name_char('é'));
    assert!(CharClass::Identifier.test('-') && CharClass::Identifier.test('_'));
    assert!(!CharClass::Identifier.test('.'));
    assert!(CharClass::Except('x').test('y') && !CharClass::Except('x').test('x'));
    assert!(is_digit('0') && is_digit('9') && !is_digit('a'));
    assert_eq!(digit_of('7'), 7);
    assert_eq!(hex_of('f'), Some(15));
    assert_eq!(hex_of('A'), Some(10));
    assert_eq!(hex_of('9'), Some(9));
    assert_eq!(hex_of('g'), None);
}

#[test]
fn cursor_walks_the_input() {
    let mut c = Cursor::new("ab  <é");
    assert!(!c.eof());
    assert_eq!(c.next_char(), Some('a'));
    assert!(c.starts_with("ab"));
    assert!(!c.starts_with("b"));
    assert!(c.starts_with(""));
    assert_eq!(c.consume_while(CharClass::Name), "ab");
    assert_eq!(c.pos, 2);
    c.consume_whitespace();
    assert_eq!(c.pos, 4);
    assert_eq!(
        c.expect("<<"),
        Err(ParseError { kind: ParseErrorKind::ExpectedLiteral, offset: 4 })
    );
    assert_eq!(c.pos, 4);
    assert_eq!(c.expect("<"), Ok(()));
    assert_eq!(
        c.expect_char('x'),
        Err(ParseError { kind: ParseErrorKind::ExpectedLiteral, offset: 5 })
    );
    assert_eq!(c.consume_char(), Some('é'));
    assert!(c.eof());
    assert_eq!(c.consume_char(), None);
    assert_eq!(c.next_char(), None);
    assert_eq!(c.consume_while(CharClass::Name), "");
    assert_eq!(
        c.error(ParseErrorKind::UnexpectedCharacter),
        ParseError { kind: ParseErrorKind::UnexpectedCharacter, offset: 7 }
    );
    assert_eq!(c.error_at(5, ParseErrorKind::MalformedColor).offset, 5);
}

#[test]
fn byte_offsets_of_wide_characters() {
    let c = Cursor::new("a\u{e9}\u{20ac}\u{1f600}z");
    let offsets: Vec<usize> =
        (0..=5).map(|i| c.error_at(i, ParseErrorKind::UnexpectedCharacter).offset).collect();
    assert_eq!(offsets, vec![0, 1, 3, 6, 10, 11]);
}

#[test]
fn map_binds_each_key_once() {
    let mut m: StrMap<String> = StrMap::new();
    assert_eq!(m.len(), 0);
    assert_eq!(m.get("a"), None);
    m.insert("a".to_string(), "1".to_string());
    m.insert("b".to_string(), "2".to_string());
    m.insert("a".to_string(), "3".to_string());
    assert_eq!(m.len(), 2);
    assert_eq!(m.get("a").unwrap(), "3");
    assert_eq!(m.get("b").unwrap(), "2");
    assert!(m.contains_key("b"));
    assert!(!m.contains_key("c"));
}

#[test]
fn specificity_is_compared_component_by_component() {
    assert!(less_specific((0, 9, 9), (1, 0, 0)));
    assert!(less_specific((1, 0, 9), (1, 1, 0)));
    assert!(less_specific((1, 1, 0), (1, 1, 1)));
    assert!(!less_specific((1, 1, 1), (1, 1, 1)));
    assert!(!less_specific((1, 0, 0), (0, 9, 9)));
}
