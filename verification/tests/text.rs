use saba_core::text::{
    char_ascii_lower, char_in_class, char_is_ascii_alnum, char_is_ascii_alpha,
    char_is_ascii_digit, char_is_ascii_upper, char_is_whitespace, chars_of, text_of, CharClass,
};

fn every_char() -> impl Iterator<Item = char> {
    (0..=0x10FFFFu32).filter_map(char::from_u32)
}

#[test]
fn the_classes_are_those_of_the_standard_library() {
    for c in every_char() {
        assert_eq!(char_is_whitespace(c), c.is_whitespace(), "{:?}", c);
        assert_eq!(char_is_ascii_alpha(c), c.is_ascii_alphabetic(), "{:?}", c);
        assert_eq!(char_is_ascii_digit(c), c.is_ascii_digit(), "{:?}", c);
        assert_eq!(char_is_ascii_alnum(c), c.is_ascii_alphanumeric(), "{:?}", c);
        assert_eq!(char_is_ascii_upper(c), c.is_ascii_uppercase(), "{:?}", c);
        assert_eq!(char_ascii_lower(c), c.to_ascii_lowercase(), "{:?}", c);
    }
}

#[test]
fn a_class_holds_what_it_names() {
    assert!(char_in_class(CharClass::Ident, 'a'));
    assert!(char_in_class(CharClass::Ident, 'Z'));
    assert!(char_in_class(CharClass::Ident, '7'));
    assert!(char_in_class(CharClass::Ident, '-'));
    assert!(char_in_class(CharClass::Ident, '_'));
    assert!(!char_in_class(CharClass::Ident, '#'));
    assert!(!char_in_class(CharClass::Ident, ' '));
    assert!(char_in_class(CharClass::Digit, '0'));
    assert!(!char_in_class(CharClass::Digit, 'a'));
    assert!(char_in_class(CharClass::Whitespace, '\n'));
    assert!(!char_in_class(CharClass::Whitespace, 'x'));
    assert!(char_in_class(CharClass::Not('/'), 'x'));
    assert!(!char_in_class(CharClass::Not('/'), '/'));
    assert!(char_in_class(CharClass::Only('/'), '/'));
    assert!(!char_in_class(CharClass::Only('/'), 'x'));
}

#[test]
fn a_string_and_its_characters() {
    assert_eq!(chars_of("aé\u{3000}z"), vec!['a', 'é', '\u{3000}', 'z']);
    assert_eq!(chars_of(""), Vec::<char>::new());
    assert_eq!(text_of("abc"), "abc");
}
