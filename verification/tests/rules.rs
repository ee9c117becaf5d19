use amigo::rules::{
    class_contains, match_category, match_literal, match_number, match_symbol, match_whitespace,
    scan_run, space_char, try_match, Category, CharClass,
};

#[test]
fn symbol_takes_letters_digits_underscores_and_hyphens() {
    assert_eq!(match_symbol("foo123"), Some(6));
    assert_eq!(match_symbol("foo-bar_baz 1"), Some(11));
    assert_eq!(match_symbol("_"), Some(1));
    assert_eq!(match_symbol("x"), Some(1));
}

#[test]
fn symbol_takes_one_closing_character() {
    assert_eq!(match_symbol("set!"), Some(4));
    assert_eq!(match_symbol("nil?"), Some(4));
    assert_eq!(match_symbol("a!!"), Some(2));
    assert_eq!(match_symbol("a!b"), Some(2));
    assert_eq!(match_symbol("a_!"), Some(3));
    assert_eq!(match_symbol("a_"), Some(2));
}

#[test]
fn symbol_needs_a_letter_or_underscore_first() {
    assert_eq!(match_symbol(""), None);
    assert_eq!(match_symbol("1a"), None);
    assert_eq!(match_symbol("-a"), None);
    assert_eq!(match_symbol("!"), None);
    assert_eq!(match_symbol(" a"), None);
}

#[test]
fn symbol_is_ascii_only() {
    assert_eq!(match_symbol("\u{e9}t\u{e9}"), None);
    assert_eq!(match_symbol("caf\u{e9}"), Some(3));
}

#[test]
fn number_takes_digits_and_one_fractional_digit() {
    assert_eq!(match_number("0"), Some(1));
    assert_eq!(match_number("123"), Some(3));
    assert_eq!(match_number("-42"), Some(3));
    assert_eq!(match_number("3.14"), Some(3));
    assert_eq!(match_number("-12.5x"), Some(5));
    assert_eq!(match_number("12."), Some(2));
    assert_eq!(match_number("1.x"), Some(1));
    assert_eq!(match_number("7abc"), Some(1));
}

#[test]
fn number_needs_a_digit() {
    assert_eq!(match_number(""), None);
    assert_eq!(match_number("-"), None);
    assert_eq!(match_number("--1"), None);
    assert_eq!(match_number("-.5"), None);
    assert_eq!(match_number(".5"), None);
    assert_eq!(match_number("a1"), None);
}

#[test]
fn number_digits_are_ascii_only() {
    assert_eq!(match_number("\u{0663}"), None);
    assert_eq!(match_number("1\u{0663}"), Some(1));
}

#[test]
fn literal_takes_its_character_only() {
    assert_eq!(match_literal("(a", '('), Some(1));
    assert_eq!(match_literal("((", '('), Some(1));
    assert_eq!(match_literal(")", ')'), Some(1));
    assert_eq!(match_literal(")", '('), None);
    assert_eq!(match_literal("", '('), None);
    assert_eq!(match_literal("a(", '('), None);
}

#[test]
fn whitespace_takes_the_whole_run() {
    assert_eq!(match_whitespace("   b"), Some(3));
    assert_eq!(match_whitespace(" \t\r\n"), Some(4));
    assert_eq!(match_whitespace("\u{a0}\u{3000} x"), Some(3));
    assert_eq!(match_whitespace("x "), None);
    assert_eq!(match_whitespace(""), None);
}

#[test]
fn space_characters_are_those_of_the_unicode_property() {
    let spaces = [
        '\u{9}', '\u{a}', '\u{b}', '\u{c}', '\u{d}', ' ', '\u{85}', '\u{a0}', '\u{1680}',
        '\u{2000}', '\u{2005}', '\u{200a}', '\u{2028}', '\u{2029}', '\u{202f}', '\u{205f}',
        '\u{3000}',
    ];
    for c in spaces {
        assert!(space_char(c));
        assert!(c.is_whitespace());
    }
    for c in ['\u{8}', '\u{e}', 'a', '\u{200b}', '\u{180e}', '\u{feff}', '\u{2060}'] {
        assert!(!space_char(c));
        assert!(!c.is_whitespace());
    }
}

#[test]
fn classes_hold_their_characters() {
    assert!(class_contains(CharClass::SymbolBody, '-'));
    assert!(class_contains(CharClass::SymbolBody, 'Z'));
    assert!(class_contains(CharClass::SymbolBody, '0'));
    assert!(!class_contains(CharClass::SymbolBody, '!'));
    assert!(class_contains(CharClass::Digit, '9'));
    assert!(!class_contains(CharClass::Digit, 'a'));
    assert!(class_contains(CharClass::Space, '\t'));
    assert!(!class_contains(CharClass::Space, '_'));
}

#[test]
fn run_ends_at_the_first_character_outside_the_class() {
    assert_eq!(scan_run("ab12 c", 6, 0, CharClass::SymbolBody), 4);
    assert_eq!(scan_run("ab12 c", 6, 2, CharClass::Digit), 4);
    assert_eq!(scan_run("ab12 c", 6, 0, CharClass::Digit), 0);
    assert_eq!(scan_run("123", 3, 1, CharClass::Digit), 3);
    assert_eq!(scan_run("123", 3, 3, CharClass::Digit), 3);
}

#[test]
fn each_category_has_its_rule() {
    assert_eq!(match_category(Category::Symbol, "ab 1"), Some(2));
    assert_eq!(match_category(Category::Number, "ab 1"), None);
    assert_eq!(match_category(Category::Number, "15)"), Some(2));
    assert_eq!(match_category(Category::LeftParen, "(("), Some(1));
    assert_eq!(match_category(Category::RightParen, "(("), None);
    assert_eq!(match_category(Category::RightParen, "))"), Some(1));
    assert_eq!(match_category(Category::Whitespace, "  a"), Some(2));
}

#[test]
fn rule_set_reports_the_first_rule_that_matches() {
    assert_eq!(try_match("foo123 "), Some((Category::Symbol, 6)));
    assert_eq!(try_match("-3.25"), Some((Category::Number, 4)));
    assert_eq!(try_match("(a)"), Some((Category::LeftParen, 1)));
    assert_eq!(try_match(")"), Some((Category::RightParen, 1)));
    assert_eq!(try_match("\n\nq"), Some((Category::Whitespace, 2)));
    assert_eq!(try_match("-"), None);
    assert_eq!(try_match("-x"), None);
    assert_eq!(try_match(".5"), None);
    assert_eq!(try_match("!"), None);
    assert_eq!(try_match(""), None);
}

#[test]
fn every_character_is_classed_as_std_classes_it() {
    for c in '\0'..=char::MAX {
        assert_eq!(space_char(c), c.is_whitespace(), "{:?}", c);
        assert_eq!(class_contains(CharClass::Digit, c), c.is_ascii_digit(), "{:?}", c);
        assert_eq!(
            class_contains(CharClass::SymbolBody, c),
            c.is_ascii_alphanumeric() || c == '_' || c == '-',
            "{:?}",
            c
        );
    }
}
