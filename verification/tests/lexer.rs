use amigo::lexer::{ColumnReset, Lexer};
use amigo::rules::Category;
use amigo::token::Token;

fn token(category: Category, text: &str, column: u32) -> Token {
    Token { category, text: text.to_string(), line: 1, column, length: text.chars().count() }
}

fn drain(pieces: &[&str]) -> (Vec<Token>, Lexer) {
    let mut lexer = Lexer::new();
    for piece in pieces {
        assert!(lexer.can_append(piece));
        lexer.append(piece);
    }
    let tokens = lexer.drain_tokens();
    (tokens, lexer)
}

fn texts(tokens: &[Token]) -> String {
    let mut all = String::new();
    for t in tokens {
        all.push_str(&t.text);
    }
    all
}

#[test]
fn new_lexer_is_empty_at_column_one() {
    let lexer = Lexer::new();
    assert_eq!(lexer.buffer(), "");
    assert_eq!(lexer.column(), 1);
    assert_eq!(lexer.column_reset(), ColumnReset::PerLine);
    let lexer = Lexer::with_column_reset(ColumnReset::Cumulative);
    assert_eq!(lexer.buffer(), "");
    assert_eq!(lexer.column(), 1);
    assert_eq!(lexer.column_reset(), ColumnReset::Cumulative);
}

#[test]
fn append_grows_the_buffer_and_yields_nothing() {
    let mut lexer = Lexer::new();
    lexer.append("foo ");
    assert_eq!(lexer.buffer(), "foo ");
    lexer.append("bar");
    assert_eq!(lexer.buffer(), "foo bar");
    assert_eq!(lexer.column(), 1);
}

#[test]
fn take_removes_a_prefix_and_advances_the_column() {
    let mut lexer = Lexer::new();
    lexer.append("hello");
    assert_eq!(lexer.take(2), "he");
    assert_eq!(lexer.buffer(), "llo");
    assert_eq!(lexer.column(), 3);
    assert_eq!(lexer.take(0), "");
    assert_eq!(lexer.buffer(), "llo");
    assert_eq!(lexer.column(), 3);
    assert_eq!(lexer.take(3), "llo");
    assert_eq!(lexer.buffer(), "");
    assert_eq!(lexer.column(), 6);
}

#[test]
fn take_counts_characters_not_bytes() {
    let mut lexer = Lexer::new();
    lexer.append("\u{3000}\u{e9}x");
    assert_eq!(lexer.take(2), "\u{3000}\u{e9}");
    assert_eq!(lexer.buffer(), "x");
    assert_eq!(lexer.column(), 3);
}

#[test]
fn bare_minus_is_dropped() {
    let (tokens, lexer) = drain(&["-"]);
    assert!(tokens.is_empty());
    assert_eq!(lexer.buffer(), "");
    assert_eq!(lexer.column(), 1);
}

#[test]
fn symbol_swallows_following_digits() {
    let (tokens, lexer) = drain(&["foo123"]);
    assert_eq!(tokens, vec![token(Category::Symbol, "foo123", 1)]);
    assert_eq!(lexer.buffer(), "");
    assert_eq!(lexer.column(), 7);
}

#[test]
fn number_stops_after_one_fractional_digit() {
    let (tokens, lexer) = drain(&["3.14"]);
    assert_eq!(tokens[0], token(Category::Number, "3.1", 1));
    assert_eq!(tokens[0].length, 3);
    assert_eq!(lexer.buffer(), "");
    assert_eq!(tokens[1..], [token(Category::Number, "4", 4)]);
}

#[test]
fn number_followed_by_a_point_drops_the_rest() {
    let (tokens, lexer) = drain(&["3.1.4"]);
    assert_eq!(tokens, vec![token(Category::Number, "3.1", 1)]);
    assert_eq!(lexer.buffer(), "");
    assert_eq!(lexer.column(), 4);
}

#[test]
fn whitespace_is_one_token() {
    let (tokens, lexer) = drain(&["a   b"]);
    assert_eq!(
        tokens,
        vec![
            token(Category::Symbol, "a", 1),
            token(Category::Whitespace, "   ", 2),
            token(Category::Symbol, "b", 5),
        ]
    );
    assert_eq!(tokens[1].length, 3);
    assert_eq!(lexer.buffer(), "");
}

#[test]
fn appending_in_pieces_is_appending_at_once() {
    let (split, _) = drain(&["fo", "o bar"]);
    let (whole, _) = drain(&["foo bar"]);
    assert_eq!(split, whole);
    assert_eq!(
        whole,
        vec![
            token(Category::Symbol, "foo", 1),
            token(Category::Whitespace, " ", 4),
            token(Category::Symbol, "bar", 5),
        ]
    );
}

#[test]
fn columns_advance_by_length() {
    let (tokens, lexer) = drain(&["(a)"]);
    assert_eq!(
        tokens,
        vec![
            token(Category::LeftParen, "(", 1),
            token(Category::Symbol, "a", 2),
            token(Category::RightParen, ")", 3),
        ]
    );
    for t in &tokens {
        assert_eq!(t.length, 1);
        assert_eq!(t.line, 1);
    }
    assert_eq!(lexer.column(), 4);
}

#[test]
fn texts_put_together_are_the_input() {
    let input = "(define x-1 -3.5)\t(set! y_ 42)\n ok?";
    let (tokens, lexer) = drain(&[input]);
    assert_eq!(texts(&tokens), input);
    assert_eq!(tokens.len(), 17);
    assert_eq!(lexer.buffer(), "");
    let mut column: u32 = 1;
    for t in &tokens {
        assert_eq!(t.column, column);
        assert_eq!(t.length, t.text.chars().count());
        column += t.length as u32;
    }
    assert_eq!(lexer.column(), column);
}

#[test]
fn symbol_running_into_a_fraction_loses_the_rest() {
    let (tokens, lexer) = drain(&["a", "1.5"]);
    assert_eq!(tokens, vec![token(Category::Symbol, "a1", 1)]);
    assert_eq!(lexer.buffer(), "");
}

#[test]
fn unlexable_rest_is_dropped_and_not_retried() {
    let mut lexer = Lexer::new();
    lexer.append("foo .bar");
    let tokens = lexer.drain_tokens();
    assert_eq!(
        tokens,
        vec![token(Category::Symbol, "foo", 1), token(Category::Whitespace, " ", 4)]
    );
    assert_eq!(lexer.buffer(), "");
    assert_eq!(lexer.column(), 5);
    lexer.append("5");
    let tokens = lexer.drain_tokens();
    assert_eq!(tokens, vec![token(Category::Number, "5", 1)]);
}

#[test]
fn draining_an_empty_buffer_yields_nothing() {
    let mut lexer = Lexer::new();
    assert!(lexer.drain_tokens().is_empty());
    assert_eq!(lexer.buffer(), "");
    assert_eq!(lexer.column(), 1);
}

#[test]
fn per_line_columns_start_at_one_in_every_cycle() {
    let mut lexer = Lexer::with_column_reset(ColumnReset::PerLine);
    lexer.append("ab cd");
    let first = lexer.drain_tokens();
    assert_eq!(first[2], token(Category::Symbol, "cd", 4));
    assert_eq!(lexer.column(), 6);
    lexer.append("ef");
    let second = lexer.drain_tokens();
    assert_eq!(second, vec![token(Category::Symbol, "ef", 1)]);
    assert_eq!(lexer.column(), 3);
}

#[test]
fn cumulative_columns_go_on_counting() {
    let mut lexer = Lexer::with_column_reset(ColumnReset::Cumulative);
    lexer.append("ab cd");
    let first = lexer.drain_tokens();
    assert_eq!(first[0], token(Category::Symbol, "ab", 1));
    assert_eq!(first[2], token(Category::Symbol, "cd", 4));
    lexer.append("ef !x");
    let second = lexer.drain_tokens();
    assert_eq!(
        second,
        vec![token(Category::Symbol, "ef", 6), token(Category::Whitespace, " ", 8)]
    );
    assert_eq!(lexer.column(), 9);
    lexer.append("(");
    assert_eq!(lexer.drain_tokens(), vec![token(Category::LeftParen, "(", 9)]);
}

#[test]
fn unicode_whitespace_is_counted_in_characters() {
    let (tokens, _) = drain(&["a\u{a0}\u{2003}b"]);
    assert_eq!(
        tokens,
        vec![
            token(Category::Symbol, "a", 1),
            token(Category::Whitespace, "\u{a0}\u{2003}", 2),
            token(Category::Symbol, "b", 4),
        ]
    );
    assert_eq!(tokens[1].length, 2);
}

#[test]
fn next_yields_one_token_at_a_time() {
    let mut lexer = Lexer::new();
    lexer.append("-7 x");
    assert_eq!(lexer.next(), Some(token(Category::Number, "-7", 1)));
    assert_eq!(lexer.buffer(), " x");
    assert_eq!(lexer.column(), 3);
    assert_eq!(lexer.next(), Some(token(Category::Whitespace, " ", 3)));
    assert_eq!(lexer.next(), Some(token(Category::Symbol, "x", 4)));
    assert_eq!(lexer.next(), None);
    assert_eq!(lexer.buffer(), "");
    assert_eq!(lexer.column(), 5);
}

#[test]
fn next_discards_what_no_rule_matches() {
    let mut lexer = Lexer::new();
    lexer.append("?abc");
    assert_eq!(lexer.next(), None);
    assert_eq!(lexer.buffer(), "");
    assert_eq!(lexer.column(), 1);
}

#[test]
fn single_rules_leave_the_buffer_alone_when_they_fail() {
    let mut lexer = Lexer::new();
    lexer.append("foo(1) ");
    assert_eq!(lexer.lex_number(), None);
    assert_eq!(lexer.lex_left_paren(), None);
    assert_eq!(lexer.lex_right_paren(), None);
    assert_eq!(lexer.lex_whitespace(), None);
    assert_eq!(lexer.buffer(), "foo(1) ");
    assert_eq!(lexer.column(), 1);
    assert_eq!(lexer.lex_symbol(), Some(token(Category::Symbol, "foo", 1)));
    assert_eq!(lexer.lex_symbol(), None);
    assert_eq!(lexer.lex_left_paren(), Some(token(Category::LeftParen, "(", 4)));
    assert_eq!(lexer.lex_number(), Some(token(Category::Number, "1", 5)));
    assert_eq!(lexer.lex_right_paren(), Some(token(Category::RightParen, ")", 6)));
    assert_eq!(lexer.lex_whitespace(), Some(token(Category::Whitespace, " ", 7)));
    assert_eq!(lexer.buffer(), "");
    assert_eq!(lexer.column(), 8);
}

#[test]
fn lex_tries_the_rule_it_is_given() {
    let mut lexer = Lexer::new();
    lexer.append("12ab");
    assert_eq!(lexer.lex(Category::Symbol), None);
    assert_eq!(lexer.lex(Category::Number), Some(token(Category::Number, "12", 1)));
    assert_eq!(lexer.lex(Category::Symbol), Some(token(Category::Symbol, "ab", 3)));
}

#[test]
fn can_append_holds_for_ordinary_lines() {
    let mut lexer = Lexer::with_column_reset(ColumnReset::Cumulative);
    assert!(lexer.can_append(""));
    assert!(lexer.can_append("some text"));
    lexer.append("some text");
    assert!(lexer.can_append("more"));
}

fn all_body(word: &str) -> bool {
    word.chars().all(|c| c.is_ascii_alphanumeric() || c == '_' || c == '-')
}

fn is_fraction(word: &str) -> bool {
    let chars: Vec<char> = word.chars().collect();
    chars.len() >= 3 && chars[chars.len() - 2] == '.'
}

fn symbol_runs_into_fraction(words: &[(Category, &str)]) -> bool {
    for j in 0..words.len() {
        for i in j + 1..words.len() {
            if words[j].0 == Category::Symbol
                && words[i].0 == Category::Number
                && is_fraction(words[i].1)
                && words[j..i].iter().all(|w| all_body(w.1))
            {
                return true;
            }
        }
    }
    false
}

#[test]
fn words_read_back_unless_a_symbol_runs_into_a_fraction() {
    let pool = [
        (Category::Symbol, "a"),
        (Category::Symbol, "b-1"),
        (Category::Symbol, "c!"),
        (Category::Symbol, "_"),
        (Category::Number, "1"),
        (Category::Number, "-2"),
        (Category::Number, "3.5"),
        (Category::Number, "-4.5"),
        (Category::LeftParen, "("),
        (Category::RightParen, ")"),
        (Category::Whitespace, " "),
        (Category::Whitespace, "\t\n"),
    ];
    let mut lossy = 0;
    for first in pool {
        for second in pool {
            for third in pool {
                for fourth in pool {
                    let words = [first, second, third, fourth];
                    let text: String = words.iter().map(|w| w.1).collect();
                    let (tokens, lexer) = drain(&[&text]);
                    assert_eq!(lexer.buffer(), "");
                    let read_back = texts(&tokens) == text;
                    assert_eq!(read_back, !symbol_runs_into_fraction(&words), "{:?}", text);
                    if !read_back {
                        lossy += 1;
                        assert!(text.starts_with(&texts(&tokens)));
                    }
                }
            }
        }
    }
    assert!(lossy > 0);
}

#[test]
fn symbol_with_closing_character_does_not_run_on() {
    let (tokens, _) = drain(&["c!", "1.5"]);
    assert_eq!(
        tokens,
        vec![token(Category::Symbol, "c!", 1), token(Category::Number, "1.5", 3)]
    );
    let (tokens, _) = drain(&["1", "a", "1.5"]);
    assert_eq!(
        tokens,
        vec![token(Category::Number, "1", 1), token(Category::Symbol, "a1", 2)]
    );
    let (tokens, _) = drain(&["12", "3.4"]);
    assert_eq!(tokens, vec![token(Category::Number, "123.4", 1)]);
}
