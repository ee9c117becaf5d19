//! The rule set: five lexical categories, each recognised at the very start
//! of a text, tried in a fixed order.
use vstd::prelude::*;
use vstd::string::*;

verus! {

/// The lexical categories, in the order in which their rules are tried.
#[derive(Clone, Copy, Debug, PartialEq, Eq)]
pub enum Category {
    Symbol,
    Number,
    LeftParen,
    RightParen,
    Whitespace,
}

/// The character classes that a rule may repeat.
#[derive(Clone, Copy, Debug)]
pub enum CharClass {
    SymbolBody,
    Digit,
    Space,
}

/// The letters `a` to `z` and `A` to `Z`.
pub open spec fn is_letter(c: char) -> bool {
    ('a' <= c && c <= 'z') || ('A' <= c && c <= 'Z')
}

/// The digits `0` to `9`.
pub open spec fn is_digit(c: char) -> bool {
    '0' <= c && c <= '9'
}

/// A symbol starts with a letter or an underscore.
pub open spec fn is_symbol_start(c: char) -> bool {
    is_letter(c) || c == '_'
}

/// Inside a symbol stand letters, digits, underscores and hyphens.
pub open spec fn is_symbol_body(c: char) -> bool {
    is_letter(c) || is_digit(c) || c == '_' || c == '-'
}

/// A symbol may close with one of `!`, `?` and `_`.
pub open spec fn is_symbol_end(c: char) -> bool {
    c == '!' || c == '?' || c == '_'
}

/// The characters with the Unicode property `White_Space`.
pub open spec fn is_space(c: char) -> bool {
    ||| ('\u{0009}' <= c && c <= '\u{000D}')
    ||| c == ' '
    ||| c == '\u{0085}'
    ||| c == '\u{00A0}'
    ||| c == '\u{1680}'
    ||| ('\u{2000}' <= c && c <= '\u{200A}')
    ||| c == '\u{2028}'
    ||| c == '\u{2029}'
    ||| c == '\u{202F}'
    ||| c == '\u{205F}'
    ||| c == '\u{3000}'
}

/// Whether `c` is in `class`.
pub open spec fn in_class(class: CharClass, c: char) -> bool {
    match class {
        CharClass::SymbolBody => is_symbol_body(c),
        CharClass::Digit => is_digit(c),
        CharClass::Space => is_space(c),
    }
}

/// Where the longest run of characters of `class` that starts at `from` ends:
/// the index of the first character at or after `from` that is not in the
/// class, or the length of `s` if there is none.
pub open spec fn run_end(s: Seq<char>, from: int, class: CharClass) -> int
    decreases s.len() - from,
{
    if 0 <= from < s.len() && in_class(class, s[from]) {
        run_end(s, from + 1, class)
    } else {
        from
    }
}

/// How much of the start of `s` the symbol rule takes: one starting
/// character, the longest run of body characters, and a closing character if
/// one follows.
pub open spec fn symbol_len(s: Seq<char>) -> Option<int> {
    if s.len() > 0 && is_symbol_start(s[0]) {
        let e = run_end(s, 1, CharClass::SymbolBody);
        if e < s.len() && is_symbol_end(s[e]) {
            Some(e + 1)
        } else {
            Some(e)
        }
    } else {
        None
    }
}

/// How much of the start of `s` the number rule takes: an optional minus
/// sign, the longest run of digits, which must not be empty, and a point with
/// exactly one digit if they follow.
pub open spec fn number_len(s: Seq<char>) -> Option<int> {
    let d: int = if s.len() > 0 && s[0] == '-' { 1 } else { 0 };
    let e = run_end(s, d, CharClass::Digit);
    if e == d {
        None
    } else if e + 1 < s.len() && s[e] == '.' && is_digit(s[e + 1]) {
        Some(e + 2)
    } else {
        Some(e)
    }
}

/// A single given character at the start of `s`.
pub open spec fn literal_len(s: Seq<char>, c: char) -> Option<int> {
    if s.len() > 0 && s[0] == c {
        Some(1)
    } else {
        None
    }
}

/// How much of the start of `s` the whitespace rule takes: the longest run
/// of whitespace, which must not be empty.
pub open spec fn whitespace_len(s: Seq<char>) -> Option<int> {
    let e = run_end(s, 0, CharClass::Space);
    if e == 0 {
        None
    } else {
        Some(e)
    }
}

/// What the rule of one category takes from the start of `s`, if it matches.
pub open spec fn rule_len(category: Category, s: Seq<char>) -> Option<int> {
    match category {
        Category::Symbol => symbol_len(s),
        Category::Number => number_len(s),
        Category::LeftParen => literal_len(s, '('),
        Category::RightParen => literal_len(s, ')'),
        Category::Whitespace => whitespace_len(s),
    }
}

/// The rule set as a whole: the first rule that matches decides, in the order
/// symbol, number, left parenthesis, right parenthesis, whitespace.
pub open spec fn first_match(s: Seq<char>) -> Option<(Category, int)> {
    if symbol_len(s) is Some {
        Some((Category::Symbol, symbol_len(s)->0))
    } else if number_len(s) is Some {
        Some((Category::Number, number_len(s)->0))
    } else if literal_len(s, '(') is Some {
        Some((Category::LeftParen, 1))
    } else if literal_len(s, ')') is Some {
        Some((Category::RightParen, 1))
    } else if whitespace_len(s) is Some {
        Some((Category::Whitespace, whitespace_len(s)->0))
    } else {
        None
    }
}

/// An executable length read as a mathematical one.
pub open spec fn as_len(r: Option<usize>) -> Option<int> {
    match r {
        Some(n) => Some(n as int),
        None => None,
    }
}

/// A run never ends before its start nor beyond the text.
pub proof fn lemma_run_end_bounds(s: Seq<char>, from: int, class: CharClass)
    requires
        0 <= from <= s.len(),
    ensures
        from <= run_end(s, from, class) <= s.len(),
        forall|i: int| from <= i < run_end(s, from, class) ==> in_class(class, #[trigger] s[i]),
        run_end(s, from, class) < s.len() ==> !in_class(class, s[run_end(s, from, class)]),
    decreases s.len() - from,
{
    if from < s.len() && in_class(class, s[from]) {
        lemma_run_end_bounds(s, from + 1, class);
    }
}

/// Every rule that matches takes at least one character and no more than
/// there are.
pub proof fn lemma_rule_len_bounds(category: Category, s: Seq<char>)
    ensures
        rule_len(category, s) matches Some(n) ==> 0 < n <= s.len(),
{
    if s.len() > 0 {
        lemma_run_end_bounds(s, 1, CharClass::SymbolBody);
        lemma_run_end_bounds(s, 1, CharClass::Digit);
    }
    lemma_run_end_bounds(s, 0, CharClass::Digit);
    lemma_run_end_bounds(s, 0, CharClass::Space);
}

/// What the rule set takes is what the rule of the chosen category takes, and
/// lies within the text.
pub proof fn lemma_first_match_bounds(s: Seq<char>)
    ensures
        first_match(s) matches Some((category, n)) ==> 0 < n <= s.len() && rule_len(category, s)
            == Some(n),
{
    lemma_rule_len_bounds(Category::Symbol, s);
    lemma_rule_len_bounds(Category::Number, s);
    lemma_rule_len_bounds(Category::Whitespace, s);
}

/// No text is matched by the rules of two categories: a rule that matches is
/// the one that the rule set chooses.
pub proof fn lemma_one_rule_matches(category: Category, s: Seq<char>)
    requires
        rule_len(category, s) is Some,
    ensures
        first_match(s) == Some((category, rule_len(category, s)->0)),
{
    lemma_rule_len_bounds(category, s);
    lemma_run_end_bounds(s, 0, CharClass::Digit);
    lemma_run_end_bounds(s, 0, CharClass::Space);
    if s.len() > 1 {
        lemma_run_end_bounds(s, 1, CharClass::Digit);
    }
}

/// Whether `c` is in `class`.
pub fn class_contains(class: CharClass, c: char) -> (r: bool)
    ensures
        r == in_class(class, c),
{
    match class {
        CharClass::SymbolBody => symbol_body_char(c),
        CharClass::Digit => digit_char(c),
        CharClass::Space => space_char(c),
    }
}

/// Whether `c` is one of the letters `a` to `z` and `A` to `Z`.
pub fn letter_char(c: char) -> (r: bool)
    ensures
        r == is_letter(c),
{
    ('a' <= c && c <= 'z') || ('A' <= c && c <= 'Z')
}

/// Whether `c` is one of the digits `0` to `9`.
pub fn digit_char(c: char) -> (r: bool)
    ensures
        r == is_digit(c),
{
    '0' <= c && c <= '9'
}

/// Whether a symbol can start with `c`.
pub fn symbol_start_char(c: char) -> (r: bool)
    ensures
        r == is_symbol_start(c),
{
    letter_char(c) || c == '_'
}

/// Whether a symbol can go on with `c`.
pub fn symbol_body_char(c: char) -> (r: bool)
    ensures
        r == is_symbol_body(c),
{
    letter_char(c) || digit_char(c) || c == '_' || c == '-'
}

/// Whether a symbol can close with `c`.
pub fn symbol_end_char(c: char) -> (r: bool)
    ensures
        r == is_symbol_end(c),
{
    c == '!' || c == '?' || c == '_'
}

/// Whether `c` is whitespace.
pub fn space_char(c: char) -> (r: bool)
    ensures
        r == is_space(c),
{
    ('\u{0009}' <= c && c <= '\u{000D}')
        || c == ' '
        || c == '\u{0085}'
        || c == '\u{00A0}'
        || c == '\u{1680}'
        || ('\u{2000}' <= c && c <= '\u{200A}')
        || c == '\u{2028}'
        || c == '\u{2029}'
        || c == '\u{202F}'
        || c == '\u{205F}'
        || c == '\u{3000}'
}

/// Scans the longest run of characters of `class` in `s` from `from` on.
/// `len` is the number of characters of `s`.
pub fn scan_run(s: &str, len: usize, from: usize, class: CharClass) -> (end: usize)
    requires
        len == s@.len(),
        from <= len,
    ensures
        from <= end <= len,
        end == run_end(s@, from as int, class),
{
    let mut i: usize = from;
    while i < len && class_contains(class, s.get_char(i))
        invariant
            from <= i <= len,
            len == s@.len(),
            run_end(s@, from as int, class) == run_end(s@, i as int, class),
        decreases len - i,
    {
        i += 1;
    }
    i
}

/// The symbol rule: `[A-Za-z_][A-Za-z0-9_-]*[!?_]?`, greedy, at the start of `s`.
pub fn match_symbol(s: &str) -> (r: Option<usize>)
    ensures
        as_len(r) == symbol_len(s@),
        r matches Some(n) ==> 0 < n <= s@.len(),
{
    let len = s.unicode_len();
    if len == 0 || !symbol_start_char(s.get_char(0)) {
        return None;
    }
    let e = scan_run(s, len, 1, CharClass::SymbolBody);
    if e < len && symbol_end_char(s.get_char(e)) {
        Some(e + 1)
    } else {
        Some(e)
    }
}

/// The number rule: `-?[0-9]+(\.[0-9])?`, greedy, at the start of `s`.
pub fn match_number(s: &str) -> (r: Option<usize>)
    ensures
        as_len(r) == number_len(s@),
        r matches Some(n) ==> 0 < n <= s@.len(),
{
    let len = s.unicode_len();
    let d: usize = if len > 0 && s.get_char(0) == '-' { 1 } else { 0 };
    let e = scan_run(s, len, d, CharClass::Digit);
    if e == d {
        None
    } else if e < len - 1 && s.get_char(e) == '.' && digit_char(s.get_char(e + 1)) {
        Some(e + 2)
    } else {
        Some(e)
    }
}

/// A rule for one given character at the start of `s`.
pub fn match_literal(s: &str, c: char) -> (r: Option<usize>)
    ensures
        as_len(r) == literal_len(s@, c),
        r matches Some(n) ==> 0 < n <= s@.len(),
{
    if s.unicode_len() > 0 && s.get_char(0) == c {
        Some(1)
    } else {
        None
    }
}

/// The whitespace rule: the longest run of whitespace at the start of `s`.
pub fn match_whitespace(s: &str) -> (r: Option<usize>)
    ensures
        as_len(r) == whitespace_len(s@),
        r matches Some(n) ==> 0 < n <= s@.len(),
{
    let len = s.unicode_len();
    let e = scan_run(s, len, 0, CharClass::Space);
    if e == 0 {
        None
    } else {
        Some(e)
    }
}

/// Tries the rule of one category at the start of `s`.
pub fn match_category(category: Category, s: &str) -> (r: Option<usize>)
    ensures
        as_len(r) == rule_len(category, s@),
        r matches Some(n) ==> 0 < n <= s@.len(),
{
    match category {
        Category::Symbol => match_symbol(s),
        Category::Number => match_number(s),
        Category::LeftParen => match_literal(s, '('),
        Category::RightParen => match_literal(s, ')'),
        Category::Whitespace => match_whitespace(s),
    }
}

/// Tries the rules in their order and reports the first that matches, with
/// the number of characters it takes.
pub fn try_match(s: &str) -> (r: Option<(Category, usize)>)
    ensures
        match r {
            Some((category, n)) => first_match(s@) == Some((category, n as int)) && 0 < n
                <= s@.len(),
            None => first_match(s@) is None,
        },
{
    if let Some(n) = match_symbol(s) {
        Some((Category::Symbol, n))
    } else if let Some(n) = match_number(s) {
        Some((Category::Number, n))
    } else if let Some(n) = match_literal(s, '(') {
        Some((Category::LeftParen, n))
    } else if let Some(n) = match_literal(s, ')') {
        Some((Category::RightParen, n))
    } else if let Some(n) = match_whitespace(s) {
        Some((Category::Whitespace, n))
    } else {
        None
    }
}

} // verus!
