//! The categories as sets of words, and the proof that each rule takes the
//! longest word of its category that the text starts with.
use vstd::prelude::*;
use crate::rules::{
    first_match, in_class, is_digit, is_symbol_end, is_symbol_start, lemma_one_rule_matches,
    lemma_run_end_bounds, number_len, rule_len, run_end, symbol_len, whitespace_len, Category,
    CharClass,
};

verus! {

/// Every character of `w` is in `class`.
pub open spec fn all_in_class(w: Seq<char>, class: CharClass) -> bool {
    forall|i: int| 0 <= i < w.len() ==> in_class(class, #[trigger] w[i])
}

/// The symbols: a starting character, then body characters, of which the
/// last may be replaced by a closing character.
pub open spec fn is_symbol(w: Seq<char>) -> bool {
    &&& w.len() >= 1
    &&& is_symbol_start(w[0])
    &&& {
        ||| all_in_class(w.skip(1), CharClass::SymbolBody)
        ||| (w.len() >= 2 && all_in_class(w.subrange(1, w.len() - 1), CharClass::SymbolBody)
            && is_symbol_end(w.last()))
    }
}

/// The numbers without a sign: one or more digits, or one or more digits, a
/// point and one digit.
pub open spec fn is_unsigned_number(w: Seq<char>) -> bool {
    ||| (w.len() >= 1 && all_in_class(w, CharClass::Digit))
    ||| (w.len() >= 3 && all_in_class(w.take(w.len() - 2), CharClass::Digit) && w[w.len() - 2]
        == '.' && is_digit(w.last()))
}

/// The numbers: a number without a sign, or a minus sign and one.
pub open spec fn is_number(w: Seq<char>) -> bool {
    ||| is_unsigned_number(w)
    ||| (w.len() >= 1 && w[0] == '-' && is_unsigned_number(w.skip(1)))
}

/// The runs of whitespace: one or more whitespace characters.
pub open spec fn is_whitespace(w: Seq<char>) -> bool {
    w.len() >= 1 && all_in_class(w, CharClass::Space)
}

/// Whether `w` is a word of `category`.
pub open spec fn is_spelling(category: Category, w: Seq<char>) -> bool {
    match category {
        Category::Symbol => is_symbol(w),
        Category::Number => is_number(w),
        Category::LeftParen => w.len() == 1 && w[0] == '(',
        Category::RightParen => w.len() == 1 && w[0] == ')',
        Category::Whitespace => is_whitespace(w),
    }
}

/// Whether the first `n` characters of `s` are the longest word of
/// `category` that `s` starts with.
pub open spec fn is_longest_spelling(category: Category, s: Seq<char>, n: int) -> bool {
    &&& 0 < n <= s.len()
    &&& is_spelling(category, s.take(n))
    &&& forall|m: int| n < m <= s.len() ==> !is_spelling(category, #[trigger] s.take(m))
}

/// Whether `s` starts with no word of `category`.
pub open spec fn has_no_spelling(category: Category, s: Seq<char>) -> bool {
    forall|m: int| 0 <= m <= s.len() ==> !is_spelling(category, #[trigger] s.take(m))
}

proof fn lemma_symbol_longest(s: Seq<char>)
    ensures
        match symbol_len(s) {
            Some(n) => is_longest_spelling(Category::Symbol, s, n),
            None => has_no_spelling(Category::Symbol, s),
        },
{
    if s.len() > 0 && is_symbol_start(s[0]) {
        let e = run_end(s, 1, CharClass::SymbolBody);
        lemma_run_end_bounds(s, 1, CharClass::SymbolBody);
        let n = symbol_len(s)->0;
        let w = s.take(n);
        if n == e {
            assert(all_in_class(w.skip(1), CharClass::SymbolBody)) by {
                assert forall|i: int| 0 <= i < w.skip(1).len() implies in_class(
                    CharClass::SymbolBody,
                    #[trigger] w.skip(1)[i],
                ) by {
                    assert(w.skip(1)[i] == s[i + 1]);
                }
            }
        } else {
            let body = w.subrange(1, w.len() - 1);
            assert(all_in_class(body, CharClass::SymbolBody)) by {
                assert forall|i: int| 0 <= i < body.len() implies in_class(
                    CharClass::SymbolBody,
                    #[trigger] body[i],
                ) by {
                    assert(body[i] == s[i + 1]);
                }
            }
            assert(w.last() == s[e]);
        }
        assert(is_symbol(w));
        assert forall|m: int| n < m <= s.len() implies !is_symbol(#[trigger] s.take(m)) by {
            let v = s.take(m);
            if is_symbol(v) {
                if all_in_class(v.skip(1), CharClass::SymbolBody) {
                    assert(v.skip(1)[e - 1] == s[e]);
                } else {
                    let body = v.subrange(1, v.len() - 1);
                    if e < m - 1 {
                        assert(body[e - 1] == s[e]);
                    } else {
                        assert(v.last() == s[e]);
                    }
                }
                assert(false);
            }
        }
    } else {
        assert forall|m: int| 0 <= m <= s.len() implies !is_symbol(#[trigger] s.take(m)) by {
            if m >= 1 {
                assert(s.take(m)[0] == s[0]);
            }
        }
    }
}

/// A number without a sign starts with a digit.
proof fn lemma_unsigned_starts_with_digit(u: Seq<char>)
    requires
        is_unsigned_number(u),
    ensures
        u.len() >= 1,
        is_digit(u[0]),
{
    if u.len() >= 1 && all_in_class(u, CharClass::Digit) {
        assert(in_class(CharClass::Digit, u[0]));
    } else {
        assert(in_class(CharClass::Digit, u.take(u.len() - 2)[0]));
    }
}

/// Where the digits of `s` from `d` on end at `e`, the first `e - d`
/// characters from `d` on, with the point and the digit after them if they
/// are there, are the longest number without a sign that stands at `d`.
proof fn lemma_unsigned_longest(s: Seq<char>, d: int, n: int)
    requires
        0 <= d <= s.len(),
        run_end(s, d, CharClass::Digit) != d,
        n == {
            let e = run_end(s, d, CharClass::Digit);
            if e + 1 < s.len() && s[e] == '.' && is_digit(s[e + 1]) {
                e + 2
            } else {
                e
            }
        },
    ensures
        d < n <= s.len(),
        is_unsigned_number(s.subrange(d, n)),
        forall|m: int| n < m <= s.len() ==> !is_unsigned_number(#[trigger] s.subrange(d, m)),
{
    let e = run_end(s, d, CharClass::Digit);
    lemma_run_end_bounds(s, d, CharClass::Digit);
    let u = s.subrange(d, n);
    if n == e {
        assert(all_in_class(u, CharClass::Digit)) by {
            assert forall|i: int| 0 <= i < u.len() implies in_class(
                CharClass::Digit,
                #[trigger] u[i],
            ) by {
                assert(u[i] == s[d + i]);
            }
        }
    } else {
        let digits = u.take(u.len() - 2);
        assert(all_in_class(digits, CharClass::Digit)) by {
            assert forall|i: int| 0 <= i < digits.len() implies in_class(
                CharClass::Digit,
                #[trigger] digits[i],
            ) by {
                assert(digits[i] == s[d + i]);
            }
        }
        assert(u[u.len() - 2] == s[e]);
        assert(u.last() == s[e + 1]);
    }
    assert forall|m: int| n < m <= s.len() implies !is_unsigned_number(
        #[trigger] s.subrange(d, m),
    ) by {
        let v = s.subrange(d, m);
        if is_unsigned_number(v) {
            if v.len() >= 1 && all_in_class(v, CharClass::Digit) {
                assert(v[e - d] == s[e]);
            } else {
                let digits = v.take(v.len() - 2);
                if e < m - 2 {
                    assert(digits[e - d] == s[e]);
                } else if m - 2 < e {
                    assert(v[v.len() - 2] == s[m - 2]);
                    assert(in_class(CharClass::Digit, s[m - 2]));
                } else {
                    assert(v[v.len() - 2] == s[e]);
                    assert(v.last() == s[e + 1]);
                }
            }
            assert(false);
        }
    }
}

proof fn lemma_number_longest(s: Seq<char>)
    ensures
        match number_len(s) {
            Some(n) => is_longest_spelling(Category::Number, s, n),
            None => has_no_spelling(Category::Number, s),
        },
{
    let d: int = if s.len() > 0 && s[0] == '-' { 1 } else { 0 };
    let e = run_end(s, d, CharClass::Digit);
    lemma_run_end_bounds(s, d, CharClass::Digit);
    // Whatever number `s` starts with has its digits from `d` on.
    assert forall|m: int| 0 <= m <= s.len() && is_number(#[trigger] s.take(m)) implies d < m
        && is_unsigned_number(s.subrange(d, m)) && is_digit(s[d]) by {
        let v = s.take(m);
        if is_unsigned_number(v) {
            lemma_unsigned_starts_with_digit(v);
            assert(v[0] == s[0]);
            assert(v =~= s.subrange(0, m));
        } else {
            lemma_unsigned_starts_with_digit(v.skip(1));
            assert(v[0] == s[0]);
            assert(v.skip(1)[0] == s[1]);
            assert(v.skip(1) =~= s.subrange(1, m));
        }
    }
    if e == d {
        assert forall|m: int| 0 <= m <= s.len() implies !is_number(#[trigger] s.take(m)) by {
            if is_number(s.take(m)) {
                assert(in_class(CharClass::Digit, s[d]));
                assert(false);
            }
        }
    } else {
        let n = number_len(s)->0;
        lemma_unsigned_longest(s, d, n);
        let w = s.take(n);
        if d == 0 {
            assert(w =~= s.subrange(0, n));
        } else {
            assert(w[0] == '-');
            assert(w.skip(1) =~= s.subrange(1, n));
        }
        assert(is_number(w));
    }
}

proof fn lemma_whitespace_longest(s: Seq<char>)
    ensures
        match whitespace_len(s) {
            Some(n) => is_longest_spelling(Category::Whitespace, s, n),
            None => has_no_spelling(Category::Whitespace, s),
        },
{
    let e = run_end(s, 0, CharClass::Space);
    lemma_run_end_bounds(s, 0, CharClass::Space);
    if e > 0 {
        let w = s.take(e);
        assert(all_in_class(w, CharClass::Space)) by {
            assert forall|i: int| 0 <= i < w.len() implies in_class(
                CharClass::Space,
                #[trigger] w[i],
            ) by {
                assert(w[i] == s[i]);
            }
        }
    }
    assert forall|m: int| e < m <= s.len() implies !is_whitespace(#[trigger] s.take(m)) by {
        let v = s.take(m);
        if is_whitespace(v) {
            assert(v[e] == s[e]);
            assert(false);
        }
    }
}

/// Every rule is greedy within its category and nothing else: where the text
/// starts with a word of the category, the rule takes the longest such word;
/// where it starts with none, the rule does not match.
pub proof fn lemma_rule_takes_longest_spelling(category: Category, s: Seq<char>)
    ensures
        match rule_len(category, s) {
            Some(n) => is_longest_spelling(category, s, n),
            None => has_no_spelling(category, s),
        },
{
    match category {
        Category::Symbol => lemma_symbol_longest(s),
        Category::Number => lemma_number_longest(s),
        Category::Whitespace => lemma_whitespace_longest(s),
        Category::LeftParen => {
            assert forall|m: int| 0 <= m <= s.len() && is_spelling(
                category,
                #[trigger] s.take(m),
            ) implies m == 1 && s[0] == '(' by {
                assert(s.take(m).len() == m);
                assert(s.take(m)[0] == s[0]);
            }
            if s.len() > 0 {
                assert(s.take(1)[0] == s[0]);
            }
        },
        Category::RightParen => {
            assert forall|m: int| 0 <= m <= s.len() && is_spelling(
                category,
                #[trigger] s.take(m),
            ) implies m == 1 && s[0] == ')' by {
                assert(s.take(m).len() == m);
                assert(s.take(m)[0] == s[0]);
            }
            if s.len() > 0 {
                assert(s.take(1)[0] == s[0]);
            }
        },
    }
}

/// A word is recognised where it stands: a text that starts with a word of
/// some category is matched by that category's rule and by no other, so the
/// rule set chooses it, and it takes at least the word.
pub proof fn lemma_spelling_is_recognised(category: Category, word: Seq<char>, rest: Seq<char>)
    requires
        is_spelling(category, word),
    ensures
        first_match(word + rest) matches Some((c, n)) && c == category && word.len() <= n <= (word
            + rest).len() && is_longest_spelling(category, word + rest, n),
{
    let text = word + rest;
    lemma_rule_takes_longest_spelling(category, word);
    assert(word.len() >= 1) by {
        assert(word.take(0).len() == 0);
        if word.len() == 0 {
            assert(word.take(0) =~= word);
        }
    }
    assert(text.take(word.len() as int) =~= word);
    lemma_rule_takes_longest_spelling(category, text);
    lemma_one_rule_matches(category, text);
}

} // verus!
