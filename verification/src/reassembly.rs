//! Putting a text together again from its tokens: which texts made of words
//! of the categories a drain cycle turns into tokens without loss.
use vstd::prelude::*;
use crate::model::{concat_texts, lemma_lossless, lexed_len, tokens_from};
use crate::rules::{
    first_match, in_class, is_digit, is_symbol_end, lemma_first_match_bounds,
    lemma_one_rule_matches, lemma_run_end_bounds, number_len, rule_len, run_end, symbol_len,
    whitespace_len, Category, CharClass,
};
use crate::spelling::{
    all_in_class, is_longest_spelling, is_spelling, lemma_rule_takes_longest_spelling,
};
use crate::token::token_at;

verus! {

/// The words of `words`, one after the other.
pub open spec fn concat_words(words: Seq<Seq<char>>) -> Seq<char>
    decreases words.len(),
{
    if words.len() == 0 {
        Seq::empty()
    } else {
        words[0] + concat_words(words.drop_first())
    }
}

/// Whether `w` ends in a point and one more character, as a number with a
/// fractional digit does.
pub open spec fn is_fractional(w: Seq<char>) -> bool {
    w.len() >= 3 && w[w.len() - 2] == '.'
}

/// Whether every word is a word of the category given for it.
pub open spec fn spelled(words: Seq<Seq<char>>, categories: Seq<Category>) -> bool {
    &&& words.len() == categories.len()
    &&& forall|i: int| 0 <= i < words.len() ==> is_spelling(categories[i], #[trigger] words[i])
}

/// Whether the symbol at `j` runs into the number with a fractional digit at
/// `i`: every word from the symbol up to the number is made of characters
/// that a symbol goes on with, so that one symbol token takes them all and
/// the digits before the point too, and stops at the point, with which no
/// token starts.
pub open spec fn runs_into_fraction(
    words: Seq<Seq<char>>,
    categories: Seq<Category>,
    j: int,
    i: int,
) -> bool {
    &&& 0 <= j < i < words.len()
    &&& categories[j] == Category::Symbol
    &&& categories[i] == Category::Number
    &&& is_fractional(words[i])
    &&& forall|k: int| j <= k < i ==> all_in_class(#[trigger] words[k], CharClass::SymbolBody)
}

/// Whether no symbol among the words runs into a number with a fractional
/// digit.
pub open spec fn unambiguous(words: Seq<Seq<char>>, categories: Seq<Category>) -> bool {
    forall|j: int, i: int| !#[trigger] runs_into_fraction(words, categories, j, i)
}

/// A run that is known by its members and by what follows it.
proof fn lemma_run_end_is(s: Seq<char>, from: int, e: int, class: CharClass)
    requires
        0 <= from <= e <= s.len(),
        forall|i: int| from <= i < e ==> in_class(class, #[trigger] s[i]),
        e < s.len() ==> !in_class(class, s[e]),
    ensures
        run_end(s, from, class) == e,
    decreases e - from,
{
    if from < e {
        lemma_run_end_is(s, from + 1, e, class);
    }
}

/// A run in a text of two parts ends in the first part, or goes through it
/// and on into the second.
proof fn lemma_run_end_concat(a: Seq<char>, b: Seq<char>, from: int, class: CharClass)
    requires
        0 <= from <= a.len(),
    ensures
        run_end(a + b, from, class) == if run_end(a, from, class) == a.len() {
            a.len() + run_end(b, 0, class)
        } else {
            run_end(a, from, class)
        },
{
    let ra = run_end(a, from, class);
    let rb = run_end(b, 0, class);
    let s = a + b;
    lemma_run_end_bounds(a, from, class);
    lemma_run_end_bounds(b, 0, class);
    if ra < a.len() {
        assert forall|i: int| from <= i < ra implies in_class(class, #[trigger] s[i]) by {
            assert(s[i] == a[i]);
        }
        assert(s[ra] == a[ra]);
        lemma_run_end_is(s, from, ra, class);
    } else {
        let e = a.len() + rb;
        assert forall|i: int| from <= i < e implies in_class(class, #[trigger] s[i]) by {
            if i < a.len() {
                assert(s[i] == a[i]);
            } else {
                assert(s[i] == b[i - a.len()]);
            }
        }
        if e < s.len() {
            assert(s[e] == b[rb]);
        }
        lemma_run_end_is(s, from, e, class);
    }
}

/// The words from `k` on, put together, start with the word at `k`.
proof fn lemma_concat_at(words: Seq<Seq<char>>, k: int)
    requires
        0 <= k < words.len(),
    ensures
        concat_words(words.skip(k)) == words[k] + concat_words(words.skip(k + 1)),
{
    assert(words.skip(k)[0] == words[k]);
    assert(words.skip(k).drop_first() =~= words.skip(k + 1));
}

/// Where a word stands at `off` in a text, its characters are found there,
/// and what follows it starts where it ends.
proof fn lemma_text_at_word(text: Seq<char>, off: int, u: Seq<char>, tail: Seq<char>)
    requires
        0 <= off <= text.len(),
        text.skip(off) == u + tail,
    ensures
        off + u.len() + tail.len() == text.len(),
        forall|i: int| 0 <= i < u.len() ==> text[off + i] == #[trigger] u[i],
        text.skip(off + u.len()) =~= tail,
{
    assert(text.skip(off).len() == u.len() + tail.len());
    assert forall|i: int| 0 <= i < u.len() implies text[off + i] == #[trigger] u[i] by {
        assert(text.skip(off)[i] == text[off + i]);
    }
    assert forall|i: int| 0 <= i < tail.len() implies text.skip(off + u.len())[i] == tail[i] by {
        assert(text.skip(off)[u.len() + i] == text[off + u.len() + i]);
    }
}

/// A run from the start of a text made of words goes through the first `k`
/// words, which lie wholly in the class, and ends in the word after them or
/// with the text. The result is `k` and the place at which the word at `k`
/// starts.
proof fn lemma_run_over_words(words: Seq<Seq<char>>, class: CharClass) -> (r: (int, int))
    ensures
        ({
            let (k, off) = r;
            let text = concat_words(words);
            &&& 0 <= k <= words.len()
            &&& 0 <= off <= text.len()
            &&& text.skip(off) == concat_words(words.skip(k))
            &&& forall|i: int| 0 <= i < k ==> all_in_class(#[trigger] words[i], class)
            &&& k == words.len() ==> off == text.len() && run_end(text, 0, class) == text.len()
            &&& k < words.len() ==> run_end(words[k], 0, class) < words[k].len() && run_end(
                text,
                0,
                class,
            ) == off + run_end(words[k], 0, class)
        }),
    decreases words.len(),
{
    let text = concat_words(words);
    if words.len() == 0 {
        assert(words.skip(0) =~= words);
        assert(text.skip(0) =~= text);
        (0, 0)
    } else {
        let w0 = words[0];
        let later = words.drop_first();
        let rest = concat_words(later);
        lemma_run_end_concat(w0, rest, 0, class);
        lemma_run_end_bounds(w0, 0, class);
        if run_end(w0, 0, class) == w0.len() {
            let (k1, off1) = lemma_run_over_words(later, class);
            assert(later.skip(k1) =~= words.skip(k1 + 1));
            assert(text.skip(w0.len() + off1) =~= rest.skip(off1));
            assert forall|i: int| 0 <= i < k1 + 1 implies all_in_class(
                #[trigger] words[i],
                class,
            ) by {
                if i > 0 {
                    assert(words[i] == later[i - 1]);
                }
            }
            if k1 < later.len() {
                assert(later[k1] == words[k1 + 1]);
            }
            (k1 + 1, w0.len() + off1)
        } else {
            assert(words.skip(0) =~= words);
            assert(text.skip(0) =~= text);
            (0, 0)
        }
    }
}

/// A word taken by itself is matched as a whole by the rule of its category.
proof fn lemma_word_is_its_own_match(category: Category, u: Seq<char>)
    requires
        is_spelling(category, u),
    ensures
        rule_len(category, u) == Some(u.len() as int),
        u.len() >= 1,
{
    lemma_rule_takes_longest_spelling(category, u);
    assert(u.take(u.len() as int) =~= u);
    if u.len() == 0 {
        assert(u.take(0) =~= u);
    }
}

/// With what a word of each category starts.
proof fn lemma_first_character(category: Category, u: Seq<char>)
    requires
        is_spelling(category, u),
    ensures
        u.len() >= 1,
        match category {
            Category::Symbol => in_class(CharClass::SymbolBody, u[0]) && !is_digit(u[0])
                && !in_class(CharClass::Space, u[0]) && u[0] != '.',
            Category::Number => (u[0] == '-' || is_digit(u[0])) && !in_class(
                CharClass::Space,
                u[0],
            ),
            Category::LeftParen => u[0] == '(',
            Category::RightParen => u[0] == ')',
            Category::Whitespace => in_class(CharClass::Space, u[0]),
        },
{
    lemma_word_is_its_own_match(category, u);
    lemma_run_end_bounds(u, 0, CharClass::Digit);
    lemma_run_end_bounds(u, 0, CharClass::Space);
    if u.len() > 1 {
        lemma_run_end_bounds(u, 1, CharClass::Digit);
    }
}

/// Whether a token of length `n` at the start of the words put together
/// ends where the first `k` words end, and no symbol among those `k` words
/// runs into a number with a fractional digit.
pub open spec fn ends_at_word(
    words: Seq<Seq<char>>,
    categories: Seq<Category>,
    k: int,
    n: int,
) -> bool {
    &&& 1 <= k <= words.len()
    &&& concat_words(words).skip(n) == concat_words(words.skip(k))
    &&& forall|j: int, i: int| #[trigger] runs_into_fraction(words, categories, j, i) ==> j >= k
}

/// Whether no rule matches what follows the first `n` characters of `text`,
/// of which there is some.
pub open spec fn stuck_after(text: Seq<char>, n: int) -> bool {
    0 <= n < text.len() && first_match(text.skip(n)) is None
}

/// A word made of digits alone is a number, a word made of whitespace alone
/// is whitespace, and a word made of characters that a symbol goes on with
/// has no point in it.
proof fn lemma_covered_word(category: Category, u: Seq<char>, class: CharClass)
    requires
        is_spelling(category, u),
        all_in_class(u, class),
    ensures
        class == CharClass::Digit ==> category == Category::Number,
        class == CharClass::Space ==> category == Category::Whitespace,
        class == CharClass::SymbolBody ==> !is_fractional(u),
{
    lemma_first_character(category, u);
    assert(in_class(class, u[0]));
    if is_fractional(u) {
        assert(in_class(class, u[u.len() - 2]));
    }
}

/// The symbol token that a text made of words starts with. It takes the
/// words that a symbol goes on with and ends where a word ends, unless the
/// word at which it stops is a number with a fractional digit: then it ends
/// before the point, and no rule matches what follows. The result is the
/// index of the word at or before which the token ends, and its length.
proof fn lemma_symbol_token_end(words: Seq<Seq<char>>, categories: Seq<Category>) -> (r: (
    int,
    int,
))
    requires
        spelled(words, categories),
        words.len() > 0,
        categories[0] == Category::Symbol,
    ensures
        ({
            let (k, n) = r;
            let text = concat_words(words);
            &&& symbol_len(text) == Some(n)
            &&& 0 <= n <= text.len()
            &&& if runs_into_fraction(words, categories, 0, k) {
                stuck_after(text, n)
            } else {
                ends_at_word(words, categories, k, n)
            }
        }),
{
    let body = CharClass::SymbolBody;
    let text = concat_words(words);
    let w0 = words[0];
    lemma_first_character(Category::Symbol, w0);
    lemma_concat_at(words, 0);
    assert(words.skip(0) =~= words);
    assert(text[0] == w0[0]);
    let (k, off) = lemma_run_over_words(words, body);
    let e = run_end(text, 1, body);
    assert(e == run_end(text, 0, body));
    assert forall|j: int, i: int| #[trigger]
        runs_into_fraction(words, categories, j, i) && i < k implies false by {
        lemma_covered_word(categories[i], words[i], body);
    }
    if k == words.len() {
        assert(ends_at_word(words, categories, k, text.len() as int));
        (k, text.len() as int)
    } else {
        let u = words[k];
        let r = run_end(u, 0, body);
        lemma_concat_at(words, k);
        lemma_text_at_word(text, off, u, concat_words(words.skip(k + 1)));
        lemma_run_end_bounds(u, 0, body);
        assert(text[off + r] == u[r]);
        assert(is_spelling(categories[k], u));
        lemma_first_character(categories[k], u);
        lemma_word_is_its_own_match(categories[k], u);
        assert(!all_in_class(u, body));
        match categories[k] {
            Category::Symbol => {
                assert(r == run_end(u, 1, body));
                assert forall|j: int, i: int| #[trigger]
                    runs_into_fraction(words, categories, j, i) implies j >= k + 1 by {
                    if j <= k {
                        assert(i >= k);
                        assert(i != k);
                        assert(all_in_class(words[k], body));
                    }
                }
                (k + 1, off + u.len())
            },
            Category::Number => {
                let d: int = if u[0] == '-' { 1 } else { 0 };
                let eu = run_end(u, d, CharClass::Digit);
                lemma_run_end_bounds(u, d, CharClass::Digit);
                assert forall|i: int| d <= i < eu implies in_class(body, #[trigger] u[i]) by {
                    assert(in_class(CharClass::Digit, u[i]));
                }
                if eu == u.len() {
                    assert(in_class(body, u[r]));
                }
                assert(is_fractional(u));
                assert(runs_into_fraction(words, categories, 0, k));
                lemma_run_end_is(u, 0, eu, body);
                let rest = text.skip(off + r);
                assert(rest[0] == '.');
                assert(first_match(rest) is None);
                (k, off + r)
            },
            _ => {
                assert(r == 0);
                assert(!is_symbol_end(u[0]));
                assert forall|j: int, i: int| #[trigger]
                    runs_into_fraction(words, categories, j, i) implies j >= k by {
                    if j < k {
                        assert(i >= k);
                        assert(i != k);
                        assert(all_in_class(words[k], body));
                    }
                }
                assert(!runs_into_fraction(words, categories, 0, k));
                (k, off)
            },
        }
    }
}

/// The number token that a text made of words starts with ends where a word
/// ends. The result is the number of words that it covers and its length.
proof fn lemma_number_token_end(words: Seq<Seq<char>>, categories: Seq<Category>) -> (r: (
    int,
    int,
))
    requires
        spelled(words, categories),
        words.len() > 0,
        categories[0] == Category::Number,
    ensures
        ({
            let (k, n) = r;
            let text = concat_words(words);
            &&& number_len(text) == Some(n)
            &&& 0 <= n <= text.len()
            &&& ends_at_word(words, categories, k, n)
        }),
{
    let digit = CharClass::Digit;
    let text = concat_words(words);
    let w0 = words[0];
    let later = words.skip(1);
    let rest = concat_words(later);
    lemma_concat_at(words, 0);
    assert(words.skip(0) =~= words);
    lemma_word_is_its_own_match(Category::Number, w0);
    let d: int = if w0[0] == '-' { 1 } else { 0 };
    assert(text[0] == w0[0]);
    let e0 = run_end(w0, d, digit);
    lemma_run_end_bounds(w0, d, digit);
    lemma_run_end_concat(w0, rest, d, digit);
    let e = run_end(text, d, digit);
    if e0 < w0.len() {
        assert(text[e0] == w0[e0]);
        assert(text[e0 + 1] == w0[e0 + 1]);
        assert(text.skip(w0.len() as int) =~= rest);
        (1, w0.len() as int)
    } else {
        let (k1, off) = lemma_run_over_words(later, digit);
        assert(text.skip(w0.len() + off) =~= rest.skip(off));
        assert(later.skip(k1) =~= words.skip(k1 + 1));
        assert forall|j: int, i: int| #[trigger]
            runs_into_fraction(words, categories, j, i) implies j >= k1 + 1 by {
            if 0 < j <= k1 {
                assert(later[j - 1] == words[j]);
                lemma_covered_word(categories[j], words[j], digit);
            }
        }
        if k1 == later.len() {
            (words.len() as int, text.len() as int)
        } else {
            let u = later[k1];
            let r = run_end(u, 0, digit);
            let c = categories[k1 + 1];
            lemma_concat_at(later, k1);
            lemma_text_at_word(rest, off, u, concat_words(later.skip(k1 + 1)));
            lemma_run_end_bounds(u, 0, digit);
            assert(u == words[k1 + 1]);
            assert(is_spelling(c, u));
            lemma_first_character(c, u);
            lemma_word_is_its_own_match(c, u);
            assert(later.skip(k1 + 1) =~= words.skip(k1 + 2));
            assert(text[e] == rest[off + r]);
            assert(rest[off + r] == u[r]);
            if c == Category::Number && u[0] != '-' {
                assert(text[e + 1] == rest[off + r + 1]);
                assert(rest[off + r + 1] == u[r + 1]);
                assert(text.skip(w0.len() + off + u.len()) =~= rest.skip(off + u.len()));
                (k1 + 2, w0.len() + off + u.len())
            } else {
                assert(r == 0);
                (k1 + 1, w0.len() + off)
            }
        }
    }
}

/// The whitespace token that a text made of words starts with ends where a
/// word ends. The result is the number of words that it covers and its
/// length.
proof fn lemma_whitespace_token_end(words: Seq<Seq<char>>, categories: Seq<Category>) -> (r: (
    int,
    int,
))
    requires
        spelled(words, categories),
        words.len() > 0,
        categories[0] == Category::Whitespace,
    ensures
        ({
            let (k, n) = r;
            let text = concat_words(words);
            &&& whitespace_len(text) == Some(n)
            &&& 0 <= n <= text.len()
            &&& ends_at_word(words, categories, k, n)
        }),
{
    let space = CharClass::Space;
    let text = concat_words(words);
    let w0 = words[0];
    lemma_first_character(Category::Whitespace, w0);
    lemma_word_is_its_own_match(Category::Whitespace, w0);
    lemma_concat_at(words, 0);
    assert(words.skip(0) =~= words);
    assert(text[0] == w0[0]);
    let (k, off) = lemma_run_over_words(words, space);
    lemma_run_end_bounds(text, 1, space);
    assert forall|j: int, i: int| #[trigger]
        runs_into_fraction(words, categories, j, i) implies j >= k by {
        if j < k {
            lemma_covered_word(categories[j], words[j], space);
        }
    }
    if k == words.len() {
        (k, text.len() as int)
    } else {
        let u = words[k];
        assert(is_spelling(categories[k], u));
        lemma_first_character(categories[k], u);
        lemma_word_is_its_own_match(categories[k], u);
        assert(run_end(u, 0, space) == 0);
        (k, off)
    }
}

/// The token that a text made of words starts with is of the category of
/// the first word. It ends where a word ends, unless it is a symbol that
/// runs into a number with a fractional digit: then no rule matches what
/// follows it. The result is the index of the word at or before which the
/// token ends, and its length.
proof fn lemma_first_token_end(words: Seq<Seq<char>>, categories: Seq<Category>) -> (r: (
    int,
    int,
))
    requires
        spelled(words, categories),
        words.len() > 0,
    ensures
        ({
            let (k, n) = r;
            let text = concat_words(words);
            &&& first_match(text) == Some((categories[0], n))
            &&& 0 < n <= text.len()
            &&& if runs_into_fraction(words, categories, 0, k) {
                stuck_after(text, n)
            } else {
                ends_at_word(words, categories, k, n)
            }
        }),
{
    let text = concat_words(words);
    let w0 = words[0];
    let r = match categories[0] {
        Category::Symbol => lemma_symbol_token_end(words, categories),
        Category::Number => lemma_number_token_end(words, categories),
        Category::Whitespace => lemma_whitespace_token_end(words, categories),
        _ => {
            lemma_first_character(categories[0], w0);
            lemma_concat_at(words, 0);
            assert(words.skip(0) =~= words);
            assert(text[0] == w0[0]);
            assert(text.skip(1) =~= concat_words(words.skip(1)));
            (1, 1)
        },
    };
    lemma_one_rule_matches(categories[0], text);
    lemma_first_match_bounds(text);
    r
}

/// What holds of words holds of those that are left when the first `k` are
/// taken away.
proof fn lemma_later_words(words: Seq<Seq<char>>, categories: Seq<Category>, k: int)
    requires
        spelled(words, categories),
        0 <= k <= words.len(),
    ensures
        spelled(words.skip(k), categories.skip(k)),
        forall|j: int, i: int|
            j >= 0 ==> (runs_into_fraction(words, categories, j + k, i + k)
                <==> #[trigger] runs_into_fraction(words.skip(k), categories.skip(k), j, i)),
{
    let later = words.skip(k);
    let cats = categories.skip(k);
    assert forall|i: int| 0 <= i < later.len() implies is_spelling(
        cats[i],
        #[trigger] later[i],
    ) by {
        assert(later[i] == words[i + k]);
    }
    assert forall|j: int, i: int| j >= 0 implies (runs_into_fraction(
        words,
        categories,
        j + k,
        i + k,
    ) <==> #[trigger] runs_into_fraction(later, cats, j, i)) by {
        if runs_into_fraction(later, cats, j, i) {
            assert forall|m: int| j + k <= m < i + k implies all_in_class(
                #[trigger] words[m],
                CharClass::SymbolBody,
            ) by {
                assert(later[m - k] == words[m]);
            }
            assert(later[i] == words[i + k]);
        }
        if runs_into_fraction(words, categories, j + k, i + k) {
            assert forall|m: int| j <= m < i implies all_in_class(
                #[trigger] later[m],
                CharClass::SymbolBody,
            ) by {
                assert(later[m] == words[m + k]);
            }
            assert(later[i] == words[i + k]);
        }
    }
}

/// Words that are put together are read back without loss. Let every word
/// be a word of its category, and let no symbol among them run into a number
/// with a fractional digit. Then a drain cycle over the words put together
/// turns the whole text into tokens, and the texts of the tokens put
/// together are the text. The tokens need not be the words: a symbol takes
/// the digits that follow it.
pub proof fn lemma_unambiguous_words_read_back(
    words: Seq<Seq<char>>,
    categories: Seq<Category>,
    column: int,
)
    requires
        spelled(words, categories),
        unambiguous(words, categories),
    ensures
        lexed_len(concat_words(words)) == concat_words(words).len(),
        concat_texts(tokens_from(concat_words(words), column)) == concat_words(words),
    decreases words.len(),
{
    let text = concat_words(words);
    if words.len() == 0 {
        lemma_first_match_bounds(text);
    } else {
        let (k, n) = lemma_first_token_end(words, categories);
        assert(!runs_into_fraction(words, categories, 0, k));
        lemma_later_words(words, categories, k);
        let later = words.skip(k);
        let cats = categories.skip(k);
        assert forall|j: int, i: int| !#[trigger] runs_into_fraction(later, cats, j, i) by {
            if runs_into_fraction(later, cats, j, i) {
                assert(runs_into_fraction(words, categories, j + k, i + k));
            }
        }
        lemma_unambiguous_words_read_back(later, cats, column + n);
    }
    lemma_lossless(text, column);
}

/// A symbol that runs into a number with a fractional digit costs text: a
/// drain cycle over the words put together does not turn the whole text into
/// tokens.
pub proof fn lemma_symbol_into_fraction_loses_text(
    words: Seq<Seq<char>>,
    categories: Seq<Category>,
    j: int,
    i: int,
)
    requires
        spelled(words, categories),
        runs_into_fraction(words, categories, j, i),
    ensures
        lexed_len(concat_words(words)) < concat_words(words).len(),
    decreases words.len(),
{
    let text = concat_words(words);
    let (k, n) = lemma_first_token_end(words, categories);
    assert(lexed_len(text) == n + lexed_len(text.skip(n)));
    if runs_into_fraction(words, categories, 0, k) {
        assert(lexed_len(text.skip(n)) == 0);
    } else {
        lemma_later_words(words, categories, k);
        assert(runs_into_fraction(words, categories, (j - k) + k, (i - k) + k));
        assert(runs_into_fraction(words.skip(k), categories.skip(k), j - k, i - k));
        lemma_symbol_into_fraction_loses_text(words.skip(k), categories.skip(k), j - k, i - k);
    }
}

/// Exactly the texts in which no symbol runs into a number with a
/// fractional digit are read back without loss, among the texts made of
/// words of the categories.
pub proof fn lemma_reads_back_iff_unambiguous(words: Seq<Seq<char>>, categories: Seq<Category>)
    requires
        spelled(words, categories),
    ensures
        lexed_len(concat_words(words)) == concat_words(words).len() <==> unambiguous(
            words,
            categories,
        ),
{
    if unambiguous(words, categories) {
        lemma_unambiguous_words_read_back(words, categories, 1);
    } else {
        let (j, i) = choose|j: int, i: int| runs_into_fraction(words, categories, j, i);
        lemma_symbol_into_fraction_loses_text(words, categories, j, i);
    }
}

/// A text made of words reads back as those words. Let `words` be cut so
/// that the rule of `categories[i]`, applied where `words[i]` starts, takes
/// exactly that word and does not run on into the next. Then a drain cycle
/// over the words put together yields one token for each word, with the
/// word as its text and the word's category, and the texts of the tokens put
/// together are the whole text.
pub proof fn lemma_words_read_back(
    words: Seq<Seq<char>>,
    categories: Seq<Category>,
    column: int,
)
    requires
        words.len() == categories.len(),
        forall|i: int|
            0 <= i < words.len() ==> rule_len(
                #[trigger] categories[i],
                concat_words(words.skip(i)),
            ) == Some(words[i].len() as int),
    ensures
        tokens_from(concat_words(words), column).len() == words.len(),
        forall|i: int|
            0 <= i < words.len() ==> {
                let t = #[trigger] tokens_from(concat_words(words), column)[i];
                t.text == words[i] && t.category == categories[i]
            },
        lexed_len(concat_words(words)) == concat_words(words).len(),
        concat_texts(tokens_from(concat_words(words), column)) == concat_words(words),
    decreases words.len(),
{
    let text = concat_words(words);
    if words.len() > 0 {
        let n = words[0].len() as int;
        let later = words.drop_first();
        let rest = concat_words(later);
        assert(words.skip(0) =~= words);
        assert(rule_len(categories[0], text) == Some(n));
        lemma_one_rule_matches(categories[0], text);
        assert(text == words[0] + rest);
        assert(text.take(n) =~= words[0]);
        assert(text.skip(n) =~= rest);
        assert forall|i: int| 0 <= i < later.len() implies rule_len(
            #[trigger] categories.drop_first()[i],
            concat_words(later.skip(i)),
        ) == Some(later[i].len() as int) by {
            assert(later.skip(i) =~= words.skip(i + 1));
            assert(categories.drop_first()[i] == categories[i + 1]);
        }
        lemma_words_read_back(later, categories.drop_first(), column + n);
        let all = tokens_from(text, column);
        let tail = tokens_from(rest, column + n);
        assert(all == seq![token_at(categories[0], text, column, n)] + tail);
        assert forall|i: int| 0 <= i < words.len() implies ({
            let t = #[trigger] all[i];
            t.text == words[i] && t.category == categories[i]
        }) by {
            if i > 0 {
                assert(all[i] == tail[i - 1]);
                assert(later[i - 1] == words[i]);
                assert(categories.drop_first()[i - 1] == categories[i]);
            }
        }
    }
    lemma_lossless(text, column);
}

/// A text made of words of the categories is put together again from its
/// tokens, unless a word can be read on into what follows it. Let every word
/// of `words` be the longest word of its category that stands where it
/// starts in the text made of them. Then a drain cycle over that text yields
/// one token for each word, with the word as its text and the word's
/// category, and the texts of the tokens put together are the whole text.
pub proof fn lemma_spellings_read_back(
    words: Seq<Seq<char>>,
    categories: Seq<Category>,
    column: int,
)
    requires
        words.len() == categories.len(),
        forall|i: int|
            0 <= i < words.len() ==> is_spelling(#[trigger] categories[i], words[i])
                && is_longest_spelling(
                categories[i],
                concat_words(words.skip(i)),
                words[i].len() as int,
            ),
    ensures
        tokens_from(concat_words(words), column).len() == words.len(),
        forall|i: int|
            0 <= i < words.len() ==> {
                let t = #[trigger] tokens_from(concat_words(words), column)[i];
                t.text == words[i] && t.category == categories[i]
            },
        lexed_len(concat_words(words)) == concat_words(words).len(),
        concat_texts(tokens_from(concat_words(words), column)) == concat_words(words),
{
    assert forall|i: int| 0 <= i < words.len() implies rule_len(
        #[trigger] categories[i],
        concat_words(words.skip(i)),
    ) == Some(words[i].len() as int) by {
        let text = concat_words(words.skip(i));
        let n = words[i].len() as int;
        lemma_rule_takes_longest_spelling(categories[i], text);
        assert(is_longest_spelling(categories[i], text, n));
    }
    lemma_words_read_back(words, categories, column);
}

} // verus!
