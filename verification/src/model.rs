//! The model of a drain cycle: which tokens a text yields, how much of it
//! they cover, and what holds of them.
use vstd::prelude::*;
use crate::rules::{first_match, lemma_first_match_bounds};
use crate::spelling::{is_spelling, lemma_rule_takes_longest_spelling};
use crate::token::{token_at, TokenView};

verus! {

/// The tokens that a drain cycle yields from the text `s` when its first
/// character stands at `column`: the rule set is applied to what is left
/// until the text is used up or no rule matches.
pub open spec fn tokens_from(s: Seq<char>, column: int) -> Seq<TokenView>
    decreases s.len(),
    via tokens_from_decreases
{
    match first_match(s) {
        Some((category, n)) => seq![token_at(category, s, column, n)] + tokens_from(
            s.skip(n),
            column + n,
        ),
        None => Seq::empty(),
    }
}

#[via_fn]
proof fn tokens_from_decreases(s: Seq<char>, column: int) {
    lemma_first_match_bounds(s);
}

/// The number of characters at the start of `s` that a drain cycle turns into
/// tokens. What follows them is dropped.
pub open spec fn lexed_len(s: Seq<char>) -> int
    decreases s.len(),
    via lexed_len_decreases
{
    match first_match(s) {
        Some((_, n)) => n + lexed_len(s.skip(n)),
        None => 0,
    }
}

#[via_fn]
proof fn lexed_len_decreases(s: Seq<char>) {
    lemma_first_match_bounds(s);
}

/// The texts of `tokens`, one after the other.
pub open spec fn concat_texts(tokens: Seq<TokenView>) -> Seq<char>
    decreases tokens.len(),
{
    if tokens.len() == 0 {
        Seq::empty()
    } else {
        tokens[0].text + concat_texts(tokens.drop_first())
    }
}

/// The texts of one token followed by others are its text followed by
/// theirs.
pub proof fn lemma_concat_texts_cons(first: TokenView, rest: Seq<TokenView>)
    ensures
        concat_texts(seq![first] + rest) == first.text + concat_texts(rest),
{
    let all = seq![first] + rest;
    assert(all[0] == first);
    assert(all.drop_first() =~= rest);
}

/// Nothing is lost or reordered within what a drain cycle turns into tokens:
/// the texts of the tokens, put together in order, are the first
/// `lexed_len(s)` characters of the text.
pub proof fn lemma_texts_are_lexed_prefix(s: Seq<char>, column: int)
    ensures
        0 <= lexed_len(s) <= s.len(),
        concat_texts(tokens_from(s, column)) == s.take(lexed_len(s)),
    decreases s.len(),
{
    lemma_first_match_bounds(s);
    match first_match(s) {
        Some((category, n)) => {
            let rest = s.skip(n);
            lemma_texts_are_lexed_prefix(rest, column + n);
            lemma_concat_texts_cons(
                token_at(category, s, column, n),
                tokens_from(rest, column + n),
            );
            assert(s.take(n) + rest.take(lexed_len(rest)) =~= s.take(n + lexed_len(rest)));
        },
        None => {
            assert(s.take(0) =~= Seq::<char>::empty());
        },
    }
}

/// A text that a drain cycle turns into tokens as a whole is put together
/// again from the texts of its tokens.
pub proof fn lemma_lossless(s: Seq<char>, column: int)
    requires
        lexed_len(s) == s.len(),
    ensures
        concat_texts(tokens_from(s, column)) == s,
{
    lemma_texts_are_lexed_prefix(s, column);
    assert(s.take(s.len() as int) =~= s);
}

/// The column discipline of a drain cycle: the first token stands at the
/// column at which the cycle starts, every later token at the column of the
/// one before it plus that one's length. Every token is on line 1, is not
/// empty, and its length is the number of characters of its text.
pub proof fn lemma_columns_advance(s: Seq<char>, column: int)
    ensures
        tokens_from(s, column).len() > 0 ==> tokens_from(s, column)[0].column == column,
        forall|i: int|
            0 <= i < tokens_from(s, column).len() - 1 ==> (#[trigger] tokens_from(
                s,
                column,
            )[i + 1]).column == tokens_from(s, column)[i].column + tokens_from(s, column)[i].length,
        forall|i: int|
            0 <= i < tokens_from(s, column).len() ==> {
                let t = #[trigger] tokens_from(s, column)[i];
                t.line == 1 && t.length == t.text.len() && t.length >= 1
            },
    decreases s.len(),
{
    lemma_first_match_bounds(s);
    match first_match(s) {
        Some((category, n)) => {
            let first = token_at(category, s, column, n);
            let rest = tokens_from(s.skip(n), column + n);
            let all = tokens_from(s, column);
            lemma_columns_advance(s.skip(n), column + n);
            assert(all == seq![first] + rest);
            assert(all[0] == first);
            assert forall|i: int| 1 <= i < all.len() implies all[i] == rest[i - 1] by {}
            assert forall|i: int| 0 <= i < all.len() - 1 implies (#[trigger] all[i + 1]).column
                == all[i].column + all[i].length by {
                assert(all[i + 1] == rest[i]);
                if i > 0 {
                    assert(all[i] == rest[i - 1]);
                    assert(rest[(i - 1) + 1] == rest[i]);
                }
            }
            assert forall|i: int| 0 <= i < all.len() implies ({
                let t = #[trigger] all[i];
                t.line == 1 && t.length == t.text.len() && t.length >= 1
            }) by {
                if i > 0 {
                    assert(all[i] == rest[i - 1]);
                }
            }
        },
        None => {},
    }
}

/// Appending a text in two pieces leaves the same buffer as appending it in
/// one, so the drain cycle that follows yields the same tokens and consumes
/// as much.
pub proof fn lemma_append_in_pieces(buffer: Seq<char>, a: Seq<char>, b: Seq<char>, column: int)
    ensures
        (buffer + a) + b == buffer + (a + b),
        tokens_from((buffer + a) + b, column) == tokens_from(buffer + (a + b), column),
        lexed_len((buffer + a) + b) == lexed_len(buffer + (a + b)),
{
    assert((buffer + a) + b =~= buffer + (a + b));
}

/// Every token holds a word of its category: the text of a token that a
/// drain cycle yields is one of the words that the category is made of.
pub proof fn lemma_tokens_are_spellings(s: Seq<char>, column: int)
    ensures
        forall|i: int|
            0 <= i < tokens_from(s, column).len() ==> {
                let t = #[trigger] tokens_from(s, column)[i];
                is_spelling(t.category, t.text)
            },
    decreases s.len(),
{
    lemma_first_match_bounds(s);
    match first_match(s) {
        Some((category, n)) => {
            let first = token_at(category, s, column, n);
            let rest = tokens_from(s.skip(n), column + n);
            let all = tokens_from(s, column);
            lemma_rule_takes_longest_spelling(category, s);
            lemma_tokens_are_spellings(s.skip(n), column + n);
            assert(all == seq![first] + rest);
            assert forall|i: int| 0 <= i < all.len() implies ({
                let t = #[trigger] all[i];
                is_spelling(t.category, t.text)
            }) by {
                if i > 0 {
                    assert(all[i] == rest[i - 1]);
                }
            }
        },
        None => {},
    }
}

} // verus!
