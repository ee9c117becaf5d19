//! Tokens and their mathematical view.
use vstd::prelude::*;
use crate::rules::Category;

verus! {

/// One recognised piece of text with its position.
#[derive(Clone, Debug, PartialEq, Eq)]
pub struct Token {
    /// The rule that recognised the text.
    pub category: Category,
    /// The text that was taken from the buffer.
    pub text: String,
    /// The source line, which is always 1.
    pub line: i32,
    /// The column at which the text starts, counted from 1.
    pub column: u32,
    /// The number of characters of the text.
    pub length: usize,
}

/// What a token stands for.
pub struct TokenView {
    pub category: Category,
    pub text: Seq<char>,
    pub line: int,
    pub column: int,
    pub length: int,
}

impl View for Token {
    type V = TokenView;

    open spec fn view(&self) -> TokenView {
        TokenView {
            category: self.category,
            text: self.text@,
            line: self.line as int,
            column: self.column as int,
            length: self.length as int,
        }
    }
}

/// The token that a rule of `category` yields when it takes the first `n`
/// characters of `s` at column `column`.
pub open spec fn token_at(category: Category, s: Seq<char>, column: int, n: int) -> TokenView {
    TokenView { category, text: s.take(n), line: 1, column, length: n }
}

/// The views of a sequence of tokens.
pub open spec fn token_views(tokens: Seq<Token>) -> Seq<TokenView> {
    tokens.map_values(|t: Token| t@)
}

} // verus!
