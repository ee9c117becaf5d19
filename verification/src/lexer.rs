//! The buffered lexer: a growing text, a column counter, and the operations
//! that turn the front of the text into tokens.
use vstd::prelude::*;
use vstd::string::*;
use crate::rules::{first_match, lemma_first_match_bounds, match_category, rule_len, Category};
use crate::token::{token_at, token_views, Token, TokenView};
use crate::model::{lexed_len, tokens_from};

verus! {

/// When the column counter goes back to 1.
#[derive(Clone, Copy, Debug, PartialEq, Eq)]
pub enum ColumnReset {
    /// Every drain cycle counts from 1: a column is a position in the text
    /// that the cycle found in the buffer.
    PerLine,
    /// The counter is never set back: a column is a position in all the text
    /// consumed since the lexer was made.
    Cumulative,
}

/// What a lexer stands for.
pub struct LexerView {
    /// The text that has been appended and not yet consumed.
    pub buffer: Seq<char>,
    /// The column of the first character of the buffer.
    pub column: int,
    /// When the column counter goes back to 1.
    pub column_reset: ColumnReset,
}

impl LexerView {
    /// The state after the first `n` characters of the buffer were consumed.
    pub open spec fn advance(self, n: int) -> LexerView {
        LexerView { buffer: self.buffer.skip(n), column: self.column + n, ..self }
    }

    /// The state after the buffer was discarded.
    pub open spec fn flushed(self) -> LexerView {
        LexerView { buffer: Seq::empty(), ..self }
    }

    /// The column at which a drain cycle starts to count.
    pub open spec fn start_column(self) -> int {
        match self.column_reset {
            ColumnReset::PerLine => 1,
            ColumnReset::Cumulative => self.column,
        }
    }

    /// The counter is at least 1, and the column after the last character of
    /// the buffer still fits the counter.
    pub open spec fn wf(self) -> bool {
        1 <= self.column && self.column + self.buffer.len() <= u32::MAX
    }
}

/// An incremental tokenizer: text is appended to its buffer, and tokens are
/// taken from the front of the buffer. It owns the buffer and the column
/// counter; nothing else reads or writes them.
pub struct Lexer {
    buf: String,
    pos: u32,
    reset: ColumnReset,
}

impl View for Lexer {
    type V = LexerView;

    closed spec fn view(&self) -> LexerView {
        LexerView { buffer: self.buf@, column: self.pos as int, column_reset: self.reset }
    }
}

impl Lexer {
    /// A lexer with an empty buffer at column 1, which counts columns anew in
    /// every drain cycle.
    pub fn new() -> (lexer: Lexer)
        ensures
            lexer@ == (LexerView {
                buffer: Seq::empty(),
                column: 1,
                column_reset: ColumnReset::PerLine,
            }),
    {
        Lexer { buf: String::new(), pos: 1, reset: ColumnReset::PerLine }
    }

    /// A lexer with an empty buffer at column 1 and the given reset policy.
    pub fn with_column_reset(column_reset: ColumnReset) -> (lexer: Lexer)
        ensures
            lexer@ == (LexerView { buffer: Seq::empty(), column: 1, column_reset }),
    {
        Lexer { buf: String::new(), pos: 1, reset: column_reset }
    }

    /// The text that is waiting to be consumed.
    pub fn buffer(&self) -> (s: &str)
        ensures
            s@ == self@.buffer,
    {
        self.buf.as_str()
    }

    /// The column of the first character of the buffer.
    pub fn column(&self) -> (c: u32)
        ensures
            c == self@.column,
    {
        self.pos
    }

    /// When the column counter goes back to 1.
    pub fn column_reset(&self) -> (r: ColumnReset)
        ensures
            r == self@.column_reset,
    {
        self.reset
    }

    /// Whether `line` can be appended: whether the column after its last
    /// character would still fit the counter.
    pub fn can_append(&self, line: &str) -> (ok: bool)
        ensures
            ok == (self@.column + self@.buffer.len() + line@.len() <= u32::MAX),
    {
        let have = self.buf.as_str().unicode_len();
        let more = line.unicode_len();
        let room: u32 = u32::MAX - self.pos;
        have <= room as usize && more <= room as usize - have
    }

    /// Puts `line` at the end of the buffer. No token is produced. The buffer
    /// must not grow beyond what the column counter can count; `can_append`
    /// tells whether it would.
    pub fn append(&mut self, line: &str)
        requires
            old(self)@.column + old(self)@.buffer.len() + line@.len() <= u32::MAX,
        ensures
            final(self)@ == (LexerView { buffer: old(self)@.buffer + line@, ..old(self)@ }),
    {
        self.buf.append(line);
    }

    /// Removes the first `end` characters from the buffer and returns them;
    /// the column counter advances by `end`.
    pub fn take(&mut self, end: usize) -> (text: String)
        requires
            old(self)@.wf(),
            end <= old(self)@.buffer.len(),
        ensures
            text@ == old(self)@.buffer.take(end as int),
            final(self)@ == old(self)@.advance(end as int),
            final(self)@.wf(),
    {
        let len = self.buf.as_str().unicode_len();
        let text = self.buf.as_str().substring_char(0, end).to_owned();
        let rest = self.buf.as_str().substring_char(end, len).to_owned();
        self.buf = rest;
        self.pos = self.pos + end as u32;
        proof {
            assert(old(self)@.buffer.subrange(0, end as int) == old(self)@.buffer.take(end as int));
            assert(old(self)@.buffer.subrange(end as int, len as int) == old(self)@.buffer.skip(
                end as int,
            ));
        }
        text
    }

    /// Tries the rule of one category on the buffer. Where it matches, the
    /// matched text leaves the buffer as a token; where it does not, nothing
    /// changes.
    pub fn lex(&mut self, category: Category) -> (token: Option<Token>)
        requires
            old(self)@.wf(),
        ensures
            final(self)@.wf(),
            lex_outcome(category, old(self)@, token, final(self)@),
    {
        match match_category(category, self.buf.as_str()) {
            Some(len) => {
                let column = self.pos;
                let text = self.take(len);
                Some(Token { category, text, line: 1, column, length: len })
            },
            None => None,
        }
    }

    /// Takes a symbol from the front of the buffer, if one stands there.
    pub fn lex_symbol(&mut self) -> (token: Option<Token>)
        requires
            old(self)@.wf(),
        ensures
            final(self)@.wf(),
            lex_outcome(Category::Symbol, old(self)@, token, final(self)@),
    {
        self.lex(Category::Symbol)
    }

    /// Takes a number from the front of the buffer, if one stands there.
    pub fn lex_number(&mut self) -> (token: Option<Token>)
        requires
            old(self)@.wf(),
        ensures
            final(self)@.wf(),
            lex_outcome(Category::Number, old(self)@, token, final(self)@),
    {
        self.lex(Category::Number)
    }

    /// Takes a left parenthesis from the front of the buffer, if one stands
    /// there.
    pub fn lex_left_paren(&mut self) -> (token: Option<Token>)
        requires
            old(self)@.wf(),
        ensures
            final(self)@.wf(),
            lex_outcome(Category::LeftParen, old(self)@, token, final(self)@),
    {
        self.lex(Category::LeftParen)
    }

    /// Takes a right parenthesis from the front of the buffer, if one stands
    /// there.
    pub fn lex_right_paren(&mut self) -> (token: Option<Token>)
        requires
            old(self)@.wf(),
        ensures
            final(self)@.wf(),
            lex_outcome(Category::RightParen, old(self)@, token, final(self)@),
    {
        self.lex(Category::RightParen)
    }

    /// Takes a run of whitespace from the front of the buffer, if one stands
    /// there.
    pub fn lex_whitespace(&mut self) -> (token: Option<Token>)
        requires
            old(self)@.wf(),
        ensures
            final(self)@.wf(),
            lex_outcome(Category::Whitespace, old(self)@, token, final(self)@),
    {
        self.lex(Category::Whitespace)
    }

    /// One step of a drain cycle. The rules are tried in their order on the
    /// buffer; the first that matches yields the token, which leaves the
    /// buffer. Where none matches, the buffer is discarded, whatever it
    /// holds, and there is no token.
    pub fn next(&mut self) -> (token: Option<Token>)
        requires
            old(self)@.wf(),
        ensures
            final(self)@.wf(),
            match first_match(old(self)@.buffer) {
                Some((category, n)) => token is Some && token->0@ == token_at(
                    category,
                    old(self)@.buffer,
                    old(self)@.column,
                    n,
                ) && final(self)@ == old(self)@.advance(n),
                None => token is None && final(self)@ == old(self)@.flushed(),
            },
    {
        let token = self.lex_symbol();
        if token.is_some() {
            return token;
        }
        let token = self.lex_number();
        if token.is_some() {
            return token;
        }
        let token = self.lex_left_paren();
        if token.is_some() {
            return token;
        }
        let token = self.lex_right_paren();
        if token.is_some() {
            return token;
        }
        let token = self.lex_whitespace();
        if token.is_some() {
            return token;
        }
        self.buf = String::new();
        None
    }

    /// One drain cycle. Under `ColumnReset::PerLine` the column counter is
    /// first set to 1. Then tokens are taken from the front of the buffer
    /// until it is empty or no rule matches what is left, which is then
    /// discarded. The buffer is empty afterwards in either case, and the
    /// counter has advanced by the number of characters that became tokens.
    pub fn drain_tokens(&mut self) -> (tokens: Vec<Token>)
        requires
            old(self)@.wf(),
        ensures
            final(self)@.wf(),
            token_views(tokens@) == tokens_from(old(self)@.buffer, old(self)@.start_column()),
            tokens@.len() == tokens_from(old(self)@.buffer, old(self)@.start_column()).len(),
            final(self)@ == (LexerView {
                buffer: Seq::empty(),
                column: old(self)@.start_column() + lexed_len(old(self)@.buffer),
                column_reset: old(self)@.column_reset,
            }),
    {
        match self.reset {
            ColumnReset::PerLine => {
                self.pos = 1;
            },
            ColumnReset::Cumulative => {},
        }
        let ghost text = self@.buffer;
        let ghost start = self@.column;
        let mut tokens: Vec<Token> = Vec::new();
        assert(token_views(tokens@) =~= Seq::<TokenView>::empty());
        loop
            invariant_except_break
                token_views(tokens@) + tokens_from(self@.buffer, self@.column) == tokens_from(
                    text,
                    start,
                ),
                self@.column + lexed_len(self@.buffer) == start + lexed_len(text),
            invariant
                self@.wf(),
                self@.column_reset == old(self)@.column_reset,
            ensures
                token_views(tokens@) == tokens_from(text, start),
                self@.buffer == Seq::<char>::empty(),
                self@.column == start + lexed_len(text),
            decreases self@.buffer.len(),
        {
            let ghost before = self@;
            let ghost so_far = tokens@;
            proof {
                lemma_first_match_bounds(before.buffer);
            }
            match self.next() {
                Some(token) => {
                    tokens.push(token);
                    assert(token_views(tokens@) =~= token_views(so_far) + seq![token@]);
                },
                None => {
                    assert(token_views(tokens@) + Seq::<TokenView>::empty() =~= token_views(
                        tokens@,
                    ));
                    break ;
                },
            }
        }
        tokens
    }
}

/// What trying the rule of `category` on the lexer `before` comes to: where
/// the rule matches, the token it takes and the lexer advanced past it;
/// where it does not, no token and the lexer as it was.
pub open spec fn lex_outcome(
    category: Category,
    before: LexerView,
    token: Option<Token>,
    after: LexerView,
) -> bool {
    match rule_len(category, before.buffer) {
        Some(n) => token is Some && token->0@ == token_at(
            category,
            before.buffer,
            before.column,
            n,
        ) && after == before.advance(n),
        None => token is None && after == before,
    }
}

} // verus!
