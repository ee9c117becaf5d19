//! An incremental, line-oriented tokenizer.
//!
//! Text is appended to a [`lexer::Lexer`] piece by piece; draining it yields
//! the tokens found at the front of the pending text, each stamped with the
//! column at which it starts.
//!
//! - [`rules`]: the lexical categories, the rule of each, and the order in
//!   which the rules are tried.
//! - [`spelling`]: the categories as sets of words, and the proof that each
//!   rule takes the longest word of its category.
//! - [`token`]: tokens and their views.
//! - [`model`]: what a drain cycle yields, as a function of the text, and
//!   what holds of it.
//! - [`reassembly`]: which texts a drain cycle reads without loss.
//! - [`lexer`]: the buffer, the column counter and the operations on them.
pub mod rules;
pub mod spelling;
pub mod token;
pub mod model;
pub mod reassembly;
pub mod lexer;
