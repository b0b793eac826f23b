//! Lexer for a small indentation-sensitive, Python-like language.
//!
//! The library turns source text into an ordered stream of
//! `(Result<Token, ()>, Range<usize>)` entries: a pattern-based scanner
//! recognizes the lexical units, and an indentation post-processor rewrites
//! the whitespace that trails each newline run into synthetic block-nesting
//! tokens (`Indentation` / `Deindentation`), following the off-side rule.

pub mod indent;
pub mod lexer;
pub mod scan;
pub mod token;

pub use lexer::lex;
pub use token::Token;
