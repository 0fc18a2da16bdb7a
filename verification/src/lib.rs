//! Lexical analysis for a small procedural teaching language.
//!
//! A [`lexer::Lexer`] walks a byte buffer and hands out one [`token::Token`]
//! per call. What it returns is stated against a mathematical model of the
//! language's lexical grammar, [`grammar::next_token`], which maps a buffer
//! and an offset to the token that starts there or to the reason why none
//! does.
pub mod ascii;
pub mod error;
pub mod grammar;
pub mod laws;
pub mod lexer;
pub mod token;
