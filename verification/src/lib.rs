//! A JSON lexer whose behaviour is specified and proved with Verus.
//!
//! The lexer reads a `&str` and yields tokens paired with byte spans into
//! the source. Every token and every error is described exactly by the
//! grammar in [`grammar`], over the characters of the input.

pub mod chars;
pub mod error;
pub mod grammar;
pub mod laws;
pub mod lexer;
pub mod text;
pub mod token;

pub use error::LexError;
pub use lexer::JSONLexer;
pub use token::{Span, SpannedToken, Token};
