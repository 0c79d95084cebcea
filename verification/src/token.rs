//! Tokens and the byte spans that locate them in the source.

use std::borrow::Cow;
use vstd::prelude::*;

verus! {

/// A byte range in the source input.
#[derive(Debug, Clone, Copy, PartialEq, Eq, Structural)]
pub struct Span {
    /// Byte offset of the first character (0-indexed).
    pub start: usize,
    /// Byte offset of the first character *after* the token (exclusive).
    pub end: usize,
}

/// A [`Token`] paired with its source [`Span`].
#[derive(Debug, PartialEq)]
pub struct SpannedToken<'a> {
    pub token: Token<'a>,
    pub span: Span,
}

/// A single token from a JSON source string.
///
/// Tokens are zero-copy where possible: [`String`](Token::String) borrows
/// unescaped text, [`Number`](Token::Number) borrows the raw digit slice,
/// and keywords are unit variants.
#[derive(Debug, PartialEq)]
pub enum Token<'a> {
    /// `{`
    LeftBrace,
    /// `}`
    RightBrace,
    /// `[`
    LeftBracket,
    /// `]`
    RightBracket,
    /// `:`
    Colon,
    /// `,`
    Comma,
    /// A string value. Borrows the input when no escape sequences are present,
    /// otherwise owns a [`String`] with escapes resolved.
    String(Cow<'a, str>),
    /// A numeric value (integer or floating-point). Borrows the raw source slice.
    Number(&'a str),
    /// The keyword `true`
    True,
    /// The keyword `false`
    False,
    /// The keyword `null`
    Null,
    /// End of input: what `next_token` returns once only whitespace is left.
    Eof,
}

/// What a token means: its kind, and the characters of a string or number.
pub enum TokenView {
    LeftBrace,
    RightBrace,
    LeftBracket,
    RightBracket,
    Colon,
    Comma,
    String(Seq<char>),
    Number(Seq<char>),
    True,
    False,
    Null,
    Eof,
}

impl<'a> View for Token<'a> {
    type V = TokenView;

    open spec fn view(&self) -> TokenView {
        match self {
            Token::LeftBrace => TokenView::LeftBrace,
            Token::RightBrace => TokenView::RightBrace,
            Token::LeftBracket => TokenView::LeftBracket,
            Token::RightBracket => TokenView::RightBracket,
            Token::Colon => TokenView::Colon,
            Token::Comma => TokenView::Comma,
            Token::String(s) => TokenView::String(s@),
            Token::Number(s) => TokenView::Number(s@),
            Token::True => TokenView::True,
            Token::False => TokenView::False,
            Token::Null => TokenView::Null,
            Token::Eof => TokenView::Eof,
        }
    }
}

impl<'a> Token<'a> {
    /// Whether this is a string token that borrows its text from the input.
    pub open spec fn borrows_string(&self) -> bool {
        self matches Token::String(Cow::Borrowed(_))
    }
}

impl<'a> Clone for Token<'a> {
    fn clone(&self) -> (r: Self)
        ensures
            r == *self,
    {
        match self {
            Token::LeftBrace => Token::LeftBrace,
            Token::RightBrace => Token::RightBrace,
            Token::LeftBracket => Token::LeftBracket,
            Token::RightBracket => Token::RightBracket,
            Token::Colon => Token::Colon,
            Token::Comma => Token::Comma,
            Token::String(Cow::Borrowed(s)) => Token::String(Cow::Borrowed(*s)),
            Token::String(Cow::Owned(s)) => Token::String(Cow::Owned(s.clone())),
            Token::Number(s) => Token::Number(*s),
            Token::True => Token::True,
            Token::False => Token::False,
            Token::Null => Token::Null,
            Token::Eof => Token::Eof,
        }
    }
}

impl<'a> Clone for SpannedToken<'a> {
    fn clone(&self) -> (r: Self)
        ensures
            r == *self,
    {
        SpannedToken { token: self.token.clone(), span: self.span }
    }
}

} // verus!
