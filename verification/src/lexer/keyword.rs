//! The keywords `true`, `false` and `null`.

use vstd::prelude::*;
use crate::error::LexError;
use crate::grammar::scan_keyword;
use crate::text::{byte_offset, lemma_offset_bounds};
use crate::token::{Span, SpannedToken, Token, TokenView};
use super::JSONLexer;

verus! {

/// What reading the keyword `word` (first character `first`, already read
/// before index `k`) yields: `token`, spanning from the byte before offset
/// `k` to the end of the keyword, with the lexer after it; or the error.
pub open spec fn keyword_outcome(
    text: Seq<char>,
    k: int,
    word: Seq<char>,
    first: char,
    token: TokenView,
    res: Result<SpannedToken, LexError>,
    index_after: int,
) -> bool {
    match scan_keyword(text, k, word, first) {
        Ok(e) => res matches Ok(t) && t.token@ == token && t.span.start == byte_offset(text, k) - 1
            && t.span.end == byte_offset(text, e) && index_after == e,
        Err(err) => res matches Err(x) && x@ == err,
    }
}

proof fn lemma_start_positive(text: Seq<char>, k: int)
    requires
        1 <= k <= text.len(),
    ensures
        byte_offset(text, k) >= 1,
{
    lemma_offset_bounds(text, 0, k);
}

impl<'a> JSONLexer<'a> {
    /// Lex the keyword `true`, whose `t` was just read.
    pub fn lex_true(&mut self) -> (res: Result<SpannedToken<'a>, LexError>)
        requires
            old(self)@.index >= 1,
        ensures
            final(self)@.text == old(self)@.text,
            final(self)@.is_consistent(),
            final(self)@.index >= old(self)@.index,
            keyword_outcome(
                old(self)@.text,
                old(self)@.index,
                "true"@,
                't',
                TokenView::True,
                res,
                final(self)@.index,
            ),
    {
        proof {
            use_type_invariant(&*self);
            lemma_start_positive(self@.text, self@.index);
        }
        let start = self.pos - 1;
        self.expect_keyword("true", 't')?;
        self.ensure_keyword_terminated()?;
        proof {
            use_type_invariant(&*self);
        }
        Ok(SpannedToken { token: Token::True, span: Span { start, end: self.pos } })
    }

    /// Lex the keyword `false`, whose `f` was just read.
    pub fn lex_false(&mut self) -> (res: Result<SpannedToken<'a>, LexError>)
        requires
            old(self)@.index >= 1,
        ensures
            final(self)@.text == old(self)@.text,
            final(self)@.is_consistent(),
            final(self)@.index >= old(self)@.index,
            keyword_outcome(
                old(self)@.text,
                old(self)@.index,
                "false"@,
                'f',
                TokenView::False,
                res,
                final(self)@.index,
            ),
    {
        proof {
            use_type_invariant(&*self);
            lemma_start_positive(self@.text, self@.index);
        }
        let start = self.pos - 1;
        self.expect_keyword("false", 'f')?;
        self.ensure_keyword_terminated()?;
        proof {
            use_type_invariant(&*self);
        }
        Ok(SpannedToken { token: Token::False, span: Span { start, end: self.pos } })
    }

    /// Lex the keyword `null`, whose `n` was just read.
    pub fn lex_null(&mut self) -> (res: Result<SpannedToken<'a>, LexError>)
        requires
            old(self)@.index >= 1,
        ensures
            final(self)@.text == old(self)@.text,
            final(self)@.is_consistent(),
            final(self)@.index >= old(self)@.index,
            keyword_outcome(
                old(self)@.text,
                old(self)@.index,
                "null"@,
                'n',
                TokenView::Null,
                res,
                final(self)@.index,
            ),
    {
        proof {
            use_type_invariant(&*self);
            lemma_start_positive(self@.text, self@.index);
        }
        let start = self.pos - 1;
        self.expect_keyword("null", 'n')?;
        self.ensure_keyword_terminated()?;
        proof {
            use_type_invariant(&*self);
        }
        Ok(SpannedToken { token: Token::Null, span: Span { start, end: self.pos } })
    }
}

} // verus!
