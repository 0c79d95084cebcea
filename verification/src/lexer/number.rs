//! Number literals.

use vstd::prelude::*;
use crate::chars::{ends_number_exec, is_digit_exec, push_char};
use crate::error::LexError;
use crate::grammar::{digit_run, number_end, number_error, scan_exponent, scan_fraction, scan_number};
use crate::text::{byte_offset, char_slice, char_width, lemma_offset_unique, utf8_width};
use crate::token::{Span, SpannedToken, Token, TokenView};
use super::JSONLexer;

verus! {

/// The character index whose byte offset in `text` is `b`.
pub open spec fn index_of_offset(text: Seq<char>, b: int) -> int {
    choose|j: int| 0 <= j <= text.len() && #[trigger] byte_offset(text, j) == b
}

/// What reading a number whose first character `first` stood just before
/// index `k` yields: the number from the first character to where it ends,
/// spanning the bytes in between, with the lexer after it; or the error.
pub open spec fn number_outcome(
    text: Seq<char>,
    k: int,
    first: char,
    res: Result<SpannedToken, LexError>,
    index_after: int,
) -> bool {
    let start = byte_offset(text, k) - utf8_width(first);
    match scan_number(text, k, first) {
        Ok(e) => res matches Ok(t) && t.token@ == TokenView::Number(
            text.subrange(index_of_offset(text, start), e),
        ) && t.span.start == start && t.span.end == byte_offset(text, e) && index_after == e,
        Err(err) => res matches Err(x) && x@ == err,
    }
}

impl<'a> JSONLexer<'a> {
    /// Consume digits up to the next other character.
    fn skip_digits(&mut self)
        ensures
            final(self)@.text == old(self)@.text,
            final(self)@.is_consistent(),
            final(self)@.index == digit_run(old(self)@.text, old(self)@.index),
            final(self)@.index >= old(self)@.index,
    {
        let ghost text = self@.text;
        let ghost k0 = self@.index;
        loop
            invariant
                self@.text == text,
                text == old(self)@.text,
                k0 == old(self)@.index,
                k0 <= self@.index,
                digit_run(text, self@.index) == digit_run(text, k0),
            decreases text.len() - self@.index,
        {
            proof {
                use_type_invariant(&*self);
            }
            match self.peek_char() {
                Some(ch) => {
                    if is_digit_exec(ch) {
                        self.next_char();
                    } else {
                        return;
                    }
                },
                None => return,
            }
        }
    }

    /// The error for a malformed number, at the current position.
    fn number_error_here(&self, reason: String) -> (e: LexError)
        ensures
            e@ == number_error(self@.text, self@.index, reason@),
    {
        proof {
            use_type_invariant(self);
        }
        LexError::InvalidNumber { reason, line: self.line, column: self.column }
    }

    /// Check that a number ends here: at the end of the input, or before
    /// whitespace or a delimiter.
    fn check_number_end(&self) -> (res: Result<(), LexError>)
        ensures
            match number_end(self@.text, self@.index) {
                Ok(_) => res is Ok,
                Err(err) => res matches Err(x) && x@ == err,
            },
    {
        proof {
            use_type_invariant(self);
        }
        if let Some(ch) = self.peek_char() {
            if !ends_number_exec(ch) {
                let mut reason = String::from_str("invalid character after number: '");
                push_char(&mut reason, ch);
                reason.append("'");
                assert(reason@ =~= "invalid character after number: '"@ + seq![ch] + "'"@);
                return Err(self.number_error_here(reason));
            }
        }
        Ok(())
    }

    /// Read an optional exponent, then check where the number ends.
    fn lex_exponent(&mut self) -> (res: Result<(), LexError>)
        ensures
            final(self)@.text == old(self)@.text,
            final(self)@.is_consistent(),
            final(self)@.index >= old(self)@.index,
            match scan_exponent(old(self)@.text, old(self)@.index) {
                Ok(e) => res is Ok && final(self)@.index == e,
                Err(err) => res matches Err(x) && x@ == err,
            },
    {
        proof {
            use_type_invariant(&*self);
        }
        let ghost text = self@.text;
        if let Some(c) = self.peek_char() {
            if c == 'e' || c == 'E' {
                self.next_char();
                if let Some(sign) = self.peek_char() {
                    if sign == '+' || sign == '-' {
                        self.next_char();
                    }
                }
                match self.peek_char() {
                    Some(d) => {
                        if is_digit_exec(d) {
                            self.next_char();
                        } else {
                            return Err(
                                self.number_error_here(String::from_str("expected digit in exponent")),
                            );
                        }
                    },
                    None => {
                        return Err(
                            self.number_error_here(String::from_str("expected digit in exponent")),
                        );
                    },
                }
                self.skip_digits();
            }
        }
        self.check_number_end()
    }

    /// Lex a number whose first character, `first` (a digit or a minus
    /// sign), was just read.
    pub fn lex_number(&mut self, first: char) -> (res: Result<SpannedToken<'a>, LexError>)
        requires
            byte_offset(old(self)@.text, old(self)@.index) >= utf8_width(first),
            scan_number(old(self)@.text, old(self)@.index, first) is Ok ==> exists|j: int|
                0 <= j <= old(self)@.index && #[trigger] byte_offset(old(self)@.text, j) == byte_offset(
                    old(self)@.text,
                    old(self)@.index,
                ) - utf8_width(first),
        ensures
            final(self)@.text == old(self)@.text,
            final(self)@.is_consistent(),
            final(self)@.index >= old(self)@.index,
            number_outcome(old(self)@.text, old(self)@.index, first, res, final(self)@.index),
    {
        proof {
            use_type_invariant(&*self);
        }
        let ghost text = self@.text;
        let ghost k = self@.index;
        let w = char_width(first);
        let start = self.pos - w;

        // Sign
        let first_digit = if first == '-' {
            match self.peek_char() {
                Some(ch) => {
                    if is_digit_exec(ch) {
                        self.next_char();
                        ch
                    } else {
                        return Err(
                            self.number_error_here(String::from_str("expected digit after '-'")),
                        );
                    }
                },
                None => {
                    return Err(
                        self.number_error_here(String::from_str("expected digit after '-'")),
                    );
                },
            }
        } else {
            first
        };

        // Integer part
        if first_digit == '0' {
            if let Some(ch) = self.peek_char() {
                if is_digit_exec(ch) {
                    return Err(
                        self.number_error_here(String::from_str("leading zeros are not allowed")),
                    );
                }
            }
        } else {
            self.skip_digits();
        }
        assert(scan_number(text, k, first) == scan_fraction(text, self@.index));

        // Fraction
        if let Some(c) = self.peek_char() {
            if c == '.' {
                self.next_char();
                match self.peek_char() {
                    Some(d) => {
                        if is_digit_exec(d) {
                            self.next_char();
                        } else {
                            return Err(
                                self.number_error_here(
                                    String::from_str("expected digit after decimal point"),
                                ),
                            );
                        }
                    },
                    None => {
                        return Err(
                            self.number_error_here(
                                String::from_str("expected digit after decimal point"),
                            ),
                        );
                    },
                }
                self.skip_digits();
            }
        }
        assert(scan_number(text, k, first) == scan_exponent(text, self@.index));

        // Exponent and terminator
        self.lex_exponent()?;

        proof {
            use_type_invariant(&*self);
            let j = choose|j: int|
                0 <= j <= k && #[trigger] byte_offset(text, j) == byte_offset(text, k) - utf8_width(
                    first,
                );
            lemma_offset_unique(text, j, index_of_offset(text, start as int));
        }
        let end = self.pos;
        let number = char_slice(
            self.input,
            start,
            end,
            Ghost(index_of_offset(text, start as int)),
            Ghost(self@.index),
        );
        Ok(SpannedToken { token: Token::Number(number), span: Span { start, end } })
    }
}

} // verus!
