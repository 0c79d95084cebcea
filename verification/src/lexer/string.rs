//! String literals and their escape sequences.

use std::borrow::Cow;
use vstd::prelude::*;
use crate::chars::{char_from_u32, hex_digit_exec, hex_digit_value, is_json_control_exec, push_char};
use crate::error::LexError;
use crate::grammar::{
    escape_error, escape_len, hex_digit_error, is_high_surrogate, lemma_prepend_twice, prepend,
    scan_escape, scan_hex4, scan_string, scan_unicode_escape, surrogate_pair_value,
};
use crate::text::{byte_offset, char_slice, preceded_by_quote, lemma_offset_bounds, lemma_offset_step};
use crate::token::{Span, SpannedToken, Token, TokenView};
use super::JSONLexer;

verus! {

/// The value of the first `n` hexadecimal digits from index `h`.
spec fn hex_prefix_value(text: Seq<char>, h: int, n: int) -> int
    decreases n,
{
    if n <= 0 {
        0
    } else {
        hex_prefix_value(text, h, n - 1) * 16 + hex_digit_value(text[h + n - 1])
    }
}

/// Where the span of a string literal whose body starts at index `k`
/// begins: at the opening quote where one stands just before the body,
/// else at the body itself.
pub open spec fn string_span_start(text: Seq<char>, k: int) -> int {
    if k >= 1 && text[k - 1] == '"' {
        byte_offset(text, k) - 1
    } else {
        byte_offset(text, k)
    }
}

/// What reading a string literal whose opening quote stood just before
/// index `k` yields: its characters with escapes resolved, borrowed from the
/// input exactly where no escape occurs, spanning from the opening quote to
/// past the closing one, with the lexer after it; or the error.
pub open spec fn string_outcome(
    text: Seq<char>,
    k: int,
    res: Result<SpannedToken, LexError>,
    index_after: int,
) -> bool {
    match scan_string(text, k) {
        Ok(r) => res matches Ok(t) && t.token@ == TokenView::String(r.content)
            && t.token.borrows_string() == !r.escaped && t.span.start == string_span_start(text, k)
            && t.span.end == byte_offset(text, r.end) && index_after == r.end,
        Err(err) => res matches Err(x) && x@ == err,
    }
}

impl<'a> JSONLexer<'a> {
    /// Read four hexadecimal digits.
    fn read_hex4(&mut self) -> (res: Result<u16, LexError>)
        ensures
            final(self)@.text == old(self)@.text,
            final(self)@.is_consistent(),
            final(self)@.index >= old(self)@.index,
            match scan_hex4(old(self)@.text, old(self)@.index) {
                Ok(v) => res matches Ok(r) && r == v && final(self)@.index == old(self)@.index + 4,
                Err(e) => res matches Err(x) && x@ == e,
            },
    {
        let ghost text = self@.text;
        let ghost h = self@.index;
        let mut value: u16 = 0;
        let mut i: usize = 0;
        while i < 4
            invariant
                self@.text == text,
                text == old(self)@.text,
                h == old(self)@.index,
                i <= 4,
                self@.index == h + i,
                value == hex_prefix_value(text, h, i as int),
                i == 0 ==> value == 0,
                i <= 1 ==> value < 16,
                i <= 2 ==> value < 256,
                i <= 3 ==> value < 4096,
                forall|j: int| h <= j < h + i ==> #[trigger] hex_digit_error(text, j) is None,
            decreases 4 - i,
        {
            proof {
                use_type_invariant(&*self);
            }
            let (ch, line, col) = match self.read_char() {
                Some(v) => v,
                None => {
                    let e = LexError::InvalidEscape {
                        reason: String::from_str("unexpected EOF in unicode escape"),
                        line: self.line,
                        column: self.column,
                    };
                    proof {
                        use_type_invariant(&*self);
                        assert(hex_digit_error(text, h + i) == Some(e@));
                    }
                    return Err(e);
                },
            };
            let digit = match hex_digit_exec(ch) {
                Some(v) => v,
                None => {
                    let mut reason = String::from_str("expected hexadecimal digit, found '");
                    push_char(&mut reason, ch);
                    reason.append("'");
                    let e = LexError::InvalidEscape { reason, line, column: col };
                    proof {
                        assert(reason@ =~= "expected hexadecimal digit, found '"@ + seq![ch] + "'"@);
                        assert(hex_digit_error(text, h + i) == Some(e@));
                    }
                    return Err(e);
                },
            };
            assert((value << 4u16) | digit == value * 16 + digit) by (bit_vector)
                requires
                    value < 4096,
                    digit < 16,
            ;
            value = (value << 4) | digit;
            assert(hex_digit_error(text, h + i) is None);
            i += 1;
        }
        proof {
            assert(hex_digit_error(text, h) is None);
            assert(hex_digit_error(text, h + 1) is None);
            assert(hex_digit_error(text, h + 2) is None);
            assert(hex_digit_error(text, h + 3) is None);
            reveal_with_fuel(hex_prefix_value, 5);
            use_type_invariant(&*self);
        }
        Ok(value)
    }

    /// The error for a malformed escape, at the current position.
    fn escape_error_here(&self, reason: String) -> (e: LexError)
        ensures
            e@ == escape_error(self@.text, self@.index, reason@),
    {
        proof {
            use_type_invariant(self);
        }
        LexError::InvalidEscape { reason, line: self.line, column: self.column }
    }

    /// Read the digits of a `\u` escape (and of a second one where the
    /// first gives a high surrogate).
    fn read_unicode_escape(&mut self) -> (res: Result<char, LexError>)
        ensures
            final(self)@.text == old(self)@.text,
            final(self)@.is_consistent(),
            final(self)@.index >= old(self)@.index,
            match scan_unicode_escape(old(self)@.text, old(self)@.index) {
                Ok(c) => res matches Ok(r) && r == c && final(self)@.index == old(self)@.index + (
                if is_high_surrogate(scan_hex4(old(self)@.text, old(self)@.index)->Ok_0) {
                    10int
                } else {
                    4int
                }),
                Err(e) => res matches Err(x) && x@ == e,
            },
    {
        let ghost text = self@.text;
        let ghost h = self@.index;
        let first = self.read_hex4()?;
        if 0xD800 <= first && first <= 0xDBFF {
            match self.read_char() {
                Some((c, l, ccol)) => {
                    if c != '\\' {
                        return Err(
                            LexError::InvalidEscape {
                                reason: String::from_str("expected second surrogate pair"),
                                line: l,
                                column: ccol,
                            },
                        );
                    }
                },
                None => {
                    return Err(
                        self.escape_error_here(String::from_str("expected second surrogate pair")),
                    );
                },
            }
            match self.read_char() {
                Some((c, l, ccol)) => {
                    if c != 'u' {
                        return Err(
                            LexError::InvalidEscape {
                                reason: String::from_str(
                                    "expected '\\u' for second surrogate pair",
                                ),
                                line: l,
                                column: ccol,
                            },
                        );
                    }
                },
                None => {
                    return Err(
                        self.escape_error_here(
                            String::from_str("expected '\\u' for second surrogate pair"),
                        ),
                    );
                },
            }
            let second = self.read_hex4()?;
            if !(0xDC00 <= second && second <= 0xDFFF) {
                return Err(self.escape_error_here(String::from_str("invalid low surrogate")));
            }
            let high: u32 = first as u32 - 0xD800;
            let low: u32 = second as u32 - 0xDC00;
            assert(((high << 10u32) | low) == high * 1024 + low) by (bit_vector)
                requires
                    high < 1024,
                    low < 1024,
            ;
            let codepoint: u32 = 0x10000 + ((high << 10) | low);
            assert(codepoint == surrogate_pair_value(first as int, second as int));
            match char_from_u32(codepoint) {
                Some(c) => Ok(c),
                None => Err(self.escape_error_here(String::from_str("invalid unicode codepoint"))),
            }
        } else if 0xDC00 <= first && first <= 0xDFFF {
            Err(self.escape_error_here(String::from_str("unexpected low surrogate")))
        } else {
            match char_from_u32(first as u32) {
                Some(c) => Ok(c),
                None => Err(self.escape_error_here(String::from_str("invalid unicode codepoint"))),
            }
        }
    }

    /// Read an escape sequence whose backslash was just read: the character
    /// it stands for.
    fn read_escape(&mut self) -> (res: Result<char, LexError>)
        requires
            old(self)@.index >= 1,
            old(self)@.text[old(self)@.index - 1] == '\\',
        ensures
            final(self)@.text == old(self)@.text,
            final(self)@.is_consistent(),
            final(self)@.index >= old(self)@.index,
            match scan_escape(old(self)@.text, old(self)@.index - 1) {
                Ok(c) => res matches Ok(r) && r == c && final(self)@.index == old(self)@.index - 1
                    + escape_len(old(self)@.text, old(self)@.index - 1),
                Err(e) => res matches Err(x) && x@ == e,
            },
    {
        proof {
            use_type_invariant(&*self);
        }
        let (escaped, eline, ecol) = match self.read_char() {
            Some(v) => v,
            None => {
                proof {
                    use_type_invariant(&*self);
                }
                return Err(LexError::UnterminatedString { line: self.line, column: self.column });
            },
        };
        match escaped {
            '"' => Ok('"'),
            '\\' => Ok('\\'),
            '/' => Ok('/'),
            'n' => Ok('\n'),
            't' => Ok('\t'),
            'r' => Ok('\r'),
            'b' => Ok('\x08'),
            'f' => Ok('\x0C'),
            'u' => self.read_unicode_escape(),
            _ => {
                let mut reason = String::from_str("invalid escape sequence '\\");
                push_char(&mut reason, escaped);
                reason.append("'");
                proof {
                    assert(reason@ =~= "invalid escape sequence '\\"@ + seq![escaped] + "'"@);
                }
                Err(LexError::InvalidEscape { reason, line: eline, column: ecol })
            },
        }
    }

    /// Lex a string literal whose opening quote was just read. The span
    /// starts at that quote where one stands just before the position, else
    /// at the position itself.
    pub fn lex_string(&mut self) -> (res: Result<SpannedToken<'a>, LexError>)
        ensures
            final(self)@.text == old(self)@.text,
            final(self)@.is_consistent(),
            final(self)@.index >= old(self)@.index,
            string_outcome(old(self)@.text, old(self)@.index, res, final(self)@.index),
    {
        proof {
            use_type_invariant(&*self);
            lemma_offset_bounds(self@.text, 0, self@.index);
        }
        let ghost text = self@.text;
        let ghost k = self@.index;
        let start = if preceded_by_quote(self.input, self.pos, Ghost(k)) {
            self.pos - 1
        } else {
            self.pos
        };
        let content_start = self.pos;
        let mut processed: Option<String> = None;
        let ghost mut prefix: Seq<char> = Seq::empty();
        proof {
            assert(prefix =~= text.subrange(k, k));
            assert(prepend(prefix, false, scan_string(text, k)) =~= scan_string(text, k)) by {
                match scan_string(text, k) {
                    Ok(r) => {
                        assert(prefix + r.content =~= r.content);
                    },
                    Err(_) => {},
                }
            }
        }
        loop
            invariant
                self@.text == text,
                text == old(self)@.text,
                k == old(self)@.index,
                0 <= k <= self@.index <= text.len(),
                content_start == byte_offset(text, k),
                start == string_span_start(text, k),
                processed matches Some(acc) ==> acc@ == prefix,
                processed is None ==> prefix == text.subrange(k, self@.index),
                scan_string(text, k) == prepend(prefix, processed is Some, scan_string(text, self@.index)),
            decreases text.len() - self@.index,
        {
            proof {
                use_type_invariant(&*self);
            }
            let ghost i = self@.index;
            let (ch, line, col) = match self.read_char() {
                Some(v) => v,
                None => {
                    proof {
                        use_type_invariant(&*self);
                    }
                    return Err(LexError::UnterminatedString { line: self.line, column: self.column });
                },
            };
            proof {
                use_type_invariant(&*self);
                lemma_offset_step(text, i);
                lemma_offset_bounds(text, k, i);
            }
            if ch == '"' {
                let token = match processed {
                    Some(s) => Token::String(Cow::Owned(s)),
                    None => Token::String(
                        Cow::Borrowed(
                            char_slice(self.input, content_start, self.pos - 1, Ghost(k), Ghost(i)),
                        ),
                    ),
                };
                proof {
                    assert(prefix + Seq::<char>::empty() =~= prefix);
                }
                return Ok(SpannedToken { token, span: Span { start, end: self.pos } });
            } else if ch == '\\' {
                let mut acc = match processed {
                    Some(s) => s,
                    None => String::from_str(
                        char_slice(self.input, content_start, self.pos - 1, Ghost(k), Ghost(i)),
                    ),
                };
                let c = self.read_escape()?;
                push_char(&mut acc, c);
                proof {
                    lemma_prepend_twice(
                        prefix,
                        processed is Some,
                        seq![c],
                        true,
                        scan_string(text, self@.index),
                    );
                    prefix = prefix + seq![c];
                }
                processed = Some(acc);
            } else if is_json_control_exec(ch) {
                return Err(
                    LexError::InvalidString {
                        reason: String::from_str("control characters are not allowed"),
                        line,
                        column: col,
                    },
                );
            } else {
                processed = match processed {
                    Some(mut acc) => {
                        push_char(&mut acc, ch);
                        Some(acc)
                    },
                    None => None,
                };
                proof {
                    lemma_prepend_twice(
                        prefix,
                        processed is Some,
                        seq![ch],
                        false,
                        scan_string(text, self@.index),
                    );
                    prefix = prefix + seq![ch];
                    assert(text.subrange(k, i + 1) =~= text.subrange(k, i) + seq![ch]);
                }
            }
        }
    }
}

} // verus!
