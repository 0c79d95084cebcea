//! The lexer: its state, reading characters, and the dispatch to the
//! token kinds.

mod keyword;
mod number;
mod string;

pub use keyword::keyword_outcome;
pub use number::{index_of_offset, number_outcome};
pub use string::{string_outcome, string_span_start};

use vstd::prelude::*;
use vstd::string::StringSliceAdditionalSpecFns;
use vstd::utf8::encode_utf8;
use crate::chars::{is_ascii_alphanumeric_exec, is_json_whitespace_exec, push_char};
use crate::error::LexError;
use crate::grammar::{
    keyword_found, keyword_mismatch, keyword_reads, keyword_unterminated, continues_word,
    line_col, scan_string, scan_token, skip_ws, token_error,
};
use crate::text::{
    byte_offset, char_at, char_width, lemma_encode_len, lemma_offset_bounds, lemma_offset_step,
    lemma_offset_unique,
};
use crate::token::{Span, SpannedToken, Token};

verus! {

/// What `next_token` yields on a lexer over `text` that stands at index `k`:
/// after whitespace, the token that starts there, spanning the bytes from
/// its first character to past its last, with the lexer after it; a string
/// token borrows its text from the input exactly where it holds no escape.
/// Or the error that the grammar gives there.
pub open spec fn next_token_outcome(
    text: Seq<char>,
    k: int,
    res: Result<SpannedToken, LexError>,
    index_after: int,
) -> bool {
    let s = skip_ws(text, k);
    match scan_token(text, s) {
        Ok((token, e)) => res matches Ok(t) && t.token@ == token && t.span.start == byte_offset(
            text,
            s,
        ) && t.span.end == byte_offset(text, e) && index_after == e && (t.token.borrows_string()
            <==> (token is String && !scan_string(text, s + 1)->Ok_0.escaped)),
        Err(err) => res matches Err(x) && x@ == err,
    }
}

/// What `next_token` gives, as an item of the token stream: `None` in place
/// of `Eof`.
pub open spec fn as_item<'a>(res: Result<SpannedToken<'a>, LexError>) -> Option<
    Result<SpannedToken<'a>, LexError>,
> {
    match res {
        Ok(t) => if t.token@ is Eof {
            None
        } else {
            Some(res)
        },
        Err(_) => Some(res),
    }
}

/// What `next` yields on a lexer over `text` that stands at index `k`:
/// `None` exactly where only whitespace is left, leaving the lexer at the
/// end; else what `next_token` yields there.
pub open spec fn next_outcome(
    text: Seq<char>,
    k: int,
    r: Option<Result<SpannedToken, LexError>>,
    index_after: int,
) -> bool {
    match r {
        None => skip_ws(text, k) >= text.len() && index_after == skip_ws(text, k),
        Some(res) => skip_ws(text, k) < text.len() && next_token_outcome(text, k, res, index_after)
            && !(res matches Ok(t) && t.token@ is Eof),
    }
}

/// A zero-copy JSON lexer.
///
/// Yields [`SpannedToken`] values with byte-level position information.
pub struct JSONLexer<'a> {
    input: &'a str,
    pos: usize,
    line: usize,
    column: usize,
    index: Ghost<int>,
}

/// The state of a lexer: the characters of its input, the index of the
/// next character it reads, and the byte offset, line and column of that
/// character.
pub struct LexerView {
    pub text: Seq<char>,
    pub index: int,
    pub pos: int,
    pub line: int,
    pub column: int,
}

impl LexerView {
    /// The position is a character index within the input, its byte offset
    /// in the UTF-8 encoding, and its line and column.
    pub open spec fn is_consistent(self) -> bool {
        &&& 0 <= self.index <= self.text.len()
        &&& self.pos == byte_offset(self.text, self.index)
        &&& self.line == line_col(self.text, self.index).0
        &&& self.column == line_col(self.text, self.index).1
    }
}

impl<'a> View for JSONLexer<'a> {
    type V = LexerView;

    closed spec fn view(&self) -> LexerView {
        LexerView {
            text: self.input@,
            index: self.index@,
            pos: self.pos as int,
            line: self.line as int,
            column: self.column as int,
        }
    }
}

/// Line and column stay within one more than the number of characters read.
proof fn lemma_line_col_bounds(text: Seq<char>, k: int)
    requires
        0 <= k,
    ensures
        1 <= line_col(text, k).0 <= k + 1,
        1 <= line_col(text, k).1 <= k + 1,
    decreases k,
{
    if k > 0 {
        lemma_line_col_bounds(text, k - 1);
    }
}

impl<'a> JSONLexer<'a> {
    #[verifier::type_invariant]
    closed spec fn well_formed(self) -> bool {
        &&& 0 <= self.index@ <= self.input@.len()
        &&& self.pos == byte_offset(self.input@, self.index@)
        &&& self.line == line_col(self.input@, self.index@).0
        &&& self.column == line_col(self.input@, self.index@).1
        &&& self.input.spec_bytes().len() < usize::MAX
    }

    /// Create a new lexer from a JSON source string.
    pub fn new(input: &'a str) -> (lexer: Self)
        requires
            input.spec_bytes().len() < usize::MAX,
        ensures
            lexer@.text == input@,
            lexer@.index == 0,
            lexer@.is_consistent(),
    {
        proof {
            assert(input@.take(0) =~= Seq::<char>::empty());
            assert(encode_utf8(input@.take(0)) =~= Seq::<u8>::empty());
        }
        Self { input, pos: 0, line: 1, column: 1, index: Ghost(0) }
    }

    /// Consume the next character, if any.
    fn next_char(&mut self) -> (r: Option<char>)
        ensures
            final(self)@.text == old(self)@.text,
            final(self)@.is_consistent(),
            old(self)@.index < old(self)@.text.len() ==> r == Some(old(self)@.text[old(self)@.index])
                && final(self)@.index == old(self)@.index + 1,
            old(self)@.index >= old(self)@.text.len() ==> r is None && final(self)@.index
                == old(self)@.index,
    {
        proof {
            use_type_invariant(&*self);
        }
        let ghost text = self.input@;
        let ghost k = self.index@;
        let ch = match char_at(self.input, self.pos, Ghost(k)) {
            Some(c) => c,
            None => return None,
        };
        let w = char_width(ch);
        proof {
            lemma_offset_step(text, k);
            lemma_offset_bounds(text, k + 1, text.len() as int);
            lemma_encode_len(text);
            lemma_line_col_bounds(text, k);
            lemma_line_col_bounds(text, k + 1);
        }
        let (line, column) = if ch == '\n' {
            (self.line + 1, 1)
        } else {
            (self.line, self.column + 1)
        };
        *self = JSONLexer { input: self.input, pos: self.pos + w, line, column, index: Ghost(k + 1) };
        Some(ch)
    }

    /// Consume the next character, if any, with the line and column where it stood.
    fn read_char(&mut self) -> (r: Option<(char, usize, usize)>)
        ensures
            final(self)@.text == old(self)@.text,
            final(self)@.is_consistent(),
            old(self)@.index < old(self)@.text.len() ==> (r matches Some((c, line, column)) && c
                == old(self)@.text[old(self)@.index] && line == line_col(
                old(self)@.text,
                old(self)@.index,
            ).0 && column == line_col(old(self)@.text, old(self)@.index).1) && final(self)@.index
                == old(self)@.index + 1,
            old(self)@.index >= old(self)@.text.len() ==> r is None && final(self)@.index
                == old(self)@.index,
    {
        proof {
            use_type_invariant(&*self);
        }
        let line = self.line;
        let col = self.column;
        match self.next_char() {
            Some(ch) => Some((ch, line, col)),
            None => None,
        }
    }

    /// The next character, if any, without consuming it.
    fn peek_char(&self) -> (r: Option<char>)
        ensures
            r == (if self@.index < self@.text.len() {
                Some(self@.text[self@.index])
            } else {
                None::<char>
            }),
    {
        proof {
            use_type_invariant(self);
        }
        char_at(self.input, self.pos, Ghost(self.index@))
    }

    /// Consume whitespace up to the next other character.
    fn skip_whitespace(&mut self)
        ensures
            final(self)@.text == old(self)@.text,
            final(self)@.is_consistent(),
            final(self)@.index == skip_ws(old(self)@.text, old(self)@.index),
            final(self)@.index >= old(self)@.index,
    {
        proof {
            use_type_invariant(&*self);
        }
        let ghost text = self.input@;
        let ghost k0 = self.index@;
        loop
            invariant
                self@.text == text,
                text == old(self)@.text,
                k0 == old(self)@.index,
                0 <= k0 <= self@.index,
                skip_ws(text, self@.index) == skip_ws(text, k0),
            decreases text.len() - self@.index,
        {
            proof {
                use_type_invariant(&*self);
            }
            match self.peek_char() {
                Some(ch) => {
                    if is_json_whitespace_exec(ch) {
                        self.next_char();
                    } else {
                        return;
                    }
                },
                None => return,
            }
        }
    }

    /// Read the rest of the keyword `expected`, whose first character was
    /// read as `first`, and check that the characters found spell it.
    fn expect_keyword(&mut self, expected: &str, first: char) -> (res: Result<(), LexError>)
        ensures
            final(self)@.text == old(self)@.text,
            final(self)@.is_consistent(),
            final(self)@.index == old(self)@.index + keyword_reads(
                old(self)@.text,
                old(self)@.index,
                expected@,
            ),
            ({
                let found = keyword_found(old(self)@.text, old(self)@.index, expected@, first);
                &&& res is Ok <==> found == expected@
                &&& res matches Err(e) ==> e@ == token_error(
                    old(self)@.text,
                    final(self)@.index,
                    keyword_mismatch(expected@, found),
                )
            }),
    {
        proof {
            use_type_invariant(&*self);
        }
        let ghost text = self.input@;
        let ghost k = self.index@;
        let mut found = String::new();
        push_char(&mut found, first);
        let n = expected.unicode_len();
        let mut i: usize = 1;
        proof {
            assert(found@ =~= seq![first] + text.subrange(k, k));
        }
        while i < n
            invariant
                self@.text == text,
                0 <= k <= self@.index <= text.len(),
                1 <= i,
                i <= n || i == 1,
                n == expected@.len(),
                self@.index == k + i - 1,
                found@ == seq![first] + text.subrange(k, self@.index),
            ensures
                self@.text == text,
                self@.index == k + keyword_reads(text, k, expected@),
                found@ == seq![first] + text.subrange(k, self@.index),
            decreases n - i,
        {
            proof {
                use_type_invariant(&*self);
            }
            match self.read_char() {
                Some((c, _, _)) => {
                    push_char(&mut found, c);
                    proof {
                        assert(found@ =~= seq![first] + text.subrange(k, self@.index));
                    }
                },
                None => break,
            }
            i += 1;
        }
        proof {
            use_type_invariant(&*self);
        }
        let wanted = String::from_str(expected);
        if found == wanted {
            Ok(())
        } else {
            let mut reason = String::from_str("expected \"");
            reason.append(expected);
            reason.append("\", found \"");
            reason.append(found.as_str());
            reason.append("\"");
            proof {
                use_type_invariant(&*self);
                assert(reason@ =~= keyword_mismatch(expected@, found@));
            }
            Err(LexError::InvalidToken { reason, line: self.line, column: self.column })
        }
    }

    /// Check that no letter, digit or underscore follows a keyword.
    fn ensure_keyword_terminated(&self) -> (res: Result<(), LexError>)
        ensures
            self@.index < self@.text.len() && continues_word(self@.text[self@.index]) ==> (res
                matches Err(e) && e@ == token_error(
                self@.text,
                self@.index,
                keyword_unterminated(self@.text[self@.index]),
            )),
            !(self@.index < self@.text.len() && continues_word(self@.text[self@.index])) ==> res
                is Ok,
    {
        proof {
            use_type_invariant(self);
        }
        if let Some(ch) = self.peek_char() {
            if is_ascii_alphanumeric_exec(ch) || ch == '_' {
                let mut reason = String::from_str(
                    "keyword must be followed by whitespace, EOF, or a JSON delimiter, found '",
                );
                push_char(&mut reason, ch);
                reason.append("'");
                proof {
                    assert(reason@ =~= keyword_unterminated(ch));
                }
                return Err(LexError::InvalidToken { reason, line: self.line, column: self.column });
            }
        }
        Ok(())
    }

    /// Advance to the next token, skipping whitespace.
    ///
    /// Returns [`Eof`](Token::Eof) once the input is exhausted, and again on
    /// every later call. After an error the lexer position is unspecified
    /// (though it has moved on); discard and create a new lexer to continue.
    pub fn next_token(&mut self) -> (res: Result<SpannedToken<'a>, LexError>)
        ensures
            final(self)@.text == old(self)@.text,
            final(self)@.is_consistent(),
            next_token_outcome(old(self)@.text, old(self)@.index, res, final(self)@.index),
            !(res matches Ok(t) && t.token@ is Eof) ==> final(self)@.index > old(self)@.index,
    {
        self.skip_whitespace();
        proof {
            use_type_invariant(&*self);
        }
        let ghost text = self@.text;
        let ghost s = self@.index;
        let start = self.pos;
        let (ch, line, col) = match self.read_char() {
            None => {
                return Ok(SpannedToken { token: Token::Eof, span: Span { start, end: start } });
            },
            Some(v) => v,
        };
        proof {
            use_type_invariant(&*self);
            lemma_offset_step(text, s);
            lemma_offset_bounds(text, 0, s);
            if scan_token(text, s) is Ok {
                lemma_offset_unique(text, s, index_of_offset(text, start as int));
            }
        }
        let spanned = match ch {
            '{' => Ok(SpannedToken { token: Token::LeftBrace, span: Span { start, end: self.pos } }),
            '}' => Ok(SpannedToken { token: Token::RightBrace, span: Span { start, end: self.pos } }),
            '[' => Ok(SpannedToken { token: Token::LeftBracket, span: Span { start, end: self.pos } }),
            ']' => Ok(
                SpannedToken { token: Token::RightBracket, span: Span { start, end: self.pos } },
            ),
            ':' => Ok(SpannedToken { token: Token::Colon, span: Span { start, end: self.pos } }),
            ',' => Ok(SpannedToken { token: Token::Comma, span: Span { start, end: self.pos } }),
            '"' => self.lex_string(),
            '0'..='9' | '-' => self.lex_number(ch),
            't' => self.lex_true(),
            'f' => self.lex_false(),
            'n' => self.lex_null(),
            _ => Err(LexError::UnexpectedChar { ch, line, column: col }),
        }?;
        Ok(spanned)
    }

    /// The next item of the token stream: the next token or error, or
    /// `None` once the input is exhausted (where `next_token` gives `Eof`).
    pub fn next(&mut self) -> (r: Option<Result<SpannedToken<'a>, LexError>>)
        ensures
            final(self)@.text == old(self)@.text,
            final(self)@.is_consistent(),
            next_outcome(old(self)@.text, old(self)@.index, r, final(self)@.index),
            r is Some ==> final(self)@.index > old(self)@.index,
    {
        let res = self.next_token();
        match res {
            Ok(spanned) => match spanned.token {
                Token::Eof => None,
                token => Some(Ok(SpannedToken { token, span: spanned.span })),
            },
            other => Some(other),
        }
    }
}

} // verus!
