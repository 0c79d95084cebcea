//! Errors that lexing can end in, and their messages.

use vstd::prelude::*;
use crate::chars::push_char;

verus! {

/// Errors that can occur during JSON lexing.
///
/// Every variant carries the `line` and `column` where the error was detected.
#[derive(Debug)]
pub enum LexError {
    /// A character that cannot start any token.
    UnexpectedChar { ch: char, line: usize, column: usize },
    /// End-of-file reached inside a string literal.
    UnterminatedString { line: usize, column: usize },
    /// A string literal violates JSON rules (e.g. bare control character).
    InvalidString { reason: String, line: usize, column: usize },
    /// A number literal violates JSON grammar (e.g. leading zero, trailing decimal).
    InvalidNumber { reason: String, line: usize, column: usize },
    /// An invalid escape sequence inside a string.
    InvalidEscape { reason: String, line: usize, column: usize },
    /// A keyword-like token that doesn't match `true`/`false`/`null`.
    InvalidToken { reason: String, line: usize, column: usize },
}

/// What an error says: its kind, its position and, for most kinds, a reason.
pub enum LexErrorView {
    UnexpectedChar { ch: char, line: int, column: int },
    UnterminatedString { line: int, column: int },
    InvalidString { reason: Seq<char>, line: int, column: int },
    InvalidNumber { reason: Seq<char>, line: int, column: int },
    InvalidEscape { reason: Seq<char>, line: int, column: int },
    InvalidToken { reason: Seq<char>, line: int, column: int },
}

impl View for LexError {
    type V = LexErrorView;

    open spec fn view(&self) -> LexErrorView {
        match self {
            LexError::UnexpectedChar { ch, line, column } => LexErrorView::UnexpectedChar {
                ch: *ch,
                line: *line as int,
                column: *column as int,
            },
            LexError::UnterminatedString { line, column } => LexErrorView::UnterminatedString {
                line: *line as int,
                column: *column as int,
            },
            LexError::InvalidString { reason, line, column } => LexErrorView::InvalidString {
                reason: reason@,
                line: *line as int,
                column: *column as int,
            },
            LexError::InvalidNumber { reason, line, column } => LexErrorView::InvalidNumber {
                reason: reason@,
                line: *line as int,
                column: *column as int,
            },
            LexError::InvalidEscape { reason, line, column } => LexErrorView::InvalidEscape {
                reason: reason@,
                line: *line as int,
                column: *column as int,
            },
            LexError::InvalidToken { reason, line, column } => LexErrorView::InvalidToken {
                reason: reason@,
                line: *line as int,
                column: *column as int,
            },
        }
    }
}

/// The character of a decimal digit `d < 10`.
pub open spec fn digit_char(d: nat) -> char {
    ((48 + d) as u8) as char
}

/// The decimal representation of `n`, without leading zeros.
pub open spec fn decimal(n: nat) -> Seq<char>
    decreases n,
{
    if n < 10 {
        seq![digit_char(n)]
    } else {
        decimal(n / 10) + seq![digit_char(n % 10)]
    }
}

/// `line:column` in decimal.
pub open spec fn position_text(line: int, column: int) -> Seq<char> {
    decimal(line as nat) + ":"@ + decimal(column as nat)
}

/// The message of an error: what `Display` prints for it.
pub open spec fn message_text(e: LexErrorView) -> Seq<char> {
    match e {
        LexErrorView::UnexpectedChar { ch, line, column } => "unexpected character '"@ + seq![ch]
            + "' at "@ + position_text(line, column),
        LexErrorView::UnterminatedString { line, column } => "unterminated string at "@
            + position_text(line, column),
        LexErrorView::InvalidString { reason, line, column } => "invalid string at "@
            + position_text(line, column) + ": "@ + reason,
        LexErrorView::InvalidNumber { reason, line, column } => "invalid number at "@
            + position_text(line, column) + ": "@ + reason,
        LexErrorView::InvalidEscape { reason, line, column } => "invalid escape at "@
            + position_text(line, column) + ": "@ + reason,
        LexErrorView::InvalidToken { reason, line, column } => "invalid token at "@
            + position_text(line, column) + ": "@ + reason,
    }
}

/// Appends the decimal representation of `n` to `s`.
fn push_decimal(s: &mut String, n: usize)
    ensures
        final(s)@ == old(s)@ + decimal(n as nat),
    decreases n,
{
    if n >= 10 {
        push_decimal(s, n / 10);
    }
    let d: u8 = (n % 10) as u8;
    push_char(s, (48u8 + d) as char);
    proof {
        if n < 10 {
            assert(old(s)@ + decimal(n as nat) =~= old(s)@.push(digit_char(n as nat)));
        }
    }
}

/// Appends `line:column` to `s`.
fn push_position(s: &mut String, line: usize, column: usize)
    ensures
        final(s)@ == old(s)@ + position_text(line as int, column as int),
{
    push_decimal(s, line);
    s.append(":");
    push_decimal(s, column);
    proof {
        assert(final(s)@ =~= old(s)@ + position_text(line as int, column as int));
    }
}

impl LexError {
    /// The human-readable message of this error, as its `Display` form.
    pub fn message(&self) -> (m: String)
        ensures
            m@ == message_text(self@),
    {
        match self {
            LexError::UnexpectedChar { ch, line, column } => {
                let mut m = String::from_str("unexpected character '");
                push_char(&mut m, *ch);
                m.append("' at ");
                push_position(&mut m, *line, *column);
                assert(m@ =~= message_text(self@));
                m
            },
            LexError::UnterminatedString { line, column } => {
                let mut m = String::from_str("unterminated string at ");
                push_position(&mut m, *line, *column);
                m
            },
            LexError::InvalidString { reason, line, column } => {
                let mut m = String::from_str("invalid string at ");
                push_position(&mut m, *line, *column);
                m.append(": ");
                m.append(reason.as_str());
                assert(m@ =~= message_text(self@));
                m
            },
            LexError::InvalidNumber { reason, line, column } => {
                let mut m = String::from_str("invalid number at ");
                push_position(&mut m, *line, *column);
                m.append(": ");
                m.append(reason.as_str());
                assert(m@ =~= message_text(self@));
                m
            },
            LexError::InvalidEscape { reason, line, column } => {
                let mut m = String::from_str("invalid escape at ");
                push_position(&mut m, *line, *column);
                m.append(": ");
                m.append(reason.as_str());
                assert(m@ =~= message_text(self@));
                m
            },
            LexError::InvalidToken { reason, line, column } => {
                let mut m = String::from_str("invalid token at ");
                push_position(&mut m, *line, *column);
                m.append(": ");
                m.append(reason.as_str());
                assert(m@ =~= message_text(self@));
                m
            },
        }
    }
}

} // verus!
