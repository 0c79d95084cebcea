//! The lexical grammar of JSON as this lexer reads it: for a source text
//! (its characters) and a character index, which token starts there and
//! where it ends, or which error is reported and at which line and column.

use vstd::prelude::*;
use crate::chars::{
    ends_number, is_ascii_alphanumeric, is_json_control, is_digit, is_hex_digit, is_json_whitespace,
    hex_digit_value,
};
use crate::error::LexErrorView;
use crate::token::TokenView;

verus! {

/// Line and column (both starting at 1) of the character with index `k`:
/// a line feed starts a new line, every other character moves one column on.
pub open spec fn line_col(text: Seq<char>, k: int) -> (int, int)
    decreases k,
{
    if k <= 0 {
        (1, 1)
    } else {
        let (line, column) = line_col(text, k - 1);
        if text[k - 1] == '\n' {
            (line + 1, 1)
        } else {
            (line, column + 1)
        }
    }
}

pub open spec fn unexpected_char(text: Seq<char>, k: int) -> LexErrorView {
    LexErrorView::UnexpectedChar {
        ch: text[k],
        line: line_col(text, k).0,
        column: line_col(text, k).1,
    }
}

pub open spec fn unterminated(text: Seq<char>, k: int) -> LexErrorView {
    LexErrorView::UnterminatedString { line: line_col(text, k).0, column: line_col(text, k).1 }
}

pub open spec fn string_error(text: Seq<char>, k: int, reason: Seq<char>) -> LexErrorView {
    LexErrorView::InvalidString { reason, line: line_col(text, k).0, column: line_col(text, k).1 }
}

pub open spec fn number_error(text: Seq<char>, k: int, reason: Seq<char>) -> LexErrorView {
    LexErrorView::InvalidNumber { reason, line: line_col(text, k).0, column: line_col(text, k).1 }
}

pub open spec fn escape_error(text: Seq<char>, k: int, reason: Seq<char>) -> LexErrorView {
    LexErrorView::InvalidEscape { reason, line: line_col(text, k).0, column: line_col(text, k).1 }
}

pub open spec fn token_error(text: Seq<char>, k: int, reason: Seq<char>) -> LexErrorView {
    LexErrorView::InvalidToken { reason, line: line_col(text, k).0, column: line_col(text, k).1 }
}

/// The index of the first character at or after `k` that is not whitespace.
pub open spec fn skip_ws(text: Seq<char>, k: int) -> int
    decreases text.len() - k,
{
    if 0 <= k < text.len() && is_json_whitespace(text[k]) {
        skip_ws(text, k + 1)
    } else {
        k
    }
}

/// Whether a digit stands at index `i`.
pub open spec fn digit_at(text: Seq<char>, i: int) -> bool {
    0 <= i < text.len() && is_digit(text[i])
}

/// The index of the first character at or after `i` that is not a digit.
pub open spec fn digit_run(text: Seq<char>, i: int) -> int
    decreases text.len() - i,
{
    if digit_at(text, i) {
        digit_run(text, i + 1)
    } else {
        i
    }
}

/// The end of a number at index `i`: accepted where the input ends there
/// or a whitespace or delimiter follows.
pub open spec fn number_end(text: Seq<char>, i: int) -> Result<int, LexErrorView> {
    if 0 <= i < text.len() && !ends_number(text[i]) {
        Err(number_error(text, i, "invalid character after number: '"@ + seq![text[i]] + "'"@))
    } else {
        Ok(i)
    }
}

/// An optional exponent at index `i`: `e` or `E`, an optional sign, digits.
pub open spec fn scan_exponent(text: Seq<char>, i: int) -> Result<int, LexErrorView> {
    if 0 <= i < text.len() && (text[i] == 'e' || text[i] == 'E') {
        let j = if i + 1 < text.len() && (text[i + 1] == '+' || text[i + 1] == '-') {
            i + 2
        } else {
            i + 1
        };
        if digit_at(text, j) {
            number_end(text, digit_run(text, j + 1))
        } else {
            Err(number_error(text, j, "expected digit in exponent"@))
        }
    } else {
        number_end(text, i)
    }
}

/// An optional fraction at index `i`: a point and digits.
pub open spec fn scan_fraction(text: Seq<char>, i: int) -> Result<int, LexErrorView> {
    if 0 <= i < text.len() && text[i] == '.' {
        if digit_at(text, i + 1) {
            scan_exponent(text, digit_run(text, i + 2))
        } else {
            Err(number_error(text, i + 1, "expected digit after decimal point"@))
        }
    } else {
        scan_exponent(text, i)
    }
}

/// A number whose first character `first` has been read and whose next
/// character has index `k`: the index where the number ends, or the error.
pub open spec fn scan_number(text: Seq<char>, k: int, first: char) -> Result<int, LexErrorView> {
    if first == '-' && !digit_at(text, k) {
        Err(number_error(text, k, "expected digit after '-'"@))
    } else {
        let i = if first == '-' { k + 1 } else { k };
        let lead = if first == '-' { text[k] } else { first };
        if lead == '0' {
            if digit_at(text, i) {
                Err(number_error(text, i, "leading zeros are not allowed"@))
            } else {
                scan_fraction(text, i)
            }
        } else {
            scan_fraction(text, digit_run(text, i))
        }
    }
}

/// How many characters a keyword reading takes after the first one, `first`,
/// which was read already: one fewer than the keyword has, or what is left.
pub open spec fn keyword_reads(text: Seq<char>, k: int, word: Seq<char>) -> int {
    let n = if word.len() > 0 { word.len() - 1 } else { 0 };
    if k + n <= text.len() {
        n
    } else {
        text.len() - k
    }
}

/// What a keyword reading found: `first` and the characters read after it.
pub open spec fn keyword_found(text: Seq<char>, k: int, word: Seq<char>, first: char) -> Seq<char> {
    seq![first] + text.subrange(k, k + keyword_reads(text, k, word))
}

/// The reason given when the characters found do not spell the keyword.
pub open spec fn keyword_mismatch(word: Seq<char>, found: Seq<char>) -> Seq<char> {
    "expected \""@ + word + "\", found \""@ + found + "\""@
}

/// Whether `c` may not directly follow a keyword: a letter, digit or underscore.
pub open spec fn continues_word(c: char) -> bool {
    is_ascii_alphanumeric(c) || c == '_'
}

/// The reason given when a keyword runs on into a word character `c`.
pub open spec fn keyword_unterminated(c: char) -> Seq<char> {
    "keyword must be followed by whitespace, EOF, or a JSON delimiter, found '"@ + seq![c] + "'"@
}

/// The keyword `word`, whose first character was read as `first`, with the
/// next character at index `k`: where it ends, or the error.
pub open spec fn scan_keyword(text: Seq<char>, k: int, word: Seq<char>, first: char) -> Result<
    int,
    LexErrorView,
> {
    let r = keyword_reads(text, k, word);
    let found = keyword_found(text, k, word, first);
    if found != word {
        Err(token_error(text, k + r, keyword_mismatch(word, found)))
    } else if k + r < text.len() && continues_word(text[k + r]) {
        Err(token_error(text, k + r, keyword_unterminated(text[k + r])))
    } else {
        Ok(k + r)
    }
}

/// The error for the hexadecimal digit expected at index `i`, if any.
pub open spec fn hex_digit_error(text: Seq<char>, i: int) -> Option<LexErrorView> {
    if i >= text.len() {
        Some(escape_error(text, i, "unexpected EOF in unicode escape"@))
    } else if !is_hex_digit(text[i]) {
        Some(
            escape_error(text, i, "expected hexadecimal digit, found '"@ + seq![text[i]] + "'"@),
        )
    } else {
        None
    }
}

/// The value of the four hexadecimal digits from index `h`.
pub open spec fn hex4_value(text: Seq<char>, h: int) -> int {
    4096 * hex_digit_value(text[h]) + 256 * hex_digit_value(text[h + 1]) + 16 * hex_digit_value(
        text[h + 2],
    ) + hex_digit_value(text[h + 3])
}

/// Four hexadecimal digits from index `h`: their value, or the error at the
/// first that is missing or no digit.
pub open spec fn scan_hex4(text: Seq<char>, h: int) -> Result<int, LexErrorView> {
    if hex_digit_error(text, h) is Some {
        Err(hex_digit_error(text, h)->0)
    } else if hex_digit_error(text, h + 1) is Some {
        Err(hex_digit_error(text, h + 1)->0)
    } else if hex_digit_error(text, h + 2) is Some {
        Err(hex_digit_error(text, h + 2)->0)
    } else if hex_digit_error(text, h + 3) is Some {
        Err(hex_digit_error(text, h + 3)->0)
    } else {
        Ok(hex4_value(text, h))
    }
}

pub open spec fn is_high_surrogate(v: int) -> bool {
    0xD800 <= v <= 0xDBFF
}

pub open spec fn is_low_surrogate(v: int) -> bool {
    0xDC00 <= v <= 0xDFFF
}

/// The scalar value that a UTF-16 surrogate pair stands for.
pub open spec fn surrogate_pair_value(high: int, low: int) -> int {
    0x10000 + (high - 0xD800) * 0x400 + (low - 0xDC00)
}

/// The escape `\u` followed by hexadecimal digits from index `h`
/// (two such escapes for a surrogate pair): the character, or the error.
pub open spec fn scan_unicode_escape(text: Seq<char>, h: int) -> Result<char, LexErrorView> {
    match scan_hex4(text, h) {
        Err(e) => Err(e),
        Ok(high) => if is_high_surrogate(high) {
            if h + 4 >= text.len() || text[h + 4] != '\\' {
                Err(escape_error(text, h + 4, "expected second surrogate pair"@))
            } else if h + 5 >= text.len() || text[h + 5] != 'u' {
                Err(escape_error(text, h + 5, "expected '\\u' for second surrogate pair"@))
            } else {
                match scan_hex4(text, h + 6) {
                    Err(e) => Err(e),
                    Ok(low) => if !is_low_surrogate(low) {
                        Err(escape_error(text, h + 10, "invalid low surrogate"@))
                    } else {
                        Ok((surrogate_pair_value(high, low) as u32) as char)
                    },
                }
            }
        } else if is_low_surrogate(high) {
            Err(escape_error(text, h + 4, "unexpected low surrogate"@))
        } else {
            Ok((high as u32) as char)
        },
    }
}

/// The character that a one-letter escape stands for, if `c` names one.
pub open spec fn simple_escape(c: char) -> Option<char> {
    if c == '"' {
        Some('"')
    } else if c == '\\' {
        Some('\\')
    } else if c == '/' {
        Some('/')
    } else if c == 'n' {
        Some('\n')
    } else if c == 't' {
        Some('\t')
    } else if c == 'r' {
        Some('\r')
    } else if c == 'b' {
        Some('\x08')
    } else if c == 'f' {
        Some('\x0C')
    } else {
        None
    }
}

/// The escape sequence whose backslash has index `i`: the character it
/// stands for, or the error.
pub open spec fn scan_escape(text: Seq<char>, i: int) -> Result<char, LexErrorView> {
    let j = i + 1;
    if j >= text.len() {
        Err(unterminated(text, j))
    } else if text[j] == 'u' {
        scan_unicode_escape(text, j + 1)
    } else {
        match simple_escape(text[j]) {
            Some(c) => Ok(c),
            None => Err(escape_error(text, j, "invalid escape sequence '\\"@ + seq![text[j]] + "'"@)),
        }
    }
}

/// How many characters the escape sequence whose backslash has index `i`
/// takes, where it is valid.
pub open spec fn escape_len(text: Seq<char>, i: int) -> int {
    if i + 1 < text.len() && text[i + 1] == 'u' {
        match scan_hex4(text, i + 2) {
            Ok(v) => if is_high_surrogate(v) {
                12
            } else {
                6
            },
            Err(_) => 6,
        }
    } else {
        2
    }
}

/// The rest of a string literal from index `i`: its characters with escapes
/// resolved, the index after the closing quote, and whether an escape occurs.
pub struct StringScan {
    pub content: Seq<char>,
    pub end: int,
    pub escaped: bool,
}

/// A string scan preceded by `prefix`, whose escapes (if `escaped`) count too.
pub open spec fn prepend(prefix: Seq<char>, escaped: bool, r: Result<StringScan, LexErrorView>) -> Result<
    StringScan,
    LexErrorView,
> {
    match r {
        Ok(s) => Ok(
            StringScan { content: prefix + s.content, end: s.end, escaped: escaped || s.escaped },
        ),
        Err(e) => Err(e),
    }
}

/// Prepending twice is prepending the concatenation.
pub proof fn lemma_prepend_twice(
    p: Seq<char>,
    e: bool,
    q: Seq<char>,
    f: bool,
    r: Result<StringScan, LexErrorView>,
)
    ensures
        prepend(p, e, prepend(q, f, r)) == prepend(p + q, e || f, r),
{
    match r {
        Ok(s) => {
            assert(p + (q + s.content) =~= (p + q) + s.content);
        },
        Err(_) => {},
    }
}

/// A string literal whose opening quote was read and whose next character
/// has index `i`.
pub open spec fn scan_string(text: Seq<char>, i: int) -> Result<StringScan, LexErrorView>
    decreases text.len() - i,
{
    if i < 0 || i >= text.len() {
        Err(unterminated(text, i))
    } else if text[i] == '"' {
        Ok(StringScan { content: seq![], end: i + 1, escaped: false })
    } else if text[i] == '\\' {
        match scan_escape(text, i) {
            Err(e) => Err(e),
            Ok(c) => match scan_string(text, i + escape_len(text, i)) {
                Err(e) => Err(e),
                Ok(rest) => Ok(StringScan { content: seq![c] + rest.content, end: rest.end, escaped: true }),
            },
        }
    } else if is_json_control(text[i]) {
        Err(string_error(text, i, "control characters are not allowed"@))
    } else {
        match scan_string(text, i + 1) {
            Err(e) => Err(e),
            Ok(rest) => Ok(
                StringScan { content: seq![text[i]] + rest.content, end: rest.end, escaped: rest.escaped },
            ),
        }
    }
}

/// The token that starts at index `s` (no whitespace stands there): its
/// meaning and the index after it, or the error.
pub open spec fn scan_token(text: Seq<char>, s: int) -> Result<(TokenView, int), LexErrorView> {
    if s >= text.len() {
        Ok((TokenView::Eof, s))
    } else {
        let c = text[s];
        if c == '{' {
            Ok((TokenView::LeftBrace, s + 1))
        } else if c == '}' {
            Ok((TokenView::RightBrace, s + 1))
        } else if c == '[' {
            Ok((TokenView::LeftBracket, s + 1))
        } else if c == ']' {
            Ok((TokenView::RightBracket, s + 1))
        } else if c == ':' {
            Ok((TokenView::Colon, s + 1))
        } else if c == ',' {
            Ok((TokenView::Comma, s + 1))
        } else if c == '"' {
            match scan_string(text, s + 1) {
                Ok(r) => Ok((TokenView::String(r.content), r.end)),
                Err(e) => Err(e),
            }
        } else if is_digit(c) || c == '-' {
            match scan_number(text, s + 1, c) {
                Ok(e) => Ok((TokenView::Number(text.subrange(s, e)), e)),
                Err(err) => Err(err),
            }
        } else if c == 't' {
            match scan_keyword(text, s + 1, "true"@, 't') {
                Ok(e) => Ok((TokenView::True, e)),
                Err(err) => Err(err),
            }
        } else if c == 'f' {
            match scan_keyword(text, s + 1, "false"@, 'f') {
                Ok(e) => Ok((TokenView::False, e)),
                Err(err) => Err(err),
            }
        } else if c == 'n' {
            match scan_keyword(text, s + 1, "null"@, 'n') {
                Ok(e) => Ok((TokenView::Null, e)),
                Err(err) => Err(err),
            }
        } else {
            Err(unexpected_char(text, s))
        }
    }
}

} // verus!
