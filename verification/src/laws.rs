//! Properties of the lexical grammar that hold for every input.

use vstd::prelude::*;
use vstd::utf8::encode_utf8;
use crate::chars::{ends_number, is_json_control, is_digit};
use crate::error::LexErrorView;
use crate::grammar::{
    digit_run, escape_len, hex_digit_error, keyword_found, keyword_reads, line_col, number_end, scan_escape,
    scan_exponent, scan_fraction, scan_hex4, scan_keyword, scan_number, scan_string, scan_token,
    scan_unicode_escape, skip_ws, StringScan,
};
use crate::chars::{hex_digit_value, is_hex_digit, is_json_whitespace};
use crate::text::{byte_offset, lemma_offset_bounds};
use crate::token::{SpannedToken, TokenView};
use crate::error::LexError;
use crate::lexer::{as_item, next_outcome, next_token_outcome, LexerView};

verus! {

/// Skipping whitespace stays within the input and does not move back.
pub proof fn lemma_skip_ws_bounds(text: Seq<char>, k: int)
    requires
        0 <= k <= text.len(),
    ensures
        k <= skip_ws(text, k) <= text.len(),
    decreases text.len() - k,
{
    if k < text.len() {
        lemma_skip_ws_bounds(text, k + 1);
    }
}

/// A run of digits stays within the input and does not move back.
pub proof fn lemma_digit_run_bounds(text: Seq<char>, i: int)
    requires
        0 <= i <= text.len(),
    ensures
        i <= digit_run(text, i) <= text.len(),
    decreases text.len() - i,
{
    if i < text.len() {
        lemma_digit_run_bounds(text, i + 1);
    }
}

/// Where an exponent (if any) ends lies within the input.
proof fn lemma_exponent_bounds(text: Seq<char>, i: int)
    requires
        0 <= i <= text.len(),
    ensures
        scan_exponent(text, i) matches Ok(e) ==> i <= e <= text.len(),
{
    if i < text.len() && (text[i] == 'e' || text[i] == 'E') {
        let j = if i + 1 < text.len() && (text[i + 1] == '+' || text[i + 1] == '-') {
            i + 2
        } else {
            i + 1
        };
        if j < text.len() {
            lemma_digit_run_bounds(text, j + 1);
        }
    }
}

/// Where a fraction and exponent (if any) end lies within the input.
proof fn lemma_fraction_bounds(text: Seq<char>, i: int)
    requires
        0 <= i <= text.len(),
    ensures
        scan_fraction(text, i) matches Ok(e) ==> i <= e <= text.len(),
{
    if i < text.len() && text[i] == '.' && i + 1 < text.len() {
        lemma_digit_run_bounds(text, i + 2);
        lemma_exponent_bounds(text, digit_run(text, i + 2));
    }
    lemma_exponent_bounds(text, i);
}

/// Where a number ends lies within the input, after its first character.
proof fn lemma_number_bounds(text: Seq<char>, k: int, first: char)
    requires
        0 <= k <= text.len(),
    ensures
        scan_number(text, k, first) matches Ok(e) ==> k <= e <= text.len(),
{
    if first == '-' {
        if k < text.len() {
            lemma_fraction_bounds(text, k + 1);
            lemma_digit_run_bounds(text, k + 1);
            lemma_fraction_bounds(text, digit_run(text, k + 1));
        }
    } else {
        lemma_fraction_bounds(text, k);
        lemma_digit_run_bounds(text, k);
        lemma_fraction_bounds(text, digit_run(text, k));
    }
}

/// A valid escape sequence lies within the input.
proof fn lemma_escape_bounds(text: Seq<char>, i: int)
    requires
        0 <= i < text.len(),
    ensures
        scan_escape(text, i) is Ok ==> i + 2 <= i + escape_len(text, i) <= text.len(),
{
}

/// A string literal ends after the index it starts from, within the input.
proof fn lemma_string_bounds(text: Seq<char>, i: int)
    requires
        0 <= i,
    ensures
        scan_string(text, i) matches Ok(r) ==> i < r.end <= text.len(),
    decreases text.len() - i,
{
    if i < text.len() {
        if text[i] == '\\' {
            lemma_escape_bounds(text, i);
            if scan_escape(text, i) is Ok {
                lemma_string_bounds(text, i + escape_len(text, i));
            }
        } else if text[i] != '"' {
            lemma_string_bounds(text, i + 1);
        }
    }
}

/// Every token ends within the input, at or after where it starts; `Eof`
/// is found exactly at the end of the input, and every other token takes
/// at least one character.
pub proof fn law_token_bounds(text: Seq<char>, s: int)
    requires
        0 <= s <= text.len(),
    ensures
        scan_token(text, s) matches Ok((token, e)) ==> {
            &&& s <= e <= text.len()
            &&& (token is Eof <==> s == text.len())
            &&& (token !is Eof ==> s < e)
        },
{
    if s < text.len() {
        let c = text[s];
        if c == '"' {
            lemma_string_bounds(text, s + 1);
        } else if c == '-' || ('0' <= c <= '9') {
            lemma_number_bounds(text, s + 1, c);
        }
    }
}

/// The span of every token lies within the bytes of the input, from the
/// offset where it starts to the offset where it ends.
pub proof fn law_span_within_input(text: Seq<char>, k: int)
    requires
        0 <= k <= text.len(),
    ensures
        scan_token(text, skip_ws(text, k)) matches Ok((_, e)) ==> 0 <= byte_offset(
            text,
            skip_ws(text, k),
        ) <= byte_offset(text, e) <= encode_utf8(text).len(),
{
    lemma_skip_ws_bounds(text, k);
    let s = skip_ws(text, k);
    law_token_bounds(text, s);
    if let Ok((_, e)) = scan_token(text, s) {
        lemma_offset_bounds(text, s, e);
        lemma_offset_bounds(text, 0, s);
    }
}

/// Once only whitespace is left, lexing finds `Eof`, and lexing again
/// from where it leaves off finds `Eof` at the same place.
pub proof fn law_eof_is_stable(text: Seq<char>, k: int)
    requires
        0 <= k <= text.len(),
        skip_ws(text, k) >= text.len(),
    ensures
        scan_token(text, skip_ws(text, k)) == Ok::<(TokenView, int), crate::error::LexErrorView>(
            (TokenView::Eof, skip_ws(text, k)),
        ),
        skip_ws(text, skip_ws(text, k)) == skip_ws(text, k),
{
    lemma_skip_ws_bounds(text, k);
}

/// All characters of `t` are digits.
pub open spec fn all_digits(t: Seq<char>) -> bool {
    forall|i: int| 0 <= i < t.len() ==> '0' <= #[trigger] t[i] <= '9'
}

/// The integer part of a JSON number: `0`, or digits not starting with `0`.
pub open spec fn is_json_int(t: Seq<char>) -> bool {
    &&& t.len() >= 1
    &&& all_digits(t)
    &&& (t[0] == '0' ==> t.len() == 1)
}

/// The fraction of a JSON number: nothing, or a point and digits.
pub open spec fn is_json_frac(t: Seq<char>) -> bool {
    t.len() == 0 || (t.len() >= 2 && t[0] == '.' && all_digits(t.skip(1)))
}

/// The exponent of a JSON number: nothing, or `e` or `E`, an optional sign,
/// and digits.
pub open spec fn is_json_exp(t: Seq<char>) -> bool {
    ||| t.len() == 0
    ||| (t.len() >= 2 && (t[0] == 'e' || t[0] == 'E') && all_digits(t.skip(1)))
    ||| (t.len() >= 3 && (t[0] == 'e' || t[0] == 'E') && (t[1] == '+' || t[1] == '-') && all_digits(
        t.skip(2),
    ))
}

/// A number as the JSON grammar (RFC 8259) writes it: an optional minus
/// sign, an integer part, an optional fraction and an optional exponent.
pub open spec fn is_json_number(t: Seq<char>) -> bool {
    exists|a: int, b: int, c: int|
        #![trigger is_json_int(t.subrange(a, b)), is_json_frac(t.subrange(b, c))]
        0 <= a <= b <= c <= t.len() && (a == 0 || (a == 1 && t[0] == '-')) && is_json_int(
            t.subrange(a, b),
        ) && is_json_frac(t.subrange(b, c)) && is_json_exp(t.subrange(c, t.len() as int))
}

/// A run of digits holds only digits, and no digit follows it.
proof fn lemma_digit_run_digits(text: Seq<char>, i: int)
    requires
        0 <= i <= text.len(),
    ensures
        forall|m: int| i <= m < digit_run(text, i) ==> is_digit(#[trigger] text[m]),
        digit_run(text, i) < text.len() ==> !is_digit(text[digit_run(text, i)]),
    decreases text.len() - i,
{
    if i < text.len() && is_digit(text[i]) {
        lemma_digit_run_digits(text, i + 1);
    }
}

/// A run of digits from `i` that no digit follows ends where the run of
/// digits from `i` ends.
proof fn lemma_digit_run_at(text: Seq<char>, i: int, j: int)
    requires
        0 <= i <= j <= text.len(),
        forall|m: int| i <= m < j ==> is_digit(#[trigger] text[m]),
        j == text.len() || !is_digit(text[j]),
    ensures
        digit_run(text, i) == j,
    decreases j - i,
{
    if i < j {
        lemma_digit_run_at(text, i + 1, j);
    }
}

/// Where the integer part whose first digit has index `l` ends.
spec fn int_end(text: Seq<char>, l: int) -> int {
    if text[l] == '0' {
        l + 1
    } else {
        digit_run(text, l + 1)
    }
}

/// Where the fraction (if any) from index `b` ends.
spec fn frac_end(text: Seq<char>, b: int) -> int {
    if b < text.len() && text[b] == '.' {
        digit_run(text, b + 2)
    } else {
        b
    }
}

/// Where the exponent (if any) from index `c` ends.
spec fn exp_end(text: Seq<char>, c: int) -> int {
    if c < text.len() && (text[c] == 'e' || text[c] == 'E') {
        if c + 1 < text.len() && (text[c + 1] == '+' || text[c + 1] == '-') {
            digit_run(text, c + 3)
        } else {
            digit_run(text, c + 2)
        }
    } else {
        c
    }
}

proof fn lemma_int_part(text: Seq<char>, l: int)
    requires
        0 <= l < text.len(),
        is_digit(text[l]),
    ensures
        l < int_end(text, l) <= text.len(),
        text[l] != '0' ==> is_json_int(text.subrange(l, int_end(text, l))),
        text[l] == '0' ==> is_json_int(text.subrange(l, l + 1)),
        text[l] != '0' ==> int_end(text, l) == text.len() || !is_digit(text[int_end(text, l)]),
{
    lemma_digit_run_bounds(text, l + 1);
    lemma_digit_run_digits(text, l + 1);
    let b = int_end(text, l);
    let t = text.subrange(l, b);
    assert forall|i: int| 0 <= i < t.len() implies is_digit(#[trigger] t[i]) by {
        assert(t[i] == text[l + i]);
    }
}

proof fn lemma_frac_part(text: Seq<char>, b: int)
    requires
        0 <= b <= text.len(),
        scan_fraction(text, b) is Ok,
    ensures
        b <= frac_end(text, b) <= text.len(),
        is_json_frac(text.subrange(b, frac_end(text, b))),
        scan_fraction(text, b) == scan_exponent(text, frac_end(text, b)),
{
    if b < text.len() && text[b] == '.' {
        lemma_digit_run_bounds(text, b + 2);
        lemma_digit_run_digits(text, b + 2);
        let c = frac_end(text, b);
        let t = text.subrange(b, c);
        assert forall|i: int| 0 <= i < t.skip(1).len() implies is_digit(#[trigger] t.skip(1)[i]) by {
            assert(t.skip(1)[i] == text[b + 1 + i]);
        }
    } else {
        assert(text.subrange(b, b).len() == 0);
    }
}

proof fn lemma_exp_part(text: Seq<char>, c: int)
    requires
        0 <= c <= text.len(),
        scan_exponent(text, c) is Ok,
    ensures
        c <= exp_end(text, c) <= text.len(),
        is_json_exp(text.subrange(c, exp_end(text, c))),
        scan_exponent(text, c) == number_end(text, exp_end(text, c)),
        exp_end(text, c) == text.len() || ends_number(text[exp_end(text, c)]),
{
    if c < text.len() && (text[c] == 'e' || text[c] == 'E') {
        let signed = c + 1 < text.len() && (text[c + 1] == '+' || text[c + 1] == '-');
        let j = if signed { c + 2 } else { c + 1 };
        lemma_digit_run_bounds(text, j + 1);
        lemma_digit_run_digits(text, j + 1);
        let d = exp_end(text, c);
        let t = text.subrange(c, d);
        if signed {
            assert forall|i: int| 0 <= i < t.skip(2).len() implies is_digit(#[trigger] t.skip(2)[i]) by {
                assert(t.skip(2)[i] == text[c + 2 + i]);
            }
        } else {
            assert forall|i: int| 0 <= i < t.skip(1).len() implies is_digit(#[trigger] t.skip(1)[i]) by {
                assert(t.skip(1)[i] == text[c + 1 + i]);
            }
        }
    } else {
        assert(text.subrange(c, c).len() == 0);
    }
}

/// Every number token is a JSON number, taken whole: what follows it, if
/// anything, is whitespace or a delimiter.
pub proof fn law_number_tokens_are_json_numbers(text: Seq<char>, s: int)
    requires
        0 <= s < text.len(),
    ensures
        scan_token(text, s) matches Ok((TokenView::Number(t), e)) ==> {
            &&& is_json_number(t)
            &&& t == text.subrange(s, e)
            &&& (e == text.len() || ends_number(text[e]))
        },
{
    let c = text[s];
    if (is_digit(c) || c == '-') && scan_number(text, s + 1, c) is Ok {
        let l = if c == '-' { s + 1 } else { s };
        lemma_int_part(text, l);
        let b = int_end(text, l);
        assert(scan_number(text, s + 1, c) == scan_fraction(text, b));
        lemma_frac_part(text, b);
        let c2 = frac_end(text, b);
        lemma_exp_part(text, c2);
        let e = exp_end(text, c2);
        assert(scan_token(text, s) == Ok::<(TokenView, int), crate::error::LexErrorView>(
            (TokenView::Number(text.subrange(s, e)), e),
        ));
        let t = text.subrange(s, e);
        assert(t.subrange(l - s, b - s) =~= text.subrange(l, b));
        assert(t.subrange(b - s, c2 - s) =~= text.subrange(b, c2));
        assert(t.subrange(c2 - s, t.len() as int) =~= text.subrange(c2, e));
        assert(is_json_int(t.subrange(l - s, b - s)) && is_json_frac(t.subrange(b - s, c2 - s)));
    }
}

/// All characters with indices from `i` to `j` are digits.
spec fn digits_between(text: Seq<char>, i: int, j: int) -> bool {
    forall|m: int| i <= m < j ==> is_digit(#[trigger] text[m])
}

/// The characters from `c` to `e` form an exponent (or nothing).
spec fn exp_between(text: Seq<char>, c: int, e: int) -> bool {
    ||| c == e
    ||| (e >= c + 2 && (text[c] == 'e' || text[c] == 'E') && digits_between(text, c + 1, e))
    ||| (e >= c + 3 && (text[c] == 'e' || text[c] == 'E') && (text[c + 1] == '+' || text[c + 1]
        == '-') && digits_between(text, c + 2, e))
}

/// The characters from `b` to `c` form a fraction (or nothing).
spec fn frac_between(text: Seq<char>, b: int, c: int) -> bool {
    b == c || (c >= b + 2 && text[b] == '.' && digits_between(text, b + 1, c))
}

/// The characters from `l` to `b` form the integer part of a number.
spec fn int_between(text: Seq<char>, l: int, b: int) -> bool {
    l < b && digits_between(text, l, b) && (text[l] == '0' ==> b == l + 1)
}

/// A JSON number from `s` to `e` is made of parts at these indices.
proof fn lemma_number_parts(text: Seq<char>, s: int, e: int) -> (r: (int, int, int))
    requires
        0 <= s < e <= text.len(),
        is_json_number(text.subrange(s, e)),
    ensures
        s <= r.0 <= r.1 <= r.2 <= e,
        r.0 == s || (r.0 == s + 1 && text[s] == '-'),
        int_between(text, r.0, r.1),
        frac_between(text, r.1, r.2),
        exp_between(text, r.2, e),
{
    let t = text.subrange(s, e);
    let (a, b, c) = choose|a: int, b: int, c: int|
        #![trigger is_json_int(t.subrange(a, b)), is_json_frac(t.subrange(b, c))]
        0 <= a <= b <= c <= t.len() && (a == 0 || (a == 1 && t[0] == '-')) && is_json_int(
            t.subrange(a, b),
        ) && is_json_frac(t.subrange(b, c)) && is_json_exp(t.subrange(c, t.len() as int));
    let int_part = t.subrange(a, b);
    let frac_part = t.subrange(b, c);
    let exp_part = t.subrange(c, t.len() as int);
    assert(digits_between(text, s + a, s + b)) by {
        assert forall|m: int| s + a <= m < s + b implies is_digit(#[trigger] text[m]) by {
            assert(text[m] == int_part[m - s - a]);
        }
    }
    assert(text[s + a] == int_part[0]);
    if frac_part.len() > 0 {
        assert(text[s + b] == frac_part[0]);
        assert forall|m: int| s + b + 1 <= m < s + c implies is_digit(#[trigger] text[m]) by {
            assert(text[m] == frac_part.skip(1)[m - s - b - 1]);
        }
    }
    if exp_part.len() > 0 {
        assert(text[s + c] == exp_part[0]);
        if exp_part.len() >= 2 && all_digits(exp_part.skip(1)) {
            assert forall|m: int| s + c + 1 <= m < e implies is_digit(#[trigger] text[m]) by {
                assert(text[m] == exp_part.skip(1)[m - s - c - 1]);
            }
        } else {
            assert(text[s + c + 1] == exp_part[1]);
            assert forall|m: int| s + c + 2 <= m < e implies is_digit(#[trigger] text[m]) by {
                assert(text[m] == exp_part.skip(2)[m - s - c - 2]);
            }
        }
    }
    (s + a, s + b, s + c)
}

proof fn lemma_exp_lexed(text: Seq<char>, c: int, e: int)
    requires
        0 <= c <= e <= text.len(),
        exp_between(text, c, e),
        e == text.len() || ends_number(text[e]),
    ensures
        scan_exponent(text, c) == Ok::<int, crate::error::LexErrorView>(e),
{
    if c < e {
        if e >= c + 2 && digits_between(text, c + 1, e) {
            assert(is_digit(text[c + 1]));
            lemma_digit_run_at(text, c + 2, e);
        } else {
            assert(is_digit(text[c + 2]));
            lemma_digit_run_at(text, c + 3, e);
        }
    }
}

proof fn lemma_frac_lexed(text: Seq<char>, b: int, c: int, e: int)
    requires
        0 <= b <= c <= e <= text.len(),
        frac_between(text, b, c),
        exp_between(text, c, e),
        e == text.len() || ends_number(text[e]),
    ensures
        scan_fraction(text, b) == Ok::<int, crate::error::LexErrorView>(e),
        b < text.len() ==> !is_digit(text[b]),
{
    lemma_exp_lexed(text, c, e);
    if b < c {
        assert(is_digit(text[b + 1]));
        if c < e {
            assert(!is_digit(text[c]));
        }
        lemma_digit_run_at(text, b + 2, c);
    }
}

/// A JSON number that the end of the input, whitespace or a delimiter
/// follows is lexed whole, as one number token.
pub proof fn law_json_numbers_are_lexed(text: Seq<char>, s: int, e: int)
    requires
        0 <= s < e <= text.len(),
        is_json_number(text.subrange(s, e)),
        e == text.len() || ends_number(text[e]),
    ensures
        scan_token(text, s) == Ok::<(TokenView, int), crate::error::LexErrorView>(
            (TokenView::Number(text.subrange(s, e)), e),
        ),
{
    let (l, b, c) = lemma_number_parts(text, s, e);
    lemma_frac_lexed(text, b, c, e);
    assert(is_digit(text[l]));
    if text[l] != '0' {
        lemma_digit_run_at(text, l + 1, b);
    }
    assert(scan_number(text, s + 1, text[s]) == scan_fraction(text, b));
}

/// A string literal without escapes holds exactly the characters of the
/// source between its quotes.
pub proof fn law_unescaped_strings_are_source_text(text: Seq<char>, i: int)
    requires
        0 <= i,
    ensures
        scan_string(text, i) matches Ok(r) ==> (!r.escaped ==> {
            &&& i < r.end <= text.len()
            &&& text[r.end - 1] == '"'
            &&& r.content == text.subrange(i, r.end - 1)
        }),
    decreases text.len() - i,
{
    if i < text.len() && text[i] != '"' && text[i] != '\\' && !is_json_control(text[i]) {
        law_unescaped_strings_are_source_text(text, i + 1);
        if let Ok(r) = scan_string(text, i + 1) {
            if !r.escaped {
                assert(seq![text[i]] + text.subrange(i + 1, r.end - 1) =~= text.subrange(i, r.end - 1));
            }
        }
    } else if i < text.len() && text[i] == '"' {
        assert(text.subrange(i, i) =~= Seq::<char>::empty());
    }
}

/// Characters other than quotes, backslashes and control characters,
/// followed by a quote, are lexed as a string literal that holds exactly
/// them and ends after the quote.
pub proof fn law_plain_strings_are_lexed(text: Seq<char>, i: int, j: int)
    requires
        0 <= i <= j < text.len(),
        forall|m: int|
            i <= m < j ==> #[trigger] text[m] != '"' && text[m] != '\\' && !is_json_control(text[m]),
        text[j] == '"',
    ensures
        scan_string(text, i) == Ok::<StringScan, crate::error::LexErrorView>(
            StringScan { content: text.subrange(i, j), end: j + 1, escaped: false },
        ),
    decreases j - i,
{
    if i < j {
        law_plain_strings_are_lexed(text, i + 1, j);
        assert(seq![text[i]] + text.subrange(i + 1, j) =~= text.subrange(i, j));
    } else {
        assert(text.subrange(i, j) =~= Seq::<char>::empty());
    }
}

/// The line and column at which an error is reported.
pub open spec fn error_line_col(e: LexErrorView) -> (int, int) {
    match e {
        LexErrorView::UnexpectedChar { line, column, .. } => (line, column),
        LexErrorView::UnterminatedString { line, column } => (line, column),
        LexErrorView::InvalidString { line, column, .. } => (line, column),
        LexErrorView::InvalidNumber { line, column, .. } => (line, column),
        LexErrorView::InvalidEscape { line, column, .. } => (line, column),
        LexErrorView::InvalidToken { line, column, .. } => (line, column),
    }
}

/// The error `e` is reported at the line and column of a position from
/// index `lo` up to the end of the input.
pub open spec fn reported_within(text: Seq<char>, e: LexErrorView, lo: int) -> bool {
    exists|p: int| lo <= p <= text.len() && error_line_col(e) == #[trigger] line_col(text, p)
}

proof fn lemma_hex4_errors(text: Seq<char>, h: int)
    requires
        0 <= h <= text.len(),
    ensures
        scan_hex4(text, h) matches Err(e) ==> reported_within(text, e, h),
{
}

proof fn lemma_unicode_escape_errors(text: Seq<char>, h: int)
    requires
        0 <= h <= text.len(),
    ensures
        scan_unicode_escape(text, h) matches Err(e) ==> reported_within(text, e, h),
{
    lemma_hex4_errors(text, h);
    if h + 6 <= text.len() {
        lemma_hex4_errors(text, h + 6);
    }
}

proof fn lemma_escape_errors(text: Seq<char>, i: int)
    requires
        0 <= i < text.len(),
    ensures
        scan_escape(text, i) matches Err(e) ==> reported_within(text, e, i),
{
    if i + 1 < text.len() && text[i + 1] == 'u' {
        lemma_unicode_escape_errors(text, i + 2);
    }
}

proof fn lemma_string_errors(text: Seq<char>, i: int)
    requires
        0 <= i <= text.len(),
    ensures
        scan_string(text, i) matches Err(e) ==> reported_within(text, e, i),
    decreases text.len() - i,
{
    if i < text.len() && text[i] == '\\' {
        lemma_escape_errors(text, i);
        lemma_escape_bounds(text, i);
        if scan_escape(text, i) is Ok {
            lemma_string_errors(text, i + escape_len(text, i));
        }
    } else if i < text.len() && text[i] != '"' {
        lemma_string_errors(text, i + 1);
    }
}

proof fn lemma_exponent_errors(text: Seq<char>, k: int, i: int)
    requires
        0 <= k <= i <= text.len(),
    ensures
        scan_exponent(text, i) matches Err(e) ==> reported_within(text, e, k),
{
    if i < text.len() && (text[i] == 'e' || text[i] == 'E') {
        let j = if i + 1 < text.len() && (text[i + 1] == '+' || text[i + 1] == '-') {
            i + 2
        } else {
            i + 1
        };
        if j < text.len() {
            lemma_digit_run_bounds(text, j + 1);
        }
    }
}

proof fn lemma_fraction_errors(text: Seq<char>, k: int, i: int)
    requires
        0 <= k <= i <= text.len(),
    ensures
        scan_fraction(text, i) matches Err(e) ==> reported_within(text, e, k),
{
    if i < text.len() && text[i] == '.' {
        if i + 1 < text.len() {
            lemma_digit_run_bounds(text, i + 2);
            lemma_exponent_errors(text, k, digit_run(text, i + 2));
        }
    } else {
        lemma_exponent_errors(text, k, i);
    }
}

proof fn lemma_number_errors(text: Seq<char>, k: int, first: char)
    requires
        0 <= k <= text.len(),
    ensures
        scan_number(text, k, first) matches Err(e) ==> reported_within(text, e, k),
{
    let l = if first == '-' { k + 1 } else { k };
    if l <= text.len() {
        lemma_fraction_errors(text, k, l);
        lemma_digit_run_bounds(text, l);
        lemma_fraction_errors(text, k, digit_run(text, l));
    }
}

/// Every error is reported at the line and column of a position within
/// the input, at or after the start of the token that fails.
pub proof fn law_errors_point_into_input(text: Seq<char>, s: int)
    requires
        0 <= s <= text.len(),
    ensures
        scan_token(text, s) matches Err(e) ==> reported_within(text, e, s),
{
    if s < text.len() {
        let c = text[s];
        if c == '"' {
            lemma_string_errors(text, s + 1);
        } else if is_digit(c) || c == '-' {
            lemma_number_errors(text, s + 1, c);
        }
    }
}

/// Four hexadecimal digits read the same within any stretch of the input
/// that holds them.
proof fn lemma_hex4_local(text: Seq<char>, a: int, b: int, h: int)
    requires
        0 <= a <= h,
        h + 4 <= b <= text.len(),
        scan_hex4(text, h) is Ok,
    ensures
        scan_hex4(text.subrange(a, b), h - a) == scan_hex4(text, h),
{
    let u = text.subrange(a, b);
    assert(u[h - a] == text[h] && u[h - a + 1] == text[h + 1] && u[h - a + 2] == text[h + 2] && u[h
        - a + 3] == text[h + 3]);
}

/// A valid escape sequence reads the same within any stretch of the input
/// that holds it.
proof fn lemma_escape_local(text: Seq<char>, a: int, b: int, i: int)
    requires
        0 <= a <= i < text.len(),
        scan_escape(text, i) is Ok,
        i + escape_len(text, i) <= b <= text.len(),
    ensures
        scan_escape(text.subrange(a, b), i - a) == scan_escape(text, i),
        escape_len(text.subrange(a, b), i - a) == escape_len(text, i),
{
    let u = text.subrange(a, b);
    let j = i + 1;
    assert(u[j - a] == text[j]);
    if text[j] == 'u' {
        let h = j + 1;
        lemma_hex4_local(text, a, b, h);
        if let Ok(high) = scan_hex4(text, h) {
            if crate::grammar::is_high_surrogate(high) {
                assert(u[h + 4 - a] == text[h + 4] && u[h + 5 - a] == text[h + 5]);
                lemma_hex4_local(text, a, b, h + 6);
            }
        }
    }
}

/// A string literal reads the same within any stretch of the input that
/// holds it.
proof fn lemma_string_local(text: Seq<char>, a: int, b: int, i: int)
    requires
        0 <= a <= i,
        scan_string(text, i) matches Ok(r) && r.end <= b <= text.len(),
    ensures
        scan_string(text.subrange(a, b), i - a) == (match scan_string(text, i) {
            Ok(r) => Ok(StringScan { content: r.content, end: r.end - a, escaped: r.escaped }),
            Err(e) => Err(e),
        }),
    decreases text.len() - i,
{
    let u = text.subrange(a, b);
    lemma_string_bounds(text, i);
    assert(u[i - a] == text[i]);
    if text[i] == '\\' {
        lemma_escape_bounds(text, i);
        lemma_string_bounds(text, i + escape_len(text, i));
        lemma_escape_local(text, a, b, i);
        lemma_string_local(text, a, b, i + escape_len(text, i));
    } else if text[i] != '"' {
        lemma_string_local(text, a, b, i + 1);
    }
}

/// Every token but the end of input, lexed from its own source text alone,
/// is the same token, taking all of that text.
pub proof fn law_tokens_are_self_contained(text: Seq<char>, s: int)
    requires
        0 <= s <= text.len(),
    ensures
        scan_token(text, s) matches Ok((token, e)) ==> (token !is Eof ==> scan_token(
            text.subrange(s, e),
            0,
        ) == Ok::<(TokenView, int), LexErrorView>((token, e - s))),
{
    law_token_bounds(text, s);
    if let Ok((token, e)) = scan_token(text, s) {
        if token !is Eof {
            let u = text.subrange(s, e);
            let c = text[s];
            assert(u[0] == c);
            if c == '"' {
                lemma_string_local(text, s, e, s + 1);
            } else if is_digit(c) || c == '-' {
                law_number_tokens_are_json_numbers(text, s);
                assert(u.subrange(0, u.len() as int) =~= u);
                law_json_numbers_are_lexed(u, 0, u.len() as int);
            } else if c == 't' || c == 'f' || c == 'n' {
                let word = if c == 't' {
                    "true"@
                } else if c == 'f' {
                    "false"@
                } else {
                    "null"@
                };
                assert(scan_keyword(text, s + 1, word, c) == Ok::<int, LexErrorView>(e));
                assert(u.subrange(1, u.len() as int) =~= text.subrange(s + 1, e));
                assert(scan_keyword(u, 1, word, c) == Ok::<int, LexErrorView>(e - s));
            }
        }
    }
}

/// An error with its line and column left out: what it says, not where.
pub open spec fn unplace(e: LexErrorView) -> LexErrorView {
    match e {
        LexErrorView::UnexpectedChar { ch, .. } => LexErrorView::UnexpectedChar {
            ch,
            line: 0,
            column: 0,
        },
        LexErrorView::UnterminatedString { .. } => LexErrorView::UnterminatedString {
            line: 0,
            column: 0,
        },
        LexErrorView::InvalidString { reason, .. } => LexErrorView::InvalidString {
            reason,
            line: 0,
            column: 0,
        },
        LexErrorView::InvalidNumber { reason, .. } => LexErrorView::InvalidNumber {
            reason,
            line: 0,
            column: 0,
        },
        LexErrorView::InvalidEscape { reason, .. } => LexErrorView::InvalidEscape {
            reason,
            line: 0,
            column: 0,
        },
        LexErrorView::InvalidToken { reason, .. } => LexErrorView::InvalidToken {
            reason,
            line: 0,
            column: 0,
        },
    }
}

/// An index result moved on by `d`, its error left unplaced.
spec fn unplaced_index(r: Result<int, LexErrorView>, d: int) -> Result<int, LexErrorView> {
    match r {
        Ok(e) => Ok(e + d),
        Err(x) => Err(unplace(x)),
    }
}

/// A character result with its error left unplaced.
spec fn unplaced_char(r: Result<char, LexErrorView>) -> Result<char, LexErrorView> {
    match r {
        Ok(c) => Ok(c),
        Err(x) => Err(unplace(x)),
    }
}

/// A string scan whose end is moved on by `d`, its error left unplaced.
spec fn unplaced_string(r: Result<StringScan, LexErrorView>, d: int) -> Result<
    StringScan,
    LexErrorView,
> {
    match r {
        Ok(v) => Ok(StringScan { content: v.content, end: v.end + d, escaped: v.escaped }),
        Err(x) => Err(unplace(x)),
    }
}

/// A token result whose end is moved on by `d`, its error left unplaced.
pub open spec fn unplaced_token(r: Result<(TokenView, int), LexErrorView>, d: int) -> Result<
    (TokenView, int),
    LexErrorView,
> {
    match r {
        Ok((t, e)) => Ok((t, e + d)),
        Err(x) => Err(unplace(x)),
    }
}

proof fn lemma_skip_ws_shift(t2: Seq<char>, t1: Seq<char>, d: int, k: int)
    requires
        0 <= d <= t2.len(),
        t1 == t2.skip(d),
        0 <= k,
    ensures
        skip_ws(t2, k + d) == skip_ws(t1, k) + d,
    decreases t1.len() - k,
{
    if k < t1.len() {
        assert(t2[k + d] == t1[k]);
        lemma_skip_ws_shift(t2, t1, d, k + 1);
    }
}

proof fn lemma_digit_run_shift(t2: Seq<char>, t1: Seq<char>, d: int, i: int)
    requires
        0 <= d <= t2.len(),
        t1 == t2.skip(d),
        0 <= i,
    ensures
        digit_run(t2, i + d) == digit_run(t1, i) + d,
    decreases t1.len() - i,
{
    if i < t1.len() {
        assert(t2[i + d] == t1[i]);
        lemma_digit_run_shift(t2, t1, d, i + 1);
    }
}

proof fn lemma_digit_run_grows(t: Seq<char>, i: int)
    ensures
        digit_run(t, i) >= i,
    decreases t.len() - i,
{
    if crate::grammar::digit_at(t, i) {
        lemma_digit_run_grows(t, i + 1);
    }
}

proof fn lemma_number_end_shift(t2: Seq<char>, t1: Seq<char>, d: int, i: int)
    requires
        0 <= d <= t2.len(),
        t1 == t2.skip(d),
        0 <= i,
    ensures
        unplaced_index(number_end(t2, i + d), 0) == unplaced_index(number_end(t1, i), d),
{
    if i < t1.len() {
        assert(t2[i + d] == t1[i]);
    }
}

proof fn lemma_exponent_shift(t2: Seq<char>, t1: Seq<char>, d: int, i: int)
    requires
        0 <= d <= t2.len(),
        t1 == t2.skip(d),
        0 <= i,
    ensures
        unplaced_index(scan_exponent(t2, i + d), 0) == unplaced_index(scan_exponent(t1, i), d),
{
    if i < t1.len() {
        assert(t2[i + d] == t1[i]);
        if i + 1 < t1.len() {
            assert(t2[i + 1 + d] == t1[i + 1]);
        }
        if i + 2 < t1.len() {
            assert(t2[i + 2 + d] == t1[i + 2]);
        }
        lemma_digit_run_shift(t2, t1, d, i + 2);
        lemma_digit_run_shift(t2, t1, d, i + 3);
        lemma_digit_run_grows(t1, i + 2);
        lemma_digit_run_grows(t1, i + 3);
        lemma_number_end_shift(t2, t1, d, digit_run(t1, i + 2));
        lemma_number_end_shift(t2, t1, d, digit_run(t1, i + 3));
        assert(i + 1 + d == (i + d) + 1);
    }
    lemma_number_end_shift(t2, t1, d, i);
}

proof fn lemma_fraction_shift(t2: Seq<char>, t1: Seq<char>, d: int, i: int)
    requires
        0 <= d <= t2.len(),
        t1 == t2.skip(d),
        0 <= i,
    ensures
        unplaced_index(scan_fraction(t2, i + d), 0) == unplaced_index(scan_fraction(t1, i), d),
{
    if i < t1.len() {
        assert(t2[i + d] == t1[i]);
        if i + 1 < t1.len() {
            assert(t2[i + 1 + d] == t1[i + 1]);
        }
        lemma_digit_run_shift(t2, t1, d, i + 2);
        lemma_digit_run_grows(t1, i + 2);
        lemma_exponent_shift(t2, t1, d, digit_run(t1, i + 2));
    }
    lemma_exponent_shift(t2, t1, d, i);
}

proof fn lemma_number_shift(t2: Seq<char>, t1: Seq<char>, d: int, k: int, first: char)
    requires
        0 <= d <= t2.len(),
        t1 == t2.skip(d),
        0 <= k,
    ensures
        unplaced_index(scan_number(t2, k + d, first), 0) == unplaced_index(
            scan_number(t1, k, first),
            d,
        ),
{
    if k < t1.len() {
        assert(t2[k + d] == t1[k]);
    }
    if k + 1 < t1.len() {
        assert(t2[k + 1 + d] == t1[k + 1]);
    }
    lemma_fraction_shift(t2, t1, d, k);
    lemma_fraction_shift(t2, t1, d, k + 1);
    lemma_digit_run_shift(t2, t1, d, k);
    lemma_digit_run_shift(t2, t1, d, k + 1);
    lemma_digit_run_shift(t2, t1, d, k + 2);
    lemma_digit_run_grows(t1, k);
    lemma_digit_run_grows(t1, k + 1);
    lemma_digit_run_grows(t1, k + 2);
    lemma_fraction_shift(t2, t1, d, digit_run(t1, k));
    lemma_fraction_shift(t2, t1, d, digit_run(t1, k + 1));
    lemma_fraction_shift(t2, t1, d, digit_run(t1, k + 2));
}

proof fn lemma_keyword_shift(
    t2: Seq<char>,
    t1: Seq<char>,
    d: int,
    k: int,
    word: Seq<char>,
    first: char,
)
    requires
        0 <= d <= t2.len(),
        t1 == t2.skip(d),
        0 <= k <= t1.len(),
    ensures
        unplaced_index(scan_keyword(t2, k + d, word, first), 0) == unplaced_index(
            scan_keyword(t1, k, word, first),
            d,
        ),
{
    let r = keyword_reads(t1, k, word);
    assert(keyword_reads(t2, k + d, word) == r);
    assert(t2.subrange(k + d, k + d + r) =~= t1.subrange(k, k + r));
    if k + r < t1.len() {
        assert(t2[k + r + d] == t1[k + r]);
    }
}

proof fn lemma_hex4_shift(t2: Seq<char>, t1: Seq<char>, d: int, h: int)
    requires
        0 <= d <= t2.len(),
        t1 == t2.skip(d),
        0 <= h,
    ensures
        unplaced_index(scan_hex4(t2, h + d), 0) == unplaced_index(scan_hex4(t1, h), 0),
{
    if h < t1.len() {
        assert(t2[h + d] == t1[h]);
    }
    if h + 1 < t1.len() {
        assert(t2[h + 1 + d] == t1[h + 1]);
    }
    if h + 2 < t1.len() {
        assert(t2[h + 2 + d] == t1[h + 2]);
    }
    if h + 3 < t1.len() {
        assert(t2[h + 3 + d] == t1[h + 3]);
    }
    assert(hex_digit_error(t2, h + d) is Some == hex_digit_error(t1, h) is Some);
    assert(hex_digit_error(t2, h + 1 + d) is Some == hex_digit_error(t1, h + 1) is Some);
    assert(hex_digit_error(t2, h + 2 + d) is Some == hex_digit_error(t1, h + 2) is Some);
    assert(hex_digit_error(t2, h + 3 + d) is Some == hex_digit_error(t1, h + 3) is Some);
}

proof fn lemma_unicode_escape_shift(t2: Seq<char>, t1: Seq<char>, d: int, h: int)
    requires
        0 <= d <= t2.len(),
        t1 == t2.skip(d),
        0 <= h,
    ensures
        unplaced_char(scan_unicode_escape(t2, h + d)) == unplaced_char(scan_unicode_escape(t1, h)),
        scan_hex4(t2, h + d) is Ok == scan_hex4(t1, h) is Ok,
        scan_hex4(t1, h) is Ok ==> scan_hex4(t2, h + d) == scan_hex4(t1, h),
{
    lemma_hex4_shift(t2, t1, d, h);
    lemma_hex4_shift(t2, t1, d, h + 6);
    if h + 4 < t1.len() {
        assert(t2[h + 4 + d] == t1[h + 4]);
    }
    if h + 5 < t1.len() {
        assert(t2[h + 5 + d] == t1[h + 5]);
    }
}

proof fn lemma_escape_shift(t2: Seq<char>, t1: Seq<char>, d: int, i: int)
    requires
        0 <= d <= t2.len(),
        t1 == t2.skip(d),
        0 <= i,
    ensures
        unplaced_char(scan_escape(t2, i + d)) == unplaced_char(scan_escape(t1, i)),
        escape_len(t2, i + d) == escape_len(t1, i),
{
    if i + 1 < t1.len() {
        assert(t2[i + 1 + d] == t1[i + 1]);
    }
    lemma_unicode_escape_shift(t2, t1, d, i + 2);
}

proof fn lemma_string_shift(t2: Seq<char>, t1: Seq<char>, d: int, i: int)
    requires
        0 <= d <= t2.len(),
        t1 == t2.skip(d),
        0 <= i,
    ensures
        unplaced_string(scan_string(t2, i + d), 0) == unplaced_string(scan_string(t1, i), d),
    decreases t1.len() - i,
{
    if i < t1.len() {
        assert(t2[i + d] == t1[i]);
        if t1[i] == '\\' {
            lemma_escape_shift(t2, t1, d, i);
            lemma_escape_bounds(t1, i);
            if scan_escape(t1, i) is Ok {
                lemma_string_shift(t2, t1, d, i + escape_len(t1, i));
                assert(i + d + escape_len(t2, i + d) == i + escape_len(t1, i) + d);
            }
        } else if t1[i] != '"' {
            lemma_string_shift(t2, t1, d, i + 1);
            assert(i + d + 1 == i + 1 + d);
        }
    }
}

/// What precedes a token does not change it: lexing at index `s + d` of
/// `t2`, which holds `t1` from index `d` on, finds the token found at `s` in
/// `t1`, ending `d` later, or an error that says the same (only its line and
/// column may differ).
pub proof fn law_tokens_ignore_what_precedes(t2: Seq<char>, t1: Seq<char>, d: int, s: int)
    requires
        0 <= d <= t2.len(),
        t1 == t2.skip(d),
        0 <= s <= t1.len(),
    ensures
        unplaced_token(scan_token(t2, s + d), 0) == unplaced_token(scan_token(t1, s), d),
{
    if s < t1.len() {
        let c = t1[s];
        assert(t2[s + d] == c);
        if c == '"' {
            lemma_string_shift(t2, t1, d, s + 1);
            assert(s + d + 1 == s + 1 + d);
        } else if is_digit(c) || c == '-' {
            lemma_number_shift(t2, t1, d, s + 1, c);
            assert(s + d + 1 == s + 1 + d);
            if let Ok(e) = scan_number(t1, s + 1, c) {
                lemma_number_bounds(t1, s + 1, c);
                assert(t2.subrange(s + d, e + d) =~= t1.subrange(s, e));
            }
        } else {
            lemma_keyword_shift(t2, t1, d, s + 1, "true"@, 't');
            lemma_keyword_shift(t2, t1, d, s + 1, "false"@, 'f');
            lemma_keyword_shift(t2, t1, d, s + 1, "null"@, 'n');
        }
    }
}

/// Whitespace in front of an input shifts its tokens and their spans by
/// its length and changes nothing else: after `w`, lexing from index
/// `k + w.len()` skips to the token found from `k` without `w`, whose span
/// (in bytes) is moved on by `w.len()`, and the same token or an error that
/// says the same (only its line and column may differ) is found there.
pub proof fn law_whitespace_prefix(w: Seq<char>, text: Seq<char>, k: int)
    requires
        forall|i: int| 0 <= i < w.len() ==> is_json_whitespace(#[trigger] w[i]),
        0 <= k <= text.len(),
    ensures
        skip_ws(w + text, k + w.len()) == skip_ws(text, k) + w.len(),
        skip_ws(w + text, 0) == skip_ws(text, 0) + w.len(),
        forall|i: int|
            0 <= i <= text.len() ==> #[trigger] byte_offset(w + text, i + w.len()) == byte_offset(
                text,
                i,
            ) + w.len(),
        unplaced_token(scan_token(w + text, skip_ws(text, k) + w.len()), 0) == unplaced_token(
            scan_token(text, skip_ws(text, k)),
            w.len() as int,
        ),
{
    let t2 = w + text;
    let d = w.len() as int;
    assert(t2.skip(d) =~= text);
    lemma_skip_ws_shift(t2, text, d, k);
    lemma_skip_ws_shift(t2, text, d, 0);
    lemma_skip_ws_bounds(text, k);
    law_tokens_ignore_what_precedes(t2, text, d, skip_ws(text, k));
    lemma_skip_whitespace_prefix(t2, 0, d);
    lemma_whitespace_bytes(w);
    assert forall|i: int| 0 <= i <= text.len() implies #[trigger] byte_offset(t2, i + d)
        == byte_offset(text, i) + d by {
        assert(t2.take(i + d) =~= w + text.take(i));
        crate::text::lemma_encode_concat(w, text.take(i));
    }
}

/// Skipping whitespace from `k` over a stretch of whitespace up to `d`
/// goes at least to `d`.
proof fn lemma_skip_whitespace_prefix(t: Seq<char>, k: int, d: int)
    requires
        0 <= k <= d <= t.len(),
        forall|i: int| k <= i < d ==> is_json_whitespace(#[trigger] t[i]),
    ensures
        skip_ws(t, k) == skip_ws(t, d),
    decreases d - k,
{
    if k < d {
        lemma_skip_whitespace_prefix(t, k + 1, d);
    }
}

/// Whitespace takes one byte per character.
proof fn lemma_whitespace_bytes(w: Seq<char>)
    requires
        forall|i: int| 0 <= i < w.len() ==> is_json_whitespace(#[trigger] w[i]),
    ensures
        encode_utf8(w).len() == w.len(),
    decreases w.len(),
{
    if w.len() > 0 {
        assert(is_json_whitespace(w[0]));
        assert forall|i: int| 0 <= i < w.drop_first().len() implies is_json_whitespace(
            #[trigger] w.drop_first()[i],
        ) by {
            assert(w.drop_first()[i] == w[i + 1]);
        }
        lemma_whitespace_bytes(w.drop_first());
    }
}

/// The lower-case hexadecimal digit for `n < 16`.
pub open spec fn hex_char(n: int) -> char {
    if n < 10 {
        ((48 + n) as u32) as char
    } else {
        ((87 + n) as u32) as char
    }
}

/// Whether a character must be escaped inside a JSON string.
pub open spec fn needs_escape(c: char) -> bool {
    c == '"' || c == '\\' || is_json_control(c)
}

/// How a character is written inside a JSON string: quote and backslash
/// after a backslash, control characters as `\u00XX`, others as they are.
pub open spec fn escape_char(c: char) -> Seq<char> {
    if c == '"' || c == '\\' {
        seq!['\\', c]
    } else if is_json_control(c) {
        seq!['\\', 'u', '0', '0', hex_char((c as int) / 16), hex_char((c as int) % 16)]
    } else {
        seq![c]
    }
}

/// The characters `s` written as the body of a JSON string.
pub open spec fn escape_json(s: Seq<char>) -> Seq<char>
    decreases s.len(),
{
    if s.len() == 0 {
        Seq::empty()
    } else {
        escape_char(s[0]) + escape_json(s.drop_first())
    }
}

/// Whether any character of `s` must be escaped.
pub open spec fn any_needs_escape(s: Seq<char>) -> bool {
    exists|i: int| 0 <= i < s.len() && needs_escape(#[trigger] s[i])
}

proof fn lemma_hex_char(n: int)
    requires
        0 <= n < 16,
    ensures
        crate::chars::is_hex_digit(hex_char(n)),
        hex_digit_value(hex_char(n)) == n,
{
}

/// Reading a written character at the start of `t` gives the character
/// and goes on after what was written.
proof fn lemma_escape_char_read(c: char, t: Seq<char>, rest: Seq<char>)
    requires
        t == escape_char(c) + rest,
    ensures
        scan_string(t, 0) == crate::grammar::prepend(
            seq![c],
            needs_escape(c),
            scan_string(t, escape_char(c).len() as int),
        ),
{
    if c == '"' || c == '\\' {
        assert(t[0] == '\\' && t[1] == c);
        assert(escape_len(t, 0) == 2);
    } else if is_json_control(c) {
        let v = c as int;
        assert(0 <= v < 32);
        lemma_hex_char(v / 16);
        lemma_hex_char(v % 16);
        assert(t[0] == '\\' && t[1] == 'u' && t[2] == '0' && t[3] == '0');
        assert(t[4] == hex_char(v / 16) && t[5] == hex_char(v % 16));
        assert(crate::grammar::hex4_value(t, 2) == v);
        assert(scan_hex4(t, 2) == Ok::<int, LexErrorView>(v));
        vstd::utf8::char_u32_cast(c, (v as u32));
        assert(scan_unicode_escape(t, 2) == Ok::<char, LexErrorView>(c));
        assert(escape_len(t, 0) == 6);
    } else {
        assert(t[0] == c);
    }
}

proof fn lemma_any_needs_escape(s: Seq<char>)
    requires
        s.len() > 0,
    ensures
        any_needs_escape(s) == (needs_escape(s[0]) || any_needs_escape(s.drop_first())),
{
    let rest = s.drop_first();
    if any_needs_escape(rest) {
        let i = choose|i: int| 0 <= i < rest.len() && needs_escape(#[trigger] rest[i]);
        assert(s[i + 1] == rest[i]);
    }
    if any_needs_escape(s) && !needs_escape(s[0]) {
        let i = choose|i: int| 0 <= i < s.len() && needs_escape(#[trigger] s[i]);
        assert(rest[i - 1] == s[i]);
    }
    if needs_escape(s[0]) {
        assert(0 <= 0 < s.len() && needs_escape(s[0]));
    }
}

/// A string body written with `escape_json`, closed by a quote, is lexed
/// back to the characters written, ending after the quote; it counts as
/// escaped exactly where a character needed an escape.
pub proof fn law_escaped_strings_round_trip(s: Seq<char>)
    ensures
        scan_string(escape_json(s) + seq!['"'], 0) == Ok::<StringScan, LexErrorView>(
            StringScan {
                content: s,
                end: escape_json(s).len() + 1int,
                escaped: any_needs_escape(s),
            },
        ),
    decreases s.len(),
{
    let t = escape_json(s) + seq!['"'];
    if s.len() == 0 {
        assert(t =~= seq!['"']);
        assert(s =~= Seq::<char>::empty());
    } else {
        let c = s[0];
        let rest = s.drop_first();
        let e = escape_char(c);
        let rest_t = escape_json(rest) + seq!['"'];
        assert(t =~= e + rest_t);
        law_escaped_strings_round_trip(rest);
        let d = e.len() as int;
        assert(t.skip(d) =~= rest_t);
        lemma_string_shift(t, rest_t, d, 0);
        lemma_escape_char_read(c, t, rest_t);
        lemma_any_needs_escape(s);
        assert(seq![c] + rest =~= s);
    }
}

/// The number of line feeds in `s`.
pub open spec fn count_newlines(s: Seq<char>) -> nat
    decreases s.len(),
{
    if s.len() == 0 {
        0
    } else {
        count_newlines(s.drop_last()) + if s.last() == '\n' {
            1nat
        } else {
            0nat
        }
    }
}

/// Where the line that holds index `k` starts: just after the last line
/// feed before `k`, or at the start of the input where there is none.
pub open spec fn line_start(text: Seq<char>, k: int) -> int
    decreases k,
{
    if k <= 0 {
        0
    } else if text[k - 1] == '\n' {
        k
    } else {
        line_start(text, k - 1)
    }
}

/// The line of a position is one more than the number of line feeds before
/// it, and its column is one more than the number of characters between
/// the start of its line and the position.
pub proof fn law_line_and_column(text: Seq<char>, k: int)
    requires
        0 <= k <= text.len(),
    ensures
        0 <= line_start(text, k) <= k,
        line_col(text, k).0 == 1 + count_newlines(text.take(k)),
        line_col(text, k).1 == 1 + k - line_start(text, k),
    decreases k,
{
    if k > 0 {
        assert(text.take(k).drop_last() =~= text.take(k - 1));
        law_line_and_column(text, k - 1);
    }
}

/// Every lexer stands at the byte offset of a character of its input (a
/// character boundary, at most the input's length), on the line one more
/// than the number of line feeds before it, and at the column one more than
/// the number of characters since that line started.
pub proof fn law_lexer_position(v: LexerView)
    requires
        v.is_consistent(),
    ensures
        0 <= v.index <= v.text.len(),
        v.pos == byte_offset(v.text, v.index),
        0 <= v.pos <= encode_utf8(v.text).len(),
        v.line == 1 + count_newlines(v.text.take(v.index)),
        v.column == 1 + v.index - line_start(v.text, v.index),
{
    law_line_and_column(v.text, v.index);
    lemma_offset_bounds(v.text, 0, v.index);
}

/// `next` is `next_token` with `None` in place of `Eof`: whatever
/// `next_token` yields at a position, `next` yields the same there as an
/// item of the stream, and `None` exactly where `next_token` finds `Eof`.
pub proof fn law_next_is_next_token_without_eof(
    text: Seq<char>,
    k: int,
    res: Result<SpannedToken, LexError>,
    index_after: int,
)
    requires
        0 <= k <= text.len(),
        next_token_outcome(text, k, res, index_after),
    ensures
        next_outcome(text, k, as_item(res), index_after),
        as_item(res) is None <==> skip_ws(text, k) >= text.len(),
{
    lemma_skip_ws_bounds(text, k);
    law_token_bounds(text, skip_ws(text, k));
}

/// Iterating a lexer ends. Take successive calls of `next` on one lexer,
/// the indices it stands at before and after each, and what each gave, as
/// `next` ensures them: each item moves the lexer on, so the stream gives
/// at most as many items as the input has characters before its first
/// `None`; and once it gives `None` it gives `None` on every later call.
pub proof fn law_iteration_ends(
    text: Seq<char>,
    items: Seq<Option<Result<SpannedToken, LexError>>>,
    indices: Seq<int>,
)
    requires
        indices.len() == items.len() + 1,
        forall|i: int| 0 <= i < indices.len() ==> 0 <= #[trigger] indices[i] <= text.len(),
        forall|i: int|
            0 <= i < items.len() ==> next_outcome(text, indices[i], #[trigger] items[i], indices[i
                + 1]) && (items[i] is Some ==> indices[i] < indices[i + 1]),
    ensures
        (forall|i: int| 0 <= i < items.len() ==> #[trigger] items[i] is Some) ==> items.len()
            <= text.len(),
        forall|i: int, j: int|
            #![trigger items[i], items[j]]
            0 <= i <= j < items.len() && items[i] is None ==> items[j] is None,
{
    if forall|i: int| 0 <= i < items.len() ==> #[trigger] items[i] is Some {
        assert forall|i: int| 0 <= i < indices.len() - 1 implies #[trigger] indices[i]
            < indices[i + 1] by {
            assert(items[i] is Some);
        }
        lemma_rising(indices, indices.len() - 1);
    }
    assert forall|i: int| 0 <= i < items.len() - 1 && #[trigger] items[i] is None implies items[i
        + 1] is None by {
        law_eof_is_stable(text, indices[i]);
        assert(next_outcome(text, indices[i + 1], items[i + 1], indices[i + 2]));
    }
    assert forall|i: int, j: int|
        #![trigger items[i], items[j]]
        0 <= i <= j < items.len() && items[i] is None implies items[j] is None by {
        lemma_none_stays(items, i, j);
    }
}

proof fn lemma_none_stays(items: Seq<Option<Result<SpannedToken, LexError>>>, i: int, j: int)
    requires
        0 <= i <= j < items.len(),
        items[i] is None,
        forall|m: int| 0 <= m < items.len() - 1 && #[trigger] items[m] is None ==> items[m
            + 1] is None,
    ensures
        items[j] is None,
    decreases j - i,
{
    if j > i {
        lemma_none_stays(items, i, j - 1);
        assert(items[j - 1] is None);
    }
}

proof fn lemma_rising(indices: Seq<int>, n: int)
    requires
        0 <= n < indices.len(),
        indices[0] >= 0,
        forall|i: int| 0 <= i < indices.len() - 1 ==> #[trigger] indices[i] < indices[i + 1],
    ensures
        indices[n] >= n,
    decreases n,
{
    if n > 0 {
        lemma_rising(indices, n - 1);
        assert(indices[n - 1] < indices[n]);
    }
}

/// The index after `n` tokens lexed in turn from index `k`, where each of
/// them is found.
pub open spec fn index_after_tokens(text: Seq<char>, k: int, n: nat) -> Option<int>
    decreases n,
{
    if n == 0 {
        Some(k)
    } else {
        match scan_token(text, skip_ws(text, k)) {
            Ok((_, e)) => index_after_tokens(text, e, (n - 1) as nat),
            Err(_) => None,
        }
    }
}

/// The result of the `n`-th call (counting from 0) of `next_token` from
/// index `k`, where each call before it found a token.
pub open spec fn nth_result(text: Seq<char>, k: int, n: nat) -> Option<
    Result<(TokenView, int), LexErrorView>,
>
    decreases n,
{
    if n == 0 {
        Some(scan_token(text, skip_ws(text, k)))
    } else {
        match scan_token(text, skip_ws(text, k)) {
            Ok((_, e)) => nth_result(text, e, (n - 1) as nat),
            Err(_) => None,
        }
    }
}

/// An index moved on by `d`.
pub open spec fn shifted_index(o: Option<int>, d: int) -> Option<int> {
    match o {
        Some(i) => Some(i + d),
        None => None,
    }
}

/// A result whose end is moved on by `d`, its error left unplaced.
pub open spec fn unplaced_nth(o: Option<Result<(TokenView, int), LexErrorView>>, d: int) -> Option<
    Result<(TokenView, int), LexErrorView>,
> {
    match o {
        Some(r) => Some(unplaced_token(r, d)),
        None => None,
    }
}

proof fn lemma_stream_shift(t2: Seq<char>, t1: Seq<char>, d: int, k: int, n: nat)
    requires
        0 <= d <= t2.len(),
        t1 == t2.skip(d),
        0 <= k <= t1.len(),
    ensures
        index_after_tokens(t2, k + d, n) == shifted_index(index_after_tokens(t1, k, n), d),
        unplaced_nth(nth_result(t2, k + d, n), 0) == unplaced_nth(nth_result(t1, k, n), d),
    decreases n,
{
    lemma_skip_ws_shift(t2, t1, d, k);
    lemma_skip_ws_bounds(t1, k);
    let s = skip_ws(t1, k);
    law_tokens_ignore_what_precedes(t2, t1, d, s);
    law_token_bounds(t1, s);
    if n > 0 {
        if let Ok((_, e)) = scan_token(t1, s) {
            lemma_stream_shift(t2, t1, d, e, (n - 1) as nat);
        }
    }
}

/// Whitespace in front of an input shifts every later token: lexing in
/// turn, the `n`-th call finds the same token (or an error that says the
/// same) with and without the whitespace, every index it leaves the lexer at
/// is moved on by the length of the whitespace, and so is every byte offset
/// of a span.
pub proof fn law_whitespace_prefix_over_calls(w: Seq<char>, text: Seq<char>, n: nat)
    requires
        forall|i: int| 0 <= i < w.len() ==> is_json_whitespace(#[trigger] w[i]),
    ensures
        index_after_tokens(w + text, 0, n + 1) == shifted_index(
            index_after_tokens(text, 0, n + 1),
            w.len() as int,
        ),
        unplaced_nth(nth_result(w + text, 0, n), 0) == unplaced_nth(
            nth_result(text, 0, n),
            w.len() as int,
        ),
        forall|i: int|
            0 <= i <= text.len() ==> #[trigger] byte_offset(w + text, i + w.len()) == byte_offset(
                text,
                i,
            ) + w.len(),
{
    let t2 = w + text;
    let d = w.len() as int;
    assert(t2.skip(d) =~= text);
    law_whitespace_prefix(w, text, 0);
    lemma_skip_whitespace_prefix(t2, 0, d);
    lemma_stream_shift(t2, text, d, 0, n + 1);
    lemma_stream_shift(t2, text, d, 0, n);
    assert(index_after_tokens(t2, 0, n + 1) == index_after_tokens(t2, d, n + 1));
    assert(nth_result(t2, 0, n) == nth_result(t2, d, n));
}

/// Two hexadecimal digits of the same value (`a` and `A`, say).
pub open spec fn same_hex_digit(a: char, b: char) -> bool {
    is_hex_digit(a) && is_hex_digit(b) && hex_digit_value(a) == hex_digit_value(b)
}

/// The four indices from `h`.
pub open spec fn hex_group(h: int) -> Set<int> {
    Set::new(|p: int| h <= p < h + 4)
}

/// Whether the `\u` escape whose digits start at `h` gives a high surrogate
/// followed by a second `\u` escape.
pub open spec fn reads_pair(t: Seq<char>, h: int) -> bool {
    &&& scan_hex4(t, h) matches Ok(v) && crate::grammar::is_high_surrogate(v)
    &&& h + 5 < t.len()
    &&& t[h + 4] == '\\'
    &&& t[h + 5] == 'u'
}

/// The indices that the escape sequence whose backslash has index `i`
/// reads as hexadecimal digits.
pub open spec fn escape_hex_reads(t: Seq<char>, i: int) -> Set<int> {
    if i + 1 < t.len() && t[i + 1] == 'u' {
        if reads_pair(t, i + 2) {
            hex_group(i + 2).union(hex_group(i + 8))
        } else {
            hex_group(i + 2)
        }
    } else {
        Set::empty()
    }
}

/// The indices that lexing a string body from `i` reads as hexadecimal
/// digits of `\u` escapes.
pub open spec fn hex_digit_reads(t: Seq<char>, i: int) -> Set<int>
    decreases t.len() - i,
{
    if i < 0 || i >= t.len() || t[i] == '"' {
        Set::empty()
    } else if t[i] == '\\' {
        let here = escape_hex_reads(t, i);
        if scan_escape(t, i) is Ok {
            here.union(hex_digit_reads(t, i + escape_len(t, i)))
        } else {
            here
        }
    } else if is_json_control(t[i]) {
        Set::empty()
    } else {
        hex_digit_reads(t, i + 1)
    }
}

proof fn lemma_hex_digit_reads_after(t: Seq<char>, i: int)
    requires
        0 <= i,
    ensures
        forall|p: int| #[trigger] hex_digit_reads(t, i).contains(p) ==> p > i,
    decreases t.len() - i,
{
    if 0 <= i < t.len() && t[i] != '"' {
        if t[i] == '\\' {
            if scan_escape(t, i) is Ok {
                lemma_escape_bounds(t, i);
                lemma_hex_digit_reads_after(t, i + escape_len(t, i));
            }
            let here = escape_hex_reads(t, i);
            lemma_escape_hex_reads_range(t, i);
            if scan_escape(t, i) is Ok {
                let rest = hex_digit_reads(t, i + escape_len(t, i));
                assert(hex_digit_reads(t, i) == here.union(rest));
                assert forall|p: int| #[trigger] hex_digit_reads(t, i).contains(p) implies p > i by {
                    if !here.contains(p) {
                        assert(rest.contains(p));
                    }
                }
            } else {
                assert(hex_digit_reads(t, i) == here);
            }
        } else if !is_json_control(t[i]) {
            lemma_hex_digit_reads_after(t, i + 1);
            assert(hex_digit_reads(t, i) == hex_digit_reads(t, i + 1));
        }
    }
}

/// Texts that agree on where line feeds stand agree on lines and columns.
proof fn lemma_line_col_agree(t1: Seq<char>, t2: Seq<char>, k: int)
    requires
        k <= t1.len(),
        forall|q: int| 0 <= q < k ==> (t1[q] == '\n') == (#[trigger] t2[q] == '\n'),
    ensures
        line_col(t1, k) == line_col(t2, k),
    decreases k,
{
    if k > 0 {
        lemma_line_col_agree(t1, t2, k - 1);
    }
}

/// Texts whose characters take the same number of bytes agree on offsets.
proof fn lemma_offsets_agree(t1: Seq<char>, t2: Seq<char>, k: int)
    requires
        t1.len() == t2.len(),
        0 <= k <= t1.len(),
        forall|q: int| 0 <= q < k ==> crate::text::utf8_width(t1[q]) == crate::text::utf8_width(
            #[trigger] t2[q],
        ),
    ensures
        byte_offset(t1, k) == byte_offset(t2, k),
    decreases k,
{
    if k == 0 {
        assert(t1.take(0) =~= t2.take(0));
    } else {
        lemma_offsets_agree(t1, t2, k - 1);
        crate::text::lemma_offset_step(t1, k - 1);
        crate::text::lemma_offset_step(t2, k - 1);
    }
}

proof fn lemma_hex_digit_error_case(t1: Seq<char>, t2: Seq<char>, i: int)
    requires
        t1.len() == t2.len(),
        0 <= i <= t1.len(),
        i < t1.len() ==> t1[i] == t2[i] || same_hex_digit(t1[i], t2[i]),
        forall|q: int| 0 <= q < t1.len() ==> (t1[q] == '\n') == (#[trigger] t2[q] == '\n'),
    ensures
        hex_digit_error(t1, i) == hex_digit_error(t2, i),
        i < t1.len() && is_hex_digit(t1[i]) ==> hex_digit_value(t1[i]) == hex_digit_value(t2[i]),
{
    lemma_line_col_agree(t1, t2, i);
}

proof fn lemma_hex4_case(t1: Seq<char>, t2: Seq<char>, h: int)
    requires
        t1.len() == t2.len(),
        0 <= h <= t1.len(),
        forall|p: int|
            h <= p < h + 4 && p < t1.len() ==> t1[p] == t2[p] || same_hex_digit(
                t1[p],
                #[trigger] t2[p],
            ),
        forall|q: int| 0 <= q < t1.len() ==> (t1[q] == '\n') == (#[trigger] t2[q] == '\n'),
    ensures
        scan_hex4(t1, h) == scan_hex4(t2, h),
{
    if h < t1.len() {
        assert(t1[h] == t2[h] || same_hex_digit(t1[h], t2[h]));
    }
    if h + 1 < t1.len() {
        assert(t1[h + 1] == t2[h + 1] || same_hex_digit(t1[h + 1], t2[h + 1]));
    }
    if h + 2 < t1.len() {
        assert(t1[h + 2] == t2[h + 2] || same_hex_digit(t1[h + 2], t2[h + 2]));
    }
    if h + 3 < t1.len() {
        assert(t1[h + 3] == t2[h + 3] || same_hex_digit(t1[h + 3], t2[h + 3]));
    }
    lemma_hex_digit_error_case(t1, t2, h);
    if h + 1 <= t1.len() {
        lemma_hex_digit_error_case(t1, t2, h + 1);
    }
    if h + 2 <= t1.len() {
        lemma_hex_digit_error_case(t1, t2, h + 2);
    }
    if h + 3 <= t1.len() {
        lemma_hex_digit_error_case(t1, t2, h + 3);
    }
}

/// The digits an escape reads lie after its backslash and within the
/// characters it takes.
proof fn lemma_escape_hex_reads_range(t: Seq<char>, i: int)
    ensures
        forall|p: int| #[trigger] escape_hex_reads(t, i).contains(p) ==> i + 2 <= p < i
            + escape_len(t, i),
{
    assert forall|p: int| #[trigger] escape_hex_reads(t, i).contains(p) implies i + 2 <= p < i
        + escape_len(t, i) by {
        if hex_group(i + 2).contains(p) {
            assert(i + 2 <= p < i + 6);
        } else if hex_group(i + 8).contains(p) {
            assert(i + 8 <= p < i + 12);
        }
    }
}

proof fn lemma_escape_case(t1: Seq<char>, t2: Seq<char>, i: int)
    requires
        t1.len() == t2.len(),
        0 <= i < t1.len(),
        forall|q: int| 0 <= q < t1.len() ==> (t1[q] == '\n') == (#[trigger] t2[q] == '\n'),
        forall|p: int|
            i < p < t1.len() && p < i + escape_len(t1, i) ==> t1[p] == #[trigger] t2[p] || (
            escape_hex_reads(t1, i).contains(p) && same_hex_digit(t1[p], t2[p])),
    ensures
        scan_escape(t1, i) == scan_escape(t2, i),
        escape_len(t1, i) == escape_len(t2, i),
{
    lemma_escape_hex_reads_range(t1, i);
    let j = i + 1;
    if j < t1.len() {
        assert(t1[j] == t2[j]);
        lemma_line_col_agree(t1, t2, j);
        if t1[j] == 'u' {
            let h = j + 1;
            assert forall|p: int| h <= p < h + 4 && p < t1.len() implies t1[p] == t2[p]
                || same_hex_digit(t1[p], #[trigger] t2[p]) by {
                assert(hex_group(h).contains(p));
            }
            lemma_hex4_case(t1, t2, h);
            if let Ok(high) = scan_hex4(t1, h) {
                if crate::grammar::is_high_surrogate(high) {
                    if h + 4 < t1.len() {
                        assert(t1[h + 4] == t2[h + 4]);
                    }
                    if h + 5 < t1.len() {
                        assert(t1[h + 5] == t2[h + 5]);
                    }
                    if h + 4 <= t1.len() {
                        lemma_line_col_agree(t1, t2, h + 4);
                    }
                    if h + 5 <= t1.len() {
                        lemma_line_col_agree(t1, t2, h + 5);
                    }
                    if h + 5 < t1.len() && t1[h + 4] == '\\' && t1[h + 5] == 'u' {
                        assert(reads_pair(t1, h));
                        assert forall|p: int| h + 6 <= p < h + 10 && p < t1.len() implies t1[p]
                            == t2[p] || same_hex_digit(t1[p], #[trigger] t2[p]) by {
                            assert(hex_group(h + 6).contains(p));
                        }
                        lemma_hex4_case(t1, t2, h + 6);
                        if h + 10 <= t1.len() {
                            lemma_line_col_agree(t1, t2, h + 10);
                        }
                    }
                } else if h + 4 <= t1.len() {
                    lemma_line_col_agree(t1, t2, h + 4);
                }
            }
        }
    } else {
        lemma_line_col_agree(t1, t2, t1.len() as int);
    }
}

proof fn lemma_string_case(t1: Seq<char>, t2: Seq<char>, i: int)
    requires
        t1.len() == t2.len(),
        0 <= i <= t1.len(),
        forall|q: int| 0 <= q < t1.len() ==> (t1[q] == '\n') == (#[trigger] t2[q] == '\n'),
        forall|p: int|
            i <= p < t1.len() ==> t1[p] == #[trigger] t2[p] || (hex_digit_reads(t1, i).contains(p)
                && same_hex_digit(t1[p], t2[p])),
    ensures
        scan_string(t1, i) == scan_string(t2, i),
    decreases t1.len() - i,
{
    lemma_hex_digit_reads_after(t1, i);
    lemma_line_col_agree(t1, t2, i);
    if i < t1.len() {
        assert(t1[i] == t2[i]);
        if t1[i] == '\\' {
            let here = escape_hex_reads(t1, i);
            lemma_escape_hex_reads_range(t1, i);
            lemma_escape_bounds(t1, i);
            assert forall|p: int|
                i < p < t1.len() && p < i + escape_len(t1, i) implies t1[p] == #[trigger] t2[p] || (
                here.contains(p) && same_hex_digit(t1[p], t2[p])) by {
                if t1[p] != t2[p] && scan_escape(t1, i) is Ok {
                    let next = i + escape_len(t1, i);
                    lemma_hex_digit_reads_after(t1, next);
                    assert(hex_digit_reads(t1, i) == here.union(hex_digit_reads(t1, next)));
                }
            }
            lemma_escape_case(t1, t2, i);
            if scan_escape(t1, i) is Ok {
                let next = i + escape_len(t1, i);
                assert(hex_digit_reads(t1, i) == here.union(hex_digit_reads(t1, next)));
                assert forall|p: int| next <= p < t1.len() implies t1[p] == #[trigger] t2[p] || (
                    hex_digit_reads(t1, next).contains(p) && same_hex_digit(t1[p], t2[p])) by {
                    if t1[p] != t2[p] {
                        assert(!here.contains(p));
                    }
                }
                lemma_string_case(t1, t2, next);
            }
        } else if t1[i] != '"' && !is_json_control(t1[i]) {
            assert(hex_digit_reads(t1, i) == hex_digit_reads(t1, i + 1));
            lemma_string_case(t1, t2, i + 1);
        }
    }
}

/// The case of the letters in `\u` escapes does not matter: two texts that
/// differ only in the case of hexadecimal digits that lexing a string body
/// from `i` reads in escapes give the same string (or the same error, at
/// the same line and column), and agree on every byte offset.
pub proof fn law_hex_case_does_not_matter(t1: Seq<char>, t2: Seq<char>, i: int)
    requires
        t1.len() == t2.len(),
        0 <= i <= t1.len(),
        forall|p: int|
            0 <= p < t1.len() ==> t1[p] == #[trigger] t2[p] || (hex_digit_reads(t1, i).contains(p)
                && same_hex_digit(t1[p], t2[p])),
    ensures
        scan_string(t1, i) == scan_string(t2, i),
        forall|k: int| 0 <= k <= t1.len() ==> #[trigger] byte_offset(t1, k) == byte_offset(t2, k),
        forall|k: int| 0 <= k <= t1.len() ==> #[trigger] line_col(t1, k) == line_col(t2, k),
{
    assert forall|q: int| 0 <= q < t1.len() implies (t1[q] == '\n') == (#[trigger] t2[q] == '\n')
        && crate::text::utf8_width(t1[q]) == crate::text::utf8_width(t2[q]) by {
        if t1[q] != t2[q] {
            assert(same_hex_digit(t1[q], t2[q]));
            vstd::utf8::char_is_scalar(t1[q]);
            vstd::utf8::char_is_scalar(t2[q]);
        }
    }
    lemma_string_case(t1, t2, i);
    assert forall|k: int| 0 <= k <= t1.len() implies #[trigger] byte_offset(t1, k) == byte_offset(
        t2,
        k,
    ) by {
        lemma_offsets_agree(t1, t2, k);
    }
    assert forall|k: int| 0 <= k <= t1.len() implies #[trigger] line_col(t1, k) == line_col(t2, k)
        by {
        lemma_line_col_agree(t1, t2, k);
    }
}

/// Whether `c` may stand right after a number: a space, tab, line feed,
/// carriage return, comma, closing bracket or brace, or colon.
pub open spec fn may_follow_number(c: char) -> bool {
    c == ' ' || c == '\t' || c == '\n' || c == '\r' || c == ',' || c == ']' || c == '}' || c == ':'
}

/// A JSON number is lexed whole, as one number token, exactly where the end
/// of the input, a space, tab, line feed, carriage return, comma, closing
/// bracket or brace, or colon follows it; a number token is never followed
/// by anything else.
pub proof fn law_number_terminators(text: Seq<char>, s: int, e: int)
    requires
        0 <= s < e <= text.len(),
    ensures
        is_json_number(text.subrange(s, e)) && (e == text.len() || may_follow_number(text[e]))
            ==> scan_token(text, s) == Ok::<(TokenView, int), crate::error::LexErrorView>(
            (TokenView::Number(text.subrange(s, e)), e),
        ),
        scan_token(text, s) matches Ok((TokenView::Number(t), end)) ==> (end == text.len()
            || may_follow_number(text[end])),
{
    if is_json_number(text.subrange(s, e)) && (e == text.len() || may_follow_number(text[e])) {
        law_json_numbers_are_lexed(text, s, e);
    }
    law_number_tokens_are_json_numbers(text, s);
}

/// Whether `c` is an ASCII letter, an ASCII digit or an underscore.
pub open spec fn is_word_char(c: char) -> bool {
    ('a' <= c <= 'z') || ('A' <= c <= 'Z') || ('0' <= c <= '9') || c == '_'
}

/// The token that the keyword `word` stands for.
pub open spec fn keyword_token(word: Seq<char>) -> TokenView {
    if word == "true"@ {
        TokenView::True
    } else if word == "false"@ {
        TokenView::False
    } else {
        TokenView::Null
    }
}

/// Where `true`, `false` or `null` is spelled at `s`: it is lexed as its
/// token, ending right after the keyword, when the input ends there or any
/// character but an ASCII letter, digit or underscore follows (whitespace
/// and delimiters among them); where one of those follows, it is an error.
pub proof fn law_keywords_are_lexed(text: Seq<char>, s: int, word: Seq<char>)
    requires
        word == "true"@ || word == "false"@ || word == "null"@,
        0 <= s,
        s + word.len() <= text.len(),
        text.subrange(s, s + word.len()) == word,
    ensures
        s + word.len() == text.len() || !is_word_char(text[s + word.len()])
            ==> scan_token(text, s) == Ok::<(TokenView, int), crate::error::LexErrorView>(
            (keyword_token(word), s + word.len()),
        ),
        s + word.len() < text.len() && is_word_char(text[s + word.len()]) ==> scan_token(
            text,
            s,
        ) is Err,
{
    reveal_strlit("true");
    reveal_strlit("false");
    reveal_strlit("null");
    let n = word.len() as int;
    assert(text[s] == word[0]);
    assert(keyword_reads(text, s + 1, word) == n - 1);
    assert(keyword_found(text, s + 1, word, word[0]) =~= word) by {
        assert forall|m: int| 1 <= m < n implies text[s + m] == word[m] by {
            assert(text.subrange(s, s + n)[m] == text[s + m]);
        }
    }
    assert(s + n < text.len() ==> (crate::grammar::continues_word(text[s + n]) == is_word_char(
        text[s + n],
    )));
}

/// The hexadecimal digit for `n` (0 to 15), its letter in upper case
/// where `upper` holds.
pub open spec fn hex_digit_char(n: int, upper: bool) -> char {
    if n < 10 {
        ((48 + n) as u32) as char
    } else if upper {
        ((55 + n) as u32) as char
    } else {
        ((87 + n) as u32) as char
    }
}

/// The escape `\u` with the four hexadecimal digits of `v` (0 to 0xFFFF),
/// most significant first, the case of each letter chosen by `upper`.
pub open spec fn u_escape(v: int, upper: Seq<bool>) -> Seq<char> {
    seq![
        '\\',
        'u',
        hex_digit_char(v / 4096, upper[0]),
        hex_digit_char((v / 256) % 16, upper[1]),
        hex_digit_char((v / 16) % 16, upper[2]),
        hex_digit_char(v % 16, upper[3]),
    ]
}

proof fn lemma_hex_digit_char(n: int, upper: bool)
    requires
        0 <= n < 16,
    ensures
        is_hex_digit(hex_digit_char(n, upper)),
        hex_digit_value(hex_digit_char(n, upper)) == n,
{
}

/// Four hexadecimal digits written for `v` read back as `v`.
proof fn lemma_hex4_written(text: Seq<char>, h: int, v: int, upper: Seq<bool>)
    requires
        0 <= v <= 0xFFFF,
        upper.len() == 4,
        2 <= h,
        h + 4 <= text.len(),
        text.subrange(h - 2, h + 4) == u_escape(v, upper),
    ensures
        text[h - 2] == '\\',
        text[h - 1] == 'u',
        scan_hex4(text, h) == Ok::<int, LexErrorView>(v),
{
    let t = text.subrange(h - 2, h + 4);
    assert(text[h - 2] == t[0] && text[h - 1] == t[1] && text[h] == t[2] && text[h + 1] == t[3]
        && text[h + 2] == t[4] && text[h + 3] == t[5]);
    lemma_hex_digit_char(v / 4096, upper[0]);
    lemma_hex_digit_char((v / 256) % 16, upper[1]);
    lemma_hex_digit_char((v / 16) % 16, upper[2]);
    lemma_hex_digit_char(v % 16, upper[3]);
    assert(4096 * (v / 4096) + 256 * ((v / 256) % 16) + 16 * ((v / 16) % 16) + v % 16 == v)
        by (nonlinear_arith)
        requires
            0 <= v <= 0xFFFF,
    ;
}

/// A `\u` escape of any character of the Basic Multilingual Plane but a
/// surrogate (written with digits of either case) stands for the character
/// whose scalar value the digits give: a string body that starts with it
/// reads that character, then the rest of the body.
pub proof fn law_bmp_escapes_are_read(text: Seq<char>, i: int, v: int, upper: Seq<bool>) -> (c:
    char)
    requires
        0 <= v <= 0xFFFF,
        !(0xD800 <= v <= 0xDFFF),
        upper.len() == 4,
        0 <= i,
        i + 6 <= text.len(),
        text.subrange(i, i + 6) == u_escape(v, upper),
    ensures
        c as u32 == v,
        scan_string(text, i) == crate::grammar::prepend(seq![c], true, scan_string(text, i + 6)),
{
    lemma_hex4_written(text, i + 2, v, upper);
    let c = (v as u32) as char;
    assert(scan_unicode_escape(text, i + 2) == Ok::<char, LexErrorView>(c));
    assert(escape_len(text, i) == 6);
    c
}

/// A UTF-16 surrogate pair written as two `\u` escapes (digits of either
/// case) stands for the character of the supplementary planes that it
/// encodes: a string body that starts with it reads that character, then
/// the rest of the body.
pub proof fn law_surrogate_pairs_are_read(
    text: Seq<char>,
    i: int,
    high: int,
    low: int,
    upper_high: Seq<bool>,
    upper_low: Seq<bool>,
) -> (c: char)
    requires
        0xD800 <= high <= 0xDBFF,
        0xDC00 <= low <= 0xDFFF,
        upper_high.len() == 4,
        upper_low.len() == 4,
        0 <= i,
        i + 12 <= text.len(),
        text.subrange(i, i + 12) == u_escape(high, upper_high) + u_escape(low, upper_low),
    ensures
        c as u32 == 0x10000 + (high - 0xD800) * 0x400 + (low - 0xDC00),
        scan_string(text, i) == crate::grammar::prepend(seq![c], true, scan_string(text, i + 12)),
{
    let t = text.subrange(i, i + 12);
    assert(text.subrange(i, i + 6) =~= u_escape(high, upper_high)) by {
        assert(text.subrange(i, i + 6) =~= t.subrange(0, 6));
        assert(t.subrange(0, 6) =~= u_escape(high, upper_high));
    }
    assert(text.subrange(i + 6, i + 12) =~= u_escape(low, upper_low)) by {
        assert(text.subrange(i + 6, i + 12) =~= t.subrange(6, 12));
        assert(t.subrange(6, 12) =~= u_escape(low, upper_low));
    }
    lemma_hex4_written(text, i + 2, high, upper_high);
    lemma_hex4_written(text, i + 8, low, upper_low);
    let x = 0x10000 + (high - 0xD800) * 0x400 + (low - 0xDC00);
    assert(0x10000 <= x <= 0x10FFFF) by (nonlinear_arith)
        requires
            x == 0x10000 + (high - 0xD800) * 0x400 + (low - 0xDC00),
            0xD800 <= high <= 0xDBFF,
            0xDC00 <= low <= 0xDFFF,
    ;
    let c = (x as u32) as char;
    assert(scan_unicode_escape(text, i + 2) == Ok::<char, LexErrorView>(c));
    assert(escape_len(text, i) == 12);
    c
}

/// Whether `c` is a hexadecimal digit: `0` to `9`, `a` to `f` or `A` to `F`.
pub open spec fn is_hex_char(c: char) -> bool {
    ('0' <= c <= '9') || ('a' <= c <= 'f') || ('A' <= c <= 'F')
}

/// A `\u` escape stops at the first of its four places that holds no
/// hexadecimal digit: a string body that starts with it is refused there,
/// with an invalid-escape error that names the character.
pub proof fn law_non_hex_digits_are_refused(text: Seq<char>, i: int, m: int)
    requires
        0 <= i,
        0 <= m < 4,
        i + 2 + m < text.len(),
        text[i] == '\\',
        text[i + 1] == 'u',
        forall|p: int| 0 <= p < m ==> is_hex_char(#[trigger] text[i + 2 + p]),
        !is_hex_char(text[i + 2 + m]),
    ensures
        scan_string(text, i) == Err::<StringScan, LexErrorView>(
            LexErrorView::InvalidEscape {
                reason: "expected hexadecimal digit, found '"@ + seq![text[i + 2 + m]] + "'"@,
                line: line_col(text, i + 2 + m).0,
                column: line_col(text, i + 2 + m).1,
            },
        ),
{
    if m > 0 {
        assert(is_hex_char(text[i + 2 + 0]));
    }
    if m > 1 {
        assert(is_hex_char(text[i + 2 + 1]));
    }
    if m > 2 {
        assert(is_hex_char(text[i + 2 + 2]));
    }
}

/// Whether `c` is a space, tab, line feed or carriage return.
pub open spec fn is_space_char(c: char) -> bool {
    c == ' ' || c == '\t' || c == '\n' || c == '\r'
}

/// Before a token the lexer passes over exactly the spaces, tabs, line feeds
/// and carriage returns that stand there, and stops at the first other
/// character or at the end of the input.
pub proof fn law_whitespace_is_skipped(text: Seq<char>, k: int, j: int)
    requires
        0 <= k <= j <= text.len(),
        forall|m: int| k <= m < j ==> is_space_char(#[trigger] text[m]),
        j == text.len() || !is_space_char(text[j]),
    ensures
        skip_ws(text, k) == j,
    decreases j - k,
{
    if k < j {
        assert(is_space_char(text[k]));
        law_whitespace_is_skipped(text, k + 1, j);
    }
}

/// Each of `{`, `}`, `[`, `]`, `:` and `,` is a token of its own, one
/// character long.
pub proof fn law_punctuation(text: Seq<char>, s: int)
    requires
        0 <= s < text.len(),
    ensures
        text[s] == '{' ==> scan_token(text, s) == Ok::<(TokenView, int), LexErrorView>(
            (TokenView::LeftBrace, s + 1),
        ),
        text[s] == '}' ==> scan_token(text, s) == Ok::<(TokenView, int), LexErrorView>(
            (TokenView::RightBrace, s + 1),
        ),
        text[s] == '[' ==> scan_token(text, s) == Ok::<(TokenView, int), LexErrorView>(
            (TokenView::LeftBracket, s + 1),
        ),
        text[s] == ']' ==> scan_token(text, s) == Ok::<(TokenView, int), LexErrorView>(
            (TokenView::RightBracket, s + 1),
        ),
        text[s] == ':' ==> scan_token(text, s) == Ok::<(TokenView, int), LexErrorView>(
            (TokenView::Colon, s + 1),
        ),
        text[s] == ',' ==> scan_token(text, s) == Ok::<(TokenView, int), LexErrorView>(
            (TokenView::Comma, s + 1),
        ),
{
}

/// Inside a string, a character below U+0020 that stands unescaped is
/// refused with an invalid-string error at its place; every other character
/// but a quote or a backslash stands for itself, and the body goes on after it.
pub proof fn law_string_characters(text: Seq<char>, i: int)
    requires
        0 <= i < text.len(),
        text[i] != '"',
        text[i] != '\\',
    ensures
        (text[i] as u32) < 0x20 ==> scan_string(text, i) == Err::<StringScan, LexErrorView>(
            LexErrorView::InvalidString {
                reason: "control characters are not allowed"@,
                line: line_col(text, i).0,
                column: line_col(text, i).1,
            },
        ),
        (text[i] as u32) >= 0x20 ==> scan_string(text, i) == crate::grammar::prepend(
            seq![text[i]],
            false,
            scan_string(text, i + 1),
        ),
{
}

/// The one-letter escapes: `\"`, `\\`, `\/`, `\b`, `\f`, `\n`, `\r` and
/// `\t` stand for a quote, a backslash, a slash, backspace (U+0008), form
/// feed (U+000C), line feed, carriage return and tab; a string body that
/// starts with one reads that character, then the rest of the body. A
/// backslash followed by any other character but `u` is refused.
pub proof fn law_short_escapes(text: Seq<char>, i: int)
    requires
        0 <= i,
        i + 1 < text.len(),
        text[i] == '\\',
    ensures
        ({
            let c = text[i + 1];
            let rest = scan_string(text, i + 2);
            &&& c == '"' ==> scan_string(text, i) == crate::grammar::prepend(seq!['"'], true, rest)
            &&& c == '\\' ==> scan_string(text, i) == crate::grammar::prepend(
                seq!['\\'],
                true,
                rest,
            )
            &&& c == '/' ==> scan_string(text, i) == crate::grammar::prepend(seq!['/'], true, rest)
            &&& c == 'b' ==> scan_string(text, i) == crate::grammar::prepend(
                seq!['\x08'],
                true,
                rest,
            )
            &&& c == 'f' ==> scan_string(text, i) == crate::grammar::prepend(
                seq!['\x0C'],
                true,
                rest,
            )
            &&& c == 'n' ==> scan_string(text, i) == crate::grammar::prepend(
                seq!['\n'],
                true,
                rest,
            )
            &&& c == 'r' ==> scan_string(text, i) == crate::grammar::prepend(
                seq!['\r'],
                true,
                rest,
            )
            &&& c == 't' ==> scan_string(text, i) == crate::grammar::prepend(
                seq!['\t'],
                true,
                rest,
            )
            &&& !(c == '"' || c == '\\' || c == '/' || c == 'b' || c == 'f' || c == 'n' || c == 'r'
                || c == 't' || c == 'u') ==> scan_string(text, i) is Err
        }),
{
}

/// A keyword token stands where its keyword is spelled, and no ASCII
/// letter, digit or underscore follows it.
pub proof fn law_keyword_tokens_are_keywords(text: Seq<char>, s: int)
    requires
        0 <= s < text.len(),
    ensures
        scan_token(text, s) matches Ok((TokenView::True, e)) ==> e == s + 4 && text.subrange(s, e)
            == "true"@ && (e == text.len() || !is_word_char(text[e])),
        scan_token(text, s) matches Ok((TokenView::False, e)) ==> e == s + 5 && text.subrange(s, e)
            == "false"@ && (e == text.len() || !is_word_char(text[e])),
        scan_token(text, s) matches Ok((TokenView::Null, e)) ==> e == s + 4 && text.subrange(s, e)
            == "null"@ && (e == text.len() || !is_word_char(text[e])),
{
    reveal_strlit("true");
    reveal_strlit("false");
    reveal_strlit("null");
    let c = text[s];
    if c == 't' || c == 'f' || c == 'n' {
        let word = if c == 't' {
            "true"@
        } else if c == 'f' {
            "false"@
        } else {
            "null"@
        };
        let found = keyword_found(text, s + 1, word, c);
        if found == word {
            let e = s + word.len();
            assert(keyword_reads(text, s + 1, word) == word.len() - 1);
            assert(text.subrange(s, e) =~= found);
            if e < text.len() {
                assert(crate::grammar::continues_word(text[e]) == is_word_char(text[e]));
            }
        }
    }
}

} // verus!
