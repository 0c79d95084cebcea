//! Character classes that the JSON grammar uses, and the two conversions
//! between characters and other values that the lexer needs from std.

use vstd::prelude::*;
use vstd::utf8::is_scalar;

verus! {

/// Whitespace between JSON tokens: space, tab, line feed, carriage return.
pub open spec fn is_json_whitespace(c: char) -> bool {
    c == ' ' || c == '\t' || c == '\n' || c == '\r'
}

/// An ASCII decimal digit.
pub open spec fn is_digit(c: char) -> bool {
    '0' <= c <= '9'
}

/// A hexadecimal digit of either case, as `char::to_digit(16)` accepts them.
pub open spec fn is_hex_digit(c: char) -> bool {
    ('0' <= c <= '9') || ('a' <= c <= 'f') || ('A' <= c <= 'F')
}

/// The value of a hexadecimal digit.
pub open spec fn hex_digit_value(c: char) -> int {
    if '0' <= c <= '9' {
        c as int - '0' as int
    } else if 'a' <= c <= 'f' {
        c as int - 'a' as int + 10
    } else {
        c as int - 'A' as int + 10
    }
}

/// A control character that JSON forbids unescaped in a string:
/// U+0000 to U+001F (RFC 8259, section 7).
pub open spec fn is_json_control(c: char) -> bool {
    (c as u32) <= 0x1F
}

/// An ASCII letter or digit.
pub open spec fn is_ascii_alphanumeric(c: char) -> bool {
    ('0' <= c <= '9') || ('a' <= c <= 'z') || ('A' <= c <= 'Z')
}

/// A character that may directly follow a number: whitespace or a delimiter.
pub open spec fn ends_number(c: char) -> bool {
    is_json_whitespace(c) || c == ',' || c == ']' || c == '}' || c == ':'
}

pub(crate) fn is_json_whitespace_exec(c: char) -> (r: bool)
    ensures
        r == is_json_whitespace(c),
{
    c == ' ' || c == '\t' || c == '\n' || c == '\r'
}

pub(crate) fn is_digit_exec(c: char) -> (r: bool)
    ensures
        r == is_digit(c),
{
    '0' <= c && c <= '9'
}

pub(crate) fn ends_number_exec(c: char) -> (r: bool)
    ensures
        r == ends_number(c),
{
    is_json_whitespace_exec(c) || c == ',' || c == ']' || c == '}' || c == ':'
}

pub(crate) fn is_json_control_exec(c: char) -> (r: bool)
    ensures
        r == is_json_control(c),
{
    (c as u32) <= 0x1F
}

pub(crate) fn is_ascii_alphanumeric_exec(c: char) -> (r: bool)
    ensures
        r == is_ascii_alphanumeric(c),
{
    ('0' <= c && c <= '9') || ('a' <= c && c <= 'z') || ('A' <= c && c <= 'Z')
}

/// The value of `c` as a hexadecimal digit, or `None` where it is none.
pub(crate) fn hex_digit_exec(c: char) -> (r: Option<u16>)
    ensures
        r is Some <==> is_hex_digit(c),
        r matches Some(v) ==> v == hex_digit_value(c) && v < 16,
{
    let v = c as u32;
    if '0' <= c && c <= '9' {
        Some((v - 0x30) as u16)
    } else if 'a' <= c && c <= 'f' {
        Some((v - 0x61 + 10) as u16)
    } else if 'A' <= c && c <= 'F' {
        Some((v - 0x41 + 10) as u16)
    } else {
        None
    }
}

/// `char::from_u32`: the character with scalar value `v`, or `None` where
/// `v` is a surrogate or beyond U+10FFFF. The contract restates that
/// documented behaviour over vstd's `is_scalar`; it is not proved here.
#[verifier::external_body]
pub(crate) fn char_from_u32(v: u32) -> (r: Option<char>)
    ensures
        r == (if is_scalar(v) { Some(v as char) } else { None::<char> }),
{
    char::from_u32(v)
}

/// `String::push`: appends `c` to `s`. The contract states the documented
/// effect on the characters of `s`; it is not proved here.
#[verifier::external_body]
pub(crate) fn push_char(s: &mut String, c: char)
    ensures
        final(s)@ == old(s)@.push(c),
{
    s.push(c)
}

} // verus!
