//! Positions in UTF-8 text: byte offsets of character indices, and
//! reading one character or a slice of characters at a byte offset.

use vstd::prelude::*;
use vstd::string::StringSliceAdditionalSpecFns;
use vstd::utf8::*;
use vstd::std_specs::iter::IteratorSpec;

verus! {

/// The byte offset at which the character with index `k` of `text` starts
/// in the UTF-8 encoding of `text` (for `k == text.len()`, the total length).
pub open spec fn byte_offset(text: Seq<char>, k: int) -> int {
    encode_utf8(text.take(k)).len() as int
}

/// The number of bytes of the UTF-8 encoding of `c`.
pub open spec fn utf8_width(c: char) -> int {
    encode_scalar(c as u32).len() as int
}

/// Encoding a concatenation encodes each part in turn.
pub proof fn lemma_encode_concat(a: Seq<char>, b: Seq<char>)
    ensures
        encode_utf8(a + b) == encode_utf8(a) + encode_utf8(b),
    decreases a.len(),
{
    if a.len() == 0 {
        assert(a + b =~= b);
        assert(encode_utf8(a) =~= Seq::<u8>::empty());
        assert(encode_utf8(a) + encode_utf8(b) =~= encode_utf8(b));
    } else {
        assert((a + b).drop_first() =~= a.drop_first() + b);
        lemma_encode_concat(a.drop_first(), b);
        assert((a + b)[0] == a[0]);
        assert(encode_utf8(a + b) =~= encode_utf8(a) + encode_utf8(b));
    }
}

/// Every character takes at least one byte.
pub proof fn lemma_encode_len(a: Seq<char>)
    ensures
        encode_utf8(a).len() >= a.len(),
    decreases a.len(),
{
    if a.len() > 0 {
        lemma_encode_len(a.drop_first());
        char_is_scalar(a[0]);
    }
}

/// The width of one character is between one and four bytes.
pub proof fn lemma_width_bounds(c: char)
    ensures
        1 <= utf8_width(c) <= 4,
{
    char_is_scalar(c);
}

/// The end of the encoding of a prefix is a character boundary of the whole.
pub proof fn lemma_prefix_boundary(a: Seq<char>, b: Seq<char>)
    ensures
        is_char_boundary(encode_utf8(a + b), encode_utf8(a).len() as int),
    decreases a.len(),
{
    let bytes = encode_utf8(a + b);
    encode_utf8_valid_utf8(a + b);
    lemma_encode_concat(a, b);
    if a.len() > 0 {
        encode_utf8_first_scalar(a + b);
        assert((a + b)[0] == a[0]);
        assert((a + b).drop_first() =~= a.drop_first() + b);
        assert(pop_first_scalar(bytes) =~= encode_utf8(a.drop_first() + b));
        lemma_prefix_boundary(a.drop_first(), b);
    }
}

/// Offsets of consecutive indices differ by the width of the character between them.
pub proof fn lemma_offset_step(text: Seq<char>, k: int)
    requires
        0 <= k < text.len(),
    ensures
        byte_offset(text, k + 1) == byte_offset(text, k) + utf8_width(text[k]),
{
    assert(text.take(k + 1) =~= text.take(k) + seq![text[k]]);
    lemma_encode_concat(text.take(k), seq![text[k]]);
    let one = seq![text[k]];
    assert(one.drop_first() =~= Seq::<char>::empty());
    assert(encode_utf8(one.drop_first()) =~= Seq::<u8>::empty());
    assert(encode_utf8(one) =~= encode_scalar(text[k] as u32));
}

/// Offsets grow with the index, and stay within the encoding.
pub proof fn lemma_offset_bounds(text: Seq<char>, j: int, k: int)
    requires
        0 <= j <= k <= text.len(),
    ensures
        byte_offset(text, j) <= byte_offset(text, k) <= encode_utf8(text).len(),
        k - j <= byte_offset(text, k) - byte_offset(text, j),
{
    assert(text.take(k) =~= text.take(j) + text.subrange(j, k));
    lemma_encode_concat(text.take(j), text.subrange(j, k));
    lemma_encode_len(text.subrange(j, k));
    assert(text =~= text.take(k) + text.skip(k));
    lemma_encode_concat(text.take(k), text.skip(k));
}

/// Byte offsets of distinct character indices differ.
pub proof fn lemma_offset_unique(text: Seq<char>, i: int, j: int)
    requires
        0 <= i <= text.len(),
        0 <= j <= text.len(),
        byte_offset(text, i) == byte_offset(text, j),
    ensures
        i == j,
{
    if i < j {
        lemma_offset_bounds(text, i, j);
    } else if j < i {
        lemma_offset_bounds(text, j, i);
    }
}

/// The encoding of the characters from index `k` on is what follows offset `k`.
pub proof fn lemma_suffix_bytes(text: Seq<char>, k: int)
    requires
        0 <= k <= text.len(),
    ensures
        encode_utf8(text).subrange(byte_offset(text, k), encode_utf8(text).len() as int)
            == encode_utf8(text.skip(k)),
        is_char_boundary(encode_utf8(text), byte_offset(text, k)),
{
    assert(text =~= text.take(k) + text.skip(k));
    lemma_encode_concat(text.take(k), text.skip(k));
    lemma_prefix_boundary(text.take(k), text.skip(k));
    assert(encode_utf8(text).subrange(byte_offset(text, k), encode_utf8(text).len() as int)
        =~= encode_utf8(text.skip(k)));
}

/// A string whose bytes are the encoding of `chars` holds exactly `chars`.
pub proof fn lemma_view_from_bytes(s: &str, chars: Seq<char>)
    requires
        s.spec_bytes() == encode_utf8(chars),
    ensures
        s@ == chars,
{
    encode_utf8_decode_utf8(s@);
    encode_utf8_decode_utf8(chars);
}

/// The number of bytes of the UTF-8 encoding of `c`, as `char::len_utf8` gives it.
pub(crate) fn char_width(c: char) -> (w: usize)
    ensures
        w == utf8_width(c),
{
    proof {
        char_is_scalar(c);
    }
    let v = c as u32;
    if v < 0x80 {
        1
    } else if v < 0x800 {
        2
    } else if v < 0x10000 {
        3
    } else {
        4
    }
}

/// The character with index `k` of `s`, read at its byte offset `pos`,
/// or `None` at the end of `s`.
pub(crate) fn char_at(s: &str, pos: usize, Ghost(k): Ghost<int>) -> (r: Option<char>)
    requires
        0 <= k <= s@.len(),
        pos == byte_offset(s@, k),
    ensures
        r == (if k < s@.len() { Some(s@[k]) } else { None::<char> }),
{
    proof {
        lemma_suffix_bytes(s@, k);
    }
    let (_, rest) = s.split_at(pos);
    proof {
        lemma_view_from_bytes(rest, s@.skip(k));
    }
    let mut it = rest.chars();
    proof {
        broadcast use vstd::string::group_string_axioms;
        assert(it.remaining() == rest@);
    }
    it.next()
}

/// The characters of `s` with indices `j` to `e`, borrowed from `s`,
/// given their byte offsets `start` and `end`.
pub(crate) fn char_slice<'a>(s: &'a str, start: usize, end: usize, Ghost(j): Ghost<int>, Ghost(e): Ghost<int>) -> (r: &'a str)
    requires
        0 <= j <= e <= s@.len(),
        start == byte_offset(s@, j),
        end == byte_offset(s@, e),
    ensures
        r@ == s@.subrange(j, e),
{
    proof {
        lemma_suffix_bytes(s@, j);
        lemma_offset_bounds(s@, j, e);
    }
    let (_, rest) = s.split_at(start);
    let ghost mid = s@.subrange(j, e);
    let ghost tail = s@.skip(e);
    proof {
        assert(s@.skip(j) =~= mid + tail);
        lemma_encode_concat(mid, tail);
        lemma_prefix_boundary(mid, tail);
        assert(s@.take(e) =~= s@.take(j) + mid);
        lemma_encode_concat(s@.take(j), mid);
    }
    let (piece, _) = rest.split_at(end - start);
    proof {
        assert(piece.spec_bytes() =~= encode_utf8(mid));
        lemma_view_from_bytes(piece, mid);
    }
    piece
}

/// The byte just before offset `k` is `"` exactly where the character
/// just before index `k` is `"`.
pub proof fn lemma_byte_before(text: Seq<char>, k: int)
    requires
        1 <= k <= text.len(),
    ensures
        encode_utf8(text)[byte_offset(text, k) - 1] == 34u8 <==> text[k - 1] == '"',
{
    let c = text[k - 1];
    let v = c as u32;
    let e = encode_scalar(v);
    assert(text.take(k) =~= text.take(k - 1) + seq![c]);
    lemma_encode_concat(text.take(k - 1), seq![c]);
    let one = seq![c];
    assert(one.drop_first() =~= Seq::<char>::empty());
    assert(encode_utf8(one.drop_first()) =~= Seq::<u8>::empty());
    assert(encode_utf8(one) =~= e);
    assert(text =~= text.take(k) + text.skip(k));
    lemma_encode_concat(text.take(k), text.skip(k));
    let before = encode_utf8(text.take(k - 1)).len() as int;
    char_is_scalar(c);
    assert(encode_utf8(text)[byte_offset(text, k) - 1] == e[e.len() - 1]);
    char_u32_cast(c, v);
    assert(c == '"' <==> v == 34u32);
    if has_width_1_encoding(v) {
        assert(e[e.len() - 1] == (v & 0x7F) as u8);
        assert(v <= 0x7F ==> ((v & 0x7F) as u8 == 34u8 <==> v == 34u32)) by (bit_vector);
    } else {
        assert(e[e.len() - 1] == last_continuation_byte(v));
        assert((0x80u8 | (v & 0x3F) as u8) != 34u8) by (bit_vector);
    }
}

/// Whether the character just before index `k` of `s`, whose byte offset
/// is `pos`, is `"`.
pub(crate) fn preceded_by_quote(s: &str, pos: usize, Ghost(k): Ghost<int>) -> (r: bool)
    requires
        0 <= k <= s@.len(),
        pos == byte_offset(s@, k),
    ensures
        r == (k >= 1 && s@[k - 1] == '"'),
{
    proof {
        lemma_offset_bounds(s@, 0, k);
        lemma_offset_bounds(s@, k, s@.len() as int);
        if k >= 1 {
            lemma_byte_before(s@, k);
        }
    }
    if pos >= 1 {
        let bytes = s.as_bytes();
        bytes[pos - 1] == 34u8
    } else {
        false
    }
}

} // verus!
