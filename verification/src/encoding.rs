//! How positions in a text relate to positions in its UTF-8 encoding.
//!
//! The cursor of the parser is a byte offset, while the grammar speaks of
//! characters. The lemmas here connect the two: the byte offset of the `k`-th
//! character is the length of the encoding of the first `k` characters.

use vstd::prelude::*;
use vstd::utf8::*;

verus! {

/// Number of bytes that the UTF-8 encoding of `c` takes.
pub open spec fn spec_char_width(c: char) -> nat {
    encode_scalar(c as u32).len()
}

/// Byte offset at which the character with index `k` starts in the encoding of `s`
/// (for `k == s.len()`, the length of the whole encoding).
pub open spec fn byte_offset(s: Seq<char>, k: int) -> nat {
    encode_utf8(s.take(k)).len()
}

/// Every character takes between one and four bytes.
pub proof fn lemma_char_width_bounds(c: char)
    ensures
        1 <= spec_char_width(c) <= 4,
{
}

/// Number of bytes that the UTF-8 encoding of `c` takes.
pub fn char_width(c: char) -> (w: usize)
    ensures
        w == spec_char_width(c),
        1 <= w <= 4,
{
    let v: u32 = c as u32;
    if v < 0x80 {
        1
    } else if v < 0x800 {
        2
    } else if v < 0x10000 {
        3
    } else {
        4
    }
}

/// Encoding distributes over concatenation.
pub proof fn lemma_encode_concat(a: Seq<char>, b: Seq<char>)
    ensures
        encode_utf8(a + b) == encode_utf8(a) + encode_utf8(b),
    decreases a.len(),
{
    if a.len() == 0 {
        assert(a + b =~= b);
        assert(encode_utf8(a) + encode_utf8(b) =~= encode_utf8(b));
    } else {
        lemma_encode_concat(a.drop_first(), b);
        assert((a + b).drop_first() =~= a.drop_first() + b);
        assert(encode_utf8(a + b) =~= encode_utf8(a) + encode_utf8(b));
    }
}

/// The encoding of a one-character text is the encoding of that character.
pub proof fn lemma_encode_single(c: char)
    ensures
        encode_utf8(seq![c]) == encode_scalar(c as u32),
{
    let s = seq![c];
    assert(s.drop_first() =~= Seq::<char>::empty());
    reveal_with_fuel(encode_utf8, 2);
    assert(encode_utf8(s) =~= encode_scalar(c as u32));
}

/// The encoding of `s` is the encoding of its first `k` characters followed by
/// the encoding of the rest.
pub proof fn lemma_encode_split(s: Seq<char>, k: int)
    requires
        0 <= k <= s.len(),
    ensures
        encode_utf8(s) == encode_utf8(s.take(k)) + encode_utf8(s.skip(k)),
        byte_offset(s, k) <= encode_utf8(s).len(),
        encode_utf8(s).subrange(0, byte_offset(s, k) as int) == encode_utf8(s.take(k)),
        encode_utf8(s).subrange(byte_offset(s, k) as int, encode_utf8(s).len() as int)
            == encode_utf8(s.skip(k)),
{
    assert(s =~= s.take(k) + s.skip(k));
    lemma_encode_concat(s.take(k), s.skip(k));
    let a = encode_utf8(s.take(k));
    let b = encode_utf8(s.skip(k));
    assert((a + b).subrange(0, a.len() as int) =~= a);
    assert((a + b).subrange(a.len() as int, (a + b).len() as int) =~= b);
}

/// Stepping over one character moves the byte offset by that character's width.
pub proof fn lemma_byte_offset_step(s: Seq<char>, k: int)
    requires
        0 <= k < s.len(),
    ensures
        byte_offset(s, k + 1) == byte_offset(s, k) + spec_char_width(s[k]),
        byte_offset(s, k) < byte_offset(s, k + 1) <= encode_utf8(s).len(),
{
    assert(s.take(k + 1) =~= s.take(k) + seq![s[k]]);
    lemma_encode_concat(s.take(k), seq![s[k]]);
    lemma_encode_single(s[k]);
    lemma_char_width_bounds(s[k]);
    lemma_encode_split(s, k + 1);
}

/// The byte offset of the start of the text is zero, and that of its end is
/// the length of the encoding.
pub proof fn lemma_byte_offset_ends(s: Seq<char>)
    ensures
        byte_offset(s, 0) == 0,
        byte_offset(s, s.len() as int) == encode_utf8(s).len(),
{
    assert(s.take(0) =~= Seq::<char>::empty());
    assert(s.take(s.len() as int) =~= s);
}

/// Later characters start at later byte offsets.
pub proof fn lemma_byte_offset_increases(s: Seq<char>, i: int, j: int)
    requires
        0 <= i < j <= s.len(),
    ensures
        byte_offset(s, i) < byte_offset(s, j),
    decreases j - i,
{
    lemma_byte_offset_step(s, j - 1);
    if i < j - 1 {
        lemma_byte_offset_increases(s, i, j - 1);
    }
}

/// A text is determined by its encoding.
pub proof fn lemma_encode_injective(a: Seq<char>, b: Seq<char>)
    requires
        encode_utf8(a) == encode_utf8(b),
    ensures
        a == b,
{
    encode_utf8_decode_utf8(a);
    encode_utf8_decode_utf8(b);
}

/// The byte offset of every character position is a character boundary of the encoding.
pub proof fn lemma_offset_is_boundary(s: Seq<char>, k: int)
    requires
        0 <= k <= s.len(),
    ensures
        is_char_boundary(encode_utf8(s), byte_offset(s, k) as int),
    decreases k,
{
    let bytes = encode_utf8(s);
    encode_utf8_valid_utf8(s);
    if k == 0 {
        lemma_byte_offset_ends(s);
    } else {
        let rest = s.drop_first();
        encode_utf8_first_scalar(s);
        assert(pop_first_scalar(bytes) =~= encode_utf8(rest));
        lemma_offset_is_boundary(rest, k - 1);
        assert(s.take(k) =~= seq![s[0]] + rest.take(k - 1));
        lemma_encode_concat(seq![s[0]], rest.take(k - 1));
        lemma_encode_single(s[0]);
        lemma_char_width_bounds(s[0]);
        lemma_encode_split(s, k);
        assert(byte_offset(s, k) - length_of_first_scalar(bytes) == byte_offset(rest, k - 1));
    }
}

/// No byte offset strictly inside the encoding of a character is a character boundary.
pub proof fn lemma_inside_is_no_boundary(s: Seq<char>, k: int, p: int)
    requires
        0 <= k < s.len(),
        byte_offset(s, k) < p < byte_offset(s, k + 1),
    ensures
        !is_char_boundary(encode_utf8(s), p),
{
    let bytes = encode_utf8(s);
    let tail = s.skip(k);
    let start = byte_offset(s, k) as int;
    encode_utf8_valid_utf8(s);
    lemma_byte_offset_step(s, k);
    lemma_encode_split(s, k);
    encode_utf8_first_scalar(tail);
    let tail_bytes = encode_utf8(tail);
    assert(tail[0] == s[k]);
    assert(bytes[p] == tail_bytes[p - start]);
    assert(is_continuation_byte(tail_bytes[p - start]));
    is_char_boundary_iff_not_is_continuation_byte(bytes, p);
}

/// Byte offsets within a suffix of the text are those within the text, less
/// the offset at which the suffix starts.
pub proof fn lemma_byte_offset_skip(s: Seq<char>, i: int, j: int)
    requires
        0 <= i <= j <= s.len(),
    ensures
        byte_offset(s, j) == byte_offset(s, i) + byte_offset(s.skip(i), j - i),
{
    assert(s.take(j) =~= s.take(i) + s.skip(i).take(j - i));
    lemma_encode_concat(s.take(i), s.skip(i).take(j - i));
}

/// Only the end of the text has the byte offset of the end of the encoding.
pub proof fn lemma_byte_offset_end_only(s: Seq<char>, k: int)
    requires
        0 <= k <= s.len(),
    ensures
        byte_offset(s, k) == encode_utf8(s).len() <==> k == s.len(),
{
    lemma_byte_offset_ends(s);
    if k < s.len() {
        lemma_byte_offset_increases(s, k, s.len() as int);
    }
}

} // verus!
