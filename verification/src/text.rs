//! How the characters of a text relate to the bytes of its UTF-8 encoding.
//!
//! A string slice is viewed as a sequence of characters, while positions in
//! it are counted in bytes. The functions and lemmas of this module carry
//! facts from one side to the other.

use vstd::prelude::*;
use vstd::utf8::*;

verus! {

/// Number of bytes that `c` occupies in UTF-8.
pub open spec fn char_width(c: char) -> int {
    if (c as u32) < 0x80 {
        1
    } else if (c as u32) < 0x800 {
        2
    } else if (c as u32) < 0x1_0000 {
        3
    } else {
        4
    }
}

/// Number of bytes that the text `s` occupies in UTF-8.
pub open spec fn utf8_len(s: Seq<char>) -> nat {
    encode_utf8(s).len()
}

/// Byte offset at which the character with index `k` starts in the encoding
/// of `s`; for `k == s.len()`, the length of the encoding.
pub open spec fn byte_offset(s: Seq<char>, k: int) -> nat
    recommends
        0 <= k <= s.len(),
{
    utf8_len(s.subrange(0, k))
}

/// Whether `c` is an ASCII character.
pub open spec fn is_ascii_char(c: char) -> bool {
    (c as u32) < 0x80
}

/// Number of bytes in the encoding of a character whose first byte is `b`.
/// For a byte that begins no character the number means nothing.
pub open spec fn lead_width(b: u8) -> int {
    if b < 0x80 {
        1
    } else if b < 0xE0 {
        2
    } else if b < 0xF0 {
        3
    } else {
        4
    }
}

/// Whether the first `k` characters of `s` exist and are all ASCII.
pub open spec fn ascii_prefix(s: Seq<char>, k: int) -> bool {
    &&& 0 <= k <= s.len()
    &&& forall|i: int| 0 <= i < k ==> is_ascii_char(#[trigger] s[i])
}

/// Number of bytes that `c` occupies in UTF-8.
pub fn len_utf8(c: char) -> (n: usize)
    ensures
        n == char_width(c),
        n == encode_scalar(c as u32).len(),
{
    let v: u32 = c as u32;
    if v < 0x80 {
        1
    } else if v < 0x800 {
        2
    } else if v < 0x1_0000 {
        3
    } else {
        4
    }
}

/// Number of bytes in the encoding of a character, told from its first byte.
/// For a byte that begins no character the number means nothing.
pub fn width_from_lead(b: u8) -> (n: usize)
    ensures
        n == lead_width(b),
{
    if b < 0x80 {
        1
    } else if b < 0xE0 {
        2
    } else if b < 0xF0 {
        3
    } else {
        4
    }
}

/// Length of `s` in bytes.
pub fn byte_len(s: &str) -> (n: usize)
    ensures
        n == utf8_len(s@),
{
    s.as_bytes().len()
}

/// Whether two string slices hold the same text.
pub fn str_eq(a: &str, b: &str) -> (r: bool)
    ensures
        r == (a@ == b@),
{
    let x = a.as_bytes();
    let y = b.as_bytes();
    if x.len() != y.len() {
        return false;
    }
    let mut i: usize = 0;
    while i < x.len()
        invariant
            i <= x.len(),
            x.len() == y.len(),
            x@ == encode_utf8(a@),
            y@ == encode_utf8(b@),
            forall|j: int| 0 <= j < i ==> x@[j] == y@[j],
        decreases x.len() - i,
    {
        if x[i] != y[i] {
            return false;
        }
        i += 1;
    }
    proof {
        assert(x@ =~= y@);
        lemma_encode_injective(a@, b@);
    }
    true
}

/// The code of a character is a Unicode scalar value, whether the character
/// is read as an integer or as a `u32`.
pub proof fn lemma_char_range(c: char)
    ensures
        c as int == (c as u32) as int,
        0 <= (c as int) <= 0x10_FFFF,
        !(0xD800 <= (c as int) <= 0xDFFF),
{
}

/// Two texts with the same encoding are the same text.
pub proof fn lemma_encode_injective(a: Seq<char>, b: Seq<char>)
    requires
        encode_utf8(a) == encode_utf8(b),
    ensures
        a == b,
{
    encode_utf8_decode_utf8(a);
    encode_utf8_decode_utf8(b);
}

/// A character is encoded in as many bytes as `char_width` says.
pub proof fn lemma_scalar_width(c: char)
    ensures
        encode_scalar(c as u32).len() == char_width(c),
        encode_utf8(seq![c]) == encode_scalar(c as u32),
        utf8_len(seq![c]) == char_width(c),
{
    reveal_with_fuel(encode_utf8, 2);
    assert(seq![c].drop_first() =~= Seq::<char>::empty());
    assert(encode_scalar(c as u32) + Seq::<u8>::empty() =~= encode_scalar(c as u32));
}

/// The encoding of a concatenation is the concatenation of the encodings.
pub proof fn lemma_encode_concat(a: Seq<char>, b: Seq<char>)
    ensures
        encode_utf8(a + b) == encode_utf8(a) + encode_utf8(b),
        utf8_len(a + b) == utf8_len(a) + utf8_len(b),
    decreases a.len(),
{
    if a.len() == 0 {
        assert(a + b =~= b);
        assert(encode_utf8(a) + encode_utf8(b) =~= encode_utf8(b));
    } else {
        lemma_encode_concat(a.drop_first(), b);
        assert((a + b).drop_first() =~= a.drop_first() + b);
        assert(encode_scalar(a[0] as u32) + (encode_utf8(a.drop_first()) + encode_utf8(b))
            =~= (encode_scalar(a[0] as u32) + encode_utf8(a.drop_first())) + encode_utf8(b));
    }
}

/// Only the empty text has an empty encoding.
pub proof fn lemma_utf8_len_zero(s: Seq<char>)
    ensures
        utf8_len(s) == 0 <==> s.len() == 0,
        utf8_len(s) >= s.len(),
    decreases s.len(),
{
    if s.len() > 0 {
        lemma_scalar_width(s[0]);
        lemma_utf8_len_zero(s.drop_first());
    }
}

/// The characters `i..j` of `s` are encoded by the bytes between the offsets
/// of `i` and `j`, and both offsets are character boundaries.
pub proof fn lemma_subrange_bytes(s: Seq<char>, i: int, j: int)
    requires
        0 <= i <= j <= s.len(),
    ensures
        byte_offset(s, i) <= byte_offset(s, j) <= utf8_len(s),
        byte_offset(s, 0) == 0,
        byte_offset(s, s.len() as int) == utf8_len(s),
        byte_offset(s, j) == byte_offset(s, i) + utf8_len(s.subrange(i, j)),
        encode_utf8(s).subrange(byte_offset(s, i) as int, byte_offset(s, j) as int)
            == encode_utf8(s.subrange(i, j)),
{
    let a = s.subrange(0, i);
    let m = s.subrange(i, j);
    let z = s.subrange(j, s.len() as int);
    lemma_encode_concat(a, m);
    lemma_encode_concat(a + m, z);
    assert(a + m =~= s.subrange(0, j));
    assert((a + m) + z =~= s);
    assert(s.subrange(0, 0) =~= Seq::<char>::empty());
    assert(s.subrange(0, s.len() as int) =~= s);
    assert((encode_utf8(a) + encode_utf8(m) + encode_utf8(z)).subrange(
        encode_utf8(a).len() as int,
        (encode_utf8(a).len() + encode_utf8(m).len()) as int,
    ) =~= encode_utf8(m));
}

/// The byte offset of every character of a text, and the end of the text,
/// is a character boundary of its encoding.
pub proof fn lemma_offset_is_boundary(s: Seq<char>, k: int)
    requires
        0 <= k <= s.len(),
    ensures
        is_char_boundary(encode_utf8(s), byte_offset(s, k) as int),
    decreases k,
{
    let bytes = encode_utf8(s);
    encode_utf8_valid_utf8(s);
    if k == 0 {
        lemma_subrange_bytes(s, 0, 0);
    } else {
        let rest = s.drop_first();
        encode_utf8_first_scalar(s);
        lemma_scalar_width(s[0]);
        assert(pop_first_scalar(bytes) =~= encode_utf8(rest));
        lemma_offset_is_boundary(rest, k - 1);
        assert(s.subrange(0, k) =~= seq![s[0]] + rest.subrange(0, k - 1));
        lemma_encode_concat(seq![s[0]], rest.subrange(0, k - 1));
        lemma_utf8_len_zero(rest.subrange(0, k - 1));
        lemma_subrange_bytes(s, k, k);
    }
}

/// The first byte of a text tells whether its first character is ASCII, which
/// character it is if so, and how many bytes the character takes.
pub proof fn lemma_first_byte(s: Seq<char>)
    requires
        s.len() > 0,
    ensures
        utf8_len(s) >= char_width(s[0]),
        encode_utf8(s)[0] < 0x80 <==> is_ascii_char(s[0]),
        is_ascii_char(s[0]) ==> encode_utf8(s)[0] as int == s[0] as int,
        lead_width(encode_utf8(s)[0]) == char_width(s[0]),
{
    let b = encode_utf8(s)[0];
    encode_utf8_first_scalar(s);
    lemma_scalar_width(s[0]);
    lemma_char_range(s[0]);
    if b < 0x80 {
        assert(b & 0x7F == b) by (bit_vector)
            requires
                b < 0x80,
        ;
    }
}

/// The last byte of a text tells whether its last character is ASCII, and
/// which character it is if so.
pub proof fn lemma_last_byte(s: Seq<char>)
    requires
        s.len() > 0,
    ensures
        utf8_len(s) == utf8_len(s.drop_last()) + char_width(s.last()),
        encode_utf8(s).last() < 0x80 <==> is_ascii_char(s.last()),
        is_ascii_char(s.last()) ==> encode_utf8(s).last() as int == s.last() as int,
{
    let c = s.last();
    let v = c as u32;
    let e = encode_scalar(v);
    assert(s =~= s.drop_last() + seq![c]);
    lemma_encode_concat(s.drop_last(), seq![c]);
    lemma_scalar_width(c);
    lemma_char_range(c);
    assert(encode_utf8(s).last() == e.last());
    if v < 0x80 {
        assert((v & 0x7F) as u8 == v) by (bit_vector)
            requires
                v < 0x80,
        ;
    } else {
        assert(e.last() == last_continuation_byte(v));
        assert(0x80u8 | (v & 0x3F) as u8 >= 0x80) by (bit_vector);
    }
}

/// After `k` ASCII characters, byte `k` of the encoding is the first byte of
/// character `k`, if there is one.
pub proof fn lemma_byte_after_ascii_prefix(s: Seq<char>, k: int)
    requires
        ascii_prefix(s, k),
    ensures
        byte_offset(s, k) == k,
        utf8_len(s) >= k,
        utf8_len(s) == k <==> s.len() == k,
        k < s.len() ==> ({
            let b = encode_utf8(s)[k];
            &&& utf8_len(s) >= k + char_width(s[k])
            &&& byte_offset(s, k + 1) == k + char_width(s[k])
            &&& (b < 0x80 <==> is_ascii_char(s[k]))
            &&& (is_ascii_char(s[k]) ==> b as int == s[k] as int)
            &&& lead_width(b) == char_width(s[k])
        }),
{
    let head = s.subrange(0, k);
    let tail = s.subrange(k, s.len() as int);
    assert forall|i: int| 0 <= i < head.len() implies '\0' <= #[trigger] head[i] <= '\u{7f}' by {
        assert(is_ascii_char(s[i]));
        lemma_char_range(s[i]);
    }
    is_ascii_chars_encode_utf8(head);
    lemma_subrange_bytes(s, k, s.len() as int);
    assert(s.subrange(k, s.len() as int) =~= tail);
    lemma_utf8_len_zero(tail);
    if k < s.len() {
        lemma_first_byte(tail);
        assert(encode_utf8(s).subrange(k, utf8_len(s) as int)[0] == encode_utf8(s)[k]);
        lemma_subrange_bytes(s, k, k + 1);
        assert(s.subrange(k, k + 1) =~= seq![s[k]]);
        lemma_scalar_width(s[k]);
    }
}

} // verus!

