//! Facts that tie the characters of a string to its UTF-8 bytes, and the
//! byte-level primitives that the rest of the crate builds on.

use vstd::prelude::*;
use vstd::string::*;
use vstd::utf8::*;

verus! {

/// Two character sequences with the same UTF-8 encoding are the same sequence.
pub proof fn lemma_encoding_is_injective(a: Seq<char>, b: Seq<char>)
    requires
        encode_utf8(a) == encode_utf8(b),
    ensures
        a == b,
{
    encode_utf8_decode_utf8(a);
    encode_utf8_decode_utf8(b);
}

/// The encoding of a concatenation is the concatenation of the encodings.
pub proof fn lemma_encoding_of_concat(a: Seq<char>, b: Seq<char>)
    ensures
        encode_utf8(a + b) == encode_utf8(a) + encode_utf8(b),
    decreases a.len(),
{
    if a.len() == 0 {
        assert(a + b =~= b);
        assert(encode_utf8(a) + encode_utf8(b) =~= encode_utf8(b));
    } else {
        lemma_encoding_of_concat(a.drop_first(), b);
        assert((a + b).drop_first() =~= a.drop_first() + b);
        assert(encode_utf8(a + b) =~= encode_utf8(a) + encode_utf8(b));
    }
}

/// An ASCII character is encoded as the single byte of the same value.
pub proof fn lemma_encoding_of_ascii(c: char)
    requires
        (c as u32) < 0x80,
    ensures
        encode_utf8(seq![c]) == seq![c as u8],
{
    let s = c as u32;
    assert(leading_byte_width_1(s) == s as u8) by (bit_vector)
        requires
            s < 0x80,
    ;
    reveal_with_fuel(encode_utf8, 2);
    assert(seq![c].drop_first() =~= Seq::<char>::empty());
    assert(encode_utf8(seq![c]) =~= seq![c as u8]);
}

/// A single byte below 0x80 decodes to the character of the same value.
pub proof fn lemma_decoding_of_ascii(b: u8)
    requires
        b < 0x80,
    ensures
        valid_utf8(seq![b]),
        decode_utf8(seq![b]) == seq![b as char],
{
    let c = b as char;
    lemma_encoding_of_ascii(c);
    encode_utf8_valid_utf8(seq![c]);
    encode_utf8_decode_utf8(seq![c]);
}

/// Where a valid encoding begins with another valid encoding, the end of that
/// prefix falls between two characters of the whole.
pub proof fn lemma_prefix_ends_on_boundary(whole: Seq<u8>, prefix: Seq<u8>)
    requires
        valid_utf8(whole),
        valid_utf8(prefix),
        prefix.len() <= whole.len(),
        whole.subrange(0, prefix.len() as int) == prefix,
    ensures
        is_char_boundary(whole, prefix.len() as int),
    decreases prefix.len(),
{
    if prefix.len() != 0 {
        let width = length_of_first_scalar(prefix);
        assert(forall|k: int| 0 <= k < prefix.len() ==> whole[k] == whole.subrange(
            0,
            prefix.len() as int,
        )[k]);
        assert(whole[0] == prefix[0]);
        assert(length_of_first_scalar(whole) == width);
        assert(width <= prefix.len());
        let rest = pop_first_scalar(whole);
        let shorter = pop_first_scalar(prefix);
        assert(rest.subrange(0, shorter.len() as int) =~= shorter);
        lemma_prefix_ends_on_boundary(rest, shorter);
    }
}

/// An ASCII character of a text shows as the byte of the same value
/// somewhere in the text's encoding.
pub proof fn lemma_ascii_char_shows_in_bytes(text: Seq<char>, i: int)
    requires
        0 <= i < text.len(),
        (text[i] as u32) < 0x80,
    ensures
        exists|k: int| 0 <= k < encode_utf8(text).len() && encode_utf8(text)[k] == text[i] as u8,
{
    let before = text.subrange(0, i);
    let after = text.subrange(i + 1, text.len() as int);
    assert(text =~= before + seq![text[i]] + after);
    lemma_encoding_of_concat(before + seq![text[i]], after);
    lemma_encoding_of_concat(before, seq![text[i]]);
    lemma_encoding_of_ascii(text[i]);
    let k = encode_utf8(before).len() as int;
    assert(encode_utf8(text)[k] == text[i] as u8);
}

/// A text without a given ASCII byte in its encoding holds no character of
/// that value.
pub proof fn lemma_absent_byte_absent_char(text: Seq<char>, wanted: u8)
    requires
        wanted < 0x80,
        forall|k: int| 0 <= k < encode_utf8(text).len() ==> encode_utf8(text)[k] != wanted,
    ensures
        forall|i: int| 0 <= i < text.len() ==> text[i] != wanted as char,
{
    assert forall|i: int| 0 <= i < text.len() implies text[i] != wanted as char by {
        if text[i] == wanted as char {
            lemma_ascii_char_shows_in_bytes(text, i);
        }
    }
}

/// Index of the first byte of `bytes` that equals `wanted`, or the length of
/// `bytes` where none does.
pub fn find_byte(bytes: &[u8], wanted: u8) -> (at: usize)
    ensures
        at <= bytes@.len(),
        forall|k: int| 0 <= k < at ==> bytes@[k] != wanted,
        at < bytes@.len() ==> bytes@[at as int] == wanted,
{
    let mut at: usize = 0;
    while at < bytes.len() && bytes[at] != wanted
        invariant
            at <= bytes@.len(),
            forall|k: int| 0 <= k < at ==> bytes@[k] != wanted,
        decreases bytes@.len() - at,
    {
        at += 1;
    }
    at
}

/// Splits a string around the ASCII byte at index `at` of its encoding, and
/// returns what stands before that byte and what stands after it.
pub fn split_around<'a>(s: &'a str, at: usize) -> (parts: (&'a str, &'a str))
    requires
        at < s.spec_bytes().len(),
        s.spec_bytes()[at as int] < 0x80,
    ensures
        s@ == parts.0@ + seq![s.spec_bytes()[at as int] as char] + parts.1@,
        parts.0.spec_bytes() == s.spec_bytes().subrange(0, at as int),
        parts.1.spec_bytes() == s.spec_bytes().subrange(at + 1, s.spec_bytes().len() as int),
{
    let ghost bytes = s.spec_bytes();
    proof {
        encode_utf8_valid_utf8(s@);
        is_char_boundary_iff_not_is_continuation_byte(bytes, at as int);
    }
    let (head, tail) = s.split_at(at);
    let ghost tb = tail.spec_bytes();
    proof {
        encode_utf8_valid_utf8(tail@);
        assert(tb[0] == bytes[at as int]);
        assert(pop_first_scalar(tb) =~= tb.subrange(1, tb.len() as int));
        reveal_with_fuel(is_char_boundary, 2);
        assert(is_char_boundary(tb, 1));
    }
    let (mid, rest) = tail.split_at(1);
    proof {
        encode_utf8_decode_utf8(s@);
        encode_utf8_decode_utf8(head@);
        encode_utf8_decode_utf8(tail@);
        encode_utf8_decode_utf8(mid@);
        encode_utf8_decode_utf8(rest@);
        decode_utf8_split(bytes, at as int);
        decode_utf8_split(tb, 1);
        assert(mid.spec_bytes() =~= seq![bytes[at as int]]);
        lemma_decoding_of_ascii(bytes[at as int]);
        assert(rest.spec_bytes() =~= bytes.subrange(at + 1, bytes.len() as int));
        assert(s@ =~= head@ + seq![bytes[at as int] as char] + rest@);
    }
    (head, rest)
}

/// Tells whether two strings hold the same characters.
pub fn same_text(a: &str, b: &str) -> (same: bool)
    ensures
        same == (a@ == b@),
{
    let x = a.as_bytes();
    let y = b.as_bytes();
    if x.len() != y.len() {
        return false;
    }
    let mut i: usize = 0;
    while i < x.len()
        invariant
            x@ == encode_utf8(a@),
            y@ == encode_utf8(b@),
            x.len() == y.len(),
            i <= x.len(),
            forall|k: int| 0 <= k < i ==> x@[k] == y@[k],
        decreases x.len() - i,
    {
        if x[i] != y[i] {
            return false;
        }
        i += 1;
    }
    proof {
        assert(x@ =~= y@);
        lemma_encoding_is_injective(a@, b@);
    }
    true
}

} // verus!
