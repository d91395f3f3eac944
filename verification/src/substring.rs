//! Containment of one text in another as a contiguous run of characters.

use crate::text::{lemma_encoding_is_injective, lemma_encoding_of_concat, lemma_prefix_ends_on_boundary};
use vstd::prelude::*;
use vstd::string::*;
use vstd::utf8::*;

verus! {

/// `needle` stands in `hay` as a contiguous run that starts at index `at`.
pub open spec fn occurs_at<T>(needle: Seq<T>, hay: Seq<T>, at: int) -> bool {
    &&& 0 <= at
    &&& at + needle.len() <= hay.len()
    &&& hay.subrange(at, at + needle.len()) == needle
}

/// `needle` stands somewhere in `hay` as a contiguous run.
pub open spec fn occurs_in<T>(needle: Seq<T>, hay: Seq<T>) -> bool {
    exists|at: int| occurs_at(needle, hay, at)
}

/// The empty sequence occurs in every sequence.
pub proof fn lemma_empty_occurs_everywhere<T>(hay: Seq<T>)
    ensures
        occurs_in(Seq::<T>::empty(), hay),
{
    assert(hay.subrange(0, 0) =~= Seq::<T>::empty());
    assert(occurs_at(Seq::<T>::empty(), hay, 0));
}

/// A text that holds another is at least as long.
pub proof fn lemma_occurrence_bounds_length<T>(needle: Seq<T>, hay: Seq<T>)
    requires
        occurs_in(needle, hay),
    ensures
        needle.len() <= hay.len(),
{
    let at = choose|at: int| occurs_at(needle, hay, at);
    assert(occurs_at(needle, hay, at));
}

/// An occurrence among the characters gives one among the encoded bytes.
proof fn lemma_chars_to_bytes(needle: Seq<char>, hay: Seq<char>, at: int)
    requires
        occurs_at(needle, hay, at),
    ensures
        occurs_in(encode_utf8(needle), encode_utf8(hay)),
{
    let before = hay.subrange(0, at);
    let after = hay.subrange(at + needle.len(), hay.len() as int);
    assert(hay =~= before + needle + after);
    lemma_encoding_of_concat(before + needle, after);
    lemma_encoding_of_concat(before, needle);
    let start = encode_utf8(before).len() as int;
    let bytes = encode_utf8(hay);
    assert(bytes.subrange(start, start + encode_utf8(needle).len()) =~= encode_utf8(needle));
    assert(occurs_at(encode_utf8(needle), bytes, start));
}

/// An occurrence among the encoded bytes gives one among the characters:
/// a valid encoding can only begin and end between two characters.
proof fn lemma_bytes_to_chars(needle: Seq<char>, hay: Seq<char>, start: int)
    requires
        occurs_at(encode_utf8(needle), encode_utf8(hay), start),
    ensures
        occurs_in(needle, hay),
{
    let nb = encode_utf8(needle);
    let hb = encode_utf8(hay);
    encode_utf8_valid_utf8(needle);
    encode_utf8_valid_utf8(hay);
    encode_utf8_decode_utf8(needle);
    encode_utf8_decode_utf8(hay);
    if nb.len() == 0 {
        assert(nb =~= encode_utf8(Seq::<char>::empty()));
        lemma_encoding_is_injective(needle, Seq::<char>::empty());
        lemma_empty_occurs_everywhere(hay);
    } else {
        assert(hb[start] == hb.subrange(start, start + nb.len())[0]);
        is_char_boundary_iff_not_is_continuation_byte(nb, 0);
        is_char_boundary_iff_not_is_continuation_byte(hb, start);
        assert(is_char_boundary(hb, start));
        let head = hb.subrange(0, start);
        let tail = hb.subrange(start, hb.len() as int);
        valid_utf8_split(hb, start);
        decode_utf8_split(hb, start);
        assert(tail.subrange(0, nb.len() as int) =~= nb);
        lemma_prefix_ends_on_boundary(tail, nb);
        decode_utf8_split(tail, nb.len() as int);
        let after = decode_utf8(tail.subrange(nb.len() as int, tail.len() as int));
        assert(hay =~= decode_utf8(head) + (needle + after));
        let at = decode_utf8(head).len() as int;
        assert(hay.subrange(at, at + needle.len()) =~= needle);
        assert(occurs_at(needle, hay, at));
    }
}

/// A text occurs in another exactly when its encoding occurs in the
/// other's encoding.
pub proof fn lemma_occurrence_in_bytes(needle: Seq<char>, hay: Seq<char>)
    ensures
        occurs_in(encode_utf8(needle), encode_utf8(hay)) == occurs_in(needle, hay),
{
    if occurs_in(needle, hay) {
        let at = choose|at: int| occurs_at(needle, hay, at);
        lemma_chars_to_bytes(needle, hay, at);
    }
    if occurs_in(encode_utf8(needle), encode_utf8(hay)) {
        let start = choose|start: int| occurs_at(encode_utf8(needle), encode_utf8(hay), start);
        lemma_bytes_to_chars(needle, hay, start);
    }
}

/// Tells whether `needle` equals the run of `hay` that starts at `at`.
fn matches_at(hay: &[u8], needle: &[u8], at: usize) -> (same: bool)
    requires
        at + needle@.len() <= hay@.len(),
    ensures
        same == occurs_at(needle@, hay@, at as int),
{
    let limit: usize = hay.len();
    let mut k: usize = 0;
    while k < needle.len()
        invariant
            at + needle@.len() <= hay@.len(),
            hay@.len() == limit,
            k <= needle@.len(),
            forall|j: int| 0 <= j < k ==> hay@[at + j] == needle@[j],
        decreases needle.len() - k,
    {
        if hay[at + k] != needle[k] {
            proof {
                let run = hay@.subrange(at as int, at + needle@.len());
                assert(run[k as int] == hay@[at + k]);
            }
            return false;
        }
        k += 1;
    }
    proof {
        assert(hay@.subrange(at as int, at + needle@.len()) =~= needle@);
    }
    true
}

/// Tells whether `needle` occurs in `hay` as a contiguous run of characters.
/// The empty needle occurs in every text, the empty one included.
pub fn contains(hay: &str, needle: &str) -> (found: bool)
    ensures
        found == occurs_in(needle@, hay@),
{
    let h = hay.as_bytes();
    let n = needle.as_bytes();
    proof {
        lemma_occurrence_in_bytes(needle@, hay@);
    }
    if n.len() > h.len() {
        proof {
            if occurs_in(n@, h@) {
                lemma_occurrence_bounds_length(n@, h@);
            }
        }
        return false;
    }
    let last: usize = h.len() - n.len();
    let mut at: usize = 0;
    loop
        invariant
            occurs_in(n@, h@) == occurs_in(needle@, hay@),
            last + n@.len() == h@.len(),
            at <= last,
            forall|j: int| 0 <= j < at ==> !occurs_at(n@, h@, j),
        decreases last - at,
    {
        if matches_at(h, n, at) {
            return true;
        }
        if at == last {
            return false;
        }
        at += 1;
    }
}

} // verus!
