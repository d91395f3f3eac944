//! The lines of a text.
//!
//! A text is cut at each line feed. A carriage return that stands directly
//! before such a line feed belongs to the line break and is dropped with it.
//! A final line needs no line feed after it, and a line feed at the very end
//! of the text starts no further line.

use crate::text::{find_byte, lemma_absent_byte_absent_char, lemma_encoding_of_ascii,
    lemma_encoding_of_concat, lemma_encoding_is_injective, split_around};
use vstd::prelude::*;
use vstd::string::*;
use vstd::utf8::*;

verus! {

/// Index of the first line feed of `text`, or the length of `text` where it
/// holds none.
pub open spec fn line_end(text: Seq<char>) -> int
    decreases text.len(),
{
    if text.len() == 0 || text[0] == '\n' {
        0
    } else {
        1 + line_end(text.drop_first())
    }
}

/// A line as it stood before its line feed, without the carriage return that
/// may end it.
pub open spec fn without_return(line: Seq<char>) -> Seq<char> {
    if line.len() > 0 && line.last() == '\r' {
        line.drop_last()
    } else {
        line
    }
}

/// The lines of `text`, in order, without their line breaks.
pub open spec fn lines_of(text: Seq<char>) -> Seq<Seq<char>>
    decreases text.len(),
{
    if text.len() == 0 {
        Seq::empty()
    } else {
        let end = line_end(text);
        if 0 <= end < text.len() {
            seq![without_return(text.take(end))] + lines_of(text.skip(end + 1))
        } else {
            seq![text]
        }
    }
}

/// `line_end` is the one index that has no line feed before it and either
/// holds a line feed or is the end of the text.
pub proof fn lemma_line_end_is_first_feed(text: Seq<char>, end: int)
    requires
        0 <= end <= text.len(),
        forall|i: int| 0 <= i < end ==> text[i] != '\n',
        end < text.len() ==> text[end] == '\n',
    ensures
        line_end(text) == end,
    decreases text.len(),
{
    if text.len() != 0 && text[0] != '\n' {
        let rest = text.drop_first();
        assert forall|i: int| 0 <= i < end - 1 implies rest[i] != '\n' by {
            assert(rest[i] == text[i + 1]);
        }
        lemma_line_end_is_first_feed(rest, end - 1);
    }
}

/// A text made of a stretch without line feed, one line feed, and a rest
/// has the stretch as its first line and the lines of the rest after it.
pub proof fn lemma_lines_of_broken_text(head: Seq<char>, rest: Seq<char>)
    requires
        forall|i: int| 0 <= i < head.len() ==> head[i] != '\n',
    ensures
        lines_of(head + seq!['\n'] + rest) == seq![without_return(head)] + lines_of(rest),
{
    let text = head + seq!['\n'] + rest;
    let end = head.len() as int;
    lemma_line_end_is_first_feed(text, end);
    assert(text.take(end) =~= head);
    assert(text.skip(end + 1) =~= rest);
}

/// A text that is not empty and holds no line feed is its own single line.
pub proof fn lemma_lines_of_unbroken_text(text: Seq<char>)
    requires
        text.len() > 0,
        forall|i: int| 0 <= i < text.len() ==> text[i] != '\n',
    ensures
        lines_of(text) == seq![text],
{
    lemma_line_end_is_first_feed(text, text.len() as int);
}

/// Drops the carriage return that ends `line`, if there is one.
pub fn strip_return<'a>(line: &'a str) -> (out: &'a str)
    ensures
        out@ == without_return(line@),
{
    let bytes = line.as_bytes();
    let n: usize = bytes.len();
    if n > 0 && bytes[n - 1] == 0x0d {
        let (head, after) = split_around(line, n - 1);
        proof {
            assert(after.spec_bytes() =~= encode_utf8(Seq::<char>::empty()));
            lemma_encoding_is_injective(after@, Seq::<char>::empty());
            assert(line@ =~= head@.push('\r'));
            assert(line@.drop_last() =~= head@);
        }
        head
    } else {
        proof {
            if line@.len() > 0 && line@.last() == '\r' {
                assert(line@ =~= line@.drop_last() + seq!['\r']);
                lemma_encoding_of_concat(line@.drop_last(), seq!['\r']);
                lemma_encoding_of_ascii('\r');
                assert(bytes@[n - 1] == 0x0d);
            }
        }
        line
    }
}

/// Cuts `contents` into its lines. Each line is a slice of `contents`.
pub fn split_lines<'a>(contents: &'a str) -> (out: Vec<&'a str>)
    ensures
        out.deep_view() == lines_of(contents@),
{
    let mut out: Vec<&'a str> = Vec::new();
    let mut rest: &'a str = contents;
    proof {
        assert(out.deep_view() =~= Seq::<Seq<char>>::empty());
    }
    loop
        invariant
            lines_of(contents@) == out.deep_view() + lines_of(rest@),
        decreases rest.spec_bytes().len(),
    {
        let bytes = rest.as_bytes();
        let ghost sofar = out.deep_view();
        if bytes.len() == 0 {
            proof {
                assert(bytes@ =~= encode_utf8(Seq::<char>::empty()));
                lemma_encoding_is_injective(rest@, Seq::<char>::empty());
                assert(sofar + lines_of(rest@) =~= sofar);
            }
            return out;
        }
        let end: usize = find_byte(bytes, 0x0a);
        if end == bytes.len() {
            proof {
                lemma_absent_byte_absent_char(rest@, 0x0a);
                if rest@.len() == 0 {
                    assert(encode_utf8(rest@) =~= Seq::<u8>::empty());
                }
                lemma_lines_of_unbroken_text(rest@);
            }
            out.push(rest);
            proof {
                assert(out.deep_view() =~= sofar.push(rest@));
                assert(sofar.push(rest@) =~= sofar + seq![rest@]);
            }
            return out;
        }
        let (head, tail) = split_around(rest, end);
        let line = strip_return(head);
        proof {
            lemma_absent_byte_absent_char(head@, 0x0a);
            lemma_lines_of_broken_text(head@, tail@);
        }
        out.push(line);
        proof {
            assert(out.deep_view() =~= sofar.push(line@));
            assert(sofar + (seq![line@] + lines_of(tail@)) =~= sofar.push(line@) + lines_of(
                tail@,
            ));
        }
        rest = tail;
    }
}

} // verus!
