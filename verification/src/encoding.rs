//! How facts about the UTF-8 bytes of a text carry over to its characters.
//!
//! The executable code works on bytes; the contracts speak of characters.
//! The lemmas here bridge the two for the two questions the scanner asks of a
//! text: where its first line terminator stands, and whether it contains
//! another text.

use vstd::prelude::*;
use vstd::utf8::*;
use crate::lines::{after_first_line, first_line, is_first_break, lemma_first_break_is_unique};
use crate::substring::{occurs_at, occurs_in};

verus! {

/// The byte that encodes the line terminator.
pub const NEWLINE_BYTE: u8 = 0x0a;

/// Encoding distributes over concatenation.
pub proof fn lemma_encode_concat(a: Seq<char>, b: Seq<char>)
    ensures
        encode_utf8(a + b) == encode_utf8(a) + encode_utf8(b),
    decreases a.len(),
{
    if a.len() == 0 {
        assert(a + b =~= b);
        assert(encode_utf8(a) + encode_utf8(b) =~= encode_utf8(b));
    } else {
        lemma_encode_concat(a.drop_first(), b);
        assert((a + b).drop_first() =~= a.drop_first() + b);
        assert(encode_utf8(a + b) =~= encode_utf8(a) + encode_utf8(b));
    }
}

/// A well-formed prefix of a well-formed byte sequence ends on a character boundary.
pub proof fn lemma_valid_prefix_ends_on_boundary(bytes: Seq<u8>, end: int)
    requires
        valid_utf8(bytes),
        0 <= end <= bytes.len(),
        valid_utf8(bytes.subrange(0, end)),
    ensures
        is_char_boundary(bytes, end),
    decreases end,
{
    if end > 0 {
        let prefix = bytes.subrange(0, end);
        let width = length_of_first_scalar(bytes);
        assert(prefix[0] == bytes[0]);
        assert(width == length_of_first_scalar(prefix));
        assert(1 <= width <= end);
        let rest = pop_first_scalar(bytes);
        assert(pop_first_scalar(prefix) =~= rest.subrange(0, end - width));
        lemma_valid_prefix_ends_on_boundary(rest, end - width);
    }
}

/// An occurrence of one encoded text inside another starts and ends between
/// characters, so it is an occurrence of the text itself.
proof fn lemma_byte_occurrence_is_char_occurrence(hay: Seq<char>, needle: Seq<char>, at: int)
    requires
        needle.len() > 0,
        occurs_at(encode_utf8(hay), encode_utf8(needle), at),
    ensures
        occurs_in(hay, needle),
{
    broadcast use {encode_utf8_valid_utf8, encode_utf8_decode_utf8};

    let h = encode_utf8(hay);
    let n = encode_utf8(needle);
    let m = n.len() as int;
    assert(m > 0) by {
        char_is_scalar(needle[0]);
    }
    assert(valid_first_scalar(n));
    assert(h[at] == n[0]) by {
        assert(h.subrange(at, at + m)[0] == h[at]);
    }
    is_char_boundary_iff_not_is_continuation_byte(h, at);
    valid_utf8_split(h, at);
    decode_utf8_split(h, at);
    let tail = h.subrange(at, h.len() as int);
    assert(tail.subrange(0, m) =~= n);
    lemma_valid_prefix_ends_on_boundary(tail, m);
    decode_utf8_split(tail, m);
    let before = decode_utf8(h.subrange(0, at));
    let after = decode_utf8(tail.subrange(m, tail.len() as int));
    assert(hay =~= before + needle + after);
    let start = before.len() as int;
    assert(hay.subrange(start, start + needle.len()) =~= needle);
    assert(occurs_at(hay, needle, start));
}

/// A text contains another exactly when its encoding contains the other's encoding.
pub proof fn lemma_occurs_in_encoding(hay: Seq<char>, needle: Seq<char>)
    ensures
        occurs_in(encode_utf8(hay), encode_utf8(needle)) <==> occurs_in(hay, needle),
{
    let h = encode_utf8(hay);
    let n = encode_utf8(needle);
    if occurs_in(hay, needle) {
        let at = choose|at: int| occurs_at(hay, needle, at);
        let before = hay.subrange(0, at);
        let after = hay.subrange(at + needle.len(), hay.len() as int);
        assert(hay =~= before + needle + after);
        lemma_encode_concat(before + needle, after);
        lemma_encode_concat(before, needle);
        let start = encode_utf8(before).len() as int;
        assert(h.subrange(start, start + n.len()) =~= n);
        assert(occurs_at(h, n, start));
    }
    if occurs_in(h, n) {
        let at = choose|at: int| occurs_at(h, n, at);
        if needle.len() == 0 {
            assert(hay.subrange(0, 0) =~= needle);
            assert(occurs_at(hay, needle, 0));
        } else {
            lemma_byte_occurrence_is_char_occurrence(hay, needle, at);
        }
    }
}

/// A text whose encoding holds no newline byte holds no line terminator.
proof fn lemma_no_newline_byte_no_newline(text: Seq<char>)
    requires
        forall|i: int| 0 <= i < encode_utf8(text).len() ==> encode_utf8(text)[i] != NEWLINE_BYTE,
    ensures
        forall|j: int| 0 <= j < text.len() ==> text[j] != '\n',
    decreases text.len(),
{
    if text.len() > 0 {
        let first = encode_scalar(text[0] as u32);
        let rest = text.drop_first();
        char_is_scalar(text[0]);
        assert(encode_utf8(text) == first + encode_utf8(rest));
        if text[0] == '\n' {
            assert(leading_byte_width_1(0x0a) == 0x0a) by (bit_vector);
            assert(encode_utf8(text)[0] == NEWLINE_BYTE);
        }
        assert forall|i: int| 0 <= i < encode_utf8(rest).len() implies encode_utf8(rest)[i]
            != NEWLINE_BYTE by {
            assert(encode_utf8(text)[first.len() + i] == encode_utf8(rest)[i]);
        }
        lemma_no_newline_byte_no_newline(rest);
        assert forall|j: int| 0 <= j < text.len() implies text[j] != '\n' by {
            if j > 0 {
                assert(text[j] == rest[j - 1]);
            }
        }
    }
}

/// Where the first newline byte of an encoded text stands, the first line of
/// the text ends: the bytes before it decode to the first line, and the bytes
/// after it to the rest of the text.
pub proof fn lemma_first_break_in_encoding(text: Seq<char>, k: int)
    requires
        is_first_break(encode_utf8(text), NEWLINE_BYTE, k),
    ensures
        ({
            let bytes = encode_utf8(text);
            let tail = bytes.subrange(k, bytes.len() as int);
            &&& is_char_boundary(bytes, k)
            &&& decode_utf8(bytes.subrange(0, k)) == first_line(text)
            &&& k == bytes.len() ==> decode_utf8(tail) == after_first_line(text)
            &&& k < bytes.len() ==> is_char_boundary(tail, 1) && decode_utf8(
                tail.subrange(1, tail.len() as int),
            ) == after_first_line(text)
        }),
{
    broadcast use {encode_utf8_valid_utf8, encode_utf8_decode_utf8};

    let bytes = encode_utf8(text);
    let head = bytes.subrange(0, k);
    let tail = bytes.subrange(k, bytes.len() as int);
    if k == bytes.len() {
        is_char_boundary_start_end_of_seq(bytes);
        assert(head =~= bytes);
        lemma_no_newline_byte_no_newline(text);
        lemma_first_break_is_unique(text, text.len() as int);
        assert(first_line(text) =~= text);
        assert(tail =~= Seq::<u8>::empty());
        assert(decode_utf8(tail) =~= Seq::<char>::empty());
    } else {
        is_char_boundary_iff_not_is_continuation_byte(bytes, k);
        valid_utf8_split(bytes, k);
        decode_utf8_split(bytes, k);
        assert(tail[0] == NEWLINE_BYTE);
        assert(valid_first_scalar(tail));
        assert(length_of_first_scalar(tail) == 1);
        assert(is_char_boundary(tail, 1)) by {
            reveal_with_fuel(is_char_boundary, 2);
        }
        valid_utf8_split(tail, 1);
        decode_utf8_split(tail, 1);
        let mark = tail.subrange(0, 1);
        assert(decode_utf8(mark) =~= seq!['\n']) by {
            reveal_with_fuel(decode_utf8, 2);
            assert(mark[0] == NEWLINE_BYTE);
            assert(codepoint_width_1(0x0a) == 0x0a) by (bit_vector);
            assert(pop_first_scalar(mark) =~= Seq::<u8>::empty());
        }
        let line = decode_utf8(head);
        let after = decode_utf8(tail.subrange(1, tail.len() as int));
        assert(text =~= line + seq!['\n'] + after);
        decode_utf8_encode_utf8(head);
        lemma_no_newline_byte_no_newline(line);
        lemma_first_break_is_unique(text, line.len() as int);
        assert(first_line(text) =~= line);
        assert(after_first_line(text) =~= after);
    }
}

} // verus!
