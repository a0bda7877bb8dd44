//! Facts about the UTF-8 encoding of texts that are stored back to back in a
//! byte buffer: how encodings concatenate, and where character boundaries lie.

use vstd::prelude::*;
use vstd::utf8::{
    decode_utf8, encode_utf8, encode_utf8_decode_utf8, is_char_boundary,
    is_char_boundary_iff_not_is_continuation_byte, is_char_boundary_start_end_of_seq,
    valid_utf8, valid_utf8_concat, valid_utf8_split,
};

verus! {

/// Number of bytes that `text` takes in UTF-8.
pub open spec fn byte_len(text: Seq<char>) -> nat {
    encode_utf8(text).len()
}

/// Counts the bytes of `text`.
pub fn byte_length(text: &str) -> (len: usize)
    ensures
        len == byte_len(text@),
{
    text.as_bytes().len()
}

/// The encoding of a concatenation is the concatenation of the encodings.
pub proof fn lemma_encode_concat(a: Seq<char>, b: Seq<char>)
    ensures
        encode_utf8(a + b) == encode_utf8(a) + encode_utf8(b),
        byte_len(a + b) == byte_len(a) + byte_len(b),
    decreases a.len(),
{
    if a.len() == 0 {
        assert(a + b =~= b);
        assert(encode_utf8(a) + encode_utf8(b) =~= encode_utf8(b));
    } else {
        lemma_encode_concat(a.drop_first(), b);
        assert((a + b).drop_first() =~= a.drop_first() + b);
        assert(encode_utf8(a + b) =~= encode_utf8(a) + encode_utf8(b));
    }
}

/// A character boundary is a position inside the bytes or at their end.
pub proof fn lemma_boundary_in_range(bytes: Seq<u8>, i: int)
    requires
        valid_utf8(bytes),
        is_char_boundary(bytes, i),
    ensures
        0 <= i <= bytes.len(),
{
}

/// Where two valid encodings are joined, the joint is a character boundary.
pub proof fn lemma_joint_is_boundary(head: Seq<u8>, tail: Seq<u8>)
    requires
        valid_utf8(head),
        valid_utf8(tail),
    ensures
        valid_utf8(head + tail),
        is_char_boundary(head + tail, head.len() as int),
{
    valid_utf8_concat(head, tail);
    let all = head + tail;
    if tail.len() == 0 {
        assert(all =~= head);
        is_char_boundary_start_end_of_seq(head);
    } else {
        assert(is_char_boundary(tail, 0));
        is_char_boundary_iff_not_is_continuation_byte(tail, 0);
        assert(all[head.len() as int] == tail[0]);
        is_char_boundary_iff_not_is_continuation_byte(all, head.len() as int);
    }
}

/// Appending a valid encoding keeps every character boundary of the bytes
/// that were there before.
pub proof fn lemma_boundary_survives_append(head: Seq<u8>, tail: Seq<u8>, i: int)
    requires
        valid_utf8(head),
        valid_utf8(tail),
        is_char_boundary(head, i),
    ensures
        is_char_boundary(head + tail, i),
{
    lemma_joint_is_boundary(head, tail);
    lemma_boundary_in_range(head, i);
    let all = head + tail;
    if i < head.len() {
        is_char_boundary_iff_not_is_continuation_byte(head, i);
        assert(all[i] == head[i]);
        is_char_boundary_iff_not_is_continuation_byte(all, i);
    }
}

/// A character boundary of the bytes is one of every prefix that ends at a
/// later boundary, and that prefix is valid by itself.
pub proof fn lemma_boundary_in_prefix(bytes: Seq<u8>, i: int, j: int)
    requires
        valid_utf8(bytes),
        is_char_boundary(bytes, i),
        is_char_boundary(bytes, j),
        i <= j,
    ensures
        valid_utf8(bytes.subrange(0, j)),
        is_char_boundary(bytes.subrange(0, j), i),
{
    lemma_boundary_in_range(bytes, i);
    lemma_boundary_in_range(bytes, j);
    valid_utf8_split(bytes, j);
    let prefix = bytes.subrange(0, j);
    if i == j {
        is_char_boundary_start_end_of_seq(prefix);
    } else {
        is_char_boundary_iff_not_is_continuation_byte(bytes, i);
        assert(prefix[i] == bytes[i]);
        is_char_boundary_iff_not_is_continuation_byte(prefix, i);
    }
}

/// The bytes that a text was appended as decode to that text.
pub proof fn lemma_appended_decodes(head: Seq<char>, text: Seq<char>)
    ensures
        encode_utf8(head + text).subrange(
            byte_len(head) as int,
            (byte_len(head) + byte_len(text)) as int,
        ) == encode_utf8(text),
        decode_utf8(
            encode_utf8(head + text).subrange(
                byte_len(head) as int,
                (byte_len(head) + byte_len(text)) as int,
            ),
        ) == text,
{
    lemma_encode_concat(head, text);
    assert((encode_utf8(head) + encode_utf8(text)).subrange(
        byte_len(head) as int,
        (byte_len(head) + byte_len(text)) as int,
    ) =~= encode_utf8(text));
    encode_utf8_decode_utf8(text);
}

} // verus!
