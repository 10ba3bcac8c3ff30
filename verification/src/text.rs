//! Pieces of a text, given by byte offsets.

use vstd::prelude::*;
use vstd::string::StringSliceAdditionalSpecFns;
use vstd::utf8::{
    encode_utf8_valid_utf8, is_char_boundary, is_char_boundary_iff_not_is_continuation_byte,
    is_char_boundary_start_end_of_seq, is_continuation_byte, is_leading_byte_width_1,
    length_of_first_scalar, pop_first_scalar, valid_utf8, valid_utf8_split,
};

verus! {

/// The bytes of a text are valid UTF-8.
pub proof fn lemma_str_is_utf8(s: &str)
    ensures
        valid_utf8(s.spec_bytes()),
{
    encode_utf8_valid_utf8(s@);
}

/// An offset is between two characters if no character continues there.
pub proof fn lemma_boundary(bytes: Seq<u8>, at: int)
    requires
        valid_utf8(bytes),
        0 <= at <= bytes.len(),
        at < bytes.len() ==> !is_continuation_byte(bytes[at]),
    ensures
        is_char_boundary(bytes, at),
{
    if at < bytes.len() {
        is_char_boundary_iff_not_is_continuation_byte(bytes, at);
    } else {
        is_char_boundary_start_end_of_seq(bytes);
    }
}

/// A character that starts between two characters ends between two characters.
pub proof fn lemma_boundary_after_char(bytes: Seq<u8>, at: int)
    requires
        valid_utf8(bytes),
        0 <= at < bytes.len(),
        is_char_boundary(bytes, at),
    ensures
        ({
            let n = length_of_first_scalar(bytes.subrange(at, bytes.len() as int));
            1 <= n && at + n <= bytes.len() && is_char_boundary(bytes, at + n)
        }),
{
    let tail = bytes.subrange(at, bytes.len() as int);
    valid_utf8_split(bytes, at);
    let n = length_of_first_scalar(tail);
    let rest = pop_first_scalar(tail);
    if rest.len() > 0 {
        assert(valid_utf8(rest));
        assert(rest[0] == bytes[at + n]);
    }
    lemma_boundary(bytes, at + n);
}

/// Behind an ASCII character no character continues.
pub proof fn lemma_boundary_after_ascii(bytes: Seq<u8>, at: int)
    requires
        valid_utf8(bytes),
        0 <= at < bytes.len(),
        is_leading_byte_width_1(bytes[at]),
    ensures
        is_char_boundary(bytes, at),
        is_char_boundary(bytes, at + 1),
{
    lemma_boundary(bytes, at);
    lemma_boundary_after_char(bytes, at);
    assert(bytes.subrange(at, bytes.len() as int)[0] == bytes[at]);
}

/// The part of a text between two offsets.
pub(crate) fn slice<'a>(s: &'a str, start: usize, end: usize) -> (part: &'a str)
    requires
        start <= end <= s.spec_bytes().len(),
        is_char_boundary(s.spec_bytes(), start as int),
        is_char_boundary(s.spec_bytes(), end as int),
    ensures
        part.spec_bytes() == s.spec_bytes().subrange(start as int, end as int),
{
    let (head, _tail) = s.split_at(end);
    proof {
        let bytes = s.spec_bytes();
        lemma_str_is_utf8(s);
        lemma_str_is_utf8(head);
        if start < end {
            is_char_boundary_iff_not_is_continuation_byte(bytes, start as int);
            assert(head.spec_bytes()[start as int] == bytes[start as int]);
        }
        lemma_boundary(head.spec_bytes(), start as int);
    }
    let (_front, part) = head.split_at(start);
    assert(part.spec_bytes() =~= s.spec_bytes().subrange(start as int, end as int));
    part
}

} // verus!
