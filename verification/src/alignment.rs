//! Windows, and why a match never splits a character.
//!
//! A window is a range of byte offsets whose two ends fall on character
//! boundaries of the text. A needle is itself whole characters, so wherever
//! its bytes occur in a text both ends of the occurrence are boundaries too:
//! the span of a match can serve as the edge of the next window, and the text
//! between two matches can be cut out as a string.

use crate::occurrence::occurs_at;
use vstd::prelude::*;
use vstd::string::StringSliceAdditionalSpecFns;
use vstd::utf8::*;

verus! {

/// `[lo, hi)` is a window of `text`: it lies inside the text and neither end
/// splits a character.
pub open spec fn is_window(text: Seq<u8>, lo: int, hi: int) -> bool {
    &&& 0 <= lo <= hi <= text.len()
    &&& is_char_boundary(text, lo)
    &&& is_char_boundary(text, hi)
}

/// The whole of a string is a window of its bytes.
pub proof fn lemma_whole_str_is_window(text: &str)
    ensures
        is_window(text.spec_bytes(), 0, text.spec_bytes().len() as int),
{
    encode_utf8_valid_utf8(text@);
    is_char_boundary_start_end_of_seq(text.spec_bytes());
}

/// A string that begins with another string has a character boundary where
/// the other one ends.
proof fn lemma_prefix_ends_on_boundary(text: Seq<u8>, prefix: Seq<u8>)
    requires
        valid_utf8(text),
        valid_utf8(prefix),
        occurs_at(text, prefix, 0),
    ensures
        is_char_boundary(text, prefix.len() as int),
    decreases prefix.len(),
{
    if prefix.len() > 0 {
        assert(text.subrange(0, prefix.len() as int)[0] == text[0]);
        let width = length_of_first_scalar(prefix);
        assert(width == length_of_first_scalar(text));
        assert(width <= prefix.len());
        let text_rest = pop_first_scalar(text);
        let prefix_rest = pop_first_scalar(prefix);
        assert(text_rest.subrange(0, prefix_rest.len() as int) =~= prefix_rest) by {
            assert forall|k: int| 0 <= k < prefix_rest.len() implies text_rest[k]
                == prefix_rest[k] by {
                assert(text.subrange(0, prefix.len() as int)[width + k] == text[width + k]);
            }
        }
        lemma_prefix_ends_on_boundary(text_rest, prefix_rest);
    }
}

/// An occurrence of a needle starts and ends on character boundaries.
pub proof fn lemma_occurrence_is_aligned(text: Seq<u8>, needle: Seq<u8>, at: int)
    requires
        valid_utf8(text),
        valid_utf8(needle),
        needle.len() > 0,
        occurs_at(text, needle, at),
    ensures
        is_char_boundary(text, at),
        is_char_boundary(text, at + needle.len()),
{
    let len = text.len() as int;
    let end = at + needle.len();
    assert(text.subrange(at, end)[0] == text[at]);
    is_char_boundary_iff_not_is_continuation_byte(needle, 0);
    is_char_boundary_iff_not_is_continuation_byte(text, at);
    if end == len {
        is_char_boundary_start_end_of_seq(text);
    } else {
        let tail = text.subrange(at, len);
        valid_utf8_split(text, at);
        assert(tail.subrange(0, needle.len() as int) =~= text.subrange(at, end));
        lemma_prefix_ends_on_boundary(tail, needle);
        is_char_boundary_iff_not_is_continuation_byte(tail, needle.len() as int);
        is_char_boundary_iff_not_is_continuation_byte(text, end);
    }
}

/// The part of a text before a boundary is a string of its own, and each
/// boundary of the text in it is a boundary of that string.
pub proof fn lemma_boundary_of_head(text: Seq<u8>, at: int, end: int)
    requires
        valid_utf8(text),
        0 <= at <= end <= text.len(),
        is_char_boundary(text, at),
        is_char_boundary(text, end),
    ensures
        valid_utf8(text.subrange(0, end)),
        is_char_boundary(text.subrange(0, end), at),
{
    let head = text.subrange(0, end);
    valid_utf8_split(text, end);
    if at < end {
        is_char_boundary_iff_not_is_continuation_byte(text, at);
        is_char_boundary_iff_not_is_continuation_byte(head, at);
    } else {
        is_char_boundary_start_end_of_seq(head);
    }
}

} // verus!
