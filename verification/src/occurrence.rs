//! Occurrences of one needle in a text, and the first and the last of them
//! inside a window.

use vstd::prelude::*;

verus! {

/// A half-open range `[start, end)` of byte offsets into a text.
pub struct Span {
    pub start: int,
    pub end: int,
}

/// The span that a needle of `len` bytes covers when it stands at offset `at`.
pub open spec fn span_at(at: int, len: nat) -> Span {
    Span { start: at, end: at + len }
}

/// The bytes of `text` from offset `at` on are those of `needle`.
pub open spec fn occurs_at(text: Seq<u8>, needle: Seq<u8>, at: int) -> bool {
    &&& 0 <= at
    &&& at + needle.len() <= text.len()
    &&& text.subrange(at, at + needle.len()) == needle
}

/// `needle` occurs at `at`, and the occurrence lies wholly inside `[lo, hi)`.
pub open spec fn occurs_within(text: Seq<u8>, needle: Seq<u8>, lo: int, hi: int, at: int) -> bool {
    &&& lo <= at
    &&& at + needle.len() <= hi
    &&& occurs_at(text, needle, at)
}

/// `at` is the leftmost offset at which `needle` occurs inside `[lo, hi)`.
pub open spec fn is_first_within(
    text: Seq<u8>,
    needle: Seq<u8>,
    lo: int,
    hi: int,
    at: int,
) -> bool {
    &&& occurs_within(text, needle, lo, hi, at)
    &&& forall|other: int| #[trigger] occurs_within(text, needle, lo, hi, other) ==> at <= other
}

/// `at` is the rightmost offset at which `needle` occurs inside `[lo, hi)`.
pub open spec fn is_last_within(
    text: Seq<u8>,
    needle: Seq<u8>,
    lo: int,
    hi: int,
    at: int,
) -> bool {
    &&& occurs_within(text, needle, lo, hi, at)
    &&& forall|other: int| #[trigger] occurs_within(text, needle, lo, hi, other) ==> other <= at
}

/// The leftmost occurrence of `needle` inside `[lo, hi)`, if it occurs there.
pub open spec fn first_match(text: Seq<u8>, needle: Seq<u8>, lo: int, hi: int) -> Option<Span> {
    if exists|at: int| is_first_within(text, needle, lo, hi, at) {
        Some(span_at(choose|at: int| is_first_within(text, needle, lo, hi, at), needle.len()))
    } else {
        None
    }
}

/// The rightmost occurrence of `needle` inside `[lo, hi)`, if it occurs there.
pub open spec fn last_match(text: Seq<u8>, needle: Seq<u8>, lo: int, hi: int) -> Option<Span> {
    if exists|at: int| is_last_within(text, needle, lo, hi, at) {
        Some(span_at(choose|at: int| is_last_within(text, needle, lo, hi, at), needle.len()))
    } else {
        None
    }
}

/// Two bytes that differ under the needle rule an occurrence out.
pub proof fn lemma_mismatch_excludes(text: Seq<u8>, needle: Seq<u8>, at: int, k: int)
    requires
        0 <= at,
        at + needle.len() <= text.len(),
        0 <= k < needle.len(),
        text[at + k] != needle[k],
    ensures
        !occurs_at(text, needle, at),
{
    assert(text.subrange(at, at + needle.len())[k] == text[at + k]);
}

/// Bytes that agree all along the needle make an occurrence.
pub proof fn lemma_agreement_is_occurrence(text: Seq<u8>, needle: Seq<u8>, at: int)
    requires
        0 <= at,
        at + needle.len() <= text.len(),
        forall|k: int| 0 <= k < needle.len() ==> text[at + k] == #[trigger] needle[k],
    ensures
        occurs_at(text, needle, at),
{
    assert(text.subrange(at, at + needle.len()) =~= needle);
}

/// The leftmost occurrence inside a window is the one that `first_match` names.
pub proof fn lemma_first_match_is(text: Seq<u8>, needle: Seq<u8>, lo: int, hi: int, at: int)
    requires
        is_first_within(text, needle, lo, hi, at),
    ensures
        first_match(text, needle, lo, hi) == Some(span_at(at, needle.len())),
{
}

/// The rightmost occurrence inside a window is the one that `last_match` names.
pub proof fn lemma_last_match_is(text: Seq<u8>, needle: Seq<u8>, lo: int, hi: int, at: int)
    requires
        is_last_within(text, needle, lo, hi, at),
    ensures
        last_match(text, needle, lo, hi) == Some(span_at(at, needle.len())),
{
}

/// What `first_match` names is an occurrence inside the window with none to
/// its left; it names nothing only where the window holds no occurrence.
pub proof fn lemma_first_match_found(text: Seq<u8>, needle: Seq<u8>, lo: int, hi: int)
    ensures
        match first_match(text, needle, lo, hi) {
            Some(m) => is_first_within(text, needle, lo, hi, m.start) && m == span_at(
                m.start,
                needle.len(),
            ),
            None => forall|at: int| !#[trigger] occurs_within(text, needle, lo, hi, at),
        },
{
    if first_match(text, needle, lo, hi) is None {
        assert forall|at: int| !#[trigger] occurs_within(text, needle, lo, hi, at) by {
            if occurs_within(text, needle, lo, hi, at) {
                lemma_leftmost_exists(text, needle, lo, hi, at);
            }
        }
    }
}

/// What `last_match` names is an occurrence inside the window with none to its
/// right; it names nothing only where the window holds no occurrence.
pub proof fn lemma_last_match_found(text: Seq<u8>, needle: Seq<u8>, lo: int, hi: int)
    ensures
        match last_match(text, needle, lo, hi) {
            Some(m) => is_last_within(text, needle, lo, hi, m.start) && m == span_at(
                m.start,
                needle.len(),
            ),
            None => forall|at: int| !#[trigger] occurs_within(text, needle, lo, hi, at),
        },
{
    if last_match(text, needle, lo, hi) is None {
        assert forall|at: int| !#[trigger] occurs_within(text, needle, lo, hi, at) by {
            if occurs_within(text, needle, lo, hi, at) {
                lemma_rightmost_exists(text, needle, lo, hi, at);
            }
        }
    }
}

/// Where a needle occurs inside a window at all, one occurrence is leftmost.
pub proof fn lemma_leftmost_exists(text: Seq<u8>, needle: Seq<u8>, lo: int, hi: int, at: int)
    requires
        occurs_within(text, needle, lo, hi, at),
    ensures
        exists|first: int| is_first_within(text, needle, lo, hi, first),
    decreases at - lo,
{
    if exists|left: int| occurs_within(text, needle, lo, hi, left) && left < at {
        let left = choose|left: int| occurs_within(text, needle, lo, hi, left) && left < at;
        lemma_leftmost_exists(text, needle, lo, hi, left);
    } else {
        assert(is_first_within(text, needle, lo, hi, at));
    }
}

/// Where a needle occurs inside a window at all, one occurrence is rightmost.
pub proof fn lemma_rightmost_exists(text: Seq<u8>, needle: Seq<u8>, lo: int, hi: int, at: int)
    requires
        occurs_within(text, needle, lo, hi, at),
    ensures
        exists|last: int| is_last_within(text, needle, lo, hi, last),
    decreases hi - at,
{
    if exists|right: int| occurs_within(text, needle, lo, hi, right) && at < right {
        let right = choose|right: int| occurs_within(text, needle, lo, hi, right) && at < right;
        lemma_rightmost_exists(text, needle, lo, hi, right);
    } else {
        assert(is_last_within(text, needle, lo, hi, at));
    }
}

} // verus!
