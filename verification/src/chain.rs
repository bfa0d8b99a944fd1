//! Chains of needles: each needle is searched for in what the match of the
//! one before it has left of the window.

use crate::occurrence::{
    first_match, last_match, lemma_first_match_found, lemma_last_match_found, occurs_within,
    span_at, Span,
};
use vstd::prelude::*;

verus! {

/// The match of the last needle of `needles` when each needle is matched at
/// its leftmost occurrence after the end of the match before it, the first
/// one from `lo` on, and all of them before `hi`. Nothing where one of the
/// needles has no such occurrence, or where there is no needle.
pub open spec fn first_chain(text: Seq<u8>, needles: Seq<Seq<u8>>, lo: int, hi: int) -> Option<
    Span,
>
    decreases needles.len(),
{
    if needles.len() == 0 {
        None
    } else {
        match first_match(text, needles[0], lo, hi) {
            None => None,
            Some(m) => if needles.len() == 1 {
                Some(m)
            } else {
                first_chain(text, needles.drop_first(), m.end, hi)
            },
        }
    }
}

/// The match of the last needle of `needles` when each needle is matched at
/// its rightmost occurrence before the start of the match before it, the
/// first one before `hi`, and all of them from `lo` on. Nothing where one of
/// the needles has no such occurrence, or where there is no needle.
pub open spec fn last_chain(text: Seq<u8>, needles: Seq<Seq<u8>>, lo: int, hi: int) -> Option<
    Span,
>
    decreases needles.len(),
{
    if needles.len() == 0 {
        None
    } else {
        match last_match(text, needles[0], lo, hi) {
            None => None,
            Some(m) => if needles.len() == 1 {
                Some(m)
            } else {
                last_chain(text, needles.drop_first(), lo, m.start)
            },
        }
    }
}

/// A list of needles that can be searched for: it has at least one needle,
/// and each needle has at least one byte.
pub open spec fn is_marker_group(needles: Seq<Seq<u8>>) -> bool {
    &&& needles.len() > 0
    &&& forall|i: int| 0 <= i < needles.len() ==> (#[trigger] needles[i]).len() > 0
}

/// `count` times the same needle.
pub open spec fn repeated(needle: Seq<u8>, count: nat) -> Seq<Seq<u8>> {
    Seq::new(count, |i: int| needle)
}

/// What a chain from the left finds is an occurrence of its last needle
/// inside the window.
pub proof fn lemma_first_chain_within(text: Seq<u8>, needles: Seq<Seq<u8>>, lo: int, hi: int)
    ensures
        first_chain(text, needles, lo, hi) matches Some(m) ==> {
            &&& occurs_within(text, needles.last(), lo, hi, m.start)
            &&& m == span_at(m.start, needles.last().len())
        },
    decreases needles.len(),
{
    if needles.len() > 0 {
        lemma_first_match_found(text, needles[0], lo, hi);
        if let Some(m) = first_match(text, needles[0], lo, hi) {
            if needles.len() > 1 {
                lemma_first_chain_within(text, needles.drop_first(), m.end, hi);
            }
        }
    }
}

/// What a chain from the right finds is an occurrence of its last needle
/// inside the window.
pub proof fn lemma_last_chain_within(text: Seq<u8>, needles: Seq<Seq<u8>>, lo: int, hi: int)
    ensures
        last_chain(text, needles, lo, hi) matches Some(m) ==> {
            &&& occurs_within(text, needles.last(), lo, hi, m.start)
            &&& m == span_at(m.start, needles.last().len())
        },
    decreases needles.len(),
{
    if needles.len() > 0 {
        lemma_last_match_found(text, needles[0], lo, hi);
        if let Some(m) = last_match(text, needles[0], lo, hi) {
            if needles.len() > 1 {
                lemma_last_chain_within(text, needles.drop_first(), lo, m.start);
            }
        }
    }
}

} // verus!
