//! The stretch of text between a group of start markers and a group of end
//! markers.

use crate::chain::{first_chain, last_chain};
use crate::occurrence::Span;
use vstd::prelude::*;

verus! {

/// Whether the text of a matched marker belongs to what is extracted.
#[derive(Clone, Copy, Debug)]
pub enum Include {
    /// The marker is part of the extracted text.
    Include,
    /// The extracted text stops short of the marker.
    Exclude,
}

/// Where the extracted text begins, given the match of the start markers.
pub open spec fn left_edge(start: Span, keep: Include) -> int {
    match keep {
        Include::Include => start.start,
        Include::Exclude => start.end,
    }
}

/// Where the extracted text ends, given the match of the end markers.
pub open spec fn right_edge(end: Span, keep: Include) -> int {
    match keep {
        Include::Include => end.end,
        Include::Exclude => end.start,
    }
}

/// The span between the two marker groups, searched for from the left.
///
/// The start markers are chained from the left through the window. The end
/// markers are chained from the left too, from the start of the start match
/// on, so the end match may lie inside the start match. Nothing is extracted
/// where either group has no match, nor where the two edges cross.
pub open spec fn extract_first(
    text: Seq<u8>,
    lo: int,
    hi: int,
    start: Seq<Seq<u8>>,
    keep_start: Include,
    end: Seq<Seq<u8>>,
    keep_end: Include,
) -> Option<Span> {
    match first_chain(text, start, lo, hi) {
        None => None,
        Some(s) => match first_chain(text, end, s.start, hi) {
            None => None,
            Some(e) => if left_edge(s, keep_start) <= right_edge(e, keep_end) {
                Some(Span { start: left_edge(s, keep_start), end: right_edge(e, keep_end) })
            } else {
                None
            },
        },
    }
}

/// The span between the two marker groups, searched for from the right.
///
/// The end markers are chained from the right through the window, and the
/// start markers from the right through what lies before the end match.
/// Nothing is extracted where either group has no match.
pub open spec fn extract_last(
    text: Seq<u8>,
    lo: int,
    hi: int,
    end: Seq<Seq<u8>>,
    keep_end: Include,
    start: Seq<Seq<u8>>,
    keep_start: Include,
) -> Option<Span> {
    match last_chain(text, end, lo, hi) {
        None => None,
        Some(e) => match last_chain(text, start, lo, e.start) {
            None => None,
            Some(s) => Some(
                Span { start: left_edge(s, keep_start), end: right_edge(e, keep_end) },
            ),
        },
    }
}

} // verus!
