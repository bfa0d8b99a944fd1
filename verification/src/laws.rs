//! What holds of the searches whatever the text, the window and the needles.

use crate::chain::{
    first_chain, is_marker_group, last_chain, lemma_first_chain_within, lemma_last_chain_within,
    repeated,
};
use crate::extraction::{extract_first, extract_last, Include};
use crate::occurrence::{
    first_match, is_first_within, is_last_within, last_match, lemma_first_match_found,
    lemma_first_match_is, lemma_last_match_found, lemma_last_match_is, occurs_within, span_at,
};
use crate::search::found_span;
use std::ops::Range;
use vstd::prelude::*;

verus! {

/// A search has one answer: two results that both are the leftmost occurrence
/// of the same needle in the same window of the same text are the same range.
pub proof fn lemma_search_is_determined(
    text: Seq<u8>,
    needle: Seq<u8>,
    lo: int,
    hi: int,
    one: Option<Range<usize>>,
    other: Option<Range<usize>>,
)
    requires
        found_span(one) == first_match(text, needle, lo, hi),
        found_span(other) == first_match(text, needle, lo, hi),
    ensures
        one == other,
{
}

/// A needle that occurs exactly once inside a window is found at the same
/// place from the left and from the right.
pub proof fn lemma_single_occurrence(text: Seq<u8>, needle: Seq<u8>, lo: int, hi: int, at: int)
    requires
        occurs_within(text, needle, lo, hi, at),
        forall|other: int| #[trigger] occurs_within(text, needle, lo, hi, other) ==> other == at,
    ensures
        first_match(text, needle, lo, hi) == Some(span_at(at, needle.len())),
        last_match(text, needle, lo, hi) == first_match(text, needle, lo, hi),
{
    assert(is_first_within(text, needle, lo, hi, at));
    assert(is_last_within(text, needle, lo, hi, at));
    lemma_first_match_is(text, needle, lo, hi, at);
    lemma_last_match_is(text, needle, lo, hi, at);
}

/// Where the search from the left and the search from the right find the
/// same place, the needle occurs nowhere else inside the window.
pub proof fn lemma_same_from_both_sides(
    text: Seq<u8>,
    needle: Seq<u8>,
    lo: int,
    hi: int,
    other: int,
)
    requires
        first_match(text, needle, lo, hi) == last_match(text, needle, lo, hi),
        occurs_within(text, needle, lo, hi, other),
    ensures
        first_match(text, needle, lo, hi) == Some(span_at(other, needle.len())),
{
    lemma_first_match_found(text, needle, lo, hi);
    lemma_last_match_found(text, needle, lo, hi);
}

/// `first` occurs at `at_first` and `second` at `at_second`, both inside
/// `[lo, hi)`, and `second` begins where `first` has ended or later.
pub open spec fn occur_in_order(
    text: Seq<u8>,
    first: Seq<u8>,
    second: Seq<u8>,
    lo: int,
    hi: int,
    at_first: int,
    at_second: int,
) -> bool {
    &&& occurs_within(text, first, lo, hi, at_first)
    &&& occurs_within(text, second, lo, hi, at_second)
    &&& at_first + first.len() <= at_second
}

/// A chain of two needles finds the second one after an occurrence of the
/// first one, and finds something exactly where the two occur in that order
/// inside the window at all. So with the needles swapped it finds nothing
/// unless they occur in the swapped order too.
pub proof fn lemma_pair_in_order(
    text: Seq<u8>,
    first: Seq<u8>,
    second: Seq<u8>,
    lo: int,
    hi: int,
)
    ensures
        first_chain(text, seq![first, second], lo, hi) matches Some(m) ==> exists|at: int|
            occur_in_order(text, first, second, lo, hi, at, m.start),
        first_chain(text, seq![first, second], lo, hi) is Some <==> exists|a: int, b: int|
            occur_in_order(text, first, second, lo, hi, a, b),
{
    assert(seq![first].push(second) =~= seq![first, second]);
    lemma_first_chain_push(text, seq![first], second, lo, hi);
    lemma_first_match_found(text, first, lo, hi);
    match first_match(text, first, lo, hi) {
        Some(m1) => {
            lemma_first_match_found(text, second, m1.end, hi);
            match first_match(text, second, m1.end, hi) {
                Some(m2) => {
                    assert(occur_in_order(text, first, second, lo, hi, m1.start, m2.start));
                },
                None => {
                    assert forall|a: int, b: int|
                        !occur_in_order(text, first, second, lo, hi, a, b) by {
                        if occur_in_order(text, first, second, lo, hi, a, b) {
                            assert(occurs_within(text, first, lo, hi, a));
                            assert(occurs_within(text, second, m1.end, hi, b));
                        }
                    }
                },
            }
        },
        None => {},
    }
}

/// `places` gives each needle of `needles` a place inside `[lo, hi)` at which
/// it occurs, after the end of every needle before it.
pub open spec fn are_in_order(
    text: Seq<u8>,
    needles: Seq<Seq<u8>>,
    lo: int,
    hi: int,
    places: Seq<int>,
) -> bool {
    &&& places.len() == needles.len()
    &&& forall|i: int|
        0 <= i < needles.len() ==> occurs_within(text, needles[i], lo, hi, #[trigger] places[i])
    &&& forall|i: int, j: int|
        0 <= i < j < needles.len() ==> #[trigger] places[i] + needles[i].len()
            <= #[trigger] places[j]
}

/// What a chain from the left finds is the end of a row of occurrences, one
/// of each needle, in the order of the needles and without overlap.
pub proof fn lemma_chain_is_in_order(
    text: Seq<u8>,
    needles: Seq<Seq<u8>>,
    lo: int,
    hi: int,
) -> (places: Seq<int>)
    requires
        first_chain(text, needles, lo, hi) is Some,
    ensures
        are_in_order(text, needles, lo, hi, places),
        places.last() == first_chain(text, needles, lo, hi)->0.start,
    decreases needles.len(),
{
    lemma_first_match_found(text, needles[0], lo, hi);
    let m = first_match(text, needles[0], lo, hi)->0;
    if needles.len() == 1 {
        seq![m.start]
    } else {
        let later = needles.drop_first();
        let rest = lemma_chain_is_in_order(text, later, m.end, hi);
        let places = seq![m.start] + rest;
        assert forall|i: int| 0 <= i < needles.len() implies occurs_within(
            text,
            needles[i],
            lo,
            hi,
            #[trigger] places[i],
        ) by {
            if i > 0 {
                assert(occurs_within(text, later[i - 1], m.end, hi, rest[i - 1]));
            }
        }
        assert forall|i: int, j: int| 0 <= i < j < needles.len() implies #[trigger] places[i]
            + needles[i].len() <= #[trigger] places[j] by {
            assert(occurs_within(text, later[j - 1], m.end, hi, rest[j - 1]));
            if i > 0 {
                assert(rest[i - 1] + later[i - 1].len() <= rest[j - 1]);
            }
        }
        places
    }
}

/// Where the needles occur in their order and without overlap inside a
/// window, the chain from the left finds something, and nothing to the right
/// of the place that the last needle has there.
pub proof fn lemma_in_order_is_found(
    text: Seq<u8>,
    needles: Seq<Seq<u8>>,
    lo: int,
    hi: int,
    places: Seq<int>,
)
    requires
        needles.len() > 0,
        are_in_order(text, needles, lo, hi, places),
    ensures
        first_chain(text, needles, lo, hi) matches Some(m) && m.start <= places.last(),
    decreases needles.len(),
{
    lemma_first_match_found(text, needles[0], lo, hi);
    assert(occurs_within(text, needles[0], lo, hi, places[0]));
    let m = first_match(text, needles[0], lo, hi)->0;
    if needles.len() > 1 {
        let later = needles.drop_first();
        let rest = places.drop_first();
        assert forall|i: int| 0 <= i < later.len() implies occurs_within(
            text,
            later[i],
            m.end,
            hi,
            #[trigger] rest[i],
        ) by {
            assert(places[0] + needles[0].len() <= places[i + 1]);
            assert(occurs_within(text, needles[i + 1], lo, hi, places[i + 1]));
        }
        assert forall|i: int, j: int| 0 <= i < j < later.len() implies #[trigger] rest[i]
            + later[i].len() <= #[trigger] rest[j] by {
            assert(places[i + 1] + needles[i + 1].len() <= places[j + 1]);
        }
        lemma_in_order_is_found(text, later, m.end, hi, rest);
    }
}

/// A chain from the left with one more needle at its end finds that needle's
/// leftmost occurrence after what the chain without it finds.
pub proof fn lemma_first_chain_push(
    text: Seq<u8>,
    needles: Seq<Seq<u8>>,
    needle: Seq<u8>,
    lo: int,
    hi: int,
)
    requires
        needles.len() > 0,
    ensures
        first_chain(text, needles.push(needle), lo, hi) == match first_chain(
            text,
            needles,
            lo,
            hi,
        ) {
            Some(m) => first_match(text, needle, m.end, hi),
            None => None,
        },
    decreases needles.len(),
{
    let longer = needles.push(needle);
    assert(longer[0] == needles[0]);
    if let Some(m) = first_match(text, needles[0], lo, hi) {
        assert(longer.drop_first() =~= needles.drop_first().push(needle));
        if needles.len() == 1 {
            assert(first_chain(text, longer.drop_first().drop_first(), m.end, hi) is None);
        } else {
            lemma_first_chain_push(text, needles.drop_first(), needle, m.end, hi);
        }
    }
}

/// A chain from the right with one more needle at its end finds that needle's
/// rightmost occurrence before what the chain without it finds.
pub proof fn lemma_last_chain_push(
    text: Seq<u8>,
    needles: Seq<Seq<u8>>,
    needle: Seq<u8>,
    lo: int,
    hi: int,
)
    requires
        needles.len() > 0,
    ensures
        last_chain(text, needles.push(needle), lo, hi) == match last_chain(text, needles, lo, hi) {
            Some(m) => last_match(text, needle, lo, m.start),
            None => None,
        },
    decreases needles.len(),
{
    let longer = needles.push(needle);
    assert(longer[0] == needles[0]);
    if let Some(m) = last_match(text, needles[0], lo, hi) {
        assert(longer.drop_first() =~= needles.drop_first().push(needle));
        if needles.len() == 1 {
            assert(last_chain(text, longer.drop_first().drop_first(), lo, m.start) is None);
        } else {
            lemma_last_chain_push(text, needles.drop_first(), needle, lo, m.start);
        }
    }
}

/// The search for the next occurrence resumes where the one before has ended:
/// the occurrence after the `n`-th is the leftmost one after the end of the
/// `n`-th.
pub proof fn lemma_nth_step(text: Seq<u8>, needle: Seq<u8>, lo: int, hi: int, n: nat)
    requires
        n >= 1,
    ensures
        first_chain(text, repeated(needle, n + 1), lo, hi) == match first_chain(
            text,
            repeated(needle, n),
            lo,
            hi,
        ) {
            Some(m) => first_match(text, needle, m.end, hi),
            None => None,
        },
{
    assert(repeated(needle, n + 1) =~= repeated(needle, n).push(needle));
    lemma_first_chain_push(text, repeated(needle, n), needle, lo, hi);
}

/// `places` lists, from left to right, every place at which `needle` occurs
/// inside `[lo, hi)`, and no two of the occurrences overlap.
pub open spec fn are_separate_occurrences(
    text: Seq<u8>,
    needle: Seq<u8>,
    lo: int,
    hi: int,
    places: Seq<int>,
) -> bool {
    &&& forall|i: int|
        0 <= i < places.len() ==> occurs_within(text, needle, lo, hi, #[trigger] places[i])
    &&& forall|i: int, j: int|
        0 <= i < j < places.len() ==> #[trigger] places[i] + needle.len() <= #[trigger] places[j]
    &&& forall|at: int| #[trigger] occurs_within(text, needle, lo, hi, at) ==> places.contains(at)
}

/// Where the occurrences of a needle inside a window do not overlap, the
/// search for the `n`-th one, `n` counted from one, finds the `n`-th of them
/// from the left, and nothing where there are fewer than `n`.
pub proof fn lemma_nth_of_separate_occurrences(
    text: Seq<u8>,
    needle: Seq<u8>,
    lo: int,
    hi: int,
    places: Seq<int>,
    n: nat,
)
    requires
        needle.len() > 0,
        n >= 1,
        are_separate_occurrences(text, needle, lo, hi, places),
    ensures
        first_chain(text, repeated(needle, n), lo, hi) == if n <= places.len() {
            Some(span_at(places[n - 1], needle.len()))
        } else {
            None
        },
    decreases n,
{
    if n == 1 {
        assert(repeated(needle, 1)[0] == needle);
        lemma_first_match_found(text, needle, lo, hi);
        if places.len() > 0 {
            assert(occurs_within(text, needle, lo, hi, places[0]));
            assert forall|other: int| #[trigger]
                occurs_within(text, needle, lo, hi, other) implies places[0] <= other by {
                let i = choose|i: int| 0 <= i < places.len() && places[i] == other;
                if i > 0 {
                    assert(places[0] + needle.len() <= places[i]);
                }
            }
            lemma_first_match_is(text, needle, lo, hi, places[0]);
        } else {
            assert forall|at: int| !#[trigger] occurs_within(text, needle, lo, hi, at) by {
                if occurs_within(text, needle, lo, hi, at) {
                    assert(places.contains(at));
                }
            }
        }
    } else {
        let before = (n - 1) as nat;
        lemma_nth_of_separate_occurrences(text, needle, lo, hi, places, before);
        lemma_nth_step(text, needle, lo, hi, before);
        if before <= places.len() {
            let from = places[before - 1] + needle.len();
            assert(occurs_within(text, needle, lo, hi, places[before - 1]));
            lemma_first_match_found(text, needle, from, hi);
            if n <= places.len() {
                assert(occurs_within(text, needle, lo, hi, places[n - 1]));
                assert(places[before - 1] + needle.len() <= places[n - 1]);
                assert forall|other: int| #[trigger]
                    occurs_within(text, needle, from, hi, other) implies places[n - 1]
                    <= other by {
                    assert(occurs_within(text, needle, lo, hi, other));
                    let i = choose|i: int| 0 <= i < places.len() && places[i] == other;
                    if i < before - 1 {
                        assert(places[i] + needle.len() <= places[before - 1]);
                    }
                    if i > n - 1 {
                        assert(places[n - 1] + needle.len() <= places[i]);
                    }
                }
                lemma_first_match_is(text, needle, from, hi, places[n - 1]);
            } else {
                assert forall|other: int| !#[trigger]
                    occurs_within(text, needle, from, hi, other) by {
                    if occurs_within(text, needle, from, hi, other) {
                        assert(occurs_within(text, needle, lo, hi, other));
                        let i = choose|i: int| 0 <= i < places.len() && places[i] == other;
                        if i < before - 1 {
                            assert(places[i] + needle.len() <= places[before - 1]);
                        }
                    }
                }
            }
        }
    }
}

/// A chain that finds something in the right part of a window finds
/// something in the whole window, and no further to the right.
pub proof fn lemma_first_chain_from_earlier(
    text: Seq<u8>,
    needles: Seq<Seq<u8>>,
    lo: int,
    from: int,
    hi: int,
)
    requires
        lo <= from,
        first_chain(text, needles, from, hi) is Some,
    ensures
        first_chain(text, needles, lo, hi) matches Some(m) && m.end <= first_chain(
            text,
            needles,
            from,
            hi,
        )->0.end,
    decreases needles.len(),
{
    lemma_first_match_found(text, needles[0], from, hi);
    lemma_first_match_found(text, needles[0], lo, hi);
    let later = first_match(text, needles[0], from, hi)->0;
    assert(occurs_within(text, needles[0], lo, hi, later.start));
    let sooner = first_match(text, needles[0], lo, hi)->0;
    if needles.len() > 1 {
        lemma_first_chain_from_earlier(text, needles.drop_first(), sooner.end, later.end, hi);
    }
}

/// A chain that finds something in the left part of a window finds something
/// in the whole window, and no further to the left.
pub proof fn lemma_last_chain_to_later(
    text: Seq<u8>,
    needles: Seq<Seq<u8>>,
    lo: int,
    to: int,
    hi: int,
)
    requires
        to <= hi,
        last_chain(text, needles, lo, to) is Some,
    ensures
        last_chain(text, needles, lo, hi) matches Some(m) && last_chain(
            text,
            needles,
            lo,
            to,
        )->0.start <= m.start,
    decreases needles.len(),
{
    lemma_last_match_found(text, needles[0], lo, to);
    lemma_last_match_found(text, needles[0], lo, hi);
    let sooner = last_match(text, needles[0], lo, to)->0;
    assert(occurs_within(text, needles[0], lo, hi, sooner.start));
    let later = last_match(text, needles[0], lo, hi)->0;
    if needles.len() > 1 {
        lemma_last_chain_to_later(text, needles.drop_first(), lo, sooner.start, later.start);
    }
}

/// Nothing is extracted from the left unless each of the two marker groups
/// has a match of its own inside the window, whatever the other group does.
pub proof fn lemma_extract_first_needs_both_groups(
    text: Seq<u8>,
    lo: int,
    hi: int,
    start: Seq<Seq<u8>>,
    keep_start: Include,
    end: Seq<Seq<u8>>,
    keep_end: Include,
)
    ensures
        first_chain(text, start, lo, hi) is None ==> extract_first(
            text,
            lo,
            hi,
            start,
            keep_start,
            end,
            keep_end,
        ) is None,
        first_chain(text, end, lo, hi) is None ==> extract_first(
            text,
            lo,
            hi,
            start,
            keep_start,
            end,
            keep_end,
        ) is None,
{
    if let Some(s) = first_chain(text, start, lo, hi) {
        lemma_first_chain_within(text, start, lo, hi);
        if first_chain(text, end, s.start, hi) is Some {
            lemma_first_chain_from_earlier(text, end, lo, s.start, hi);
        }
    }
}

/// Nothing is extracted from the right unless each of the two marker groups
/// has a match of its own inside the window, whatever the other group does.
pub proof fn lemma_extract_last_needs_both_groups(
    text: Seq<u8>,
    lo: int,
    hi: int,
    end: Seq<Seq<u8>>,
    keep_end: Include,
    start: Seq<Seq<u8>>,
    keep_start: Include,
)
    ensures
        last_chain(text, end, lo, hi) is None ==> extract_last(
            text,
            lo,
            hi,
            end,
            keep_end,
            start,
            keep_start,
        ) is None,
        last_chain(text, start, lo, hi) is None ==> extract_last(
            text,
            lo,
            hi,
            end,
            keep_end,
            start,
            keep_start,
        ) is None,
{
    if let Some(e) = last_chain(text, end, lo, hi) {
        lemma_last_chain_within(text, end, lo, hi);
        if last_chain(text, start, lo, e.start) is Some {
            lemma_last_chain_to_later(text, start, lo, e.start, hi);
        }
    }
}

/// Where the text between two marker groups can be extracted from the left
/// without the markers, it can be extracted with them; the span with them
/// reaches further on both sides, and the span without them begins where the
/// start match ends and ends where the end match begins.
pub proof fn lemma_kept_markers_surround_first(
    text: Seq<u8>,
    lo: int,
    hi: int,
    start: Seq<Seq<u8>>,
    end: Seq<Seq<u8>>,
)
    requires
        is_marker_group(start),
        is_marker_group(end),
        extract_first(text, lo, hi, start, Include::Exclude, end, Include::Exclude) is Some,
    ensures
        ({
            let inner = extract_first(text, lo, hi, start, Include::Exclude, end, Include::Exclude);
            let outer = extract_first(text, lo, hi, start, Include::Include, end, Include::Include);
            let s = first_chain(text, start, lo, hi);
            let e = first_chain(text, end, s->0.start, hi);
            &&& outer is Some && s is Some && e is Some
            &&& outer->0.start < inner->0.start <= inner->0.end < outer->0.end
            &&& outer->0.start == s->0.start && inner->0.start == s->0.end
            &&& inner->0.end == e->0.start && outer->0.end == e->0.end
        }),
{
    let s = first_chain(text, start, lo, hi)->0;
    lemma_first_chain_within(text, start, lo, hi);
    lemma_first_chain_within(text, end, s.start, hi);
}

/// Where the text between two marker groups can be extracted from the right,
/// it can be extracted with the markers and without them; the span with them
/// reaches further on both sides, and the span without them begins where the
/// start match ends and ends where the end match begins.
pub proof fn lemma_kept_markers_surround_last(
    text: Seq<u8>,
    lo: int,
    hi: int,
    end: Seq<Seq<u8>>,
    start: Seq<Seq<u8>>,
)
    requires
        is_marker_group(start),
        is_marker_group(end),
        extract_last(text, lo, hi, end, Include::Include, start, Include::Include) is Some,
    ensures
        ({
            let inner = extract_last(text, lo, hi, end, Include::Exclude, start, Include::Exclude);
            let outer = extract_last(text, lo, hi, end, Include::Include, start, Include::Include);
            let e = last_chain(text, end, lo, hi);
            let s = last_chain(text, start, lo, e->0.start);
            &&& inner is Some && s is Some && e is Some
            &&& outer->0.start < inner->0.start <= inner->0.end < outer->0.end
            &&& outer->0.start == s->0.start && inner->0.start == s->0.end
            &&& inner->0.end == e->0.start && outer->0.end == e->0.end
        }),
{
    let e = last_chain(text, end, lo, hi)->0;
    lemma_last_chain_within(text, end, lo, hi);
    lemma_last_chain_within(text, start, lo, e.start);
}

} // verus!
