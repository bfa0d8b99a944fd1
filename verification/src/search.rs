//! The search operations on a string.

use crate::alignment::{is_window, lemma_boundary_of_head, lemma_occurrence_is_aligned};
use crate::chain::{first_chain, is_marker_group, last_chain, repeated};
use crate::extraction::{extract_first, extract_last, Include};
use crate::occurrence::{
    first_match, is_first_within, is_last_within, last_match, lemma_agreement_is_occurrence,
    lemma_first_match_is, lemma_last_match_is, lemma_mismatch_excludes, occurs_at, occurs_within,
    Span,
};
use std::ops::Range;
use vstd::prelude::*;
use vstd::string::StringSliceAdditionalSpecFns;
use vstd::utf8::encode_utf8_valid_utf8;

verus! {

/// A range of offsets as a span.
pub open spec fn span_of(range: Range<usize>) -> Span {
    Span { start: range.start as int, end: range.end as int }
}

/// What a search has returned, as a span.
pub open spec fn found_span(found: Option<Range<usize>>) -> Option<Span> {
    match found {
        Some(range) => Some(span_of(range)),
        None => None,
    }
}

/// The bytes of each needle of a list.
pub open spec fn needles_of(find: Seq<&str>) -> Seq<Seq<u8>> {
    Seq::new(find.len(), |i: int| find[i].spec_bytes())
}

/// `found` lies inside `range`, and is a window of `text` itself.
pub open spec fn is_window_within(
    text: Seq<u8>,
    range: Range<usize>,
    found: Range<usize>,
) -> bool {
    &&& range.start <= found.start
    &&& found.end <= range.end
    &&& is_window(text, found.start as int, found.end as int)
}

/// A piece of a text, and where in the text it stands.
#[derive(Debug)]
pub struct SearchOutput<'a> {
    /// The piece, borrowed from the text.
    pub output: &'a str,
    /// The offsets of the piece in the text.
    pub range: Range<usize>,
}

impl<'a> SearchOutput<'a> {
    /// Where the piece stands, as a span.
    pub open spec fn span(&self) -> Span {
        span_of(self.range)
    }

    /// The piece is what `text` holds at `self.range`.
    pub open spec fn is_piece_of(&self, text: Seq<u8>) -> bool {
        &&& self.range.start <= self.range.end <= text.len()
        &&& self.output.spec_bytes() == text.subrange(
            self.range.start as int,
            self.range.end as int,
        )
    }
}

/// Search for literal needles inside a window of a text.
///
/// A window is a range of byte offsets into the text whose ends fall on
/// character boundaries; a needle has at least one byte; a list of needles
/// has at least one needle; a count is at least one. The trait asks this of
/// every caller. What an operation returns is stated where it is implemented:
/// every range counts its offsets from the start of the text, not of the
/// window, and is again a window.
pub trait StringSearch: StringSliceAdditionalSpecFns {
    /// The leftmost occurrence of `find` inside `range`.
    fn index_of(&self, range: &Range<usize>, find: &str) -> (found: Option<Range<usize>>)
        requires
            is_window(self.spec_bytes(), range.start as int, range.end as int),
            find.spec_bytes().len() > 0,
    ;

    /// The rightmost occurrence of `find` inside `range`.
    fn index_of_reverse(&self, range: &Range<usize>, find: &str) -> (found: Option<Range<usize>>)
        requires
            is_window(self.spec_bytes(), range.start as int, range.end as int),
            find.spec_bytes().len() > 0,
    ;

    /// The `n`-th occurrence of `find` inside `range`, counted from one and
    /// from the left, where each occurrence is looked for after the end of
    /// the one before it.
    fn index_of_nth(&self, range: &Range<usize>, find: &str, n: usize) -> (found: Option<
        Range<usize>,
    >)
        requires
            is_window(self.spec_bytes(), range.start as int, range.end as int),
            find.spec_bytes().len() > 0,
            n > 0,
    ;

    /// The `n`-th occurrence of `find` inside `range`, counted from one and
    /// from the right, where each occurrence is looked for before the start
    /// of the one before it.
    fn index_of_nth_reverse(&self, range: &Range<usize>, find: &str, n: usize) -> (found: Option<
        Range<usize>,
    >)
        requires
            is_window(self.spec_bytes(), range.start as int, range.end as int),
            find.spec_bytes().len() > 0,
            n > 0,
    ;

    /// The match of the last needle of `find`, where each needle is matched
    /// at its leftmost occurrence after the end of the match before it.
    fn index_of_sequence(&self, range: &Range<usize>, find: &Vec<&str>) -> (found: Option<
        Range<usize>,
    >)
        requires
            is_window(self.spec_bytes(), range.start as int, range.end as int),
            is_marker_group(needles_of(find@)),
    ;

    /// The match of the last needle of `find`, where each needle is matched
    /// at its rightmost occurrence before the start of the match before it.
    fn index_of_sequence_reverse(&self, range: &Range<usize>, find: &Vec<&str>) -> (found: Option<
        Range<usize>,
    >)
        requires
            is_window(self.spec_bytes(), range.start as int, range.end as int),
            is_marker_group(needles_of(find@)),
    ;

    /// The text between the match of the `start` markers and the match of the
    /// `end` markers, both chained from the left, with or without the two
    /// matched markers. The end markers are looked for from the start of the
    /// start match on. Nothing is returned where either group has no match,
    /// nor where the text would end before it begins.
    fn str_search(
        &self,
        range: &Range<usize>,
        start: &Vec<&str>,
        include_search_str_start: Include,
        end: &Vec<&str>,
        include_search_str_end: Include,
    ) -> (out: Option<SearchOutput>)
        requires
            is_window(self.spec_bytes(), range.start as int, range.end as int),
            is_marker_group(needles_of(start@)),
            is_marker_group(needles_of(end@)),
    ;

    /// The text between the match of the `start` markers and the match of the
    /// `end` markers, both chained from the right, with or without the two
    /// matched markers. The end markers are looked for first, and the start
    /// markers in what lies before their match. Nothing is returned where
    /// either group has no match.
    fn str_search_reverse(
        &self,
        range: &Range<usize>,
        end: &Vec<&str>,
        include_search_str_end: Include,
        start: &Vec<&str>,
        include_search_str_start: Include,
    ) -> (out: Option<SearchOutput>)
        requires
            is_window(self.spec_bytes(), range.start as int, range.end as int),
            is_marker_group(needles_of(end@)),
            is_marker_group(needles_of(start@)),
    ;
}

/// Whether `needle` stands in `text` at offset `at`.
fn matches_at(text: &[u8], needle: &[u8], at: usize) -> (same: bool)
    requires
        at + needle@.len() <= text@.len(),
    ensures
        same == occurs_at(text@, needle@, at as int),
{
    let len: usize = needle.len();
    let total: usize = text.len();
    let mut k: usize = 0;
    while k < len
        invariant
            k <= len,
            len == needle@.len(),
            total == text@.len(),
            at + len <= total,
            forall|j: int| 0 <= j < k ==> text@[at + j] == #[trigger] needle@[j],
        decreases len - k,
    {
        if text[at + k] != needle[k] {
            proof {
                lemma_mismatch_excludes(text@, needle@, at as int, k as int);
            }
            return false;
        }
        k += 1;
    }
    proof {
        lemma_agreement_is_occurrence(text@, needle@, at as int);
    }
    true
}

/// The leftmost offset in `[lo, hi)` at which `needle` stands with all its
/// bytes before `hi`.
fn leftmost(text: &[u8], needle: &[u8], lo: usize, hi: usize) -> (found: Option<usize>)
    requires
        lo <= hi <= text@.len(),
        needle@.len() > 0,
    ensures
        match found {
            Some(at) => is_first_within(text@, needle@, lo as int, hi as int, at as int),
            None => forall|at: int| !#[trigger] occurs_within(
                text@,
                needle@,
                lo as int,
                hi as int,
                at,
            ),
        },
{
    let len: usize = needle.len();
    if len > hi - lo {
        return None;
    }
    let last: usize = hi - len;
    let mut at: usize = lo;
    while at <= last
        invariant
            lo <= at <= last + 1,
            last + len == hi,
            hi <= text@.len(),
            len == needle@.len(),
            len > 0,
            forall|left: int| lo <= left < at ==> !#[trigger] occurs_at(text@, needle@, left),
        decreases last + 1 - at,
    {
        if matches_at(text, needle, at) {
            return Some(at);
        }
        at += 1;
    }
    None
}

/// The rightmost offset in `[lo, hi)` at which `needle` stands with all its
/// bytes before `hi`.
fn rightmost(text: &[u8], needle: &[u8], lo: usize, hi: usize) -> (found: Option<usize>)
    requires
        lo <= hi <= text@.len(),
        needle@.len() > 0,
    ensures
        match found {
            Some(at) => is_last_within(text@, needle@, lo as int, hi as int, at as int),
            None => forall|at: int| !#[trigger] occurs_within(
                text@,
                needle@,
                lo as int,
                hi as int,
                at,
            ),
        },
{
    let len: usize = needle.len();
    if len > hi - lo {
        return None;
    }
    let last: usize = hi - len;
    let mut at: usize = last;
    loop
        invariant
            lo <= at <= last,
            last + len == hi,
            hi <= text@.len(),
            len == needle@.len(),
            forall|right: int| at < right <= last ==> !#[trigger] occurs_at(text@, needle@, right),
        decreases at - lo,
    {
        if matches_at(text, needle, at) {
            return Some(at);
        }
        if at == lo {
            return None;
        }
        at -= 1;
    }
}

/// The piece of `text` that the window `[from, to)` covers.
fn piece<'a>(text: &'a str, from: usize, to: usize) -> (cut: &'a str)
    requires
        is_window(text.spec_bytes(), from as int, to as int),
    ensures
        cut.spec_bytes() == text.spec_bytes().subrange(from as int, to as int),
{
    proof {
        encode_utf8_valid_utf8(text@);
        lemma_boundary_of_head(text.spec_bytes(), from as int, to as int);
    }
    let (head, _) = text.split_at(to);
    let (_, cut) = head.split_at(from);
    assert(cut.spec_bytes() =~= text.spec_bytes().subrange(from as int, to as int));
    cut
}

impl StringSearch for str {
    fn index_of(&self, range: &Range<usize>, find: &str) -> (found: Option<Range<usize>>)
        ensures
            found_span(found) == first_match(
                self.spec_bytes(),
                find.spec_bytes(),
                range.start as int,
                range.end as int,
            ),
            found matches Some(at) ==> is_window_within(self.spec_bytes(), *range, at),
    {
        match leftmost(self.as_bytes(), find.as_bytes(), range.start, range.end) {
            Some(at) => {
                proof {
                    let (text, needle) = (self.spec_bytes(), find.spec_bytes());
                    encode_utf8_valid_utf8(self@);
                    encode_utf8_valid_utf8(find@);
                    lemma_occurrence_is_aligned(text, needle, at as int);
                    lemma_first_match_is(
                        text,
                        needle,
                        range.start as int,
                        range.end as int,
                        at as int,
                    );
                }
                Some(at..at + find.len())
            },
            None => None,
        }
    }

    fn index_of_reverse(&self, range: &Range<usize>, find: &str) -> (found: Option<Range<usize>>)
        ensures
            found_span(found) == last_match(
                self.spec_bytes(),
                find.spec_bytes(),
                range.start as int,
                range.end as int,
            ),
            found matches Some(at) ==> is_window_within(self.spec_bytes(), *range, at),
    {
        match rightmost(self.as_bytes(), find.as_bytes(), range.start, range.end) {
            Some(at) => {
                proof {
                    let (text, needle) = (self.spec_bytes(), find.spec_bytes());
                    encode_utf8_valid_utf8(self@);
                    encode_utf8_valid_utf8(find@);
                    lemma_occurrence_is_aligned(text, needle, at as int);
                    lemma_last_match_is(
                        text,
                        needle,
                        range.start as int,
                        range.end as int,
                        at as int,
                    );
                }
                Some(at..at + find.len())
            },
            None => None,
        }
    }

    fn index_of_nth(&self, range: &Range<usize>, find: &str, n: usize) -> (found: Option<
        Range<usize>,
    >)
        ensures
            found_span(found) == first_chain(
                self.spec_bytes(),
                repeated(find.spec_bytes(), n as nat),
                range.start as int,
                range.end as int,
            ),
            found matches Some(at) ==> is_window_within(self.spec_bytes(), *range, at),
    {
        let ghost text = self.spec_bytes();
        let ghost needles = repeated(find.spec_bytes(), n as nat);
        let mut found: Option<Range<usize>> = None;
        let mut from: usize = range.start;
        let mut done: usize = 0;
        assert(needles.skip(0) =~= needles);
        while done < n
            invariant
                done <= n,
                n > 0,
                text == self.spec_bytes(),
                needles == repeated(find.spec_bytes(), n as nat),
                find.spec_bytes().len() > 0,
                range.start <= from,
                is_window(text, from as int, range.end as int),
                done < n ==> first_chain(text, needles, range.start as int, range.end as int)
                    == first_chain(text, needles.skip(done as int), from as int, range.end as int),
                done == n ==> found_span(found) == first_chain(
                    text,
                    needles,
                    range.start as int,
                    range.end as int,
                ),
                found matches Some(at) ==> is_window_within(text, *range, at),
            decreases n - done,
        {
            proof {
                let rest = needles.skip(done as int);
                assert(rest[0] == find.spec_bytes());
                assert(rest.drop_first() =~= needles.skip(done + 1));
            }
            match self.index_of(&(from..range.end), find) {
                Some(at) => {
                    from = at.end;
                    found = Some(at);
                },
                None => {
                    return None;
                },
            }
            done += 1;
        }
        found
    }

    fn index_of_nth_reverse(&self, range: &Range<usize>, find: &str, n: usize) -> (found: Option<
        Range<usize>,
    >)
        ensures
            found_span(found) == last_chain(
                self.spec_bytes(),
                repeated(find.spec_bytes(), n as nat),
                range.start as int,
                range.end as int,
            ),
            found matches Some(at) ==> is_window_within(self.spec_bytes(), *range, at),
    {
        let ghost text = self.spec_bytes();
        let ghost needles = repeated(find.spec_bytes(), n as nat);
        let mut found: Option<Range<usize>> = None;
        let mut before: usize = range.end;
        let mut done: usize = 0;
        assert(needles.skip(0) =~= needles);
        while done < n
            invariant
                done <= n,
                n > 0,
                text == self.spec_bytes(),
                needles == repeated(find.spec_bytes(), n as nat),
                find.spec_bytes().len() > 0,
                before <= range.end,
                is_window(text, range.start as int, before as int),
                done < n ==> last_chain(text, needles, range.start as int, range.end as int)
                    == last_chain(
                    text,
                    needles.skip(done as int),
                    range.start as int,
                    before as int,
                ),
                done == n ==> found_span(found) == last_chain(
                    text,
                    needles,
                    range.start as int,
                    range.end as int,
                ),
                found matches Some(at) ==> is_window_within(text, *range, at),
            decreases n - done,
        {
            proof {
                let rest = needles.skip(done as int);
                assert(rest[0] == find.spec_bytes());
                assert(rest.drop_first() =~= needles.skip(done + 1));
            }
            match self.index_of_reverse(&(range.start..before), find) {
                Some(at) => {
                    before = at.start;
                    found = Some(at);
                },
                None => {
                    return None;
                },
            }
            done += 1;
        }
        found
    }

    fn index_of_sequence(&self, range: &Range<usize>, find: &Vec<&str>) -> (found: Option<
        Range<usize>,
    >)
        ensures
            found_span(found) == first_chain(
                self.spec_bytes(),
                needles_of(find@),
                range.start as int,
                range.end as int,
            ),
            found matches Some(at) ==> is_window_within(self.spec_bytes(), *range, at),
    {
        let ghost text = self.spec_bytes();
        let ghost needles = needles_of(find@);
        let mut found: Option<Range<usize>> = None;
        let mut from: usize = range.start;
        let mut done: usize = 0;
        assert(needles.skip(0) =~= needles);
        while done < find.len()
            invariant
                done <= find.len(),
                text == self.spec_bytes(),
                needles == needles_of(find@),
                is_marker_group(needles),
                range.start <= from,
                is_window(text, from as int, range.end as int),
                done < find.len() ==> first_chain(
                    text,
                    needles,
                    range.start as int,
                    range.end as int,
                ) == first_chain(text, needles.skip(done as int), from as int, range.end as int),
                done == find.len() ==> found_span(found) == first_chain(
                    text,
                    needles,
                    range.start as int,
                    range.end as int,
                ),
                found matches Some(at) ==> is_window_within(text, *range, at),
            decreases find.len() - done,
        {
            proof {
                let rest = needles.skip(done as int);
                assert(rest[0] == needles[done as int]);
                assert(rest.drop_first() =~= needles.skip(done + 1));
            }
            match self.index_of(&(from..range.end), find[done]) {
                Some(at) => {
                    from = at.end;
                    found = Some(at);
                },
                None => {
                    return None;
                },
            }
            done += 1;
        }
        found
    }

    fn index_of_sequence_reverse(&self, range: &Range<usize>, find: &Vec<&str>) -> (found: Option<
        Range<usize>,
    >)
        ensures
            found_span(found) == last_chain(
                self.spec_bytes(),
                needles_of(find@),
                range.start as int,
                range.end as int,
            ),
            found matches Some(at) ==> is_window_within(self.spec_bytes(), *range, at),
    {
        let ghost text = self.spec_bytes();
        let ghost needles = needles_of(find@);
        let mut found: Option<Range<usize>> = None;
        let mut before: usize = range.end;
        let mut done: usize = 0;
        assert(needles.skip(0) =~= needles);
        while done < find.len()
            invariant
                done <= find.len(),
                text == self.spec_bytes(),
                needles == needles_of(find@),
                is_marker_group(needles),
                before <= range.end,
                is_window(text, range.start as int, before as int),
                done < find.len() ==> last_chain(
                    text,
                    needles,
                    range.start as int,
                    range.end as int,
                ) == last_chain(text, needles.skip(done as int), range.start as int, before as int),
                done == find.len() ==> found_span(found) == last_chain(
                    text,
                    needles,
                    range.start as int,
                    range.end as int,
                ),
                found matches Some(at) ==> is_window_within(text, *range, at),
            decreases find.len() - done,
        {
            proof {
                let rest = needles.skip(done as int);
                assert(rest[0] == needles[done as int]);
                assert(rest.drop_first() =~= needles.skip(done + 1));
            }
            match self.index_of_reverse(&(range.start..before), find[done]) {
                Some(at) => {
                    before = at.start;
                    found = Some(at);
                },
                None => {
                    return None;
                },
            }
            done += 1;
        }
        found
    }

    fn str_search(
        &self,
        range: &Range<usize>,
        start: &Vec<&str>,
        include_search_str_start: Include,
        end: &Vec<&str>,
        include_search_str_end: Include,
    ) -> (out: Option<SearchOutput>)
        ensures
            out is Some <==> extract_first(
                self.spec_bytes(),
                range.start as int,
                range.end as int,
                needles_of(start@),
                include_search_str_start,
                needles_of(end@),
                include_search_str_end,
            ) is Some,
            out matches Some(piece) ==> {
                &&& Some(piece.span()) == extract_first(
                    self.spec_bytes(),
                    range.start as int,
                    range.end as int,
                    needles_of(start@),
                    include_search_str_start,
                    needles_of(end@),
                    include_search_str_end,
                )
                &&& piece.is_piece_of(self.spec_bytes())
                &&& is_window_within(self.spec_bytes(), *range, piece.range)
            },
    {
        let start_at = match self.index_of_sequence(range, start) {
            Some(at) => at,
            None => {
                return None;
            },
        };
        let end_at = match self.index_of_sequence(&(start_at.start..range.end), end) {
            Some(at) => at,
            None => {
                return None;
            },
        };
        let left = match include_search_str_start {
            Include::Include => start_at.start,
            Include::Exclude => start_at.end,
        };
        let right = match include_search_str_end {
            Include::Include => end_at.end,
            Include::Exclude => end_at.start,
        };
        if left > right {
            return None;
        }
        Some(SearchOutput { output: piece(self, left, right), range: left..right })
    }

    fn str_search_reverse(
        &self,
        range: &Range<usize>,
        end: &Vec<&str>,
        include_search_str_end: Include,
        start: &Vec<&str>,
        include_search_str_start: Include,
    ) -> (out: Option<SearchOutput>)
        ensures
            out is Some <==> extract_last(
                self.spec_bytes(),
                range.start as int,
                range.end as int,
                needles_of(end@),
                include_search_str_end,
                needles_of(start@),
                include_search_str_start,
            ) is Some,
            out matches Some(piece) ==> {
                &&& Some(piece.span()) == extract_last(
                    self.spec_bytes(),
                    range.start as int,
                    range.end as int,
                    needles_of(end@),
                    include_search_str_end,
                    needles_of(start@),
                    include_search_str_start,
                )
                &&& piece.is_piece_of(self.spec_bytes())
                &&& is_window_within(self.spec_bytes(), *range, piece.range)
            },
    {
        let end_at = match self.index_of_sequence_reverse(range, end) {
            Some(at) => at,
            None => {
                return None;
            },
        };
        let start_at = match self.index_of_sequence_reverse(&(range.start..end_at.start), start) {
            Some(at) => at,
            None => {
                return None;
            },
        };
        let left = match include_search_str_start {
            Include::Include => start_at.start,
            Include::Exclude => start_at.end,
        };
        let right = match include_search_str_end {
            Include::Include => end_at.end,
            Include::Exclude => end_at.start,
        };
        Some(SearchOutput { output: piece(self, left, right), range: left..right })
    }
}

} // verus!
