use string_search::{Include, StringSearch};

const TEXT: &str = "b3m4xins1ekp285q0tzdljv7gro9hcwfuay6b3m4xins1ekp285q0tzdljv7gro9hcwfuay6";

#[test]
fn test_index_of() {
    let text = "b3m4xins1ekp285q0tzdljv7gro9hcwfuay6b3m4xins1ekp285q0tzdljv7gro9hcwfuay6";
    let result = text.index_of(&(0..text.len()), "ins");
    let result_range = Some(5..8);
    assert_eq!(result, result_range);
}

#[test]
fn test_index_of_reverse() {
    let text = "b3m4xins1ekp285q0tzdljv7gro9hcwfuay6b3m4xins1ekp285q0tzdljv7gro9hcwfuay6";
    let result = text.index_of_reverse(&(0..text.len()), "ins");
    let result_range = Some(41..44);
    assert_eq!(result, result_range);
}

#[test]
fn test_index_of_nth() {
    let text = "b3m4xins1ekp285q0tzdljv7gro9hcwfuay6b3m4xins1ekp285q0tzdljv7gro9hcwfuay6";
    let result = text.index_of_nth(&(0..text.len()), "p285q", 2);
    let result_range = Some(47..52);
    assert_eq!(result, result_range);
}

#[test]
fn test_index_of_nth_reverse() {
    let text = "b3m4xins1ekp285q0tzdljv7gro9hcwfuay6b3m4xins1ekp285q0tzdljv7gro9hcwfuay6";
    let result = text.index_of_nth_reverse(&(0..text.len()), "p285q", 2);
    let result_range = Some(11..16);
    assert_eq!(result, result_range);
}

#[test]
fn test_none_index_of() {
    let text = "b3m4xins1ekp285q0tzdljv7gro9hcwfuay6b3m4xins1ekp285q0tzdljv7gro9hcwfuay6";
    let result = text.index_of(&(0..text.len()), "text not in string");
    assert!(result.is_none());
}

#[test]
fn test_index_of_sequence() {
    let text = "b3m4xins1ekp285q0tzdljv7gro9hcwfuay6b3m4xins1ekp285q0tzdljv7gro9hcwfuay6";
    let result = text.index_of_sequence(&(0..text.len()), &vec!["ins", "b3m4x"]);
    let result_range = Some(36..41);
    assert_eq!(result, result_range);
}

#[test]
fn test_index_of_sequence_reverse() {
    let text = "b3m4xins1ekp285q0tzdljv7gro9hcwfuay6b3m4xins1ekp285q0tzdljv7gro9hcwfuay6";
    let result = text.index_of_sequence_reverse(&(0..text.len()), &vec!["jv7", "gro9"]);
    let result_range = Some(24..28);
    assert_eq!(result, result_range);
}

#[test]
fn test_none_index_of_sequence() {
    let text = "b3m4xins1ekp285q0tzdljv7gro9hcwfuay6b3m4xins1ekp285q0tzdljv7gro9hcwfuay6";
    let result = text.index_of_sequence(&(0..text.len()), &vec!["text not in string", "b3m4x"]);
    assert!(result.is_none());
}

#[test]
fn test_str_search() {
    let text = "b3m4xins1ekp285q0tzdljv7gro9hcwfuay6b3m4xins1ekp285q0tzdljv7gro9hcwfuay6";
    let result = text
        .str_search(
            &(0..text.len()),
            &vec!["ins", "b3m4x"],
            Include::Exclude,
            &vec!["q0t", "jv7"],
            Include::Exclude,
        )
        .unwrap();
    let result_range = 41..57;
    assert_eq!(result.range, result_range);
    assert_eq!(result.output, "ins1ekp285q0tzdl");
}

#[test]
fn test_str_search_include() {
    let text = "b3m4xins1ekp285q0tzdljv7gro9hcwfuay6b3m4xins1ekp285q0tzdljv7gro9hcwfuay6";
    let result = text
        .str_search(
            &(0..text.len()),
            &vec!["ins", "b3m4x"],
            Include::Include,
            &vec!["q0t", "jv7"],
            Include::Include,
        )
        .unwrap();
    let result_range = 36..60;
    assert_eq!(result.range, result_range);
    assert_eq!(result.output, "b3m4xins1ekp285q0tzdljv7");
}

#[test]
fn test_str_search_reverse() {
    let text = "b3m4xins1ekp285q0tzdljv7gro9hcwfuay6b3m4xins1ekp285q0tzdljv7gro9hcwfuay6";
    let result = text
        .str_search_reverse(
            &(0..text.len()),
            &vec!["jv7", "gro9"],
            Include::Exclude,
            &vec!["ekp2", "4xin"],
            Include::Exclude,
        )
        .unwrap();
    let result_range = 7..24;
    assert_eq!(result.range, result_range);
    assert_eq!(result.output, "s1ekp285q0tzdljv7");
}

#[test]
fn test_str_search_reverse_include() {
    let text = "b3m4xins1ekp285q0tzdljv7gro9hcwfuay6b3m4xins1ekp285q0tzdljv7gro9hcwfuay6";
    let result = text
        .str_search_reverse(
            &(0..text.len()),
            &vec!["jv7", "gro9"],
            Include::Include,
            &vec!["ekp2", "4xin"],
            Include::Include,
        )
        .unwrap();
    let result_range = 3..28;
    assert_eq!(result.range, result_range);
    assert_eq!(result.output, "4xins1ekp285q0tzdljv7gro9");
}

#[test]
fn test_none_str_search() {
    let text = "b3m4xins1ekp285q0tzdljv7gro9hcwfuay6b3m4xins1ekp285q0tzdljv7gro9hcwfuay6";
    let result = text.str_search(
        &(0..text.len()),
        &vec!["text not in string", "b3m4x"],
        Include::Exclude,
        &vec!["q0t", "jv7"],
        Include::Exclude,
    );
    assert!(result.is_none());
}

// One needle.

#[test]
fn index_of_counts_from_the_start_of_the_text() {
    assert_eq!(TEXT.index_of(&(6..72), "ins"), Some(41..44));
    assert_eq!(TEXT.index_of(&(5..72), "ins"), Some(5..8));
    assert_eq!(TEXT.index_of_reverse(&(0..43), "ins"), Some(5..8));
    assert_eq!(TEXT.index_of_reverse(&(0..44), "ins"), Some(41..44));
}

#[test]
fn index_of_wants_the_whole_needle_inside_the_window() {
    assert_eq!(TEXT.index_of(&(0..7), "ins"), None);
    assert_eq!(TEXT.index_of(&(0..8), "ins"), Some(5..8));
    assert_eq!(TEXT.index_of_reverse(&(42..72), "ins"), None);
    assert_eq!(TEXT.index_of(&(5..8), "ins"), Some(5..8));
    assert_eq!(TEXT.index_of_reverse(&(5..8), "ins"), Some(5..8));
}

#[test]
fn index_of_in_a_window_shorter_than_the_needle() {
    assert_eq!("abc".index_of(&(0..3), "abcd"), None);
    assert_eq!("abc".index_of_reverse(&(0..3), "abcd"), None);
    assert_eq!("abc".index_of(&(1..1), "b"), None);
    assert_eq!("".index_of(&(0..0), "a"), None);
    assert_eq!("".index_of_reverse(&(0..0), "a"), None);
}

#[test]
fn index_of_finds_the_needle_that_is_the_whole_text() {
    assert_eq!("abc".index_of(&(0..3), "abc"), Some(0..3));
    assert_eq!("abc".index_of_reverse(&(0..3), "abc"), Some(0..3));
}

#[test]
fn index_of_picks_the_leftmost_of_overlapping_occurrences() {
    assert_eq!("aaaa".index_of(&(0..4), "aa"), Some(0..2));
    assert_eq!("aaaa".index_of_reverse(&(0..4), "aa"), Some(2..4));
    assert_eq!("aaaa".index_of(&(1..4), "aa"), Some(1..3));
    assert_eq!("aaaa".index_of_reverse(&(0..3), "aa"), Some(1..3));
}

#[test]
fn index_of_after_a_partial_match() {
    assert_eq!("aab".index_of(&(0..3), "ab"), Some(1..3));
    assert_eq!("abab".index_of_reverse(&(0..4), "aba"), Some(0..3));
}

#[test]
fn index_of_counts_bytes_not_characters() {
    let text = "h\u{e9}llo w\u{f6}rld \u{1f600}!";
    assert_eq!(text.len(), 19);
    assert_eq!(text.index_of(&(0..text.len()), "\u{f6}"), Some(8..10));
    assert_eq!(text.index_of(&(0..text.len()), "llo"), Some(3..6));
    assert_eq!(text.index_of_reverse(&(0..text.len()), "l"), Some(11..12));
    assert_eq!(text.index_of(&(3..text.len()), "\u{1f600}"), Some(14..18));
    assert_eq!(text.index_of(&(0..text.len()), "!"), Some(18..19));
    assert_eq!(text.index_of(&(0..text.len()), "\u{e8}"), None);
}

#[test]
fn index_of_returns_the_same_result_each_time() {
    let first = TEXT.index_of(&(0..TEXT.len()), "q0t");
    let second = TEXT.index_of(&(0..TEXT.len()), "q0t");
    assert_eq!(first, Some(15..18));
    assert_eq!(first, second);
}

#[test]
fn a_needle_that_occurs_once_is_found_the_same_from_both_sides() {
    let once = "one two three";
    assert_eq!(once.index_of(&(0..once.len()), "two"), Some(4..7));
    assert_eq!(once.index_of_reverse(&(0..once.len()), "two"), Some(4..7));
    // Twice in the text, once in the window.
    assert_eq!(TEXT.index_of(&(0..36), "ins"), Some(5..8));
    assert_eq!(TEXT.index_of_reverse(&(0..36), "ins"), Some(5..8));
}

// Chains.

#[test]
fn a_chain_of_one_needle_is_the_search_for_that_needle() {
    assert_eq!(TEXT.index_of_sequence(&(0..72), &vec!["ins"]), TEXT.index_of(&(0..72), "ins"));
    assert_eq!(TEXT.index_of_sequence(&(0..72), &vec!["ins"]), Some(5..8));
    assert_eq!(
        TEXT.index_of_sequence_reverse(&(0..72), &vec!["ins"]),
        TEXT.index_of_reverse(&(0..72), "ins")
    );
    assert_eq!(TEXT.index_of_sequence_reverse(&(0..72), &vec!["ins"]), Some(41..44));
}

#[test]
fn a_chain_finds_its_needles_in_order() {
    let text = "alpha beta";
    assert_eq!(text.index_of_sequence(&(0..10), &vec!["alpha", "beta"]), Some(6..10));
    assert_eq!(text.index_of_sequence(&(0..10), &vec!["beta", "alpha"]), None);
    assert_eq!(text.index_of_sequence_reverse(&(0..10), &vec!["beta", "alpha"]), Some(0..5));
    assert_eq!(text.index_of_sequence_reverse(&(0..10), &vec!["alpha", "beta"]), None);
}

#[test]
fn a_chain_does_not_reuse_the_bytes_of_the_match_before() {
    assert_eq!("abcbc".index_of_sequence(&(0..5), &vec!["abc", "bc"]), Some(3..5));
    assert_eq!("abc".index_of_sequence(&(0..3), &vec!["abc", "bc"]), None);
    assert_eq!("abab".index_of_sequence(&(0..4), &vec!["ab", "ab"]), Some(2..4));
    assert_eq!("aba".index_of_sequence(&(0..3), &vec!["ab", "ba"]), None);
    assert_eq!("bcabc".index_of_sequence_reverse(&(0..5), &vec!["abc", "bc"]), Some(0..2));
    assert_eq!("aba".index_of_sequence_reverse(&(0..3), &vec!["ba", "ab"]), None);
}

#[test]
fn a_chain_stays_inside_the_window() {
    assert_eq!(TEXT.index_of_sequence(&(0..40), &vec!["ins", "b3m4x"]), None);
    assert_eq!(TEXT.index_of_sequence(&(0..41), &vec!["ins", "b3m4x"]), Some(36..41));
    assert_eq!(TEXT.index_of_sequence(&(6..72), &vec!["ins", "b3m4x"]), None);
    assert_eq!(TEXT.index_of_sequence_reverse(&(25..72), &vec!["jv7", "gro9"]), None);
    assert_eq!(TEXT.index_of_sequence_reverse(&(24..72), &vec!["jv7", "gro9"]), Some(24..28));
}

#[test]
fn a_chain_fails_when_a_later_needle_is_missing() {
    assert_eq!(TEXT.index_of_sequence(&(0..72), &vec!["ins", "b3m4x", "b3m4x"]), None);
    assert_eq!(TEXT.index_of_sequence(&(0..72), &vec!["b3m4x", "nowhere"]), None);
    assert_eq!(TEXT.index_of_sequence_reverse(&(0..72), &vec!["gro9", "nowhere"]), None);
}

#[test]
fn a_chain_of_three() {
    assert_eq!(TEXT.index_of_sequence(&(0..72), &vec!["ins", "ins", "ay6"]), Some(69..72));
    assert_eq!(TEXT.index_of_sequence_reverse(&(0..72), &vec!["ay6", "ay6", "b3"]), Some(0..2));
}

// The n-th occurrence.

#[test]
fn nth_counts_from_one() {
    assert_eq!(TEXT.index_of_nth(&(0..72), "p285q", 1), Some(11..16));
    assert_eq!(TEXT.index_of_nth(&(0..72), "p285q", 1), TEXT.index_of(&(0..72), "p285q"));
    assert_eq!(TEXT.index_of_nth(&(0..72), "p285q", 2), Some(47..52));
    assert_eq!(TEXT.index_of_nth(&(0..72), "p285q", 3), None);
    assert_eq!(TEXT.index_of_nth_reverse(&(0..72), "p285q", 1), Some(47..52));
    assert_eq!(TEXT.index_of_nth_reverse(&(0..72), "p285q", 2), Some(11..16));
    assert_eq!(TEXT.index_of_nth_reverse(&(0..72), "p285q", 3), None);
}

#[test]
fn nth_of_separate_occurrences() {
    let text = "x--x--x--x";
    assert_eq!(text.index_of_nth(&(0..10), "x", 1), Some(0..1));
    assert_eq!(text.index_of_nth(&(0..10), "x", 2), Some(3..4));
    assert_eq!(text.index_of_nth(&(0..10), "x", 3), Some(6..7));
    assert_eq!(text.index_of_nth(&(0..10), "x", 4), Some(9..10));
    assert_eq!(text.index_of_nth(&(0..10), "x", 5), None);
    assert_eq!(text.index_of_nth(&(1..10), "x", 3), Some(9..10));
    assert_eq!(text.index_of_nth_reverse(&(0..10), "x", 1), Some(9..10));
    assert_eq!(text.index_of_nth_reverse(&(0..10), "x", 4), Some(0..1));
    assert_eq!(text.index_of_nth_reverse(&(0..9), "x", 3), Some(0..1));
}

#[test]
fn nth_skips_occurrences_that_overlap_the_one_before() {
    assert_eq!("aaaaa".index_of_nth(&(0..5), "aa", 1), Some(0..2));
    assert_eq!("aaaaa".index_of_nth(&(0..5), "aa", 2), Some(2..4));
    assert_eq!("aaaaa".index_of_nth(&(0..5), "aa", 3), None);
    assert_eq!("aaaaa".index_of_nth_reverse(&(0..5), "aa", 1), Some(3..5));
    assert_eq!("aaaaa".index_of_nth_reverse(&(0..5), "aa", 2), Some(1..3));
    assert_eq!("aaaaa".index_of_nth_reverse(&(0..5), "aa", 3), None);
}

#[test]
fn nth_with_a_count_far_beyond_the_text() {
    assert_eq!("abcabc".index_of_nth(&(0..6), "abc", usize::MAX), None);
    assert_eq!("abcabc".index_of_nth_reverse(&(0..6), "abc", usize::MAX), None);
}

// Extraction.

#[test]
fn extraction_with_one_side_kept() {
    let kept_start = TEXT
        .str_search(
            &(0..72),
            &vec!["ins", "b3m4x"],
            Include::Include,
            &vec!["q0t", "jv7"],
            Include::Exclude,
        )
        .unwrap();
    assert_eq!(kept_start.range, 36..57);
    assert_eq!(kept_start.output, "b3m4xins1ekp285q0tzdl");
    let kept_end = TEXT
        .str_search(
            &(0..72),
            &vec!["ins", "b3m4x"],
            Include::Exclude,
            &vec!["q0t", "jv7"],
            Include::Include,
        )
        .unwrap();
    assert_eq!(kept_end.range, 41..60);
    assert_eq!(kept_end.output, "ins1ekp285q0tzdljv7");
}

#[test]
fn extraction_from_the_right_with_one_side_kept() {
    let kept_end = TEXT
        .str_search_reverse(
            &(0..72),
            &vec!["jv7", "gro9"],
            Include::Include,
            &vec!["ekp2", "4xin"],
            Include::Exclude,
        )
        .unwrap();
    assert_eq!(kept_end.range, 7..28);
    assert_eq!(kept_end.output, "s1ekp285q0tzdljv7gro9");
    let kept_start = TEXT
        .str_search_reverse(
            &(0..72),
            &vec!["jv7", "gro9"],
            Include::Exclude,
            &vec!["ekp2", "4xin"],
            Include::Include,
        )
        .unwrap();
    assert_eq!(kept_start.range, 3..24);
    assert_eq!(kept_start.output, "4xins1ekp285q0tzdljv7");
}

#[test]
fn extraction_with_markers_kept_holds_the_one_without() {
    let text = "say <b>bold</b> now";
    let window = 0..text.len();
    let with = text
        .str_search(&window, &vec!["<b>"], Include::Include, &vec!["</b>"], Include::Include)
        .unwrap();
    let without = text
        .str_search(&window, &vec!["<b>"], Include::Exclude, &vec!["</b>"], Include::Exclude)
        .unwrap();
    assert_eq!(with.range, 4..15);
    assert_eq!(with.output, "<b>bold</b>");
    assert_eq!(without.range, 7..11);
    assert_eq!(without.output, "bold");
    assert!(with.range.start < without.range.start);
    assert!(without.range.end < with.range.end);
    // The inner edges of the two markers.
    assert_eq!(text.index_of(&window, "<b>").unwrap().end, without.range.start);
    assert_eq!(text.index_of(&window, "</b>").unwrap().start, without.range.end);
}

#[test]
fn extraction_fails_when_either_group_is_missing() {
    let text = "say <b>bold</b> now";
    let window = 0..text.len();
    assert!(text
        .str_search(&window, &vec!["<i>"], Include::Include, &vec!["</b>"], Include::Include)
        .is_none());
    assert!(text
        .str_search(&window, &vec!["<b>"], Include::Include, &vec!["</i>"], Include::Include)
        .is_none());
    assert!(text
        .str_search(&window, &vec!["<i>"], Include::Include, &vec!["</i>"], Include::Include)
        .is_none());
    let from_right = text.str_search_reverse(
        &window,
        &vec!["</i>"],
        Include::Include,
        &vec!["<b>"],
        Include::Include,
    );
    assert!(from_right.is_none());
    let from_right = text.str_search_reverse(
        &window,
        &vec!["</b>"],
        Include::Include,
        &vec!["<i>"],
        Include::Include,
    );
    assert!(from_right.is_none());
    // The end markers stand only before the start markers.
    assert!(text
        .str_search(&window, &vec!["</b>"], Include::Include, &vec!["<b>"], Include::Include)
        .is_none());
    let from_right = text.str_search_reverse(
        &window,
        &vec!["<b>"],
        Include::Include,
        &vec!["</b>"],
        Include::Include,
    );
    assert!(from_right.is_none());
}

#[test]
fn the_end_markers_may_match_inside_the_start_match() {
    let both = "abcd"
        .str_search(&(0..4), &vec!["abc"], Include::Include, &vec!["b"], Include::Include)
        .unwrap();
    assert_eq!(both.range, 0..2);
    assert_eq!(both.output, "ab");
    let same = "abcd"
        .str_search(&(0..4), &vec!["abc"], Include::Include, &vec!["abc"], Include::Include)
        .unwrap();
    assert_eq!(same.range, 0..3);
    assert_eq!(same.output, "abc");
    let empty = "abcd"
        .str_search(&(0..4), &vec!["abc"], Include::Include, &vec!["abc"], Include::Exclude)
        .unwrap();
    assert_eq!(empty.range, 0..0);
    assert_eq!(empty.output, "");
}

#[test]
fn extraction_fails_when_the_edges_cross() {
    assert!("abcd"
        .str_search(&(0..4), &vec!["abc"], Include::Exclude, &vec!["b"], Include::Include)
        .is_none());
    assert!("abcd"
        .str_search(&(0..4), &vec!["abc"], Include::Exclude, &vec!["b"], Include::Exclude)
        .is_none());
    assert!("abcd"
        .str_search(&(0..4), &vec!["abc"], Include::Exclude, &vec!["abc"], Include::Exclude)
        .is_none());
    let touching = "abcd"
        .str_search(&(0..4), &vec!["abc"], Include::Exclude, &vec!["abc"], Include::Include)
        .unwrap();
    assert_eq!(touching.range, 3..3);
    assert_eq!(touching.output, "");
}

#[test]
fn extraction_of_nothing_between_adjacent_markers() {
    let none = "[]".str_search(&(0..2), &vec!["["], Include::Exclude, &vec!["]"], Include::Exclude);
    let none = none.unwrap();
    assert_eq!(none.range, 1..1);
    assert_eq!(none.output, "");
    let back = "[]"
        .str_search_reverse(&(0..2), &vec!["]"], Include::Exclude, &vec!["["], Include::Exclude)
        .unwrap();
    assert_eq!(back.range, 1..1);
    assert_eq!(back.output, "");
}

#[test]
fn extraction_from_the_right_keeps_the_start_before_the_end() {
    // From the right the start markers are looked for before the end match only.
    assert!("abcd"
        .str_search_reverse(&(0..4), &vec!["b"], Include::Include, &vec!["abc"], Include::Include)
        .is_none());
    let found = "a-b-a-b"
        .str_search_reverse(&(0..7), &vec!["b"], Include::Exclude, &vec!["a"], Include::Exclude)
        .unwrap();
    assert_eq!(found.range, 5..6);
    assert_eq!(found.output, "-");
}

#[test]
fn extraction_inside_a_window() {
    let found = TEXT
        .str_search(&(6..72), &vec!["b3m4x"], Include::Exclude, &vec!["1ek"], Include::Exclude)
        .unwrap();
    assert_eq!(found.range, 41..44);
    assert_eq!(found.output, "ins");
    assert!(TEXT
        .str_search(&(6..46), &vec!["b3m4x"], Include::Exclude, &vec!["1ek"], Include::Exclude)
        .is_none());
    let back = TEXT
        .str_search_reverse(
            &(0..46),
            &vec!["1ek"],
            Include::Exclude,
            &vec!["b3m4x"],
            Include::Exclude,
        )
        .unwrap();
    assert_eq!(back.range, 5..8);
    assert_eq!(back.output, "ins");
}

#[test]
fn extraction_of_text_with_wide_characters() {
    let text = "\u{ab}gr\u{fc}\u{df}e\u{bb} und \u{ab}k\u{fc}sse\u{bb}";
    let window = 0..text.len();
    let first = text
        .str_search(&window, &vec!["\u{ab}"], Include::Exclude, &vec!["\u{bb}"], Include::Exclude)
        .unwrap();
    assert_eq!(first.range, 2..9);
    assert_eq!(first.output, "gr\u{fc}\u{df}e");
    let last = text
        .str_search_reverse(
            &window,
            &vec!["\u{bb}"],
            Include::Include,
            &vec!["\u{ab}"],
            Include::Include,
        )
        .unwrap();
    assert_eq!(last.range, 16..26);
    assert_eq!(last.output, "\u{ab}k\u{fc}sse\u{bb}");
}

#[test]
fn the_output_borrows_from_the_text() {
    let text = String::from("key=value;");
    let found = text
        .as_str()
        .str_search(&(0..text.len()), &vec!["="], Include::Exclude, &vec![";"], Include::Exclude)
        .unwrap();
    assert_eq!(found.output, &text[found.range.clone()]);
    assert_eq!(found.output, "value");
    assert_eq!(found.output.as_ptr(), text[4..].as_ptr());
    assert_eq!(format!("{:?}", found.range), "4..9");
}
