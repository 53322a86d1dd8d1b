use json_paths::search::find_all_occurrences;
use json_paths::search::find_occurrence_to_highlight;

#[test]
fn test_find_all_occurrences_case_sensitive() {
    let text = "hello world hello";
    let pattern = "hello";
    let occurrences = find_all_occurrences(text, pattern, true);
    assert_eq!(occurrences, vec![(0, 5), (12, 17)]);
}

#[test]
fn test_find_all_occurrences_case_insensitive() {
    let text = "Hello world HELLO";
    let pattern = "hello";
    let occurrences = find_all_occurrences(text, pattern, false);
    assert!(occurrences.len() >= 1);
    assert_eq!(occurrences[0], (0, 5));
    assert_eq!(&text[occurrences[0].0..occurrences[0].1], "Hello");
}

#[test]
fn test_find_all_occurrences_empty_pattern() {
    let text = "hello world";
    let pattern = "";
    let occurrences = find_all_occurrences(text, pattern, true);
    assert_eq!(occurrences, vec![]);
}

#[test]
fn test_find_all_occurrences_no_match() {
    let text = "hello world";
    let pattern = "xyz";
    let occurrences = find_all_occurrences(text, pattern, true);
    assert_eq!(occurrences, vec![]);
}

#[test]
fn test_find_occurrence_to_highlight_single_match() {
    let matches = vec![(0, false)];
    let formatted_value = "hello world";
    let search_text = "hello";
    let result = find_occurrence_to_highlight(&matches, 0, formatted_value, search_text, true);
    assert_eq!(result, Some((0, 5)));
}

#[test]
fn test_find_occurrence_to_highlight_multiple_matches() {
    let matches = vec![(0, false), (1, false)];
    let formatted_value = "hello world hello";
    let search_text = "hello";

    let result1 = find_occurrence_to_highlight(&matches, 0, formatted_value, search_text, true);
    assert_eq!(result1, Some((0, 5)));

    let result2 = find_occurrence_to_highlight(&matches, 1, formatted_value, search_text, true);
    assert_eq!(result2, Some((12, 17)));
}

#[test]
fn test_find_occurrence_to_highlight_with_key_matches() {
    let matches = vec![(0, true), (1, false), (2, false)];
    let formatted_value = "hello world hello";
    let search_text = "hello";

    let result1 = find_occurrence_to_highlight(&matches, 1, formatted_value, search_text, true);
    assert_eq!(result1, Some((0, 5)));

    let result2 = find_occurrence_to_highlight(&matches, 2, formatted_value, search_text, true);
    assert_eq!(result2, Some((12, 17)));

    let result0 = find_occurrence_to_highlight(&matches, 0, formatted_value, search_text, true);
    assert_eq!(result0, None);
}

#[test]
fn test_find_occurrence_to_highlight_out_of_bounds() {
    let matches = vec![(0, false), (1, false)];
    let formatted_value = "hello world";
    let search_text = "hello";

    let result = find_occurrence_to_highlight(&matches, 5, formatted_value, search_text, true);
    assert_eq!(result, None);
}

#[test]
fn test_find_occurrence_to_highlight_occurrence_out_of_bounds() {
    let matches = vec![(0, false), (1, false), (2, false)];
    let formatted_value = "hello world";
    let search_text = "hello";

    let result = find_occurrence_to_highlight(&matches, 2, formatted_value, search_text, true);
    assert_eq!(result, None);
}

#[test]
fn test_find_occurrence_to_highlight_different_paths() {
    let path_a_matches = vec![(0, false), (1, false)];
    let path_a_value = "example one example two";
    let search_text = "example";

    let result_a0 =
        find_occurrence_to_highlight(&path_a_matches, 0, path_a_value, search_text, true);
    assert_eq!(result_a0, Some((0, 7)));

    let result_a1 =
        find_occurrence_to_highlight(&path_a_matches, 1, path_a_value, search_text, true);
    assert_eq!(result_a1, Some((12, 19)));

    let path_b_matches = vec![(2, false), (3, false)];
    let path_b_value = "example three example four";

    let result_b0 =
        find_occurrence_to_highlight(&path_b_matches, 2, path_b_value, search_text, true);
    assert_eq!(result_b0, Some((0, 7)));

    let result_b1 =
        find_occurrence_to_highlight(&path_b_matches, 3, path_b_value, search_text, true);
    assert_eq!(result_b1, Some((14, 21)));
}

#[test]
fn test_find_all_occurrences_returns_char_offsets_for_unicode() {
    // Contains a curly apostrophe (U+2019), which is multi-byte in UTF-8:
    // if offsets were computed in bytes, the matches would drift.
    let text = "you’ll example then example";
    let pattern = "example";

    let occ = find_all_occurrences(text, pattern, true);
    assert_eq!(occ, vec![(7, 14), (20, 27)]);
}

#[test]
fn test_find_all_occurrences_overlapping() {
    let occ = find_all_occurrences("aaa", "aa", true);
    assert_eq!(occ, vec![(0, 2), (1, 3)]);
}

#[test]
fn test_find_all_occurrences_empty_pattern_case_insensitive() {
    assert_eq!(find_all_occurrences("hello world", "", false), vec![]);
    assert_eq!(find_all_occurrences("", "", true), vec![]);
    assert_eq!(find_all_occurrences("", "", false), vec![]);
}

#[test]
fn test_find_all_occurrences_case_insensitive_all() {
    let occ = find_all_occurrences("Hello world HELLO", "hello", false);
    assert_eq!(occ, vec![(0, 5), (12, 17)]);
}

#[test]
fn test_find_all_occurrences_case_insensitive_unicode() {
    let occ = find_all_occurrences("you’ll Example then EXAMPLE", "example", false);
    assert_eq!(occ, vec![(7, 14), (20, 27)]);
}

#[test]
fn test_find_occurrence_to_highlight_empty_search_text() {
    let matches = vec![(0, false)];
    let result = find_occurrence_to_highlight(&matches, 0, "hello", "", true);
    assert_eq!(result, None);
}

#[test]
fn test_find_occurrence_to_highlight_empty_matches() {
    let matches: Vec<(usize, bool)> = vec![];
    let result = find_occurrence_to_highlight(&matches, 0, "hello", "hello", true);
    assert_eq!(result, None);
}
