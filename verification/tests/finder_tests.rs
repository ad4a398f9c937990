use mpatch::{
    find_hunk_location, find_hunk_location_in_lines, parse_diffs, ApplyOptions, DefaultHunkFinder, Hunk,
    HunkApplyError, HunkFinder, HunkLocation, MatchType,
};

fn text(lines: &[&str]) -> String {
    let mut s = lines.join("\n");
    s.push('\n');
    s
}

fn setup_hunk(diff_content: &str) -> Hunk {
    parse_diffs(diff_content).unwrap().remove(0).hunks.remove(0)
}

fn change_line_two() -> String {
    text(&["```diff", "--- a/file.txt", "+++ b/file.txt", "@@ -1,3 +1,3 @@", " line 1", "-line two", "+line 2", " line 3", "```"])
}

fn change_between_contexts() -> String {
    text(&["```diff", "--- a/test.txt", "+++ b/test.txt", "@@ -1,3 +1,3 @@", " context A", "-line to change", "+line was changed", " context C", "```"])
}

#[test]
fn test_find_hunk_location_in_lines() {
    let original_lines = vec!["line 1", "line two", "line 3"];
    let patches = parse_diffs(&change_line_two()).unwrap();
    let hunk = &patches[0].hunks[0];
    let options = ApplyOptions { fuzz_factor: 0, ..Default::default() };

    let (location, match_type) = find_hunk_location_in_lines(hunk, &original_lines, &options).unwrap();
    assert_eq!(location, HunkLocation { start_index: 0, length: 3 });
    assert!(matches!(match_type, MatchType::Exact));

    let original_lines_string: Vec<String> = original_lines.iter().map(|s| s.to_string()).collect();
    let (location2, match_type2) = find_hunk_location_in_lines(hunk, &original_lines_string, &options).unwrap();
    assert_eq!(location, location2);
    assert_eq!(match_type, match_type2);
}

#[test]
fn test_find_hunk_location_exact_match() {
    let original_content = "line 1\nline two\nline 3\n";
    let patches = parse_diffs(&change_line_two()).unwrap();
    let hunk = &patches[0].hunks[0];
    let options = ApplyOptions { fuzz_factor: 0, ..Default::default() };
    let (location, match_type) = find_hunk_location(hunk, original_content, &options).unwrap();
    assert_eq!(location, HunkLocation { start_index: 0, length: 3 });
    assert!(matches!(match_type, MatchType::Exact));
}

#[test]
fn test_find_hunk_location_fuzzy_match() {
    let original_content = "context A\ninserted line\nline to change\ncontext C\n";
    let patches = parse_diffs(&change_between_contexts()).unwrap();
    let hunk = &patches[0].hunks[0];
    let options = ApplyOptions { fuzz_factor: 700_000_000, ..Default::default() };
    let (location, match_type) = find_hunk_location(hunk, original_content, &options).unwrap();
    assert_eq!(location, HunkLocation { start_index: 0, length: 4 });
    assert!(matches!(match_type, MatchType::Fuzzy { .. }));
}

#[test]
fn test_find_hunk_location_not_found() {
    let original_content = "completely different content\n";
    let diff = text(&["```diff", "--- a/file.txt", "+++ b/file.txt", "@@ -1,1 +1,1 @@", "-foo", "+bar", "```"]);
    let patches = parse_diffs(&diff).unwrap();
    let hunk = &patches[0].hunks[0];
    let options = ApplyOptions { fuzz_factor: 900_000_000, ..Default::default() };
    let result = find_hunk_location(hunk, original_content, &options);
    assert!(matches!(
        result,
        Err(HunkApplyError::FuzzyMatchBelowThreshold { location, .. }) if location.start_index == 0
    ));
}

#[test]
fn test_find_hunk_location_ambiguous() {
    let original_content = "duplicate\n\nduplicate\n";
    let diff = text(&["```diff", "--- a/test.txt", "+++ b/test.txt", "@@ -2,1 +2,1 @@", "-duplicate", "+changed", "```"]);
    let patches = parse_diffs(&diff).unwrap();
    let hunk = &patches[0].hunks[0];
    let options = ApplyOptions { fuzz_factor: 0, ..Default::default() };
    let result = find_hunk_location(hunk, original_content, &options);
    assert!(matches!(result, Err(HunkApplyError::AmbiguousExactMatch(_))));
}

#[test]
fn test_default_finder_exact_match() {
    let options = ApplyOptions { fuzz_factor: 0, ..Default::default() };
    let finder = DefaultHunkFinder::new(&options);
    let hunk = setup_hunk(&change_line_two());
    let target_lines = vec!["line 1", "line two", "line 3"];
    let (location, match_type) = finder.find_location(&hunk, &target_lines).unwrap();
    assert_eq!(location, HunkLocation { start_index: 0, length: 3 });
    assert!(matches!(match_type, MatchType::Exact));
}

#[test]
fn test_default_finder_fuzzy_match() {
    let options = ApplyOptions { fuzz_factor: 700_000_000, ..Default::default() };
    let finder = DefaultHunkFinder::new(&options);
    let hunk = setup_hunk(&change_between_contexts());
    let target_lines = vec!["context A", "inserted line", "line to change", "context C"];
    let (location, match_type) = finder.find_location(&hunk, &target_lines).unwrap();
    assert_eq!(location, HunkLocation { start_index: 0, length: 4 });
    assert!(matches!(match_type, MatchType::Fuzzy { .. }));
}

#[test]
fn test_default_finder_not_found() {
    let options = ApplyOptions { fuzz_factor: 900_000_000, ..Default::default() };
    let finder = DefaultHunkFinder::new(&options);
    let hunk = setup_hunk(&text(&["```diff", "--- a/file.txt", "+++ b/file.txt", "@@ -1,1 +1,1 @@", "-foo", "+bar", "```"]));
    let target_lines = vec!["completely", "different", "content"];
    let result = finder.find_location(&hunk, &target_lines);
    assert!(matches!(
        result,
        Err(HunkApplyError::FuzzyMatchBelowThreshold { location, .. }) if location.start_index == 0
    ));
}

#[test]
fn test_default_finder_ambiguous_match() {
    let options = ApplyOptions { fuzz_factor: 0, ..Default::default() };
    let finder = DefaultHunkFinder::new(&options);
    let hunk = setup_hunk(&text(&["```diff", "--- a/file.txt", "+++ b/file.txt", "@@ -2,1 +2,1 @@", "-duplicate", "+changed", "```"]));
    let target_lines = vec!["duplicate", "", "duplicate"];
    let result = finder.find_location(&hunk, &target_lines);
    assert!(matches!(result, Err(HunkApplyError::AmbiguousExactMatch(_))));
}

#[test]
fn unique_exact_occurrence_is_found_whatever_the_hint() {
    let hunk = Hunk { lines: vec!["-b".to_string()], old_start_line: Some(1000), new_start_line: None };
    let lines = vec!["a", "b", "c"];
    let options = ApplyOptions { fuzz_factor: 700_000_000, ..Default::default() };
    let (loc, mt) = find_hunk_location_in_lines(&hunk, &lines, &options).unwrap();
    assert_eq!(loc, HunkLocation { start_index: 1, length: 1 });
    assert_eq!(mt, MatchType::Exact);
}

#[test]
fn zero_fuzz_factor_never_matches_fuzzily() {
    let hunk = setup_hunk(&change_between_contexts());
    let options = ApplyOptions { fuzz_factor: 0, ..Default::default() };
    let result = find_hunk_location(&hunk, "context A\ninserted line\nline to change\ncontext C\n", &options);
    assert!(matches!(result, Err(HunkApplyError::ContextNotFound)));
}

#[test]
fn fuzzy_score_reaches_the_threshold() {
    let hunk = setup_hunk(&change_between_contexts());
    let options = ApplyOptions { fuzz_factor: 700_000_000, ..Default::default() };
    let (_, mt) = find_hunk_location(&hunk, "context A\ninserted line\nline to change\ncontext C\n", &options).unwrap();
    match mt {
        MatchType::Fuzzy { score } => assert!(score >= 700_000_000 && score <= 1_000_000_000),
        other => panic!("unexpected match type {:?}", other),
    }
}

#[test]
fn whitespace_insensitive_match_is_reported_as_such() {
    let hunk = setup_hunk(&change_line_two());
    let options = ApplyOptions { fuzz_factor: 0, ..Default::default() };
    let (loc, mt) = find_hunk_location(&hunk, "x\nline 1 \nline two\t\nline 3\n", &options).unwrap();
    assert_eq!(loc, HunkLocation { start_index: 1, length: 3 });
    assert_eq!(mt, MatchType::ExactIgnoringWhitespace);
}

#[test]
fn creation_hunk_matches_only_an_empty_target() {
    let hunk = Hunk { lines: vec!["+new".to_string()], old_start_line: Some(0), new_start_line: Some(1) };
    let options = ApplyOptions::default();
    let empty: Vec<&str> = Vec::new();
    let (loc, mt) = find_hunk_location_in_lines(&hunk, &empty, &options).unwrap();
    assert_eq!(loc, HunkLocation { start_index: 0, length: 0 });
    assert_eq!(mt, MatchType::Exact);
    assert!(matches!(find_hunk_location_in_lines(&hunk, &["x"], &options), Err(HunkApplyError::ContextNotFound)));
}

#[test]
fn nearest_exact_match_to_the_hint_wins() {
    let hunk = Hunk { lines: vec!["-dup".to_string(), "+one".to_string()], old_start_line: Some(5), new_start_line: None };
    let lines = vec!["dup", "x", "x", "x", "dup"];
    let options = ApplyOptions { fuzz_factor: 0, ..Default::default() };
    let (loc, _) = find_hunk_location_in_lines(&hunk, &lines, &options).unwrap();
    assert_eq!(loc.start_index, 4);
}

#[test]
fn window_score_blends_and_penalizes() {
    // Six tenths of the line similarity plus four tenths of the word similarity, less two
    // tenths of the relative size difference.
    assert_eq!(mpatch::finder::score_window(1_000_000_000, 500_000_000, 4, 3), (750_000_000, 800_000_000));
    assert_eq!(mpatch::finder::score_window(600_000_000, 600_000_000, 3, 3), (600_000_000, 600_000_000));
    assert_eq!(mpatch::finder::score_window(0, 0, 1, 5), (-160_000_000, 0));
}

#[test]
fn short_target_is_matched_whole() {
    let hunk = Hunk {
        lines: vec![" line 1".to_string(), " line 2".to_string(), "-line 3".to_string(), "+line three".to_string()],
        old_start_line: Some(1),
        new_start_line: Some(1),
    };
    let options = ApplyOptions { fuzz_factor: 700_000_000, ..Default::default() };
    let (loc, mt) = find_hunk_location(&hunk, "line 1\nline 2\n", &options).unwrap();
    assert_eq!(loc, HunkLocation { start_index: 0, length: 2 });
    assert!(matches!(mt, MatchType::Fuzzy { score } if score >= 700_000_000));
}
