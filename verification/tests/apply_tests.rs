use mpatch::{
    apply_hunk_to_lines, apply_patch_to_lines, parse_diffs, patch_file_content, ApplyOptions, BatchResult,
    HunkApplier, HunkApplyError, HunkApplyStatus, Patch, PatchError, PatchResult,
};

fn text(lines: &[&str]) -> String {
    let mut s = lines.join("\n");
    s.push('\n');
    s
}

fn first_patch(diff: &str) -> Patch {
    parse_diffs(diff).unwrap().remove(0)
}

fn options(dry_run: bool, fuzz_factor: u32) -> ApplyOptions {
    ApplyOptions { dry_run, fuzz_factor }
}

/// Patches an existing file's content (or a missing file, `None`) and returns the result
/// with the content to write.
fn patch_content(patch: &Patch, original: Option<&str>, opts: ApplyOptions) -> Result<(PatchResult, Option<String>), PatchError> {
    patch_file_content(patch, original, format!("target/{}", patch.file_path), &opts)
}

#[test]
fn test_apply_simple_patch() {
    let diff = text(&["```diff", "--- a/test.txt", "+++ b/test.txt", "@@ -1,3 +1,3 @@", " line one", "-line two", "+line 2", " line three", "```"]);
    let patch = first_patch(&diff);
    let (result, written) = patch_content(&patch, Some("line one\nline two\nline three\n"), options(false, 0)).unwrap();
    assert!(result.report.all_applied_cleanly());
    assert!(result.diff.is_none());
    assert_eq!(written.unwrap(), "line one\nline 2\nline three\n");
}

#[test]
fn test_apply_multiple_hunks_in_one_file() {
    let original_content = "Header\n\nunchanged line 1\n\nMiddle\n\nunchanged line 2\n\nFooter\n";
    let diff = text(&[
        "```diff",
        "--- a/multi.txt",
        "+++ b/multi.txt",
        "@@ -1,3 +1,3 @@",
        "-Header",
        "+New Header",
        " ",
        " unchanged line 1",
        "@@ -7,3 +7,3 @@",
        " unchanged line 2",
        " ",
        "-Footer",
        "+New Footer",
        "```",
    ]);
    let patch = first_patch(&diff);
    let (result, written) = patch_content(&patch, Some(original_content), options(false, 0)).unwrap();
    assert!(result.report.all_applied_cleanly());
    assert!(result.diff.is_none());
    let expected_content = "New Header\n\nunchanged line 1\n\nMiddle\n\nunchanged line 2\n\nNew Footer\n";
    assert_eq!(written.unwrap(), expected_content);
}

#[test]
fn test_file_creation() {
    let diff = text(&["```diff", "--- a/new_file.txt", "+++ b/new_file.txt", "@@ -0,0 +1,2 @@", "+Hello", "+New World", "```"]);
    let patch = first_patch(&diff);
    let (result, written) = patch_content(&patch, None, options(false, 0)).unwrap();
    assert!(result.report.all_applied_cleanly());
    assert!(result.diff.is_none());
    assert_eq!(written.unwrap(), "Hello\nNew World\n");
}

#[test]
fn test_patch_to_empty_file() {
    let diff = text(&["```diff", "--- a/empty.txt", "+++ b/empty.txt", "@@ -0,0 +1,2 @@", "+line 1", "+line 2", "```"]);
    let patch = first_patch(&diff);
    let (result, written) = patch_content(&patch, Some(""), options(false, 0)).unwrap();
    assert!(result.report.all_applied_cleanly());
    assert!(result.diff.is_none());
    assert_eq!(written.unwrap(), "line 1\nline 2\n");
}

#[test]
fn test_file_creation_in_subdirectory() {
    let diff = text(&["```diff", "--- a/src/new_file.txt", "+++ b/src/new_file.txt", "@@ -0,0 +1 @@", "+hello from subdir", "```"]);
    let patch = first_patch(&diff);
    assert_eq!(patch.file_path, "src/new_file.txt");
    let (result, written) = patch_content(&patch, None, options(false, 0)).unwrap();
    assert!(result.report.all_applied_cleanly());
    assert!(result.diff.is_none());
    assert_eq!(written.unwrap(), "hello from subdir\n");
}

#[test]
fn test_file_deletion_by_removing_all_content() {
    let diff = text(&["```diff", "--- a/delete_me.txt", "+++ b/delete_me.txt", "@@ -1,2 +0,0 @@", "-line 1", "-line 2", "```"]);
    let patch = first_patch(&diff);
    let (result, written) = patch_content(&patch, Some("line 1\nline 2\n"), options(false, 0)).unwrap();
    assert!(result.report.all_applied_cleanly());
    assert!(result.diff.is_none());
    assert_eq!(written.unwrap(), "");
}

#[test]
fn test_no_newline_at_end_of_file() {
    let diff = text(&[
        "```diff",
        "--- a/test.txt",
        "+++ b/test.txt",
        "@@ -1 +1 @@",
        "-line one",
        "+line one no newline",
        "\\ No newline at end of file",
        "```",
    ]);
    let patch = first_patch(&diff);
    let (result, written) = patch_content(&patch, Some("line one\n"), options(false, 0)).unwrap();
    assert!(result.report.all_applied_cleanly());
    assert!(result.diff.is_none());
    assert_eq!(written.unwrap(), "line one no newline");
}

#[test]
fn test_fuzzy_match_succeeds() {
    let diff = text(&["```diff", "--- a/test.txt", "+++ b/test.txt", "@@ -1,3 +1,3 @@", " context one", "-line two", "+line 2", " context three", "```"]);
    let patch = first_patch(&diff);
    let (result, written) = patch_content(&patch, Some("context A\nline two\ncontext C\n"), options(false, 500_000_000)).unwrap();
    assert!(result.report.all_applied_cleanly());
    assert!(result.diff.is_none());
    assert_eq!(written.unwrap(), "context one\nline 2\ncontext three\n");
}

#[test]
fn test_fuzzy_match_with_internal_insertion() {
    let diff = text(&["```diff", "--- a/test.txt", "+++ b/test.txt", "@@ -1,3 +1,3 @@", " context A", "-line to change", "+line was changed", " context C", "```"]);
    let patch = first_patch(&diff);
    let (result, written) =
        patch_content(&patch, Some("context A\ninserted line\nline to change\ncontext C\n"), options(false, 700_000_000)).unwrap();
    assert!(result.report.all_applied_cleanly(), "Patch should apply by matching a slightly larger context block");
    assert_eq!(written.unwrap(), "context A\nline was changed\ncontext C\n");
}

#[test]
fn test_match_with_different_trailing_whitespace() {
    let diff = text(&["```diff", "--- a/whitespace.txt", "+++ b/whitespace.txt", "@@ -1,3 +1,3 @@", " line one", "-change me", "+changed", " line three", "```"]);
    let patch = first_patch(&diff);
    let (result, written) = patch_content(&patch, Some("line one  \nchange me\nline three\t\n"), options(false, 0)).unwrap();
    assert!(result.report.all_applied_cleanly(), "Patch should apply by ignoring trailing whitespace");
    assert_eq!(written.unwrap(), "line one\nchanged\nline three\n");
}

#[test]
fn test_ambiguous_match_fails() {
    let original = "header\nchange me\nfooter\n\nheader\nchange me\nfooter\n";
    let diff = text(&["```diff", "--- a/test.txt", "+++ b/test.txt", "@@ -3,3 +3,3 @@", " header", "-change me", "+changed", " footer", "```"]);
    let patch = first_patch(&diff);
    let (result, written) = patch_content(&patch, Some(original), options(false, 0)).unwrap();
    assert!(!result.report.all_applied_cleanly(), "Patch should have failed due to ambiguity");
    assert!(matches!(result.report.hunk_results[0], HunkApplyStatus::Failed(HunkApplyError::AmbiguousExactMatch(_))));
    assert_eq!(written.unwrap(), original);
}

#[test]
fn test_ambiguous_fuzzy_match_fails() {
    let original_content = "section one\ncommon line\nDIFFERENT A\n\nsection two\ncommon line\nDIFFERENT B\n";
    let diff = text(&["```diff", "--- a/test.txt", "+++ b/test.txt", "@@ -3,3 +3,3 @@", " section", "-common line", "+changed line", " DIFFERENT", "```"]);
    let patch = first_patch(&diff);
    let (result, written) = patch_content(&patch, Some(original_content), options(false, 500_000_000)).unwrap();
    assert!(!result.report.all_applied_cleanly(), "Patch should have failed due to fuzzy ambiguity");
    assert!(matches!(result.report.hunk_results[0], HunkApplyStatus::Failed(HunkApplyError::AmbiguousFuzzyMatch(_))));
    assert_eq!(written.unwrap(), original_content);
}

#[test]
fn test_dry_run() {
    let original_content = "line one\nline two\n";
    let diff = text(&["```diff", "--- a/test.txt", "+++ b/test.txt", "@@ -1,2 +1,2 @@", " line one", "-line two", "+line 2", "```"]);
    let patch = first_patch(&diff);
    let (result, written) = patch_content(&patch, Some(original_content), options(true, 0)).unwrap();
    assert!(result.report.all_applied_cleanly());
    assert!(result.diff.is_some());
    assert!(written.is_none());
}

#[test]
fn test_apply_to_nonexistent_file_fails_if_not_creation() {
    let diff = text(&["```diff", "--- a/missing.txt", "+++ b/missing.txt", "@@ -1 +1 @@", "-foo", "+bar", "```"]);
    let patch = first_patch(&diff);
    let result = patch_content(&patch, None, options(false, 0));
    assert!(matches!(result, Err(PatchError::TargetNotFound(_))));
}

#[test]
fn test_partial_apply_fails_on_second_hunk() {
    let original_content = "line 1\nline 2\nline 3\n\nline 5\nline 6\nline 7\n";
    let diff = text(&[
        "```diff",
        "--- a/partial.txt",
        "+++ b/partial.txt",
        "@@ -1,3 +1,3 @@",
        " line 1",
        "-line 2",
        "+line two",
        " line 3",
        "@@ -5,3 +5,3 @@",
        " line 5",
        "-line WRONG",
        "+line six",
        " line 7",
        "```",
    ]);
    let patch = first_patch(&diff);
    let (result, written) = patch_content(&patch, Some(original_content), options(false, 0)).unwrap();
    assert!(!result.report.all_applied_cleanly());
    let failures = result.report.failures();
    assert_eq!(failures.len(), 1);
    assert_eq!(failures[0].hunk_index, 2);
    assert!(matches!(failures[0].reason, HunkApplyError::ContextNotFound));
    assert_eq!(result.report.hunk_results.len(), 2);
    assert!(
        matches!(&result.report.hunk_results[0], HunkApplyStatus::Applied { replaced_lines, .. } if replaced_lines.as_slice() == ["line 1", "line 2", "line 3"])
    );
    assert!(matches!(result.report.hunk_results[1], HunkApplyStatus::Failed(HunkApplyError::ContextNotFound)));
    let expected_content_after_first_hunk = "line 1\nline two\nline 3\n\nline 5\nline 6\nline 7\n";
    assert_eq!(written.unwrap(), expected_content_after_first_hunk);
}

#[test]
fn test_creation_patch_fails_on_non_empty_file() {
    let diff = text(&["```diff", "--- a/exists.txt", "+++ b/exists.txt", "@@ -0,0 +1 @@", "+new content", "```"]);
    let patch = first_patch(&diff);
    let (result, written) = patch_content(&patch, Some("I already exist.\n"), options(false, 0)).unwrap();
    assert!(!result.report.all_applied_cleanly(), "Creation patch should fail on a non-empty file");
    assert_eq!(written.unwrap(), "I already exist.\n", "File should be unchanged");
}

#[test]
fn test_hunk_with_no_changes_is_skipped() {
    let original_content = "line 1\nline 2\nline 3\n";
    let diff = text(&["```diff", "--- a/test.txt", "+++ b/test.txt", "@@ -1,3 +1,3 @@", " line 1", " line 2", " line 3", "```"]);
    let patch = first_patch(&diff);
    assert!(!patch.hunks[0].has_changes());
    let (result, written) = patch_content(&patch, Some(original_content), options(false, 0)).unwrap();
    assert!(result.report.all_applied_cleanly(), "Patch with no changes should apply successfully");
    assert_eq!(written.unwrap(), original_content, "File should be unchanged");
}

#[test]
fn test_fuzzy_match_below_threshold_fails() {
    let original_content = "completely different content\nthat has no resemblance\nto the patch\n";
    let diff = text(&["```diff", "--- a/test.txt", "+++ b/test.txt", "@@ -1,3 +1,3 @@", " context one", "-line two", "+line 2", " context three", "```"]);
    let patch = first_patch(&diff);
    let (result, written) = patch_content(&patch, Some(original_content), options(false, 900_000_000)).unwrap();
    assert!(!result.report.all_applied_cleanly(), "Patch should fail to apply as no hunk meets the fuzzy threshold");
    assert!(matches!(
        result.report.hunk_results[0],
        HunkApplyStatus::Failed(HunkApplyError::FuzzyMatchBelowThreshold { location, .. }) if location.start_index == 0
    ));
    assert_eq!(written.unwrap(), original_content, "File should be unchanged");
}

#[test]
fn test_file_creation_with_spaces_in_path() {
    let diff = text(&["```diff", "--- a/a file with spaces.txt", "+++ b/a file with spaces.txt", "@@ -0,0 +1 @@", "+content", "```"]);
    let patch = first_patch(&diff);
    assert_eq!(patch.file_path, "a file with spaces.txt");
    let (result, written) = patch_content(&patch, None, options(false, 0)).unwrap();
    assert!(result.report.all_applied_cleanly(), "Patch should be applied successfully");
    assert!(result.diff.is_none());
    assert_eq!(written.unwrap(), "content\n");
}

#[test]
fn test_apply_hunk_to_file_beginning() {
    let diff = text(&["```diff", "--- a/test.txt", "+++ b/test.txt", "@@ -1,2 +1,3 @@", "+new first line", " line 1", " line 2", "```"]);
    let patch = first_patch(&diff);
    let (result, written) = patch_content(&patch, Some("line 1\nline 2\n"), options(false, 0)).unwrap();
    assert!(result.report.all_applied_cleanly());
    assert!(result.diff.is_none());
    assert_eq!(written.unwrap(), "new first line\nline 1\nline 2\n");
}

#[test]
fn test_apply_hunk_to_file_end() {
    let diff = text(&["```diff", "--- a/test.txt", "+++ b/test.txt", "@@ -1,2 +1,3 @@", " line 1", " line 2", "+new last line", "```"]);
    let patch = first_patch(&diff);
    let (result, written) = patch_content(&patch, Some("line 1\nline 2\n"), options(false, 0)).unwrap();
    assert!(result.report.all_applied_cleanly());
    assert!(result.diff.is_none());
    assert_eq!(written.unwrap(), "line 1\nline 2\nnew last line\n");
}

#[test]
fn test_apply_hunk_with_single_line_match_block() {
    let diff = text(&["```diff", "--- a/test.txt", "+++ b/test.txt", "@@ -1,1 +1,1 @@", "-unique_line", "+changed_line", "```"]);
    let patch = first_patch(&diff);
    assert_eq!(patch.hunks[0].get_match_block(), vec!["unique_line"]);
    let (result, written) = patch_content(&patch, Some("unique_line\n"), options(false, 0)).unwrap();
    assert!(result.report.all_applied_cleanly());
    assert!(result.diff.is_none());
    assert_eq!(written.unwrap(), "changed_line\n");
}

#[test]
fn test_file_creation_with_unicode_path() {
    let file_name = "文件.txt";
    let diff = text(&["```diff", &format!("--- a/{}", file_name), &format!("+++ b/{}", file_name), "@@ -0,0 +1 @@", "+内容", "```"]);
    let patch = first_patch(&diff);
    assert_eq!(patch.file_path.as_str(), file_name);
    let (result, written) = patch_content(&patch, None, options(false, 0)).unwrap();
    assert!(result.report.all_applied_cleanly(), "Patch should be applied successfully");
    assert!(result.diff.is_none());
    assert_eq!(written.unwrap(), "内容\n");
}

#[test]
fn test_apply_patch_where_file_is_prefix_of_context() {
    let diff = text(&["```diff", "--- a/test.txt", "+++ b/test.txt", "@@ -1,3 +1,3 @@", " line 1", " line 2", "-line 3", "+line three", "```"]);
    let patch = first_patch(&diff);
    let (result, written) = patch_content(&patch, Some("line 1\nline 2\n"), options(false, 700_000_000)).unwrap();
    assert!(result.report.all_applied_cleanly(), "Patch should apply via end-of-file fuzzy logic");
    assert_eq!(written.unwrap(), "line 1\nline 2\nline three\n");
}

#[test]
fn test_apply_patch_at_end_of_file_with_fuzz_and_missing_context() {
    let diff = text(&[
        "```diff",
        "--- a/test.rs",
        "+++ b/test.rs",
        "@@ -1,4 +1,5 @@",
        " fn main() {",
        "     println!(\"Hello\");",
        " }",
        "+    println!(\"World\");",
        " ",
        "```",
    ]);
    let patch = first_patch(&diff);
    let (result, written) = patch_content(&patch, Some("fn main() {\n    println!(\"Hello\");\n"), options(false, 700_000_000)).unwrap();
    assert!(result.report.all_applied_cleanly(), "Patch should apply via end-of-file fuzzy logic");
    let expected_content = "fn main() {\n    println!(\"Hello\");\n}\n    println!(\"World\");\n\n";
    assert_eq!(written.unwrap(), expected_content);
}

#[test]
fn test_fuzzy_match_with_missing_line_in_patch_context() {
    let diff = text(&["```diff", "--- a/test.txt", "+++ b/test.txt", "@@ -1,2 +1,2 @@", " line A", "-line C", "+line changed", "```"]);
    let patch = first_patch(&diff);
    let (result, written) = patch_content(&patch, Some("line A\nline B\nline C\n"), options(false, 700_000_000)).unwrap();
    assert!(result.report.all_applied_cleanly(), "Patch should apply successfully despite a missing line in its context");
    assert_eq!(written.unwrap(), "line A\nline changed\n");
}

#[test]
fn test_fuzzy_match_with_extra_line_in_patch_context() {
    let diff = text(&["```diff", "--- a/test.txt", "+++ b/test.txt", "@@ -1,3 +1,2 @@", " line A", " line B", "-line C", "+line changed", "```"]);
    let patch = first_patch(&diff);
    let (result, written) = patch_content(&patch, Some("line A\nline C\n"), options(false, 700_000_000)).unwrap();
    assert!(result.report.all_applied_cleanly(), "Patch should apply successfully despite an extra line in its context");
    assert_eq!(written.unwrap(), "line A\nline B\nline changed\n");
}

#[test]
fn test_ambiguous_match_resolved_by_line_number() {
    let original_content = text(&[
        "// Block 1",
        "fn duplicate() {",
        "    println!(\"hello\");",
        "}",
        "",
        "// Block 2",
        "fn duplicate() {",
        "    println!(\"hello\");",
        "}",
    ]);
    let diff = text(&[
        "```diff",
        "--- a/test.txt",
        "+++ b/test.txt",
        "@@ -7,3 +7,3 @@",
        " fn duplicate() {",
        "-    println!(\"hello\");",
        "+    println!(\"world\");",
        " }",
        "```",
    ]);
    let patch = first_patch(&diff);
    assert_eq!(patch.hunks[0].old_start_line, Some(7));
    let (result, written) = patch_content(&patch, Some(&original_content), options(false, 0)).unwrap();
    assert!(result.report.all_applied_cleanly(), "Patch should have applied successfully using line number hint");
    let expected_content = text(&[
        "// Block 1",
        "fn duplicate() {",
        "    println!(\"hello\");",
        "}",
        "",
        "// Block 2",
        "fn duplicate() {",
        "    println!(\"world\");",
        "}",
    ]);
    assert_eq!(written.unwrap(), expected_content);
}

#[test]
fn test_ambiguous_match_fails_with_equidistant_line_hint() {
    let original_content = "duplicate\n\nduplicate\n";
    let diff = text(&["```diff", "--- a/test.txt", "+++ b/test.txt", "@@ -2,1 +2,1 @@", "-duplicate", "+changed", "```"]);
    let patch = first_patch(&diff);
    assert_eq!(patch.hunks[0].old_start_line, Some(2));
    let (result, written) = patch_content(&patch, Some(original_content), options(false, 0)).unwrap();
    assert!(!result.report.all_applied_cleanly(), "Patch should fail due to unresolved ambiguity");
    assert_eq!(written.unwrap(), original_content, "File should be unchanged");
}

#[test]
fn test_patch_inversion() {
    let old_text = "line 1\nline 2\n";
    let new_text = "line 1\nline two\n";
    let patch = Patch::from_texts("file.txt", old_text, new_text, 3).unwrap();
    let inverted_patch = patch.invert();

    assert_eq!(inverted_patch.hunks.len(), 1);
    let inverted_hunk = &inverted_patch.hunks[0];
    assert_eq!(inverted_hunk.removed_lines(), vec!["line two"]);
    assert_eq!(inverted_hunk.added_lines(), vec!["line 2"]);

    let (_, written) = patch_content(&patch, Some(old_text), ApplyOptions::default()).unwrap();
    let content_after_patch = written.unwrap();
    assert_eq!(content_after_patch, new_text);

    let (_, written) = patch_content(&inverted_patch, Some(&content_after_patch), ApplyOptions::default()).unwrap();
    assert_eq!(written.unwrap(), old_text);
}

#[test]
fn test_apply_patches_to_dir() {
    let diff = text(&[
        "```diff",
        "--- a/file1.txt",
        "+++ b/file1.txt",
        "@@ -1 +1 @@",
        "-foo",
        "+bar",
        "--- a/file2.txt",
        "+++ b/file2.txt",
        "@@ -1 +1 @@",
        "-baz",
        "+qux",
        "```",
    ]);
    let patches = parse_diffs(&diff).unwrap();
    assert_eq!(patches.len(), 2);
    let contents = ["foo\n", "baz\n"];
    let mut results = Vec::new();
    let mut written = Vec::new();
    for (patch, content) in patches.iter().zip(contents.iter()) {
        let r = patch_content(patch, Some(content), ApplyOptions::default()).map(|(res, w)| {
            written.push(w.unwrap());
            res
        });
        results.push((patch.file_path.clone(), r));
    }
    let batch_result = BatchResult { results };
    assert!(batch_result.all_succeeded());
    assert!(batch_result.hard_failures().is_empty());
    assert_eq!(batch_result.results.len(), 2);
    assert_eq!(written[0], "bar\n");
    assert_eq!(written[1], "qux\n");
}

#[test]
fn test_apply_patch_to_lines() {
    let original_lines = vec!["Hello, world!"];
    let diff_str = ["```diff", "--- a/hello.txt", "+++ b/hello.txt", "@@ -1 +1 @@", "-Hello, world!", "+Hello, mpatch!", "```"].join("\n");
    let patches = parse_diffs(&diff_str).unwrap();
    let patch = &patches[0];
    let options = ApplyOptions { dry_run: false, fuzz_factor: 0 };
    let result = apply_patch_to_lines(patch, Some(original_lines.as_slice()), &options);
    assert_eq!(result.new_content, "Hello, mpatch!\n");
    assert!(result.report.all_applied_cleanly());
}

#[test]
fn test_apply_hunk_to_lines_in_place() {
    let mut original_lines = vec!["line 1".to_string(), "line two".to_string(), "line 3".to_string()];
    let diff = text(&["```diff", "--- a/file.txt", "+++ b/file.txt", "@@ -1,3 +1,3 @@", " line 1", "-line two", "+line 2", " line 3", "```"]);
    let patches = parse_diffs(&diff).unwrap();
    let hunk = &patches[0].hunks[0];
    let options = ApplyOptions { fuzz_factor: 0, ..Default::default() };

    let status = apply_hunk_to_lines(hunk, &mut original_lines, &options);
    assert!(
        matches!(status, HunkApplyStatus::Applied { replaced_lines, .. } if replaced_lines.as_slice() == ["line 1", "line two", "line 3"])
    );
    assert_eq!(original_lines, vec!["line 1", "line 2", "line 3"]);

    let mut failing_lines = vec!["completely".to_string(), "different".to_string()];
    let fail_status = apply_hunk_to_lines(hunk, &mut failing_lines, &options);
    assert!(matches!(fail_status, HunkApplyStatus::Failed(HunkApplyError::ContextNotFound)));
    assert_eq!(failing_lines, vec!["completely", "different"]);
}

#[test]
fn test_hunk_applier_iterator() {
    let original_content = "line 1\nline 2\nline 3\n\nline 5\nline 6\nline 7\n";
    let original_lines: Vec<_> = original_content.lines().collect();
    let diff = text(&[
        "```diff",
        "--- a/partial.txt",
        "+++ b/partial.txt",
        "@@ -1,3 +1,3 @@",
        " line 1",
        "-line 2",
        "+line two",
        " line 3",
        "@@ -5,3 +5,3 @@",
        " line 5",
        "-line WRONG",
        "+line six",
        " line 7",
        "```",
    ]);
    let patch = first_patch(&diff);
    let options = ApplyOptions { dry_run: false, fuzz_factor: 0 };
    let mut applier = HunkApplier::new(&patch, Some(original_lines.as_slice()), &options);

    let status1 = applier.next().unwrap();
    assert!(
        matches!(status1, HunkApplyStatus::Applied { replaced_lines, .. } if replaced_lines.as_slice() == ["line 1", "line 2", "line 3"])
    );
    assert_eq!(applier.current_lines(), &["line 1", "line two", "line 3", "", "line 5", "line 6", "line 7"]);

    let status2 = applier.next().unwrap();
    assert!(matches!(status2, HunkApplyStatus::Failed(HunkApplyError::ContextNotFound)));
    assert_eq!(applier.current_lines(), &["line 1", "line two", "line 3", "", "line 5", "line 6", "line 7"]);

    assert!(applier.next().is_none());

    let new_content = applier.into_content();
    let expected_content = "line 1\nline two\nline 3\n\nline 5\nline 6\nline 7\n";
    assert_eq!(new_content, expected_content);
}
