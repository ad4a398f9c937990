use mpatch::{
    anonymize_command_args, apply_patch_to_content, can_patch_file, compare_patches, format_normalized_patch,
    map_io_error, parse_diffs, patch_file_content, check_path_within, patch_text, Anonymizer, ApplyOptions, ApplyResult, BatchResult, Hunk,
    HunkApplyError, HunkApplyStatus, HunkFailure, HunkLocation, MatchType, Patch, PatchError,
};

fn text(lines: &[&str]) -> String {
    let mut s = lines.join("\n");
    s.push('\n');
    s
}

fn hunk(lines: &[&str]) -> Hunk {
    Hunk { lines: lines.iter().map(|s| s.to_string()).collect(), old_start_line: Some(3), new_start_line: Some(4) }
}

#[test]
fn test_hunk_semantic_helpers() {
    let hunk = Hunk {
        lines: vec![
            " context 1".to_string(),
            "-removed 1".to_string(),
            "-removed 2".to_string(),
            "+added 1".to_string(),
            " context 2".to_string(),
        ],
        old_start_line: Some(1),
        new_start_line: Some(1),
    };
    assert_eq!(hunk.context_lines(), vec!["context 1", "context 2"]);
    assert_eq!(hunk.added_lines(), vec!["added 1"]);
    assert_eq!(hunk.removed_lines(), vec!["removed 1", "removed 2"]);
}

#[test]
fn test_apply_options_builder() {
    let options = ApplyOptions::builder().dry_run(true).fuzz_factor(990_000_000).build();
    assert!(options.dry_run);
    assert_eq!(options.fuzz_factor, 990_000_000);

    let default_options = ApplyOptions::builder().build();
    assert!(!default_options.dry_run);
    assert_eq!(default_options.fuzz_factor, 700_000_000);
}

#[test]
fn test_patch_from_texts() {
    let old_text = "hello\nworld\n";
    let new_text = "hello\nrust\n";
    let patch = Patch::from_texts("file.txt", old_text, new_text, 3).unwrap();
    assert_eq!(Some(patch.file_path.as_str()), Some("file.txt"));
    assert_eq!(patch.hunks.len(), 1);
    let hunk = &patch.hunks[0];
    assert_eq!(hunk.context_lines(), vec!["hello"]);
    assert_eq!(hunk.removed_lines(), vec!["world"]);
    assert_eq!(hunk.added_lines(), vec!["rust"]);
}

#[test]
fn test_patch_from_texts_no_change() {
    let old_text = "hello\nworld\n";
    let patch = Patch::from_texts("file.txt", old_text, old_text, 3).unwrap();
    assert!(patch.hunks.is_empty());
}

#[test]
fn from_texts_without_change_keeps_the_newline_state() {
    let patch = Patch::from_texts("f", "abc", "abc", 3).unwrap();
    assert!(patch.hunks.is_empty());
    assert!(!patch.ends_with_newline);
    assert_eq!(patch.file_path, "f");
    let empty = Patch::from_texts("f", "", "", 3).unwrap();
    assert!(empty.ends_with_newline);
}

#[test]
fn from_texts_hunk_hints_come_from_the_header() {
    let patch = Patch::from_texts("f.txt", "a\nb\nc\nd\ne\nf\ng\nh\n", "a\nb\nc\nd\ne\nf\ng\nH\n", 1).unwrap();
    assert_eq!(patch.hunks.len(), 1);
    assert_eq!(patch.hunks[0].old_start_line, Some(7));
    assert_eq!(patch.hunks[0].new_start_line, Some(7));
    assert_eq!(patch.hunks[0].lines, vec![" g".to_string(), "-h".to_string(), "+H".to_string()]);
}

#[test]
fn inverting_a_hunk_twice_gives_it_back() {
    let h = hunk(&[" a", "-b", "+c", " d"]);
    let inv = h.invert();
    assert_eq!(inv.lines, vec![" a", "+b", "-c", " d"]);
    assert_eq!(inv.old_start_line, Some(4));
    assert_eq!(inv.new_start_line, Some(3));
    let back = inv.invert();
    assert_eq!(back, h);
}

#[test]
fn inverting_swaps_match_and_replace_blocks() {
    let h = hunk(&[" a", "-b", "+c", " d"]);
    let inv = h.invert();
    assert_eq!(inv.get_match_block(), h.get_replace_block());
    assert_eq!(inv.get_replace_block(), h.get_match_block());
    assert_eq!(inv.has_changes(), h.has_changes());
}

#[test]
fn inverting_a_patch_twice_gives_back_its_hunks() {
    let p = Patch { file_path: "f.txt".to_string(), hunks: vec![hunk(&["-x", "+y"]), hunk(&[" k", "+z"])], ends_with_newline: false };
    let inv = p.invert();
    assert!(inv.ends_with_newline);
    let back = inv.invert();
    assert_eq!(back.file_path, p.file_path);
    assert_eq!(back.hunks, p.hunks);
}

#[test]
fn creation_and_deletion_tests() {
    let creation = Patch { file_path: "n".to_string(), hunks: vec![hunk(&["+a"])], ends_with_newline: true };
    assert!(creation.is_creation());
    assert!(!creation.is_deletion());
    let deletion = Patch { file_path: "n".to_string(), hunks: vec![hunk(&["-a"]), hunk(&["-b"])], ends_with_newline: true };
    assert!(deletion.is_deletion());
    assert!(!deletion.is_creation());
    let empty = Patch { file_path: "n".to_string(), hunks: vec![], ends_with_newline: true };
    assert!(!empty.is_creation());
    assert!(!empty.is_deletion());
}

#[test]
fn clean_report_has_no_failures() {
    let loc = HunkLocation { start_index: 0, length: 1 };
    let clean = ApplyResult {
        hunk_results: vec![
            HunkApplyStatus::Applied { location: loc, match_type: MatchType::Exact, replaced_lines: vec!["old".to_string()] },
            HunkApplyStatus::SkippedNoChanges,
        ],
    };
    assert!(clean.all_applied_cleanly());
    assert!(clean.failures().is_empty());

    let failed = ApplyResult {
        hunk_results: vec![
            HunkApplyStatus::Applied { location: loc, match_type: MatchType::Exact, replaced_lines: vec!["old".to_string()] },
            HunkApplyStatus::Failed(HunkApplyError::ContextNotFound),
            HunkApplyStatus::Failed(HunkApplyError::AmbiguousExactMatch(vec![1, 4])),
        ],
    };
    assert!(!failed.all_applied_cleanly());
    let failures = failed.failures();
    assert_eq!(failures.len(), 2);
    assert_eq!(failures[0], HunkFailure { hunk_index: 2, reason: HunkApplyError::ContextNotFound });
    assert_eq!(failures[1], HunkFailure { hunk_index: 3, reason: HunkApplyError::AmbiguousExactMatch(vec![1, 4]) });
}

#[test]
fn batch_with_a_hard_failure() {
    let ok = mpatch::PatchResult { report: ApplyResult { hunk_results: vec![] }, diff: None };
    let batch = BatchResult {
        results: vec![
            ("a.txt".to_string(), Ok(ok)),
            ("b.txt".to_string(), Err(PatchError::TargetNotFound("dir/b.txt".to_string()))),
            ("c.txt".to_string(), Err(PatchError::PathTraversal("../c.txt".to_string()))),
        ],
    };
    assert!(!batch.all_succeeded());
    let hard = batch.hard_failures();
    assert_eq!(hard.len(), 2);
    assert_eq!(hard[0].0, "b.txt");
    assert!(matches!(hard[0].1, PatchError::TargetNotFound(p) if p == "dir/b.txt"));
    assert_eq!(hard[1].0, "c.txt");
    assert!(matches!(hard[1].1, PatchError::PathTraversal(_)));
}

#[test]
fn io_errors_are_told_apart_by_kind() {
    let denied = map_io_error("p".to_string(), std::io::Error::from(std::io::ErrorKind::PermissionDenied));
    assert!(matches!(denied, PatchError::PermissionDenied { ref path } if path == "p"));
    let other = map_io_error("q".to_string(), std::io::Error::from(std::io::ErrorKind::NotFound));
    assert!(matches!(other, PatchError::Io { ref path, .. } if path == "q"));
}

#[test]
fn dry_run_diff_shows_the_change() {
    let patch = Patch { file_path: "t.txt".to_string(), hunks: vec![hunk(&[" one", "-two", "+2"])], ends_with_newline: true };
    let (res, write) = patch_file_content(&patch, Some("one\ntwo\n"), "t.txt".to_string(), &ApplyOptions { dry_run: true, fuzz_factor: 0 }).unwrap();
    assert!(write.is_none());
    assert_eq!(res.diff.unwrap(), "--- a\n+++ b\n@@ -1,2 +1,2 @@\n one\n-two\n+2\n");
}

#[test]
fn missing_target_error_names_the_display_path() {
    let patch = Patch { file_path: "t.txt".to_string(), hunks: vec![hunk(&["-two", "+2"])], ends_with_newline: true };
    let r = patch_file_content(&patch, None, "base/t.txt".to_string(), &ApplyOptions::default());
    assert!(matches!(r, Err(PatchError::TargetNotFound(p)) if p == "base/t.txt"));
}

#[test]
fn patchability_check() {
    let good = Patch { file_path: "t".to_string(), hunks: vec![hunk(&[" a", "-b"])], ends_with_newline: true };
    assert!(can_patch_file(&good, Some(10)));
    assert!(can_patch_file(&good, None));
    let bad = Patch { file_path: "t".to_string(), hunks: vec![hunk(&["", "-b"])], ends_with_newline: true };
    assert!(!can_patch_file(&bad, Some(1)));
    let unchanged = Patch { file_path: "t".to_string(), hunks: vec![hunk(&["", "x"])], ends_with_newline: true };
    assert!(can_patch_file(&unchanged, Some(1)));
    assert!(!can_patch_file(&unchanged, None));
    assert!(!can_patch_file(&good, Some(usize::MAX - 3)));
}

#[test]
fn failed_hunk_leaves_content_unchanged() {
    let patch = Patch { file_path: "t".to_string(), hunks: vec![hunk(&["-absent", "+x"])], ends_with_newline: false };
    let r = apply_patch_to_content(&patch, Some("keep\nme"), &ApplyOptions { dry_run: false, fuzz_factor: 0 });
    assert_eq!(r.new_content, "keep\nme");
    assert!(!r.report.all_applied_cleanly());
}

#[test]
fn missing_final_newline_is_rendered_without_one() {
    let patch = Patch { file_path: "t".to_string(), hunks: vec![hunk(&[" a", "+b"])], ends_with_newline: false };
    let r = apply_patch_to_content(&patch, Some("a\n"), &ApplyOptions::default());
    assert_eq!(r.new_content, "a\nb");
}

#[test]
fn location_describes_its_line() {
    assert_eq!(HunkLocation { start_index: 41, length: 2 }.describe(), "line 42");
}

#[test]
fn parsed_sections_for_equal_paths_merge() {
    let diff = text(&[
        "```diff",
        "--- a/dir//f.txt",
        "+++ b/dir//f.txt",
        "@@ -1 +1 @@",
        "-a",
        "+b",
        "--- a/dir/f.txt",
        "+++ b/dir/f.txt",
        "@@ -5 +5 @@",
        "-c",
        "+d",
        "\\ No newline at end of file",
        "```",
    ]);
    let patches = parse_diffs(&diff).unwrap();
    assert_eq!(patches.len(), 1);
    assert_eq!(patches[0].file_path, "dir//f.txt");
    assert_eq!(patches[0].hunks.len(), 2);
    assert!(!patches[0].ends_with_newline);
}

#[test]
fn anonymizer_drops_short_paths_and_replaces_longest_first() {
    let anon = Anonymizer::new(vec![
        ("/".to_string(), "<ROOT>".to_string()),
        ("/home/me".to_string(), "<HOME>".to_string()),
        ("/home/me/project".to_string(), "<TARGET_DIR>".to_string()),
    ]);
    assert_eq!(anon.anonymize("cd /home/me/project && ls /home/me/x /"), "cd <TARGET_DIR> && ls <HOME>/x /");
}

#[test]
fn anonymizer_adds_forward_slash_variants() {
    let anon = Anonymizer::new(vec![("C:\\Users\\me".to_string(), "<HOME>".to_string())]);
    assert_eq!(anon.anonymize("C:\\Users\\me\\a and C:/Users/me/b"), "<HOME>\\a and <HOME>/b");
}

#[test]
fn anonymizer_replaces_non_overlapping_occurrences() {
    let anon = Anonymizer::new(vec![("aaaa".to_string(), "X".to_string())]);
    assert_eq!(anon.anonymize("aaaaaaaaa"), "XXa");
    let none = Anonymizer::new(vec![]);
    assert_eq!(none.anonymize("unchanged"), "unchanged");
}

#[test]
fn command_args_use_placeholders() {
    let args = vec![
        ("in.md".to_string(), "/w/in.md".to_string()),
        ("-v".to_string(), "/w/-v".to_string()),
        (".".to_string(), "/w/".to_string()),
    ];
    let line = anonymize_command_args("mpatch", &args, Some("/w/in.md"), Some("/w"));
    assert_eq!(line, "mpatch <INPUT_FILE> -v <TARGET_DIR>");
}

#[test]
fn normalized_patch_cancels_and_sorts() {
    let p = Patch {
        file_path: "f".to_string(),
        hunks: vec![hunk(&[" ctx", "-b", "-a", "+a", "+c"]), hunk(&["-z", "+b2"])],
        ends_with_newline: false,
    };
    assert_eq!(format_normalized_patch(&p), "-b\n-z\n+b2\n+c\n\\ No newline at end of file");
}

#[test]
fn comparing_patches_ignores_hunk_order_and_context() {
    let a = Patch { file_path: "f".to_string(), hunks: vec![hunk(&[" x", "-1", "+2"]), hunk(&["-3", "+4"])], ends_with_newline: true };
    let b = Patch { file_path: "g".to_string(), hunks: vec![hunk(&["-3", "+4", " y"]), hunk(&["+2", "-1"])], ends_with_newline: true };
    assert!(compare_patches(&a, &b));
    let c = Patch { file_path: "f".to_string(), hunks: vec![hunk(&["-1", "+2"])], ends_with_newline: true };
    assert!(!compare_patches(&a, &c));
}

#[test]
fn inverted_hunk_undoes_an_exact_application() {
    let h = hunk(&[" a", "-b", "+B", " c"]);
    let mut lines = vec!["x".to_string(), "a".to_string(), "b".to_string(), "c".to_string(), "y".to_string()];
    let original = lines.clone();
    let options = ApplyOptions { dry_run: false, fuzz_factor: 0 };
    let status = mpatch::apply_hunk_to_lines(&h, &mut lines, &options);
    assert!(matches!(status, HunkApplyStatus::Applied { match_type: MatchType::Exact, .. }));
    assert_eq!(lines, vec!["x", "a", "B", "c", "y"]);
    let back = mpatch::apply_hunk_to_lines(&h.invert(), &mut lines, &options);
    assert!(matches!(back, HunkApplyStatus::Applied { .. }));
    assert_eq!(lines, original);
}

#[test]
fn blank_diff_text_gives_a_patch_without_hunks() {
    let patch = Patch::from_diff_text("f.txt", "a\nb", "  \n").unwrap();
    assert_eq!(patch.file_path, "f.txt");
    assert!(patch.hunks.is_empty());
    assert!(!patch.ends_with_newline);
}

#[test]
fn diff_text_is_read_as_the_patch() {
    let diff = "--- a/f.txt\n+++ b/f.txt\n@@ -1,2 +1,2 @@\n a\n-b\n+c\n";
    let patch = Patch::from_diff_text("f.txt", "a\nc\n", diff).unwrap();
    assert_eq!(patch.file_path, "f.txt");
    assert_eq!(patch.hunks.len(), 1);
    assert_eq!(patch.hunks[0].lines, vec![" a", "-b", "+c"]);
    assert_eq!(patch.hunks[0].old_start_line, Some(1));
    assert!(patch.ends_with_newline);
}

#[test]
fn path_outside_the_base_is_refused() {
    let r = check_path_within("../x", "/b/x", "/a");
    assert!(matches!(r, Err(PatchError::PathTraversal(ref p)) if p == "../x"));
    assert!(check_path_within("x", "/a/x", "/a").is_ok());
    assert!(check_path_within("x", "/ab/x", "/a").is_err());
}

#[test]
fn patch_is_written_as_a_unified_diff() {
    let patch = Patch {
        file_path: "src/m.rs".to_string(),
        hunks: vec![Hunk { lines: vec![" a".to_string(), "-b".to_string(), "+c".to_string()], old_start_line: Some(12), new_start_line: None }],
        ends_with_newline: false,
    };
    assert_eq!(
        patch_text(&patch),
        "--- a/src/m.rs\n+++ b/src/m.rs\n@@ -12 +0 @@\n a\n-b\n+c\n\\ No newline at end of file\n"
    );
}
