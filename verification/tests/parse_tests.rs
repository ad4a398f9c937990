use mpatch::{parse_diffs, ParseError};

fn text(lines: &[&str]) -> String {
    let mut s = lines.join("\n");
    s.push('\n');
    s
}

#[test]
fn test_parse_simple_diff() {
    let diff = text(&[
        "Some text before.",
        "```diff",
        "--- a/src/main.rs",
        "+++ b/src/main.rs",
        "@@ -1,5 +1,5 @@",
        " fn main() {",
        "-    println!(\"Hello, world!\");",
        "+    println!(\"Hello, mpatch!\");",
        " }",
        "```",
        "Some text after.",
    ]);
    let patches = parse_diffs(&diff).unwrap();
    assert_eq!(patches.len(), 1);
    let patch = &patches[0];
    assert_eq!(patch.file_path.as_str(), "src/main.rs");
    assert_eq!(patch.hunks.len(), 1);
    assert!(patch.ends_with_newline);
    let hunk = &patch.hunks[0];
    assert_eq!(hunk.lines.len(), 4);
    assert_eq!(hunk.get_match_block(), vec!["fn main() {", "    println!(\"Hello, world!\");", "}"]);
    assert_eq!(hunk.get_replace_block(), vec!["fn main() {", "    println!(\"Hello, mpatch!\");", "}"]);
}

#[test]
fn test_parse_patch_block_header() {
    let diff = text(&[
        "Some text before.",
        "```patch",
        "--- a/src/main.rs",
        "+++ b/src/main.rs",
        "@@ -1,5 +1,5 @@",
        " fn main() {",
        "-    println!(\"Hello, world!\");",
        "+    println!(\"Hello, mpatch!\");",
        " }",
        "```",
        "Some text after.",
    ]);
    let patches = parse_diffs(&diff).unwrap();
    assert_eq!(patches.len(), 1);
    let patch = &patches[0];
    assert_eq!(patch.file_path.as_str(), "src/main.rs");
    assert_eq!(patch.hunks.len(), 1);
    assert!(patch.ends_with_newline);
    let hunk = &patch.hunks[0];
    assert_eq!(hunk.lines.len(), 4);
    assert_eq!(hunk.get_match_block(), vec!["fn main() {", "    println!(\"Hello, world!\");", "}"]);
    assert_eq!(hunk.get_replace_block(), vec!["fn main() {", "    println!(\"Hello, mpatch!\");", "}"]);
}

#[test]
fn test_parse_multiple_diff_blocks() {
    let diff = text(&[
        "First change:",
        "```diff",
        "--- a/file1.txt",
        "+++ b/file1.txt",
        "@@ -1 +1 @@",
        "-foo",
        "+bar",
        "```",
        "",
        "Second change:",
        "```diff",
        "--- a/file2.txt",
        "+++ b/file2.txt",
        "@@ -1 +1 @@",
        "-baz",
        "+qux",
        "\\ No newline at end of file",
        "```",
    ]);
    let patches = parse_diffs(&diff).unwrap();
    assert_eq!(patches.len(), 2);

    assert_eq!(patches[0].file_path.as_str(), "file1.txt");
    assert_eq!(patches[0].hunks.len(), 1);
    assert_eq!(patches[0].hunks[0].get_replace_block(), vec!["bar"]);
    assert!(patches[0].ends_with_newline);

    assert_eq!(patches[1].file_path.as_str(), "file2.txt");
    assert_eq!(patches[1].hunks.len(), 1);
    assert_eq!(patches[1].hunks[0].get_replace_block(), vec!["qux"]);
    assert!(!patches[1].ends_with_newline);
}

#[test]
fn test_parse_multiple_files_in_one_block() {
    let diff = text(&[
        "```diff",
        "--- a/file1.txt",
        "+++ b/file1.txt",
        "@@ -1 +1 @@",
        "-foo",
        "+bar",
        "--- a/file2.txt",
        "+++ b/file2.txt",
        "@@ -1 +1 @@",
        "-baz",
        "+qux",
        "```",
    ]);
    let patches = parse_diffs(&diff).unwrap();
    assert_eq!(patches.len(), 2);

    assert_eq!(patches[0].file_path.as_str(), "file1.txt");
    assert_eq!(patches[0].hunks.len(), 1);
    assert_eq!(patches[0].hunks[0].get_replace_block(), vec!["bar"]);

    assert_eq!(patches[1].file_path.as_str(), "file2.txt");
    assert_eq!(patches[1].hunks.len(), 1);
    assert_eq!(patches[1].hunks[0].get_replace_block(), vec!["qux"]);
}

#[test]
fn test_parse_multiple_sections_for_same_file_in_one_block() {
    let diff = text(&[
        "```diff",
        "--- a/same_file.txt",
        "+++ b/same_file.txt",
        "@@ -1 +1 @@",
        "-hunk1",
        "+hunk one",
        "--- a/same_file.txt",
        "+++ b/same_file.txt",
        "@@ -10 +10 @@",
        "-hunk2",
        "+hunk two",
        "```",
    ]);
    let patches = parse_diffs(&diff).unwrap();
    assert_eq!(patches.len(), 1, "Should produce a single patch for the same file");

    assert_eq!(patches[0].file_path.as_str(), "same_file.txt");
    assert_eq!(patches[0].hunks.len(), 2, "Should contain two hunks");
    assert_eq!(patches[0].hunks[0].get_replace_block(), vec!["hunk one"]);
    assert_eq!(patches[0].hunks[1].get_replace_block(), vec!["hunk two"]);
}

#[test]
fn test_parse_file_creation_with_dev_null() {
    let diff = text(&[
        "```diff",
        "--- /dev/null",
        "+++ b/new_from_null.txt",
        "@@ -0,0 +1,2 @@",
        "+hello",
        "+world",
        "```",
    ]);
    let patches = parse_diffs(&diff).unwrap();
    assert_eq!(patches.len(), 1);
    let patch = &patches[0];
    assert_eq!(patch.file_path.as_str(), "new_from_null.txt");
    assert_eq!(patch.hunks.len(), 1);
    assert_eq!(patch.hunks[0].old_start_line, Some(0));
    assert_eq!(patch.hunks[0].get_replace_block(), vec!["hello", "world"]);
    assert!(patch.ends_with_newline);
}

#[test]
fn test_parse_file_creation_with_a_dev_null() {
    let diff = text(&[
        "```diff",
        "--- a/dev/null",
        "+++ b/another_new.txt",
        "@@ -0,0 +1 @@",
        "+content",
        "```",
    ]);
    let patches = parse_diffs(&diff).unwrap();
    assert_eq!(patches.len(), 1);
    let patch = &patches[0];
    assert_eq!(patch.file_path.as_str(), "another_new.txt");
    assert_eq!(patch.hunks.len(), 1);
    assert_eq!(patch.hunks[0].old_start_line, Some(0));
    assert_eq!(patch.hunks[0].get_replace_block(), vec!["content"]);
}

#[test]
fn test_parse_diff_without_ab_prefix() {
    let diff = text(&[
        "```diff",
        "--- path/to/file.txt",
        "+++ path/to/file.txt",
        "@@ -1 +1 @@",
        "-old",
        "+new",
        "```",
    ]);
    let patches = parse_diffs(&diff).unwrap();
    assert_eq!(patches.len(), 1);
    let patch = &patches[0];
    assert_eq!(patch.file_path.as_str(), "path/to/file.txt");
    assert_eq!(patch.hunks.len(), 1);
    assert_eq!(patch.hunks[0].old_start_line, Some(1));
    assert_eq!(patch.hunks[0].get_replace_block(), vec!["new"]);
}

#[test]
fn test_parse_file_creation_without_b_prefix() {
    let diff = text(&[
        "```diff",
        "--- /dev/null",
        "+++ new_file.txt",
        "@@ -0,0 +1 @@",
        "+content",
        "```",
    ]);
    let patches = parse_diffs(&diff).unwrap();
    assert_eq!(patches.len(), 1);
    let patch = &patches[0];
    assert_eq!(patch.file_path.as_str(), "new_file.txt");
    assert_eq!(patch.hunks.len(), 1);
    assert_eq!(patch.hunks[0].old_start_line, Some(0));
    assert_eq!(patch.hunks[0].get_replace_block(), vec!["content"]);
}

#[test]
fn test_parse_error_on_missing_file_header() {
    let diff = text(&[
        "Some text on line 1.",
        "```diff",
        "@@ -1,2 +1,2 @@",
        "-foo",
        "+bar",
        "```",
    ]);
    let result = parse_diffs(&diff);
    assert!(matches!(result, Err(ParseError::MissingFileHeader { line: 2 })));
}

#[test]
fn test_parse_empty_diff_block() {
    let diff = text(&["Some text.", "```diff", "```", "More text."]);
    let patches = parse_diffs(&diff).unwrap();
    assert!(patches.is_empty(), "Parsing an empty diff block should result in no patches");
}

#[test]
fn test_parse_diff_block_with_header_only() {
    let diff = text(&["```diff", "--- a/some_file.txt", "+++ b/some_file.txt", "```"]);
    let patches = parse_diffs(&diff).unwrap();
    assert!(patches.is_empty(), "Parsing a diff block with only a header should result in no patches");
}

#[test]
fn test_indented_diff_block_is_ignored() {
    let diff = text(&[
        "This should not be parsed.",
        "  ```diff",
        "--- a/file.txt",
        "+++ b/file.txt",
        "@@ -1 +1 @@",
        "-a",
        "+b",
        "  ```",
    ]);
    let patches = parse_diffs(&diff).unwrap();
    assert!(patches.is_empty(), "Indented diff blocks should be ignored");
}

#[test]
fn test_parse_diff_with_git_headers() {
    let diff = text(&[
        "```diff",
        "diff --git a/src/main.rs b/src/main.rs",
        "index 1234567..abcdefg 100644",
        "--- a/src/main.rs",
        "+++ b/src/main.rs",
        "@@ -1,3 +1,3 @@",
        " fn main() {",
        "-    println!(\"Hello, world!\");",
        "+    println!(\"Hello, mpatch!\");",
        " }",
        "```",
    ]);
    let patches = parse_diffs(&diff).unwrap();
    assert_eq!(patches.len(), 1);
    let patch = &patches[0];
    assert_eq!(patch.file_path.as_str(), "src/main.rs");
    assert_eq!(patch.hunks.len(), 1);
    assert_eq!(patch.hunks[0].get_replace_block(), vec!["fn main() {", "    println!(\"Hello, mpatch!\");", "}"]);
}

#[test]
fn test_parse_hunk_header_line_number() {
    let diff = text(&[
        "```diff",
        "--- a/file.txt",
        "+++ b/file.txt",
        "@@ -1,3 +2,3 @@",
        " a",
        "-b",
        "+c",
        " d",
        "@@ -10,1 +12,1 @@",
        "-x",
        "+y",
        "```",
    ]);
    let patches = parse_diffs(&diff).unwrap();
    assert_eq!(patches.len(), 1);
    let patch = &patches[0];
    assert_eq!(patch.hunks.len(), 2);
    assert_eq!(patch.hunks[0].old_start_line, Some(1));
    assert_eq!(patch.hunks[0].new_start_line, Some(2));
    assert_eq!(patch.hunks[1].old_start_line, Some(10));
    assert_eq!(patch.hunks[1].new_start_line, Some(12));
}

#[test]
fn test_patch_is_creation() {
    let creation_diff = text(&[
        "```diff",
        "--- a/new_file.txt",
        "+++ b/new_file.txt",
        "@@ -0,0 +1,2 @@",
        "+Hello",
        "+World",
        "```",
    ]);
    let patches = parse_diffs(&creation_diff).unwrap();
    assert!(patches[0].is_creation());

    let modification_diff = text(&[
        "```diff",
        "--- a/file.txt",
        "+++ b/file.txt",
        "@@ -1,1 +1,1 @@",
        "-foo",
        "+bar",
        "```",
    ]);
    let patches = parse_diffs(&modification_diff).unwrap();
    assert!(!patches[0].is_creation());
}

#[test]
fn test_patch_is_deletion() {
    let deletion_diff = text(&[
        "```diff",
        "--- a/old_file.txt",
        "+++ b/old_file.txt",
        "@@ -1,2 +0,0 @@",
        "-Hello",
        "-World",
        "```",
    ]);
    let patches = parse_diffs(&deletion_diff).unwrap();
    assert!(patches[0].is_deletion());

    let modification_diff = text(&[
        "```diff",
        "--- a/file.txt",
        "+++ b/file.txt",
        "@@ -1,1 +1,1 @@",
        "-foo",
        "+bar",
        "```",
    ]);
    let patches = parse_diffs(&modification_diff).unwrap();
    assert!(!patches[0].is_deletion());

    let partial_removal_diff = text(&[
        "```diff",
        "--- a/file.txt",
        "+++ b/file.txt",
        "@@ -1,3 +1,1 @@",
        "-foo",
        "-bar",
        " baz",
        "```",
    ]);
    let patches = parse_diffs(&partial_removal_diff).unwrap();
    assert!(!patches[0].is_deletion());
}

#[test]
fn parse_fence_with_language_and_patch_tag() {
    let diff = text(&["```rust, patch", "--- a/x.rs", "+++ b/x.rs", "@@ -1 +1 @@", "-a", "+b", "```"]);
    let patches = parse_diffs(&diff).unwrap();
    assert_eq!(patches.len(), 1);
    assert_eq!(patches[0].file_path.as_str(), "x.rs");
}

#[test]
fn parse_unclosed_block_is_read_to_the_end() {
    let diff = text(&["```diff", "--- a/x.txt", "+++ b/x.txt", "@@ -1 +1 @@", "-a", "+b"]);
    let patches = parse_diffs(&diff).unwrap();
    assert_eq!(patches.len(), 1);
    assert_eq!(patches[0].hunks[0].lines, vec!["-a".to_string(), "+b".to_string()]);
}

#[test]
fn parse_hunks_are_well_formed() {
    let diff = text(&["```diff", "--- a/x.txt", "+++ b/x.txt", "@@ -1,2 +1,2 @@", " keep", "-old", "+new", "```"]);
    let patches = parse_diffs(&diff).unwrap();
    for h in &patches[0].hunks {
        for l in &h.lines {
            let c = l.chars().next().unwrap();
            assert!(c == '+' || c == '-' || c == ' ');
        }
    }
}

#[test]
fn parse_second_block_error_reports_its_start_line() {
    let diff = text(&["```diff", "--- a/x.txt", "@@ -1 +1 @@", "-a", "+b", "```", "text", "```diff", "@@ -1 +1 @@", "-c", "```"]);
    assert!(matches!(parse_diffs(&diff), Err(ParseError::MissingFileHeader { line: 8 })));
}
