use slop_gate::diff::{is_missing_blob_diagnostic, parse_added_lines, parse_diff_range, ChangedLineSet};
use slop_gate::AppError;

#[test]
fn parses_added_lines_from_multiple_hunks() {
    let lines = parse_added_lines("@@ -2,0 +3,2 @@\n@@ -8,2 +10,1 @@ fn example\n").unwrap();
    assert_eq!(lines, ChangedLineSet::from_lines(&[3, 4, 10]));
}

#[test]
fn new_file_hunk_contains_every_head_line() {
    let lines = parse_added_lines("@@ -0,0 +1,3 @@\n").unwrap();
    assert_eq!(lines.len(), 3);
    assert!(lines.contains(1));
    assert!(lines.contains(3));
}

#[test]
fn deleted_and_unchanged_rename_hunks_are_empty() {
    assert_eq!(parse_added_lines("@@ -3,2 +3,0 @@\n").unwrap().len(), 0);
    assert_eq!(parse_added_lines("").unwrap().len(), 0);
}

#[test]
fn accepts_git_headers_with_implicit_one_counts() {
    let lines = parse_added_lines("@@ -4 +5 @@\n").unwrap();
    assert!(lines.contains(5));
    assert_eq!(lines.len(), 1);
}

#[test]
fn rejects_malformed_hunks_without_partial_results() {
    let result = parse_added_lines("@@ -1,1 +1,1 @@\n@@ malformed\n");
    assert!(result.is_err());
}

#[test]
fn missing_blob_detection_does_not_match_other_git_errors() {
    assert!(is_missing_blob_diagnostic(
        b"fatal: path 'tests/common/mod.rs' exists on disk, but not in 'abc'\n"
    ));
    assert!(is_missing_blob_diagnostic(
        b"fatal: path 'tests/common/mod.rs' does not exist in 'abc'\n"
    ));
    assert!(!is_missing_blob_diagnostic(
        b"fatal: invalid object name 'not-a-revision:src/missing.rs'.\n"
    ));
}

#[test]
fn malformed_hunk_error_names_the_offending_line() {
    match parse_added_lines("@@ -1,1 +1,1 @@\n@@ malformed\n") {
        Err(AppError::Invalid { subject, detail }) => {
            assert_eq!(subject, "Git diff hunk");
            assert_eq!(detail, "@@ malformed");
        }
        other => panic!("unexpected result {other:?}"),
    }
}

#[test]
fn hunk_ranges_read_start_and_count() {
    assert_eq!(parse_diff_range("+12,3", "line").unwrap(), (12, 3));
    assert_eq!(parse_diff_range("-7", "line").unwrap(), (7, 1));
    assert!(parse_diff_range("+x,1", "line").is_err());
    assert!(parse_diff_range("+1,", "line").is_err());
}

#[test]
fn added_lines_are_the_union_of_all_hunks() {
    let lines = parse_added_lines("@@ -1 +1,2 @@\n context\n@@ -5 +2,2 @@\n").unwrap();
    assert_eq!(lines, ChangedLineSet::from_lines(&[1, 2, 3]));
    assert!(!lines.contains(4));
}

#[test]
fn hunk_end_overflow_is_rejected() {
    let diff = format!("@@ -1 +{},2 @@\n", usize::MAX);
    assert!(parse_added_lines(&diff).is_err());
}
