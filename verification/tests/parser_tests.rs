use changelog_checker::classifier::classify_additions;
use changelog_checker::parser::{added_lines, parse_hunks, ParseError};

fn positions(patch: &str) -> Vec<usize> {
    let hunks = parse_hunks(patch).expect("patch should parse");
    added_lines(&hunks).into_iter().map(|p| p.0).collect()
}

#[test]
fn empty_patch_yields_no_hunks() {
    let hunks = parse_hunks("").expect("empty patch parses");
    assert_eq!(hunks.len(), 0);
}

#[test]
fn patch_without_hunk_headers_yields_no_additions() {
    let patch = "diff --git a/CHANGELOG.md b/CHANGELOG.md\n--- a/CHANGELOG.md\n+++ b/CHANGELOG.md";
    let hunks = parse_hunks(patch).expect("headerless patch parses");
    assert_eq!(hunks.len(), 0);
}

#[test]
fn single_hunk_records_added_line_with_target_position() {
    // @@ -2,2 +5,3 @@ starts the target range at line 5 (1-indexed).
    let patch = "@@ -2,2 +5,3 @@\n ctx\n+added\n ctx2";
    let hunks = parse_hunks(patch).expect("patch parses");
    assert_eq!(hunks.len(), 1);
    assert_eq!(hunks[0].added_lines, vec![(5usize, "added".to_string())]);
}

#[test]
fn first_added_position_stays_in_header_range() {
    // With header +5,3 and a body of 3 lines, the first added position
    // must lie between 4 and 6 (0-indexed).
    let pos = positions("@@ -2,2 +5,3 @@\n ctx\n+added\n ctx2");
    assert_eq!(pos, vec![5]);
    assert!(4 <= pos[0] && pos[0] <= 6);
}

#[test]
fn removal_lines_do_not_advance_target_cursor() {
    // "-dropped" has no position in the target file, so "+new" lands on
    // target line 1 (0-indexed), right after "keep".
    let patch = "@@ -1,3 +1,2 @@\n keep\n-dropped\n+new";
    let hunks = parse_hunks(patch).expect("patch parses");
    assert_eq!(hunks[0].added_lines, vec![(1usize, "new".to_string())]);
}

#[test]
fn addition_before_any_hunk_is_ignored() {
    // "+++ b/f" starts with '+' but no hunk is open yet.
    let patch = "--- a/f\n+++ b/f\n@@ -1,1 +1,2 @@\n ctx\n+x";
    let hunks = parse_hunks(patch).expect("patch parses");
    assert_eq!(hunks.len(), 1);
    assert_eq!(hunks[0].added_lines, vec![(1usize, "x".to_string())]);
}

#[test]
fn two_hunks_flatten_in_ascending_order() {
    let patch = "@@ -1,2 +1,3 @@\n ## Unreleased\n+- new item\n - old item\n@@ -3,1 +4,2 @@\n ## 1.0.0\n+- another item";
    let hunks = parse_hunks(patch).expect("patch parses");
    assert_eq!(hunks.len(), 2);
    let flat = added_lines(&hunks);
    assert_eq!(
        flat,
        vec![
            (1usize, "- new item".to_string()),
            (4usize, "- another item".to_string()),
        ]
    );
    let pos = positions(patch);
    for w in pos.windows(2) {
        assert!(w[0] < w[1]);
    }
    let final_file = vec![
        "## Unreleased".to_string(),
        "- new item".to_string(),
        "- old item".to_string(),
        "## 1.0.0".to_string(),
        "- another item".to_string(),
    ];
    let entries = classify_additions(&final_file, &flat);
    assert_eq!(entries.len(), 2);
    assert_eq!(entries[0].category, "Unreleased");
    assert_eq!(entries[0].line_number, 2);
    assert_eq!(entries[1].category, "1.0.0");
    assert_eq!(entries[1].line_number, 5);
    assert!(entries[0].line_number < entries[1].line_number);
}

#[test]
fn crlf_patch_lines_lose_their_carriage_return() {
    let patch = "@@ -1,1 +1,2 @@\r\n ctx\r\n+added\r\n";
    let hunks = parse_hunks(patch).expect("patch parses");
    assert_eq!(hunks[0].added_lines, vec![(1usize, "added".to_string())]);
}

#[test]
fn header_without_plus_is_rejected() {
    assert_eq!(parse_hunks("@@ -1,2 @@"), Err(ParseError::MissingPlus));
}

#[test]
fn header_without_comma_after_plus_is_rejected() {
    assert_eq!(parse_hunks("@@ -1,2 +3 @@"), Err(ParseError::MissingComma));
}

#[test]
fn header_with_non_numeric_start_is_rejected() {
    assert_eq!(parse_hunks("@@ -1,2 +x,3 @@"), Err(ParseError::BadStart));
}

#[test]
fn header_with_empty_start_is_rejected() {
    assert_eq!(parse_hunks("@@ -1,1 +,1 @@"), Err(ParseError::BadStart));
}

#[test]
fn header_with_zero_start_is_rejected() {
    assert_eq!(parse_hunks("@@ -0,0 +0,0 @@"), Err(ParseError::BadStart));
}

#[test]
fn header_with_oversized_start_is_rejected() {
    assert_eq!(
        parse_hunks("@@ -1,1 +99999999999999999999999,1 @@"),
        Err(ParseError::BadStart)
    );
}

#[test]
fn error_in_second_hunk_header_is_fatal() {
    let patch = "@@ -1,1 +1,2 @@\n+fine\n@@ -9,9 bad @@\n+late";
    assert_eq!(parse_hunks(patch), Err(ParseError::MissingPlus));
}
