use changelog_checker::checker::{entries_for_patch, CheckError};
use changelog_checker::parser::ParseError;

#[test]
fn patch_and_content_yield_classified_entries() {
    let patch = "@@ -1,3 +1,4 @@\n ## Unreleased\n+- brand new\n - old item\n ## 1.0.0";
    let contents = "## Unreleased\n- brand new\n- old item\n## 1.0.0\n- released item\n";
    let entries = entries_for_patch(patch, contents).expect("patch and content agree");
    assert_eq!(entries.len(), 1);
    assert_eq!(entries[0].category, "Unreleased");
    assert_eq!(entries[0].text, "- brand new");
    assert_eq!(entries[0].line_number, 2);
}

#[test]
fn empty_patch_yields_no_entries() {
    let entries = entries_for_patch("", "## Unreleased\n- old\n").expect("empty patch parses");
    assert_eq!(entries.len(), 0);
}

#[test]
fn malformed_patch_is_a_parse_error() {
    assert_eq!(
        entries_for_patch("@@ -1,2 @@", "## Unreleased\n"),
        Err(CheckError::Parse(ParseError::MissingPlus))
    );
}

#[test]
fn addition_past_the_final_file_is_rejected() {
    // The header places the added line at 0-indexed position 9, but the
    // final content has only two lines.
    let patch = "@@ -9,1 +10,1 @@\n+- stray";
    let contents = "## Unreleased\n- old\n";
    assert_eq!(entries_for_patch(patch, contents), Err(CheckError::PastEnd));
}
