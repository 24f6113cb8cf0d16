use changelog_checker::args::Args;
use changelog_checker::classifier::classify_additions;
use changelog_checker::parser::{added_lines, parse_hunks};
use changelog_checker::text::split_lines;

#[test]
fn empty_text_has_no_lines() {
    assert_eq!(split_lines(""), Vec::<String>::new());
}

#[test]
fn lines_split_at_newlines() {
    assert_eq!(split_lines("a\nb"), vec!["a".to_string(), "b".to_string()]);
}

#[test]
fn trailing_newline_opens_no_line() {
    assert_eq!(
        split_lines("a\r\nb\r\n"),
        vec!["a".to_string(), "b".to_string()]
    );
}

#[test]
fn empty_lines_are_kept() {
    assert_eq!(
        split_lines("a\n\nb"),
        vec!["a".to_string(), "".to_string(), "b".to_string()]
    );
}

#[test]
fn lone_carriage_return_stays() {
    assert_eq!(split_lines("a\r"), vec!["a\r".to_string()]);
}

#[test]
fn patch_and_file_compose_to_entries() {
    // The full pipeline on one changelog: fetch-free, from raw text.
    let patch = "@@ -1,3 +1,4 @@\n ## Unreleased\n+- brand new\n - old item\n ## 1.0.0";
    let contents = "## Unreleased\n- brand new\n- old item\n## 1.0.0\n- released item\n";
    let hunks = parse_hunks(patch).expect("patch parses");
    let adds = added_lines(&hunks);
    assert_eq!(adds, vec![(1usize, "- brand new".to_string())]);
    let lines = split_lines(contents);
    let entries = classify_additions(&lines, &adds);
    assert_eq!(entries.len(), 1);
    assert_eq!(entries[0].category, "Unreleased");
    assert_eq!(entries[0].text, "- brand new");
    assert_eq!(entries[0].line_number, 2);
}

#[test]
fn args_carry_their_fields() {
    let args = Args {
        changelog_path: "CHANGELOG.md".to_string(),
        diff_ref: "origin/master".to_string(),
        repo_path: ".".to_string(),
        strict: true,
    };
    let copy = args.clone();
    assert_eq!(copy.changelog_path, "CHANGELOG.md");
    assert_eq!(copy.diff_ref, "origin/master");
    assert_eq!(copy.repo_path, ".");
    assert!(copy.strict);
}
