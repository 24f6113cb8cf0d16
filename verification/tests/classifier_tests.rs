use changelog_checker::classifier::{
    category_is_listed, classify_additions, strict_failure, AddedEntry,
};

fn changelog() -> Vec<String> {
    vec![
        "## Unreleased".to_string(),
        "- old item".to_string(),
        "## 1.0.0".to_string(),
        "- released item".to_string(),
    ]
}

#[test]
fn addition_under_first_heading_is_unreleased() {
    let lines = changelog();
    let adds = vec![(1usize, "- new item".to_string())];
    let entries = classify_additions(&lines, &adds);
    assert_eq!(entries.len(), 1);
    assert_eq!(entries[0].category, "Unreleased");
    assert_eq!(entries[0].text, "- new item");
    assert_eq!(entries[0].line_number, 2);
}

#[test]
fn addition_under_released_heading_fails_strict_mode() {
    let lines = changelog();
    let adds = vec![(3usize, "- new item".to_string())];
    let entries = classify_additions(&lines, &adds);
    assert_eq!(entries.len(), 1);
    assert_eq!(entries[0].category, "1.0.0");
    assert_eq!(entries[0].line_number, 4);
    let unreleased = vec!["Unreleased".to_string()];
    assert!(strict_failure(&entries, &unreleased));
}

#[test]
fn addition_in_unreleased_section_passes_strict_mode() {
    let lines = changelog();
    let adds = vec![(1usize, "- new item".to_string())];
    let entries = classify_additions(&lines, &adds);
    let unreleased = vec!["Unreleased".to_string()];
    assert!(!strict_failure(&entries, &unreleased));
}

#[test]
fn addition_before_any_heading_yields_no_entry() {
    let lines = changelog();
    let adds = vec![(0usize, "- new item".to_string())];
    let entries = classify_additions(&lines, &adds);
    assert_eq!(entries.len(), 0);
}

#[test]
fn classification_is_idempotent() {
    let lines = changelog();
    let adds = vec![
        (1usize, "- a".to_string()),
        (3usize, "- b".to_string()),
        (0usize, "- c".to_string()),
    ];
    let first = classify_additions(&lines, &adds);
    let second = classify_additions(&lines, &adds);
    assert_eq!(first, second);
}

#[test]
fn category_keeps_marker_stripped_and_trimmed() {
    let lines = vec!["##   Spaced   ".to_string(), "body".to_string()];
    let adds = vec![(1usize, "- e".to_string())];
    let entries = classify_additions(&lines, &adds);
    assert_eq!(entries[0].category, "Spaced");
}

#[test]
fn repeated_marker_is_stripped_entirely() {
    let lines = vec!["## ## Deep".to_string(), "body".to_string()];
    let adds = vec![(1usize, "- e".to_string())];
    let entries = classify_additions(&lines, &adds);
    assert_eq!(entries[0].category, "Deep");
}

#[test]
fn deeper_heading_levels_are_not_sections() {
    // "### Details" is not a section heading: the marker is exactly two
    // hash characters followed by a space, and its third character is
    // another '#'.
    let lines = vec![
        "## Unreleased".to_string(),
        "### Details".to_string(),
        "body".to_string(),
    ];
    let adds = vec![(2usize, "- e".to_string())];
    let entries = classify_additions(&lines, &adds);
    assert_eq!(entries[0].category, "Unreleased");
}

#[test]
fn addition_at_end_of_file_uses_last_heading() {
    let lines = vec!["## A".to_string()];
    let adds = vec![(1usize, "- tail".to_string())];
    let entries = classify_additions(&lines, &adds);
    assert_eq!(entries[0].category, "A");
    assert_eq!(entries[0].line_number, 2);
}

#[test]
fn entries_keep_input_order() {
    let lines = changelog();
    let adds = vec![
        (1usize, "- a".to_string()),
        (3usize, "- b".to_string()),
    ];
    let entries = classify_additions(&lines, &adds);
    assert_eq!(entries.len(), 2);
    assert_eq!(entries[0].line_number, 2);
    assert_eq!(entries[1].line_number, 4);
}

#[test]
fn unlisted_category_is_detected() {
    let cats = vec!["Unreleased".to_string(), "Unversioned".to_string()];
    assert!(category_is_listed(&cats, &"Unversioned".to_string()));
    assert!(!category_is_listed(&cats, &"1.0.0".to_string()));
}

#[test]
fn strict_failure_on_empty_entry_list_is_false() {
    let entries: Vec<AddedEntry> = Vec::new();
    let unreleased = vec!["Unreleased".to_string()];
    assert!(!strict_failure(&entries, &unreleased));
}
