use zolit::dsl::insert::{detect_frontmatter_end, insert_annotations_into_markdown};
use zolit::pipeline::insert_notes_section;

// -----------------------------------------------------------------------
// detect_frontmatter_end
// -----------------------------------------------------------------------

#[test]
fn detect_frontmatter_end_present() {
    let lines = vec![
        "---".to_string(),
        "title: Test".to_string(),
        "---".to_string(),
        "body".to_string(),
    ];
    assert_eq!(detect_frontmatter_end(&lines), Some(2));
}

#[test]
fn detect_frontmatter_end_absent() {
    let lines = vec!["# Title".to_string(), "body".to_string()];
    assert_eq!(detect_frontmatter_end(&lines), None);
}

#[test]
fn detect_frontmatter_end_no_closing() {
    let lines = vec![
        "---".to_string(),
        "title: Test".to_string(),
        "body".to_string(),
    ];
    assert_eq!(detect_frontmatter_end(&lines), None);
}

// -----------------------------------------------------------------------
// insert_annotations_into_markdown
// -----------------------------------------------------------------------

#[test]
fn insert_after_target_line() {
    let content = "line 0\nline 1\nline 2\nline 3\n";
    let annotations = vec![(1, "<!---[zot-1] n: | ann --->".to_string())];
    let result = insert_annotations_into_markdown(content, annotations);
    let lines: Vec<&str> = result.lines().collect();
    assert_eq!(lines[0], "line 0");
    assert_eq!(lines[1], "line 1");
    assert_eq!(lines[2], ""); // blank separator
    assert_eq!(lines[3], "<!---[zot-1] n: | ann --->");
    assert_eq!(lines[4], "line 2");
}

#[test]
fn insert_multiple_preserves_order() {
    let content = "line 0\nline 1\nline 2\n";
    let annotations = vec![
        (0, "<!---[zot-1] n: | first --->".to_string()),
        (2, "<!---[zot-2] n: | second --->".to_string()),
    ];
    let result = insert_annotations_into_markdown(content, annotations);
    assert!(result.contains("first"));
    assert!(result.contains("second"));
    let pos1 = result.find("first").unwrap();
    let pos2 = result.find("second").unwrap();
    assert!(pos1 < pos2);
}

#[test]
fn insert_respects_frontmatter() {
    let content = "---\ntitle: Test\n---\nline 3\nline 4\n";
    // Line 0 lies inside the frontmatter: the annotation goes after it.
    let annotations = vec![(0, "<!---[zot-1] n: | ann --->".to_string())];
    let result = insert_annotations_into_markdown(content, annotations);
    let lines: Vec<&str> = result.lines().collect();
    assert_eq!(lines[0], "---");
    assert_eq!(lines[1], "title: Test");
    assert_eq!(lines[2], "---");
    assert_eq!(lines[3], "");
    assert_eq!(lines[4], "<!---[zot-1] n: | ann --->");
    assert_eq!(lines[5], "line 3");
}

#[test]
fn insert_empty_annotations_returns_unchanged() {
    let content = "# Title\n\nBody text\n";
    let result = insert_annotations_into_markdown(content, vec![]);
    assert_eq!(result, content);
}

#[test]
fn insert_same_line_preserves_original_order() {
    let content = "line 0\nline 1\nline 2\n";
    // Two annotations both targeting line 1, given in order A then B.
    let annotations = vec![
        (1, "<!---[zot-A] n: | first --->".to_string()),
        (1, "<!---[zot-B] n: | second --->".to_string()),
    ];
    let result = insert_annotations_into_markdown(content, annotations);
    let pos_a = result.find("zot-A").expect("should contain zot-A");
    let pos_b = result.find("zot-B").expect("should contain zot-B");
    assert!(
        pos_a < pos_b,
        "zot-A should appear before zot-B (original order), got:\n{}",
        result
    );
}

#[test]
fn insert_same_line_three_annotations() {
    let content = "line 0\nline 1\n";
    let annotations = vec![
        (0, "<!---[zot-1] n: | first --->".to_string()),
        (0, "<!---[zot-2] n: | second --->".to_string()),
        (0, "<!---[zot-3] n: | third --->".to_string()),
    ];
    let result = insert_annotations_into_markdown(content, annotations);
    let pos1 = result.find("zot-1").unwrap();
    let pos2 = result.find("zot-2").unwrap();
    let pos3 = result.find("zot-3").unwrap();
    assert!(pos1 < pos2, "zot-1 before zot-2");
    assert!(pos2 < pos3, "zot-2 before zot-3");
}

#[test]
fn insert_exact_output() {
    let content = "a\nb\n";
    let result = insert_annotations_into_markdown(content, vec![(0, "X".to_string())]);
    assert_eq!(result, "a\n\nX\nb\n");
}

// -----------------------------------------------------------------------
// The Zotero Notes section
// -----------------------------------------------------------------------

#[test]
fn notes_inserted_under_zotero_notes_heading() {
    // Without a notes heading or an unmatched section, a new heading and the
    // notes go at the end of the text.
    let content = "# Title\n\nBody text here.\n";
    let note_dsls = vec!["<!---[zot-note-400] n: | note content --->".to_string()];

    let result = insert_notes_section(content, &note_dsls);

    assert!(result.contains("## Zotero Notes"));
    assert!(result.contains("zot-note-400"));
    // Notes heading should appear after body text
    let heading_pos = result.find("## Zotero Notes").unwrap();
    let body_pos = result.find("Body text").unwrap();
    assert!(heading_pos > body_pos);
    assert_eq!(
        result,
        "# Title\n\nBody text here.\n\n\n## Zotero Notes\n\n<!---[zot-note-400] n: | note content --->\n\n"
    );
}

#[test]
fn notes_heading_not_duplicated_on_reimport() {
    // If "## Zotero Notes" already exists, a second import should not add another heading.
    let content = "# Title\n\nBody\n\n## Zotero Notes\n\n<!---[zot-note-400] n: | existing --->\n\n";

    let count = content.matches("## Zotero Notes").count();
    assert_eq!(count, 1, "Precondition: one heading");
    assert!(content.contains("## Zotero Notes"));

    let new_dsl = "<!---[zot-note-401] n: | new note --->";
    let result = insert_notes_section(content, &[new_dsl.to_string()]);

    let final_count = result.matches("## Zotero Notes").count();
    assert_eq!(final_count, 1, "Should still have exactly one heading");
    assert!(result.contains("zot-note-401"));
    assert!(result.contains("zot-note-400"));
}

#[test]
fn notes_inserted_before_unmatched_section() {
    let content =
        "# Title\n\nBody\n\n## Unmatched Zotero Annotations\n\n<!---[zot-1] n: | unmatched --->\n";

    let notes_heading_pos = content.find("## Zotero Notes");
    assert!(notes_heading_pos.is_none(), "Precondition: no notes heading yet");

    let result = insert_notes_section(content, &["<!---[zot-note-500] n: | a note --->".to_string()]);

    let notes_pos = result.find("## Zotero Notes").unwrap();
    let unmatched_pos = result.find("## Unmatched Zotero Annotations").unwrap();
    assert!(
        notes_pos < unmatched_pos,
        "Notes section should appear before Unmatched section"
    );
}

#[test]
fn notes_inserted_before_next_heading_after_existing_notes() {
    let content = "## Zotero Notes\n\nold\n## Other\n";
    let result = insert_notes_section(content, &["new".to_string()]);
    assert_eq!(result, "## Zotero Notes\n\nold\nnew\n\n\n## Other\n");
}

#[test]
fn notes_section_unchanged_without_notes() {
    let content = "# Title\n";
    assert_eq!(insert_notes_section(content, &[]), content);
}

#[test]
fn insert_past_last_line_keeps_input_order() {
    let result = insert_annotations_into_markdown("a\n", vec![(5, "X".to_string()), (5, "Y".to_string())]);
    assert_eq!(result, "a\n\nX\n\nY\n");
    let mixed = insert_annotations_into_markdown("a\n", vec![(9, "X".to_string()), (0, "Z".to_string())]);
    assert_eq!(mixed, "a\n\nZ\n\nX\n");
}
