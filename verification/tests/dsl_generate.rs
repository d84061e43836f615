use zolit::dsl::generate::{
    ann_type_name, collect_unmatched_section, escape_anchor, truncate_anchor, zotero_ann_to_dsl,
    zotero_note_to_dsl,
};
use zolit::zotero::types::{ZoteroAnnotation, ZoteroChildNote};


#[test]
fn ann_type_name_known_types() {
    assert_eq!(ann_type_name(1), "highlight");
    assert_eq!(ann_type_name(2), "note");
    assert_eq!(ann_type_name(5), "underline");
    assert_eq!(ann_type_name(6), "freetext");
}

#[test]
fn ann_type_name_unknown_type() {
    assert_eq!(ann_type_name(99), "annotation");
}

// -----------------------------------------------------------------------
// truncate_anchor tests
// -----------------------------------------------------------------------

#[test]
fn truncate_anchor_short_text() {
    assert_eq!(truncate_anchor("short text", 60), "short text");
}

#[test]
fn truncate_anchor_exact_60() {
    let text = "a".repeat(60);
    assert_eq!(truncate_anchor(&text, 60), text);
}

#[test]
fn truncate_anchor_long_text_breaks_at_space() {
    let text = "the quick brown fox jumps over the lazy dog and keeps running far away into the distance";
    let result = truncate_anchor(text, 60);
    assert!(result.ends_with('\u{2026}'));
    assert!(!result.contains("distance"));
    // The text before the ellipsis should be <= 60 chars
    let before_ellipsis = &result[..result.len() - '\u{2026}'.len_utf8()];
    assert!(before_ellipsis.len() <= 60);
}

#[test]
fn truncate_anchor_normalizes_whitespace() {
    let text = "  hello   world  ";
    assert_eq!(truncate_anchor(text, 60), "hello world");
}

// -----------------------------------------------------------------------
// escape_anchor tests
// -----------------------------------------------------------------------

#[test]
fn escape_anchor_no_specials() {
    assert_eq!(escape_anchor("hello world"), "hello world");
}

#[test]
fn escape_anchor_quotes() {
    assert_eq!(
        escape_anchor(r#"a "quoted" word"#),
        r#"a \"quoted\" word"#
    );
}

#[test]
fn escape_anchor_backslash() {
    assert_eq!(escape_anchor(r"back\slash"), r"back\\slash");
}

// -----------------------------------------------------------------------
// zotero_ann_to_dsl tests
// -----------------------------------------------------------------------

#[test]
fn dsl_highlight_with_comment() {
    let ann = ZoteroAnnotation {
        item_id: 301,
        ann_type: 1,
        text: Some("highlighted text one".to_string()),
        comment: Some("my comment".to_string()),
        color: Some("#ffd400".to_string()),
        page_label: Some("5".to_string()),
        sort_index: "00005|000100|00000".to_string(),
    };
    let dsl = zotero_ann_to_dsl(&ann);
    assert!(dsl.contains("[zot-301]"));
    assert!(dsl.contains("n:"));
    assert!(dsl.contains(r#"^"highlighted text one""#));
    assert!(dsl.contains("p. 5"));
    assert!(dsl.contains("highlight"));
    assert!(dsl.contains("my comment"));
}

#[test]
fn dsl_highlight_without_comment() {
    let ann = ZoteroAnnotation {
        item_id: 305,
        ann_type: 1,
        text: Some("highlighted text on page one".to_string()),
        comment: None,
        color: Some("#ffd400".to_string()),
        page_label: Some("1".to_string()),
        sort_index: "00001|000020|00000".to_string(),
    };
    let dsl = zotero_ann_to_dsl(&ann);
    assert!(dsl.contains("[zot-305]"));
    assert!(dsl.contains(r#"^"highlighted text on page one""#));
    assert!(dsl.contains("p. 1"));
    assert!(dsl.contains("highlight"));
    // Body should end with just the type name, no colon after it
    assert!(dsl.contains("highlight --->") || dsl.contains("highlight\n"));
}

#[test]
fn dsl_sticky_note_no_text() {
    let ann = ZoteroAnnotation {
        item_id: 302,
        ann_type: 2,
        text: None,
        comment: Some("sticky note text".to_string()),
        color: Some("#ff6666".to_string()),
        page_label: Some("3".to_string()),
        sort_index: "00003|000050|00000".to_string(),
    };
    let dsl = zotero_ann_to_dsl(&ann);
    assert!(dsl.contains("[zot-302]"));
    assert!(dsl.contains("n:"));
    assert!(!dsl.contains(r#"^""#)); // no anchor scope
    assert!(dsl.contains("p. 3"));
    assert!(dsl.contains("note"));
    assert!(dsl.contains("sticky note text"));
}

#[test]
fn dsl_long_text_uses_block_form() {
    let long_text = "This is a very long highlighted text that exceeds the normal threshold for compact annotations and should cause block form to be used instead of compact form";
    let ann = ZoteroAnnotation {
        item_id: 999,
        ann_type: 1,
        text: Some(long_text.to_string()),
        comment: Some("A very detailed comment about this highlight that makes the total length quite substantial".to_string()),
        color: None,
        page_label: Some("42".to_string()),
        sort_index: "00042|000100|00000".to_string(),
    };
    let dsl = zotero_ann_to_dsl(&ann);
    assert!(dsl.contains("<!---[zot-999]"));
    assert!(dsl.contains('\n')); // block form
    assert!(dsl.contains("--->"));
}

// -----------------------------------------------------------------------
// zotero_note_to_dsl tests
// -----------------------------------------------------------------------

#[test]
fn note_dsl_without_title() {
    let note = ZoteroChildNote {
        item_id: 400,
        html_content: "plain text content".to_string(),
        title: None,
    };
    let dsl = zotero_note_to_dsl(&note);
    assert!(dsl.contains("[zot-note-400]"));
    assert!(dsl.contains("n:"));
    assert!(dsl.contains("plain text content"));
}

#[test]
fn note_dsl_with_title() {
    let note = ZoteroChildNote {
        item_id: 401,
        html_content: "note body".to_string(),
        title: Some("My Title".to_string()),
    };
    let dsl = zotero_note_to_dsl(&note);
    assert!(dsl.contains("[zot-note-401]"));
    assert!(dsl.contains("My Title: note body"));
}

// -----------------------------------------------------------------------
// collect_unmatched_section tests
// -----------------------------------------------------------------------

#[test]
fn unmatched_section_format() {
    let anns = vec![ZoteroAnnotation {
        item_id: 10,
        ann_type: 2,
        text: None,
        comment: Some("a note".to_string()),
        color: None,
        page_label: Some("1".to_string()),
        sort_index: "00001|000001|00000".to_string(),
    }];
    let section = collect_unmatched_section(&anns);
    assert!(section.starts_with("## Unmatched Zotero Annotations"));
    assert!(section.contains("[zot-10]"));
    assert!(section.contains("a note"));
}

#[test]
fn unmatched_section_empty() {
    let section = collect_unmatched_section(&[]);
    assert!(section.starts_with("## Unmatched Zotero Annotations"));
}

// -----------------------------------------------------------------------
// truncate_anchor multibyte UTF-8
// -----------------------------------------------------------------------

#[test]
fn test_truncate_anchor_multibyte_accented() {
    // Each accented char is 2 bytes in UTF-8.
    // "cafe\u{0301}" normalizes to 5 chars but the e-acute could be 2 bytes.
    // Use a string that would panic with naive byte slicing.
    let text = "\u{00e9}\u{00e9}\u{00e9}\u{00e9}\u{00e9}"; // "eeeee" with accents, 10 bytes, 5 chars
    // max_len=3 is in the middle of multi-byte territory
    let result = truncate_anchor(text, 3);
    // Should not panic, and should produce a valid string with ellipsis
    assert!(result.ends_with('\u{2026}'));
    // The part before the ellipsis should be valid UTF-8 (it compiles and runs = valid)
    assert!(!result.is_empty());
}

#[test]
fn test_truncate_anchor_cjk() {
    // Each CJK char is 3 bytes. "hello" is 5 bytes.
    // "\u{4e16}\u{754c}" = "世界" = 6 bytes, 2 chars
    let text = "hello \u{4e16}\u{754c} world more words to exceed the limit and test truncation behavior with CJK";
    let result = truncate_anchor(text, 10);
    assert!(result.ends_with('\u{2026}'));
    let before_ellipsis = &result[..result.len() - '\u{2026}'.len_utf8()];
    // Should break at a word boundary
    assert!(
        before_ellipsis.ends_with("hello"),
        "expected word break: got '{}'",
        before_ellipsis
    );
}

#[test]
fn test_truncate_anchor_emoji() {
    // Emoji can be 4 bytes each
    let text = "\u{1f600}\u{1f600}\u{1f600} hello world";
    let result = truncate_anchor(text, 5);
    // Should not panic
    assert!(result.ends_with('\u{2026}'));
}

#[test]
fn dsl_comments_are_triple_dash_in_both_forms() {
    let short = ZoteroAnnotation {
        item_id: 1,
        ann_type: 1,
        text: Some("short".to_string()),
        comment: None,
        color: None,
        page_label: None,
        sort_index: "0".to_string(),
    };
    let long = ZoteroAnnotation {
        item_id: 2,
        ann_type: 1,
        text: Some("word ".repeat(40)),
        comment: Some("comment ".repeat(10)),
        color: None,
        page_label: Some("9".to_string()),
        sort_index: "0".to_string(),
    };
    for ann in [&short, &long] {
        let dsl = zotero_ann_to_dsl(ann);
        assert!(dsl.starts_with("<!---["));
        assert!(dsl.ends_with("--->"));
    }
    assert!(!zotero_ann_to_dsl(&short).contains('\n'));
    assert!(zotero_ann_to_dsl(&long).contains('\n'));
    let note = ZoteroChildNote { item_id: 3, html_content: "x".repeat(200), title: None };
    let dsl = zotero_note_to_dsl(&note);
    assert!(dsl.starts_with("<!---[zot-note-3]\n"));
    assert!(dsl.ends_with("\n--->"));
}

#[test]
fn dsl_compact_exact_text() {
    let ann = ZoteroAnnotation {
        item_id: 301,
        ann_type: 1,
        text: Some("highlighted \"text\"".to_string()),
        comment: Some("my comment".to_string()),
        color: None,
        page_label: Some("5".to_string()),
        sort_index: "0".to_string(),
    };
    assert_eq!(
        zotero_ann_to_dsl(&ann),
        "<!---[zot-301] n: ^\"highlighted \\\"text\\\"\" | p. 5 -- highlight: my comment --->"
    );
}

#[test]
fn dsl_readme_compact_form() {
    let ann = ZoteroAnnotation {
        item_id: 301,
        ann_type: 1,
        text: Some("highlighted text one".to_string()),
        comment: Some("my comment".to_string()),
        color: Some("#ffd400".to_string()),
        page_label: Some("5".to_string()),
        sort_index: "00005|000100|00000".to_string(),
    };
    assert_eq!(
        zotero_ann_to_dsl(&ann),
        "<!---[zot-301] n: ^\"highlighted text one\" | p. 5 -- highlight: my comment --->"
    );
}

#[test]
fn dsl_readme_block_form() {
    let ann = ZoteroAnnotation {
        item_id: 301,
        ann_type: 1,
        text: Some("highlighted text ".repeat(6)),
        comment: Some("my comment, long enough to need the block form".to_string()),
        color: None,
        page_label: Some("5".to_string()),
        sort_index: "0".to_string(),
    };
    let dsl = zotero_ann_to_dsl(&ann);
    let lines: Vec<&str> = dsl.split('\n').collect();
    assert_eq!(lines.len(), 6);
    assert_eq!(lines[0], "<!---[zot-301]");
    assert_eq!(lines[1], "n:");
    assert!(lines[2].starts_with("^\"highlighted text"));
    assert_eq!(lines[3], "---");
    assert_eq!(lines[4], "p. 5 -- highlight: my comment, long enough to need the block form");
    assert_eq!(lines[5], "--->");
}

#[test]
fn dsl_compact_limit_counts_characters() {
    // 110 characters, but well over 120 bytes: still the one-line form.
    let comment = "\u{00e9}".repeat(70);
    let ann = ZoteroAnnotation {
        item_id: 7,
        ann_type: 2,
        text: None,
        comment: Some(comment.clone()),
        color: None,
        page_label: None,
        sort_index: "0".to_string(),
    };
    let dsl = zotero_ann_to_dsl(&ann);
    assert_eq!(dsl, format!("<!---[zot-7] n: | note: {} --->", comment));
    assert!(dsl.chars().count() <= 120);
    assert!(dsl.len() > 120);
    assert!(!dsl.contains('\n'));
    let longer = ZoteroAnnotation { comment: Some("\u{00e9}".repeat(100)), ..ann };
    assert!(zotero_ann_to_dsl(&longer).contains('\n'));
}
