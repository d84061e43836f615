use zolit::matching::page_scope::find_page_ranges;
use zolit::matching::pipeline::{
    find_match_line, find_match_line_scoped, find_match_line_scoped_with_metadata,
};
use zolit::matching::score::Ratio;

/// A score as a floating-point number.
fn val(r: Ratio) -> f64 {
    r.num as f64 / r.den as f64
}


// -------------------------------------------------------------------
// find_match_line tests (integration)
// -------------------------------------------------------------------

#[test]
fn test_find_match_line_exact_preferred() {
    let lines = vec![
        "The quick brown fox",
        "jumps over the lazy dog",
        "",
        "A completely different paragraph",
    ];
    assert_eq!(
        find_match_line("brown fox jumps over", &lines, Ratio::new(65, 100)),
        Some(1)
    );
}

#[test]
fn test_find_match_line_fuzzy_fallback() {
    let lines = vec![
        "The quikc brownn fox",
        "jumps over the lazy dog",
        "",
        "Something else entirely",
    ];
    // Typos prevent exact match, but fuzzy should match first paragraph
    let result =
        find_match_line("quick brown fox jumps over the lazy", &lines, Ratio::new(2, 5));
    assert_eq!(result, Some(1));
}

#[test]
fn test_find_match_line_empty_needle() {
    let lines = vec!["hello world"];
    assert_eq!(find_match_line("", &lines, Ratio::new(65, 100)), None);
    assert_eq!(find_match_line("   ", &lines, Ratio::new(65, 100)), None);
}

#[test]
fn test_find_match_line_no_match() {
    let lines = vec!["alpha beta gamma", "", "delta epsilon zeta"];
    assert_eq!(
        find_match_line(
            "completely unrelated content that shares no substring",
            &lines,
            Ratio::new(65, 100)
        ),
        None
    );
}

#[test]
fn test_find_match_line_single_line_doc() {
    let lines = vec!["the only line in the document"];
    assert_eq!(find_match_line("only line", &lines, Ratio::new(65, 100)), Some(0));
}

#[test]
fn test_find_match_line_windowed_integration() {
    // Test that find_match_line uses windowed matching when single-para fails
    let lines = vec![
        "end of first paragraph",
        "",
        "start of second paragraph",
    ];
    let result = find_match_line(
        "end of first paragraph start of second paragraph",
        &lines,
        Ratio::new(1, 2),
    );
    // Exact match won't work (text spans paragraphs). Single-para fuzzy won't
    // match well. Windowed should catch it.
    assert!(result.is_some(), "windowed match should find cross-paragraph span");
}

// -------------------------------------------------------------------
// find_match_line_scoped tests
// -------------------------------------------------------------------

#[test]
fn test_scoped_match_finds_correct_page() {
    // Markdown with page markers for 3 pages.
    // Text "important finding" appears on page 1 (OCR page 1).
    let lines = vec![
        "<!-- Page 0 - 0 images -->",
        "introduction text",
        "<!-- Page 1 - 0 images -->",
        "the important finding here",
        "<!-- Page 2 - 0 images -->",
        "conclusion text",
    ];
    let page_ranges = find_page_ranges(&lines);

    // Annotation with page_label="2" (OCR page 1)
    let result = find_match_line_scoped(
        "important finding",
        &lines,
        Ratio::new(1, 2),
        Some("2"),
        &page_ranges,
    );
    assert_eq!(result, Some(3));
}

#[test]
fn test_scoped_ocr_normalized_match() {
    // Annotation has ligature, markdown has plain text
    let lines = vec![
        "<!-- Page 0 - 0 images -->",
        "the field of knowledge",
    ];
    let page_ranges = find_page_ranges(&lines);

    let result = find_match_line_scoped(
        "the \u{FB01}eld of knowledge",
        &lines,
        Ratio::new(1, 2),
        Some("1"),
        &page_ranges,
    );
    assert!(result.is_some(), "OCR-normalized ligature should match");
}

#[test]
fn test_scoped_fallback_to_full_doc() {
    // page_label points to a page that doesn't exist -> fall back to full doc
    let lines = vec![
        "<!-- Page 0 - 0 images -->",
        "the important text is here",
    ];
    let page_ranges = find_page_ranges(&lines);

    let result = find_match_line_scoped(
        "important text",
        &lines,
        Ratio::new(1, 2),
        Some("99"), // page 99 doesn't exist
        &page_ranges,
    );
    assert!(result.is_some(), "should fall back to full-doc search");
}

#[test]
fn test_scoped_no_page_label() {
    // When page_label is None, should search full document
    let lines = vec![
        "<!-- Page 0 - 0 images -->",
        "the text to find",
    ];
    let page_ranges = find_page_ranges(&lines);

    let result = find_match_line_scoped(
        "text to find",
        &lines,
        Ratio::new(1, 2),
        None,
        &page_ranges,
    );
    assert!(result.is_some());
}

#[test]
fn test_scoped_empty_needle() {
    let lines = vec!["some text"];
    assert_eq!(
        find_match_line_scoped("", &lines, Ratio::new(1, 2), None, &[]),
        None
    );
}

#[test]
fn test_scoped_cross_paragraph_match() {
    // Annotation spans two paragraphs within the same page
    let lines = vec![
        "<!-- Page 0 - 0 images -->",
        "end of first paragraph",
        "",
        "start of second paragraph",
        "",
        "unrelated trailing text",
    ];
    let page_ranges = find_page_ranges(&lines);

    // Use full-doc search (no page constraint) to focus on the windowed matching
    let result = find_match_line_scoped(
        "end of first paragraph start of second paragraph",
        &lines,
        Ratio::new(1, 2),
        None,
        &page_ranges,
    );
    assert!(result.is_some(), "should find cross-paragraph match via windowed");
}

#[test]
fn test_scoped_hyphenation_rejoin() {
    // Annotation text with line-break hyphenation in the markdown.
    // After OCR line-level normalize + paragraph hyphen rejoin,
    // "the knowl-" + "edge base" becomes "the knowledge base".
    let lines = vec![
        "the knowl-",
        "edge base",
    ];
    let result = find_match_line_scoped(
        "the knowledge base",
        &lines,
        Ratio::new(1, 2),
        None,
        &[],
    );
    assert!(result.is_some(), "OCR hyphenation should be rejoined and matched");
}

// -------------------------------------------------------------------
// MatchMetadata tests
// -------------------------------------------------------------------

#[test]
fn test_match_with_metadata_exact() {
    let lines = vec!["The quick brown fox jumps over the lazy dog"];
    let result = find_match_line_scoped_with_metadata(
        "brown fox", &lines, Ratio::new(65, 100), None, &[],
    );
    assert!(result.is_some());
    let meta = result.unwrap();
    assert_eq!(meta.match_type, "exact");
    assert_eq!(val(meta.confidence), 1.0);
    assert_eq!(meta.line_idx, 0);
}

#[test]
fn test_match_with_metadata_fuzzy() {
    let lines = vec![
        "The quick brown fox jumps over the lazy dog",
        "",
        "A completely different paragraph about something else",
    ];
    // A needle close to the first paragraph but not exact
    let result = find_match_line_scoped_with_metadata(
        "quick brown fox jumps over lazy dog", &lines, Ratio::new(1, 2), None, &[],
    );
    assert!(result.is_some());
    let meta = result.unwrap();
    // Should be either exact or fuzzy (depends on normalization)
    assert!(
        meta.match_type == "exact" || meta.match_type == "fuzzy",
        "Expected exact or fuzzy, got: {}",
        meta.match_type
    );
    assert!(val(meta.confidence) >= 0.5);
}

#[test]
fn test_match_with_metadata_empty_needle() {
    let lines = vec!["some text"];
    let result = find_match_line_scoped_with_metadata(
        "", &lines, Ratio::new(65, 100), None, &[],
    );
    assert!(result.is_none());
}

#[test]
fn test_match_with_metadata_no_match() {
    let lines = vec!["The quick brown fox"];
    let result = find_match_line_scoped_with_metadata(
        "completely unrelated text about quantum physics", &lines, Ratio::new(9, 10), None, &[],
    );
    assert!(result.is_none());
}

#[test]
fn test_match_with_metadata_scoped_to_page() {
    let lines = vec![
        "<!-- Page 1 - 0 images -->",
        "First page content about biology",
        "",
        "<!-- Page 2 - 0 images -->",
        "Second page content about chemistry",
        "",
        "<!-- Page 3 - 0 images -->",
        "Third page content about physics",
    ];
    let page_ranges = find_page_ranges(&lines);
    let result = find_match_line_scoped_with_metadata(
        "content about chemistry", &lines, Ratio::new(65, 100), Some("2"), &page_ranges,
    );
    assert!(result.is_some());
    let meta = result.unwrap();
    assert_eq!(meta.line_idx, 4);
}
