use zolit::matching::page_scope::{
    build_paragraphs_ocr, find_page_ranges, page_scoped_line_range, rejoin_paragraph_hyphens, PageRange,
};


// -------------------------------------------------------------------
// find_page_ranges tests
// -------------------------------------------------------------------

#[test]
fn test_find_page_ranges_basic() {
    let lines = vec![
        "<!-- Page 0 - 2 images -->",
        "line 1",
        "line 2",
        "<!-- Page 1 - 0 images -->",
        "line 4",
        "line 5",
    ];
    let ranges = find_page_ranges(&lines);
    assert_eq!(ranges.len(), 2);
    assert_eq!(
        ranges[0],
        PageRange { page_index: 0, start_line: 0, end_line: 2 }
    );
    assert_eq!(
        ranges[1],
        PageRange { page_index: 1, start_line: 3, end_line: 5 }
    );
}

#[test]
fn test_find_page_ranges_no_markers() {
    let lines = vec!["just text", "more text"];
    let ranges = find_page_ranges(&lines);
    assert!(ranges.is_empty());
}

#[test]
fn test_find_page_ranges_single_page() {
    let lines = vec!["<!-- Page 0 - 1 images -->", "content"];
    let ranges = find_page_ranges(&lines);
    assert_eq!(ranges.len(), 1);
    assert_eq!(
        ranges[0],
        PageRange { page_index: 0, start_line: 0, end_line: 1 }
    );
}

#[test]
fn test_find_page_ranges_with_frontmatter() {
    let lines = vec![
        "---",
        "title: X",
        "---",
        "<!-- Page 0 - 0 images -->",
        "text",
    ];
    let ranges = find_page_ranges(&lines);
    assert_eq!(ranges.len(), 1);
    assert_eq!(
        ranges[0],
        PageRange { page_index: 0, start_line: 3, end_line: 4 }
    );
}

#[test]
fn test_find_page_ranges_many_pages() {
    let lines = vec![
        "<!-- Page 0 - 1 images -->",
        "page 0 content",
        "<!-- Page 1 - 2 images -->",
        "page 1 content",
        "more page 1",
        "<!-- Page 2 - 0 images -->",
        "page 2 content",
        "<!-- Page 3 - 1 images -->",
        "page 3 content",
        "last line",
    ];
    let ranges = find_page_ranges(&lines);
    assert_eq!(ranges.len(), 4);
    assert_eq!(ranges[0].page_index, 0);
    assert_eq!(ranges[1].page_index, 1);
    assert_eq!(ranges[2].page_index, 2);
    assert_eq!(ranges[3].page_index, 3);
    assert_eq!(ranges[3].end_line, 9);
}

// -------------------------------------------------------------------
// page_scoped_line_range tests
// -------------------------------------------------------------------

#[test]
fn test_page_scoped_range_middle_page() {
    // Pages 0-4; page_label "3" means OCR page 2, scope = pages 1,2,3
    let ranges = vec![
        PageRange { page_index: 0, start_line: 0, end_line: 9 },
        PageRange { page_index: 1, start_line: 10, end_line: 19 },
        PageRange { page_index: 2, start_line: 20, end_line: 29 },
        PageRange { page_index: 3, start_line: 30, end_line: 39 },
        PageRange { page_index: 4, start_line: 40, end_line: 49 },
    ];
    let result = page_scoped_line_range("3", &ranges);
    // target_ocr_page = 2, scope = pages 1..3
    assert_eq!(result, Some((10, 39)));
}

#[test]
fn test_page_scoped_range_first_page() {
    let ranges = vec![
        PageRange { page_index: 0, start_line: 0, end_line: 9 },
        PageRange { page_index: 1, start_line: 10, end_line: 19 },
        PageRange { page_index: 2, start_line: 20, end_line: 29 },
    ];
    // page_label "1" -> OCR page 0, scope = pages 0..1
    let result = page_scoped_line_range("1", &ranges);
    assert_eq!(result, Some((0, 19)));
}

#[test]
fn test_page_scoped_range_last_page() {
    let ranges = vec![
        PageRange { page_index: 0, start_line: 0, end_line: 9 },
        PageRange { page_index: 1, start_line: 10, end_line: 19 },
        PageRange { page_index: 2, start_line: 20, end_line: 29 },
    ];
    // page_label "3" -> OCR page 2, scope = pages 1..3 (only 1,2 exist)
    let result = page_scoped_line_range("3", &ranges);
    assert_eq!(result, Some((10, 29)));
}

#[test]
fn test_page_scoped_range_non_numeric_label() {
    let ranges = vec![
        PageRange { page_index: 0, start_line: 0, end_line: 9 },
    ];
    assert_eq!(page_scoped_line_range("iv", &ranges), None);
}

#[test]
fn test_page_scoped_range_no_matching_pages() {
    let ranges = vec![
        PageRange { page_index: 0, start_line: 0, end_line: 9 },
        PageRange { page_index: 1, start_line: 10, end_line: 19 },
    ];
    // page_label "99" -> OCR page 98, scope = pages 97..99, none exist
    assert_eq!(page_scoped_line_range("99", &ranges), None);
}

#[test]
fn test_page_scoped_range_page_zero_label() {
    // page_label "0" -> human_page 0 -> checked_sub(1) fails -> None
    let ranges = vec![
        PageRange { page_index: 0, start_line: 0, end_line: 9 },
    ];
    assert_eq!(page_scoped_line_range("0", &ranges), None);
}

#[test]
fn test_page_scoped_range_empty_ranges() {
    assert_eq!(page_scoped_line_range("1", &[]), None);
}

#[test]
fn test_rejoin_paragraph_hyphens_preserves_non_ascii() {
    assert_eq!(rejoin_paragraph_hyphens("über- schrift"), "überschrift");
    assert_eq!(rejoin_paragraph_hyphens("café"), "café");
    assert_eq!(rejoin_paragraph_hyphens("日本語テキスト"), "日本語テキスト");
}

#[test]
fn rejoin_only_word_final_hyphens() {
    assert_eq!(rejoin_paragraph_hyphens("knowl- edge"), "knowledge");
    assert_eq!(rejoin_paragraph_hyphens("a - b"), "a - b");
    assert_eq!(rejoin_paragraph_hyphens("- b"), "- b");
}
