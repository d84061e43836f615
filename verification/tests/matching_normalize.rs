use zolit::matching::normalize::{normalize, ocr_normalize};


#[test]
fn test_normalize_collapses_whitespace() {
    assert_eq!(normalize("  hello   world  "), "hello world");
}

#[test]
fn test_normalize_lowercases() {
    assert_eq!(normalize("Hello World"), "hello world");
}

#[test]
fn test_normalize_handles_newlines() {
    assert_eq!(normalize("line1\nline2\tline3"), "line1 line2 line3");
}

#[test]
fn test_normalize_empty_string() {
    assert_eq!(normalize(""), "");
}

#[test]
fn test_normalize_whitespace_only() {
    assert_eq!(normalize("   \t\n  "), "");
}

// -------------------------------------------------------------------
// ocr_normalize tests
// -------------------------------------------------------------------

#[test]
fn test_ocr_normalize_hyphenation() {
    assert_eq!(ocr_normalize("knowl-\nedge base"), "knowledge base");
}

#[test]
fn test_ocr_normalize_hyphenation_with_spaces() {
    assert_eq!(ocr_normalize("knowl-\n  edge"), "knowledge");
}

#[test]
fn test_ocr_normalize_hyphenation_not_joined_uppercase() {
    // "Smith-\nJones" should NOT be joined because J is uppercase
    let result = ocr_normalize("Smith-\nJones");
    assert!(
        result.contains("-"),
        "uppercase after hyphen should not be joined: '{}'",
        result
    );
}

#[test]
fn test_ocr_normalize_hyphenation_crlf() {
    assert_eq!(ocr_normalize("knowl-\r\nedge"), "knowledge");
}

#[test]
fn test_ocr_normalize_ligatures() {
    assert_eq!(ocr_normalize("\u{FB01}rst \u{FB02}oor"), "first floor");
}

#[test]
fn test_ocr_normalize_ff_ligatures() {
    assert_eq!(ocr_normalize("\u{FB00}ect"), "ffect");
    assert_eq!(ocr_normalize("\u{FB03}ce"), "ffice");
    assert_eq!(ocr_normalize("\u{FB04}e"), "ffle");
}

#[test]
fn test_ocr_normalize_st_ligature() {
    assert_eq!(ocr_normalize("\u{FB06}yle"), "style");
}

#[test]
fn test_ocr_normalize_curly_quotes() {
    assert_eq!(
        ocr_normalize("\u{201C}hello\u{201D}"),
        "\"hello\""
    );
    assert_eq!(
        ocr_normalize("\u{2018}it\u{2019}s"),
        "'it's"
    );
}

#[test]
fn test_ocr_normalize_dashes() {
    assert_eq!(ocr_normalize("a\u{2014}b\u{2013}c"), "a-b-c");
    assert_eq!(ocr_normalize("x\u{2212}y"), "x-y"); // minus sign
}

#[test]
fn test_ocr_normalize_combined() {
    assert_eq!(
        ocr_normalize("The \u{FB01}eld of knowl-\nedge\u{2014}based systems"),
        "the field of knowledge-based systems"
    );
}

#[test]
fn test_ocr_normalize_plain_text() {
    assert_eq!(ocr_normalize("hello world"), "hello world");
}

#[test]
fn test_ocr_normalize_empty() {
    assert_eq!(ocr_normalize(""), "");
}

#[test]
fn normalize_unicode_whitespace() {
    assert_eq!(normalize("a\u{3000}b\u{a0}c\u{2009}d"), "a b c d");
    assert_eq!(normalize("a\u{200b}b"), "a\u{200b}b");
}

#[test]
fn collapsed_whitespace_is_single_spaces_and_stays_put() {
    let text: Vec<char> = " \t Hello \n\n  wide\u{3000}World \r\n".chars().collect();
    let once = zolit::text::collapse_whitespace(&text);
    let once_str: String = once.iter().collect();
    assert_eq!(once_str, "Hello wide World");
    let twice = zolit::text::collapse_whitespace(&once);
    assert_eq!(twice, once);
    assert_eq!(normalize("  Hello   World  "), "hello world");
    assert_eq!(normalize(&normalize("  Hello   World  ")), "hello world");
    assert_eq!(normalize(&once_str), normalize(" \t Hello \n\n  wide\u{3000}World \r\n"));
}
