use zolit::html::{decode_html_entities, html_to_markdown, replace_spans, strip_html_tags};


#[test]
fn strip_html_tags_works() {
    assert_eq!(strip_html_tags("<p>Hello <b>world</b></p>"), "Hello world");
    assert_eq!(strip_html_tags("plain text"), "plain text");
    assert_eq!(strip_html_tags("<br/>line<br>break"), "linebreak");
    assert_eq!(strip_html_tags(""), "");
    assert_eq!(strip_html_tags("<p>  spaced   out  </p>"), "spaced out");
}

// -----------------------------------------------------------------------
// html_to_markdown tests
// -----------------------------------------------------------------------

#[test]
fn html_to_markdown_empty() {
    assert_eq!(html_to_markdown(""), "");
}

#[test]
fn html_to_markdown_plain_text() {
    assert_eq!(html_to_markdown("no html here"), "no html here");
}

#[test]
fn html_to_markdown_paragraphs() {
    assert_eq!(
        html_to_markdown("<p>First</p><p>Second</p>"),
        "First\n\nSecond"
    );
}

#[test]
fn html_to_markdown_inline_formatting() {
    assert_eq!(
        html_to_markdown("<em>italic</em> and <strong>bold</strong>"),
        "*italic* and **bold**"
    );
    assert_eq!(
        html_to_markdown("<i>italic</i> and <b>bold</b>"),
        "*italic* and **bold**"
    );
}

#[test]
fn html_to_markdown_links() {
    assert_eq!(
        html_to_markdown(r#"<a href="https://example.com">click</a>"#),
        "[click](https://example.com)"
    );
}

#[test]
fn html_to_markdown_br() {
    assert_eq!(
        html_to_markdown("line1<br>line2<br/>line3"),
        "line1\nline2\nline3"
    );
}

#[test]
fn html_to_markdown_unordered_list() {
    assert_eq!(
        html_to_markdown("<ul><li>one</li><li>two</li></ul>"),
        "- one\n- two"
    );
}

#[test]
fn html_to_markdown_ordered_list() {
    assert_eq!(
        html_to_markdown("<ol><li>first</li><li>second</li></ol>"),
        "1. first\n2. second"
    );
}

#[test]
fn html_to_markdown_blockquote() {
    assert_eq!(
        html_to_markdown("<blockquote>quoted text</blockquote>"),
        "> quoted text"
    );
}

#[test]
fn html_to_markdown_headings() {
    assert_eq!(html_to_markdown("<h1>Title</h1>"), "# Title");
    assert_eq!(html_to_markdown("<h3>Sub</h3>"), "### Sub");
}

#[test]
fn html_to_markdown_entities() {
    assert_eq!(html_to_markdown("&amp; &lt; &gt; &quot;"), "& < > \"");
    assert_eq!(html_to_markdown("&#65;&#x42;"), "AB");
}

#[test]
fn html_to_markdown_strips_unknown_tags() {
    assert_eq!(html_to_markdown("<span class='x'>text</span>"), "text");
}

#[test]
fn html_to_markdown_code() {
    assert_eq!(html_to_markdown("<code>foo()</code>"), "`foo()`");
}

#[test]
fn html_to_markdown_nested() {
    assert_eq!(
        html_to_markdown("<p>A <em>bold <strong>and italic</strong></em> end</p>"),
        "A *bold **and italic*** end"
    );
}

#[test]
fn html_to_markdown_zotero_note_example() {
    // Typical Zotero child note HTML
    let html = "<p>This is a <b>child note</b> with HTML.</p>";
    let md = html_to_markdown(html);
    assert_eq!(md, "This is a **child note** with HTML.");
}

#[test]
fn html_to_markdown_two_paragraphs() {
    let html = "<p>Second note</p><p>with two paragraphs.</p>";
    let md = html_to_markdown(html);
    assert_eq!(md, "Second note\n\nwith two paragraphs.");
}

#[test]
fn decode_entities_named_and_numeric() {
    assert_eq!(decode_html_entities("&amp;lt; &#169; &#x41;&#X42;"), "&lt; © AB");
    assert_eq!(decode_html_entities("&#55296; &#xZZ;"), "&#55296; &#xZZ;");
    assert_eq!(decode_html_entities("a&nbsp;b&apos;c"), "a b'c");
}

#[test]
fn strip_html_tags_leaves_no_brackets() {
    assert_eq!(strip_html_tags("a<b>c</b> > d"), "ac d");
}

#[test]
fn html_to_markdown_div_and_entities_after_tags() {
    assert_eq!(html_to_markdown("<div>x</div>&lt;b&gt;"), "x\n\n<b>");
}

#[test]
fn html_to_markdown_unknown_tag_starting_like_italic() {
    assert_eq!(html_to_markdown("<img src=\"a.png\">see <i>this</i>"), "see *this*");
    assert_eq!(html_to_markdown("<body><b>x</b></body>"), "**x**");
}

#[test]
fn decode_entities_once_each() {
    assert_eq!(decode_html_entities("&amp;lt;"), "&lt;");
    assert_eq!(decode_html_entities("&#38;#65;"), "&#65;");
    assert_eq!(decode_html_entities("&bogus; &#xD800;"), "&bogus; &#xD800;");
}

#[test]
fn replace_spans_uses_byte_offsets() {
    let spans = vec![vec![Some((0, 6)), None], vec![Some((7, 12))]];
    assert_eq!(replace_spans("h\u{e9}llo world", &spans, &["X".to_string(), "Y".to_string()]), "X Y");
}
