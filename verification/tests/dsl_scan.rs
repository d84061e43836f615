use zolit::dsl::generate::{zotero_ann_to_dsl, zotero_note_to_dsl};
use zolit::dsl::scan::existing_zotero_ids;
use zolit::zotero::types::{ZoteroAnnotation, ZoteroChildNote};

fn has(ids: &[String], id: &str) -> bool {
    ids.iter().any(|s| s == id)
}

#[test]
fn existing_ids_empty_content() {
    let ids = existing_zotero_ids("");
    assert!(ids.is_empty());
}

#[test]
fn existing_ids_no_zotero_annotations() {
    let content = "# Title\n\nSome text\n\n<!---[abc-123] n: | a note --->";
    let ids = existing_zotero_ids(content);
    assert!(ids.is_empty());
}

#[test]
fn existing_ids_finds_annotation_ids() {
    let content = r#"# Title

<!---[zot-301] n: ^"text" | comment --->

Some text

<!---[zot-note-400] n: | note content --->
"#;
    let ids = existing_zotero_ids(content);
    assert_eq!(ids.len(), 2);
    assert!(has(&ids, "zot-301"));
    assert!(has(&ids, "zot-note-400"));
}

#[test]
fn existing_ids_handles_block_form() {
    let content = "<!---[zot-999]\nn:\n---\nbody\n--->";
    let ids = existing_zotero_ids(content);
    assert!(has(&ids, "zot-999"));
}

#[test]
fn existing_ids_ignores_non_zotero() {
    let content = "<!---[abc-123] n: | body --->\n<!---[zot-42] n: | body --->";
    let ids = existing_zotero_ids(content);
    assert_eq!(ids.len(), 1);
    assert!(has(&ids, "zot-42"));
}

#[test]
fn existing_ids_listed_once() {
    let content = "<!---[zot-7] n: | a --->\n<!---[zot-7] n: | b --->";
    let ids = existing_zotero_ids(content);
    assert_eq!(ids, vec!["zot-7".to_string()]);
}

#[test]
fn generated_comment_id_is_found_again() {
    let ann = ZoteroAnnotation {
        item_id: 77,
        ann_type: 1,
        text: Some("text".to_string()),
        comment: None,
        color: None,
        page_label: None,
        sort_index: "0".to_string(),
    };
    let note = ZoteroChildNote { item_id: 78, html_content: "body".to_string(), title: None };
    assert!(has(&existing_zotero_ids(&zotero_ann_to_dsl(&ann)), "zot-77"));
    assert!(has(&existing_zotero_ids(&zotero_note_to_dsl(&note)), "zot-note-78"));
}
