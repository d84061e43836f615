use zolit::manifest::{update_manifest_entry, ZoteroSyncManifest};
use zolit::matching::score::Ratio;
use zolit::pipeline::{sync_entry_content, BatchImportResult, ImportResult};
use zolit::zotero::db::child_note_from_row;
use zolit::zotero::types::{ZoteroAnnotation, ZoteroChildNote};

fn annotations() -> Vec<ZoteroAnnotation> {
    vec![
        ZoteroAnnotation {
            item_id: 305,
            ann_type: 1,
            text: Some("highlighted text on page one".to_string()),
            comment: None,
            color: Some("#ffd400".to_string()),
            page_label: Some("1".to_string()),
            sort_index: "00001|000020|00000".to_string(),
        },
        ZoteroAnnotation {
            item_id: 302,
            ann_type: 2,
            text: None,
            comment: Some("sticky note text".to_string()),
            color: Some("#ff6666".to_string()),
            page_label: Some("3".to_string()),
            sort_index: "00003|000050|00000".to_string(),
        },
        ZoteroAnnotation {
            item_id: 301,
            ann_type: 1,
            text: Some("highlighted text one".to_string()),
            comment: Some("my comment".to_string()),
            color: Some("#ffd400".to_string()),
            page_label: Some("5".to_string()),
            sort_index: "00005|000100|00000".to_string(),
        },
    ]
}

fn notes() -> Vec<ZoteroChildNote> {
    vec![child_note_from_row(400, Some("<p>A <b>child note</b>.</p>".to_string()), None)]
}

fn threshold() -> Ratio {
    Ratio::new(2, 5)
}

#[test]
fn sync_content_inserts_annotations() {
    let content = "---\ntitle: Test\n---\n\nhighlighted text on page one\n\nsome other text\n\nhighlighted text one with my comment\n";
    let (result, text) = sync_entry_content(
        "Smith2024_Deep_Learning",
        content,
        &annotations(),
        &notes(),
        threshold(),
        &ZoteroSyncManifest::default(),
    );
    let text = text.expect("new content to write");
    assert_eq!(result, ImportResult { inserted: 4, unmatched: 1, skipped: 0 });
    assert!(text.contains("<!---[zot-305]"));
    assert!(text.contains("<!---[zot-301]"));
    assert!(text.contains("## Zotero Notes"));
    assert!(text.contains("A **child note**."));
    assert!(text.contains("## Unmatched Zotero Annotations"));
    // The matched highlight sits right after its line.
    let line = text.find("highlighted text on page one\n").unwrap();
    let comment = text.find("<!---[zot-305]").unwrap();
    assert!(line < comment && comment < text.find("some other text").unwrap());
    // The sticky note has no text to match and lands in the unmatched section.
    assert!(text.find("<!---[zot-302]").unwrap() > text.find("## Unmatched Zotero Annotations").unwrap());
    assert!(text.ends_with('\n'));
}

#[test]
fn sync_content_dedup_skips_existing() {
    let content = "---\ntitle: Test\n---\n\nhighlighted text on page one\n\nhighlighted text one\n";
    let anns = annotations();
    let nts = notes();
    let manifest = ZoteroSyncManifest::default();
    let (first, text) = sync_entry_content("Smith2024_Deep_Learning", content, &anns, &nts, threshold(), &manifest);
    assert!(first.inserted > 0);
    let mut manifest2 = manifest.clone();
    update_manifest_entry(&mut manifest2, "Smith2024_Deep_Learning", &anns, &nts);
    let (second, none) =
        sync_entry_content("Smith2024_Deep_Learning", &text.unwrap(), &anns, &nts, threshold(), &manifest2);
    assert_eq!(second.inserted, 0);
    assert_eq!(second.skipped, 4);
    assert!(none.is_none());
}

#[test]
fn sync_content_ids_in_file_are_skipped() {
    let content = "text\n<!---[zot-305] n: | old --->\n";
    let anns = annotations();
    let (result, text) = sync_entry_content("s", content, &anns[..1], &[], threshold(), &ZoteroSyncManifest::default());
    assert_eq!(result, ImportResult { inserted: 0, unmatched: 0, skipped: 1 });
    assert!(text.is_none());
}

#[test]
fn sync_content_without_match_goes_to_unmatched_section() {
    let content = "# Title\n\nnothing related";
    let anns = annotations();
    let (result, text) = sync_entry_content("s", content, &anns[2..], &[], threshold(), &ZoteroSyncManifest::default());
    assert_eq!(result, ImportResult { inserted: 1, unmatched: 1, skipped: 0 });
    let text = text.unwrap();
    assert!(text.starts_with("# Title\n\nnothing related\n\n## Unmatched Zotero Annotations\n\n<!---[zot-301]"));
}

#[test]
fn batch_tallies() {
    let mut b = BatchImportResult::default();
    b.record_import(&ImportResult { inserted: 3, unmatched: 1, skipped: 2 });
    b.record_dry_run();
    b.record_error("X".to_string(), "failed".to_string());
    assert_eq!(b.entries_processed, 3);
    assert_eq!(b.total_inserted, 3);
    assert_eq!(b.total_unmatched, 1);
    assert_eq!(b.total_skipped, 2);
    assert_eq!(b.errors, vec![("X".to_string(), "failed".to_string())]);
}
