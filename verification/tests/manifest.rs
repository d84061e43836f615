use zolit::manifest::{
    manifest_path, update_manifest_entry, zotero_db_changed_since_last_import, SyncEntryState,
    ZoteroSyncManifest,
};
use zolit::zotero::types::{ZoteroAnnotation, ZoteroChildNote};

#[test]
fn test_manifest_path() {
    let path = manifest_path("/workspace");
    assert_eq!(path, "/workspace/.zolit-sync.json");
}

#[test]
fn manifest_path_after_separator_and_empty() {
    assert_eq!(manifest_path("/workspace/"), "/workspace/.zolit-sync.json");
    assert_eq!(manifest_path(""), ".zolit-sync.json");
}

#[test]
fn db_changed_detects_change() {
    let manifest = ZoteroSyncManifest { last_db_mtime: Some(12345), ..Default::default() };
    assert!(zotero_db_changed_since_last_import(Some(99999), &manifest));
}

#[test]
fn db_changed_same_mtime_returns_false() {
    let manifest = ZoteroSyncManifest { last_db_mtime: Some(12345), ..Default::default() };
    assert!(!zotero_db_changed_since_last_import(Some(12345), &manifest));
}

#[test]
fn db_changed_unknown_mtimes_return_true() {
    let manifest = ZoteroSyncManifest { last_db_mtime: None, ..Default::default() };
    assert!(zotero_db_changed_since_last_import(Some(1), &manifest));
    let manifest = ZoteroSyncManifest { last_db_mtime: Some(1), ..Default::default() };
    assert!(zotero_db_changed_since_last_import(None, &manifest));
}

#[test]
fn test_update_manifest_entry_adds_new_ids() {
    let mut manifest = ZoteroSyncManifest::default();
    let anns = vec![ZoteroAnnotation {
        item_id: 301,
        ann_type: 1,
        text: Some("text".to_string()),
        comment: None,
        color: None,
        page_label: None,
        sort_index: "00001|000001|00000".to_string(),
    }];
    let notes = vec![ZoteroChildNote {
        item_id: 400,
        html_content: "note".to_string(),
        title: None,
    }];

    update_manifest_entry(&mut manifest, "smith2024", &anns, &notes);

    let entry = manifest.get_entry("smith2024").unwrap();
    assert!(entry.imported_ids.contains(&"zot-301".to_string()));
    assert!(entry.imported_ids.contains(&"zot-note-400".to_string()));
}

#[test]
fn test_update_manifest_entry_preserves_existing_ids() {
    let mut manifest = ZoteroSyncManifest::default();
    manifest.insert_entry(
        "smith2024",
        SyncEntryState {
            imported_ids: vec!["zot-100".to_string()],
        },
    );

    let anns = vec![ZoteroAnnotation {
        item_id: 301,
        ann_type: 1,
        text: None,
        comment: None,
        color: None,
        page_label: None,
        sort_index: "00001|000001|00000".to_string(),
    }];

    update_manifest_entry(&mut manifest, "smith2024", &anns, &[]);

    let entry = manifest.get_entry("smith2024").unwrap();
    assert!(entry.imported_ids.contains(&"zot-100".to_string()));
    assert!(entry.imported_ids.contains(&"zot-301".to_string()));
}

#[test]
fn test_update_manifest_entry_sorted_ids() {
    let mut manifest = ZoteroSyncManifest::default();
    let anns = vec![
        ZoteroAnnotation {
            item_id: 999,
            ann_type: 1,
            text: None,
            comment: None,
            color: None,
            page_label: None,
            sort_index: "00001|000001|00000".to_string(),
        },
        ZoteroAnnotation {
            item_id: 100,
            ann_type: 1,
            text: None,
            comment: None,
            color: None,
            page_label: None,
            sort_index: "00002|000001|00000".to_string(),
        },
    ];

    update_manifest_entry(&mut manifest, "test", &anns, &[]);

    let entry = manifest.get_entry("test").unwrap();
    let ids = &entry.imported_ids;
    for i in 1..ids.len() {
        assert!(ids[i - 1] <= ids[i], "IDs should be sorted");
    }
}

#[test]
fn update_twice_is_idempotent_and_dedups() {
    let ann = ZoteroAnnotation {
        item_id: 5,
        ann_type: 1,
        text: None,
        comment: None,
        color: None,
        page_label: None,
        sort_index: "0".to_string(),
    };
    let mut m = ZoteroSyncManifest::default();
    m.insert_entry("k", SyncEntryState { imported_ids: vec!["zot-5".into(), "zot-1".into(), "zot-5".into()] });
    update_manifest_entry(&mut m, "k", &[ann.clone()], &[]);
    let once = m.clone();
    update_manifest_entry(&mut m, "k", &[ann], &[]);
    assert_eq!(m, once);
    assert_eq!(m.get_entry("k").unwrap().imported_ids, vec!["zot-1".to_string(), "zot-5".to_string()]);
}

#[test]
fn update_keeps_other_entries_and_times() {
    let mut m = ZoteroSyncManifest {
        last_import: Some("2024-01-01T00:00:00Z".to_string()),
        last_db_mtime: Some(7),
        ..Default::default()
    };
    m.insert_entry("a", SyncEntryState { imported_ids: vec!["zot-1".into()] });
    update_manifest_entry(&mut m, "b", &[], &[]);
    assert_eq!(m.get_entry("a").unwrap().imported_ids, vec!["zot-1".to_string()]);
    assert!(m.get_entry("b").unwrap().imported_ids.is_empty());
    assert_eq!(m.last_db_mtime, Some(7));
    assert_eq!(m.last_import, Some("2024-01-01T00:00:00Z".to_string()));
    assert_eq!(m.entries.len(), 2);
    assert!(m.get_entry("c").is_none());
}
