use zolit::error::ZolitError;
use zolit::zotero::db::{
    child_note_from_row, encode_sqlite_uri_path, first_attachment_with_parent, open_error,
    pdf_file_name, pdf_stem_from_path, query_all_annotated_pdfs, sqlite_read_only_uri,
};

#[test]
fn test_encode_sqlite_uri_path_no_specials() {
    assert_eq!(
        encode_sqlite_uri_path("/usr/local/zotero.sqlite"),
        "/usr/local/zotero.sqlite"
    );
}

#[test]
fn test_encode_sqlite_uri_path_space() {
    assert_eq!(
        encode_sqlite_uri_path("/path with spaces/db.sqlite"),
        "/path%20with%20spaces/db.sqlite"
    );
}

#[test]
fn test_encode_sqlite_uri_path_hash() {
    assert_eq!(
        encode_sqlite_uri_path("/path/#fragment/db.sqlite"),
        "/path/%23fragment/db.sqlite"
    );
}

#[test]
fn test_encode_sqlite_uri_path_question_mark() {
    assert_eq!(
        encode_sqlite_uri_path("/path/what?/db.sqlite"),
        "/path/what%3F/db.sqlite"
    );
}

#[test]
fn test_encode_sqlite_uri_path_percent() {
    assert_eq!(
        encode_sqlite_uri_path("/path/100%/db.sqlite"),
        "/path/100%25/db.sqlite"
    );
}

#[test]
fn test_encode_sqlite_uri_path_multiple_specials() {
    assert_eq!(
        encode_sqlite_uri_path("/a b/c#d/e?f/100%"),
        "/a%20b/c%23d/e%3Ff/100%25"
    );
}

#[test]
fn test_encode_sqlite_uri_path_non_ascii() {
    assert_eq!(
        encode_sqlite_uri_path("/home/user/Référence/zotero.sqlite"),
        "/home/user/Référence/zotero.sqlite"
    );
}

#[test]
fn read_only_uri_wraps_encoded_path() {
    assert_eq!(
        sqlite_read_only_uri("/a b/zotero.sqlite"),
        "file:/a%20b/zotero.sqlite?mode=ro"
    );
}

#[test]
fn open_error_locked_database_suggests_closing_zotero() {
    let e = open_error("/z.sqlite", "database is locked");
    assert_eq!(
        e.message(),
        "Zotero database at /z.sqlite is locked — is Zotero running? Close Zotero or try again in a moment. (database is locked)"
    );
    assert!(matches!(open_error("/z.sqlite", "SQLITE_BUSY: busy"), ZolitError::Other(_)));
}

#[test]
fn open_error_other_failures_keep_path_and_message() {
    match open_error("/z.sqlite", "unable to open database file") {
        ZolitError::DbOpen { path, source } => {
            assert_eq!(path, "/z.sqlite");
            assert_eq!(source, "unable to open database file");
        }
        other => panic!("unexpected error {:?}", other),
    }
}

#[test]
fn pdf_file_name_appends_extension() {
    assert_eq!(pdf_file_name("Smith2024"), "Smith2024.pdf");
}

#[test]
fn first_attachment_skips_orphans() {
    assert_eq!(first_attachment_with_parent(&[(1, None), (2, Some(20)), (3, Some(30))]), Some((2, 20)));
    assert_eq!(first_attachment_with_parent(&[(1, None)]), None);
    assert_eq!(first_attachment_with_parent(&[]), None);
}

#[test]
fn child_note_html_is_converted() {
    let n = child_note_from_row(400, Some("<p>A <b>child note</b>.</p>".to_string()), None);
    assert_eq!(n.item_id, 400);
    assert_eq!(n.html_content, "A **child note**.");
    assert_eq!(n.title, None);
    let empty = child_note_from_row(401, None, Some("T".to_string()));
    assert_eq!(empty.html_content, "");
    assert_eq!(empty.title, Some("T".to_string()));
}

#[test]
fn pdf_stems_from_stored_and_linked_paths() {
    assert_eq!(pdf_stem_from_path("storage:Smith2024_Deep_Learning.pdf"), "Smith2024_Deep_Learning");
    assert_eq!(pdf_stem_from_path("/home/me/papers/Jones2023.PDF"), "Jones2023");
    assert_eq!(pdf_stem_from_path("notes.txt"), "notes.txt");
    assert_eq!(pdf_stem_from_path("storage:dir/a.pdf"), "dir/a");
}

#[test]
fn annotated_pdf_rows_become_stems() {
    let rows = vec![
        ("storage:Smith2024_Deep_Learning.pdf".to_string(), 200, 100),
        ("/x/y/Other.pdf".to_string(), 201, 101),
    ];
    let pdfs = query_all_annotated_pdfs(rows);
    assert_eq!(pdfs.len(), 2);
    assert_eq!(pdfs[0].0, "Smith2024_Deep_Learning");
    assert_eq!(pdfs[0].1, 200);
    assert_eq!(pdfs[0].2, 100);
    assert_eq!(pdfs[1].0, "Other");
}
