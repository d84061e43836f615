use zolit::error::ZolitError;


#[test]
fn display_no_companion() {
    let e = ZolitError::NoCompanion {
        stem: "Smith2024".into(),
    };
    assert_eq!(
        e.message(),
        "no companion markdown found for \"Smith2024\""
    );
}

#[test]
fn display_no_zotero_match() {
    let e = ZolitError::NoZoteroMatch {
        stem: "Jones2023".into(),
    };
    assert_eq!(
        e.message(),
        "no matching PDF found in Zotero for \"Jones2023\""
    );
}

#[test]
fn display_other() {
    let e = ZolitError::Other("something went wrong".into());
    assert_eq!(e.message(), "something went wrong");
}

#[test]
fn display_other_kinds() {
    let e = ZolitError::DbOpen { path: "/z".to_string(), source: "boom".to_string() };
    assert_eq!(e.message(), "failed to open Zotero database at /z: boom");
    assert_eq!(ZolitError::DbQuery("bad".into()).message(), "database query failed: bad");
    assert_eq!(
        ZolitError::Io { source: "denied".into(), path: "/a.md".into() }.message(),
        "I/O error: denied (/a.md)"
    );
    assert_eq!(ZolitError::IoPlain("x".into()).message(), "I/O error: x");
    assert_eq!(
        ZolitError::ManifestParse { path: "/m".into(), source: "eof".into() }.message(),
        "failed to parse manifest at /m: eof"
    );
}
