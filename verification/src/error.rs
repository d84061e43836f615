//! The errors of the library, each carrying plain text.
use vstd::prelude::*;

verus! {

/// What can go wrong. Errors of the database, the file system or the
/// manifest parser are kept as their messages.
#[derive(Clone, Debug)]
pub enum ZolitError {
    DbOpen { path: String, source: String },
    DbQuery(String),
    Io { source: String, path: String },
    IoPlain(String),
    ManifestParse { path: String, source: String },
    NoCompanion { stem: String },
    NoZoteroMatch { stem: String },
    Other(String),
}

/// Results whose errors are `ZolitError`s.
pub type Result<T> = core::result::Result<T, ZolitError>;

impl ZolitError {
    /// The message of an error.
    pub open spec fn message_spec(&self) -> Seq<char> {
        match self {
            ZolitError::DbOpen { path, source } => "failed to open Zotero database at "@ + path@ + ": "@
                + source@,
            ZolitError::DbQuery(e) => "database query failed: "@ + e@,
            ZolitError::Io { source, path } => "I/O error: "@ + source@ + " ("@ + path@ + ")"@,
            ZolitError::IoPlain(e) => "I/O error: "@ + e@,
            ZolitError::ManifestParse { path, source } => "failed to parse manifest at "@ + path@ + ": "@
                + source@,
            ZolitError::NoCompanion { stem } => "no companion markdown found for \""@ + stem@ + "\""@,
            ZolitError::NoZoteroMatch { stem } => "no matching PDF found in Zotero for \""@ + stem@ + "\""@,
            ZolitError::Other(m) => m@,
        }
    }

    /// The message of this error, as it is shown to the user.
    pub fn message(&self) -> (r: String)
        ensures
            r@ == self.message_spec(),
    {
        let mut v: Vec<char> = Vec::new();
        match self {
            ZolitError::DbOpen { path, source } => {
                crate::text::extend_str(&mut v, "failed to open Zotero database at ");
                crate::text::extend_str(&mut v, path.as_str());
                crate::text::extend_str(&mut v, ": ");
                crate::text::extend_str(&mut v, source.as_str());
            },
            ZolitError::DbQuery(e) => {
                crate::text::extend_str(&mut v, "database query failed: ");
                crate::text::extend_str(&mut v, e.as_str());
            },
            ZolitError::Io { source, path } => {
                crate::text::extend_str(&mut v, "I/O error: ");
                crate::text::extend_str(&mut v, source.as_str());
                crate::text::extend_str(&mut v, " (");
                crate::text::extend_str(&mut v, path.as_str());
                crate::text::extend_str(&mut v, ")");
            },
            ZolitError::IoPlain(e) => {
                crate::text::extend_str(&mut v, "I/O error: ");
                crate::text::extend_str(&mut v, e.as_str());
            },
            ZolitError::ManifestParse { path, source } => {
                crate::text::extend_str(&mut v, "failed to parse manifest at ");
                crate::text::extend_str(&mut v, path.as_str());
                crate::text::extend_str(&mut v, ": ");
                crate::text::extend_str(&mut v, source.as_str());
            },
            ZolitError::NoCompanion { stem } => {
                crate::text::extend_str(&mut v, "no companion markdown found for \"");
                crate::text::extend_str(&mut v, stem.as_str());
                crate::text::extend_str(&mut v, "\"");
            },
            ZolitError::NoZoteroMatch { stem } => {
                crate::text::extend_str(&mut v, "no matching PDF found in Zotero for \"");
                crate::text::extend_str(&mut v, stem.as_str());
                crate::text::extend_str(&mut v, "\"");
            },
            ZolitError::Other(m) => {
                crate::text::extend_str(&mut v, m.as_str());
            },
        }
        crate::text::string_of(v.as_slice())
    }
}

} // verus!
