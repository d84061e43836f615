//! What is computed around the Zotero database queries: the read-only URI,
//! the classification of open errors, and the records built from rows.
use vstd::prelude::*;

use crate::error::ZolitError;
use crate::html::{html_to_markdown, markdown_spec};
use crate::text::{
    chars_of, extend_chars, extend_str, find_chars, find_first, rfind_char, rfind_char_in, slice_chars,
    starts_with, starts_with_chars, string_of,
};
use crate::zotero::types::ZoteroChildNote;

verus! {

/// How a path character is written in an SQLite URI: `%`, `#`, `?` and
/// space are percent-encoded, everything else is kept.
pub open spec fn uri_char(c: char) -> Seq<char> {
    if c == '%' {
        "%25"@
    } else if c == '#' {
        "%23"@
    } else if c == '?' {
        "%3F"@
    } else if c == ' ' {
        "%20"@
    } else {
        seq![c]
    }
}

/// A path with each character written as `uri_char` says.
pub open spec fn encode_uri_spec(s: Seq<char>) -> Seq<char>
    decreases s.len(),
{
    if s.len() == 0 {
        seq![]
    } else {
        encode_uri_spec(s.drop_last()) + uri_char(s.last())
    }
}

/// Percent-encodes the characters of a path that SQLite URIs reserve.
pub fn encode_sqlite_uri_path(path: &str) -> (r: String)
    ensures
        r@ == encode_uri_spec(path@),
{
    let s = chars_of(path);
    let mut out: Vec<char> = Vec::new();
    let mut i: usize = 0;
    while i < s.len()
        invariant
            i <= s@.len(),
            s@ == path@,
            out@ == encode_uri_spec(s@.take(i as int)),
        decreases s.len() - i,
    {
        let c = s[i];
        proof {
            let t = s@.take(i + 1);
            assert(t.drop_last() =~= s@.take(i as int));
            assert(t.last() == c);
        }
        if c == '%' {
            extend_str(&mut out, "%25");
        } else if c == '#' {
            extend_str(&mut out, "%23");
        } else if c == '?' {
            extend_str(&mut out, "%3F");
        } else if c == ' ' {
            extend_str(&mut out, "%20");
        } else {
            out.push(c);
        }
        i = i + 1;
    }
    assert(s@.take(i as int) =~= s@);
    string_of(out.as_slice())
}

/// The URI that opens the database read-only: `file:<encoded path>?mode=ro`.
pub fn sqlite_read_only_uri(db_path: &str) -> (r: String)
    ensures
        r@ == "file:"@ + encode_uri_spec(db_path@) + "?mode=ro"@,
{
    let mut v = chars_of("file:");
    let enc = encode_sqlite_uri_path(db_path);
    extend_str(&mut v, enc.as_str());
    extend_str(&mut v, "?mode=ro");
    string_of(v.as_slice())
}

/// The message of a database that could not be opened because another
/// process holds it.
pub open spec fn locked_message(db_path: Seq<char>, message: Seq<char>) -> Seq<char> {
    "Zotero database at "@ + db_path + " is locked — is Zotero running? Close Zotero or try again in a moment. ("@
        + message + ")"@
}

/// The error for a database that failed to open with `message`: a hint to
/// close Zotero when the message says the database is locked or busy, the
/// open error itself otherwise.
pub fn open_error(db_path: &str, message: &str) -> (r: ZolitError)
    ensures
        (find_first(message@, "database is locked"@) is Some || find_first(message@, "SQLITE_BUSY"@) is Some)
            ==> r is Other && r->Other_0@ == locked_message(db_path@, message@),
        !(find_first(message@, "database is locked"@) is Some || find_first(message@, "SQLITE_BUSY"@) is Some)
            ==> r is DbOpen && r->DbOpen_path@ == db_path@ && r->DbOpen_source@ == message@,
{
    let m = chars_of(message);
    let locked = chars_of("database is locked");
    let busy = chars_of("SQLITE_BUSY");
    if find_chars(m.as_slice(), locked.as_slice()).is_some() || find_chars(m.as_slice(), busy.as_slice()).is_some() {
        let mut v = chars_of("Zotero database at ");
        extend_str(&mut v, db_path);
        extend_str(&mut v, " is locked — is Zotero running? Close Zotero or try again in a moment. (");
        extend_str(&mut v, message);
        extend_str(&mut v, ")");
        ZolitError::Other(string_of(v.as_slice()))
    } else {
        ZolitError::DbOpen { path: crate::text::string_from(db_path), source: crate::text::string_from(message) }
    }
}

/// The file name a PDF with this stem has: `<stem>.pdf`.
pub fn pdf_file_name(stem: &str) -> (r: String)
    ensures
        r@ == stem@ + ".pdf"@,
{
    let mut v = chars_of(stem);
    extend_str(&mut v, ".pdf");
    string_of(v.as_slice())
}

/// The first attachment row that has a parent item: its attachment id and
/// the parent's id. Rows without a parent (orphan attachments) are passed
/// over.
pub fn first_attachment_with_parent(rows: &[(i64, Option<i64>)]) -> (r: Option<(i64, i64)>)
    ensures
        match r {
            Some((att, parent)) => exists|i: int|
                0 <= i < rows@.len() && rows@[i] == (att, Some(parent)) && forall|j: int|
                    0 <= j < i ==> (#[trigger] rows@[j]).1 is None,
            None => forall|j: int| 0 <= j < rows@.len() ==> (#[trigger] rows@[j]).1 is None,
        },
{
    let mut i: usize = 0;
    while i < rows.len()
        invariant
            i <= rows@.len(),
            forall|j: int| 0 <= j < i ==> (#[trigger] rows@[j]).1 is None,
        decreases rows.len() - i,
    {
        let (att, parent) = rows[i];
        if let Some(pid) = parent {
            assert(rows@[i as int] == (att, Some(pid)));
            return Some((att, pid));
        }
        i = i + 1;
    }
    None
}

/// A child note read from the database: its HTML (none read as empty)
/// converted to Markdown.
pub fn child_note_from_row(item_id: i64, note: Option<String>, title: Option<String>) -> (r: ZoteroChildNote)
    ensures
        r.item_id == item_id,
        r.title == title,
        r.html_content@ == markdown_spec(
            match note {
                Some(n) => n@,
                None => seq![],
            },
        ),
{
    let html_content = match &note {
        Some(n) => html_to_markdown(n.as_str()),
        None => html_to_markdown(""),
    };
    proof {
        reveal_strlit("");
    }
    ZoteroChildNote { item_id, html_content, title }
}

/// The file name in an attachment path: what follows `storage:` for a file
/// Zotero stores, what follows the last `/` for a linked file.
pub open spec fn attachment_file_name(path: Seq<char>) -> Seq<char> {
    if starts_with(path, "storage:"@) {
        path.skip(8)
    } else {
        match rfind_char(path, '/') {
            Some(i) => path.skip(i + 1),
            None => path,
        }
    }
}

/// The last four characters are `.pdf` in any ASCII case.
pub open spec fn has_pdf_extension(f: Seq<char>) -> bool {
    let n = f.len() as int;
    &&& n >= 4
    &&& f[n - 4] == '.'
    &&& (f[n - 3] == 'p' || f[n - 3] == 'P')
    &&& (f[n - 2] == 'd' || f[n - 2] == 'D')
    &&& (f[n - 1] == 'f' || f[n - 1] == 'F')
}

/// The stem of the PDF an attachment path names: its file name without a
/// `.pdf` extension.
pub open spec fn pdf_stem_spec(path: Seq<char>) -> Seq<char> {
    let f = attachment_file_name(path);
    if has_pdf_extension(f) {
        f.take(f.len() - 4)
    } else {
        f
    }
}

/// The PDF stem of an attachment path.
pub fn pdf_stem_from_path(path: &str) -> (r: String)
    ensures
        r@ == pdf_stem_spec(path@),
{
    let p = chars_of(path);
    let prefix = chars_of("storage:");
    proof {
        reveal_strlit("storage:");
    }
    let f: Vec<char> = if starts_with_chars(p.as_slice(), prefix.as_slice()) {
        slice_chars(p.as_slice(), 8, p.len())
    } else {
        match rfind_char_in(p.as_slice(), '/') {
            Some(i) => {
                proof {
                    lemma_rfind_bound(p@, '/');
                    assert(rfind_char(p@, '/') == Some(i as int));
                }
                assert(i < p.len());
                slice_chars(p.as_slice(), i + 1, p.len())
            },
            None => p,
        }
    };
    assert(f@ == attachment_file_name(path@));
    let n = f.len();
    if n >= 4 && f[n - 4] == '.' && (f[n - 3] == 'p' || f[n - 3] == 'P') && (f[n - 2] == 'd' || f[n - 2] == 'D')
        && (f[n - 1] == 'f' || f[n - 1] == 'F') {
        let stem = slice_chars(f.as_slice(), 0, n - 4);
        string_of(stem.as_slice())
    } else {
        string_of(f.as_slice())
    }
}

proof fn lemma_rfind_bound(s: Seq<char>, c: char)
    ensures
        rfind_char(s, c) matches Some(i) ==> 0 <= i < s.len(),
    decreases s.len(),
{
    if s.len() > 0 {
        lemma_rfind_bound(s.drop_last(), c);
    }
}

/// The annotated PDFs the database lists, as (attachment path, attachment
/// id, parent id) rows, each turned into (PDF stem, attachment id, parent
/// id) in the same order.
pub fn query_all_annotated_pdfs(rows: Vec<(String, i64, i64)>) -> (r: Vec<(String, i64, i64)>)
    ensures
        r@.len() == rows@.len(),
        forall|i: int|
            0 <= i < r@.len() ==> (#[trigger] r@[i]).0@ == pdf_stem_spec(rows@[i].0@) && r@[i].1 == rows@[i].1
                && r@[i].2 == rows@[i].2,
{
    let mut out: Vec<(String, i64, i64)> = Vec::new();
    let mut i: usize = 0;
    while i < rows.len()
        invariant
            i <= rows@.len(),
            out@.len() == i,
            forall|k: int|
                0 <= k < i ==> (#[trigger] out@[k]).0@ == pdf_stem_spec(rows@[k].0@) && out@[k].1 == rows@[k].1
                    && out@[k].2 == rows@[k].2,
        decreases rows.len() - i,
    {
        let stem = pdf_stem_from_path(rows[i].0.as_str());
        out.push((stem, rows[i].1, rows[i].2));
        i = i + 1;
    }
    out
}

/// Percent-decoding of the escapes `%25`, `%23`, `%3F` and `%20`; every
/// other character is kept.
pub open spec fn uri_unescape(s: Seq<char>) -> Seq<char>
    decreases s.len(),
{
    if s.len() == 0 {
        seq![]
    } else if s.len() >= 3 && s[0] == '%' && s[1] == '2' && s[2] == '5' {
        seq!['%'] + uri_unescape(s.skip(3))
    } else if s.len() >= 3 && s[0] == '%' && s[1] == '2' && s[2] == '3' {
        seq!['#'] + uri_unescape(s.skip(3))
    } else if s.len() >= 3 && s[0] == '%' && s[1] == '3' && s[2] == 'F' {
        seq!['?'] + uri_unescape(s.skip(3))
    } else if s.len() >= 3 && s[0] == '%' && s[1] == '2' && s[2] == '0' {
        seq![' '] + uri_unescape(s.skip(3))
    } else {
        seq![s[0]] + uri_unescape(s.skip(1))
    }
}

proof fn lemma_encode_concat(a: Seq<char>, b: Seq<char>)
    ensures
        encode_uri_spec(a + b) == encode_uri_spec(a) + encode_uri_spec(b),
    decreases b.len(),
{
    if b.len() == 0 {
        assert(a + b =~= a);
    } else {
        lemma_encode_concat(a, b.drop_last());
        assert((a + b).drop_last() =~= a + b.drop_last());
        assert((a + b).last() == b.last());
    }
}

/// Encoding a path for an SQLite URI loses nothing and leaves no character
/// the URI reserves: the result holds no space, `#` or `?`, and
/// percent-decoding it gives the path back.
pub proof fn lemma_uri_path_round_trip(path: Seq<char>)
    ensures
        uri_unescape(encode_uri_spec(path)) == path,
        forall|i: int|
            0 <= i < encode_uri_spec(path).len() ==> #[trigger] encode_uri_spec(path)[i] != ' '
                && encode_uri_spec(path)[i] != '#' && encode_uri_spec(path)[i] != '?',
    decreases path.len(),
{
    reveal_strlit("%25");
    reveal_strlit("%23");
    reveal_strlit("%3F");
    reveal_strlit("%20");
    if path.len() > 0 {
        let c = path[0];
        let rest = path.drop_first();
        lemma_uri_path_round_trip(rest);
        assert(path =~= seq![c] + rest);
        lemma_encode_concat(seq![c], rest);
        assert(seq![c].drop_last() =~= Seq::<char>::empty());
        assert(encode_uri_spec(Seq::<char>::empty()) == Seq::<char>::empty());
        assert(seq![c].last() == c);
        assert(encode_uri_spec(seq![c]) == encode_uri_spec(seq![c].drop_last()) + uri_char(c));
        assert(Seq::<char>::empty() + uri_char(c) =~= uri_char(c));
        assert(encode_uri_spec(seq![c]) == uri_char(c));
        let e = encode_uri_spec(rest);
        let whole = uri_char(c) + e;
        assert(encode_uri_spec(path) == whole);
        if c == '%' || c == '#' || c == '?' || c == ' ' {
            assert(whole.skip(3) =~= e);
        } else {
            assert(whole.skip(1) =~= e);
        }
        assert forall|i: int| 0 <= i < whole.len() implies #[trigger] whole[i] != ' ' && whole[i] != '#' && whole[i]
            != '?' by {
            if i >= uri_char(c).len() {
                assert(whole[i] == e[i - uri_char(c).len()]);
            }
        }
    }
}

} // verus!
