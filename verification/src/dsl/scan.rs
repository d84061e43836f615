//! Finding the Zotero ids already present in a markdown file.
use vstd::prelude::*;
use crate::text::{
    chars_of, find_chars_from, find_from, int_text, join, lemma_find_from, lemma_nat_digits_are_digits,
    nat_digits, occurs_at, slice_chars, string_of, is_ascii_digit,
};
use crate::dsl::generate::{
    ann_block_lines, ann_compact_spec, ann_dsl_spec, ann_uuid, dsl_open, note_compact_spec,
    note_dsl_spec, note_uuid, zot_prefix, note_body_spec,
};
use crate::zotero::types::{ZoteroAnnotation, ZoteroChildNote};

verus! {

/// `<!---[zot-`, the start of a Zotero annotation comment.
pub open spec fn zot_mark() -> Seq<char> {
    dsl_open() + zot_prefix()
}

/// The ids found scanning from position `from`: after each `<!---[zot-`, the
/// text from `zot-` up to the next `]` (empty ids skipped); scanning resumes
/// at that `]` and stops at a marker with no `]` after it.
pub open spec fn scan_ids(c: Seq<char>, from: int) -> Seq<Seq<char>>
    decreases c.len() + 1 - from,
{
    if from < 0 || from > c.len() {
        seq![]
    } else {
        match find_from(c, zot_mark(), from) {
            None => seq![],
            Some(st) => {
                let a = st + 6;
                match find_from(c, seq![']'], a) {
                    None => seq![],
                    Some(e) => if e > from && e <= c.len() {
                        let id = c.subrange(a, e);
                        (if id.len() > 0 { seq![id] } else { seq![] }) + scan_ids(c, e)
                    } else {
                        seq![]
                    },
                }
            },
        }
    }
}

/// Views of a list of strings.
pub open spec fn string_views(v: Seq<String>) -> Seq<Seq<char>> {
    v.map_values(|s: String| s@)
}

fn chars_eq(a: &Vec<char>, b: &Vec<char>) -> (r: bool)
    ensures
        r == (a@ == b@),
{
    if a.len() != b.len() {
        return false;
    }
    let mut i: usize = 0;
    while i < a.len()
        invariant
            i <= a@.len(),
            a@.len() == b@.len(),
            forall|k: int| 0 <= k < i ==> a@[k] == b@[k],
        decreases a.len() - i,
    {
        if a[i] != b[i] {
            return false;
        }
        i = i + 1;
    }
    assert(a@ =~= b@);
    true
}

fn contains_chars(list: &Vec<Vec<char>>, x: &Vec<char>) -> (r: bool)
    ensures
        r == list@.map_values(|v: Vec<char>| v@).contains(x@),
{
    let ghost vs = list@.map_values(|v: Vec<char>| v@);
    let mut i: usize = 0;
    while i < list.len()
        invariant
            i <= list@.len(),
            vs == list@.map_values(|v: Vec<char>| v@),
            forall|k: int| 0 <= k < i ==> vs[k] != x@,
        decreases list.len() - i,
    {
        if chars_eq(&list[i], x) {
            assert(vs[i as int] == x@);
            return true;
        }
        i = i + 1;
    }
    false
}

/// Extract all Zotero annotation ids (`zot-301`, `zot-note-400`, ...) from
/// markdown content: the ids inside `<!---[zot-...]` openings, each once.
/// They come as a duplicate-free vector rather than a `HashSet`: vstd
/// specifies hash sets only for keys with its key model, which `String`
/// does not have.
pub fn existing_zotero_ids(content: &str) -> (r: Vec<String>)
    ensures
        string_views(r@).no_duplicates(),
        forall|x: Seq<char>| string_views(r@).contains(x) <==> scan_ids(content@, 0).contains(x),
{
    let c = chars_of(content);
    let mark = vec!['<', '!', '-', '-', '-', '[', 'z', 'o', 't', '-'];
    assert(mark@ =~= zot_mark());
    let close = vec![']'];
    assert(close@ =~= seq![']']);
    let mut ids: Vec<Vec<char>> = Vec::new();
    let mut out: Vec<String> = Vec::new();
    let ghost mut found: Seq<Seq<char>> = seq![];
    let mut from: usize = 0;
    loop
        invariant
            from <= c@.len(),
            mark@ == zot_mark(),
            close@ == seq![']'],
            scan_ids(c@, 0) == found + scan_ids(c@, from as int),
            ids@.map_values(|v: Vec<char>| v@) == string_views(out@),
            string_views(out@).no_duplicates(),
            forall|x: Seq<char>| string_views(out@).contains(x) <==> found.contains(x),
        ensures
            string_views(out@).no_duplicates(),
            forall|x: Seq<char>| string_views(out@).contains(x) <==> scan_ids(c@, 0).contains(x),
        decreases c@.len() + 1 - from,
    {
        match find_chars_from(c.as_slice(), mark.as_slice(), from) {
            None => {
                assert(found + scan_ids(c@, from as int) =~= found);
                assert(scan_ids(c@, 0) == found);
                break;
            },
            Some(st) => {
                proof {
                    lemma_find_from(c@, mark@, from as int);
                    assert(occurs_at(c@, mark@, st as int));
                    assert(c@.len() == c.len());
                }
                let a = st + 6;
                match find_chars_from(c.as_slice(), close.as_slice(), a) {
                    None => {
                        proof {
                            lemma_find_from(c@, close@, a as int);
                            assert(find_from(c@, zot_mark(), from as int) == Some(st as int));
                        }
                        assert(found + scan_ids(c@, from as int) =~= found);
                        assert(scan_ids(c@, 0) == found);
                        break;
                    },
                    Some(e) => {
                        proof {
                            lemma_find_from(c@, close@, a as int);
                            assert(occurs_at(c@, close@, e as int));
                            assert(find_from(c@, zot_mark(), from as int) == Some(st as int));
                            assert(find_from(c@, seq![']'], a as int) == Some(e as int));
                        }
                        let id = slice_chars(c.as_slice(), a, e);
                        let ghost piece: Seq<Seq<char>> = if id@.len() > 0 { seq![id@] } else { seq![] };
                        assert(scan_ids(c@, from as int) == piece + scan_ids(c@, e as int));
                        let ghost old_views = string_views(out@);
                        let ghost idv = id@;
                        let mut added = false;
                        if id.len() > 0 {
                            if !contains_chars(&ids, &id) {
                                let s = string_of(id.as_slice());
                                ids.push(id);
                                out.push(s);
                                added = true;
                                proof {
                                    assert(string_views(out@) =~= old_views.push(idv));
                                    assert(ids@.map_values(|v: Vec<char>| v@) =~= old_views.push(idv));
                                }
                            }
                        }
                        proof {
                            if added {
                                assert(string_views(out@) == old_views.push(idv));
                                assert(!old_views.contains(idv));
                                assert(piece == seq![idv]);
                            } else {
                                assert(string_views(out@) == old_views);
                                assert(piece.len() == 0 || old_views.contains(idv));
                            }
                            assert forall|x: Seq<char>| string_views(out@).contains(x) <==> (found + piece).contains(x) by {
                                if (found + piece).contains(x) {
                                    let k = choose|k: int| 0 <= k < (found + piece).len() && (found + piece)[k] == x;
                                    if k >= found.len() {
                                        assert(piece[k - found.len()] == x);
                                        assert(x == idv);
                                        if added {
                                            assert(string_views(out@)[old_views.len() as int] == x);
                                        }
                                    } else {
                                        assert(found[k] == x);
                                        assert(found.contains(x));
                                        assert(old_views.contains(x));
                                        let j = choose|j: int| 0 <= j < old_views.len() && old_views[j] == x;
                                        if added {
                                            assert(string_views(out@)[j] == x);
                                        }
                                    }
                                }
                                if string_views(out@).contains(x) {
                                    let j = choose|j: int| 0 <= j < string_views(out@).len() && string_views(out@)[j] == x;
                                    if j < old_views.len() {
                                        assert(old_views[j] == x);
                                        assert(found.contains(x));
                                        let k = choose|k: int| 0 <= k < found.len() && found[k] == x;
                                        assert((found + piece)[k] == x);
                                    } else {
                                        assert(x == idv);
                                        assert((found + piece)[found.len() as int] == x);
                                    }
                                }
                            }
                            if added {
                                assert forall|a: int, b: int| 0 <= a < b < string_views(out@).len() implies
                                    string_views(out@)[a] != string_views(out@)[b] by {
                                    if b == old_views.len() {
                                        assert(old_views[a] == string_views(out@)[a]);
                                    } else {
                                        assert(old_views[a] == string_views(out@)[a]);
                                        assert(old_views[b] == string_views(out@)[b]);
                                    }
                                }
                            }
                            assert(scan_ids(c@, 0) =~= (found + piece) + scan_ids(c@, e as int));
                            found = found + piece;
                        }
                        from = e;
                    },
                }
            },
        }
    }
    out
}

// ---------------------------------------------------------------------
// The id a generated comment carries is found again by the scan
// ---------------------------------------------------------------------

/// `p` starts `s`.
proof fn lemma_prefix_index(p: Seq<char>, s: Seq<char>, k: int)
    requires
        p.is_prefix_of(s),
        0 <= k < p.len(),
    ensures
        s[k] == p[k],
{
}

/// A text that opens with `<!---[`, an id `u` holding no `]`, then `]`,
/// yields `u` as its first scanned id.
proof fn lemma_scan_finds_leading_id(s: Seq<char>, u: Seq<char>)
    requires
        (dsl_open() + u + seq![']']).is_prefix_of(s),
        zot_prefix().is_prefix_of(u),
        forall|k: int| 0 <= k < u.len() ==> u[k] != ']',
    ensures
        scan_ids(s, 0).len() > 0,
        scan_ids(s, 0)[0] == u,
        scan_ids(s, 0).contains(u),
{
    let p = dsl_open() + u + seq![']'];
    let e: int = 6int + u.len();
    assert(p[e] == ']');
    lemma_prefix_index(p, s, e);
    assert forall|k: int| 0 <= k < 10 implies s[k] == zot_mark()[k] by {
        lemma_prefix_index(p, s, k);
        if k >= 6 {
            assert(p[k] == u[k - 6]);
            assert(u[k - 6] == zot_prefix()[k - 6]);
        }
    }
    assert(occurs_at(s, zot_mark(), 0)) by {
        assert(s.subrange(0, 10) =~= zot_mark());
    }
    lemma_find_from(s, zot_mark(), 0);
    assert(find_from(s, zot_mark(), 0) == Some(0int));
    assert(occurs_at(s, seq![']'], e)) by {
        assert(s.subrange(e, e + 1) =~= seq![']']);
    }
    assert forall|k: int| 6 <= k < e implies !occurs_at(s, seq![']'], k) by {
        lemma_prefix_index(p, s, k);
        assert(p[k] == u[k - 6]);
        assert(s.subrange(k, k + 1)[0] == s[k]);
    }
    lemma_find_from(s, seq![']'], 6);
    assert(find_from(s, seq![']'], 6) == Some(e));
    assert forall|k: int| 0 <= k < u.len() implies s.subrange(6, e)[k] == u[k] by {
        lemma_prefix_index(p, s, 6 + k);
    }
    assert(s.subrange(6, e) =~= u);
    let first: Seq<Seq<char>> = seq![u];
    assert(scan_ids(s, 0) == first + scan_ids(s, e));
    assert((first + scan_ids(s, e))[0] == u);
}

proof fn lemma_int_text_no_bracket(n: int)
    ensures
        forall|k: int| 0 <= k < int_text(n).len() ==> #[trigger] int_text(n)[k] != ']',
{
    if n < 0 {
        lemma_nat_digits_are_digits((-n) as nat);
        assert forall|k: int| 0 <= k < int_text(n).len() implies #[trigger] int_text(n)[k] != ']' by {
            if k > 0 {
                assert(int_text(n)[k] == nat_digits((-n) as nat)[k - 1]);
                assert(is_ascii_digit(nat_digits((-n) as nat)[k - 1]));
            }
        }
    } else {
        lemma_nat_digits_are_digits(n as nat);
        assert forall|k: int| 0 <= k < int_text(n).len() implies #[trigger] int_text(n)[k] != ']' by {
            assert(is_ascii_digit(nat_digits(n as nat)[k]));
        }
    }
}

proof fn lemma_join_starts_with_first(parts: Seq<Seq<char>>, sep: Seq<char>)
    requires
        parts.len() > 0,
    ensures
        parts[0].is_prefix_of(join(parts, sep)),
    decreases parts.len(),
{
    if parts.len() > 1 {
        lemma_join_starts_with_first(parts.drop_last(), sep);
        let j = join(parts.drop_last(), sep);
        assert(join(parts, sep) == j + sep + parts.last());
        assert forall|k: int| 0 <= k < parts[0].len() implies #[trigger] join(parts, sep)[k] == parts[0][k] by {
            assert(parts.drop_last()[0] == parts[0]);
            assert(j[k] == parts[0][k]);
        }
    }
}

/// An annotation's generated comment is recognised by `existing_zotero_ids`:
/// scanning it yields `zot-<item id>`, so a later sync sees the annotation as
/// already imported.
pub proof fn lemma_ann_dsl_id_found(ann: ZoteroAnnotation)
    ensures
        scan_ids(ann_dsl_spec(ann), 0).contains(ann_uuid(ann.item_id)),
{
    let u = ann_uuid(ann.item_id);
    lemma_int_text_no_bracket(ann.item_id as int);
    assert forall|k: int| 0 <= k < u.len() implies u[k] != ']' by {
        if k >= 4 {
            assert(u[k] == int_text(ann.item_id as int)[k - 4]);
        }
    }
    assert(zot_prefix().is_prefix_of(u));
    let d = ann_dsl_spec(ann);
    let p = dsl_open() + u + seq![']'];
    if d == ann_compact_spec(ann) {
        reveal_strlit("] n:");
        assert forall|k: int| 0 <= k < p.len() implies d[k] == p[k] by {
            assert(d == dsl_open() + u + "] n:"@ + (d.skip(p.len() + 3int)));
        }
        assert(p.is_prefix_of(d));
    } else {
        let lines = ann_block_lines(ann);
        reveal_strlit("]");
        assert(lines[0] =~= p);
        lemma_join_starts_with_first(lines, seq!['\n']);
    }
    lemma_scan_finds_leading_id(d, u);
}

/// A child note's generated comment is recognised by `existing_zotero_ids`:
/// scanning it yields `zot-note-<item id>`.
pub proof fn lemma_note_dsl_id_found(note: ZoteroChildNote)
    ensures
        scan_ids(note_dsl_spec(note), 0).contains(note_uuid(note.item_id)),
{
    let u = note_uuid(note.item_id);
    reveal_strlit("note-");
    lemma_int_text_no_bracket(note.item_id as int);
    assert forall|k: int| 0 <= k < u.len() implies u[k] != ']' by {
        if k >= 9 {
            assert(u[k] == int_text(note.item_id as int)[k - 9]);
        }
    }
    assert(zot_prefix().is_prefix_of(u));
    let d = note_dsl_spec(note);
    let p = dsl_open() + u + seq![']'];
    if d == note_compact_spec(note) {
        reveal_strlit("] n: | ");
        assert forall|k: int| 0 <= k < p.len() implies d[k] == p[k] by {
            assert(d == dsl_open() + u + "] n: | "@ + note_body_spec(note) + " --->"@);
        }
    } else {
        reveal_strlit("]\nn:\n---\n");
        assert forall|k: int| 0 <= k < p.len() implies d[k] == p[k] by {
            assert(d == dsl_open() + u + "]\nn:\n---\n"@ + note_body_spec(note) + "\n--->"@);
        }
    }
    assert(p.is_prefix_of(d));
    lemma_scan_finds_leading_id(d, u);
}

} // verus!
