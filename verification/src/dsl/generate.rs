//! Generation of the annotation DSL (`<!---[id] n: ... --->` comments).
use vstd::prelude::*;
use crate::text::{
    chars_of, collapse_whitespace, collapse_ws, extend_chars, extend_str, join, push_i64,
    rfind_char, rfind_char_in, string_of, utf8_len, char_len_utf8, int_text, slice_chars,
    lemma_utf8_len_prefix, lemma_join_ends, starts_with, ends_with,
};
use crate::zotero::types::{nonempty_text, ZoteroAnnotation, ZoteroChildNote};

verus! {

/// Display name of a Zotero annotation type.
pub open spec fn ann_kind_name(t: i32) -> Seq<char> {
    if t == 1 {
        "highlight"@
    } else if t == 2 {
        "note"@
    } else if t == 5 {
        "underline"@
    } else if t == 6 {
        "freetext"@
    } else {
        "annotation"@
    }
}

/// Name of an annotation type: highlight (1), note (2), underline (5),
/// freetext (6), and "annotation" for any other type.
pub fn ann_type_name(ann_type: i32) -> (r: &'static str)
    ensures
        r@ == ann_kind_name(ann_type),
{
    if ann_type == 1 {
        "highlight"
    } else if ann_type == 2 {
        "note"
    } else if ann_type == 5 {
        "underline"
    } else if ann_type == 6 {
        "freetext"
    } else {
        "annotation"
    }
}

/// The horizontal ellipsis that marks a truncated anchor.
pub open spec fn ellipsis() -> char {
    '\u{2026}'
}

/// Largest `i < k` whose prefix `t[..i]` takes at most `max` bytes (0 if none):
/// the start of the last character that begins within the first `max` bytes.
pub open spec fn fit_cut(t: Seq<char>, max: nat, k: int) -> int
    decreases k,
{
    if k <= 1 {
        0
    } else if utf8_len(t.take(k - 1)) <= max {
        k - 1
    } else {
        fit_cut(t, max, k - 1)
    }
}

/// What `truncate_anchor` returns: the whitespace-collapsed text if it takes at
/// most `max` bytes; otherwise the characters before the last one starting
/// within `max` bytes, cut back to the last space if there is one, followed
/// by an ellipsis.
pub open spec fn truncate_spec(text: Seq<char>, max: nat) -> Seq<char> {
    let t = collapse_ws(text);
    if utf8_len(t) <= max {
        t
    } else {
        let safe = t.take(fit_cut(t, max, t.len() as int));
        match rfind_char(safe, ' ') {
            Some(p) => safe.take(p).push(ellipsis()),
            None => safe.push(ellipsis()),
        }
    }
}

proof fn lemma_fit_cut(t: Seq<char>, max: nat, k: int)
    requires
        0 <= k <= t.len(),
    ensures
        0 <= fit_cut(t, max, k) <= if k == 0 { 0 } else { k - 1 },
        utf8_len(t.take(fit_cut(t, max, k))) <= max,
    decreases k,
{
    if k > 1 && utf8_len(t.take(k - 1)) > max {
        lemma_fit_cut(t, max, k - 1);
    }
    if fit_cut(t, max, k) == 0 {
        assert(t.take(0) =~= Seq::<char>::empty());
    }
}

pub proof fn lemma_rfind_char(s: Seq<char>, c: char)
    ensures
        rfind_char(s, c) matches Some(p) ==> 0 <= p < s.len() && s[p] == c,
    decreases s.len(),
{
    if s.len() > 0 && s.last() != c {
        lemma_rfind_char(s.drop_last(), c);
    }
}

/// Collapse whitespace and cut the text to at most `max_len` bytes at a
/// character boundary, preferring the last word break, with an ellipsis
/// appended when anything was cut.
pub fn truncate_anchor(text: &str, max_len: usize) -> (r: String)
    ensures
        r@ == truncate_spec(text@, max_len as nat),
        utf8_len(collapse_ws(text@)) <= max_len ==> r@ == collapse_ws(text@),
        utf8_len(collapse_ws(text@)) > max_len ==> r@.len() > 0 && r@.last() == ellipsis()
            && utf8_len(r@.drop_last()) <= max_len
            && r@.drop_last().is_prefix_of(collapse_ws(text@)),
{
    let cs = chars_of(text);
    let t = collapse_whitespace(cs.as_slice());
    let mut off: u128 = 0;
    let mut cut: usize = 0;
    let mut i: usize = 0;
    while i < t.len()
        invariant
            i <= t@.len(),
            off == utf8_len(t@.take(i as int)),
            off <= 4 * i,
            cut == fit_cut(t@, max_len as nat, i as int),
        decreases t.len() - i,
    {
        if off <= max_len as u128 {
            cut = i;
        }
        assert(t@.take(i + 1).drop_last() =~= t@.take(i as int));
        off = off + char_len_utf8(t[i]) as u128;
        i = i + 1;
    }
    assert(t@.take(i as int) =~= t@);
    if off <= max_len as u128 {
        return string_of(t.as_slice());
    }
    proof {
        lemma_fit_cut(t@, max_len as nat, t@.len() as int);
    }
    let safe = slice_chars(t.as_slice(), 0, cut);
    assert(safe@ =~= t@.take(cut as int));
    let mut out: Vec<char> = Vec::new();
    match rfind_char_in(safe.as_slice(), ' ') {
        Some(p) => {
            proof {
                lemma_rfind_char(safe@, ' ');
            }
            let head = slice_chars(safe.as_slice(), 0, p);
            extend_chars(&mut out, head.as_slice());
            assert(head@ =~= safe@.take(p as int));
            proof {
                lemma_utf8_len_prefix(safe@, p as int);
            }
        },
        None => {
            extend_chars(&mut out, safe.as_slice());
        },
    }
    let ghost before = out@;
    out.push('\u{2026}');
    proof {
        assert(out@.drop_last() =~= before);
        assert(before.is_prefix_of(t@));
    }
    string_of(out.as_slice())
}

/// What one character becomes inside a quoted anchor.
pub open spec fn escape_char(c: char) -> Seq<char> {
    if c == '\\' {
        seq!['\\', '\\']
    } else if c == '"' {
        seq!['\\', '"']
    } else {
        seq![c]
    }
}

/// Backslashes and double quotes escaped with a backslash.
pub open spec fn escape_spec(s: Seq<char>) -> Seq<char>
    decreases s.len(),
{
    if s.len() == 0 {
        seq![]
    } else {
        escape_spec(s.drop_last()) + escape_char(s.last())
    }
}

/// Escape backslashes and double quotes for use inside `^"..."`.
pub fn escape_anchor(text: &str) -> (r: String)
    ensures
        r@ == escape_spec(text@),
{
    let s = chars_of(text);
    let mut out: Vec<char> = Vec::new();
    let mut i: usize = 0;
    while i < s.len()
        invariant
            i <= s@.len(),
            out@ == escape_spec(s@.take(i as int)),
        decreases s.len() - i,
    {
        let c = s[i];
        if c == '\\' {
            out.push('\\');
            out.push('\\');
        } else if c == '"' {
            out.push('\\');
            out.push('"');
        } else {
            out.push(c);
        }
        assert(s@.take(i + 1).drop_last() =~= s@.take(i as int));
        assert(out@ =~= escape_spec(s@.take(i + 1)));
        i = i + 1;
    }
    assert(s@.take(i as int) =~= s@);
    string_of(out.as_slice())
}

/// `<!---[`
pub open spec fn dsl_open() -> Seq<char> {
    seq!['<', '!', '-', '-', '-', '[']
}

/// `zot-`
pub open spec fn zot_prefix() -> Seq<char> {
    seq!['z', 'o', 't', '-']
}

/// The DSL id of an annotation: `zot-<item id>`.
pub open spec fn ann_uuid(item_id: i64) -> Seq<char> {
    zot_prefix() + int_text(item_id as int)
}

/// The DSL id of a child note: `zot-note-<item id>`.
pub open spec fn note_uuid(item_id: i64) -> Seq<char> {
    zot_prefix() + "note-"@ + int_text(item_id as int)
}

/// `p. <label> -- <type>` when the annotation has a non-empty page label,
/// otherwise the type name.
pub open spec fn page_prefix_spec(ann: ZoteroAnnotation) -> Seq<char> {
    match nonempty_text(ann.page_label) {
        Some(p) => "p. "@ + p + " -- "@ + ann_kind_name(ann.ann_type),
        None => ann_kind_name(ann.ann_type),
    }
}

/// The body: the page prefix, then `: <comment>` for a non-empty comment.
pub open spec fn ann_body_spec(ann: ZoteroAnnotation) -> Seq<char> {
    match nonempty_text(ann.comment) {
        Some(c) => page_prefix_spec(ann) + ": "@ + c,
        None => page_prefix_spec(ann),
    }
}

/// The escaped scope anchor: the non-empty highlighted text truncated to 60 bytes.
pub open spec fn ann_anchor_spec(ann: ZoteroAnnotation) -> Option<Seq<char>> {
    match nonempty_text(ann.text) {
        Some(t) => Some(escape_spec(truncate_spec(t, 60))),
        None => None,
    }
}

/// One-line form: `<!---[id] n: ^"anchor" | body --->` (the anchor part only
/// when there is an anchor).
pub open spec fn ann_compact_spec(ann: ZoteroAnnotation) -> Seq<char> {
    let scope = match ann_anchor_spec(ann) {
        Some(a) => " ^\""@ + a + "\""@,
        None => seq![],
    };
    dsl_open() + ann_uuid(ann.item_id) + "] n:"@ + scope + " | "@ + ann_body_spec(ann) + " --->"@
}

/// Block form lines: `<!---[id]`, `n:`, the anchor line if any, `---`, the
/// body, `--->`.
pub open spec fn ann_block_lines(ann: ZoteroAnnotation) -> Seq<Seq<char>> {
    let head = seq![dsl_open() + ann_uuid(ann.item_id) + "]"@, "n:"@];
    let anchor = match ann_anchor_spec(ann) {
        Some(a) => seq!["^\""@ + a + "\""@],
        None => seq![],
    };
    head + anchor + seq!["---"@, ann_body_spec(ann), "--->"@]
}

/// What `zotero_ann_to_dsl` returns: the one-line form when it is at most
/// 120 characters long, otherwise the block form joined with newlines.
pub open spec fn ann_dsl_spec(ann: ZoteroAnnotation) -> Seq<char> {
    if ann_compact_spec(ann).len() <= 120 {
        ann_compact_spec(ann)
    } else {
        join(ann_block_lines(ann), seq!['\n'])
    }
}

fn push_opt_nonempty(s: &Option<String>) -> (r: Option<Vec<char>>)
    ensures
        match r {
            Some(v) => nonempty_text(*s) == Some(v@),
            None => nonempty_text(*s) is None,
        },
{
    match s {
        Some(x) => {
            if x.as_str().is_empty() {
                None
            } else {
                Some(chars_of(x.as_str()))
            }
        },
        None => None,
    }
}

fn dsl_open_exec() -> (v: Vec<char>)
    ensures
        v@ == dsl_open(),
{
    let v = vec!['<', '!', '-', '-', '-', '['];
    assert(v@ =~= dsl_open());
    v
}

pub(crate) fn ann_uuid_exec(item_id: i64) -> (v: Vec<char>)
    ensures
        v@ == ann_uuid(item_id),
{
    let mut v = vec!['z', 'o', 't', '-'];
    assert(v@ =~= zot_prefix());
    push_i64(&mut v, item_id);
    v
}

fn ann_body_exec(ann: &ZoteroAnnotation) -> (v: Vec<char>)
    ensures
        v@ == ann_body_spec(*ann),
{
    let ann_kind_name = ann_type_name(ann.ann_type);
    let mut v: Vec<char> = Vec::new();
    match push_opt_nonempty(&ann.page_label) {
        Some(p) => {
            extend_str(&mut v, "p. ");
            extend_chars(&mut v, p.as_slice());
            extend_str(&mut v, " -- ");
            extend_str(&mut v, ann_kind_name);
        },
        None => {
            extend_str(&mut v, ann_kind_name);
        },
    }
    assert(v@ =~= page_prefix_spec(*ann));
    match push_opt_nonempty(&ann.comment) {
        Some(c) => {
            extend_str(&mut v, ": ");
            extend_chars(&mut v, c.as_slice());
        },
        None => {},
    }
    assert(v@ =~= ann_body_spec(*ann));
    v
}

fn ann_anchor_exec(ann: &ZoteroAnnotation) -> (r: Option<Vec<char>>)
    ensures
        match r {
            Some(v) => ann_anchor_spec(*ann) == Some(v@),
            None => ann_anchor_spec(*ann) is None,
        },
{
    match push_opt_nonempty(&ann.text) {
        Some(t) => {
            let ts = string_of(t.as_slice());
            let tr = truncate_anchor(ts.as_str(), 60);
            let esc = escape_anchor(tr.as_str());
            Some(chars_of(esc.as_str()))
        },
        None => None,
    }
}

pub(crate) fn note_uuid_exec(item_id: i64) -> (v: Vec<char>)
    ensures
        v@ == note_uuid(item_id),
{
    let mut v = vec!['z', 'o', 't', '-'];
    assert(v@ =~= zot_prefix());
    extend_str(&mut v, "note-");
    push_i64(&mut v, item_id);
    v
}

/// Generate the DSL comment for a single Zotero annotation.
pub fn zotero_ann_to_dsl(ann: &ZoteroAnnotation) -> (r: String)
    ensures
        r@ == ann_dsl_spec(*ann),
{
    let uuid = ann_uuid_exec(ann.item_id);
    let body = ann_body_exec(ann);
    let anchor = ann_anchor_exec(ann);
    let mut compact = dsl_open_exec();
    extend_chars(&mut compact, uuid.as_slice());
    extend_str(&mut compact, "] n:");
    match &anchor {
        Some(a) => {
            extend_str(&mut compact, " ^\"");
            extend_chars(&mut compact, a.as_slice());
            extend_str(&mut compact, "\"");
        },
        None => {},
    }
    extend_str(&mut compact, " | ");
    extend_chars(&mut compact, body.as_slice());
    extend_str(&mut compact, " --->");
    proof {
        let scope = match ann_anchor_spec(*ann) {
            Some(a) => " ^\""@ + a + "\""@,
            None => seq![],
        };
        assert(compact@ =~= dsl_open() + ann_uuid(ann.item_id) + "] n:"@ + scope + " | "@ + ann_body_spec(*ann) + " --->"@);
    }
    if compact.len() <= 120 {
        return string_of(compact.as_slice());
    }
    let mut lines: Vec<Vec<char>> = Vec::new();
    let mut first = dsl_open_exec();
    extend_chars(&mut first, uuid.as_slice());
    extend_str(&mut first, "]");
    lines.push(first);
    lines.push(chars_of("n:"));
    match &anchor {
        Some(a) => {
            let mut l = chars_of("^\"");
            extend_chars(&mut l, a.as_slice());
            extend_str(&mut l, "\"");
            lines.push(l);
        },
        None => {},
    }
    lines.push(chars_of("---"));
    lines.push(body);
    lines.push(chars_of("--->"));
    assert(lines@.map_values(|p: Vec<char>| p@) =~= ann_block_lines(*ann));
    let nl = vec!['\n'];
    assert(nl@ =~= seq!['\n']);
    let joined = crate::text::join_chars(&lines, nl.as_slice());
    string_of(joined.as_slice())
}

/// The note body: `<title>: <content>` for a non-empty title, else the content.
pub open spec fn note_body_spec(note: ZoteroChildNote) -> Seq<char> {
    match nonempty_text(note.title) {
        Some(t) => t + ": "@ + note.html_content@,
        None => note.html_content@,
    }
}

/// One-line form of a note.
pub open spec fn note_compact_spec(note: ZoteroChildNote) -> Seq<char> {
    dsl_open() + note_uuid(note.item_id) + "] n: | "@ + note_body_spec(note) + " --->"@
}

/// What `zotero_note_to_dsl` returns: the one-line form when it is at most
/// 120 characters long, otherwise `<!---[id]`, `n:`, `---`, the body and `--->` on
/// separate lines.
pub open spec fn note_dsl_spec(note: ZoteroChildNote) -> Seq<char> {
    if note_compact_spec(note).len() <= 120 {
        note_compact_spec(note)
    } else {
        dsl_open() + note_uuid(note.item_id) + "]\nn:\n---\n"@ + note_body_spec(note) + "\n--->"@
    }
}

/// Generate the DSL comment for a Zotero child note.
pub fn zotero_note_to_dsl(note: &ZoteroChildNote) -> (r: String)
    ensures
        r@ == note_dsl_spec(*note),
{
    let uuid = note_uuid_exec(note.item_id);
    let mut body: Vec<char> = Vec::new();
    match push_opt_nonempty(&note.title) {
        Some(t) => {
            extend_chars(&mut body, t.as_slice());
            extend_str(&mut body, ": ");
            extend_str(&mut body, note.html_content.as_str());
        },
        None => {
            extend_str(&mut body, note.html_content.as_str());
        },
    }
    assert(body@ =~= note_body_spec(*note));
    let mut compact = dsl_open_exec();
    extend_chars(&mut compact, uuid.as_slice());
    extend_str(&mut compact, "] n: | ");
    extend_chars(&mut compact, body.as_slice());
    extend_str(&mut compact, " --->");
    assert(compact@ =~= note_compact_spec(*note));
    if compact.len() <= 120 {
        return string_of(compact.as_slice());
    }
    let mut block = dsl_open_exec();
    extend_chars(&mut block, uuid.as_slice());
    extend_str(&mut block, "]\nn:\n---\n");
    extend_chars(&mut block, body.as_slice());
    extend_str(&mut block, "\n--->");
    assert(block@ =~= dsl_open() + note_uuid(note.item_id) + "]\nn:\n---\n"@ + note_body_spec(*note) + "\n--->"@);
    string_of(block.as_slice())
}

/// A child note's comment carries the same body in both forms: the title,
/// `: ` and the content when the title is non-empty, the content alone
/// otherwise. The one-line form is `<!---[zot-note-<id>] n: | <body> --->`
/// when that is at most 120 characters; otherwise the body stands on its own
/// line(s) between `---` and `--->`.
pub proof fn lemma_note_comment_body(note: ZoteroChildNote)
    ensures
        ({
            let body = match note.title {
                Some(t) => if t@.len() > 0 { t@ + ": "@ + note.html_content@ } else { note.html_content@ },
                None => note.html_content@,
            };
            let head = "<!---[zot-note-"@ + int_text(note.item_id as int) + "]"@;
            let one_line = head + " n: | "@ + body + " --->"@;
            &&& one_line.len() <= 120 ==> note_dsl_spec(note) == one_line
            &&& one_line.len() > 120 ==> note_dsl_spec(note) == head + "\nn:\n---\n"@ + body + "\n--->"@
        }),
{
    reveal_strlit("<!---[zot-note-");
    reveal_strlit("zot-");
    reveal_strlit("note-");
    reveal_strlit("<!---[");
    let head = "<!---[zot-note-"@ + int_text(note.item_id as int) + "]"@;
    assert(dsl_open() + note_uuid(note.item_id) + "]"@ =~= head);
    assert(dsl_open() + note_uuid(note.item_id) + "] n: | "@ =~= head + " n: | "@) by {
        reveal_strlit("]");
        reveal_strlit("] n: | ");
        reveal_strlit(" n: | ");
    }
    assert(dsl_open() + note_uuid(note.item_id) + "]\nn:\n---\n"@ =~= head + "\nn:\n---\n"@) by {
        reveal_strlit("]");
        reveal_strlit("]\nn:\n---\n");
        reveal_strlit("\nn:\n---\n");
    }
    let body = note_body_spec(note);
    assert(note_compact_spec(note) =~= head + " n: | "@ + body + " --->"@);
}

/// `## Unmatched Zotero Annotations`
pub open spec fn unmatched_heading() -> Seq<char> {
    "## Unmatched Zotero Annotations"@
}

/// The section's lines for the first `n` annotations: the heading, a blank
/// line, then each annotation's DSL followed by a blank line.
pub open spec fn unmatched_lines(anns: Seq<ZoteroAnnotation>, n: int) -> Seq<Seq<char>>
    decreases n,
{
    if n <= 0 {
        seq![unmatched_heading(), seq![]]
    } else {
        unmatched_lines(anns, n - 1) + seq![ann_dsl_spec(anns[n - 1]), seq![]]
    }
}

/// Format a collection of unmatched annotations into a markdown section.
pub fn collect_unmatched_section(unmatched: &[ZoteroAnnotation]) -> (r: String)
    ensures
        r@ == join(unmatched_lines(unmatched@, unmatched@.len() as int), seq!['\n']),
{
    let mut parts: Vec<Vec<char>> = Vec::new();
    parts.push(chars_of("## Unmatched Zotero Annotations"));
    parts.push(Vec::new());
    let mut i: usize = 0;
    while i < unmatched.len()
        invariant
            i <= unmatched@.len(),
            parts@.map_values(|p: Vec<char>| p@) == unmatched_lines(unmatched@, i as int),
        decreases unmatched.len() - i,
    {
        let d = zotero_ann_to_dsl(&unmatched[i]);
        parts.push(chars_of(d.as_str()));
        parts.push(Vec::new());
        assert(parts@.map_values(|p: Vec<char>| p@) =~= unmatched_lines(unmatched@, i + 1));
        i = i + 1;
    }
    let nl = vec!['\n'];
    assert(nl@ =~= seq!['\n']);
    let joined = crate::text::join_chars(&parts, nl.as_slice());
    string_of(joined.as_slice())
}

/// Every generated comment is a triple-dash HTML comment: it opens with
/// `<!---[` and closes with `--->`, in the one-line form and in the block
/// form alike.
pub proof fn lemma_dsl_is_triple_dash_comment(ann: ZoteroAnnotation, note: ZoteroChildNote)
    ensures
        starts_with(ann_dsl_spec(ann), dsl_open()),
        ends_with(ann_dsl_spec(ann), "--->"@),
        starts_with(note_dsl_spec(note), dsl_open()),
        ends_with(note_dsl_spec(note), "--->"@),
{
    reveal_strlit("--->");
    reveal_strlit(" --->");
    let c = ann_compact_spec(ann);
    if c.len() <= 120 {
        assert(c.take(6) =~= dsl_open());
        assert(c.skip(c.len() - 4) =~= "--->"@);
    } else {
        let lines = ann_block_lines(ann);
        lemma_join_ends(lines, seq!['\n']);
        let j = join(lines, seq!['\n']);
        assert(lines[0] == dsl_open() + ann_uuid(ann.item_id) + "]"@);
        assert(lines.last() == "--->"@);
        assert(j.take(6) =~= dsl_open()) by {
            assert forall|k: int| 0 <= k < 6 implies j[k] == dsl_open()[k] by {
                assert(j[k] == lines[0][k]);
            }
        }
    }
    let n = note_compact_spec(note);
    if n.len() <= 120 {
        assert(n.take(6) =~= dsl_open());
        assert(n.skip(n.len() - 4) =~= "--->"@);
    } else {
        let b = dsl_open() + note_uuid(note.item_id) + "]\nn:\n---\n"@ + note_body_spec(note) + "\n--->"@;
        reveal_strlit("\n--->");
        assert(b.take(6) =~= dsl_open());
        assert(b.skip(b.len() - 4) =~= "--->"@);
    }
}

} // verus!
