//! Importing the annotations and notes of one Zotero PDF into its companion
//! Markdown file, and the tallies of a batch import.
use vstd::prelude::*;

use crate::dsl::generate::{
    ann_dsl_spec, ann_uuid, ann_uuid_exec, collect_unmatched_section, note_dsl_spec, note_uuid,
    note_uuid_exec, unmatched_heading, unmatched_lines, zotero_ann_to_dsl, zotero_note_to_dsl,
};
use crate::dsl::insert::{insert_annotations_into_markdown, insert_spec, positioned_views};
use crate::dsl::scan::{existing_zotero_ids, scan_ids, string_views};
use crate::manifest::{added_ids, entry_updated, prior_ids, ZoteroSyncManifest};
use crate::matching::exact::str_views;
use crate::matching::page_scope::{find_page_ranges, page_ranges_of, PageRange};
use crate::matching::pipeline::{
    find_match_line_scoped, label_view, scope_for, scoped_match_spec, scoped_search_defined,
};
use crate::matching::score::Ratio;
use crate::text::{
    chars_of, ends_with, ends_with_chars, extend_chars, extend_str, find_chars, find_chars_from,
    find_first, find_from, join, lemma_find_from, lines_of, split_lines, string_of,
};
use crate::zotero::types::{nonempty_text, ZoteroAnnotation, ZoteroChildNote};

verus! {

// ---------------------------------------------------------------------
// Tallies
// ---------------------------------------------------------------------

/// What importing one entry did.
#[derive(Clone, Copy, Debug, PartialEq, Eq, Structural)]
pub struct ImportResult {
    pub inserted: usize,
    pub unmatched: usize,
    pub skipped: usize,
}

impl Default for ImportResult {
    fn default() -> (r: Self)
        ensures
            r.inserted == 0 && r.unmatched == 0 && r.skipped == 0,
    {
        ImportResult { inserted: 0, unmatched: 0, skipped: 0 }
    }
}

/// What a batch import did: entries handled, summed tallies, and the entries
/// that failed with their error messages.
#[derive(Clone, Debug, PartialEq)]
pub struct BatchImportResult {
    pub entries_processed: usize,
    pub total_inserted: usize,
    pub total_unmatched: usize,
    pub total_skipped: usize,
    pub errors: Vec<(String, String)>,
}

impl Default for BatchImportResult {
    fn default() -> (r: Self)
        ensures
            r.entries_processed == 0,
            r.total_inserted == 0,
            r.total_unmatched == 0,
            r.total_skipped == 0,
            r.errors@.len() == 0,
    {
        BatchImportResult {
            entries_processed: 0,
            total_inserted: 0,
            total_unmatched: 0,
            total_skipped: 0,
            errors: Vec::new(),
        }
    }
}

impl BatchImportResult {
    /// Counts an entry that a dry run would have synced.
    pub fn record_dry_run(&mut self)
        requires
            old(self).entries_processed < usize::MAX,
        ensures
            final(self).entries_processed == old(self).entries_processed + 1,
            final(self).total_inserted == old(self).total_inserted,
            final(self).total_unmatched == old(self).total_unmatched,
            final(self).total_skipped == old(self).total_skipped,
            final(self).errors@ == old(self).errors@,
    {
        self.entries_processed = self.entries_processed + 1;
    }

    /// Counts an entry that was imported and adds its tallies.
    pub fn record_import(&mut self, r: &ImportResult)
        requires
            old(self).entries_processed < usize::MAX,
            old(self).total_inserted + r.inserted <= usize::MAX,
            old(self).total_unmatched + r.unmatched <= usize::MAX,
            old(self).total_skipped + r.skipped <= usize::MAX,
        ensures
            final(self).entries_processed == old(self).entries_processed + 1,
            final(self).total_inserted == old(self).total_inserted + r.inserted,
            final(self).total_unmatched == old(self).total_unmatched + r.unmatched,
            final(self).total_skipped == old(self).total_skipped + r.skipped,
            final(self).errors@ == old(self).errors@,
    {
        self.entries_processed = self.entries_processed + 1;
        self.total_inserted = self.total_inserted + r.inserted;
        self.total_unmatched = self.total_unmatched + r.unmatched;
        self.total_skipped = self.total_skipped + r.skipped;
    }

    /// Counts an entry whose import failed, keeping its stem and message.
    pub fn record_error(&mut self, stem: String, message: String)
        requires
            old(self).entries_processed < usize::MAX,
        ensures
            final(self).entries_processed == old(self).entries_processed + 1,
            final(self).total_inserted == old(self).total_inserted,
            final(self).total_unmatched == old(self).total_unmatched,
            final(self).total_skipped == old(self).total_skipped,
            final(self).errors@ == old(self).errors@.push((stem, message)),
    {
        self.entries_processed = self.entries_processed + 1;
        self.errors.push((stem, message));
    }
}

// ---------------------------------------------------------------------
// The notes section and the unmatched section
// ---------------------------------------------------------------------

/// `## Zotero Notes`
pub open spec fn notes_heading() -> Seq<char> {
    "## Zotero Notes"@
}

/// The note comments, each followed by a blank line.
pub open spec fn notes_block(dsls: Seq<Seq<char>>) -> Seq<char>
    decreases dsls.len(),
{
    if dsls.len() == 0 {
        seq![]
    } else {
        notes_block(dsls.drop_last()) + dsls.last() + "\n\n"@
    }
}

/// `piece` put into `s` at position `at`.
pub open spec fn splice(s: Seq<char>, at: int, piece: Seq<char>) -> Seq<char> {
    s.take(at) + piece + s.skip(at)
}

/// `s` with a newline appended unless it already ends with one.
pub open spec fn ensure_newline(s: Seq<char>) -> Seq<char> {
    if ends_with(s, seq!['\n']) {
        s
    } else {
        s.push('\n')
    }
}

/// Where the notes go: under an existing `## Zotero Notes` heading, before
/// the next `## ` heading after it (or at the end); otherwise a new heading
/// with the notes before the unmatched-annotations section (the newline in
/// front of its heading included), or at the end of the text.
pub open spec fn add_notes_spec(r: Seq<char>, dsls: Seq<Seq<char>>) -> Seq<char> {
    if dsls.len() == 0 {
        r
    } else {
        let body = notes_block(dsls);
        match find_first(r, notes_heading()) {
            Some(h) => {
                let at = match find_from(r, "\n## "@, h + notes_heading().len()) {
                    Some(p) => p,
                    None => r.len() as int,
                };
                splice(r, at, seq!['\n'] + body)
            },
            None => {
                let block = "\n\n## Zotero Notes\n\n"@ + body;
                match find_first(r, seq!['\n'] + unmatched_heading()) {
                    Some(p) => splice(r, p, block),
                    None => match find_first(r, unmatched_heading()) {
                        Some(p) => splice(r, p, block),
                        None => ensure_newline(r) + block,
                    },
                }
            },
        }
    }
}

/// The text with the unmatched-annotations section appended after a blank
/// line, ending with a newline; unchanged when nothing is unmatched.
pub open spec fn add_unmatched_spec(r: Seq<char>, unmatched: Seq<ZoteroAnnotation>) -> Seq<char> {
    if unmatched.len() == 0 {
        r
    } else {
        ensure_newline(
            ensure_newline(r) + seq!['\n'] + join(unmatched_lines(unmatched, unmatched.len() as int), seq!['\n']),
        )
    }
}

fn ensure_newline_exec(v: &mut Vec<char>)
    ensures
        final(v)@ == ensure_newline(old(v)@),
{
    let nl = vec!['\n'];
    assert(nl@ =~= seq!['\n']);
    if !ends_with_chars(v.as_slice(), nl.as_slice()) {
        v.push('\n');
    }
}

fn splice_exec(v: &Vec<char>, at: usize, piece: &[char]) -> (r: Vec<char>)
    requires
        at <= v@.len(),
    ensures
        r@ == splice(v@, at as int, piece@),
{
    let mut r: Vec<char> = Vec::new();
    let mut i: usize = 0;
    while i < at
        invariant
            i <= at <= v@.len(),
            r@ == v@.take(i as int),
        decreases at - i,
    {
        r.push(v[i]);
        assert(v@.take(i + 1) =~= v@.take(i as int).push(v@[i as int]));
        i = i + 1;
    }
    extend_chars(&mut r, piece);
    let mut j: usize = at;
    while j < v.len()
        invariant
            at <= j <= v@.len(),
            r@ == v@.take(at as int) + piece@ + v@.subrange(at as int, j as int),
        decreases v.len() - j,
    {
        r.push(v[j]);
        assert(v@.subrange(at as int, j + 1) =~= v@.subrange(at as int, j as int).push(v@[j as int]));
        j = j + 1;
    }
    assert(v@.subrange(at as int, v@.len() as int) =~= v@.skip(at as int));
    r
}

/// The note comments put into the text as `add_notes_spec` says.
pub fn insert_notes_section(content: &str, note_dsls: &[String]) -> (r: String)
    ensures
        r@ == add_notes_spec(content@, string_views(note_dsls@)),
{
    let ghost dsls = string_views(note_dsls@);
    let v = chars_of(content);
    if note_dsls.len() == 0 {
        return string_of(v.as_slice());
    }
    let mut body: Vec<char> = Vec::new();
    let mut i: usize = 0;
    while i < note_dsls.len()
        invariant
            i <= note_dsls@.len(),
            dsls == string_views(note_dsls@),
            body@ == notes_block(dsls.take(i as int)),
        decreases note_dsls.len() - i,
    {
        extend_str(&mut body, note_dsls[i].as_str());
        extend_str(&mut body, "\n\n");
        proof {
            let t = dsls.take(i + 1);
            assert(t.drop_last() =~= dsls.take(i as int));
            assert(t.last() == note_dsls@[i as int]@);
        }
        i = i + 1;
    }
    assert(dsls.take(i as int) =~= dsls);
    let heading = chars_of("## Zotero Notes");
    proof {
        reveal_strlit("## Zotero Notes");
    }
    match find_chars(v.as_slice(), heading.as_slice()) {
        Some(h) => {
            proof {
                lemma_find_from(v@, heading@, 0);
                assert(h + heading@.len() <= v@.len());
            }
            let sep = chars_of("\n## ");
            assert(h + heading.len() <= v.len());
            let after = h + heading.len();
            let at = match find_chars_from(v.as_slice(), sep.as_slice(), after) {
                Some(p) => {
                    proof {
                        lemma_find_from(v@, sep@, h + heading@.len());
                    }
                    p
                },
                None => v.len(),
            };
            let mut piece: Vec<char> = vec!['\n'];
            extend_chars(&mut piece, body.as_slice());
            assert(piece@ =~= seq!['\n'] + body@);
            let r = splice_exec(&v, at, piece.as_slice());
            string_of(r.as_slice())
        },
        None => {
            let mut block = chars_of("\n\n## Zotero Notes\n\n");
            extend_chars(&mut block, body.as_slice());
            let un = chars_of("\n## Unmatched Zotero Annotations");
            proof {
                reveal_strlit("\n## Unmatched Zotero Annotations");
                reveal_strlit("## Unmatched Zotero Annotations");
                assert(un@ =~= seq!['\n'] + unmatched_heading());
            }
            match find_chars(v.as_slice(), un.as_slice()) {
                Some(p) => {
                    proof {
                        lemma_find_from(v@, un@, 0);
                    }
                    let r = splice_exec(&v, p, block.as_slice());
                    string_of(r.as_slice())
                },
                None => {
                    let uh = chars_of("## Unmatched Zotero Annotations");
                    match find_chars(v.as_slice(), uh.as_slice()) {
                        Some(p) => {
                            proof {
                                lemma_find_from(v@, uh@, 0);
                            }
                            let r = splice_exec(&v, p, block.as_slice());
                            string_of(r.as_slice())
                        },
                        None => {
                            let mut r = v;
                            ensure_newline_exec(&mut r);
                            extend_chars(&mut r, block.as_slice());
                            string_of(r.as_slice())
                        },
                    }
                },
            }
        },
    }
}

/// Appends the unmatched-annotations section as `add_unmatched_spec` says.
fn append_unmatched_section(r: &mut Vec<char>, unmatched: &[ZoteroAnnotation])
    ensures
        final(r)@ == add_unmatched_spec(old(r)@, unmatched@),
{
    if unmatched.len() == 0 {
        return;
    }
    let section = collect_unmatched_section(unmatched);
    let ghost r0 = r@;
    ensure_newline_exec(r);
    r.push('\n');
    let ghost r1 = r@;
    assert(r1 == ensure_newline(r0) + seq!['\n']);
    extend_str(r, section.as_str());
    assert(r@ == r1 + section@);
    ensure_newline_exec(r);
}

// ---------------------------------------------------------------------
// Importing one entry
// ---------------------------------------------------------------------

/// The ids already known for an entry: those found in its Markdown file and
/// those the manifest remembers for it.
pub open spec fn known_ids(content: Seq<char>, m: ZoteroSyncManifest, stem: Seq<char>) -> Set<Seq<char>> {
    scan_ids(content, 0).to_set() + prior_ids(m, stem).to_set()
}

/// The annotations whose ids are not known, in order.
pub open spec fn new_annotations(anns: Seq<ZoteroAnnotation>, known: Set<Seq<char>>) -> Seq<ZoteroAnnotation>
    decreases anns.len(),
{
    if anns.len() == 0 {
        seq![]
    } else {
        let rest = new_annotations(anns.drop_last(), known);
        if known.contains(ann_uuid(anns.last().item_id)) {
            rest
        } else {
            rest.push(anns.last())
        }
    }
}

/// The child notes whose ids are not known, in order.
pub open spec fn new_notes(notes: Seq<ZoteroChildNote>, known: Set<Seq<char>>) -> Seq<ZoteroChildNote>
    decreases notes.len(),
{
    if notes.len() == 0 {
        seq![]
    } else {
        let rest = new_notes(notes.drop_last(), known);
        if known.contains(note_uuid(notes.last().item_id)) {
            rest
        } else {
            rest.push(notes.last())
        }
    }
}

/// The text an annotation is placed by: its non-empty highlighted text,
/// none for sticky notes (type 2) and free text (type 6).
pub open spec fn matchable_text(a: ZoteroAnnotation) -> Option<Seq<char>> {
    if a.ann_type == 2 || a.ann_type == 6 {
        None
    } else {
        nonempty_text(a.text)
    }
}

/// The page label of an annotation as text.
pub open spec fn page_label_of(a: ZoteroAnnotation) -> Option<Seq<char>> {
    match a.page_label {
        Some(s) => Some(s@),
        None => None,
    }
}

/// Placing annotations in order: the (line, comment) pairs of those whose
/// text the page-scoped pipeline finds, and the others.
pub open spec fn placements(
    anns: Seq<ZoteroAnnotation>,
    lines: Seq<Seq<char>>,
    threshold: Ratio,
    ranges: Seq<PageRange>,
) -> (Seq<(usize, Seq<char>)>, Seq<ZoteroAnnotation>)
    decreases anns.len(),
{
    if anns.len() == 0 {
        (seq![], seq![])
    } else {
        let prev = placements(anns.drop_last(), lines, threshold, ranges);
        let a = anns.last();
        match matchable_text(a) {
            Some(t) => match scoped_match_spec(t, lines, threshold, page_label_of(a), ranges) {
                Some(hit) => (prev.0.push((hit.0, ann_dsl_spec(a))), prev.1),
                None => (prev.0, prev.1.push(a)),
            },
            None => (prev.0, prev.1.push(a)),
        }
    }
}

/// What importing an entry gives: the tallies (inserted, unmatched,
/// skipped) and the new text of its Markdown file, none when there is
/// nothing new to write. Annotations already known are skipped; the others
/// are inserted after their matched lines or collected in the unmatched
/// section; new child notes go into the notes section. Every new
/// annotation and note counts as inserted.
pub open spec fn sync_outcome(
    stem: Seq<char>,
    content: Seq<char>,
    anns: Seq<ZoteroAnnotation>,
    notes: Seq<ZoteroChildNote>,
    threshold: Ratio,
    m: ZoteroSyncManifest,
) -> ((int, int, int), Option<Seq<char>>) {
    let known = known_ids(content, m, stem);
    let na = new_annotations(anns, known);
    let nn = new_notes(notes, known);
    let skipped = (anns.len() - na.len()) + (notes.len() - nn.len());
    if na.len() == 0 && nn.len() == 0 {
        ((0, 0, skipped), None)
    } else {
        let lines = lines_of(content);
        let pl = placements(na, lines, threshold, page_ranges_of(lines));
        let text = add_unmatched_spec(
            add_notes_spec(insert_spec(content, pl.0), nn.map_values(|n: ZoteroChildNote| note_dsl_spec(n))),
            pl.1,
        );
        (((pl.0.len() + nn.len() + pl.1.len()) as int, pl.1.len() as int, skipped), Some(text))
    }
}

/// The tallies and text of an import result as values.
pub open spec fn outcome_view(r: (ImportResult, Option<String>)) -> ((int, int, int), Option<Seq<char>>) {
    (
        (r.0.inserted as int, r.0.unmatched as int, r.0.skipped as int),
        match r.1 {
            Some(s) => Some(s@),
            None => None,
        },
    )
}

proof fn lemma_new_annotations_len(anns: Seq<ZoteroAnnotation>, known: Set<Seq<char>>)
    ensures
        new_annotations(anns, known).len() <= anns.len(),
    decreases anns.len(),
{
    if anns.len() > 0 {
        lemma_new_annotations_len(anns.drop_last(), known);
    }
}

proof fn lemma_new_notes_len(notes: Seq<ZoteroChildNote>, known: Set<Seq<char>>)
    ensures
        new_notes(notes, known).len() <= notes.len(),
    decreases notes.len(),
{
    if notes.len() > 0 {
        lemma_new_notes_len(notes.drop_last(), known);
    }
}

/// Whether `s` is one of the strings of `v`.
fn contains_string(v: &Vec<String>, s: &String) -> (r: bool)
    ensures
        r == string_views(v@).contains(s@),
{
    let mut i: usize = 0;
    while i < v.len()
        invariant
            i <= v@.len(),
            forall|k: int| 0 <= k < i ==> string_views(v@)[k] != s@,
        decreases v.len() - i,
    {
        if v[i] == *s {
            assert(string_views(v@)[i as int] == s@);
            return true;
        }
        i = i + 1;
    }
    false
}

proof fn lemma_placements_len(
    anns: Seq<ZoteroAnnotation>,
    lines: Seq<Seq<char>>,
    threshold: Ratio,
    ranges: Seq<PageRange>,
)
    ensures
        placements(anns, lines, threshold, ranges).0.len() + placements(anns, lines, threshold, ranges).1.len()
            == anns.len(),
    decreases anns.len(),
{
    if anns.len() > 0 {
        lemma_placements_len(anns.drop_last(), lines, threshold, ranges);
    }
}

/// The annotations whose ids are neither in `existing` nor in `prior`.
fn select_new_annotations(
    annotations: &[ZoteroAnnotation],
    existing: &Vec<String>,
    prior: &Vec<String>,
    Ghost(known): Ghost<Set<Seq<char>>>,
) -> (r: Vec<ZoteroAnnotation>)
    requires
        forall|x: Seq<char>|
            (string_views(existing@).contains(x) || string_views(prior@).contains(x)) <==> known.contains(x),
    ensures
        r@ == new_annotations(annotations@, known),
{
    let ghost anns = annotations@;
    let mut new_anns: Vec<ZoteroAnnotation> = Vec::new();
    let mut i: usize = 0;
    while i < annotations.len()
        invariant
            i <= anns.len(),
            anns == annotations@,
            forall|x: Seq<char>|
                (string_views(existing@).contains(x) || string_views(prior@).contains(x)) <==> known.contains(x),
            new_anns@ == new_annotations(anns.take(i as int), known),
        decreases annotations.len() - i,
    {
        let id = string_of(ann_uuid_exec(annotations[i].item_id).as_slice());
        let seen = contains_string(existing, &id) || contains_string(prior, &id);
        if !seen {
            new_anns.push(annotations[i].copy());
        }
        proof {
            let t = anns.take(i + 1);
            assert(t.drop_last() =~= anns.take(i as int));
            assert(t.last() == anns[i as int]);
        }
        i = i + 1;
    }
    assert(anns.take(i as int) =~= anns);
    new_anns
}

/// The child notes whose ids are neither in `existing` nor in `prior`.
fn select_new_notes<'a>(
    child_notes: &'a [ZoteroChildNote],
    existing: &Vec<String>,
    prior: &Vec<String>,
    Ghost(known): Ghost<Set<Seq<char>>>,
) -> (r: Vec<&'a ZoteroChildNote>)
    requires
        forall|x: Seq<char>|
            (string_views(existing@).contains(x) || string_views(prior@).contains(x)) <==> known.contains(x),
    ensures
        r@.map_values(|n: &ZoteroChildNote| *n) == new_notes(child_notes@, known),
{
    let ghost notes = child_notes@;
    let mut new_nts: Vec<&ZoteroChildNote> = Vec::new();
    let mut j: usize = 0;
    while j < child_notes.len()
        invariant
            j <= notes.len(),
            notes == child_notes@,
            forall|x: Seq<char>|
                (string_views(existing@).contains(x) || string_views(prior@).contains(x)) <==> known.contains(x),
            new_nts@.map_values(|n: &ZoteroChildNote| *n) == new_notes(notes.take(j as int), known),
        decreases child_notes.len() - j,
    {
        let id = string_of(note_uuid_exec(child_notes[j].item_id).as_slice());
        let seen = contains_string(existing, &id) || contains_string(prior, &id);
        let ghost before = new_nts@.map_values(|n: &ZoteroChildNote| *n);
        if !seen {
            new_nts.push(&child_notes[j]);
            assert(new_nts@.map_values(|n: &ZoteroChildNote| *n) =~= before.push(notes[j as int]));
        }
        proof {
            let t = notes.take(j + 1);
            assert(t.drop_last() =~= notes.take(j as int));
            assert(t.last() == notes[j as int]);
        }
        j = j + 1;
    }
    assert(notes.take(j as int) =~= notes);
    new_nts
}

/// The lines of a text as owned strings, as `str::lines` yields them.
fn owned_lines(content: &str) -> (r: Vec<String>)
    ensures
        string_views(r@) == lines_of(content@),
{
    let cs = chars_of(content);
    let lv = split_lines(cs.as_slice());
    let ghost ls = lines_of(content@);
    let mut owned: Vec<String> = Vec::new();
    let mut k: usize = 0;
    while k < lv.len()
        invariant
            k <= lv@.len(),
            lv@.len() == ls.len(),
            forall|m: int| 0 <= m < lv@.len() ==> (#[trigger] lv@[m])@ == ls[m],
            owned@.len() == k,
            forall|m: int| 0 <= m < k ==> (#[trigger] owned@[m])@ == ls[m],
        decreases lv.len() - k,
    {
        owned.push(string_of(lv[k].as_slice()));
        k = k + 1;
    }
    assert(string_views(owned@) =~= ls);
    owned
}

/// Places each annotation after the line its text matches, or leaves it
/// unmatched, as `placements` says.
fn place_annotations(
    new_anns: &Vec<ZoteroAnnotation>,
    lines: &[&str],
    threshold: Ratio,
    page_ranges: &[PageRange],
) -> (r: (Vec<(usize, String)>, Vec<ZoteroAnnotation>))
    requires
        page_ranges@ == page_ranges_of(str_views(lines@)),
        lines@.len() == 0 ==> page_ranges@.len() == 0,
    ensures
        (positioned_views(r.0@), r.1@) == placements(new_anns@, str_views(lines@), threshold, page_ranges@),
        forall|m: int| 0 <= m < r.0@.len() ==> (#[trigger] r.0@[m]).0 < lines@.len(),
{
    let ghost na = new_anns@;
    let ghost ls = str_views(lines@);
    let ghost ranges = page_ranges@;
    let mut matched: Vec<(usize, String)> = Vec::new();
    let mut unmatched: Vec<ZoteroAnnotation> = Vec::new();
    let mut q: usize = 0;
    while q < new_anns.len()
        invariant
            q <= na.len(),
            na == new_anns@,
            ls == str_views(lines@),
            ranges == page_ranges@,
            lines@.len() == 0 ==> ranges.len() == 0,
            (positioned_views(matched@), unmatched@) == placements(na.take(q as int), ls, threshold, ranges),
            forall|m: int| 0 <= m < matched@.len() ==> (#[trigger] matched@[m]).0 < lines@.len(),
        decreases new_anns.len() - q,
    {
        let ann = &new_anns[q];
        let ghost before = placements(na.take(q as int), ls, threshold, ranges);
        proof {
            let t = na.take(q + 1);
            assert(t.drop_last() =~= na.take(q as int));
            assert(t.last() == na[q as int]);
        }
        let dsl = zotero_ann_to_dsl(ann);
        let text: Option<&str> = if ann.ann_type == 2 || ann.ann_type == 6 {
            None
        } else {
            match &ann.text {
                Some(t) => if t.as_str().is_empty() {
                    None
                } else {
                    Some(t.as_str())
                },
                None => None,
            }
        };
        assert(label_view(text) == matchable_text(*ann));
        match text {
            Some(t) => {
                let label: Option<&str> = match &ann.page_label {
                    Some(l) => Some(l.as_str()),
                    None => None,
                };
                assert(label_view(label) == page_label_of(*ann));
                proof {
                    if lines@.len() == 0 {
                        assert(scope_for(label_view(label), ranges) is None);
                    }
                }
                match find_match_line_scoped(t, lines, threshold, label, page_ranges) {
                    Some(line_idx) => {
                        matched.push((line_idx, dsl));
                        assert(positioned_views(matched@) =~= before.0.push((line_idx, ann_dsl_spec(*ann))));
                    },
                    None => {
                        unmatched.push(ann.copy());
                    },
                }
            },
            None => {
                unmatched.push(ann.copy());
            },
        }
        q = q + 1;
    }
    assert(na.take(q as int) =~= na);
    (matched, unmatched)
}

/// Computes what importing the annotations and child notes of the PDF
/// `pdf_stem` into the Markdown text `content` gives: the tallies, and the
/// new text to write (none when every annotation and note is already known,
/// from the text itself or from the manifest entry of `pdf_stem`).
pub fn sync_entry_content(
    pdf_stem: &str,
    content: &str,
    annotations: &[ZoteroAnnotation],
    child_notes: &[ZoteroChildNote],
    threshold: Ratio,
    manifest: &ZoteroSyncManifest,
) -> (r: (ImportResult, Option<String>))
    requires
        annotations@.len() + child_notes@.len() <= usize::MAX,
    ensures
        outcome_view(r) == sync_outcome(pdf_stem@, content@, annotations@, child_notes@, threshold, *manifest),
{
    let ghost known = known_ids(content@, *manifest, pdf_stem@);
    let existing = existing_zotero_ids(content);
    let no_ids: Vec<String> = Vec::new();
    let prior: &Vec<String> = match manifest.get_entry(pdf_stem) {
        Some(e) => &e.imported_ids,
        None => &no_ids,
    };
    assert(string_views(prior@) == prior_ids(*manifest, pdf_stem@));
    assert forall|x: Seq<char>|
        (string_views(existing@).contains(x) || string_views(prior@).contains(x)) <==> known.contains(x) by {
    }
    let new_anns = select_new_annotations(annotations, &existing, prior, Ghost(known));
    let new_nts = select_new_notes(child_notes, &existing, prior, Ghost(known));
    let ghost na = new_anns@;
    let ghost nn = new_nts@.map_values(|n: &ZoteroChildNote| *n);
    proof {
        lemma_new_annotations_len(annotations@, known);
        lemma_new_notes_len(child_notes@, known);
    }
    let skipped = (annotations.len() - new_anns.len()) + (child_notes.len() - new_nts.len());
    if new_anns.len() == 0 && new_nts.len() == 0 {
        return (ImportResult { inserted: 0, unmatched: 0, skipped }, None);
    }
    let owned = owned_lines(content);
    let ghost ls = lines_of(content@);
    let mut lines: Vec<&str> = Vec::new();
    let mut k: usize = 0;
    while k < owned.len()
        invariant
            k <= owned@.len(),
            string_views(owned@) == ls,
            lines@.len() == k,
            forall|m: int| 0 <= m < k ==> (#[trigger] lines@[m])@ == ls[m],
        decreases owned.len() - k,
    {
        lines.push(owned[k].as_str());
        k = k + 1;
    }
    assert(str_views(lines@) =~= ls);
    let page_ranges = find_page_ranges(lines.as_slice());
    proof {
        if ls.len() == 0 && page_ranges@.len() > 0 {
            assert(page_ranges@[0].end_line < lines@.len());
        }
    }
    let (matched, unmatched) = place_annotations(&new_anns, lines.as_slice(), threshold, page_ranges.as_slice());
    proof {
        lemma_placements_len(na, ls, threshold, page_ranges@);
    }
    let mut note_dsls: Vec<String> = Vec::new();
    let mut w: usize = 0;
    while w < new_nts.len()
        invariant
            w <= new_nts@.len(),
            nn == new_nts@.map_values(|n: &ZoteroChildNote| *n),
            string_views(note_dsls@) == nn.take(w as int).map_values(|n: ZoteroChildNote| note_dsl_spec(n)),
        decreases new_nts.len() - w,
    {
        note_dsls.push(zotero_note_to_dsl(new_nts[w]));
        assert(nn.take(w + 1).map_values(|n: ZoteroChildNote| note_dsl_spec(n)) =~= nn.take(w as int).map_values(
            |n: ZoteroChildNote| note_dsl_spec(n),
        ).push(note_dsl_spec(nn[w as int])));
        w = w + 1;
    }
    assert(nn.take(w as int) =~= nn);
    assert(matched@.len() + unmatched@.len() == na.len());
    let inserted = matched.len() + note_dsls.len();
    let unmatched_count = unmatched.len();
    let with_anns = insert_annotations_into_markdown(content, matched);
    let with_notes = insert_notes_section(with_anns.as_str(), note_dsls.as_slice());
    let mut out = chars_of(with_notes.as_str());
    append_unmatched_section(&mut out, unmatched.as_slice());
    (
        ImportResult { inserted: inserted + unmatched_count, unmatched: unmatched_count, skipped },
        Some(string_of(out.as_slice())),
    )
}

proof fn lemma_all_known_annotations(anns: Seq<ZoteroAnnotation>, known: Set<Seq<char>>)
    requires
        forall|i: int| 0 <= i < anns.len() ==> known.contains(ann_uuid(#[trigger] anns[i].item_id)),
    ensures
        new_annotations(anns, known).len() == 0,
    decreases anns.len(),
{
    if anns.len() > 0 {
        let init = anns.drop_last();
        assert forall|i: int| 0 <= i < init.len() implies known.contains(ann_uuid(#[trigger] init[i].item_id)) by {
            assert(init[i] == anns[i]);
        }
        lemma_all_known_annotations(init, known);
        assert(known.contains(ann_uuid(anns[anns.len() - 1].item_id)));
    }
}

proof fn lemma_all_known_notes(notes: Seq<ZoteroChildNote>, known: Set<Seq<char>>)
    requires
        forall|i: int| 0 <= i < notes.len() ==> known.contains(note_uuid(#[trigger] notes[i].item_id)),
    ensures
        new_notes(notes, known).len() == 0,
    decreases notes.len(),
{
    if notes.len() > 0 {
        let init = notes.drop_last();
        assert forall|i: int| 0 <= i < init.len() implies known.contains(note_uuid(#[trigger] init[i].item_id)) by {
            assert(init[i] == notes[i]);
        }
        lemma_all_known_notes(init, known);
        assert(known.contains(note_uuid(notes[notes.len() - 1].item_id)));
    }
}

/// Importing is safe to repeat: once the manifest records what an import
/// brought in, importing the same annotations and notes again, into any
/// text, writes nothing and skips every one of them.
pub proof fn lemma_reimport_writes_nothing(
    stem: Seq<char>,
    content: Seq<char>,
    anns: Seq<ZoteroAnnotation>,
    notes: Seq<ZoteroChildNote>,
    threshold: Ratio,
    m0: ZoteroSyncManifest,
    m1: ZoteroSyncManifest,
)
    requires
        entry_updated(m0, m1, stem, anns, notes),
    ensures
        sync_outcome(stem, content, anns, notes, threshold, m1) == ((0int, 0int, (anns.len() + notes.len()) as int), None::<Seq<char>>),
{
    let known = known_ids(content, m1, stem);
    assert(prior_ids(m1, stem) == m1.lookup(stem).unwrap().ids());
    assert forall|i: int| 0 <= i < anns.len() implies known.contains(ann_uuid(#[trigger] anns[i].item_id)) by {
        assert(added_ids(anns, notes).contains(ann_uuid(anns[i].item_id)));
        assert(prior_ids(m1, stem).to_set().contains(ann_uuid(anns[i].item_id)));
    }
    assert forall|i: int| 0 <= i < notes.len() implies known.contains(note_uuid(#[trigger] notes[i].item_id)) by {
        assert(added_ids(anns, notes).contains(note_uuid(notes[i].item_id)));
        assert(prior_ids(m1, stem).to_set().contains(note_uuid(notes[i].item_id)));
    }
    lemma_all_known_annotations(anns, known);
    lemma_all_known_notes(notes, known);
}

/// Every annotation and child note is accounted for: it is either skipped
/// as already known or counted as inserted, and the unmatched ones are among
/// the inserted ones.
pub proof fn lemma_sync_accounts_for_everything(
    stem: Seq<char>,
    content: Seq<char>,
    anns: Seq<ZoteroAnnotation>,
    notes: Seq<ZoteroChildNote>,
    threshold: Ratio,
    m: ZoteroSyncManifest,
)
    ensures
        ({
            let t = sync_outcome(stem, content, anns, notes, threshold, m).0;
            &&& t.0 + t.2 == anns.len() + notes.len()
            &&& 0 <= t.1 <= t.0
            &&& 0 <= t.2
        }),
{
    let known = known_ids(content, m, stem);
    lemma_new_annotations_len(anns, known);
    lemma_new_notes_len(notes, known);
    let na = new_annotations(anns, known);
    let lines = lines_of(content);
    lemma_placements_len(na, lines, threshold, page_ranges_of(lines));
}

/// The line after which the page-scoped pipeline places an annotation whose
/// type has highlighted text (anything but a sticky note, type 2, and free
/// text, type 6) and whose text is non-empty, when the pipeline finds that
/// text.
pub open spec fn found_line(
    a: ZoteroAnnotation,
    lines: Seq<Seq<char>>,
    threshold: Ratio,
    ranges: Seq<PageRange>,
) -> Option<usize> {
    if a.ann_type != 2 && a.ann_type != 6 {
        match a.text {
            Some(t) => if t@.len() > 0 {
                match scoped_match_spec(t@, lines, threshold, page_label_of(a), ranges) {
                    Some(h) => Some(h.0),
                    None => None,
                }
            } else {
                None
            },
            None => None,
        }
    } else {
        None
    }
}

/// Only what the matcher cannot find is left unmatched: every annotation
/// whose text the pipeline finds (any type but sticky note and free text,
/// underlines and highlights alike) is placed after the line found and is
/// not among the unmatched; every unmatched one has no such line.
pub proof fn lemma_found_annotations_are_placed(
    anns: Seq<ZoteroAnnotation>,
    lines: Seq<Seq<char>>,
    threshold: Ratio,
    ranges: Seq<PageRange>,
)
    ensures
        ({
            let p = placements(anns, lines, threshold, ranges);
            &&& forall|i: int| 0 <= i < anns.len() && #[trigger] found_line(anns[i], lines, threshold, ranges) is Some
                ==> p.0.contains((found_line(anns[i], lines, threshold, ranges)->0, ann_dsl_spec(anns[i])))
            &&& forall|k: int| 0 <= k < p.1.len() ==> found_line(#[trigger] p.1[k], lines, threshold, ranges) is None
        }),
    decreases anns.len(),
{
    if anns.len() > 0 {
        let init = anns.drop_last();
        lemma_found_annotations_are_placed(init, lines, threshold, ranges);
        let prev = placements(init, lines, threshold, ranges);
        let p = placements(anns, lines, threshold, ranges);
        let a = anns.last();
        let f = found_line(a, lines, threshold, ranges);
        match matchable_text(a) {
            Some(t) => {
                assert(a.text matches Some(x) && x@ == t);
            },
            None => {},
        }
        assert forall|i: int| 0 <= i < anns.len() && #[trigger] found_line(anns[i], lines, threshold, ranges) is Some
            implies p.0.contains((found_line(anns[i], lines, threshold, ranges)->0, ann_dsl_spec(anns[i]))) by {
            if i < anns.len() - 1 {
                assert(anns[i] == init[i]);
                let e = (found_line(anns[i], lines, threshold, ranges)->0, ann_dsl_spec(anns[i]));
                assert(prev.0.contains(e));
                let j = choose|j: int| 0 <= j < prev.0.len() && prev.0[j] == e;
                assert(p.0[j] == e);
            } else {
                let e = (f->0, ann_dsl_spec(a));
                assert(p.0.last() == e);
                assert(p.0[p.0.len() - 1] == e);
            }
        }
        assert forall|k: int| 0 <= k < p.1.len() implies found_line(#[trigger] p.1[k], lines, threshold, ranges) is None by {
            if k < prev.1.len() {
                assert(p.1[k] == prev.1[k]);
            } else {
                assert(p.1[k] == a);
            }
        }
    }
}

/// Importing one new annotation whose text the pipeline finds in the
/// Markdown file inserts it after the line found: one inserted, none
/// unmatched, none skipped, whatever its type (sticky notes and free text
/// aside).
pub proof fn lemma_found_annotation_is_inserted(
    stem: Seq<char>,
    content: Seq<char>,
    a: ZoteroAnnotation,
    threshold: Ratio,
    m: ZoteroSyncManifest,
)
    requires
        !known_ids(content, m, stem).contains(ann_uuid(a.item_id)),
        found_line(a, lines_of(content), threshold, page_ranges_of(lines_of(content))) is Some,
    ensures
        sync_outcome(stem, content, seq![a], seq![], threshold, m).0 == (1int, 0int, 0int),
{
    let known = known_ids(content, m, stem);
    let anns = seq![a];
    assert(anns.drop_last() =~= Seq::<ZoteroAnnotation>::empty());
    assert(new_annotations(anns.drop_last(), known) =~= Seq::<ZoteroAnnotation>::empty());
    assert(anns.last() == a);
    assert(new_annotations(anns, known) =~= Seq::<ZoteroAnnotation>::empty().push(a));
    assert(new_annotations(anns, known) =~= seq![a]);
    let notes = Seq::<ZoteroChildNote>::empty();
    assert(new_notes(notes, known) =~= Seq::<ZoteroChildNote>::empty());
    let lines = lines_of(content);
    let ranges = page_ranges_of(lines);
    lemma_found_annotations_are_placed(anns, lines, threshold, ranges);
    lemma_placements_len(anns, lines, threshold, ranges);
    let p = placements(anns, lines, threshold, ranges);
    assert(found_line(anns[0], lines, threshold, ranges) is Some);
    assert(p.0.len() > 0);
}

} // verus!
