//! The matching pipeline: exact, then fuzzy single-paragraph, then windowed
//! multi-paragraph, then OCR-rejoined paragraphs, optionally page-scoped.
use vstd::prelude::*;
use crate::text::{chars_of, string_from};
use crate::matching::normalize::{normalize_chars, normalized, ocr_normalize_chars, ocr_normalized};
use crate::matching::exact::{exact_match_spec, find_exact_match, str_views};
use crate::matching::score::Ratio;
use crate::matching::fuzzy::{
    build_paragraphs, find_fuzzy_match, find_fuzzy_match_windowed,
    find_fuzzy_match_windowed_with_score, find_fuzzy_match_with_score, fuzzy_match_spec,
    para_views, paragraphs_spec, scored_views, windowed_match_spec, best_paragraph, best_window,
    window_count, lemma_best_paragraph_line, lemma_best_window_line, lemma_paragraph_lines_in_range,
};
use crate::matching::exact::lemma_last_line_bound;
use crate::matching::page_scope::{
    build_paragraphs_ocr, page_scope_spec, page_scoped_line_range, para_rejoin_from, sat_dec,
    PageRange,
};

verus! {

/// Paragraphs as the fuzzy matchers take them.
pub open spec fn as_scored(ps: Seq<(Seq<char>, int)>) -> Seq<(Seq<char>, usize)> {
    ps.map_values(|p: (Seq<char>, int)| (p.0, p.1 as usize))
}

/// Paragraphs with paragraph-level hyphenation rejoined.
pub open spec fn ocr_paragraphs(ps: Seq<(Seq<char>, int)>) -> Seq<(Seq<char>, usize)> {
    ps.map_values(|p: (Seq<char>, int)| (para_rejoin_from(p.0, 0), p.1 as usize))
}

/// First present of a match's line.
pub open spec fn line_of(r: Option<(usize, Ratio)>) -> Option<usize> {
    match r {
        Some(p) => Some(p.0),
        None => None,
    }
}

/// What `find_match_line` returns for the views of its arguments.
pub open spec fn match_line_spec(needle: Seq<char>, lines: Seq<Seq<char>>, threshold: Ratio) -> Option<usize> {
    let ps = as_scored(paragraphs_spec(lines));
    if normalized(needle).len() == 0 {
        None
    } else if exact_match_spec(needle, lines) is Some {
        Some(exact_match_spec(needle, lines)->0 as usize)
    } else if fuzzy_match_spec(needle, ps, threshold) is Some {
        line_of(fuzzy_match_spec(needle, ps, threshold))
    } else {
        line_of(windowed_match_spec(needle, ps, threshold))
    }
}

proof fn lemma_scored_views(r: Seq<(String, usize)>, lines: Seq<Seq<char>>)
    requires
        para_views(r) == paragraphs_spec(lines),
        forall|k: int| 0 <= k < r.len() ==> (#[trigger] r[k]).1 < lines.len(),
    ensures
        scored_views(r) == as_scored(paragraphs_spec(lines)),
{
    assert forall|k: int| 0 <= k < r.len() implies #[trigger] scored_views(r)[k] == as_scored(paragraphs_spec(lines))[k] by {
        assert(para_views(r)[k] == (r[k].0@, r[k].1 as int));
    }
    assert(scored_views(r) =~= as_scored(paragraphs_spec(lines)));
}

/// Find the line index where `needle` best matches within `lines`.
/// Tries exact substring match first, then single-paragraph fuzzy,
/// then multi-paragraph windowed fuzzy matching.
/// Returns `None` if the needle is empty or no match meets the threshold.
pub fn find_match_line(needle: &str, lines: &[&str], threshold: Ratio) -> (r: Option<usize>)
    ensures
        r == match_line_spec(needle@, str_views(lines@), threshold),
        r matches Some(i) ==> i < lines@.len(),
{
    let nc = chars_of(needle);
    let nn = normalize_chars(nc.as_slice());
    if nn.len() == 0 {
        return None;
    }
    if let Some(line_idx) = find_exact_match(needle, lines) {
        proof {
            lemma_exact_nonempty(needle@, str_views(lines@));
        }
        return Some(line_idx);
    }
    let paragraphs = build_paragraphs(lines);
    proof {
        lemma_scored_views(paragraphs@, str_views(lines@));
    }
    if let Some((line_idx, _)) = find_fuzzy_match_with_score(needle, paragraphs.as_slice(), threshold) {
        return Some(line_idx);
    }
    match find_fuzzy_match_windowed_with_score(needle, paragraphs.as_slice(), threshold) {
        Some((line_idx, _)) => Some(line_idx),
        None => None,
    }
}

/// An exact match of a needle that normalizes to something needs some line.
proof fn lemma_exact_nonempty(needle: Seq<char>, lines: Seq<Seq<char>>)
    requires
        normalized(needle).len() > 0,
        exact_match_spec(needle, lines) is Some,
    ensures
        lines.len() > 0,
{
    let ns = lines.map_values(|l: Seq<char>| normalized(l));
    crate::text::lemma_find_from(crate::matching::exact::joined_prefix(ns, ns.len() as int), normalized(needle), 0);
    if lines.len() == 0 {
        assert(crate::matching::exact::joined_prefix(ns, 0).len() == 0);
    }
}

/// Metadata about how a match was found.
#[derive(Clone, Debug)]
pub struct MatchMetadata {
    pub line_idx: usize,
    pub match_type: String,
    pub confidence: Ratio,
}

pub open spec fn kind_exact() -> Seq<char> {
    seq!['e', 'x', 'a', 'c', 't']
}

pub open spec fn kind_fuzzy() -> Seq<char> {
    seq!['f', 'u', 'z', 'z', 'y']
}

pub open spec fn kind_fuzzy_windowed() -> Seq<char> {
    kind_fuzzy() + seq!['_', 'w', 'i', 'n', 'd', 'o', 'w', 'e', 'd']
}

pub open spec fn kind_fuzzy_ocr() -> Seq<char> {
    kind_fuzzy() + seq!['_', 'o', 'c', 'r']
}

pub open spec fn kind_fuzzy_ocr_windowed() -> Seq<char> {
    kind_fuzzy_ocr() + seq!['_', 'w', 'i', 'n', 'd', 'o', 'w', 'e', 'd']
}

/// The view of a match: (line, stage name, score).
pub open spec fn meta_view(m: MatchMetadata) -> (usize, Seq<char>, Ratio) {
    (m.line_idx, m.match_type@, m.confidence)
}

pub open spec fn with_kind(r: Option<(usize, Ratio)>, kind: Seq<char>) -> Option<(usize, Seq<char>, Ratio)> {
    match r {
        Some(p) => Some((p.0, kind, p.1)),
        None => None,
    }
}

/// What the pipeline finds in `lines` (no page scope): the first stage that
/// succeeds among exact, fuzzy, windowed, OCR-rejoined fuzzy and OCR-rejoined
/// windowed matching, with its name and score (1 for exact).
pub open spec fn match_inner_spec(needle: Seq<char>, lines: Seq<Seq<char>>, threshold: Ratio) -> Option<(usize, Seq<char>, Ratio)> {
    let ps = as_scored(paragraphs_spec(lines));
    let ops = ocr_paragraphs(paragraphs_spec(lines));
    if normalized(needle).len() == 0 {
        None
    } else if exact_match_spec(needle, lines) is Some {
        Some((exact_match_spec(needle, lines)->0 as usize, kind_exact(), Ratio { num: 1, den: 1 }))
    } else if fuzzy_match_spec(needle, ps, threshold) is Some {
        with_kind(fuzzy_match_spec(needle, ps, threshold), kind_fuzzy())
    } else if windowed_match_spec(needle, ps, threshold) is Some {
        with_kind(windowed_match_spec(needle, ps, threshold), kind_fuzzy_windowed())
    } else if fuzzy_match_spec(needle, ops, threshold) is Some {
        with_kind(fuzzy_match_spec(needle, ops, threshold), kind_fuzzy_ocr())
    } else {
        with_kind(windowed_match_spec(needle, ops, threshold), kind_fuzzy_ocr_windowed())
    }
}

fn make_meta(line_idx: usize, kind: &str, confidence: Ratio) -> (m: MatchMetadata)
    ensures
        meta_view(m) == (line_idx, kind@, confidence),
{
    MatchMetadata { line_idx, match_type: string_from(kind), confidence }
}

/// The pipeline without page scope, recording which stage matched.
fn find_match_with_metadata_inner(needle: &str, lines: &[&str], threshold: Ratio) -> (r: Option<MatchMetadata>)
    ensures
        match r {
            Some(m) => match_inner_spec(needle@, str_views(lines@), threshold) == Some(meta_view(m)),
            None => match_inner_spec(needle@, str_views(lines@), threshold) is None,
        },
        r matches Some(m) ==> m.line_idx < lines@.len(),
{
    let nc = chars_of(needle);
    let nn = normalize_chars(nc.as_slice());
    if nn.len() == 0 {
        return None;
    }
    if let Some(line_idx) = find_exact_match(needle, lines) {
        proof {
            lemma_exact_nonempty(needle@, str_views(lines@));
        }
        let e = "exact";
        proof { reveal_strlit("exact"); }
        assert(e@ =~= kind_exact());
        return Some(make_meta(line_idx, e, Ratio { num: 1, den: 1 }));
    }
    let paragraphs = build_paragraphs(lines);
    proof {
        lemma_scored_views(paragraphs@, str_views(lines@));
    }
    if let Some((line_idx, score)) = find_fuzzy_match_with_score(needle, paragraphs.as_slice(), threshold) {
        let e = "fuzzy";
        proof { reveal_strlit("fuzzy"); }
        assert(e@ =~= kind_fuzzy());
        return Some(make_meta(line_idx, e, score));
    }
    if let Some((line_idx, score)) = find_fuzzy_match_windowed_with_score(needle, paragraphs.as_slice(), threshold) {
        let e = "fuzzy_windowed";
        proof { reveal_strlit("fuzzy_windowed"); }
        assert(e@ =~= kind_fuzzy_windowed());
        return Some(make_meta(line_idx, e, score));
    }
    let ocr_paragraphs_v = build_paragraphs_ocr(lines);
    proof {
        let ps = paragraphs_spec(str_views(lines@));
        assert forall|k: int| 0 <= k < ocr_paragraphs_v@.len() implies #[trigger] scored_views(ocr_paragraphs_v@)[k] == ocr_paragraphs(ps)[k] by {
        }
        assert(scored_views(ocr_paragraphs_v@) =~= ocr_paragraphs(ps));
    }
    if let Some((line_idx, score)) = find_fuzzy_match_with_score(needle, ocr_paragraphs_v.as_slice(), threshold) {
        let e = "fuzzy_ocr";
        proof { reveal_strlit("fuzzy_ocr"); }
        assert(e@ =~= kind_fuzzy_ocr());
        return Some(make_meta(line_idx, e, score));
    }
    if let Some((line_idx, score)) = find_fuzzy_match_windowed_with_score(needle, ocr_paragraphs_v.as_slice(), threshold) {
        let e = "fuzzy_ocr_windowed";
        proof { reveal_strlit("fuzzy_ocr_windowed"); }
        assert(e@ =~= kind_fuzzy_ocr_windowed());
        return Some(make_meta(line_idx, e, score));
    }
    None
}

/// The view of an optional page label.
pub open spec fn label_view(l: Option<&str>) -> Option<Seq<char>> {
    match l {
        Some(x) => Some(x@),
        None => None,
    }
}

/// The line span a page label selects, if any.
pub open spec fn scope_for(label: Option<Seq<char>>, ranges: Seq<PageRange>) -> Option<(usize, usize)> {
    match label {
        Some(l) => page_scope_spec(l, ranges),
        None => None,
    }
}

/// The inputs on which the page-scoped search would slice an empty document:
/// the scoped search starts at line 0 of a document without lines.
pub open spec fn scoped_search_defined(
    needle: Seq<char>,
    lines: Seq<Seq<char>>,
    label: Option<Seq<char>>,
    ranges: Seq<PageRange>,
) -> bool {
    !(lines.len() == 0 && ocr_normalized(needle).len() > 0 && (scope_for(label, ranges) matches Some(sp)
        && sp.0 == 0))
}

/// What `find_match_line_scoped_with_metadata` returns: both needle and lines
/// OCR-normalized; the pipeline first run on the page-scoped span of lines
/// (end clamped to the last line), its line shifted back to document
/// numbering; if that finds nothing, the pipeline on the whole document.
pub open spec fn scoped_match_spec(
    needle: Seq<char>,
    lines: Seq<Seq<char>>,
    threshold: Ratio,
    label: Option<Seq<char>>,
    ranges: Seq<PageRange>,
) -> Option<(usize, Seq<char>, Ratio)> {
    let on = ocr_normalized(needle);
    let ol = lines.map_values(|l: Seq<char>| ocr_normalized(l));
    if on.len() == 0 {
        None
    } else {
        let scoped = match scope_for(label, ranges) {
            Some(sp) => {
                let last = sat_dec(ol.len() as int);
                let e = if sp.1 < last { sp.1 as int } else { last };
                if sp.0 <= e {
                    match match_inner_spec(on, ol.subrange(sp.0 as int, e + 1), threshold) {
                        Some(m) => Some(((sp.0 + m.0) as usize, m.1, m.2)),
                        None => None,
                    }
                } else {
                    None
                }
            },
            None => None,
        };
        if scoped is Some {
            scoped
        } else {
            match_inner_spec(on, ol, threshold)
        }
    }
}

/// Like `find_match_line_scoped` but returns metadata about the match: the
/// stage that succeeded (exact, fuzzy, fuzzy_windowed, fuzzy_ocr,
/// fuzzy_ocr_windowed) and its score.
///
/// Pipeline: OCR-normalize needle and lines; if a page label selects a span of
/// lines (the page and one page either side), search that span first; if that
/// fails, search the whole document.
pub fn find_match_line_scoped_with_metadata(
    needle: &str,
    lines: &[&str],
    threshold: Ratio,
    page_label: Option<&str>,
    page_ranges: &[PageRange],
) -> (r: Option<MatchMetadata>)
    requires
        scoped_search_defined(needle@, str_views(lines@), label_view(page_label), page_ranges@),
    ensures
        match r {
            Some(m) => scoped_match_spec(needle@, str_views(lines@), threshold, label_view(page_label), page_ranges@)
                == Some(meta_view(m)),
            None => scoped_match_spec(needle@, str_views(lines@), threshold, label_view(page_label), page_ranges@) is None,
        },
        r matches Some(m) ==> m.line_idx < lines@.len(),
{
    let ghost ol = str_views(lines@).map_values(|l: Seq<char>| ocr_normalized(l));
    let nc = chars_of(needle);
    let on_chars = ocr_normalize_chars(nc.as_slice());
    if on_chars.len() == 0 {
        return None;
    }
    let on = crate::text::string_of(on_chars.as_slice());
    let mut ocr_lines: Vec<String> = Vec::new();
    let mut i: usize = 0;
    while i < lines.len()
        invariant
            i <= lines@.len(),
            ocr_lines@.len() == i,
            forall|k: int| 0 <= k < i ==> (#[trigger] ocr_lines@[k])@ == ocr_normalized(lines@[k]@),
        decreases lines.len() - i,
    {
        let cs = chars_of(lines[i]);
        let o = ocr_normalize_chars(cs.as_slice());
        ocr_lines.push(crate::text::string_of(o.as_slice()));
        i = i + 1;
    }
    let mut refs: Vec<&str> = Vec::new();
    let mut k: usize = 0;
    while k < ocr_lines.len()
        invariant
            k <= ocr_lines@.len(),
            refs@.len() == k,
            forall|m: int| 0 <= m < k ==> (#[trigger] refs@[m])@ == ocr_lines@[m]@,
        decreases ocr_lines.len() - k,
    {
        refs.push(ocr_lines[k].as_str());
        k = k + 1;
    }
    assert(str_views(refs@) =~= ol);
    let scope = match page_label {
        Some(pl) => page_scoped_line_range(pl, page_ranges),
        None => None,
    };
    if let Some((start, end)) = scope {
        let last: usize = if refs.len() == 0 { 0 } else { refs.len() - 1 };
        let end = if end < last { end } else { last };
        if start <= end {
            let mut scoped: Vec<&str> = Vec::new();
            let mut j: usize = start;
            while j <= end
                invariant
                    start <= j <= end + 1,
                    end < refs@.len(),
                    refs@.len() == refs.len(),
                    scoped@.len() == j - start,
                    forall|m: int| 0 <= m < j - start ==> (#[trigger] scoped@[m]) == refs@[start + m],
                decreases end + 1 - j,
            {
                scoped.push(refs[j]);
                j = j + 1;
            }
            assert(str_views(scoped@) =~= ol.subrange(start as int, end + 1));
            if let Some(meta) = find_match_with_metadata_inner(on.as_str(), scoped.as_slice(), threshold) {
                return Some(MatchMetadata {
                    line_idx: start + meta.line_idx,
                    match_type: meta.match_type,
                    confidence: meta.confidence,
                });
            }
        }
    }
    find_match_with_metadata_inner(on.as_str(), refs.as_slice(), threshold)
}

/// Find the line index where `needle` best matches within `lines`,
/// optionally scoped to the pages around `page_label` (see
/// `find_match_line_scoped_with_metadata`).
pub fn find_match_line_scoped(
    needle: &str,
    lines: &[&str],
    threshold: Ratio,
    page_label: Option<&str>,
    page_ranges: &[PageRange],
) -> (r: Option<usize>)
    requires
        scoped_search_defined(needle@, str_views(lines@), label_view(page_label), page_ranges@),
    ensures
        r == (match scoped_match_spec(needle@, str_views(lines@), threshold, label_view(page_label), page_ranges@) {
            Some(m) => Some(m.0),
            None => None,
        }),
        r matches Some(i) ==> i < lines@.len(),
{
    match find_match_line_scoped_with_metadata(needle, lines, threshold, page_label, page_ranges) {
        Some(m) => Some(m.line_idx),
        None => None,
    }
}

/// A paragraph list's line, for any paragraph, is a line of the document.
proof fn lemma_paragraph_line_bound(
    needle: Seq<char>,
    lines: Seq<Seq<char>>,
    ps: Seq<(Seq<char>, usize)>,
    threshold: Ratio,
)
    requires
        ps.len() == paragraphs_spec(lines).len(),
        forall|k: int| 0 <= k < ps.len() ==> (#[trigger] ps[k]).1 == paragraphs_spec(lines)[k].1 as usize,
    ensures
        fuzzy_match_spec(needle, ps, threshold) matches Some(m) ==> m.0 < lines.len(),
        windowed_match_spec(needle, ps, threshold) matches Some(m) ==> m.0 < lines.len(),
{
    let ns = lines.map_values(|l: Seq<char>| normalized(l));
    lemma_paragraph_lines_in_range(ns);
    let nn = normalized(needle);
    lemma_best_paragraph_line(nn, ps, ps.len() as int);
    lemma_best_window_line(nn, ps, window_count(ps.len() as int));
    assert forall|k: int| 0 <= k < ps.len() implies (#[trigger] ps[k]).1 < lines.len() by {
        assert(0 <= paragraphs_spec(lines)[k].1 < ns.len());
    }
}

/// Every stage of the pipeline names a line of the lines it searched.
pub proof fn lemma_match_inner_line_bound(needle: Seq<char>, lines: Seq<Seq<char>>, threshold: Ratio)
    ensures
        match_inner_spec(needle, lines, threshold) matches Some(m) ==> m.0 < lines.len(),
{
    let ns = lines.map_values(|l: Seq<char>| normalized(l));
    let pss = paragraphs_spec(lines);
    let ps = as_scored(pss);
    let ops = ocr_paragraphs(pss);
    lemma_paragraph_line_bound(needle, lines, ps, threshold);
    lemma_paragraph_line_bound(needle, lines, ops, threshold);
    if normalized(needle).len() > 0 && exact_match_spec(needle, lines) is Some {
        lemma_exact_nonempty(needle, lines);
        let nd = normalized(needle);
        match crate::text::find_first(crate::matching::exact::joined_prefix(ns, ns.len() as int), nd) {
            Some(idx) => lemma_last_line_bound(ns, idx + nd.len(), ns.len() as int),
            None => {},
        }
    }
}

/// A page-scoped hit is reported in the numbering of the whole document:
/// when the pipeline finds the needle at index `m` of the span of lines the
/// page label selects (from `start` to the clamped `end`), the line returned
/// is `start + m`, which lies in the span and is that very line of the
/// document. When the span yields nothing, the whole document is searched.
pub proof fn lemma_scoped_hit_in_document_numbering(
    needle: Seq<char>,
    lines: Seq<Seq<char>>,
    threshold: Ratio,
    label: Option<Seq<char>>,
    ranges: Seq<PageRange>,
)
    requires
        scoped_search_defined(needle, lines, label, ranges),
    ensures
        ({
            let on = ocr_normalized(needle);
            let ol = lines.map_values(|l: Seq<char>| ocr_normalized(l));
            let r = scoped_match_spec(needle, lines, threshold, label, ranges);
            &&& on.len() == 0 ==> r is None
            &&& match scope_for(label, ranges) {
                Some(sp) => {
                    let last = if lines.len() == 0 { 0 } else { lines.len() - 1 };
                    let end = if sp.1 < last { sp.1 as int } else { last };
                    let span = ol.subrange(sp.0 as int, end + 1);
                    &&& (on.len() > 0 && sp.0 <= end) ==> match match_inner_spec(on, span, threshold) {
                        Some(m) => r matches Some(h) && h.0 == sp.0 + m.0 && sp.0 <= h.0 <= end && h.0
                            < lines.len() && ol[h.0 as int] == span[m.0 as int] && h.1 == m.1 && h.2 == m.2,
                        None => r == match_inner_spec(on, ol, threshold),
                    }
                    &&& (on.len() > 0 && sp.0 > end) ==> r == match_inner_spec(on, ol, threshold)
                },
                None => on.len() > 0 ==> r == match_inner_spec(on, ol, threshold),
            }
        }),
{
    let on = ocr_normalized(needle);
    let ol = lines.map_values(|l: Seq<char>| ocr_normalized(l));
    if on.len() > 0 {
        if let Some(sp) = scope_for(label, ranges) {
            let last = sat_dec(ol.len() as int);
            let end = if sp.1 < last { sp.1 as int } else { last };
            if sp.0 <= end {
                let span = ol.subrange(sp.0 as int, end + 1);
                lemma_match_inner_line_bound(on, span, threshold);
            }
        }
    }
}

} // verus!
