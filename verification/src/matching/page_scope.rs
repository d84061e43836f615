//! Page markers (`<!-- Page N - M images -->`) and page-scoped line ranges.
use vstd::prelude::*;
use crate::text::{
    chars_of, find_chars, find_first, is_ascii_lower, parse_usize, parse_usize_chars,
    starts_with, starts_with_chars, string_of, trim, trim_chars, slice_chars,
};
use crate::matching::exact::str_views;
use crate::matching::fuzzy::{build_paragraphs, para_views, paragraphs_spec};

verus! {

/// A page range: the line indices (inclusive) that belong to a given OCR page.
/// `page_index` is the zero-based OCR page number from the `<!-- Page N -->` comment.
#[derive(Clone, Copy, Debug, PartialEq, Eq, Structural)]
pub struct PageRange {
    pub page_index: usize,
    pub start_line: usize,
    pub end_line: usize,
}

/// `<!-- Page `
pub open spec fn marker_prefix() -> Seq<char> {
    seq!['<', '!', '-', '-', ' ', 'P', 'a', 'g', 'e', ' ']
}

/// ` images -->`
pub open spec fn marker_suffix() -> Seq<char> {
    seq![' ', 'i', 'm', 'a', 'g', 'e', 's', ' ', '-', '-', '>']
}

/// A trimmed line is a page marker: it starts with `<!-- Page ` and holds ` images -->`.
pub open spec fn is_page_marker(t: Seq<char>) -> bool {
    starts_with(t, marker_prefix()) && find_first(t, marker_suffix()) is Some
}

/// The page number of a marker: the text after `<!-- Page ` up to the first
/// ` -`, trimmed and parsed as a decimal `usize`.
pub open spec fn marker_page(t: Seq<char>) -> Option<usize> {
    let after = t.skip(marker_prefix().len() as int);
    match find_first(after, seq![' ', '-']) {
        Some(d) => parse_usize(trim(after.take(d))),
        None => None,
    }
}

/// `i - 1`, or 0 for `i == 0`.
pub open spec fn sat_dec(i: int) -> int {
    if i <= 0 {
        0
    } else {
        i - 1
    }
}

/// Scan state after the first `n` lines: closed ranges and the open page
/// (page number, marker line). Every marker closes the open page at the line
/// before it; a marker whose number parses opens a new page, one that does
/// not parse leaves the previous page open.
pub open spec fn page_scan(ls: Seq<Seq<char>>, n: int) -> (Seq<PageRange>, Option<(usize, usize)>)
    decreases n,
{
    if n <= 0 {
        (seq![], None)
    } else {
        let st = page_scan(ls, n - 1);
        let t = trim(ls[n - 1]);
        if is_page_marker(t) {
            let closed = match st.1 {
                Some(cur) => st.0.push(
                    PageRange { page_index: cur.0, start_line: cur.1, end_line: sat_dec(n - 1) as usize },
                ),
                None => st.0,
            };
            let open = match marker_page(t) {
                Some(p) => Some((p, (n - 1) as usize)),
                None => st.1,
            };
            (closed, open)
        } else {
            st
        }
    }
}

/// What `find_page_ranges` returns for lines with the given views.
pub open spec fn page_ranges_of(ls: Seq<Seq<char>>) -> Seq<PageRange> {
    let st = page_scan(ls, ls.len() as int);
    match st.1 {
        Some(cur) => st.0.push(
            PageRange { page_index: cur.0, start_line: cur.1, end_line: sat_dec(ls.len() as int) as usize },
        ),
        None => st.0,
    }
}

proof fn lemma_page_scan(ls: Seq<Seq<char>>, n: int)
    requires
        0 <= n <= ls.len(),
        ls.len() <= usize::MAX,
    ensures
        forall|k: int| 0 <= k < page_scan(ls, n).0.len() ==>
            (#[trigger] page_scan(ls, n).0[k]).start_line <= page_scan(ls, n).0[k].end_line < n,
        forall|k: int, l: int| 0 <= k < l < page_scan(ls, n).0.len() ==>
            (#[trigger] page_scan(ls, n).0[k]).start_line <= (#[trigger] page_scan(ls, n).0[l]).start_line,
        page_scan(ls, n).1 matches Some(cur) ==> cur.1 < n
            && forall|k: int| 0 <= k < page_scan(ls, n).0.len() ==> (#[trigger] page_scan(ls, n).0[k]).start_line <= cur.1,
    decreases n,
{
    if n > 0 {
        lemma_page_scan(ls, n - 1);
    }
}

/// Line ranges are well formed and listed in order of their first line.
pub proof fn lemma_page_ranges_sorted(ls: Seq<Seq<char>>)
    requires
        ls.len() <= usize::MAX,
    ensures
        forall|k: int| 0 <= k < page_ranges_of(ls).len() ==>
            (#[trigger] page_ranges_of(ls)[k]).start_line <= page_ranges_of(ls)[k].end_line < ls.len(),
        forall|k: int, l: int| 0 <= k < l < page_ranges_of(ls).len() ==>
            (#[trigger] page_ranges_of(ls)[k]).start_line <= (#[trigger] page_ranges_of(ls)[l]).start_line,
{
    lemma_page_scan(ls, ls.len() as int);
}

fn marker_prefix_exec() -> (v: Vec<char>)
    ensures
        v@ == marker_prefix(),
{
    let v = vec!['<', '!', '-', '-', ' ', 'P', 'a', 'g', 'e', ' '];
    assert(v@ =~= marker_prefix());
    v
}

fn marker_suffix_exec() -> (v: Vec<char>)
    ensures
        v@ == marker_suffix(),
{
    let v = vec![' ', 'i', 'm', 'a', 'g', 'e', 's', ' ', '-', '-', '>'];
    assert(v@ =~= marker_suffix());
    v
}

/// The page number of a page marker line (already trimmed).
fn marker_page_exec(t: &Vec<char>) -> (r: Option<usize>)
    requires
        starts_with(t@, marker_prefix()),
    ensures
        r == marker_page(t@),
{
    let after = slice_chars(t.as_slice(), 10, t.len());
    assert(after@ =~= t@.skip(marker_prefix().len() as int));
    let dash: Vec<char> = vec![' ', '-'];
    assert(dash@ =~= seq![' ', '-']);
    match find_chars(after.as_slice(), dash.as_slice()) {
        Some(d) => {
            proof {
                crate::text::lemma_find_from(after@, dash@, 0);
            }
            let head = slice_chars(after.as_slice(), 0, d);
            assert(head@ =~= after@.take(d as int));
            let trimmed = trim_chars(head.as_slice());
            parse_usize_chars(trimmed.as_slice())
        },
        None => None,
    }
}

/// Parse `<!-- Page N - M images -->` comments from OCR markdown lines.
/// Returns the page ranges in order of their first line. Lines between
/// markers belong to the preceding page; lines before the first marker have
/// no page.
pub fn find_page_ranges(lines: &[&str]) -> (r: Vec<PageRange>)
    ensures
        r@ == page_ranges_of(str_views(lines@)),
        forall|k: int| 0 <= k < r@.len() ==> (#[trigger] r@[k]).start_line <= r@[k].end_line < lines@.len(),
        forall|k: int, l: int| 0 <= k < l < r@.len() ==> (#[trigger] r@[k]).start_line <= (#[trigger] r@[l]).start_line,
{
    let ghost ls = str_views(lines@);
    let prefix = marker_prefix_exec();
    let suffix = marker_suffix_exec();
    let mut ranges: Vec<PageRange> = Vec::new();
    let mut current: Option<(usize, usize)> = None;
    let mut i: usize = 0;
    while i < lines.len()
        invariant
            i <= lines@.len(),
            lines.len() == lines@.len(),
            ls == str_views(lines@),
            prefix@ == marker_prefix(),
            suffix@ == marker_suffix(),
            ranges@ == page_scan(ls, i as int).0,
            current == page_scan(ls, i as int).1,
        decreases lines.len() - i,
    {
        let cs = chars_of(lines[i]);
        let t = trim_chars(cs.as_slice());
        assert(t@ == trim(ls[i as int]));
        if starts_with_chars(t.as_slice(), prefix.as_slice()) && find_chars(t.as_slice(), suffix.as_slice()).is_some() {
            match current {
                Some((p, s)) => {
                    let end: usize = if i == 0 { 0 } else { i - 1 };
                    ranges.push(PageRange { page_index: p, start_line: s, end_line: end });
                },
                None => {},
            }
            match marker_page_exec(&t) {
                Some(p) => {
                    current = Some((p, i));
                },
                None => {},
            }
        }
        i = i + 1;
    }
    match current {
        Some((p, s)) => {
            let end: usize = if lines.len() == 0 { 0 } else { lines.len() - 1 };
            ranges.push(PageRange { page_index: p, start_line: s, end_line: end });
        },
        None => {},
    }
    proof {
        assert(ls.len() == lines@.len());
        lemma_page_ranges_sorted(ls);
        assert(ranges@ == page_ranges_of(ls));
        assert forall|k: int| 0 <= k < ranges@.len() implies (#[trigger] ranges@[k]).start_line <= ranges@[k].end_line < lines@.len() by {
            assert(page_ranges_of(ls)[k] == ranges@[k]);
        }
    }
    ranges
}

/// A range's page lies within `lo..=hi`.
pub open spec fn in_page_scope(r: PageRange, lo: int, hi: int) -> bool {
    lo <= r.page_index <= hi
}

/// Smallest start and largest end over the first `n` ranges whose page is in
/// `lo..=hi`; `None` if there is none.
pub open spec fn scope_span(rs: Seq<PageRange>, lo: int, hi: int, n: int) -> Option<(usize, usize)>
    decreases n,
{
    if n <= 0 {
        None
    } else {
        let prev = scope_span(rs, lo, hi, n - 1);
        let r = rs[n - 1];
        if in_page_scope(r, lo, hi) {
            match prev {
                None => Some((r.start_line, r.end_line)),
                Some(p) => Some((
                    if r.start_line < p.0 { r.start_line } else { p.0 },
                    if r.end_line > p.1 { r.end_line } else { p.1 },
                )),
            }
        } else {
            prev
        }
    }
}

/// What `page_scoped_line_range` returns: the page label read as a 1-based
/// page number `h`, the OCR pages `h - 2 ..= h` (the target page `h - 1` and one
/// page either side, floored at 0), and the span of their line ranges.
pub open spec fn page_scope_spec(label: Seq<char>, rs: Seq<PageRange>) -> Option<(usize, usize)> {
    match parse_usize(label) {
        Some(h) => if h == 0 {
            None
        } else {
            let target = h - 1;
            scope_span(rs, sat_dec(target), target + 1, rs.len() as int)
        },
        None => None,
    }
}

/// Given a Zotero page label (typically "1", "2", ...: a 1-based page number)
/// and page ranges parsed from OCR markdown, the line range (start, end
/// inclusive) covering the target page with one page of margin on each side.
/// `None` if the label is not numeric, is 0, or no range falls in scope.
pub fn page_scoped_line_range(page_label: &str, page_ranges: &[PageRange]) -> (r: Option<(usize, usize)>)
    ensures
        r == page_scope_spec(page_label@, page_ranges@),
{
    let lc = chars_of(page_label);
    let human_page = match parse_usize_chars(lc.as_slice()) {
        Some(h) => h,
        None => return None,
    };
    if human_page == 0 {
        return None;
    }
    let target = human_page - 1;
    let min_page: usize = if target == 0 { 0 } else { target - 1 };
    let max_page: usize = target + 1;
    let mut span: Option<(usize, usize)> = None;
    let mut i: usize = 0;
    while i < page_ranges.len()
        invariant
            i <= page_ranges@.len(),
            page_ranges.len() == page_ranges@.len(),
            min_page == sat_dec(target as int),
            max_page == target + 1,
            span == scope_span(page_ranges@, min_page as int, max_page as int, i as int),
        decreases page_ranges.len() - i,
    {
        let r = page_ranges[i];
        if min_page <= r.page_index && r.page_index <= max_page {
            span = match span {
                None => Some((r.start_line, r.end_line)),
                Some((s, e)) => Some((
                    if r.start_line < s { r.start_line } else { s },
                    if r.end_line > e { r.end_line } else { e },
                )),
            };
        }
        i = i + 1;
    }
    span
}

/// Text with paragraph-level hyphenation rejoined from position `i` on: a
/// hyphen that ends a word (it follows a character other than a space) and
/// is followed by a space and an ASCII lowercase letter is dropped together
/// with the space. A free-standing dash stays.
pub open spec fn para_rejoin_from(s: Seq<char>, i: int) -> Seq<char>
    decreases s.len() - i,
{
    if i < 0 || i >= s.len() {
        seq![]
    } else if s[i] == '-' && i > 0 && s[i - 1] != ' ' && s.len() - i > 2 && s[i + 1] == ' ' && is_ascii_lower(
        s[i + 2],
    ) {
        para_rejoin_from(s, i + 2)
    } else {
        seq![s[i]] + para_rejoin_from(s, i + 1)
    }
}

/// Rejoin hyphenated word breaks that span line boundaries in paragraph
/// text: "knowl- edge" becomes "knowledge" (a hyphen ending a word, a space,
/// a lowercase ASCII letter); "a - b" stays as it is.
pub fn rejoin_paragraph_hyphens(text: &str) -> (r: String)
    ensures
        r@ == para_rejoin_from(text@, 0),
{
    let s = chars_of(text);
    let mut out: Vec<char> = Vec::new();
    let mut i: usize = 0;
    while i < s.len()
        invariant
            i <= s@.len(),
            out@ + para_rejoin_from(s@, i as int) == para_rejoin_from(s@, 0),
        decreases s.len() - i,
    {
        if s[i] == '-' && i > 0 && s[i - 1] != ' ' && s.len() - i > 2 && s[i + 1] == ' ' && 'a' <= s[i + 2]
            && s[i + 2] <= 'z' {
            i = i + 2;
        } else {
            out.push(s[i]);
            proof {
                let a = out@.drop_last();
                assert(a + para_rejoin_from(s@, i as int) =~= out@ + para_rejoin_from(s@, i + 1));
            }
            i = i + 1;
        }
    }
    assert(out@ + para_rejoin_from(s@, i as int) =~= out@);
    string_of(out.as_slice())
}

/// Paragraphs as `build_paragraphs` gives them, with `rejoin_paragraph_hyphens`
/// applied to each paragraph's text.
pub fn build_paragraphs_ocr(lines: &[&str]) -> (r: Vec<(String, usize)>)
    ensures
        r@.len() == paragraphs_spec(str_views(lines@)).len(),
        forall|k: int| 0 <= k < r@.len() ==> (#[trigger] r@[k]).0@
            == para_rejoin_from(paragraphs_spec(str_views(lines@))[k].0, 0)
            && r@[k].1 == paragraphs_spec(str_views(lines@))[k].1,
        forall|k: int| 0 <= k < r@.len() ==> (#[trigger] r@[k]).1 < lines@.len(),
{
    let raw = build_paragraphs(lines);
    let mut out: Vec<(String, usize)> = Vec::new();
    let mut i: usize = 0;
    while i < raw.len()
        invariant
            i <= raw@.len(),
            para_views(raw@) == paragraphs_spec(str_views(lines@)),
            forall|k: int| 0 <= k < raw@.len() ==> (#[trigger] raw@[k]).1 < lines@.len(),
            out@.len() == i,
            forall|k: int| 0 <= k < i ==> (#[trigger] out@[k]).0@ == para_rejoin_from(raw@[k].0@, 0)
                && out@[k].1 == raw@[k].1,
        decreases raw.len() - i,
    {
        let t = rejoin_paragraph_hyphens(raw[i].0.as_str());
        out.push((t, raw[i].1));
        i = i + 1;
    }
    proof {
        assert forall|k: int| 0 <= k < out@.len() implies (#[trigger] out@[k]).0@
            == para_rejoin_from(paragraphs_spec(str_views(lines@))[k].0, 0)
            && out@[k].1 == paragraphs_spec(str_views(lines@))[k].1 by {
            assert(para_views(raw@)[k] == (raw@[k].0@, raw@[k].1 as int));
        }
    }
    out
}

} // verus!
