//! Zotero note HTML: tag stripping, entity decoding and the conversion to
//! Markdown. Pattern matching goes through the `regex` crate; everything
//! built from its matches is computed here.
use vstd::prelude::*;

use crate::text::{
    char_len_utf8, chars_of, collapse_whitespace, collapse_ws, extend_chars, extend_str, int_text, join,
    join_chars, lines_of, push_usize, slice_chars, split_lines, string_of, trim, trim_chars, trim_end,
    trim_end_chars, utf8_len,
};

verus! {

// ---------------------------------------------------------------------
// Stripping tags
// ---------------------------------------------------------------------

/// Whether the text after `s` is inside a tag: a `<` opens one, a `>`
/// closes it.
pub open spec fn in_tag_after(s: Seq<char>) -> bool
    decreases s.len(),
{
    if s.len() == 0 {
        false
    } else if s.last() == '<' {
        true
    } else if s.last() == '>' {
        false
    } else {
        in_tag_after(s.drop_last())
    }
}

/// The characters of `s` outside tags, the brackets themselves dropped.
pub open spec fn untagged(s: Seq<char>) -> Seq<char>
    decreases s.len(),
{
    if s.len() == 0 {
        seq![]
    } else {
        let prev = untagged(s.drop_last());
        let c = s.last();
        if c == '<' || c == '>' || in_tag_after(s.drop_last()) {
            prev
        } else {
            prev.push(c)
        }
    }
}

proof fn lemma_untagged_no_brackets(s: Seq<char>)
    ensures
        crate::text::all_chars(untagged(s), |c: char| c != '<' && c != '>'),
    decreases s.len(),
{
    if s.len() > 0 {
        lemma_untagged_no_brackets(s.drop_last());
    }
}

/// The text of `html` with tags removed and whitespace collapsed to single
/// spaces, trimmed at both ends.
pub fn strip_html_tags(html: &str) -> (r: String)
    ensures
        r@ == collapse_ws(untagged(html@)),
        forall|i: int| 0 <= i < r@.len() ==> r@[i] != '<' && r@[i] != '>',
{
    let s = chars_of(html);
    let mut kept: Vec<char> = Vec::new();
    let mut in_tag = false;
    let mut i: usize = 0;
    while i < s.len()
        invariant
            i <= s@.len(),
            s@ == html@,
            kept@ == untagged(s@.take(i as int)),
            in_tag == in_tag_after(s@.take(i as int)),
        decreases s.len() - i,
    {
        let ch = s[i];
        proof {
            let t = s@.take(i + 1);
            assert(t.drop_last() =~= s@.take(i as int));
            assert(t.last() == ch);
        }
        if ch == '<' {
            in_tag = true;
        } else if ch == '>' {
            in_tag = false;
        } else if !in_tag {
            kept.push(ch);
        }
        i = i + 1;
    }
    assert(s@.take(i as int) =~= s@);
    let r = collapse_whitespace(kept.as_slice());
    proof {
        let p = |c: char| c != '<' && c != '>';
        lemma_untagged_no_brackets(html@);
        crate::text::lemma_collapse_all_chars(kept@, p);
        assert forall|i: int| 0 <= i < r@.len() implies r@[i] != '<' && r@[i] != '>' by {
            assert(p(r@[i]));
        }
    }
    string_of(r.as_slice())
}

// ---------------------------------------------------------------------
// Byte offsets and character positions
// ---------------------------------------------------------------------

/// `b` is the UTF-8 byte offset of a position between characters of `h`.
pub open spec fn is_char_boundary(h: Seq<char>, b: int) -> bool {
    exists|k: int| 0 <= k <= h.len() && utf8_len(h.take(k)) == b
}

/// The character position at byte offset `b`.
pub open spec fn char_pos(h: Seq<char>, b: int) -> int {
    choose|k: int| 0 <= k <= h.len() && utf8_len(h.take(k)) == b
}

/// Longer prefixes take strictly more bytes.
pub proof fn lemma_utf8_prefix_increasing(h: Seq<char>, i: int, j: int)
    requires
        0 <= i < j <= h.len(),
    ensures
        utf8_len(h.take(i)) < utf8_len(h.take(j)),
    decreases j - i,
{
    assert(h.take(j).drop_last() =~= h.take(j - 1));
    if i < j - 1 {
        lemma_utf8_prefix_increasing(h, i, j - 1);
    }
}

/// A boundary offset has exactly one character position, and positions
/// keep the order of offsets.
pub proof fn lemma_char_pos(h: Seq<char>, b: int)
    requires
        is_char_boundary(h, b),
    ensures
        0 <= char_pos(h, b) <= h.len(),
        utf8_len(h.take(char_pos(h, b))) == b,
        forall|k: int| 0 <= k <= h.len() && utf8_len(h.take(k)) == b ==> k == char_pos(h, b),
{
    let p = char_pos(h, b);
    assert forall|k: int| 0 <= k <= h.len() && utf8_len(h.take(k)) == b implies k == p by {
        if k < p {
            lemma_utf8_prefix_increasing(h, k, p);
        } else if p < k {
            lemma_utf8_prefix_increasing(h, p, k);
        }
    }
}

/// Character positions keep the order of byte offsets.
pub proof fn lemma_char_pos_monotone(h: Seq<char>, a: int, b: int)
    requires
        is_char_boundary(h, a),
        is_char_boundary(h, b),
        a <= b,
    ensures
        char_pos(h, a) <= char_pos(h, b),
{
    lemma_char_pos(h, a);
    lemma_char_pos(h, b);
    if char_pos(h, b) < char_pos(h, a) {
        lemma_utf8_prefix_increasing(h, char_pos(h, b), char_pos(h, a));
    }
}

/// The character position of a byte offset that falls between characters.
fn byte_to_char(h: &Vec<char>, b: usize) -> (k: usize)
    requires
        is_char_boundary(h@, b as int),
    ensures
        k as int == char_pos(h@, b as int),
        k <= h@.len(),
{
    proof {
        lemma_char_pos(h@, b as int);
    }
    let ghost p = char_pos(h@, b as int);
    let n = h.len();
    let mut k: usize = 0;
    let mut acc: usize = 0;
    while acc < b
        invariant
            0 <= k <= p <= h@.len(),
            h@.len() == n,
            acc == utf8_len(h@.take(k as int)),
            p == char_pos(h@, b as int),
            utf8_len(h@.take(p)) == b,
        decreases p - k,
    {
        proof {
            if k == p {
                assert(false);
            }
            lemma_utf8_prefix_increasing(h@, k as int, k + 1);
            assert(h@.take(k + 1).drop_last() =~= h@.take(k as int));
            if k + 1 < p {
                lemma_utf8_prefix_increasing(h@, k + 1, p);
            }
        }
        acc = acc + char_len_utf8(h[k]);
        k = k + 1;
    }
    proof {
        if k < p {
            lemma_utf8_prefix_increasing(h@, k as int, p);
        }
    }
    k
}

// ---------------------------------------------------------------------
// Regular-expression replacement
// ---------------------------------------------------------------------

/// What `regex::Regex::captures_iter` finds for `pattern` in `haystack`:
/// for each successive non-overlapping match, the byte span of every group
/// (group 0 the whole match), `None` for a group that took no part; `None`
/// overall when the pattern does not compile.
pub uninterp spec fn regex_capture_spans(pattern: Seq<char>, haystack: Seq<char>) -> Option<Seq<Seq<Option<(int, int)>>>>;

/// The facts the `regex` documentation gives about matches: group 0 is
/// always present, every span is ordered and falls on character boundaries
/// of the haystack, and successive whole matches do not overlap.
pub open spec fn spans_well_formed(h: Seq<char>, ms: Seq<Seq<Option<(int, int)>>>) -> bool {
    &&& forall|i: int| 0 <= i < ms.len() ==> (#[trigger] ms[i]).len() > 0 && ms[i][0] is Some
    &&& forall|i: int, j: int|
        0 <= i < ms.len() && 0 <= j < ms[i].len() ==> (#[trigger] ms[i][j] matches Some(sp) ==> sp.0 <= sp.1
            && is_char_boundary(h, sp.0) && is_char_boundary(h, sp.1))
    &&& forall|i: int| 0 <= i < ms.len() - 1 ==> (#[trigger] ms[i])[0].unwrap().1 <= ms[i + 1][0].unwrap().0
}

/// Spans as integers.
pub open spec fn spans_view(v: Seq<Vec<Option<(usize, usize)>>>) -> Seq<Seq<Option<(int, int)>>> {
    v.map_values(
        |m: Vec<Option<(usize, usize)>>|
            m@.map_values(
                |g: Option<(usize, usize)>|
                    match g {
                        Some(sp) => Some((sp.0 as int, sp.1 as int)),
                        None => None,
                    },
            ),
    )
}

/// Calls `regex::Regex::new` and then `Regex::captures_iter`, turning each
/// `Captures` into the byte spans of its groups (`Captures::iter`,
/// `Match::start`, `Match::end`). The result is named by
/// `regex_capture_spans`; of it the contract states only what the crate's
/// documentation promises of matches (`spans_well_formed`).
#[verifier::external_body]
fn capture_spans(pattern: &str, haystack: &str) -> (r: Option<Vec<Vec<Option<(usize, usize)>>>>)
    ensures
        match r {
            Some(v) => regex_capture_spans(pattern@, haystack@) == Some(spans_view(v@)) && spans_well_formed(
                haystack@,
                spans_view(v@),
            ),
            None => regex_capture_spans(pattern@, haystack@) is None,
        },
{
    let re = regex::Regex::new(pattern).ok()?;
    Some(
        re.captures_iter(haystack).map(
            |c| c.iter().map(|m| m.map(|m| (m.start(), m.end()))).collect(),
        ).collect(),
    )
}

/// The text of a group, if it took part in the match.
pub open spec fn group_text(h: Seq<char>, g: Option<(int, int)>) -> Option<Seq<char>> {
    match g {
        Some(sp) => Some(h.subrange(char_pos(h, sp.0), char_pos(h, sp.1))),
        None => None,
    }
}

/// The texts of the groups of one match.
pub open spec fn match_groups(h: Seq<char>, m: Seq<Option<(int, int)>>) -> Seq<Option<Seq<char>>> {
    m.map_values(|g: Option<(int, int)>| group_text(h, g))
}

/// The text from character position `from` on, with matches `k..` each
/// replaced by `rep` of its index and group texts.
pub open spec fn replace_from(
    h: Seq<char>,
    ms: Seq<Seq<Option<(int, int)>>>,
    rep: spec_fn(int, Seq<Option<Seq<char>>>) -> Seq<char>,
    k: int,
    from: int,
) -> Seq<char>
    decreases ms.len() - k,
{
    if k < 0 || k >= ms.len() {
        h.subrange(from, h.len() as int)
    } else {
        let whole = ms[k][0].unwrap();
        h.subrange(from, char_pos(h, whole.0)) + rep(k, match_groups(h, ms[k])) + replace_from(
            h,
            ms,
            rep,
            k + 1,
            char_pos(h, whole.1),
        )
    }
}

/// `Regex::replace_all` of `pattern` in `h`: every match replaced by `rep`
/// of its index and group texts; `h` unchanged when the pattern does not
/// compile.
pub open spec fn regex_replace(
    pattern: Seq<char>,
    h: Seq<char>,
    rep: spec_fn(int, Seq<Option<Seq<char>>>) -> Seq<char>,
) -> Seq<char> {
    match regex_capture_spans(pattern, h) {
        Some(ms) => replace_from(h, ms, rep, 0, 0),
        None => h,
    }
}

/// Group texts as values.
pub open spec fn groups_view(g: Seq<Option<Vec<char>>>) -> Seq<Option<Seq<char>>> {
    g.map_values(
        |o: Option<Vec<char>>|
            match o {
                Some(v) => Some(v@),
                None => None,
            },
    )
}

/// The group texts of one match.
fn groups_of(h: &Vec<char>, m: &Vec<Option<(usize, usize)>>, Ghost(mv): Ghost<Seq<Option<(int, int)>>>) -> (r: Vec<
    Option<Vec<char>>,
>)
    requires
        mv == m@.map_values(
            |g: Option<(usize, usize)>|
                match g {
                    Some(sp) => Some((sp.0 as int, sp.1 as int)),
                    None => None,
                },
        ),
        forall|j: int|
            0 <= j < mv.len() ==> (#[trigger] mv[j] matches Some(sp) ==> sp.0 <= sp.1 && is_char_boundary(
                h@,
                sp.0,
            ) && is_char_boundary(h@, sp.1)),
    ensures
        groups_view(r@) == match_groups(h@, mv),
{
    let mut r: Vec<Option<Vec<char>>> = Vec::new();
    let mut j: usize = 0;
    while j < m.len()
        invariant
            j <= m@.len(),
            mv.len() == m@.len(),
            mv == m@.map_values(
                |g: Option<(usize, usize)>|
                    match g {
                        Some(sp) => Some((sp.0 as int, sp.1 as int)),
                        None => None,
                    },
            ),
            forall|q: int|
                0 <= q < mv.len() ==> (#[trigger] mv[q] matches Some(sp) ==> sp.0 <= sp.1 && is_char_boundary(
                    h@,
                    sp.0,
                ) && is_char_boundary(h@, sp.1)),
            groups_view(r@) == match_groups(h@, mv.take(j as int)),
        decreases m.len() - j,
    {
        let ghost before = r@;
        match m[j] {
            Some((a, b)) => {
                assert(mv[j as int] == Some((a as int, b as int)));
                let ca = byte_to_char(h, a);
                let cb = byte_to_char(h, b);
                proof {
                    lemma_char_pos_monotone(h@, a as int, b as int);
                }
                let t = crate::text::slice_chars(h.as_slice(), ca, cb);
                r.push(Some(t));
            },
            None => {
                r.push(None);
            },
        }
        assert(groups_view(r@) =~= match_groups(h@, mv.take(j + 1))) by {
            assert(groups_view(r@) =~= groups_view(before).push(group_text(h@, mv[j as int])));
            assert(match_groups(h@, mv.take(j + 1)) =~= match_groups(h@, mv.take(j as int)).push(
                group_text(h@, mv[j as int]),
            ));
        }
        j = j + 1;
    }
    assert(mv.take(j as int) =~= mv);
    r
}

/// One match consumed: the text up to it, its replacement, then the rest.
proof fn lemma_replace_step(
    h: Seq<char>,
    ms: Seq<Seq<Option<(int, int)>>>,
    rep: spec_fn(int, Seq<Option<Seq<char>>>) -> Seq<char>,
    k: int,
    from: int,
)
    requires
        0 <= k < ms.len(),
    ensures
        replace_from(h, ms, rep, k, from) == h.subrange(from, char_pos(h, ms[k][0].unwrap().0)) + rep(
            k,
            match_groups(h, ms[k]),
        ) + replace_from(h, ms, rep, k + 1, char_pos(h, ms[k][0].unwrap().1)),
{
}

/// The facts about one match that its groups need.
proof fn lemma_match_facts(h: Seq<char>, ms: Seq<Seq<Option<(int, int)>>>, k: int)
    requires
        spans_well_formed(h, ms),
        0 <= k < ms.len(),
    ensures
        ms[k].len() > 0,
        ms[k][0] is Some,
        forall|j: int|
            0 <= j < ms[k].len() ==> (#[trigger] ms[k][j] matches Some(sp) ==> sp.0 <= sp.1 && is_char_boundary(
                h,
                sp.0,
            ) && is_char_boundary(h, sp.1)),
        k + 1 < ms.len() ==> ms[k][0].unwrap().1 <= ms[k + 1][0].unwrap().0,
{
    assert(ms[k].len() > 0);
    assert forall|j: int| 0 <= j < ms[k].len() implies (#[trigger] ms[k][j] matches Some(sp) ==> sp.0 <= sp.1
        && is_char_boundary(h, sp.0) && is_char_boundary(h, sp.1)) by {
    }
}

/// One match in character positions, with its group texts.
struct CharMatch {
    start: usize,
    end: usize,
    groups: Vec<Option<Vec<char>>>,
}

/// The matches of `spans` in character positions.
fn char_matches(
    hc: &Vec<char>,
    spans: &Vec<Vec<Option<(usize, usize)>>>,
    Ghost(ms): Ghost<Seq<Seq<Option<(int, int)>>>>,
) -> (r: Vec<CharMatch>)
    requires
        ms == spans_view(spans@),
        spans_well_formed(hc@, ms),
    ensures
        r@.len() == ms.len(),
        forall|k: int|
            0 <= k < r@.len() ==> (#[trigger] r@[k]).start == char_pos(hc@, ms[k][0].unwrap().0) && r@[k].end
                == char_pos(hc@, ms[k][0].unwrap().1) && r@[k].start <= r@[k].end <= hc@.len() && groups_view(
                r@[k].groups@,
            ) == match_groups(hc@, ms[k]),
        forall|k: int| 0 <= k < r@.len() - 1 ==> (#[trigger] r@[k]).end <= r@[k + 1].start,
{
    let mut r: Vec<CharMatch> = Vec::new();
    let mut k: usize = 0;
    while k < spans.len()
        invariant
            k <= spans@.len(),
            ms == spans_view(spans@),
            ms.len() == spans@.len(),
            spans_well_formed(hc@, ms),
            r@.len() == k,
            forall|q: int|
                0 <= q < r@.len() ==> (#[trigger] r@[q]).start == char_pos(hc@, ms[q][0].unwrap().0) && r@[q].end
                    == char_pos(hc@, ms[q][0].unwrap().1) && r@[q].start <= r@[q].end <= hc@.len() && groups_view(
                    r@[q].groups@,
                ) == match_groups(hc@, ms[q]),
            forall|q: int| 0 <= q < r@.len() - 1 ==> (#[trigger] r@[q]).end <= r@[q + 1].start,
        decreases spans.len() - k,
    {
        let m = &spans[k];
        let ghost mv = ms[k as int];
        proof {
            lemma_match_facts(hc@, ms, k as int);
        }
        assert(mv == m@.map_values(
            |g: Option<(usize, usize)>|
                match g {
                    Some(sp) => Some((sp.0 as int, sp.1 as int)),
                    None => None,
                },
        ));
        let (s, e) = match m[0] {
            Some(sp) => sp,
            None => {
                assert(mv[0] is None);
                (0, 0)
            },
        };
        assert(mv[0] == Some((s as int, e as int)));
        assert(is_char_boundary(hc@, s as int) && is_char_boundary(hc@, e as int));
        let cs = byte_to_char(hc, s);
        let ce = byte_to_char(hc, e);
        proof {
            lemma_char_pos_monotone(hc@, s as int, e as int);
            if k > 0 {
                lemma_match_facts(hc@, ms, k - 1);
                assert(ms[k - 1][0] matches Some(sp) ==> is_char_boundary(hc@, sp.1));
                lemma_char_pos_monotone(hc@, ms[k - 1][0].unwrap().1, s as int);
            }
        }
        let groups = groups_of(hc, m, Ghost(mv));
        r.push(CharMatch { start: cs, end: ce, groups });
        k = k + 1;
    }
    r
}

/// The replacement at each match's index, whatever its groups.
pub open spec fn fixed_rep(reps: Seq<Seq<char>>) -> spec_fn(int, Seq<Option<Seq<char>>>) -> Seq<char> {
    |k: int, g: Seq<Option<Seq<char>>>| reps[k]
}

/// Two replacements that agree on every match give the same text.
proof fn lemma_replace_from_same(
    h: Seq<char>,
    ms: Seq<Seq<Option<(int, int)>>>,
    r1: spec_fn(int, Seq<Option<Seq<char>>>) -> Seq<char>,
    r2: spec_fn(int, Seq<Option<Seq<char>>>) -> Seq<char>,
    k: int,
    from: int,
)
    requires
        0 <= k,
        forall|q: int| k <= q < ms.len() ==> r1(q, match_groups(h, ms[q])) == r2(q, match_groups(h, ms[q])),
    ensures
        replace_from(h, ms, r1, k, from) == replace_from(h, ms, r2, k, from),
    decreases ms.len() - k,
{
    if k < ms.len() {
        lemma_replace_from_same(h, ms, r1, r2, k + 1, char_pos(h, ms[k][0].unwrap().1));
    }
}

/// The text `h` with each match that `spans` describes replaced by the
/// replacement at the same index. The spans are byte spans, group 0 the
/// whole match, as `Regex::captures_iter` reports them for `h`.
pub fn replace_spans(h: &str, spans: &Vec<Vec<Option<(usize, usize)>>>, replacements: &[String]) -> (r: String)
    requires
        spans_well_formed(h@, spans_view(spans@)),
        replacements@.len() == spans@.len(),
    ensures
        r@ == replace_from(h@, spans_view(spans@), fixed_rep(crate::dsl::scan::string_views(replacements@)), 0, 0),
{
    let ghost rep = fixed_rep(crate::dsl::scan::string_views(replacements@));
    let hc = chars_of(h);
    let ghost ms = spans_view(spans@);
    let cm = char_matches(&hc, spans, Ghost(ms));
    let mut out: Vec<char> = Vec::new();
    let mut last: usize = 0;
    let mut k: usize = 0;
    assert(hc@.subrange(0, 0) =~= seq![]);
    while k < cm.len()
        invariant
            k <= cm@.len(),
            hc@ == h@,
            cm@.len() == ms.len(),
            replacements@.len() == ms.len(),
            rep == fixed_rep(crate::dsl::scan::string_views(replacements@)),
            forall|q: int|
                0 <= q < cm@.len() ==> (#[trigger] cm@[q]).start == char_pos(hc@, ms[q][0].unwrap().0) && cm@[q].end
                    == char_pos(hc@, ms[q][0].unwrap().1) && cm@[q].start <= cm@[q].end <= hc@.len(),
            forall|q: int| 0 <= q < cm@.len() - 1 ==> (#[trigger] cm@[q]).end <= cm@[q + 1].start,
            last <= hc@.len(),
            k > 0 ==> last == cm@[k - 1].end,
            k == 0 ==> last == 0,
            out@ + replace_from(h@, ms, rep, k as int, last as int) == replace_from(h@, ms, rep, 0, 0),
        decreases cm.len() - k,
    {
        let m = &cm[k];
        if k > 0 {
            assert(cm@[k - 1].end <= cm@[k as int].start);
        }
        let piece = chars_of(replacements[k].as_str());
        assert(piece@ == rep(k as int, match_groups(h@, ms[k as int])));
        let ghost before = out@;
        let mid = crate::text::slice_chars(hc.as_slice(), last, m.start);
        extend_chars(&mut out, mid.as_slice());
        extend_chars(&mut out, piece.as_slice());
        proof {
            lemma_replace_step(h@, ms, rep, k as int, last as int);
            assert(out@ + replace_from(h@, ms, rep, k + 1, m.end as int) =~= before + replace_from(
                h@,
                ms,
                rep,
                k as int,
                last as int,
            ));
        }
        last = m.end;
        k = k + 1;
    }
    let tail = crate::text::slice_chars(hc.as_slice(), last, hc.len());
    extend_chars(&mut out, tail.as_slice());
    string_of(out.as_slice())
}

/// Every match of `pattern` in `h` replaced by what `f` makes of its index
/// and group texts, `f` computing `rep`.
fn regex_replace_exec<F: Fn(usize, &Vec<Option<Vec<char>>>) -> Vec<char>>(
    pattern: &str,
    h: &str,
    f: F,
    Ghost(rep): Ghost<spec_fn(int, Seq<Option<Seq<char>>>) -> Seq<char>>,
) -> (r: Vec<char>)
    requires
        forall|k: usize, g: &Vec<Option<Vec<char>>>| k < usize::MAX ==> #[trigger] f.requires((k, g)),
        forall|k: usize, g: &Vec<Option<Vec<char>>>, out: Vec<char>|
            #[trigger] f.ensures((k, g), out) ==> out@ == rep(k as int, groups_view(g@)),
    ensures
        r@ == regex_replace(pattern@, h@, rep),
{
    let hc = chars_of(h);
    let spans = match capture_spans(pattern, h) {
        Some(s) => s,
        None => {
            return hc;
        },
    };
    let ghost ms = spans_view(spans@);
    let cm = char_matches(&hc, &spans, Ghost(ms));
    let mut reps: Vec<String> = Vec::new();
    let mut k: usize = 0;
    while k < cm.len()
        invariant
            k <= cm@.len(),
            hc@ == h@,
            cm@.len() == ms.len(),
            forall|q: int| 0 <= q < cm@.len() ==> groups_view((#[trigger] cm@[q]).groups@) == match_groups(hc@, ms[q]),
            forall|k: usize, g: &Vec<Option<Vec<char>>>| k < usize::MAX ==> #[trigger] f.requires((k, g)),
            forall|k: usize, g: &Vec<Option<Vec<char>>>, out: Vec<char>|
                #[trigger] f.ensures((k, g), out) ==> out@ == rep(k as int, groups_view(g@)),
            reps@.len() == k,
            forall|q: int| 0 <= q < k ==> (#[trigger] reps@[q])@ == rep(q, match_groups(hc@, ms[q])),
        decreases cm.len() - k,
    {
        let piece = f(k, &cm[k].groups);
        reps.push(string_of(piece.as_slice()));
        k = k + 1;
    }
    let r = replace_spans(h, &spans, reps.as_slice());
    proof {
        let fr = fixed_rep(crate::dsl::scan::string_views(reps@));
        assert forall|q: int| 0 <= q < ms.len() implies fr(q, match_groups(h@, ms[q])) == rep(
            q,
            match_groups(h@, ms[q]),
        ) by {
            assert(crate::dsl::scan::string_views(reps@)[q] == reps@[q]@);
        }
        lemma_replace_from_same(h@, ms, fr, rep, 0, 0);
    }
    assert(regex_capture_spans(pattern@, h@) == Some(ms));
    chars_of(r.as_str())
}

// ---------------------------------------------------------------------
// Entities
// ---------------------------------------------------------------------

/// The value of an ASCII digit in base 10 or 16 (either case), if it is one.
pub open spec fn digit_value(c: char, radix: nat) -> Option<nat> {
    if '0' <= c <= '9' {
        Some(((c as u32) - ('0' as u32)) as nat)
    } else if radix == 16 && 'a' <= c <= 'f' {
        Some(((c as u32) - ('a' as u32) + 10) as nat)
    } else if radix == 16 && 'A' <= c <= 'F' {
        Some(((c as u32) - ('A' as u32) + 10) as nat)
    } else {
        None
    }
}

/// All characters are digits of the base.
pub open spec fn all_radix_digits(d: Seq<char>, radix: nat) -> bool {
    forall|k: int| 0 <= k < d.len() ==> (#[trigger] digit_value(d[k], radix)) is Some
}

/// The value of a sequence of digits of the base.
pub open spec fn radix_value(d: Seq<char>, radix: nat) -> nat
    decreases d.len(),
{
    if d.len() == 0 {
        0
    } else {
        radix_value(d.drop_last(), radix) * radix + match digit_value(d.last(), radix) {
            Some(v) => v,
            None => 0,
        }
    }
}

/// What `u32::from_str_radix` (and, in base 10, `str::parse::<u32>`)
/// returns: an optional `+`, then one or more digits whose value fits.
pub open spec fn parse_u32_radix(s: Seq<char>, radix: nat) -> Option<u32> {
    let d = if s.len() > 0 && s[0] == '+' { s.drop_first() } else { s };
    if d.len() > 0 && all_radix_digits(d, radix) && radix_value(d, radix) <= u32::MAX {
        Some(radix_value(d, radix) as u32)
    } else {
        None
    }
}

proof fn lemma_radix_value_monotone(d: Seq<char>, radix: nat, i: int, j: int)
    requires
        0 <= i <= j <= d.len(),
        radix == 10 || radix == 16,
    ensures
        radix_value(d.take(i), radix) <= radix_value(d.take(j), radix),
    decreases j - i,
{
    if i < j {
        lemma_radix_value_monotone(d, radix, i, j - 1);
        assert(d.take(j).drop_last() =~= d.take(j - 1));
        let a = radix_value(d.take(j - 1), radix);
        assert(a <= a * radix) by (nonlinear_arith)
            requires
                radix >= 1,
        ;
    }
}

fn digit_value_exec(c: char, radix: u32) -> (r: Option<u32>)
    requires
        radix == 10 || radix == 16,
    ensures
        match r {
            Some(v) => digit_value(c, radix as nat) == Some(v as nat) && v < radix,
            None => digit_value(c, radix as nat) is None,
        },
{
    if '0' <= c && c <= '9' {
        Some((c as u32) - ('0' as u32))
    } else if radix == 16 && 'a' <= c && c <= 'f' {
        Some((c as u32) - ('a' as u32) + 10)
    } else if radix == 16 && 'A' <= c && c <= 'F' {
        Some((c as u32) - ('A' as u32) + 10)
    } else {
        None
    }
}

/// Parses an unsigned 32-bit number in base 10 or 16.
fn parse_u32_chars(s: &[char], radix: u32) -> (r: Option<u32>)
    requires
        radix == 10 || radix == 16,
    ensures
        r == parse_u32_radix(s@, radix as nat),
{
    let start: usize = if s.len() > 0 && s[0] == '+' { 1 } else { 0 };
    let ghost d = if s@.len() > 0 && s@[0] == '+' { s@.drop_first() } else { s@ };
    assert(d =~= s@.skip(start as int));
    if start >= s.len() {
        return None;
    }
    let mut acc: u64 = 0;
    let mut i: usize = start;
    while i < s.len()
        invariant
            start <= i <= s@.len(),
            radix == 10 || radix == 16,
            d =~= s@.skip(start as int),
            d == (if s@.len() > 0 && s@[0] == '+' { s@.drop_first() } else { s@ }),
            all_radix_digits(d.take(i - start), radix as nat),
            acc == radix_value(d.take(i - start), radix as nat),
            acc <= u32::MAX,
        decreases s.len() - i,
    {
        let c = s[i];
        assert(d[i - start] == c);
        let v = match digit_value_exec(c, radix) {
            Some(v) => v,
            None => {
                assert(!all_radix_digits(d, radix as nat)) by {
                    assert(digit_value(d[i - start], radix as nat) is None);
                }
                return None;
            },
        };
        assert(d.take(i + 1 - start).drop_last() =~= d.take(i - start));
        assert(d.take(i + 1 - start).last() == c);
        assert(acc * (radix as u64) <= u32::MAX * 16) by (nonlinear_arith)
            requires
                acc <= u32::MAX,
                radix <= 16,
        ;
        acc = acc * (radix as u64) + (v as u64);
        i = i + 1;
        assert(all_radix_digits(d.take(i - start), radix as nat)) by {
            assert forall|k: int| 0 <= k < d.take(i - start).len() implies (#[trigger] digit_value(
                d.take(i - start)[k],
                radix as nat,
            )) is Some by {
                if k < i - 1 - start {
                    assert(d.take(i - start)[k] == d.take(i - 1 - start)[k]);
                }
            }
        }
        if acc > 0xffff_ffff {
            proof {
                if all_radix_digits(d, radix as nat) {
                    lemma_radix_value_monotone(d, radix as nat, i - start, d.len() as int);
                    assert(d.take(d.len() as int) =~= d);
                }
            }
            return None;
        }
    }
    assert(d.take(i - start) =~= d);
    Some(acc as u32)
}

/// A Unicode scalar value: at most 0x10FFFF and not a surrogate.
pub open spec fn is_scalar(v: u32) -> bool {
    v < 0xD800 || (0xE000 <= v && v <= 0x10FFFF)
}

/// Calls `char::from_u32`, which gives the character with code `v` when
/// `v` is a Unicode scalar value and `None` otherwise.
#[verifier::external_body]
fn char_from_u32(v: u32) -> (r: Option<char>)
    ensures
        r == (if is_scalar(v) {
            Some(v as char)
        } else {
            None
        }),
{
    char::from_u32(v)
}

/// A character reference: a named one, `&amp;`, `&lt;`, `&gt;`, `&quot;`,
/// `&apos;` or `&nbsp;` (group 1); a decimal one, `&#NNN;` with `\d` digits
/// (group 2); or a hexadecimal one, `&#xHHH;` with `x` in either case
/// (group 3).
pub open spec fn entity_pattern() -> Seq<char> {
    r"&(?:(amp|lt|gt|quot|apos|nbsp)|#(\d+)|#[xX]([0-9a-fA-F]+));"@
}

/// The text of group `i`, empty when it did not take part.
pub open spec fn group_or_empty(g: Seq<Option<Seq<char>>>, i: int) -> Seq<char> {
    if 0 <= i < g.len() {
        match g[i] {
            Some(t) => t,
            None => seq![],
        }
    } else {
        seq![]
    }
}

/// What a named entity stands for.
pub open spec fn named_entity(name: Seq<char>) -> Option<Seq<char>> {
    if name == "amp"@ {
        Some("&"@)
    } else if name == "lt"@ {
        Some("<"@)
    } else if name == "gt"@ {
        Some(">"@)
    } else if name == "quot"@ {
        Some("\""@)
    } else if name == "apos"@ {
        Some("'"@)
    } else if name == "nbsp"@ {
        Some(" "@)
    } else {
        None
    }
}

/// A numeric entity: the character whose code its digits give in the base,
/// or the entity's own text `whole` when they give none.
pub open spec fn numeric_entity_text(digits: Seq<char>, radix: nat, whole: Seq<char>) -> Seq<char> {
    match parse_u32_radix(digits, radix) {
        Some(v) => if is_scalar(v) {
            seq![v as char]
        } else {
            whole
        },
        None => whole,
    }
}

/// The replacement of one character reference.
pub open spec fn entity_rep() -> spec_fn(int, Seq<Option<Seq<char>>>) -> Seq<char> {
    |k: int, g: Seq<Option<Seq<char>>>|
        if g.len() > 1 && g[1] is Some {
            match named_entity(g[1]->0) {
                Some(t) => t,
                None => group_or_empty(g, 0),
            }
        } else if g.len() > 2 && g[2] is Some {
            numeric_entity_text(g[2]->0, 10, group_or_empty(g, 0))
        } else {
            numeric_entity_text(group_or_empty(g, 3), 16, group_or_empty(g, 0))
        }
}

/// Every character reference decoded once, in one pass from left to right:
/// the `&` that `&amp;` gives never starts another reference.
pub open spec fn decode_entities_spec(s: Seq<char>) -> Seq<char> {
    regex_replace(entity_pattern(), s, entity_rep())
}

/// The text of group `i` of a match, empty when it did not take part.
fn group_text_exec(g: &Vec<Option<Vec<char>>>, i: usize) -> (r: Vec<char>)
    ensures
        r@ == group_or_empty(groups_view(g@), i as int),
{
    if i < g.len() {
        match &g[i] {
            Some(t) => t.clone(),
            None => Vec::new(),
        }
    } else {
        Vec::new()
    }
}

fn same_chars(a: &[char], b: &[char]) -> (r: bool)
    ensures
        r == (a@ == b@),
{
    if a.len() != b.len() {
        return false;
    }
    let mut i: usize = 0;
    while i < a.len()
        invariant
            i <= a@.len(),
            a@.len() == b@.len(),
            forall|k: int| 0 <= k < i ==> a@[k] == b@[k],
        decreases a.len() - i,
    {
        if a[i] != b[i] {
            return false;
        }
        i = i + 1;
    }
    assert(a@ =~= b@);
    true
}

fn named_entity_exec(name: &Vec<char>) -> (r: Option<Vec<char>>)
    ensures
        match r {
            Some(t) => named_entity(name@) == Some(t@),
            None => named_entity(name@) is None,
        },
{
    if same_chars(name.as_slice(), chars_of("amp").as_slice()) {
        Some(chars_of("&"))
    } else if same_chars(name.as_slice(), chars_of("lt").as_slice()) {
        Some(chars_of("<"))
    } else if same_chars(name.as_slice(), chars_of("gt").as_slice()) {
        Some(chars_of(">"))
    } else if same_chars(name.as_slice(), chars_of("quot").as_slice()) {
        Some(chars_of("\""))
    } else if same_chars(name.as_slice(), chars_of("apos").as_slice()) {
        Some(chars_of("'"))
    } else if same_chars(name.as_slice(), chars_of("nbsp").as_slice()) {
        Some(chars_of(" "))
    } else {
        None
    }
}

fn numeric_entity_exec(digits: &Vec<char>, radix: u32, whole: Vec<char>) -> (r: Vec<char>)
    requires
        radix == 10 || radix == 16,
    ensures
        r@ == numeric_entity_text(digits@, radix as nat, whole@),
{
    match parse_u32_chars(digits.as_slice(), radix) {
        Some(v) => match char_from_u32(v) {
            Some(c) => {
                let r = vec![c];
                assert(r@ =~= seq![v as char]);
                r
            },
            None => whole,
        },
        None => whole,
    }
}

/// The replacement of one character reference, as `entity_rep` says.
fn entity_replacement(g: &Vec<Option<Vec<char>>>) -> (r: Vec<char>)
    ensures
        r@ == (entity_rep())(0, groups_view(g@)),
{
    let ghost gv = groups_view(g@);
    if g.len() > 1 {
        if let Some(n) = &g[1] {
            assert(gv[1] == Some(n@));
            return match named_entity_exec(n) {
                Some(t) => t,
                None => group_text_exec(g, 0),
            };
        }
        assert(gv[1] is None);
    }
    if g.len() > 2 {
        if let Some(d) = &g[2] {
            assert(gv[2] == Some(d@));
            return numeric_entity_exec(d, 10, group_text_exec(g, 0));
        }
        assert(gv[2] is None);
    }
    let digits = group_text_exec(g, 3);
    numeric_entity_exec(&digits, 16, group_text_exec(g, 0))
}

/// Decodes the common named entities and numeric (decimal and
/// hexadecimal) character references, each once, in one pass.
pub fn decode_html_entities(s: &str) -> (r: String)
    ensures
        r@ == decode_entities_spec(s@),
{
    let f = |k: usize, g: &Vec<Option<Vec<char>>>| -> (r: Vec<char>)
        ensures
            r@ == (entity_rep())(k as int, groups_view(g@)),
        { entity_replacement(g) };
    let d = regex_replace_exec(
        r"&(?:(amp|lt|gt|quot|apos|nbsp)|#(\d+)|#[xX]([0-9a-fA-F]+));",
        s,
        f,
        Ghost(entity_rep()),
    );
    string_of(d.as_slice())
}

// ---------------------------------------------------------------------
// HTML to Markdown
// ---------------------------------------------------------------------

/// A replacement that ignores the match.
pub open spec fn const_rep(t: Seq<char>) -> spec_fn(int, Seq<Option<Seq<char>>>) -> Seq<char> {
    |k: int, g: Seq<Option<Seq<char>>>| t
}

/// A heading: its trimmed text after the hashes, as a paragraph of its own.
pub open spec fn heading_rep(hashes: Seq<char>) -> spec_fn(int, Seq<Option<Seq<char>>>) -> Seq<char> {
    |k: int, g: Seq<Option<Seq<char>>>| "\n\n"@ + hashes + " "@ + trim(group_or_empty(g, 1)) + "\n\n"@
}

/// A blockquote: its text without tags, each line trimmed after `> `.
pub open spec fn blockquote_rep() -> spec_fn(int, Seq<Option<Seq<char>>>) -> Seq<char> {
    |k: int, g: Seq<Option<Seq<char>>>|
        join(
            lines_of(collapse_ws(untagged(group_or_empty(g, 1)))).map_values(|l: Seq<char>| "> "@ + trim(l)),
            seq!['\n'],
        )
}

/// `<li>...</li>`
pub open spec fn li_pattern() -> Seq<char> {
    r"(?is)<li\b[^>]*>(.*?)</li>"@
}

/// The `k`-th item of an ordered list, numbered from 1.
pub open spec fn numbered_item_rep() -> spec_fn(int, Seq<Option<Seq<char>>>) -> Seq<char> {
    |k: int, g: Seq<Option<Seq<char>>>| seq!['\n'] + int_text(k + 1) + ". "@ + trim(group_or_empty(g, 1))
}

/// An item of an unordered list.
pub open spec fn bullet_item_rep() -> spec_fn(int, Seq<Option<Seq<char>>>) -> Seq<char> {
    |k: int, g: Seq<Option<Seq<char>>>| "\n- "@ + trim(group_or_empty(g, 1))
}

/// A list: its items converted, trimmed, between newlines.
pub open spec fn list_rep(
    item: spec_fn(int, Seq<Option<Seq<char>>>) -> Seq<char>,
) -> spec_fn(int, Seq<Option<Seq<char>>>) -> Seq<char> {
    |k: int, g: Seq<Option<Seq<char>>>| seq!['\n'] + trim(regex_replace(li_pattern(), group_or_empty(g, 1), item)) + seq!['\n']
}

/// A block: its trimmed text between blank lines.
pub open spec fn block_rep() -> spec_fn(int, Seq<Option<Seq<char>>>) -> Seq<char> {
    |k: int, g: Seq<Option<Seq<char>>>| "\n\n"@ + trim(group_or_empty(g, 1)) + "\n\n"@
}

/// A link: `[text](url)`.
pub open spec fn link_rep() -> spec_fn(int, Seq<Option<Seq<char>>>) -> Seq<char> {
    |k: int, g: Seq<Option<Seq<char>>>| "["@ + trim(group_or_empty(g, 2)) + "]("@ + group_or_empty(g, 1) + ")"@
}

/// The inner text between two marks (`$1` in a replacement string).
pub open spec fn wrap_rep(mark: Seq<char>) -> spec_fn(int, Seq<Option<Seq<char>>>) -> Seq<char> {
    |k: int, g: Seq<Option<Seq<char>>>| mark + group_or_empty(g, 1) + mark
}

/// The headings `<h1>` to `<h6>` converted in turn.
pub open spec fn headings_spec(s: Seq<char>) -> Seq<char> {
    let a = regex_replace(r"(?is)<h1[^>]*>(.*?)</h1>"@, s, heading_rep("#"@));
    let b = regex_replace(r"(?is)<h2[^>]*>(.*?)</h2>"@, a, heading_rep("##"@));
    let c = regex_replace(r"(?is)<h3[^>]*>(.*?)</h3>"@, b, heading_rep("###"@));
    let d = regex_replace(r"(?is)<h4[^>]*>(.*?)</h4>"@, c, heading_rep("####"@));
    let e = regex_replace(r"(?is)<h5[^>]*>(.*?)</h5>"@, d, heading_rep("#####"@));
    regex_replace(r"(?is)<h6[^>]*>(.*?)</h6>"@, e, heading_rep("######"@))
}

/// The digit of a heading level from 1 to 6.
pub open spec fn level_digit(n: int) -> char {
    if n == 1 {
        '1'
    } else if n == 2 {
        '2'
    } else if n == 3 {
        '3'
    } else if n == 4 {
        '4'
    } else if n == 5 {
        '5'
    } else {
        '6'
    }
}

/// The pattern of an `<hn>...</hn>` element, inner text in group 1.
pub open spec fn heading_pattern(n: int) -> Seq<char> {
    r"(?is)<h"@ + seq![level_digit(n)] + r"[^>]*>(.*?)</h"@ + seq![level_digit(n)] + ">"@
}

/// `n` hash signs.
pub open spec fn heading_hashes(n: int) -> Seq<char> {
    Seq::new(n as nat, |i: int| '#')
}

/// Levels 1 to `n` converted in turn, each `<hk>` element becoming a
/// paragraph of `k` hash signs, a space and its trimmed text.
pub open spec fn headings_upto(s: Seq<char>, n: int) -> Seq<char>
    decreases n,
{
    if n <= 0 {
        s
    } else {
        regex_replace(heading_pattern(n), headings_upto(s, n - 1), heading_rep(heading_hashes(n)))
    }
}

/// Heading conversion goes level by level from 1 to 6, and an `<hk>`
/// element, for every level k, is replaced by exactly k hash signs, a
/// space and its trimmed inner text, as its own paragraph.
pub proof fn lemma_heading_level_is_hash_count(s: Seq<char>)
    ensures
        headings_spec(s) == headings_upto(s, 6),
        forall|k: int, i: int, g: Seq<Option<Seq<char>>>| 1 <= k <= 6 ==> #[trigger] (heading_rep(heading_hashes(k)))(i, g)
            == "\n\n"@ + Seq::new(k as nat, |j: int| '#') + " "@ + trim(group_or_empty(g, 1)) + "\n\n"@,
{
    reveal_strlit(r"(?is)<h");
    reveal_strlit(r"[^>]*>(.*?)</h");
    reveal_strlit(">");
    reveal_strlit(r"(?is)<h1[^>]*>(.*?)</h1>");
    reveal_strlit("#");
    assert(r"(?is)<h1[^>]*>(.*?)</h1>"@ =~= heading_pattern(1));
    assert("#"@ =~= heading_hashes(1));
    reveal_strlit(r"(?is)<h2[^>]*>(.*?)</h2>");
    reveal_strlit("##");
    assert(r"(?is)<h2[^>]*>(.*?)</h2>"@ =~= heading_pattern(2));
    assert("##"@ =~= heading_hashes(2));
    reveal_strlit(r"(?is)<h3[^>]*>(.*?)</h3>");
    reveal_strlit("###");
    assert(r"(?is)<h3[^>]*>(.*?)</h3>"@ =~= heading_pattern(3));
    assert("###"@ =~= heading_hashes(3));
    reveal_strlit(r"(?is)<h4[^>]*>(.*?)</h4>");
    reveal_strlit("####");
    assert(r"(?is)<h4[^>]*>(.*?)</h4>"@ =~= heading_pattern(4));
    assert("####"@ =~= heading_hashes(4));
    reveal_strlit(r"(?is)<h5[^>]*>(.*?)</h5>");
    reveal_strlit("#####");
    assert(r"(?is)<h5[^>]*>(.*?)</h5>"@ =~= heading_pattern(5));
    assert("#####"@ =~= heading_hashes(5));
    reveal_strlit(r"(?is)<h6[^>]*>(.*?)</h6>");
    reveal_strlit("######");
    assert(r"(?is)<h6[^>]*>(.*?)</h6>"@ =~= heading_pattern(6));
    assert("######"@ =~= heading_hashes(6));
    reveal_with_fuel(headings_upto, 7);
}

/// Line breaks, headings, blockquotes, lists, paragraphs and divs.
pub open spec fn blocks_spec(s: Seq<char>) -> Seq<char> {
    let a = regex_replace(r"(?i)<br\s*/?>"@, s, const_rep("\n"@));
    let b = headings_spec(a);
    let c = regex_replace(r"(?is)<blockquote[^>]*>(.*?)</blockquote>"@, b, blockquote_rep());
    let d = regex_replace(r"(?is)<ol[^>]*>(.*?)</ol>"@, c, list_rep(numbered_item_rep()));
    let e = regex_replace(r"(?is)<ul[^>]*>(.*?)</ul>"@, d, list_rep(bullet_item_rep()));
    let f = regex_replace(r"(?is)<p\b[^>]*>(.*?)</p>"@, e, block_rep());
    regex_replace(r"(?is)<div[^>]*>(.*?)</div>"@, f, block_rep())
}

/// Links, bold, italic and code, then every remaining tag removed.
pub open spec fn inline_spec(s: Seq<char>) -> Seq<char> {
    let a = regex_replace(r#"(?is)<a\s[^>]*href\s*=\s*"([^"]*)"[^>]*>(.*?)</a>"#@, s, link_rep());
    let b = regex_replace(r"(?is)<(?:strong|b)\b[^>]*>(.*?)</(?:strong|b)>"@, a, wrap_rep("**"@));
    let c = regex_replace(r"(?is)<(?:em|i)\b[^>]*>(.*?)</(?:em|i)>"@, b, wrap_rep("*"@));
    let d = regex_replace(r"(?is)<code>(.*?)</code>"@, c, wrap_rep("`"@));
    regex_replace(r"<[^>]+>"@, d, const_rep(seq![]))
}

/// What `html_to_markdown` returns: empty for empty input; otherwise the
/// block and inline conversions, entities decoded, runs of three or more
/// newlines cut to two, trailing whitespace removed from each line, and the
/// whole trimmed.
pub open spec fn markdown_spec(html: Seq<char>) -> Seq<char> {
    if html.len() == 0 {
        seq![]
    } else {
        let a = decode_entities_spec(inline_spec(blocks_spec(html)));
        let b = regex_replace(r"\n{3,}"@, a, const_rep("\n\n"@));
        trim(join(lines_of(b).map_values(|l: Seq<char>| trim_end(l)), seq!['\n']))
    }
}

/// `regex_replace_exec` on a character vector.
fn replace_in<F: Fn(usize, &Vec<Option<Vec<char>>>) -> Vec<char>>(
    pattern: &str,
    s: &Vec<char>,
    f: F,
    Ghost(rep): Ghost<spec_fn(int, Seq<Option<Seq<char>>>) -> Seq<char>>,
) -> (r: Vec<char>)
    requires
        forall|k: usize, g: &Vec<Option<Vec<char>>>| k < usize::MAX ==> #[trigger] f.requires((k, g)),
        forall|k: usize, g: &Vec<Option<Vec<char>>>, out: Vec<char>|
            #[trigger] f.ensures((k, g), out) ==> out@ == rep(k as int, groups_view(g@)),
    ensures
        r@ == regex_replace(pattern@, s@, rep),
{
    let st = string_of(s.as_slice());
    regex_replace_exec(pattern, st.as_str(), f, Ghost(rep))
}

/// Replaces every match with a fixed text.
fn replace_const(pattern: &str, s: &Vec<char>, t: &str) -> (r: Vec<char>)
    ensures
        r@ == regex_replace(pattern@, s@, const_rep(t@)),
{
    let f = |k: usize, g: &Vec<Option<Vec<char>>>| -> (r: Vec<char>)
        ensures
            r@ == (const_rep(t@))(k as int, groups_view(g@)),
        { chars_of(t) };
    replace_in(pattern, s, f, Ghost(const_rep(t@)))
}

/// Converts one heading level.
fn replace_heading(pattern: &str, s: &Vec<char>, hashes: &str) -> (r: Vec<char>)
    ensures
        r@ == regex_replace(pattern@, s@, heading_rep(hashes@)),
{
    let f = |k: usize, g: &Vec<Option<Vec<char>>>| -> (r: Vec<char>)
        ensures
            r@ == (heading_rep(hashes@))(k as int, groups_view(g@)),
        {
            let mut out = chars_of("\n\n");
            extend_str(&mut out, hashes);
            extend_str(&mut out, " ");
            let inner = group_text_exec(g, 1);
            let t = trim_chars(inner.as_slice());
            extend_chars(&mut out, t.as_slice());
            extend_str(&mut out, "\n\n");
            out
        };
    replace_in(pattern, s, f, Ghost(heading_rep(hashes@)))
}

/// Wraps the first group between two marks.
fn replace_wrap(pattern: &str, s: &Vec<char>, mark: &str) -> (r: Vec<char>)
    ensures
        r@ == regex_replace(pattern@, s@, wrap_rep(mark@)),
{
    let f = |k: usize, g: &Vec<Option<Vec<char>>>| -> (r: Vec<char>)
        ensures
            r@ == (wrap_rep(mark@))(k as int, groups_view(g@)),
        {
            let mut out = chars_of(mark);
            let inner = group_text_exec(g, 1);
            extend_chars(&mut out, inner.as_slice());
            extend_str(&mut out, mark);
            out
        };
    replace_in(pattern, s, f, Ghost(wrap_rep(mark@)))
}

/// Converts blocks: the trimmed first group between blank lines.
fn replace_block(pattern: &str, s: &Vec<char>) -> (r: Vec<char>)
    ensures
        r@ == regex_replace(pattern@, s@, block_rep()),
{
    let f = |k: usize, g: &Vec<Option<Vec<char>>>| -> (r: Vec<char>)
        ensures
            r@ == (block_rep())(k as int, groups_view(g@)),
        {
            let mut out = chars_of("\n\n");
            let inner = group_text_exec(g, 1);
            let t = trim_chars(inner.as_slice());
            extend_chars(&mut out, t.as_slice());
            extend_str(&mut out, "\n\n");
            out
        };
    replace_in(pattern, s, f, Ghost(block_rep()))
}

/// The items of one list, converted by `item`.
fn list_items<F: Fn(usize, &Vec<Option<Vec<char>>>) -> Vec<char>>(
    g: &Vec<Option<Vec<char>>>,
    item: F,
    Ghost(rep): Ghost<spec_fn(int, Seq<Option<Seq<char>>>) -> Seq<char>>,
) -> (r: Vec<char>)
    requires
        forall|k: usize, g: &Vec<Option<Vec<char>>>| k < usize::MAX ==> #[trigger] item.requires((k, g)),
        forall|k: usize, g: &Vec<Option<Vec<char>>>, out: Vec<char>|
            #[trigger] item.ensures((k, g), out) ==> out@ == rep(k as int, groups_view(g@)),
    ensures
        r@ == seq!['\n'] + trim(regex_replace(li_pattern(), group_or_empty(groups_view(g@), 1), rep)) + seq!['\n'],
{
    let inner = group_text_exec(g, 1);
    let items = replace_in(r"(?is)<li\b[^>]*>(.*?)</li>", &inner, item, Ghost(rep));
    let t = trim_chars(items.as_slice());
    let mut out: Vec<char> = vec!['\n'];
    extend_chars(&mut out, t.as_slice());
    out.push('\n');
    assert(out@ =~= seq!['\n'] + t@ + seq!['\n']);
    out
}

/// Converts ordered lists.
fn replace_ordered_lists(s: &Vec<char>) -> (r: Vec<char>)
    ensures
        r@ == regex_replace(r"(?is)<ol[^>]*>(.*?)</ol>"@, s@, list_rep(numbered_item_rep())),
{
    let f = |k: usize, g: &Vec<Option<Vec<char>>>| -> (r: Vec<char>)
        ensures
            r@ == (list_rep(numbered_item_rep()))(k as int, groups_view(g@)),
        {
            let item = |j: usize, h: &Vec<Option<Vec<char>>>| -> (r: Vec<char>)
                requires
                    j < usize::MAX,
                ensures
                    r@ == (numbered_item_rep())(j as int, groups_view(h@)),
                {
                    let mut out: Vec<char> = vec!['\n'];
                    push_usize(&mut out, j + 1);
                    extend_str(&mut out, ". ");
                    let inner = group_text_exec(h, 1);
                    let t = trim_chars(inner.as_slice());
                    extend_chars(&mut out, t.as_slice());
                    assert(out@ =~= seq!['\n'] + int_text(j + 1) + ". "@ + t@);
                    out
                };
            list_items(g, item, Ghost(numbered_item_rep()))
        };
    replace_in(r"(?is)<ol[^>]*>(.*?)</ol>", s, f, Ghost(list_rep(numbered_item_rep())))
}

/// Converts unordered lists.
fn replace_unordered_lists(s: &Vec<char>) -> (r: Vec<char>)
    ensures
        r@ == regex_replace(r"(?is)<ul[^>]*>(.*?)</ul>"@, s@, list_rep(bullet_item_rep())),
{
    let f = |k: usize, g: &Vec<Option<Vec<char>>>| -> (r: Vec<char>)
        ensures
            r@ == (list_rep(bullet_item_rep()))(k as int, groups_view(g@)),
        {
            let item = |j: usize, h: &Vec<Option<Vec<char>>>| -> (r: Vec<char>)
                ensures
                    r@ == (bullet_item_rep())(j as int, groups_view(h@)),
                {
                    let mut out = chars_of("\n- ");
                    let inner = group_text_exec(h, 1);
                    let t = trim_chars(inner.as_slice());
                    extend_chars(&mut out, t.as_slice());
                    out
                };
            list_items(g, item, Ghost(bullet_item_rep()))
        };
    replace_in(r"(?is)<ul[^>]*>(.*?)</ul>", s, f, Ghost(list_rep(bullet_item_rep())))
}

/// Converts blockquotes.
fn replace_blockquotes(s: &Vec<char>) -> (r: Vec<char>)
    ensures
        r@ == regex_replace(r"(?is)<blockquote[^>]*>(.*?)</blockquote>"@, s@, blockquote_rep()),
{
    let f = |k: usize, g: &Vec<Option<Vec<char>>>| -> (r: Vec<char>)
        ensures
            r@ == (blockquote_rep())(k as int, groups_view(g@)),
        {
            let inner = group_text_exec(g, 1);
            let stripped = strip_html_tags(string_of(inner.as_slice()).as_str());
            let sc = chars_of(stripped.as_str());
            let ls = split_lines(sc.as_slice());
            let ghost lv = lines_of(sc@);
            let mut quoted: Vec<Vec<char>> = Vec::new();
            let mut i: usize = 0;
            while i < ls.len()
                invariant
                    i <= ls@.len(),
                    ls@.len() == lv.len(),
                    forall|m: int| 0 <= m < ls@.len() ==> (#[trigger] ls@[m])@ == lv[m],
                    quoted@.len() == i,
                    forall|m: int| 0 <= m < i ==> (#[trigger] quoted@[m])@ == "> "@ + trim(lv[m]),
                decreases ls.len() - i,
            {
                let mut q = chars_of("> ");
                let t = trim_chars(ls[i].as_slice());
                extend_chars(&mut q, t.as_slice());
                quoted.push(q);
                i = i + 1;
            }
            assert(quoted@.map_values(|p: Vec<char>| p@) =~= lv.map_values(|l: Seq<char>| "> "@ + trim(l)));
            let sep: Vec<char> = vec!['\n'];
            assert(sep@ =~= seq!['\n']);
            join_chars(&quoted, sep.as_slice())
        };
    replace_in(r"(?is)<blockquote[^>]*>(.*?)</blockquote>", s, f, Ghost(blockquote_rep()))
}

/// Converts links.
fn replace_links(s: &Vec<char>) -> (r: Vec<char>)
    ensures
        r@ == regex_replace(r#"(?is)<a\s[^>]*href\s*=\s*"([^"]*)"[^>]*>(.*?)</a>"#@, s@, link_rep()),
{
    let f = |k: usize, g: &Vec<Option<Vec<char>>>| -> (r: Vec<char>)
        ensures
            r@ == (link_rep())(k as int, groups_view(g@)),
        {
            let mut out = chars_of("[");
            let text = group_text_exec(g, 2);
            let t = trim_chars(text.as_slice());
            extend_chars(&mut out, t.as_slice());
            extend_str(&mut out, "](");
            let url = group_text_exec(g, 1);
            extend_chars(&mut out, url.as_slice());
            extend_str(&mut out, ")");
            out
        };
    replace_in(r#"(?is)<a\s[^>]*href\s*=\s*"([^"]*)"[^>]*>(.*?)</a>"#, s, f, Ghost(link_rep()))
}

/// Converts simple HTML, as Zotero notes hold it, to Markdown: line breaks,
/// headings, blockquotes, ordered and unordered lists, paragraphs, divs,
/// links, bold, italic and code; other tags are removed and entities decoded
/// after that, so that a decoded `<` is never taken for a tag.
pub fn html_to_markdown(html: &str) -> (r: String)
    ensures
        r@ == markdown_spec(html@),
{
    let v = chars_of(html);
    if v.len() == 0 {
        return String::new();
    }
    let s = replace_const(r"(?i)<br\s*/?>", &v, "\n");
    let s = replace_heading(r"(?is)<h1[^>]*>(.*?)</h1>", &s, "#");
    let s = replace_heading(r"(?is)<h2[^>]*>(.*?)</h2>", &s, "##");
    let s = replace_heading(r"(?is)<h3[^>]*>(.*?)</h3>", &s, "###");
    let s = replace_heading(r"(?is)<h4[^>]*>(.*?)</h4>", &s, "####");
    let s = replace_heading(r"(?is)<h5[^>]*>(.*?)</h5>", &s, "#####");
    let s = replace_heading(r"(?is)<h6[^>]*>(.*?)</h6>", &s, "######");
    let s = replace_blockquotes(&s);
    let s = replace_ordered_lists(&s);
    let s = replace_unordered_lists(&s);
    let s = replace_block(r"(?is)<p\b[^>]*>(.*?)</p>", &s);
    let s = replace_block(r"(?is)<div[^>]*>(.*?)</div>", &s);
    assert(s@ == blocks_spec(html@));
    let s = replace_links(&s);
    let s = replace_wrap(r"(?is)<(?:strong|b)\b[^>]*>(.*?)</(?:strong|b)>", &s, "**");
    let s = replace_wrap(r"(?is)<(?:em|i)\b[^>]*>(.*?)</(?:em|i)>", &s, "*");
    let s = replace_wrap(r"(?is)<code>(.*?)</code>", &s, "`");
    let s = replace_const(r"<[^>]+>", &s, "");
    proof {
        reveal_strlit("");
        assert(""@ =~= Seq::<char>::empty());
    }
    let decoded = decode_html_entities(string_of(s.as_slice()).as_str());
    let dv = chars_of(decoded.as_str());
    let s = replace_const(r"\n{3,}", &dv, "\n\n");
    let ls = split_lines(s.as_slice());
    let ghost lv = lines_of(s@);
    let mut trimmed: Vec<Vec<char>> = Vec::new();
    let mut i: usize = 0;
    while i < ls.len()
        invariant
            i <= ls@.len(),
            ls@.len() == lv.len(),
            forall|m: int| 0 <= m < ls@.len() ==> (#[trigger] ls@[m])@ == lv[m],
            trimmed@.len() == i,
            forall|m: int| 0 <= m < i ==> (#[trigger] trimmed@[m])@ == trim_end(lv[m]),
        decreases ls.len() - i,
    {
        trimmed.push(trim_end_chars(ls[i].as_slice()));
        i = i + 1;
    }
    assert(trimmed@.map_values(|p: Vec<char>| p@) =~= lv.map_values(|l: Seq<char>| trim_end(l)));
    let sep: Vec<char> = vec!['\n'];
    assert(sep@ =~= seq!['\n']);
    let joined = join_chars(&trimmed, sep.as_slice());
    let out = trim_chars(joined.as_slice());
    string_of(out.as_slice())
}

} // verus!
