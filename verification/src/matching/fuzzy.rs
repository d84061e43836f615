//! Paragraph building and fuzzy (edit distance / common substring) matching.
use vstd::prelude::*;
use crate::text::{chars_of, join, join_chars, string_of};
use crate::matching::normalize::{normalize_chars, normalized};
use crate::matching::exact::str_views;
use crate::matching::score::{Ratio, ratio_ge, ratio_gt};

verus! {

// ---------------------------------------------------------------------
// Paragraphs
// ---------------------------------------------------------------------

/// Scan state after the first `n` normalized lines: finished paragraphs
/// (text, last line index), the parts of the paragraph being read, and the
/// index of its last line.
pub open spec fn para_scan(ns: Seq<Seq<char>>, n: int) -> (Seq<(Seq<char>, int)>, Seq<Seq<char>>, int)
    decreases n,
{
    if n <= 0 {
        (seq![], seq![], 0)
    } else {
        let st = para_scan(ns, n - 1);
        if ns[n - 1].len() == 0 {
            if st.1.len() > 0 {
                (st.0.push((join(st.1, seq![' ']), st.2)), seq![], st.2)
            } else {
                st
            }
        } else {
            (st.0, st.1.push(ns[n - 1]), n - 1)
        }
    }
}

/// Paragraphs of normalized lines: maximal runs of non-empty lines, each
/// given as its lines joined by spaces and the index of its last line.
pub open spec fn paragraphs_of(ns: Seq<Seq<char>>) -> Seq<(Seq<char>, int)> {
    let st = para_scan(ns, ns.len() as int);
    if st.1.len() > 0 {
        st.0.push((join(st.1, seq![' ']), st.2))
    } else {
        st.0
    }
}

/// What `build_paragraphs` returns for lines with the given views.
pub open spec fn paragraphs_spec(lines: Seq<Seq<char>>) -> Seq<(Seq<char>, int)> {
    paragraphs_of(lines.map_values(|l: Seq<char>| normalized(l)))
}

/// Views of a paragraph list.
pub open spec fn para_views(ps: Seq<(String, usize)>) -> Seq<(Seq<char>, int)> {
    ps.map_values(|p: (String, usize)| (p.0@, p.1 as int))
}

pub proof fn lemma_para_scan_bounds(ns: Seq<Seq<char>>, n: int)
    requires
        0 <= n <= ns.len(),
    ensures
        forall|k: int| 0 <= k < para_scan(ns, n).0.len() ==> 0 <= (#[trigger] para_scan(ns, n).0[k]).1 < n,
        para_scan(ns, n).1.len() > 0 ==> 0 <= para_scan(ns, n).2 < n,
    decreases n,
{
    if n > 0 {
        lemma_para_scan_bounds(ns, n - 1);
    }
}

/// Every paragraph ends on a line of the input.
pub proof fn lemma_paragraph_lines_in_range(ns: Seq<Seq<char>>)
    ensures
        forall|k: int| 0 <= k < paragraphs_of(ns).len() ==> 0 <= (#[trigger] paragraphs_of(ns)[k]).1 < ns.len(),
{
    lemma_para_scan_bounds(ns, ns.len() as int);
}

/// Group consecutive non-blank lines into paragraphs.
/// Returns (normalized paragraph text, index of its last line) pairs; lines
/// that normalize to nothing separate paragraphs.
pub fn build_paragraphs(lines: &[&str]) -> (r: Vec<(String, usize)>)
    ensures
        para_views(r@) == paragraphs_spec(str_views(lines@)),
        forall|k: int| 0 <= k < r@.len() ==> (#[trigger] r@[k]).1 < lines@.len(),
{
    let ghost ns = str_views(lines@).map_values(|l: Seq<char>| normalized(l));
    let mut paragraphs: Vec<(String, usize)> = Vec::new();
    let mut parts: Vec<Vec<char>> = Vec::new();
    let mut last_line_idx: usize = 0;
    let sep: Vec<char> = vec![' '];
    let mut i: usize = 0;
    while i < lines.len()
        invariant
            i <= lines@.len(),
            ns == str_views(lines@).map_values(|l: Seq<char>| normalized(l)),
            ns.len() == lines@.len(),
            sep@ == seq![' '],
            para_views(paragraphs@) == para_scan(ns, i as int).0,
            parts@.map_values(|p: Vec<char>| p@) == para_scan(ns, i as int).1,
            last_line_idx == para_scan(ns, i as int).2,
        decreases lines.len() - i,
    {
        let cs = chars_of(lines[i]);
        let nl = normalize_chars(cs.as_slice());
        assert(nl@ == ns[i as int]);
        if nl.len() == 0 {
            if parts.len() > 0 {
                let text = join_chars(&parts, sep.as_slice());
                let s = string_of(text.as_slice());
                paragraphs.push((s, last_line_idx));
                parts = Vec::new();
                proof {
                    assert(para_views(paragraphs@) =~= para_scan(ns, i + 1).0);
                    assert(parts@.map_values(|p: Vec<char>| p@) =~= para_scan(ns, i + 1).1);
                }
            }
        } else {
            parts.push(nl);
            last_line_idx = i;
            proof {
                assert(parts@.map_values(|p: Vec<char>| p@) =~= para_scan(ns, i + 1).1);
            }
        }
        i = i + 1;
    }
    if parts.len() > 0 {
        let text = join_chars(&parts, sep.as_slice());
        let s = string_of(text.as_slice());
        paragraphs.push((s, last_line_idx));
    }
    proof {
        assert(para_views(paragraphs@) =~= paragraphs_of(ns));
        lemma_paragraph_lines_in_range(ns);
        assert forall|k: int| 0 <= k < paragraphs@.len() implies (#[trigger] paragraphs@[k]).1 < lines@.len() by {
            assert(para_views(paragraphs@)[k] == paragraphs_of(ns)[k]);
        }
    }
    paragraphs
}

// ---------------------------------------------------------------------
// Longest common substring
// ---------------------------------------------------------------------

/// Length of the longest common suffix of `a[..i]` and `b[..j]`.
pub open spec fn common_suffix(a: Seq<char>, b: Seq<char>, i: int, j: int) -> nat
    decreases i,
{
    if i <= 0 || j <= 0 || i > a.len() || j > b.len() || a[i - 1] != b[j - 1] {
        0
    } else {
        1 + common_suffix(a, b, i - 1, j - 1)
    }
}

/// `r` is the length of a longest common substring of `a` and `b`.
pub open spec fn is_longest_common_run(a: Seq<char>, b: Seq<char>, r: nat) -> bool {
    &&& exists|i: int, j: int|
        0 <= i <= a.len() && 0 <= j <= b.len() && #[trigger] common_suffix(a, b, i, j) == r
    &&& forall|i: int, j: int|
        0 <= i <= a.len() && 0 <= j <= b.len() ==> #[trigger] common_suffix(a, b, i, j) <= r
}

/// Length of the longest common substring of `a` and `b`.
pub open spec fn lcs_len(a: Seq<char>, b: Seq<char>) -> nat {
    choose|r: nat| is_longest_common_run(a, b, r)
}

pub proof fn lemma_common_suffix_bound(a: Seq<char>, b: Seq<char>, i: int, j: int)
    ensures
        common_suffix(a, b, i, j) <= if i < 0 { 0 } else { i },
        common_suffix(a, b, i, j) <= if j < 0 { 0 } else { j },
    decreases i,
{
    if !(i <= 0 || j <= 0 || i > a.len() || j > b.len() || a[i - 1] != b[j - 1]) {
        lemma_common_suffix_bound(a, b, i - 1, j - 1);
    }
}

pub proof fn lemma_common_suffix_symmetric(a: Seq<char>, b: Seq<char>, i: int, j: int)
    ensures
        common_suffix(a, b, i, j) == common_suffix(b, a, j, i),
    decreases i,
{
    if !(i <= 0 || j <= 0 || i > a.len() || j > b.len() || a[i - 1] != b[j - 1]) {
        lemma_common_suffix_symmetric(a, b, i - 1, j - 1);
    }
}

pub proof fn lemma_longest_run_unique(a: Seq<char>, b: Seq<char>, r: nat)
    requires
        is_longest_common_run(a, b, r),
    ensures
        lcs_len(a, b) == r,
{
    let r2 = lcs_len(a, b);
    assert(is_longest_common_run(a, b, r2));
    let (i, j) = choose|i: int, j: int|
        0 <= i <= a.len() && 0 <= j <= b.len() && #[trigger] common_suffix(a, b, i, j) == r;
    let (i2, j2) = choose|i: int, j: int|
        0 <= i <= a.len() && 0 <= j <= b.len() && #[trigger] common_suffix(a, b, i, j) == r2;
    assert(common_suffix(a, b, i, j) <= r2);
    assert(common_suffix(a, b, i2, j2) <= r);
}

pub proof fn lemma_longest_run_symmetric(a: Seq<char>, b: Seq<char>, r: nat)
    requires
        is_longest_common_run(a, b, r),
    ensures
        is_longest_common_run(b, a, r),
{
    let (i, j) = choose|i: int, j: int|
        0 <= i <= a.len() && 0 <= j <= b.len() && #[trigger] common_suffix(a, b, i, j) == r;
    lemma_common_suffix_symmetric(a, b, i, j);
    assert(common_suffix(b, a, j, i) == r);
    assert forall|j2: int, i2: int| 0 <= j2 <= b.len() && 0 <= i2 <= a.len() implies #[trigger] common_suffix(b, a, j2, i2) <= r by {
        lemma_common_suffix_symmetric(a, b, i2, j2);
        assert(common_suffix(a, b, i2, j2) <= r);
    }
}

fn zeros(n: usize) -> (v: Vec<usize>)
    ensures
        v@.len() == n,
        forall|k: int| 0 <= k < n ==> v@[k] == 0,
{
    let mut v: Vec<usize> = Vec::new();
    let mut k: usize = 0;
    while k < n
        invariant
            k <= n,
            v@.len() == k,
            forall|m: int| 0 <= m < k ==> v@[m] == 0,
        decreases n - k,
    {
        v.push(0);
        k = k + 1;
    }
    v
}

/// Longest common substring length of `x` and `y` by dynamic programming
/// over one row of common-suffix lengths at a time.
fn lcs_rows(x: &Vec<char>, y: &Vec<char>) -> (r: usize)
    ensures
        is_longest_common_run(x@, y@, r as nat),
{
    let cols = y.len();
    let mut prev = zeros(cols);
    let mut curr = zeros(cols);
    let mut max_len: usize = 0;
    let ghost mut wi: int = 0;
    let ghost mut wj: int = 0;
    let mut i: usize = 0;
    while i < x.len()
        invariant
            i <= x@.len(),
            cols == y@.len(),
            prev@.len() == cols,
            curr@.len() == cols,
            forall|k: int| 0 <= k < cols ==> prev@[k] == common_suffix(x@, y@, i as int, k + 1),
            forall|i2: int, j: int| 0 <= i2 <= i && 0 <= j <= cols ==> #[trigger] common_suffix(x@, y@, i2, j) <= max_len,
            0 <= wi <= i,
            0 <= wj <= cols,
            common_suffix(x@, y@, wi, wj) == max_len,
        decreases x.len() - i,
    {
        let mut j: usize = 0;
        while j < cols
            invariant
                i < x@.len(),
                j <= cols,
                cols == y@.len(),
                prev@.len() == cols,
                curr@.len() == cols,
                forall|k: int| 0 <= k < cols ==> prev@[k] == common_suffix(x@, y@, i as int, k + 1),
                forall|k: int| 0 <= k < j ==> curr@[k] == common_suffix(x@, y@, i + 1, k + 1),
                forall|i2: int, k: int| 0 <= i2 <= i && 0 <= k <= cols ==> #[trigger] common_suffix(x@, y@, i2, k) <= max_len,
                forall|k: int| 0 <= k <= j ==> #[trigger] common_suffix(x@, y@, i + 1, k) <= max_len,
                0 <= wi <= i + 1,
                0 <= wj <= cols,
                common_suffix(x@, y@, wi, wj) == max_len,
            decreases cols - j,
        {
            let diag: usize = if j == 0 { 0 } else { prev[j - 1] };
            proof {
                lemma_common_suffix_bound(x@, y@, i as int, j as int);
                assert(diag == common_suffix(x@, y@, i as int, j as int));
            }
            if x[i] == y[j] {
                curr.set(j, diag + 1);
            } else {
                curr.set(j, 0);
            }
            assert(curr@[j as int] == common_suffix(x@, y@, i + 1, j + 1));
            if curr[j] > max_len {
                max_len = curr[j];
                proof {
                    wi = i + 1;
                    wj = j + 1;
                }
            }
            j = j + 1;
        }
        std::mem::swap(&mut prev, &mut curr);
        i = i + 1;
    }
    assert(common_suffix(x@, y@, wi, wj) == max_len);
    max_len
}

/// Length of the longest common substring of `a` and `b`, in characters.
pub fn lcs_length(a: &str, b: &str) -> (r: usize)
    ensures
        r == lcs_len(a@, b@),
        r <= a@.len(),
        r <= b@.len(),
{
    let av = chars_of(a);
    let bv = chars_of(b);
    let r = if av.len() >= bv.len() {
        let r = lcs_rows(&av, &bv);
        r
    } else {
        let r = lcs_rows(&bv, &av);
        proof {
            lemma_longest_run_symmetric(bv@, av@, r as nat);
        }
        r
    };
    proof {
        lemma_longest_run_unique(a@, b@, r as nat);
        let (i, j) = choose|i: int, j: int|
            0 <= i <= a@.len() && 0 <= j <= b@.len() && #[trigger] common_suffix(a@, b@, i, j) == r;
        lemma_common_suffix_bound(a@, b@, i, j);
    }
    r
}

/// The longest common substring length does not depend on argument order.
pub proof fn lemma_lcs_len_symmetric(a: Seq<char>, b: Seq<char>)
    ensures
        lcs_len(a, b) == lcs_len(b, a),
{
    lemma_longest_run_exists(a, b);
    let r = lcs_len(a, b);
    lemma_longest_run_symmetric(a, b, r);
    lemma_longest_run_unique(b, a, r);
}

/// Some longest common run length exists (the maximum over a finite grid).
pub proof fn lemma_longest_run_exists(a: Seq<char>, b: Seq<char>)
    ensures
        is_longest_common_run(a, b, lcs_len(a, b)),
{
    let (r, i0, j0) = grid_max(a, b, a.len() as int);
    assert(is_longest_common_run(a, b, r));
}

/// Maximum of `common_suffix` over rows `0..=n`, with a position reaching it.
proof fn grid_max(a: Seq<char>, b: Seq<char>, n: int) -> (res: (nat, int, int))
    requires
        0 <= n <= a.len(),
    ensures
        0 <= res.1 <= n,
        0 <= res.2 <= b.len(),
        common_suffix(a, b, res.1, res.2) == res.0,
        forall|i: int, j: int| 0 <= i <= n && 0 <= j <= b.len() ==> #[trigger] common_suffix(a, b, i, j) <= res.0,
    decreases n,
{
    let (rm, rj) = row_max(a, b, n, b.len() as int);
    if n == 0 {
        (rm, 0, rj)
    } else {
        let (pm, pi, pj) = grid_max(a, b, n - 1);
        if pm >= rm {
            (pm, pi, pj)
        } else {
            (rm, n, rj)
        }
    }
}

/// Maximum of `common_suffix(a, b, i, j)` over `j` in `0..=m`, with its position.
proof fn row_max(a: Seq<char>, b: Seq<char>, i: int, m: int) -> (res: (nat, int))
    requires
        0 <= m,
    ensures
        0 <= res.1 <= m,
        common_suffix(a, b, i, res.1) == res.0,
        forall|j: int| 0 <= j <= m ==> #[trigger] common_suffix(a, b, i, j) <= res.0,
    decreases m,
{
    if m == 0 {
        (common_suffix(a, b, i, 0), 0)
    } else {
        let (pm, pj) = row_max(a, b, i, m - 1);
        let c = common_suffix(a, b, i, m);
        if pm >= c {
            (pm, pj)
        } else {
            (c, m)
        }
    }
}

// ---------------------------------------------------------------------
// Fuzzy score
// ---------------------------------------------------------------------

/// The smaller of three numbers.
pub open spec fn min3(x: nat, y: nat, z: nat) -> nat {
    if x <= y && x <= z {
        x
    } else if y <= z {
        y
    } else {
        z
    }
}

/// The edit distance of `a` and `b`: the least number of single-character
/// insertions, deletions and substitutions that turn `a` into `b`.
pub open spec fn edit_distance(a: Seq<char>, b: Seq<char>) -> nat
    decreases a.len() + b.len(),
{
    if a.len() == 0 {
        b.len()
    } else if b.len() == 0 {
        a.len()
    } else {
        min3(
            edit_distance(a.drop_last(), b) + 1,
            edit_distance(a, b.drop_last()) + 1,
            edit_distance(a.drop_last(), b.drop_last()) + (if a.last() == b.last() {
                0nat
            } else {
                1nat
            }),
        )
    }
}

/// The edit distance never exceeds the longer length.
pub proof fn lemma_edit_distance_bound(a: Seq<char>, b: Seq<char>)
    ensures
        edit_distance(a, b) <= max_nat(a.len(), b.len()),
    decreases a.len() + b.len(),
{
    if a.len() > 0 && b.len() > 0 {
        lemma_edit_distance_bound(a.drop_last(), b.drop_last());
    }
}

/// Trusted: `strsim::levenshtein`, documented as the minimum number of
/// insertions, deletions and substitutions required to change one string
/// into the other; it works on characters. That is `edit_distance`.
#[verifier::external_body]
fn levenshtein(a: &str, b: &str) -> (d: usize)
    ensures
        d == edit_distance(a@, b@),
{
    strsim::levenshtein(a, b)
}

pub open spec fn max_nat(x: nat, y: nat) -> nat {
    if x >= y {
        x
    } else {
        y
    }
}

/// The fuzzy similarity of `a` and `b` for an edit distance `d`: the better
/// of `(m - d) / m` (0 when `d` exceeds `m`) and the longest common
/// substring ratio `lcs / m`, with `m` the longer length in characters; 1
/// when both are empty.
pub open spec fn score_with_distance_spec(a: Seq<char>, b: Seq<char>, d: nat) -> Ratio {
    let m = max_nat(a.len(), b.len());
    if m == 0 {
        Ratio { num: 1, den: 1 }
    } else {
        Ratio {
            num: max_nat(if d <= m { (m - d) as nat } else { 0 }, lcs_len(a, b)) as u64,
            den: m as u64,
        }
    }
}

/// The fuzzy similarity of `a` and `b`: normalized edit-distance similarity
/// or longest-common-substring ratio, whichever is higher.
pub open spec fn fuzzy_score_spec(a: Seq<char>, b: Seq<char>) -> Ratio {
    score_with_distance_spec(a, b, edit_distance(a, b))
}

/// The fuzzy score of `a` and `b` once their edit distance `distance` is
/// known.
pub fn score_with_distance(a: &str, b: &str, distance: usize) -> (r: Ratio)
    ensures
        r == score_with_distance_spec(a@, b@, distance as nat),
        r.den > 0,
        r.num <= r.den,
{
    let la = a.unicode_len();
    let lb = b.unicode_len();
    let m = if la >= lb { la } else { lb };
    if m == 0 {
        return Ratio { num: 1, den: 1 };
    }
    let l = lcs_length(a, b);
    let lev_part = if distance <= m { m - distance } else { 0 };
    let best = if lev_part >= l { lev_part } else { l };
    Ratio { num: best as u64, den: m as u64 }
}

/// Compute a fuzzy similarity score between two strings using dual scoring:
/// normalized Levenshtein similarity and the longest-common-substring ratio,
/// taking the maximum. The score is an exact fraction in `0..=1`.
pub fn fuzzy_score(a: &str, b: &str) -> (r: Ratio)
    ensures
        r == fuzzy_score_spec(a@, b@),
        r.den > 0,
        r.num <= r.den,
{
    let d = levenshtein(a, b);
    score_with_distance(a, b, d)
}

// ---------------------------------------------------------------------
// Best single paragraph
// ---------------------------------------------------------------------

/// Views of paragraph texts with their last line.
pub open spec fn scored_views(ps: Seq<(String, usize)>) -> Seq<(Seq<char>, usize)> {
    ps.map_values(|p: (String, usize)| (p.0@, p.1))
}

/// Best score and its paragraph's line over the first `n` paragraphs: a
/// paragraph replaces the best so far only with a strictly higher score;
/// empty paragraphs are skipped and the starting best is 0 with no line.
pub open spec fn best_paragraph(nn: Seq<char>, ps: Seq<(Seq<char>, usize)>, n: int) -> (Ratio, Option<usize>)
    decreases n,
{
    if n <= 0 {
        (Ratio { num: 0, den: 1 }, None)
    } else {
        let prev = best_paragraph(nn, ps, n - 1);
        let sc = fuzzy_score_spec(nn, ps[n - 1].0);
        if ps[n - 1].0.len() > 0 && ratio_gt(sc, prev.0) {
            (sc, Some(ps[n - 1].1))
        } else {
            prev
        }
    }
}

/// What `find_fuzzy_match_with_score` returns.
pub open spec fn fuzzy_match_spec(needle: Seq<char>, ps: Seq<(Seq<char>, usize)>, threshold: Ratio) -> Option<(usize, Ratio)> {
    let nn = normalized(needle);
    if nn.len() == 0 {
        None
    } else {
        let b = best_paragraph(nn, ps, ps.len() as int);
        if ratio_ge(b.0, threshold) && b.1 is Some {
            Some((b.1->0, b.0))
        } else {
            None
        }
    }
}

pub proof fn lemma_best_paragraph_line(nn: Seq<char>, ps: Seq<(Seq<char>, usize)>, n: int)
    requires
        0 <= n <= ps.len(),
    ensures
        best_paragraph(nn, ps, n).1 matches Some(l) ==> exists|k: int| 0 <= k < n && ps[k].1 == l,
    decreases n,
{
    if n > 0 {
        lemma_best_paragraph_line(nn, ps, n - 1);
    }
}

/// Score each paragraph against the normalized needle; return the last line
/// of the best-scoring one with its score, if that score reaches `threshold`.
pub fn find_fuzzy_match_with_score(needle: &str, paragraphs: &[(String, usize)], threshold: Ratio) -> (r: Option<(usize, Ratio)>)
    ensures
        r == fuzzy_match_spec(needle@, scored_views(paragraphs@), threshold),
        r matches Some(p) ==> exists|k: int| 0 <= k < paragraphs@.len() && paragraphs@[k].1 == p.0,
{
    let ghost ps = scored_views(paragraphs@);
    let nc = chars_of(needle);
    let nn = normalize_chars(nc.as_slice());
    if nn.len() == 0 {
        return None;
    }
    let ns = string_of(nn.as_slice());
    let mut best_score = Ratio { num: 0, den: 1 };
    let mut best_line: Option<usize> = None;
    let mut i: usize = 0;
    while i < paragraphs.len()
        invariant
            i <= paragraphs@.len(),
            ps == scored_views(paragraphs@),
            ns@ == normalized(needle@),
            (best_score, best_line) == best_paragraph(ns@, ps, i as int),
        decreases paragraphs.len() - i,
    {
        let text = &paragraphs[i].0;
        if text.as_str().unicode_len() > 0 {
            let score = fuzzy_score(ns.as_str(), text.as_str());
            if score.gt(&best_score) {
                best_score = score;
                best_line = Some(paragraphs[i].1);
            }
        }
        i = i + 1;
    }
    proof {
        lemma_best_paragraph_line(ns@, ps, ps.len() as int);
    }
    if best_score.ge(&threshold) {
        match best_line {
            Some(l) => Some((l, best_score)),
            None => None,
        }
    } else {
        None
    }
}

/// Score each paragraph against the needle; the last line index of the
/// best-matching paragraph if its score reaches `threshold`.
pub fn find_fuzzy_match(needle: &str, paragraphs: &[(String, usize)], threshold: Ratio) -> (r: Option<usize>)
    ensures
        r == (match fuzzy_match_spec(needle@, scored_views(paragraphs@), threshold) {
            Some(p) => Some(p.0),
            None => None,
        }),
{
    match find_fuzzy_match_with_score(needle, paragraphs, threshold) {
        Some(p) => Some(p.0),
        None => None,
    }
}

// ---------------------------------------------------------------------
// Windows of consecutive paragraphs
// ---------------------------------------------------------------------

/// Number of windows tried over `n` paragraphs: all runs of 2, then all runs
/// of 3 consecutive paragraphs.
pub open spec fn window_count(n: int) -> int {
    if n < 2 {
        0
    } else if n < 3 {
        n - 1
    } else {
        (n - 1) + (n - 2)
    }
}

/// The `k`-th window over `n` paragraphs as (first paragraph, size).
pub open spec fn window_at(n: int, k: int) -> (int, int) {
    if k < n - 1 {
        (k, 2)
    } else {
        (k - (n - 1), 3)
    }
}

/// Texts of paragraphs `start..start + size` joined with spaces.
pub open spec fn window_text(ps: Seq<(Seq<char>, usize)>, start: int, size: int) -> Seq<char> {
    join(ps.subrange(start, start + size).map_values(|p: (Seq<char>, usize)| p.0), seq![' '])
}

/// Best score and line over the first `k` windows; a window replaces the
/// best so far only with a strictly higher score.
pub open spec fn best_window(nn: Seq<char>, ps: Seq<(Seq<char>, usize)>, k: int) -> (Ratio, Option<usize>)
    decreases k,
{
    if k <= 0 {
        (Ratio { num: 0, den: 1 }, None)
    } else {
        let prev = best_window(nn, ps, k - 1);
        let w = window_at(ps.len() as int, k - 1);
        let sc = fuzzy_score_spec(nn, window_text(ps, w.0, w.1));
        if ratio_gt(sc, prev.0) {
            (sc, Some(ps[w.0 + w.1 - 1].1))
        } else {
            prev
        }
    }
}

/// What `find_fuzzy_match_windowed_with_score` returns.
pub open spec fn windowed_match_spec(needle: Seq<char>, ps: Seq<(Seq<char>, usize)>, threshold: Ratio) -> Option<(usize, Ratio)> {
    let nn = normalized(needle);
    if nn.len() == 0 || ps.len() < 2 {
        None
    } else {
        let b = best_window(nn, ps, window_count(ps.len() as int));
        if ratio_ge(b.0, threshold) && b.1 is Some {
            Some((b.1->0, b.0))
        } else {
            None
        }
    }
}

pub proof fn lemma_best_window_line(nn: Seq<char>, ps: Seq<(Seq<char>, usize)>, k: int)
    requires
        0 <= k <= window_count(ps.len() as int),
    ensures
        best_window(nn, ps, k).1 matches Some(l) ==> exists|i: int| 0 <= i < ps.len() && ps[i].1 == l,
    decreases k,
{
    if k > 0 {
        lemma_best_window_line(nn, ps, k - 1);
        let w = window_at(ps.len() as int, k - 1);
        assert(0 <= w.0 + w.1 - 1 < ps.len());
    }
}

/// Joins the texts of `paragraphs[start..start + size]` with spaces.
fn window_string(paragraphs: &[(String, usize)], start: usize, size: usize) -> (r: String)
    requires
        start + size <= paragraphs@.len(),
    ensures
        r@ == window_text(scored_views(paragraphs@), start as int, size as int),
{
    let ghost ps = scored_views(paragraphs@);
    let mut parts: Vec<Vec<char>> = Vec::new();
    let mut k: usize = 0;
    while k < size
        invariant
            k <= size,
            start + size <= paragraphs.len(),
            paragraphs.len() == paragraphs@.len(),
            ps == scored_views(paragraphs@),
            parts@.len() == k,
            parts@.map_values(|p: Vec<char>| p@) == ps.subrange(start as int, start + k).map_values(|p: (Seq<char>, usize)| p.0),
        decreases size - k,
    {
        let ghost before = parts@;
        parts.push(chars_of(paragraphs[start + k].0.as_str()));
        assert(parts@.last()@ == ps[start + k].0);
        assert(parts@.drop_last() == before);
        proof {
            let pv = parts@.map_values(|p: Vec<char>| p@);
            let bv = before.map_values(|p: Vec<char>| p@);
            let sv = ps.subrange(start as int, start + k + 1).map_values(|p: (Seq<char>, usize)| p.0);
            let ov = ps.subrange(start as int, start + k).map_values(|p: (Seq<char>, usize)| p.0);
            assert(pv.len() == sv.len());
            assert forall|idx: int| 0 <= idx < k + 1 implies #[trigger] pv[idx] == sv[idx] by {
                if idx < k {
                    assert(bv[idx] == ov[idx]);
                }
            }
            assert(pv =~= sv);
        }
        k = k + 1;
    }
    let sep: Vec<char> = vec![' '];
    assert(sep@ =~= seq![' ']);
    let joined = join_chars(&parts, sep.as_slice());
    string_of(joined.as_slice())
}

/// Try windows of 2 and then 3 consecutive paragraphs, scoring each window's
/// joined text against the normalized needle; return the last line of the
/// last paragraph of the best window with its score if it reaches `threshold`.
pub fn find_fuzzy_match_windowed_with_score(needle: &str, paragraphs: &[(String, usize)], threshold: Ratio) -> (r: Option<(usize, Ratio)>)
    ensures
        r == windowed_match_spec(needle@, scored_views(paragraphs@), threshold),
        r matches Some(p) ==> exists|k: int| 0 <= k < paragraphs@.len() && paragraphs@[k].1 == p.0,
{
    let ghost ps = scored_views(paragraphs@);
    let nc = chars_of(needle);
    let nn = normalize_chars(nc.as_slice());
    let n = paragraphs.len();
    if nn.len() == 0 || n < 2 {
        return None;
    }
    let ns = string_of(nn.as_slice());
    let mut best_score = Ratio { num: 0, den: 1 };
    let mut best_line: Option<usize> = None;
    let max_window: usize = if n < 3 { n } else { 3 };
    let mut size: usize = 2;
    let ghost mut k: int = 0;
    while size <= max_window
        invariant
            2 <= size <= max_window + 1,
            max_window <= 3,
            max_window == if n < 3 { n } else { 3 },
            n == paragraphs@.len(),
            n >= 2,
            ps == scored_views(paragraphs@),
            ns@ == normalized(needle@),
            k == if size == 2 { 0 } else if size == 3 { n - 1 } else { window_count(n as int) },
            (best_score, best_line) == best_window(ns@, ps, k),
        decreases max_window + 1 - size,
    {
        let mut start: usize = 0;
        while start <= n - size
            invariant
                2 <= size <= max_window,
                max_window <= 3,
                max_window == if n < 3 { n } else { 3 },
                n == paragraphs@.len(),
                n >= 2,
                start <= n - size + 1,
                ps == scored_views(paragraphs@),
                ns@ == normalized(needle@),
                k == (if size == 2 { 0 } else { n - 1 }) + start,
                (best_score, best_line) == best_window(ns@, ps, k),
            decreases n - size + 1 - start,
        {
            let end = start + size - 1;
            let joined = window_string(paragraphs, start, size);
            let score = fuzzy_score(ns.as_str(), joined.as_str());
            proof {
                assert(window_at(n as int, k) == (start as int, size as int));
            }
            if score.gt(&best_score) {
                best_score = score;
                best_line = Some(paragraphs[end].1);
            }
            proof {
                k = k + 1;
            }
            start = start + 1;
        }
        size = size + 1;
    }
    proof {
        lemma_best_window_line(ns@, ps, k);
    }
    if best_score.ge(&threshold) {
        match best_line {
            Some(l) => Some((l, best_score)),
            None => None,
        }
    } else {
        None
    }
}

/// Windowed fuzzy match: the last line index of the best window of 2 or 3
/// consecutive paragraphs if its score reaches `threshold`.
pub fn find_fuzzy_match_windowed(needle: &str, paragraphs: &[(String, usize)], threshold: Ratio) -> (r: Option<usize>)
    ensures
        r == (match windowed_match_spec(needle@, scored_views(paragraphs@), threshold) {
            Some(p) => Some(p.0),
            None => None,
        }),
{
    match find_fuzzy_match_windowed_with_score(needle, paragraphs, threshold) {
        Some(p) => Some(p.0),
        None => None,
    }
}

} // verus!
