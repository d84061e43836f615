//! Exact (normalized) substring matching across the lines of a document.
use vstd::prelude::*;
use crate::text::{chars_of, find_chars, find_first};
use crate::matching::normalize::{normalize_chars, normalized};

verus! {

/// The views of a slice of string slices.
pub open spec fn str_views(lines: Seq<&str>) -> Seq<Seq<char>> {
    lines.map_values(|l: &str| l@)
}

/// The normalized lines joined into one text, a space after each line once
/// the text is non-empty (leading lines that normalize to nothing add no space).
pub open spec fn joined_prefix(ns: Seq<Seq<char>>, n: int) -> Seq<char>
    decreases n,
{
    if n <= 0 {
        seq![]
    } else {
        let j = joined_prefix(ns, n - 1);
        if j.len() == 0 {
            ns[n - 1]
        } else {
            j + seq![' '] + ns[n - 1]
        }
    }
}

/// Position in the joined text where line `i` starts.
pub open spec fn line_start(ns: Seq<Seq<char>>, i: int) -> int {
    if joined_prefix(ns, i).len() == 0 {
        0
    } else {
        joined_prefix(ns, i).len() + 1int
    }
}

/// The last of the first `n` lines whose start is at or before `end` (0 if none).
pub open spec fn last_line_starting_by(ns: Seq<Seq<char>>, end: int, n: int) -> int
    decreases n,
{
    if n <= 0 {
        0
    } else if line_start(ns, n - 1) <= end {
        n - 1
    } else {
        last_line_starting_by(ns, end, n - 1)
    }
}

/// The line at which the first occurrence of `needle` in the joined text ends.
pub open spec fn exact_match_in(ns: Seq<Seq<char>>, needle: Seq<char>) -> Option<int> {
    match find_first(joined_prefix(ns, ns.len() as int), needle) {
        Some(idx) => Some(last_line_starting_by(ns, idx + needle.len(), ns.len() as int)),
        None => None,
    }
}

/// `find_exact_match` on the views of its arguments: the normalized needle is
/// searched in the normalized lines joined with spaces.
pub open spec fn exact_match_spec(needle: Seq<char>, lines: Seq<Seq<char>>) -> Option<int> {
    exact_match_in(lines.map_values(|l: Seq<char>| normalized(l)), normalized(needle))
}

pub proof fn lemma_last_line_bound(ns: Seq<Seq<char>>, end: int, n: int)
    requires
        n >= 0,
    ensures
        0 <= last_line_starting_by(ns, end, n),
        n > 0 ==> last_line_starting_by(ns, end, n) < n,
    decreases n,
{
    if n > 0 {
        lemma_last_line_bound(ns, end, n - 1);
    }
}

/// `exact_match_in` on pre-normalized lines, given as characters.
pub fn exact_match_chars(needle: &[char], norm_lines: &Vec<Vec<char>>) -> (r: Option<usize>)
    ensures
        r matches Some(i) ==> exact_match_in(norm_lines@.map_values(|l: Vec<char>| l@), needle@)
            == Some(i as int),
        r is None ==> exact_match_in(norm_lines@.map_values(|l: Vec<char>| l@), needle@) is None,
{
    let ghost ns = norm_lines@.map_values(|l: Vec<char>| l@);
    let mut joined: Vec<char> = Vec::new();
    let mut starts: Vec<usize> = Vec::new();
    let mut i: usize = 0;
    while i < norm_lines.len()
        invariant
            i <= norm_lines@.len(),
            ns == norm_lines@.map_values(|l: Vec<char>| l@),
            joined@ == joined_prefix(ns, i as int),
            starts@.len() == i,
            forall|k: int| 0 <= k < i ==> starts@[k] == line_start(ns, k),
        decreases norm_lines.len() - i,
    {
        if joined.len() > 0 {
            joined.push(' ');
        }
        starts.push(joined.len());
        let line = &norm_lines[i];
        let mut k: usize = 0;
        let ghost before = joined@;
        while k < line.len()
            invariant
                k <= line@.len(),
                joined@ == before + line@.take(k as int),
            decreases line.len() - k,
        {
            joined.push(line[k]);
            assert(line@.take(k + 1) =~= line@.take(k as int).push(line@[k as int]));
            k = k + 1;
        }
        assert(line@.take(k as int) =~= line@);
        assert(joined@ =~= joined_prefix(ns, i + 1));
        i = i + 1;
    }
    let f = find_chars(joined.as_slice(), needle);
    match f {
        None => None,
        Some(idx) => {
            proof {
                crate::text::lemma_find_from(joined@, needle@, 0);
                assert(crate::text::occurs_at(joined@, needle@, idx as int));
                assert(idx + needle@.len() <= joined@.len());
                assert(joined@.len() == joined.len());
                assert(needle@.len() == needle.len());
            }
            let ghost end: int = idx + needle@.len();
            let endx: usize = idx + needle.len();
            let mut result: usize = 0;
            let mut j: usize = 0;
            while j < starts.len()
                invariant
                    j <= starts@.len(),
                    starts@.len() == ns.len(),
                    forall|k: int| 0 <= k < starts@.len() ==> starts@[k] == line_start(ns, k),
                    result == last_line_starting_by(ns, end, j as int),
                    idx + needle@.len() == end,
                    endx == end,
                decreases starts.len() - j,
            {
                if starts[j] <= endx {
                    result = j;
                }
                j = j + 1;
            }
            Some(result)
        },
    }
}

/// Search for `needle` as an exact normalized substring across all lines joined.
/// Returns the 0-based line index where the match ends (the insertion point),
/// `None` if the needle is not found. Positions are counted in characters.
pub fn find_exact_match(needle: &str, lines: &[&str]) -> (r: Option<usize>)
    ensures
        r matches Some(i) ==> exact_match_spec(needle@, str_views(lines@)) == Some(i as int),
        r is None ==> exact_match_spec(needle@, str_views(lines@)) is None,
        r matches Some(i) ==> (lines@.len() == 0 ==> i == 0) && (lines@.len() > 0 ==> i < lines@.len()),
{
    let mut norm_lines: Vec<Vec<char>> = Vec::new();
    let mut i: usize = 0;
    while i < lines.len()
        invariant
            i <= lines@.len(),
            norm_lines@.len() == i,
            forall|k: int| 0 <= k < i ==> (#[trigger] norm_lines@[k])@ == normalized(lines@[k]@),
        decreases lines.len() - i,
    {
        let cs = chars_of(lines[i]);
        norm_lines.push(normalize_chars(cs.as_slice()));
        i = i + 1;
    }
    let nc = chars_of(needle);
    let nn = normalize_chars(nc.as_slice());
    let r = exact_match_chars(nn.as_slice(), &norm_lines);
    proof {
        let ns = norm_lines@.map_values(|l: Vec<char>| l@);
        assert(ns =~= str_views(lines@).map_values(|l: Seq<char>| normalized(l)));
        if let Some(idx) = find_first(joined_prefix(ns, ns.len() as int), nn@) {
            lemma_last_line_bound(ns, idx + nn@.len(), ns.len() as int);
        }
    }
    r
}

} // verus!
