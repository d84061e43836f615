//! Text normalization used before comparing annotation text with markdown.
use vstd::prelude::*;
use crate::text::{
    chars_of, collapse_whitespace, collapse_ws, extend_chars, is_lower, is_lowercase, lowercase,
    string_of, to_lowercase, lemma_collapse_ws_idempotent,
};

verus! {

/// Whitespace runs collapsed to one space, ends trimmed, then lowercased.
pub open spec fn normalized(t: Seq<char>) -> Seq<char> {
    lowercase(collapse_ws(t))
}

/// Collapse all whitespace runs to a single space, trim, and lowercase.
pub fn normalize(text: &str) -> (r: String)
    ensures
        r@ == normalized(text@),
{
    let cs = chars_of(text);
    let collapsed = collapse_whitespace(cs.as_slice());
    let s = string_of(collapsed.as_slice());
    to_lowercase(s.as_str())
}

/// Normalizing a text whose whitespace was already collapsed gives what
/// normalizing the text itself gives.
pub proof fn lemma_normalize_after_collapse(t: Seq<char>)
    ensures
        normalized(collapse_ws(t)) == normalized(t),
{
    lemma_collapse_ws_idempotent(t);
}

/// `normalize` on a character sequence, giving characters back.
pub fn normalize_chars(text: &[char]) -> (r: Vec<char>)
    ensures
        r@ == normalized(text@),
{
    let collapsed = collapse_whitespace(text);
    let s = string_of(collapsed.as_slice());
    let l = to_lowercase(s.as_str());
    chars_of(l.as_str())
}

/// The characters a blank run may hold between a line-break hyphen and the
/// continuation of the word.
pub open spec fn is_blank(c: char) -> bool {
    c == ' ' || c == '\t'
}

/// First position at or after `j` that does not hold a space or a tab.
pub open spec fn skip_blanks(s: Seq<char>, j: int) -> int
    decreases s.len() - j,
{
    if 0 <= j < s.len() && is_blank(s[j]) {
        skip_blanks(s, j + 1)
    } else {
        j
    }
}

/// Where reading resumes when the hyphen at `i` ends a line and the word goes
/// on in lowercase on the next line: `-`, an optional `\r`, `\n`, spaces or
/// tabs, then a lowercase letter. `None` when no rejoin happens at `i`.
pub open spec fn hyphen_rejoin_at(s: Seq<char>, i: int) -> Option<int> {
    if 0 <= i < s.len() && s[i] == '-' {
        let j = if i + 1 < s.len() && s[i + 1] == '\r' { i + 2 } else { i + 1 };
        if j < s.len() && s[j] == '\n' {
            let k = skip_blanks(s, j + 1);
            if k < s.len() && is_lower(s[k]) {
                Some(k)
            } else {
                None
            }
        } else {
            None
        }
    } else {
        None
    }
}

/// The text from position `i` on with line-break hyphenation rejoined.
pub open spec fn rejoin_from(s: Seq<char>, i: int) -> Seq<char>
    decreases s.len() - i,
{
    if i < 0 || i >= s.len() {
        seq![]
    } else {
        match hyphen_rejoin_at(s, i) {
            Some(k) => if i < k <= s.len() {
                rejoin_from(s, k)
            } else {
                seq![s[i]] + rejoin_from(s, i + 1)
            },
            None => seq![s[i]] + rejoin_from(s, i + 1),
        }
    }
}

/// What one character becomes under OCR normalization: Unicode ligatures
/// spelled out, curly quotes straightened, dashes and minus made hyphens.
pub open spec fn ocr_char(c: char) -> Seq<char> {
    if c == '\u{FB00}' {
        seq!['f', 'f']
    } else if c == '\u{FB01}' {
        seq!['f', 'i']
    } else if c == '\u{FB02}' {
        seq!['f', 'l']
    } else if c == '\u{FB03}' {
        seq!['f', 'f', 'i']
    } else if c == '\u{FB04}' {
        seq!['f', 'f', 'l']
    } else if c == '\u{FB06}' {
        seq!['s', 't']
    } else if c == '\u{2018}' || c == '\u{2019}' {
        seq!['\'']
    } else if c == '\u{201C}' || c == '\u{201D}' {
        seq!['"']
    } else if c == '\u{2013}' || c == '\u{2014}' || c == '\u{2212}' {
        seq!['-']
    } else {
        seq![c]
    }
}

/// `ocr_char` applied to every character.
pub open spec fn ocr_map(s: Seq<char>) -> Seq<char>
    decreases s.len(),
{
    if s.len() == 0 {
        seq![]
    } else {
        ocr_map(s.drop_last()) + ocr_char(s.last())
    }
}

/// OCR-aware normalization of `t`.
pub open spec fn ocr_normalized(t: Seq<char>) -> Seq<char> {
    normalized(ocr_map(rejoin_from(t, 0)))
}

fn ocr_char_exec(c: char) -> (r: Vec<char>)
    ensures
        r@ == ocr_char(c),
{
    let r: Vec<char> = if c == '\u{FB00}' {
        vec!['f', 'f']
    } else if c == '\u{FB01}' {
        vec!['f', 'i']
    } else if c == '\u{FB02}' {
        vec!['f', 'l']
    } else if c == '\u{FB03}' {
        vec!['f', 'f', 'i']
    } else if c == '\u{FB04}' {
        vec!['f', 'f', 'l']
    } else if c == '\u{FB06}' {
        vec!['s', 't']
    } else if c == '\u{2018}' || c == '\u{2019}' {
        vec!['\'']
    } else if c == '\u{201C}' || c == '\u{201D}' {
        vec!['"']
    } else if c == '\u{2013}' || c == '\u{2014}' || c == '\u{2212}' {
        vec!['-']
    } else {
        vec![c]
    };
    assert(r@ =~= ocr_char(c));
    r
}

fn skip_blanks_exec(s: &[char], j: usize) -> (k: usize)
    requires
        j <= s@.len(),
    ensures
        k == skip_blanks(s@, j as int),
        j <= k <= s@.len(),
{
    let mut k = j;
    while k < s.len() && (s[k] == ' ' || s[k] == '\t')
        invariant
            j <= k <= s@.len(),
            skip_blanks(s@, k as int) == skip_blanks(s@, j as int),
        decreases s.len() - k,
    {
        k = k + 1;
    }
    k
}

fn hyphen_rejoin_exec(s: &[char], i: usize) -> (r: Option<usize>)
    requires
        i < s@.len(),
    ensures
        r matches Some(k) ==> hyphen_rejoin_at(s@, i as int) == Some(k as int) && i < k < s@.len(),
        r is None ==> hyphen_rejoin_at(s@, i as int) is None,
{
    if s[i] != '-' {
        return None;
    }
    let mut j = i + 1;
    if j < s.len() && s[j] == '\r' {
        j = j + 1;
    }
    if j < s.len() && s[j] == '\n' {
        let k = skip_blanks_exec(s, j + 1);
        if k < s.len() && is_lowercase(s[k]) {
            return Some(k);
        }
    }
    None
}

/// Rejoins end-of-line hyphenation ("knowl-\nedge" becomes "knowledge").
pub fn rejoin_line_hyphens(s: &[char]) -> (r: Vec<char>)
    ensures
        r@ == rejoin_from(s@, 0),
{
    let mut out: Vec<char> = Vec::new();
    let mut i: usize = 0;
    while i < s.len()
        invariant
            i <= s@.len(),
            out@ + rejoin_from(s@, i as int) == rejoin_from(s@, 0),
        decreases s.len() - i,
    {
        match hyphen_rejoin_exec(s, i) {
            Some(k) => {
                i = k;
            },
            None => {
                out.push(s[i]);
                proof {
                    let a = out@.drop_last();
                    assert(a + rejoin_from(s@, i as int) =~= out@ + rejoin_from(s@, i + 1));
                }
                i = i + 1;
            },
        }
    }
    assert(out@ + rejoin_from(s@, i as int) =~= out@);
    out
}

/// Applies the OCR character map to every character.
pub fn ocr_map_chars(s: &[char]) -> (r: Vec<char>)
    ensures
        r@ == ocr_map(s@),
{
    let mut out: Vec<char> = Vec::new();
    let mut i: usize = 0;
    while i < s.len()
        invariant
            i <= s@.len(),
            out@ == ocr_map(s@.take(i as int)),
        decreases s.len() - i,
    {
        let m = ocr_char_exec(s[i]);
        extend_chars(&mut out, m.as_slice());
        assert(s@.take(i + 1).drop_last() =~= s@.take(i as int));
        i = i + 1;
    }
    assert(s@.take(i as int) =~= s@);
    out
}

/// OCR-aware normalization. On top of `normalize` (whitespace collapse and
/// lowercase): end-of-line hyphenation is rejoined, Unicode ligatures are
/// spelled out, curly quotes become straight quotes and en/em dashes and the
/// minus sign become hyphen-minus.
pub fn ocr_normalize(text: &str) -> (r: String)
    ensures
        r@ == ocr_normalized(text@),
{
    let cs = chars_of(text);
    let joined = rejoin_line_hyphens(cs.as_slice());
    let mapped = ocr_map_chars(joined.as_slice());
    let collapsed = collapse_whitespace(mapped.as_slice());
    let s = string_of(collapsed.as_slice());
    to_lowercase(s.as_str())
}

/// `ocr_normalize` on characters.
pub fn ocr_normalize_chars(text: &[char]) -> (r: Vec<char>)
    ensures
        r@ == ocr_normalized(text@),
{
    let joined = rejoin_line_hyphens(text);
    let mapped = ocr_map_chars(joined.as_slice());
    normalize_chars(mapped.as_slice())
}

} // verus!
