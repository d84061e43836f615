//! Character-level text model shared by the whole library: strings are
//! handled as sequences of `char`, with spec functions for the handful of
//! std string operations the matching and DSL code relies on.
use vstd::prelude::*;

verus! {

// ---------------------------------------------------------------------
// Properties of characters that std decides (Unicode tables)
// ---------------------------------------------------------------------

/// Unicode `White_Space`, the property `char::is_whitespace` tests: tab,
/// line feed, vertical tab, form feed, carriage return, space, next line,
/// no-break space, ogham space mark, the spaces U+2000 to U+200A, line and
/// paragraph separators, narrow no-break space, medium mathematical space
/// and ideographic space.
pub open spec fn is_ws(c: char) -> bool {
    let u = c as u32;
    (0x9 <= u && u <= 0xD) || u == 0x20 || u == 0x85 || u == 0xA0 || u == 0x1680 || (0x2000 <= u && u
        <= 0x200A) || u == 0x2028 || u == 0x2029 || u == 0x202F || u == 0x205F || u == 0x3000
}

/// Whether `char::is_lowercase` holds of a character (Unicode `Lowercase`).
pub uninterp spec fn is_lower(c: char) -> bool;

/// What `str::to_lowercase` returns for a given string.
pub uninterp spec fn lowercase(s: Seq<char>) -> Seq<char>;

/// Whether a character is whitespace (`char::is_whitespace`).
pub fn is_whitespace(c: char) -> (b: bool)
    ensures
        b == is_ws(c),
{
    let u = c as u32;
    (0x9 <= u && u <= 0xD) || u == 0x20 || u == 0x85 || u == 0xA0 || u == 0x1680 || (0x2000 <= u && u
        <= 0x200A) || u == 0x2028 || u == 0x2029 || u == 0x202F || u == 0x205F || u == 0x3000
}

/// Trusted: `char::is_lowercase`. Its result is named `is_lower`; the
/// documentation's examples show ASCII `a` lowercase and `A` not, which the
/// Unicode `Lowercase` property gives for every ASCII letter.
#[verifier::external_body]
pub(crate) fn is_lowercase(c: char) -> (b: bool)
    ensures
        b == is_lower(c),
        'a' <= c <= 'z' ==> b,
        'A' <= c <= 'Z' ==> !b,
{
    c.is_lowercase()
}

/// Trusted: `str::to_lowercase`. Its result is named `lowercase`; nothing
/// else is claimed of it (Unicode case mapping may change lengths).
#[verifier::external_body]
pub(crate) fn to_lowercase(s: &str) -> (r: String)
    ensures
        r@ == lowercase(s@),
{
    s.to_lowercase()
}

/// Trusted: `String::push`, which appends one character.
#[verifier::external_body]
pub(crate) fn push_char(s: &mut String, c: char)
    ensures
        final(s)@ == old(s)@.push(c),
{
    s.push(c);
}

/// ASCII lowercase letter (`char::is_ascii_lowercase`).
pub open spec fn is_ascii_lower(c: char) -> bool {
    'a' <= c <= 'z'
}

/// ASCII decimal digit (`char::is_ascii_digit`).
pub open spec fn is_ascii_digit(c: char) -> bool {
    '0' <= c <= '9'
}

/// Number of bytes a character takes in UTF-8 (`char::len_utf8`).
pub open spec fn char_utf8_len(c: char) -> nat {
    if (c as u32) < 0x80 {
        1
    } else if (c as u32) < 0x800 {
        2
    } else if (c as u32) < 0x10000 {
        3
    } else {
        4
    }
}

/// Byte length of the UTF-8 encoding of a character sequence (`str::len`).
pub open spec fn utf8_len(s: Seq<char>) -> nat
    decreases s.len(),
{
    if s.len() == 0 {
        0
    } else {
        utf8_len(s.drop_last()) + char_utf8_len(s.last())
    }
}

pub fn char_len_utf8(c: char) -> (n: usize)
    ensures
        n == char_utf8_len(c),
{
    let u = c as u32;
    if u < 0x80 {
        1
    } else if u < 0x800 {
        2
    } else if u < 0x10000 {
        3
    } else {
        4
    }
}

/// A prefix never takes more UTF-8 bytes than the whole sequence.
pub proof fn lemma_utf8_len_prefix(s: Seq<char>, k: int)
    requires
        0 <= k <= s.len(),
    ensures
        utf8_len(s.take(k)) <= utf8_len(s),
    decreases s.len() - k,
{
    if k < s.len() {
        lemma_utf8_len_prefix(s, k + 1);
        assert(s.take(k + 1).drop_last() =~= s.take(k));
    } else {
        assert(s.take(k) =~= s);
    }
}

/// UTF-8 length is additive over concatenation.
pub proof fn lemma_utf8_len_concat(a: Seq<char>, b: Seq<char>)
    ensures
        utf8_len(a + b) == utf8_len(a) + utf8_len(b),
    decreases b.len(),
{
    if b.len() == 0 {
        assert(a + b =~= a);
    } else {
        lemma_utf8_len_concat(a, b.drop_last());
        assert((a + b).drop_last() =~= a + b.drop_last());
    }
}

// ---------------------------------------------------------------------
// Conversions between `&str` / `String` and character vectors
// ---------------------------------------------------------------------

/// The characters of a string slice, in order.
pub fn chars_of(s: &str) -> (r: Vec<char>)
    ensures
        r@ == s@,
{
    let mut r: Vec<char> = Vec::new();
    for c in it: s.chars()
        invariant
            r@ == it.seq().take(it.index() as int),
    {
        r.push(c);
    }
    r
}

/// A string holding the given characters in order.
pub fn string_of(s: &[char]) -> (r: String)
    ensures
        r@ == s@,
{
    let mut r = String::new();
    let mut i: usize = 0;
    while i < s.len()
        invariant
            i <= s@.len(),
            r@ == s@.take(i as int),
        decreases s.len() - i,
    {
        push_char(&mut r, s[i]);
        assert(s@.take(i + 1) =~= s@.take(i as int).push(s@[i as int]));
        i = i + 1;
    }
    assert(s@.take(i as int) =~= s@);
    r
}

/// A string holding the characters of a string slice.
pub fn string_from(s: &str) -> (r: String)
    ensures
        r@ == s@,
{
    let v = chars_of(s);
    string_of(v.as_slice())
}

/// Appends characters to a vector.
pub fn extend_chars(out: &mut Vec<char>, s: &[char])
    ensures
        final(out)@ == old(out)@ + s@,
{
    let mut i: usize = 0;
    while i < s.len()
        invariant
            i <= s@.len(),
            out@ == old(out)@ + s@.take(i as int),
        decreases s.len() - i,
    {
        out.push(s[i]);
        assert(s@.take(i + 1) =~= s@.take(i as int).push(s@[i as int]));
        i = i + 1;
    }
    assert(s@.take(i as int) =~= s@);
}

/// Appends the characters of a string slice to a vector.
pub fn extend_str(out: &mut Vec<char>, s: &str)
    ensures
        final(out)@ == old(out)@ + s@,
{
    let v = chars_of(s);
    extend_chars(out, v.as_slice());
}

// ---------------------------------------------------------------------
// Whitespace words (`str::split_whitespace`) and joining
// ---------------------------------------------------------------------

/// Length of the run of non-whitespace characters at the start of `s`.
pub open spec fn word_len(s: Seq<char>) -> nat
    decreases s.len(),
{
    if s.len() == 0 || is_ws(s[0]) {
        0
    } else {
        1 + word_len(s.drop_first())
    }
}

pub proof fn lemma_word_len_bound(s: Seq<char>)
    ensures
        word_len(s) <= s.len(),
        s.len() > 0 && !is_ws(s[0]) ==> word_len(s) >= 1,
    decreases s.len(),
{
    if s.len() > 0 && !is_ws(s[0]) {
        lemma_word_len_bound(s.drop_first());
    }
}

#[via_fn]
proof fn words_decreases(s: Seq<char>) {
    lemma_word_len_bound(s);
}

/// The whitespace-separated words of `s`, as `str::split_whitespace` yields them.
pub open spec fn words(s: Seq<char>) -> Seq<Seq<char>>
    decreases s.len(),
    via words_decreases
{
    if s.len() == 0 {
        seq![]
    } else if is_ws(s[0]) {
        words(s.drop_first())
    } else {
        seq![s.take(word_len(s) as int)] + words(s.skip(word_len(s) as int))
    }
}

/// `parts` joined with `sep` between consecutive parts (`[T]::join`).
pub open spec fn join(parts: Seq<Seq<char>>, sep: Seq<char>) -> Seq<char>
    decreases parts.len(),
{
    if parts.len() == 0 {
        seq![]
    } else if parts.len() == 1 {
        parts[0]
    } else {
        join(parts.drop_last(), sep) + sep + parts.last()
    }
}

/// Whitespace runs collapsed to one space, leading and trailing whitespace
/// removed: `split_whitespace().collect::<Vec<_>>().join(" ")`.
pub open spec fn collapse_ws(s: Seq<char>) -> Seq<char> {
    join(words(s), seq![' '])
}

pub proof fn lemma_join_push(parts: Seq<Seq<char>>, w: Seq<char>, sep: Seq<char>)
    ensures
        join(parts.push(w), sep) == if parts.len() == 0 {
            w
        } else {
            join(parts, sep) + sep + w
        },
{
    assert(parts.push(w).drop_last() =~= parts);
    if parts.len() == 0 {
        assert(parts.push(w)[0] == w);
    }
}

/// A join starts with its first part and ends with its last.
pub proof fn lemma_join_ends(parts: Seq<Seq<char>>, sep: Seq<char>)
    requires
        parts.len() > 0,
    ensures
        parts[0].is_prefix_of(join(parts, sep)),
        join(parts, sep).len() >= parts.last().len(),
        join(parts, sep).skip(join(parts, sep).len() - parts.last().len()) == parts.last(),
    decreases parts.len(),
{
    let j = join(parts, sep);
    if parts.len() == 1 {
        assert(j == parts[0]);
        assert(j.skip(0) =~= j);
    } else {
        let init = parts.drop_last();
        lemma_join_ends(init, sep);
        assert(init[0] == parts[0]);
        let ji = join(init, sep);
        assert(j == ji + sep + parts.last());
        assert(j.skip(j.len() - parts.last().len()) =~= parts.last());
        assert forall|k: int| 0 <= k < parts[0].len() implies j[k] == parts[0][k] by {
            assert(ji[k] == parts[0][k]);
        }
    }
}

/// Every character of `s` has property `p`.
pub open spec fn all_chars(s: Seq<char>, p: spec_fn(char) -> bool) -> bool {
    forall|i: int| 0 <= i < s.len() ==> p(#[trigger] s[i])
}

proof fn lemma_words_all_chars(s: Seq<char>, p: spec_fn(char) -> bool)
    requires
        all_chars(s, p),
    ensures
        forall|k: int| 0 <= k < words(s).len() ==> all_chars(#[trigger] words(s)[k], p),
    decreases s.len(),
{
    if s.len() == 0 {
        assert(words(s).len() == 0);
    } else if is_ws(s[0]) {
        let t = s.drop_first();
        assert forall|i: int| 0 <= i < t.len() implies p(#[trigger] t[i]) by {
            assert(t[i] == s[i + 1]);
        }
        lemma_words_all_chars(t, p);
        assert(words(s) == words(t));
    } else {
        lemma_word_len_bound(s);
        let n = word_len(s) as int;
        let w = s.take(n);
        let rest = s.skip(n);
        assert forall|i: int| 0 <= i < rest.len() implies p(#[trigger] rest[i]) by {
            assert(rest[i] == s[i + n]);
        }
        lemma_words_all_chars(rest, p);
        let ws = words(s);
        assert(ws == seq![w] + words(rest));
        assert forall|k: int| 0 <= k < ws.len() implies all_chars(#[trigger] ws[k], p) by {
            if k == 0 {
                assert forall|i: int| 0 <= i < w.len() implies p(#[trigger] w[i]) by {
                    assert(w[i] == s[i]);
                }
            } else {
                assert(ws[k] == words(rest)[k - 1]);
            }
        }
    }
}

proof fn lemma_join_all_chars(parts: Seq<Seq<char>>, sep: Seq<char>, p: spec_fn(char) -> bool)
    requires
        forall|k: int| 0 <= k < parts.len() ==> all_chars(#[trigger] parts[k], p),
        all_chars(sep, p),
    ensures
        all_chars(join(parts, sep), p),
    decreases parts.len(),
{
    if parts.len() == 1 {
        assert(all_chars(parts[0], p));
    } else if parts.len() > 1 {
        let init = parts.drop_last();
        assert forall|k: int| 0 <= k < init.len() implies all_chars(#[trigger] init[k], p) by {
            assert(init[k] == parts[k]);
        }
        lemma_join_all_chars(init, sep, p);
        let a = join(init, sep);
        let last = parts.last();
        assert(all_chars(last, p));
        let j = join(parts, sep);
        assert(j == a + sep + last);
        assert forall|i: int| 0 <= i < j.len() implies p(#[trigger] j[i]) by {
            if i < a.len() {
                assert(j[i] == a[i]);
            } else if i < a.len() + sep.len() {
                assert(j[i] == sep[i - a.len()]);
            } else {
                assert(j[i] == last[i - a.len() - sep.len()]);
            }
        }
    }
}

/// Collapsing whitespace brings in no character but spaces: a property of
/// every character of `s`, that a space also has, holds of every character
/// of the result.
pub proof fn lemma_collapse_all_chars(s: Seq<char>, p: spec_fn(char) -> bool)
    requires
        all_chars(s, p),
        p(' '),
    ensures
        all_chars(collapse_ws(s), p),
{
    lemma_words_all_chars(s, p);
    assert(all_chars(seq![' '], p)) by {
        assert forall|i: int| 0 <= i < 1 implies p(#[trigger] seq![' '][i]) by {
        }
    }
    lemma_join_all_chars(words(s), seq![' '], p);
}

proof fn lemma_word_len_run(s: Seq<char>, i: int, j: int)
    requires
        0 <= i <= j <= s.len(),
        forall|k: int| i <= k < j ==> !is_ws(#[trigger] s[k]),
        j == s.len() || is_ws(s[j]),
    ensures
        word_len(s.skip(i)) == j - i,
    decreases j - i,
{
    if i < j {
        lemma_word_len_run(s, i + 1, j);
        assert(s.skip(i).drop_first() =~= s.skip(i + 1));
    } else {
        if j < s.len() {
            assert(s.skip(i)[0] == s[j]);
        }
    }
}

/// Joining a first part in front of others: the part, the separator, then
/// the join of the others.
pub proof fn lemma_join_cons(x: Seq<char>, rest: Seq<Seq<char>>, sep: Seq<char>)
    requires
        rest.len() > 0,
    ensures
        join(seq![x] + rest, sep) == x + sep + join(rest, sep),
    decreases rest.len(),
{
    let all = seq![x] + rest;
    if rest.len() == 1 {
        assert(all.drop_last() =~= seq![x]);
        assert(all.last() == rest[0]);
        assert(join(seq![x], sep) == x);
        assert(join(rest, sep) == rest[0]);
    } else {
        lemma_join_cons(x, rest.drop_last(), sep);
        assert(all.drop_last() =~= seq![x] + rest.drop_last());
        assert(all.last() == rest.last());
        assert(join(all, sep) =~= x + sep + join(rest, sep));
    }
}

/// A word: non-empty, without whitespace.
pub open spec fn is_word(w: Seq<char>) -> bool {
    w.len() > 0 && forall|k: int| 0 <= k < w.len() ==> !is_ws(#[trigger] w[k])
}

proof fn lemma_word_len_no_ws(s: Seq<char>)
    ensures
        forall|k: int| 0 <= k < word_len(s) ==> !is_ws(#[trigger] s[k]),
    decreases s.len(),
{
    if s.len() > 0 && !is_ws(s[0]) {
        lemma_word_len_bound(s);
        lemma_word_len_no_ws(s.drop_first());
        assert forall|k: int| 0 <= k < word_len(s) implies !is_ws(#[trigger] s[k]) by {
            if k > 0 {
                assert(s[k] == s.drop_first()[k - 1]);
            }
        }
    }
}

/// Every item of `words(s)` is a word.
pub proof fn lemma_words_are_words(s: Seq<char>)
    ensures
        forall|i: int| 0 <= i < words(s).len() ==> is_word(#[trigger] words(s)[i]),
    decreases s.len(),
{
    if s.len() > 0 {
        if is_ws(s[0]) {
            lemma_words_are_words(s.drop_first());
            assert(words(s) == words(s.drop_first()));
        } else {
            lemma_word_len_bound(s);
            lemma_word_len_no_ws(s);
            let n = word_len(s) as int;
            lemma_words_are_words(s.skip(n));
            let ws = words(s);
            assert forall|i: int| 0 <= i < ws.len() implies is_word(#[trigger] ws[i]) by {
                if i == 0 {
                    assert forall|k: int| 0 <= k < ws[0].len() implies !is_ws(#[trigger] ws[0][k]) by {
                        assert(ws[0][k] == s[k]);
                    }
                } else {
                    assert(ws[i] == words(s.skip(n))[i - 1]);
                }
            }
        }
    }
}

/// A word followed by nothing or by whitespace is the first word.
proof fn lemma_words_word_first(w: Seq<char>, t: Seq<char>)
    requires
        is_word(w),
        t.len() == 0 || is_ws(t[0]),
    ensures
        words(w + t) == seq![w] + words(t),
{
    let s = w + t;
    let n = w.len() as int;
    assert forall|k: int| 0 <= k < n implies !is_ws(#[trigger] s[k]) by {
        assert(s[k] == w[k]);
    }
    if t.len() > 0 {
        assert(s[n] == t[0]);
    }
    lemma_word_len_run(s, 0, n);
    assert(s.skip(0) =~= s);
    assert(!is_ws(s[0]));
    assert(s.take(n) =~= w);
    assert(s.skip(n) =~= t);
}

/// Words joined with single spaces split back into the same words.
pub proof fn lemma_words_of_join(ws: Seq<Seq<char>>)
    requires
        forall|i: int| 0 <= i < ws.len() ==> is_word(#[trigger] ws[i]),
    ensures
        words(join(ws, seq![' '])) == ws,
    decreases ws.len(),
{
    if ws.len() == 0 {
        assert(words(join(ws, seq![' '])) =~= ws);
    } else if ws.len() == 1 {
        assert(is_word(ws[0]));
        assert(ws[0] + Seq::<char>::empty() =~= ws[0]);
        lemma_words_word_first(ws[0], Seq::<char>::empty());
        assert(words(join(ws, seq![' '])) =~= ws);
    } else {
        let rest = ws.drop_first();
        assert forall|i: int| 0 <= i < rest.len() implies is_word(#[trigger] rest[i]) by {
            assert(rest[i] == ws[i + 1]);
        }
        lemma_words_of_join(rest);
        assert(ws =~= seq![ws[0]] + rest);
        lemma_join_cons(ws[0], rest, seq![' ']);
        let tail = seq![' '] + join(rest, seq![' ']);
        assert(is_word(ws[0]));
        lemma_words_word_first(ws[0], tail);
        assert(ws[0] + seq![' '] + join(rest, seq![' ']) =~= ws[0] + tail);
        assert(tail.drop_first() =~= join(rest, seq![' ']));
        assert(words(tail) == words(join(rest, seq![' '])));
    }
}

/// Collapsing whitespace twice is collapsing it once.
pub proof fn lemma_collapse_ws_idempotent(s: Seq<char>)
    ensures
        collapse_ws(collapse_ws(s)) == collapse_ws(s),
{
    lemma_words_are_words(s);
    lemma_words_of_join(words(s));
}

proof fn lemma_join_words_spacing(ws: Seq<Seq<char>>)
    requires
        ws.len() > 0,
        forall|i: int| 0 <= i < ws.len() ==> is_word(#[trigger] ws[i]),
    ensures
        ({
            let j = join(ws, seq![' ']);
            &&& !is_ws(j[0])
            &&& !is_ws(j[j.len() - 1])
            &&& forall|i: int| 0 <= i < j.len() && is_ws(#[trigger] j[i]) ==> j[i] == ' '
            &&& forall|i: int| 0 <= i < j.len() - 1 && is_ws(#[trigger] j[i]) ==> !is_ws(j[i + 1])
        }),
    decreases ws.len(),
{
    let j = join(ws, seq![' ']);
    assert(is_word(ws[0]));
    assert(is_word(ws.last()));
    lemma_join_ends(ws, seq![' ']);
    assert(j[0] == ws[0][0]);
    let l = ws.last();
    assert(j[j.len() - 1] == j.skip(j.len() - l.len())[l.len() - 1]);
    if ws.len() > 1 {
        let init = ws.drop_last();
        assert forall|i: int| 0 <= i < init.len() implies is_word(#[trigger] init[i]) by {
            assert(init[i] == ws[i]);
        }
        lemma_join_words_spacing(init);
        let a = join(init, seq![' ']);
        assert(j == a + seq![' '] + l);
        assert(a.len() > 0);
        assert forall|i: int| 0 <= i < j.len() && is_ws(#[trigger] j[i]) implies j[i] == ' ' by {
            if i < a.len() {
                assert(j[i] == a[i]);
            } else if i > a.len() {
                assert(j[i] == l[i - a.len() - 1]);
            }
        }
        assert forall|i: int| 0 <= i < j.len() - 1 && is_ws(#[trigger] j[i]) implies !is_ws(j[i + 1]) by {
            if i < a.len() - 1 {
                assert(j[i] == a[i]);
                assert(j[i + 1] == a[i + 1]);
            } else if i == a.len() - 1 {
                assert(j[i] == a[a.len() - 1]);
            } else if i == a.len() {
                assert(j[i + 1] == l[0]);
            } else {
                assert(j[i] == l[i - a.len() - 1]);
            }
        }
    } else {
        assert(j == ws[0]);
    }
}

/// The shape of collapsed whitespace: no whitespace at either end, no
/// whitespace but single spaces between words, and nothing left to collapse.
pub proof fn lemma_collapse_ws_shape(s: Seq<char>)
    ensures
        ({
            let r = collapse_ws(s);
            &&& collapse_ws(r) == r
            &&& r.len() > 0 ==> !is_ws(r[0]) && !is_ws(r[r.len() - 1])
            &&& forall|i: int| 0 <= i < r.len() && is_ws(#[trigger] r[i]) ==> r[i] == ' '
            &&& forall|i: int| 0 <= i < r.len() - 1 && is_ws(#[trigger] r[i]) ==> !is_ws(r[i + 1])
        }),
{
    lemma_collapse_ws_idempotent(s);
    lemma_words_are_words(s);
    if words(s).len() > 0 {
        lemma_join_words_spacing(words(s));
    }
}

/// The words of a sequence of characters (`split_whitespace`).
pub fn split_words(s: &[char]) -> (r: Vec<Vec<char>>)
    ensures
        r@.len() == words(s@).len(),
        forall|k: int| 0 <= k < r@.len() ==> (#[trigger] r@[k])@ == words(s@)[k],
{
    let mut r: Vec<Vec<char>> = Vec::new();
    let ghost mut done: Seq<Seq<char>> = seq![];
    let mut i: usize = 0;
    assert(s@.skip(0) =~= s@);
    while i < s.len()
        invariant
            i <= s@.len(),
            words(s@) == done + words(s@.skip(i as int)),
            r@.len() == done.len(),
            forall|k: int| 0 <= k < r@.len() ==> (#[trigger] r@[k])@ == done[k],
        decreases s.len() - i,
    {
        if is_whitespace(s[i]) {
            assert(s@.skip(i as int).drop_first() =~= s@.skip(i + 1));
            i = i + 1;
        } else {
            let start = i;
            let mut w: Vec<char> = Vec::new();
            while i < s.len() && !is_whitespace(s[i])
                invariant
                    start <= i <= s@.len(),
                    w@ == s@.subrange(start as int, i as int),
                    forall|k: int| start <= k < i ==> !is_ws(#[trigger] s@[k]),
                decreases s.len() - i,
            {
                w.push(s[i]);
                assert(s@.subrange(start as int, i + 1) =~= s@.subrange(start as int, i as int).push(s@[i as int]));
                i = i + 1;
            }
            proof {
                lemma_word_len_run(s@, start as int, i as int);
                let t = s@.skip(start as int);
                assert(t.take(i - start) =~= s@.subrange(start as int, i as int));
                assert(t.skip(i - start) =~= s@.skip(i as int));
                assert(done + words(t) =~= done.push(w@) + words(s@.skip(i as int)));
                done = done.push(w@);
            }
            r.push(w);
        }
    }
    proof {
        assert(s@.skip(i as int) =~= Seq::<char>::empty());
        assert(done + Seq::<Seq<char>>::empty() =~= done);
    }
    r
}

/// Joins character vectors with a separator.
pub fn join_chars(parts: &Vec<Vec<char>>, sep: &[char]) -> (r: Vec<char>)
    ensures
        r@ == join(parts@.map_values(|p: Vec<char>| p@), sep@),
{
    let ghost views = parts@.map_values(|p: Vec<char>| p@);
    let mut r: Vec<char> = Vec::new();
    let mut i: usize = 0;
    while i < parts.len()
        invariant
            i <= parts@.len(),
            views == parts@.map_values(|p: Vec<char>| p@),
            r@ == join(views.take(i as int), sep@),
        decreases parts.len() - i,
    {
        proof {
            lemma_join_push(views.take(i as int), views[i as int], sep@);
            assert(views.take(i as int).push(views[i as int]) =~= views.take(i + 1));
        }
        if i > 0 {
            extend_chars(&mut r, sep);
        }
        extend_chars(&mut r, parts[i].as_slice());
        i = i + 1;
    }
    assert(views.take(i as int) =~= views);
    r
}

/// Collapses whitespace runs into single spaces and trims both ends.
pub fn collapse_whitespace(s: &[char]) -> (r: Vec<char>)
    ensures
        r@ == collapse_ws(s@),
{
    let ws = split_words(s);
    let sep: Vec<char> = vec![' '];
    let r = join_chars(&ws, sep.as_slice());
    assert(ws@.map_values(|p: Vec<char>| p@) =~= words(s@));
    assert(sep@ =~= seq![' ']);
    r
}

// ---------------------------------------------------------------------
// Trimming (`str::trim`, `trim_start`, `trim_end`)
// ---------------------------------------------------------------------

/// Leading whitespace removed (`str::trim_start`).
pub open spec fn trim_start(s: Seq<char>) -> Seq<char>
    decreases s.len(),
{
    if s.len() > 0 && is_ws(s[0]) {
        trim_start(s.drop_first())
    } else {
        s
    }
}

/// Trailing whitespace removed (`str::trim_end`).
pub open spec fn trim_end(s: Seq<char>) -> Seq<char>
    decreases s.len(),
{
    if s.len() > 0 && is_ws(s.last()) {
        trim_end(s.drop_last())
    } else {
        s
    }
}

/// Whitespace removed at both ends (`str::trim`).
pub open spec fn trim(s: Seq<char>) -> Seq<char> {
    trim_end(trim_start(s))
}

pub fn trim_start_chars(s: &[char]) -> (r: Vec<char>)
    ensures
        r@ == trim_start(s@),
{
    let mut i: usize = 0;
    assert(s@.skip(0) =~= s@);
    while i < s.len() && is_whitespace(s[i])
        invariant
            i <= s@.len(),
            trim_start(s@.skip(i as int)) == trim_start(s@),
        decreases s.len() - i,
    {
        assert(s@.skip(i as int).drop_first() =~= s@.skip(i + 1));
        i = i + 1;
    }
    let mut r: Vec<char> = Vec::new();
    let mut k: usize = i;
    while k < s.len()
        invariant
            i <= k <= s@.len(),
            r@ == s@.subrange(i as int, k as int),
        decreases s.len() - k,
    {
        r.push(s[k]);
        assert(s@.subrange(i as int, k + 1) =~= s@.subrange(i as int, k as int).push(s@[k as int]));
        k = k + 1;
    }
    assert(s@.subrange(i as int, s@.len() as int) =~= s@.skip(i as int));
    r
}

pub fn trim_end_chars(s: &[char]) -> (r: Vec<char>)
    ensures
        r@ == trim_end(s@),
{
    let mut n: usize = s.len();
    assert(s@.take(s@.len() as int) =~= s@);
    while n > 0 && is_whitespace(s[n - 1])
        invariant
            n <= s@.len(),
            trim_end(s@.take(n as int)) == trim_end(s@),
        decreases n,
    {
        assert(s@.take(n as int).drop_last() =~= s@.take(n - 1));
        n = n - 1;
    }
    let mut r: Vec<char> = Vec::new();
    let mut k: usize = 0;
    while k < n
        invariant
            k <= n <= s@.len(),
            r@ == s@.take(k as int),
        decreases n - k,
    {
        r.push(s[k]);
        assert(s@.take(k + 1) =~= s@.take(k as int).push(s@[k as int]));
        k = k + 1;
    }
    r
}

pub fn trim_chars(s: &[char]) -> (r: Vec<char>)
    ensures
        r@ == trim(s@),
{
    let a = trim_start_chars(s);
    trim_end_chars(a.as_slice())
}

// ---------------------------------------------------------------------
// Searching
// ---------------------------------------------------------------------

/// `s` starts with `p`.
pub open spec fn starts_with(s: Seq<char>, p: Seq<char>) -> bool {
    p.len() <= s.len() && s.take(p.len() as int) == p
}

/// `s` ends with `p`.
pub open spec fn ends_with(s: Seq<char>, p: Seq<char>) -> bool {
    p.len() <= s.len() && s.skip(s.len() - p.len()) == p
}

/// `p` occurs in `s` at position `i`.
pub open spec fn occurs_at(s: Seq<char>, p: Seq<char>, i: int) -> bool {
    0 <= i && i + p.len() <= s.len() && s.subrange(i, i + p.len()) == p
}

/// First occurrence of `p` in `s` at or after `from` (`str::find` when `from` is 0).
pub open spec fn find_from(s: Seq<char>, p: Seq<char>, from: int) -> Option<int>
    decreases s.len() + 1 - from,
{
    if from < 0 || from + p.len() > s.len() {
        None
    } else if s.subrange(from, from + p.len()) == p {
        Some(from)
    } else {
        find_from(s, p, from + 1)
    }
}

/// First occurrence of `p` in `s` (`str::find`).
pub open spec fn find_first(s: Seq<char>, p: Seq<char>) -> Option<int> {
    find_from(s, p, 0)
}

/// Last index of a character (`str::rfind` with a `char` pattern).
pub open spec fn rfind_char(s: Seq<char>, c: char) -> Option<int>
    decreases s.len(),
{
    if s.len() == 0 {
        None
    } else if s.last() == c {
        Some(s.len() - 1)
    } else {
        rfind_char(s.drop_last(), c)
    }
}

/// What `find_from` returns: the least position at or after `from` where `p` occurs.
pub proof fn lemma_find_from(s: Seq<char>, p: Seq<char>, from: int)
    requires
        0 <= from,
    ensures
        find_from(s, p, from) matches Some(i) ==> from <= i && occurs_at(s, p, i)
            && forall|k: int| from <= k < i ==> !occurs_at(s, p, k),
        find_from(s, p, from) is None ==> forall|k: int| from <= k ==> !occurs_at(s, p, k),
    decreases s.len() + 1 - from,
{
    if from + p.len() > s.len() {
    } else if s.subrange(from, from + p.len()) == p {
    } else {
        lemma_find_from(s, p, from + 1);
    }
}

pub fn matches_at(s: &[char], p: &[char], i: usize) -> (b: bool)
    ensures
        b == occurs_at(s@, p@, i as int),
{
    if i > s.len() || p.len() > s.len() - i {
        return false;
    }
    let mut k: usize = 0;
    while k < p.len()
        invariant
            k <= p@.len(),
            i + p.len() <= s.len(),
            forall|m: int| 0 <= m < k ==> s@[i + m] == p@[m],
        decreases p.len() - k,
    {
        if s[i + k] != p[k] {
            assert(s@.subrange(i as int, i + p@.len())[k as int] != p@[k as int]);
            return false;
        }
        k = k + 1;
    }
    assert(s@.subrange(i as int, i + p@.len()) =~= p@);
    true
}

/// First position at or after `from` where `p` occurs in `s`.
pub fn find_chars_from(s: &[char], p: &[char], from: usize) -> (r: Option<usize>)
    ensures
        r matches Some(i) ==> find_from(s@, p@, from as int) == Some(i as int),
        r is None ==> find_from(s@, p@, from as int) is None,
{
    if p.len() > s.len() || from > s.len() - p.len() {
        return None;
    }
    let last = s.len() - p.len();
    let mut i = from;
    loop
        invariant
            from <= i <= last,
            last + p@.len() == s@.len(),
            find_from(s@, p@, i as int) == find_from(s@, p@, from as int),
        decreases last - i,
    {
        if matches_at(s, p, i) {
            return Some(i);
        }
        if i == last {
            assert(find_from(s@, p@, i + 1) is None);
            return None;
        }
        i = i + 1;
    }
}

/// First position where `p` occurs in `s` (`str::find`).
pub fn find_chars(s: &[char], p: &[char]) -> (r: Option<usize>)
    ensures
        r matches Some(i) ==> find_first(s@, p@) == Some(i as int),
        r is None ==> find_first(s@, p@) is None,
{
    find_chars_from(s, p, 0)
}

pub fn starts_with_chars(s: &[char], p: &[char]) -> (b: bool)
    ensures
        b == starts_with(s@, p@),
{
    let b = matches_at(s, p, 0);
    proof {
        if p@.len() <= s@.len() {
            assert(s@.subrange(0, p@.len() as int) =~= s@.take(p@.len() as int));
        }
    }
    b
}

pub fn ends_with_chars(s: &[char], p: &[char]) -> (b: bool)
    ensures
        b == ends_with(s@, p@),
{
    if p.len() > s.len() {
        return false;
    }
    let b = matches_at(s, p, s.len() - p.len());
    proof {
        assert(s@.subrange(s@.len() - p@.len(), s@.len() as int) =~= s@.skip(s@.len() - p@.len()));
    }
    b
}

/// Last index of `c` in `s`.
pub fn rfind_char_in(s: &[char], c: char) -> (r: Option<usize>)
    ensures
        r matches Some(i) ==> rfind_char(s@, c) == Some(i as int),
        r is None ==> rfind_char(s@, c) is None,
{
    let mut n: usize = s.len();
    assert(s@.take(n as int) =~= s@);
    while n > 0
        invariant
            n <= s@.len(),
            rfind_char(s@.take(n as int), c) == rfind_char(s@, c),
        decreases n,
    {
        if s[n - 1] == c {
            return Some(n - 1);
        }
        assert(s@.take(n as int).drop_last() =~= s@.take(n - 1));
        n = n - 1;
    }
    None
}

/// Sub-vector `s[from..to]`.
pub fn slice_chars(s: &[char], from: usize, to: usize) -> (r: Vec<char>)
    requires
        from <= to <= s@.len(),
    ensures
        r@ == s@.subrange(from as int, to as int),
{
    let mut r: Vec<char> = Vec::new();
    let mut k: usize = from;
    while k < to
        invariant
            from <= k <= to <= s@.len(),
            r@ == s@.subrange(from as int, k as int),
        decreases to - k,
    {
        r.push(s[k]);
        assert(s@.subrange(from as int, k + 1) =~= s@.subrange(from as int, k as int).push(s@[k as int]));
        k = k + 1;
    }
    r
}

// ---------------------------------------------------------------------
// Decimal numbers (`Display` for integers, `usize::from_str`)
// ---------------------------------------------------------------------

/// The ASCII digit for `d` (0..=9).
pub open spec fn digit_char(d: nat) -> char {
    (('0' as u32) + d) as char
}

/// Decimal digits of a natural number, most significant first.
pub open spec fn nat_digits(n: nat) -> Seq<char>
    decreases n,
{
    if n < 10 {
        seq![digit_char(n)]
    } else {
        nat_digits(n / 10).push(digit_char(n % 10))
    }
}

/// The decimal text of an integer, as `format!("{}", n)` writes it.
pub open spec fn int_text(n: int) -> Seq<char> {
    if n < 0 {
        seq!['-'] + nat_digits((-n) as nat)
    } else {
        nat_digits(n as nat)
    }
}

pub proof fn lemma_nat_digits_are_digits(n: nat)
    ensures
        nat_digits(n).len() >= 1,
        forall|k: int| 0 <= k < nat_digits(n).len() ==> is_ascii_digit(#[trigger] nat_digits(n)[k]),
    decreases n,
{
    if n >= 10 {
        lemma_nat_digits_are_digits(n / 10);
    }
}

fn digit_of(d: u64) -> (c: char)
    requires
        d < 10,
    ensures
        c == digit_char(d as nat),
{
    if d == 0 { '0' } else if d == 1 { '1' } else if d == 2 { '2' } else if d == 3 { '3' }
    else if d == 4 { '4' } else if d == 5 { '5' } else if d == 6 { '6' } else if d == 7 { '7' }
    else if d == 8 { '8' } else { '9' }
}

/// Appends the decimal digits of `n`.
pub fn push_digits(out: &mut Vec<char>, n: u64)
    ensures
        final(out)@ == old(out)@ + nat_digits(n as nat),
    decreases n,
{
    if n >= 10 {
        push_digits(out, n / 10);
        out.push(digit_of(n % 10));
        proof {
            let a = old(out)@;
            assert(a + nat_digits(n as nat) =~= a + nat_digits((n / 10) as nat) + seq![digit_char((n % 10) as nat)]);
        }
    } else {
        out.push(digit_of(n));
        assert(old(out)@.push(digit_char(n as nat)) =~= old(out)@ + nat_digits(n as nat));
    }
}

/// Appends the decimal text of a signed integer.
pub fn push_i64(out: &mut Vec<char>, n: i64)
    ensures
        final(out)@ == old(out)@ + int_text(n as int),
{
    if n < 0 {
        out.push('-');
        let m: u64 = (0i128 - (n as i128)) as u64;
        push_digits(out, m);
        assert(old(out)@.push('-') + nat_digits(m as nat) =~= old(out)@ + int_text(n as int));
    } else {
        push_digits(out, n as u64);
    }
}

/// Appends the decimal text of an unsigned integer.
pub fn push_usize(out: &mut Vec<char>, n: usize)
    ensures
        final(out)@ == old(out)@ + int_text(n as int),
{
    push_digits(out, n as u64);
}

/// Numeric value of a sequence of ASCII digits.
pub open spec fn digits_value(d: Seq<char>) -> nat
    decreases d.len(),
{
    if d.len() == 0 {
        0
    } else {
        digits_value(d.drop_last()) * 10 + ((d.last() as u32) - ('0' as u32)) as nat
    }
}

/// All characters are ASCII digits.
pub open spec fn all_digits(d: Seq<char>) -> bool {
    forall|k: int| 0 <= k < d.len() ==> is_ascii_digit(#[trigger] d[k])
}

/// What `str::parse::<usize>` returns: an optional `+`, then one or more
/// ASCII digits whose value fits in `usize`.
pub open spec fn parse_usize(s: Seq<char>) -> Option<usize> {
    let d = if s.len() > 0 && s[0] == '+' { s.drop_first() } else { s };
    if d.len() > 0 && all_digits(d) && digits_value(d) <= usize::MAX {
        Some(digits_value(d) as usize)
    } else {
        None
    }
}

proof fn lemma_digits_value_monotone(d: Seq<char>, i: int, j: int)
    requires
        0 <= i <= j <= d.len(),
        all_digits(d),
    ensures
        digits_value(d.take(i)) <= digits_value(d.take(j)),
    decreases j - i,
{
    if i < j {
        lemma_digits_value_monotone(d, i, j - 1);
        assert(d.take(j).drop_last() =~= d.take(j - 1));
        assert(is_ascii_digit(d[j - 1]));
    }
}

/// Parses a decimal `usize` as `str::parse` does.
pub fn parse_usize_chars(s: &[char]) -> (r: Option<usize>)
    ensures
        r == parse_usize(s@),
{
    let start: usize = if s.len() > 0 && s[0] == '+' { 1 } else { 0 };
    let ghost d = if s@.len() > 0 && s@[0] == '+' { s@.drop_first() } else { s@ };
    assert(d =~= s@.skip(start as int));
    if start >= s.len() {
        return None;
    }
    let mut acc: u128 = 0;
    let mut i: usize = start;
    while i < s.len()
        invariant
            start <= i <= s@.len(),
            d =~= s@.skip(start as int),
            d == (if s@.len() > 0 && s@[0] == '+' { s@.drop_first() } else { s@ }),
            all_digits(d.take(i - start)),
            acc == digits_value(d.take(i - start)),
            acc <= usize::MAX,
        decreases s.len() - i,
    {
        let c = s[i];
        assert(d[i - start] == c);
        if !('0' <= c && c <= '9') {
            assert(!all_digits(d));
            return None;
        }
        let v: u128 = ((c as u32) - ('0' as u32)) as u128;
        assert(d.take(i + 1 - start).drop_last() =~= d.take(i - start));
        assert(d.take(i + 1 - start).last() == c);
        acc = acc * 10 + v;
        i = i + 1;
        assert(all_digits(d.take(i - start)));
        if acc > usize::MAX as u128 {
            proof {
                if all_digits(d) {
                    lemma_digits_value_monotone(d, i - start, d.len() as int);
                    assert(d.take(d.len() as int) =~= d);
                }
            }
            return None;
        }
    }
    assert(d.take(i - start) =~= d);
    Some(acc as usize)
}

// ---------------------------------------------------------------------
// Lines (`str::lines`)
// ---------------------------------------------------------------------

/// A line with one trailing carriage return removed, if present.
pub open spec fn strip_cr(l: Seq<char>) -> Seq<char> {
    if l.len() > 0 && l.last() == '\r' {
        l.drop_last()
    } else {
        l
    }
}

/// The lines of `s` as `str::lines` yields them: split after each `\n`,
/// a `\r` before the `\n` dropped, and no empty line after a final `\n`.
pub open spec fn lines_of(s: Seq<char>) -> Seq<Seq<char>>
    decreases s.len(),
{
    if s.len() == 0 {
        seq![]
    } else {
        match find_first(s, seq!['\n']) {
            Some(k) => if 0 <= k < s.len() {
                seq![strip_cr(s.take(k))] + lines_of(s.skip(k + 1))
            } else {
                seq![s]
            },
            None => seq![s],
        }
    }
}

pub fn split_lines(s: &[char]) -> (r: Vec<Vec<char>>)
    ensures
        r@.len() == lines_of(s@).len(),
        forall|k: int| 0 <= k < r@.len() ==> (#[trigger] r@[k])@ == lines_of(s@)[k],
{
    let mut r: Vec<Vec<char>> = Vec::new();
    let ghost mut done: Seq<Seq<char>> = seq![];
    let mut i: usize = 0;
    let nl: Vec<char> = vec!['\n'];
    assert(s@.skip(0) =~= s@);
    while i < s.len()
        invariant
            i <= s@.len(),
            nl@ == seq!['\n'],
            lines_of(s@) == done + lines_of(s@.skip(i as int)),
            r@.len() == done.len(),
            forall|k: int| 0 <= k < r@.len() ==> (#[trigger] r@[k])@ == done[k],
        decreases s.len() - i,
    {
        let ghost t = s@.skip(i as int);
        let f = find_chars_from(s, nl.as_slice(), i);
        proof {
            lemma_find_from(s@, seq!['\n'], i as int);
            lemma_find_from(t, seq!['\n'], 0);
            assert forall|k: int| 0 <= k implies occurs_at(t, seq!['\n'], k) == occurs_at(s@, seq!['\n'], k + i) by {
                if k + 1 <= t.len() {
                    assert(t.subrange(k, k + 1) =~= s@.subrange(k + i, k + i + 1));
                }
            }
        }
        match f {
            Some(j) => {
                let mut line = slice_chars(s, i, j);
                if line.len() > 0 && line[line.len() - 1] == '\r' {
                    line.pop();
                }
                proof {
                    assert(find_first(t, seq!['\n']) == Some(j - i)) by {
                        if find_first(t, seq!['\n']) is None {
                            assert(occurs_at(t, seq!['\n'], j - i));
                        } else {
                            let k = find_first(t, seq!['\n'])->0;
                            assert(!(k < j - i) || !occurs_at(s@, seq!['\n'], k + i));
                            assert(!(j - i < k) || !occurs_at(t, seq!['\n'], j - i));
                        }
                    }
                    assert(t.take(j - i) =~= s@.subrange(i as int, j as int));
                    assert(t.skip(j - i + 1) =~= s@.skip(j + 1));
                    assert(line@ == strip_cr(s@.subrange(i as int, j as int)));
                    assert(done + lines_of(t) =~= done.push(line@) + lines_of(s@.skip(j + 1)));
                    done = done.push(line@);
                }
                r.push(line);
                i = j + 1;
            },
            None => {
                let line = slice_chars(s, i, s.len());
                proof {
                    assert(find_first(t, seq!['\n']) is None) by {
                        if find_first(t, seq!['\n']) is Some {
                            let k = find_first(t, seq!['\n'])->0;
                            assert(occurs_at(s@, seq!['\n'], k + i));
                        }
                    }
                    assert(line@ =~= t);
                    assert(done + lines_of(t) =~= done.push(line@));
                    done = done.push(line@);
                }
                r.push(line);
                i = s.len();
                proof {
                    assert(s@.skip(i as int) =~= Seq::<char>::empty());
                    assert(done + Seq::<Seq<char>>::empty() =~= done);
                }
            },
        }
    }
    proof {
        assert(s@.skip(i as int) =~= Seq::<char>::empty());
        assert(done + Seq::<Seq<char>>::empty() =~= done);
    }
    r
}

} // verus!
