//! Inserting annotation comments into markdown after their target lines.
use vstd::prelude::*;
use crate::text::{
    chars_of, ends_with, join, join_chars, lines_of, split_lines, string_of, trim, trim_chars,
    find_first, strip_cr, lemma_join_push, lemma_join_cons, lemma_find_from, occurs_at,
};

verus! {

/// `---`
pub open spec fn fm_delim() -> Seq<char> {
    seq!['-', '-', '-']
}

/// First line at or after `i` whose trimmed text is `---`.
pub open spec fn first_delim_from(ls: Seq<Seq<char>>, i: int) -> Option<int>
    decreases ls.len() - i,
{
    if i < 0 || i >= ls.len() {
        None
    } else if trim(ls[i]) == fm_delim() {
        Some(i)
    } else {
        first_delim_from(ls, i + 1)
    }
}

/// Index of the line closing YAML frontmatter: when the first line trims to
/// `---`, the next line that trims to `---`; `None` without frontmatter.
pub open spec fn frontmatter_end_spec(ls: Seq<Seq<char>>) -> Option<int> {
    if ls.len() > 0 && trim(ls[0]) == fm_delim() {
        first_delim_from(ls, 1)
    } else {
        None
    }
}

/// Detect the line index of the YAML frontmatter closing delimiter.
///
/// Returns `Some(line_index)` of the closing `---` if the file starts with a
/// `---` line, `None` if there is no frontmatter.
pub fn detect_frontmatter_end(lines: &[String]) -> (r: Option<usize>)
    ensures
        match r {
            Some(i) => frontmatter_end_spec(lines@.map_values(|l: String| l@)) == Some(i as int),
            None => frontmatter_end_spec(lines@.map_values(|l: String| l@)) is None,
        },
{
    let ghost ls = lines@.map_values(|l: String| l@);
    let delim = vec!['-', '-', '-'];
    assert(delim@ =~= fm_delim());
    if lines.len() == 0 {
        return None;
    }
    let first = trim_chars(chars_of(lines[0].as_str()).as_slice());
    if !chars_eq_slice(first.as_slice(), delim.as_slice()) {
        return None;
    }
    let mut i: usize = 1;
    while i < lines.len()
        invariant
            1 <= i <= lines@.len(),
            ls == lines@.map_values(|l: String| l@),
            trim(ls[0]) == fm_delim(),
            delim@ == fm_delim(),
            first_delim_from(ls, i as int) == first_delim_from(ls, 1),
        decreases lines.len() - i,
    {
        let t = trim_chars(chars_of(lines[i].as_str()).as_slice());
        if chars_eq_slice(t.as_slice(), delim.as_slice()) {
            return Some(i);
        }
        i = i + 1;
    }
    None
}

fn chars_eq_slice(a: &[char], b: &[char]) -> (r: bool)
    ensures
        r == (a@ == b@),
{
    if a.len() != b.len() {
        return false;
    }
    let mut i: usize = 0;
    while i < a.len()
        invariant
            i <= a@.len(),
            a@.len() == b@.len(),
            forall|k: int| 0 <= k < i ==> a@[k] == b@[k],
        decreases a.len() - i,
    {
        if a[i] != b[i] {
            return false;
        }
        i = i + 1;
    }
    assert(a@ =~= b@);
    true
}

/// An annotation to insert: (target line, original position, DSL text).
pub type Tagged = (usize, usize, Seq<char>);

/// `a` goes before `b` in insertion order: higher target line first, and for
/// the same line the later original position first.
pub open spec fn goes_before(a: Tagged, b: Tagged) -> bool {
    a.0 > b.0 || (a.0 == b.0 && a.1 > b.1)
}

/// `x` inserted into `s` before the first element it goes before.
pub open spec fn insert_desc(s: Seq<Tagged>, x: Tagged) -> Seq<Tagged>
    decreases s.len(),
{
    if s.len() == 0 {
        seq![x]
    } else if goes_before(x, s[0]) {
        seq![x] + s
    } else {
        seq![s[0]] + insert_desc(s.drop_first(), x)
    }
}

/// `s` ordered by descending (target line, original position).
pub open spec fn sort_desc(s: Seq<Tagged>) -> Seq<Tagged>
    decreases s.len(),
{
    if s.len() == 0 {
        seq![]
    } else {
        insert_desc(sort_desc(s.drop_last()), s.last())
    }
}

/// Annotations tagged with their original position.
pub open spec fn tag_positions(anns: Seq<(usize, Seq<char>)>) -> Seq<Tagged> {
    Seq::new(anns.len(), |i: int| (anns[i].0, i as usize, anns[i].1))
}

/// Lines after inserting `items` in order: each is put right after the
/// original line `max(target, fm)` (after the last original line when that
/// is past the end), preceded by a blank line. Items come in descending
/// (target, position) order, so each lands before those inserted earlier at
/// the same place and the result keeps ascending order.
pub open spec fn apply_inserts(lines: Seq<Seq<char>>, fm: int, items: Seq<Tagged>) -> Seq<Seq<char>>
    decreases items.len(),
{
    if items.len() == 0 {
        lines
    } else {
        let l = apply_inserts(lines, fm, items.drop_last());
        let it = items.last();
        let after = if it.0 >= fm { it.0 as int } else { fm };
        let pos = if after + 1 <= lines.len() { after + 1 } else { lines.len() as int };
        l.insert(pos, seq![]).insert(pos + 1, it.2)
    }
}

/// The lines of `content` with the annotations inserted, each after its
/// target line (never inside the frontmatter), annotations for one line in
/// their given order.
pub open spec fn inserted_lines(content: Seq<char>, anns: Seq<(usize, Seq<char>)>) -> Seq<Seq<char>> {
    let ls = lines_of(content);
    let fm = match frontmatter_end_spec(ls) {
        Some(e) => e,
        None => 0,
    };
    apply_inserts(ls, fm, sort_desc(tag_positions(anns)))
}

/// What `insert_annotations_into_markdown` returns.
pub open spec fn insert_spec(content: Seq<char>, anns: Seq<(usize, Seq<char>)>) -> Seq<char> {
    let res = join(inserted_lines(content, anns), seq!['\n']);
    if ends_with(content, seq!['\n']) && !ends_with(res, seq!['\n']) {
        res.push('\n')
    } else {
        res
    }
}

/// Views of (line, text) pairs.
pub open spec fn positioned_views(v: Seq<(usize, String)>) -> Seq<(usize, Seq<char>)> {
    v.map_values(|p: (usize, String)| (p.0, p.1@))
}

proof fn lemma_insert_desc_at(s: Seq<Tagged>, x: Tagged, j: int)
    requires
        0 <= j <= s.len(),
        forall|k: int| 0 <= k < j ==> !goes_before(x, #[trigger] s[k]),
        j == s.len() || goes_before(x, s[j]),
    ensures
        insert_desc(s, x) == s.take(j).push(x) + s.skip(j),
    decreases s.len(),
{
    if s.len() == 0 {
        assert(s.take(j).push(x) + s.skip(j) =~= seq![x]);
    } else if j == 0 {
        assert(s.take(0).push(x) + s.skip(0) =~= seq![x] + s);
    } else {
        let t = s.drop_first();
        assert forall|k: int| 0 <= k < j - 1 implies !goes_before(x, #[trigger] t[k]) by {
            assert(t[k] == s[k + 1]);
        }
        if j < s.len() {
            assert(t[j - 1] == s[j]);
        }
        lemma_insert_desc_at(t, x, j - 1);
        assert(seq![s[0]] + (t.take(j - 1).push(x) + t.skip(j - 1)) =~= s.take(j).push(x) + s.skip(j));
    }
}

fn goes_before_exec(a: &(usize, usize, Vec<char>), b: &(usize, usize, Vec<char>)) -> (r: bool)
    ensures
        r == goes_before((a.0, a.1, a.2@), (b.0, b.1, b.2@)),
{
    a.0 > b.0 || (a.0 == b.0 && a.1 > b.1)
}

pub open spec fn tagged_views(v: Seq<(usize, usize, Vec<char>)>) -> Seq<Tagged> {
    v.map_values(|t: (usize, usize, Vec<char>)| (t.0, t.1, t.2@))
}

/// Insert annotation DSL strings into markdown content at specified line
/// positions. Each entry is `(line_index, dsl_string)`; insertions happen
/// after the target line, separated by a blank line. Targets inside YAML
/// frontmatter are moved to just after it; annotations for the same line keep
/// their original order.
pub fn insert_annotations_into_markdown(content: &str, annotations_with_positions: Vec<(usize, String)>) -> (r: String)
    requires
        forall|k: int| 0 <= k < annotations_with_positions@.len() ==> (#[trigger] annotations_with_positions@[k]).0 < usize::MAX,
    ensures
        r@ == insert_spec(content@, positioned_views(annotations_with_positions@)),
{
    let ghost anns = positioned_views(annotations_with_positions@);
    let cs = chars_of(content);
    let line_vecs = split_lines(cs.as_slice());
    let mut lines: Vec<Vec<char>> = Vec::new();
    let mut lines_s: Vec<String> = Vec::new();
    let mut k: usize = 0;
    while k < line_vecs.len()
        invariant
            k <= line_vecs@.len(),
            line_vecs@.len() == lines_of(cs@).len(),
            forall|m: int| 0 <= m < line_vecs@.len() ==> (#[trigger] line_vecs@[m])@ == lines_of(cs@)[m],
            lines@.len() == k,
            lines_s@.len() == k,
            forall|m: int| 0 <= m < k ==> (#[trigger] lines@[m])@ == lines_of(cs@)[m],
            forall|m: int| 0 <= m < k ==> (#[trigger] lines_s@[m])@ == lines_of(cs@)[m],
        decreases line_vecs.len() - k,
    {
        let v = crate::text::slice_chars(line_vecs[k].as_slice(), 0, line_vecs[k].len());
        let s = string_of(v.as_slice());
        assert(v@ =~= line_vecs@[k as int]@);
        lines.push(v);
        lines_s.push(s);
        k = k + 1;
    }
    assert(lines@.map_values(|l: Vec<char>| l@) =~= lines_of(cs@));
    assert(lines_s@.map_values(|l: String| l@) =~= lines_of(cs@));
    let trailing_newline = cs.len() > 0 && cs[cs.len() - 1] == '\n';
    proof {
        if cs@.len() > 0 {
            assert(cs@.skip(cs@.len() - 1) =~= seq![cs@.last()]);
        }
    }
    let frontmatter_end = detect_frontmatter_end(lines_s.as_slice());
    let fm: usize = match frontmatter_end {
        Some(e) => e,
        None => 0,
    };
    // Tag each entry with its original order and sort descending.
    let mut sorted: Vec<(usize, usize, Vec<char>)> = Vec::new();
    let mut i: usize = 0;
    let n = annotations_with_positions.len();
    while i < n
        invariant
            i <= n,
            n == annotations_with_positions@.len(),
            anns == positioned_views(annotations_with_positions@),
            tagged_views(sorted@) == sort_desc(tag_positions(anns).take(i as int)),
            forall|m: int| 0 <= m < sorted@.len() ==> (#[trigger] sorted@[m]).0 < usize::MAX,
            forall|m: int| 0 <= m < n ==> (#[trigger] annotations_with_positions@[m]).0 < usize::MAX,
        decreases n - i,
    {
        let x = (annotations_with_positions[i].0, i, chars_of(annotations_with_positions[i].1.as_str()));
        let ghost xv: Tagged = (x.0, x.1, x.2@);
        assert(xv == tag_positions(anns)[i as int]);
        let mut j: usize = 0;
        while j < sorted.len() && !goes_before_exec(&x, &sorted[j])
            invariant
                j <= sorted@.len(),
                xv == (x.0, x.1, x.2@),
                forall|m: int| 0 <= m < j ==> !goes_before(xv, #[trigger] tagged_views(sorted@)[m]),
            decreases sorted.len() - j,
        {
            j = j + 1;
        }
        proof {
            let sv = tagged_views(sorted@);
            lemma_insert_desc_at(sv, xv, j as int);
            assert(tag_positions(anns).take(i + 1).drop_last() =~= tag_positions(anns).take(i as int));
        }
        let ghost old_sorted = sorted@;
        sorted.insert(j, x);
        proof {
            assert(tagged_views(sorted@) =~= tagged_views(old_sorted).take(j as int).push(xv) + tagged_views(old_sorted).skip(j as int));
            assert forall|m: int| 0 <= m < sorted@.len() implies (#[trigger] sorted@[m]).0 < usize::MAX by {
                if m < j {
                    assert(sorted@[m] == old_sorted[m]);
                } else if m > j {
                    assert(sorted@[m] == old_sorted[m - 1]);
                }
            }
        }
        i = i + 1;
    }
    assert(tag_positions(anns).take(n as int) =~= tag_positions(anns));
    // Bottom-up insertion.
    let ghost ls = lines_of(cs@);
    let ghost items = tagged_views(sorted@);
    let n0 = lines.len();
    let mut t: usize = 0;
    while t < sorted.len()
        invariant
            t <= sorted@.len(),
            n0 == ls.len(),
            lines@.len() == n0 + 2 * t,
            items == tagged_views(sorted@),
            forall|m: int| 0 <= m < sorted@.len() ==> (#[trigger] sorted@[m]).0 < usize::MAX,
            lines@.map_values(|l: Vec<char>| l@) == apply_inserts(ls, fm as int, items.take(t as int)),
        decreases sorted.len() - t,
    {
        let li = sorted[t].0;
        let after = if li >= fm { li } else { fm };
        let pos = if after < n0 { after + 1 } else { n0 };
        let dsl = crate::text::slice_chars(sorted[t].2.as_slice(), 0, sorted[t].2.len());
        assert(dsl@ =~= sorted@[t as int].2@);
        let ghost before = lines@.map_values(|l: Vec<char>| l@);
        lines.insert(pos, Vec::new());
        assert(pos < lines.len());
        lines.insert(pos + 1, dsl);
        proof {
            assert(items.take(t + 1).drop_last() =~= items.take(t as int));
            assert(lines@.map_values(|l: Vec<char>| l@) =~= before.insert(pos as int, seq![]).insert(pos + 1, items[t as int].2));
        }
        t = t + 1;
    }
    assert(items.take(t as int) =~= items);
    let nl = vec!['\n'];
    assert(nl@ =~= seq!['\n']);
    let mut result = join_chars(&lines, nl.as_slice());
    proof {
        assert(lines@.map_values(|l: Vec<char>| l@) == apply_inserts(ls, fm as int, sort_desc(tag_positions(anns))));
        match frontmatter_end_spec(lines_s@.map_values(|l: String| l@)) {
            Some(e) => {},
            None => {},
        }
        if result@.len() > 0 {
            assert(result@.skip(result@.len() - 1) =~= seq![result@.last()]);
        }
    }
    if trailing_newline && !(result.len() > 0 && result[result.len() - 1] == '\n') {
        result.push('\n');
    }
    string_of(result.as_slice())
}

// ---------------------------------------------------------------------
// With nothing to insert, the markdown comes back unchanged
// ---------------------------------------------------------------------

proof fn lemma_lines_nonempty(c: Seq<char>)
    requires
        c.len() > 0,
    ensures
        lines_of(c).len() > 0,
{
}

/// Splitting a text without carriage returns into lines and joining them with
/// newlines gives the text back, less one final newline.
pub proof fn lemma_lines_join_roundtrip(c: Seq<char>)
    requires
        forall|k: int| 0 <= k < c.len() ==> c[k] != '\r',
    ensures
        join(lines_of(c), seq!['\n']) == if ends_with(c, seq!['\n']) { c.drop_last() } else { c },
    decreases c.len(),
{
    if c.len() == 0 {
        return;
    }
    lemma_find_from(c, seq!['\n'], 0);
    match find_first(c, seq!['\n']) {
        Some(k) => {
            assert(c.subrange(k, k + 1)[0] == c[k]);
            assert(c[k] == '\n');
            let head = c.take(k);
            assert(strip_cr(head) == head) by {
                if head.len() > 0 {
                    assert(head.last() == c[k - 1]);
                }
            }
            let rest = c.skip(k + 1);
            if rest.len() == 0 {
                assert(k == c.len() - 1);
                assert(lines_of(rest) =~= Seq::<Seq<char>>::empty());
                assert(lines_of(c) == seq![strip_cr(head)] + lines_of(rest));
                assert(lines_of(c) =~= seq![head]);
                assert(c.skip(c.len() - 1) =~= seq!['\n']);
                assert(head =~= c.drop_last());
            } else {
                assert forall|m: int| 0 <= m < rest.len() implies rest[m] != '\r' by {
                    assert(rest[m] == c[k + 1 + m]);
                }
                lemma_lines_join_roundtrip(rest);
                lemma_lines_nonempty(rest);
                assert(lines_of(c) == seq![head] + lines_of(rest));
                lemma_join_cons(head, lines_of(rest), seq!['\n']);
                assert(c =~= head + seq!['\n'] + rest);
                if ends_with(rest, seq!['\n']) {
                    assert(rest.skip(rest.len() - 1)[0] == rest.last());
                    assert(c.skip(c.len() - 1) =~= seq![c.last()]);
                    assert(c.last() == rest.last());
                    assert(ends_with(c, seq!['\n']));
                    assert(c.drop_last() =~= head + seq!['\n'] + rest.drop_last());
                } else {
                    assert(rest.skip(rest.len() - 1) =~= seq![rest.last()]);
                    assert(c.skip(c.len() - 1) =~= seq![c.last()]);
                    assert(c.last() == rest.last());
                }
            }
        },
        None => {
            assert(lines_of(c) =~= seq![c]);
            if ends_with(c, seq!['\n']) {
                assert(c.subrange(c.len() - 1, c.len() as int) =~= seq!['\n']);
                assert(occurs_at(c, seq!['\n'], c.len() - 1));
            }
        },
    }
}

/// With no annotations to insert, markdown without carriage returns that does
/// not end in a blank line comes back exactly as it was.
pub proof fn lemma_insert_nothing_keeps_content(content: Seq<char>)
    requires
        forall|k: int| 0 <= k < content.len() ==> content[k] != '\r',
        !ends_with(content, seq!['\n', '\n']),
    ensures
        insert_spec(content, seq![]) == content,
{
    let anns: Seq<(usize, Seq<char>)> = seq![];
    assert(tag_positions(anns) =~= Seq::<Tagged>::empty());
    assert(sort_desc(tag_positions(anns)) =~= Seq::<Tagged>::empty());
    lemma_lines_join_roundtrip(content);
    let res = join(lines_of(content), seq!['\n']);
    if ends_with(content, seq!['\n']) {
        assert(content.skip(content.len() - 1)[0] == content.last());
        if content.len() >= 2 {
            assert(res.len() == content.len() - 1);
            assert(res.last() == content[content.len() - 2]);
            if ends_with(res, seq!['\n']) {
                assert(res.skip(res.len() - 1)[0] == res.last());
                assert(content.skip(content.len() - 2) =~= seq!['\n', '\n']);
            }
        } else {
            assert(res.len() == 0);
        }
        assert(res.push('\n') =~= content);
    }
}

// ---------------------------------------------------------------------
// Insertion keeps the text and adds every comment
// ---------------------------------------------------------------------

/// `f` places each line of `a` in `b`, keeping their order.
pub open spec fn embeds_by(a: Seq<Seq<char>>, b: Seq<Seq<char>>, f: spec_fn(int) -> int) -> bool {
    &&& forall|i: int| 0 <= i < a.len() ==> 0 <= #[trigger] f(i) < b.len() && b[f(i)] == a[i]
    &&& forall|i: int, j: int| 0 <= i < j < a.len() ==> #[trigger] f(i) < #[trigger] f(j)
}

/// `a` is a subsequence of `b`: its lines occur in `b` in the same order.
pub open spec fn is_subsequence(a: Seq<Seq<char>>, b: Seq<Seq<char>>) -> bool {
    exists|f: spec_fn(int) -> int| embeds_by(a, b, f)
}

proof fn lemma_insert_keeps_subsequence(a: Seq<Seq<char>>, b: Seq<Seq<char>>, p: int, x: Seq<char>)
    requires
        is_subsequence(a, b),
        0 <= p <= b.len(),
    ensures
        is_subsequence(a, b.insert(p, x)),
{
    let f = choose|f: spec_fn(int) -> int| embeds_by(a, b, f);
    let g = |i: int| if f(i) < p { f(i) } else { f(i) + 1 };
    let nb = b.insert(p, x);
    assert forall|i: int| 0 <= i < a.len() implies 0 <= #[trigger] g(i) < nb.len() && nb[g(i)] == a[i] by {
        assert(0 <= f(i) < b.len() && b[f(i)] == a[i]);
    }
    assert forall|i: int, j: int| 0 <= i < j < a.len() implies #[trigger] g(i) < #[trigger] g(j) by {
        assert(f(i) < f(j));
    }
    assert(embeds_by(a, nb, g));
}

proof fn lemma_apply_inserts(lines: Seq<Seq<char>>, fm: int, items: Seq<Tagged>)
    ensures
        apply_inserts(lines, fm, items).len() == lines.len() + 2 * items.len(),
        is_subsequence(lines, apply_inserts(lines, fm, items)),
        forall|k: int| 0 <= k < items.len() ==> apply_inserts(lines, fm, items).contains(#[trigger] items[k].2),
    decreases items.len(),
{
    if items.len() == 0 {
        let id = |i: int| i;
        assert(embeds_by(lines, lines, id));
    } else {
        let init = items.drop_last();
        lemma_apply_inserts(lines, fm, init);
        let l = apply_inserts(lines, fm, init);
        let it = items.last();
        let after = if it.0 >= fm { it.0 as int } else { fm };
        let pos = if after + 1 <= lines.len() { after + 1 } else { lines.len() as int };
        let l1 = l.insert(pos, seq![]);
        let l2 = l1.insert(pos + 1, it.2);
        assert(apply_inserts(lines, fm, items) == l2);
        lemma_insert_keeps_subsequence(lines, l, pos, seq![]);
        lemma_insert_keeps_subsequence(lines, l1, pos + 1, it.2);
        assert forall|k: int| 0 <= k < items.len() implies l2.contains(#[trigger] items[k].2) by {
            if k == items.len() - 1 {
                assert(l2[pos + 1] == it.2);
            } else {
                assert(init[k] == items[k]);
                assert(l.contains(init[k].2));
                let m = choose|m: int| 0 <= m < l.len() && l[m] == init[k].2;
                if m < pos {
                    assert(l2[m] == items[k].2);
                } else {
                    assert(l2[m + 2] == items[k].2);
                }
            }
        }
    }
}

proof fn lemma_insert_desc_contents(s: Seq<Tagged>, x: Tagged)
    ensures
        insert_desc(s, x).len() == s.len() + 1,
        insert_desc(s, x).contains(x),
        forall|k: int| 0 <= k < s.len() ==> insert_desc(s, x).contains(#[trigger] s[k]),
    decreases s.len(),
{
    let r = insert_desc(s, x);
    if s.len() == 0 {
        assert(r[0] == x);
    } else if goes_before(x, s[0]) {
        assert(r[0] == x);
        assert forall|k: int| 0 <= k < s.len() implies r.contains(#[trigger] s[k]) by {
            assert(r[k + 1] == s[k]);
        }
    } else {
        let t = s.drop_first();
        lemma_insert_desc_contents(t, x);
        let rt = insert_desc(t, x);
        assert(r == seq![s[0]] + rt);
        let m = choose|m: int| 0 <= m < rt.len() && rt[m] == x;
        assert(r[m + 1] == x);
        assert forall|k: int| 0 <= k < s.len() implies r.contains(#[trigger] s[k]) by {
            if k == 0 {
                assert(r[0] == s[0]);
            } else {
                assert(t[k - 1] == s[k]);
                let q = choose|q: int| 0 <= q < rt.len() && rt[q] == t[k - 1];
                assert(r[q + 1] == s[k]);
            }
        }
    }
}

proof fn lemma_sort_desc_contents(s: Seq<Tagged>)
    ensures
        sort_desc(s).len() == s.len(),
        forall|k: int| 0 <= k < s.len() ==> sort_desc(s).contains(#[trigger] s[k]),
    decreases s.len(),
{
    if s.len() > 0 {
        let init = s.drop_last();
        lemma_sort_desc_contents(init);
        let si = sort_desc(init);
        lemma_insert_desc_contents(si, s.last());
        assert forall|k: int| 0 <= k < s.len() implies sort_desc(s).contains(#[trigger] s[k]) by {
            if k < s.len() - 1 {
                assert(init[k] == s[k]);
                let q = choose|q: int| 0 <= q < si.len() && si[q] == init[k];
                assert(si.contains(si[q]));
            }
        }
    }
}

/// Inserting annotations loses nothing: every line of the text is still
/// there, in the same order, and every annotation's comment is added, with
/// one blank line before each, so the result has two more lines per
/// annotation.
pub proof fn lemma_insert_keeps_lines_and_adds_comments(content: Seq<char>, anns: Seq<(usize, Seq<char>)>)
    ensures
        is_subsequence(lines_of(content), inserted_lines(content, anns)),
        inserted_lines(content, anns).len() == lines_of(content).len() + 2 * anns.len(),
        forall|k: int| 0 <= k < anns.len() ==> inserted_lines(content, anns).contains(#[trigger] anns[k].1),
{
    let ls = lines_of(content);
    let fm = match frontmatter_end_spec(ls) {
        Some(e) => e,
        None => 0,
    };
    let tagged = tag_positions(anns);
    let sorted = sort_desc(tagged);
    lemma_sort_desc_contents(tagged);
    lemma_apply_inserts(ls, fm, sorted);
    let out = apply_inserts(ls, fm, sorted);
    assert forall|k: int| 0 <= k < anns.len() implies out.contains(#[trigger] anns[k].1) by {
        assert(tagged[k] == (anns[k].0, k as usize, anns[k].1));
        assert(sorted.contains(tagged[k]));
        let q = choose|q: int| 0 <= q < sorted.len() && sorted[q] == tagged[k];
        assert(out.contains(sorted[q].2));
    }
}

} // verus!
