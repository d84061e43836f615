//! Finding the companion Markdown file of a PDF: Markdown files are indexed
//! by their lowercased stem, the first file found for a stem winning.
use vstd::prelude::*;

use crate::manifest::{first_with, is_first, lemma_first_with};
use crate::text::{chars_of, lowercase, rfind_char, rfind_char_in, slice_chars, string_of, to_lowercase};

verus! {

/// The stem of a file name whose extension is `md` (`Path::file_stem` when
/// `Path::extension` is `md`): the text before the last `.`, which must not
/// be empty.
pub open spec fn markdown_stem(name: Seq<char>) -> Option<Seq<char>> {
    match rfind_char(name, '.') {
        Some(i) => if 0 < i < name.len() && name.skip(i + 1) == "md"@ {
            Some(name.take(i))
        } else {
            None
        },
        None => None,
    }
}

/// The keys of an index.
pub open spec fn index_keys(index: Seq<(Seq<char>, Seq<char>)>) -> Seq<Seq<char>> {
    index.map_values(|e: (Seq<char>, Seq<char>)| e.0)
}

/// The index of (file name, path) entries found in walk order: for each
/// Markdown file, its lowercased stem and path, unless a file with the same
/// key came earlier.
pub open spec fn md_index(entries: Seq<(Seq<char>, Seq<char>)>) -> Seq<(Seq<char>, Seq<char>)>
    decreases entries.len(),
{
    if entries.len() == 0 {
        seq![]
    } else {
        let prev = md_index(entries.drop_last());
        let e = entries.last();
        match markdown_stem(e.0) {
            Some(stem) => if index_keys(prev).contains(lowercase(stem)) {
                prev
            } else {
                prev.push((lowercase(stem), e.1))
            },
            None => prev,
        }
    }
}

/// The path stored under `key`: that of its first entry.
pub open spec fn index_lookup(index: Seq<(Seq<char>, Seq<char>)>, key: Seq<char>) -> Option<Seq<char>> {
    if index_keys(index).contains(key) {
        Some(index[first_with(index_keys(index), key)].1)
    } else {
        None
    }
}

/// Pairs of strings as values.
pub open spec fn pair_views(v: Seq<(String, String)>) -> Seq<(Seq<char>, Seq<char>)> {
    v.map_values(|e: (String, String)| (e.0@, e.1@))
}

proof fn lemma_rfind_in_bounds(s: Seq<char>, c: char)
    ensures
        rfind_char(s, c) matches Some(i) ==> 0 <= i < s.len() && s[i] == c,
    decreases s.len(),
{
    if s.len() > 0 {
        lemma_rfind_in_bounds(s.drop_last(), c);
    }
}

/// The stem of a Markdown file name, if it is one.
fn markdown_stem_exec(name: &str) -> (r: Option<String>)
    ensures
        match r {
            Some(s) => markdown_stem(name@) == Some(s@),
            None => markdown_stem(name@) is None,
        },
{
    let v = chars_of(name);
    proof {
        reveal_strlit("md");
        lemma_rfind_in_bounds(v@, '.');
    }
    match rfind_char_in(v.as_slice(), '.') {
        Some(i) => {
            assert(rfind_char(v@, '.') == Some(i as int));
            if i > 0 && v.len() - i == 3 && v[i + 1] == 'm' && v[i + 2] == 'd' {
                assert(v@.skip(i + 1) =~= "md"@);
                let stem = slice_chars(v.as_slice(), 0, i);
                assert(stem@ =~= v@.take(i as int));
                Some(string_of(stem.as_slice()))
            } else {
                proof {
                    if 0 < i && v@.skip(i + 1) == "md"@ {
                        assert(v@.skip(i + 1).len() == 2);
                        assert(v@.skip(i + 1)[0] == v@[i + 1]);
                        assert(v@.skip(i + 1)[1] == v@[i + 2]);
                    }
                }
                None
            }
        },
        None => None,
    }
}

/// Whether the index already holds `key`.
fn index_has(index: &Vec<(String, String)>, key: &String) -> (r: bool)
    ensures
        r == index_keys(pair_views(index@)).contains(key@),
{
    let mut i: usize = 0;
    while i < index.len()
        invariant
            i <= index@.len(),
            forall|k: int| 0 <= k < i ==> index_keys(pair_views(index@))[k] != key@,
        decreases index.len() - i,
    {
        if index[i].0 == *key {
            assert(index_keys(pair_views(index@))[i as int] == key@);
            return true;
        }
        i = i + 1;
    }
    false
}

/// Indexes Markdown files, given as (file name, path) pairs in the order a
/// directory walk finds them, by their lowercased stem; the first file
/// found for a stem is kept. Each key occurs once. The index is a vector of
/// pairs rather than a `HashMap`: vstd specifies hash maps only for keys with
/// its key model, which `String` does not have.
pub fn index_markdown_files(entries: &[(String, String)]) -> (r: Vec<(String, String)>)
    ensures
        pair_views(r@) == md_index(pair_views(entries@)),
        index_keys(pair_views(r@)).no_duplicates(),
{
    let ghost es = pair_views(entries@);
    let mut index: Vec<(String, String)> = Vec::new();
    let mut i: usize = 0;
    while i < entries.len()
        invariant
            i <= entries@.len(),
            es == pair_views(entries@),
            pair_views(index@) == md_index(es.take(i as int)),
            index_keys(pair_views(index@)).no_duplicates(),
        decreases entries.len() - i,
    {
        proof {
            let t = es.take(i + 1);
            assert(t.drop_last() =~= es.take(i as int));
            assert(t.last() == es[i as int]);
        }
        let ghost before = pair_views(index@);
        match markdown_stem_exec(entries[i].0.as_str()) {
            Some(stem) => {
                let key = to_lowercase(stem.as_str());
                if !index_has(&index, &key) {
                    index.push((key, entries[i].1.clone()));
                    assert(pair_views(index@) =~= before.push((key@, es[i as int].1)));
                    assert(index_keys(pair_views(index@)) =~= index_keys(before).push(key@));
                }
            },
            None => {},
        }
        i = i + 1;
    }
    assert(es.take(i as int) =~= es);
    index
}

/// The companion Markdown file of a PDF: the path the index holds under the
/// PDF stem lowercased.
pub fn find_companion(pdf_stem: &str, index: &[(String, String)]) -> (r: Option<String>)
    ensures
        match r {
            Some(p) => index_lookup(pair_views(index@), lowercase(pdf_stem@)) == Some(p@),
            None => index_lookup(pair_views(index@), lowercase(pdf_stem@)) is None,
        },
{
    let key = to_lowercase(pdf_stem);
    let ghost keys = index_keys(pair_views(index@));
    let mut i: usize = 0;
    while i < index.len()
        invariant
            i <= index@.len(),
            keys == index_keys(pair_views(index@)),
            key@ == lowercase(pdf_stem@),
            forall|k: int| 0 <= k < i ==> keys[k] != key@,
        decreases index.len() - i,
    {
        if index[i].0 == key {
            proof {
                assert(keys[i as int] == key@);
                assert(is_first(keys, key@, i as int));
                lemma_first_with(keys, key@);
                assert(first_with(keys, key@) == i as int);
                assert(pair_views(index@)[i as int].1 == index@[i as int].1@);
                assert(keys.contains(key@));
                assert(key@ == lowercase(pdf_stem@));
            }
            let p = index[i].1.clone();
            assert(p@ == index@[i as int].1@);
            return Some(p);
        }
        i = i + 1;
    }
    None
}

/// The stem of a Markdown file name is everything before its final `.md`:
/// for every non-empty `n`, dots inside it included, `n.md` has stem `n`;
/// and a stem, when there is one, is non-empty and followed by `.md` alone.
pub proof fn lemma_markdown_stem_is_name_before_md(name: Seq<char>, n: Seq<char>)
    ensures
        n.len() > 0 ==> markdown_stem(n + ".md"@) == Some(n),
        markdown_stem(name) matches Some(s) ==> s.len() > 0 && name == s + ".md"@,
{
    reveal_strlit(".md");
    reveal_strlit("md");
    if n.len() > 0 {
        let f = n + ".md"@;
        let k = n.len() as int;
        assert(f.last() == 'd');
        assert(f.drop_last().last() == 'm');
        assert(f.drop_last().drop_last().last() == '.');
        assert(rfind_char(f.drop_last().drop_last(), '.') == Some(k));
        assert(rfind_char(f.drop_last(), '.') == Some(k));
        assert(rfind_char(f, '.') == Some(k));
        assert(f.skip(k + 1) =~= "md"@);
        assert(f.take(k) =~= n);
    }
    lemma_rfind_in_bounds(name, '.');
    if let Some(i) = rfind_char(name, '.') {
        if 0 < i < name.len() && name.skip(i + 1) == "md"@ {
            let sk = name.skip(i + 1);
            assert(sk.len() == 2);
            assert(name.len() == i + 3);
            let g = name.take(i) + ".md"@;
            assert(g.len() == name.len());
            assert forall|j: int| 0 <= j < name.len() implies name[j] == g[j] by {
                if j == i {
                    assert(g[j] == ".md"@[0]);
                } else if j > i {
                    assert(name[j] == sk[j - i - 1]);
                    assert(g[j] == ".md"@[j - i]);
                    assert("md"@[j - i - 1] == ".md"@[j - i]);
                }
            }
            assert(name =~= g);
        }
    }
}

/// A Markdown file `n.md` (n non-empty) is the companion of the PDF stem
/// `n` in any letter case: an index of that one file holds its path under
/// `n` lowercased.
pub proof fn lemma_single_markdown_file_found(n: Seq<char>, path: Seq<char>)
    requires
        n.len() > 0,
    ensures
        index_lookup(md_index(seq![(n + ".md"@, path)]), lowercase(n)) == Some(path),
{
    lemma_markdown_stem_is_name_before_md(seq![], n);
    let es = seq![(n + ".md"@, path)];
    assert(es.drop_last() =~= Seq::<(Seq<char>, Seq<char>)>::empty());
    assert(md_index(es.drop_last()) =~= Seq::<(Seq<char>, Seq<char>)>::empty());
    let idx = md_index(es);
    assert(idx =~= seq![(lowercase(n), path)]);
    let keys = index_keys(idx);
    assert(keys[0] == lowercase(n));
    assert(keys.contains(lowercase(n)));
    lemma_first_with(keys, lowercase(n));
    assert(is_first(keys, lowercase(n), 0));
}

} // verus!
