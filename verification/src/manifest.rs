//! The sync manifest: which Zotero ids each Markdown entry has imported, and
//! the database modification time seen at the last import.
use vstd::prelude::*;

use crate::dsl::generate::{ann_uuid, ann_uuid_exec, note_uuid, note_uuid_exec};
use crate::dsl::scan::string_views;
use crate::text::{chars_of, string_from, string_of};
use crate::zotero::types::{ZoteroAnnotation, ZoteroChildNote};

verus! {

// ---------------------------------------------------------------------
// The order of strings
// ---------------------------------------------------------------------

/// Strict lexicographic order on character sequences, characters compared
/// by scalar value (the order of `str`, whose UTF-8 bytes compare the same
/// way).
pub open spec fn lex_lt(a: Seq<char>, b: Seq<char>) -> bool
    decreases a.len(),
{
    if a.len() == 0 {
        b.len() > 0
    } else if b.len() == 0 {
        false
    } else if a[0] != b[0] {
        (a[0] as int) < (b[0] as int)
    } else {
        lex_lt(a.drop_first(), b.drop_first())
    }
}

/// No sequence is below itself.
pub proof fn lemma_lex_irreflexive(a: Seq<char>)
    ensures
        !lex_lt(a, a),
    decreases a.len(),
{
    if a.len() > 0 {
        lemma_lex_irreflexive(a.drop_first());
    }
}

/// Of two different sequences one is below the other, and never both.
pub proof fn lemma_lex_total(a: Seq<char>, b: Seq<char>)
    ensures
        a != b ==> (lex_lt(a, b) || lex_lt(b, a)),
        !(lex_lt(a, b) && lex_lt(b, a)),
    decreases a.len(),
{
    if a.len() > 0 && b.len() > 0 && a[0] == b[0] {
        lemma_lex_total(a.drop_first(), b.drop_first());
        if a != b {
            assert(a =~= seq![a[0]] + a.drop_first());
            assert(b =~= seq![b[0]] + b.drop_first());
        }
    } else if a.len() == 0 && b.len() == 0 {
        assert(a =~= b);
    }
}

/// The order is transitive.
pub proof fn lemma_lex_transitive(a: Seq<char>, b: Seq<char>, c: Seq<char>)
    requires
        lex_lt(a, b),
        lex_lt(b, c),
    ensures
        lex_lt(a, c),
    decreases a.len(),
{
    if a.len() > 0 && b.len() > 0 && c.len() > 0 && a[0] == b[0] && b[0] == c[0] {
        lemma_lex_transitive(a.drop_first(), b.drop_first(), c.drop_first());
    }
}

/// Every element is below each one after it.
pub open spec fn strictly_sorted(s: Seq<Seq<char>>) -> bool {
    forall|i: int, j: int| 0 <= i < j < s.len() ==> lex_lt(#[trigger] s[i], #[trigger] s[j])
}

/// Two strictly sorted sequences with the same elements are equal: the
/// sorted, duplicate-free form of a set of strings is unique.
pub proof fn lemma_sorted_unique(a: Seq<Seq<char>>, b: Seq<Seq<char>>)
    requires
        strictly_sorted(a),
        strictly_sorted(b),
        a.to_set() == b.to_set(),
    ensures
        a == b,
    decreases a.len(),
{
    if a.len() == 0 {
        if b.len() > 0 {
            assert(b.to_set().contains(b[0]));
        }
        assert(a =~= b);
    } else {
        assert(a.to_set().contains(a[0]));
        assert(b.to_set().contains(a[0]));
        let j = choose|j: int| 0 <= j < b.len() && b[j] == a[0];
        assert(b.len() > 0);
        assert(a.to_set().contains(b[0]));
        let i = choose|i: int| 0 <= i < a.len() && a[i] == b[0];
        if j > 0 {
            // b[0] < b[j] == a[0] <= a[i] == b[0]
            if i > 0 {
                lemma_lex_transitive(b[0], a[0], a[i]);
            }
            lemma_lex_irreflexive(b[0]);
        }
        assert(a[0] == b[0]);
        let a1 = a.drop_first();
        let b1 = b.drop_first();
        assert forall|x: Seq<char>| a1.to_set().contains(x) implies b1.to_set().contains(x) by {
            let k = choose|k: int| 0 <= k < a1.len() && a1[k] == x;
            assert(a[k + 1] == x);
            assert(b.to_set().contains(x));
            let m = choose|m: int| 0 <= m < b.len() && b[m] == x;
            if m == 0 {
                lemma_lex_irreflexive(a[0]);
            }
            assert(b1[m - 1] == x);
        }
        assert forall|x: Seq<char>| b1.to_set().contains(x) implies a1.to_set().contains(x) by {
            let k = choose|k: int| 0 <= k < b1.len() && b1[k] == x;
            assert(b[k + 1] == x);
            assert(a.to_set().contains(x));
            let m = choose|m: int| 0 <= m < a.len() && a[m] == x;
            if m == 0 {
                lemma_lex_irreflexive(b[0]);
            }
            assert(a1[m - 1] == x);
        }
        assert(a1.to_set() =~= b1.to_set());
        lemma_sorted_unique(a1, b1);
        assert(a =~= seq![a[0]] + a1);
        assert(b =~= seq![b[0]] + b1);
    }
}

/// Whether `a` comes before `b`.
fn lex_less(a: &[char], b: &[char]) -> (r: bool)
    ensures
        r == lex_lt(a@, b@),
{
    let mut i: usize = 0;
    assert(a@.skip(0) =~= a@);
    assert(b@.skip(0) =~= b@);
    while i < a.len() && i < b.len() && a[i] == b[i]
        invariant
            i <= a@.len(),
            i <= b@.len(),
            lex_lt(a@, b@) == lex_lt(a@.skip(i as int), b@.skip(i as int)),
        decreases a.len() - i,
    {
        proof {
            let sa = a@.skip(i as int);
            let sb = b@.skip(i as int);
            assert(sa.drop_first() =~= a@.skip(i + 1));
            assert(sb.drop_first() =~= b@.skip(i + 1));
        }
        i = i + 1;
    }
    proof {
        let sa = a@.skip(i as int);
        let sb = b@.skip(i as int);
        if i < a.len() {
            assert(sa[0] == a@[i as int]);
        }
        if i < b.len() {
            assert(sb[0] == b@[i as int]);
        }
    }
    if i == a.len() {
        i < b.len()
    } else if i == b.len() {
        false
    } else {
        a[i] < b[i]
    }
}

/// Puts `s` into a strictly sorted vector of strings unless it is already
/// there; the vector stays strictly sorted.
fn insert_sorted(ids: &mut Vec<String>, s: String)
    requires
        strictly_sorted(string_views(old(ids)@)),
    ensures
        strictly_sorted(string_views(final(ids)@)),
        string_views(final(ids)@).to_set() == string_views(old(ids)@).to_set().insert(s@),
{
    let ghost v = string_views(ids@);
    let sc = chars_of(s.as_str());
    let mut i: usize = 0;
    while i < ids.len()
        invariant
            i <= ids@.len(),
            v == string_views(ids@),
            sc@ == s@,
            forall|k: int| 0 <= k < i ==> lex_lt(#[trigger] v[k], s@),
        ensures
            i <= ids@.len(),
            v == string_views(ids@),
            forall|k: int| 0 <= k < i ==> lex_lt(#[trigger] v[k], s@),
            i < ids@.len() ==> !lex_lt(v[i as int], s@),
        decreases ids.len() - i,
    {
        let cur = chars_of(ids[i].as_str());
        if !lex_less(cur.as_slice(), sc.as_slice()) {
            break;
        }
        i = i + 1;
    }
    if i < ids.len() {
        let cur = chars_of(ids[i].as_str());
        if !lex_less(sc.as_slice(), cur.as_slice()) {
            proof {
                lemma_lex_total(v[i as int], s@);
                assert(v[i as int] == s@);
                assert(v.to_set().contains(v[i as int]));
                assert(v.to_set().insert(s@) =~= v.to_set());
            }
            return;
        }
    }
    ids.insert(i, s);
    proof {
        let w = string_views(ids@);
        assert(w =~= v.insert(i as int, s@));
        assert forall|p: int, q: int| 0 <= p < q < w.len() implies lex_lt(#[trigger] w[p], #[trigger] w[q]) by {
            if q < i {
            } else if q == i {
            } else if p < i {
                // w[p] < s < w[q]
                lemma_lex_total(v[i as int], s@);
                if q - 1 > i {
                    lemma_lex_transitive(s@, v[i as int], v[q - 1]);
                }
                lemma_lex_transitive(w[p], s@, w[q]);
            } else if p == i {
                lemma_lex_total(v[i as int], s@);
                if q - 1 > i {
                    lemma_lex_transitive(s@, v[i as int], v[q - 1]);
                }
            } else {
            }
        }
        assert(w.to_set() =~= v.to_set().insert(s@)) by {
            assert forall|x: Seq<char>| w.to_set().contains(x) implies v.to_set().insert(s@).contains(x) by {
                let k = choose|k: int| 0 <= k < w.len() && w[k] == x;
                if k < i {
                    assert(v[k] == x);
                } else if k > i {
                    assert(v[k - 1] == x);
                }
            }
            assert forall|x: Seq<char>| v.to_set().insert(s@).contains(x) implies w.to_set().contains(x) by {
                if x == s@ {
                    assert(w[i as int] == x);
                } else {
                    let k = choose|k: int| 0 <= k < v.len() && v[k] == x;
                    if k < i {
                        assert(w[k] == x);
                    } else {
                        assert(w[k + 1] == x);
                    }
                }
            }
        }
    }
}

// ---------------------------------------------------------------------
// The manifest
// ---------------------------------------------------------------------

/// The ids already imported into one Markdown entry.
#[derive(Clone, Debug, PartialEq)]
pub struct SyncEntryState {
    pub imported_ids: Vec<String>,
}

impl SyncEntryState {
    /// The imported ids as character sequences.
    pub open spec fn ids(&self) -> Seq<Seq<char>> {
        string_views(self.imported_ids@)
    }
}

impl Default for SyncEntryState {
    fn default() -> (s: Self)
        ensures
            s.imported_ids@.len() == 0,
    {
        SyncEntryState { imported_ids: Vec::new() }
    }
}

/// What is remembered between imports: the time of the last import, the
/// modification time of the Zotero database then, and per entry key the ids
/// imported into it. Each key stands in `entries` at most once (`wf`). The
/// entries are a vector of pairs rather than a `HashMap`: vstd specifies
/// hash maps only for keys with its key model, which `String` does not have.
#[derive(Clone, Debug, PartialEq)]
pub struct ZoteroSyncManifest {
    pub last_import: Option<String>,
    pub last_db_mtime: Option<u64>,
    pub entries: Vec<(String, SyncEntryState)>,
}

impl Default for ZoteroSyncManifest {
    fn default() -> (m: Self)
        ensures
            m.last_import is None,
            m.last_db_mtime is None,
            m.entries@.len() == 0,
    {
        ZoteroSyncManifest { last_import: None, last_db_mtime: None, entries: Vec::new() }
    }
}

/// Position `i` holds `key` and no earlier position does.
pub open spec fn is_first(keys: Seq<Seq<char>>, key: Seq<char>, i: int) -> bool {
    &&& 0 <= i < keys.len()
    &&& keys[i] == key
    &&& forall|j: int| 0 <= j < i ==> keys[j] != key
}

/// The first position holding `key` (meaningful when there is one).
pub open spec fn first_with(keys: Seq<Seq<char>>, key: Seq<char>) -> int {
    choose|i: int| is_first(keys, key, i)
}

/// A key that occurs has exactly one first position.
pub proof fn lemma_first_with(keys: Seq<Seq<char>>, key: Seq<char>)
    ensures
        keys.contains(key) ==> is_first(keys, key, first_with(keys, key)),
        forall|i: int| #[trigger] is_first(keys, key, i) ==> i == first_with(keys, key),
    decreases keys.len(),
{
    if keys.len() > 0 {
        let init = keys.drop_last();
        lemma_first_with(init, key);
        if init.contains(key) {
            let i = first_with(init, key);
            assert forall|j: int| 0 <= j < i implies keys[j] != key by {
                assert(init[j] == keys[j]);
            }
            assert(keys[i] == init[i]);
            assert(is_first(keys, key, i));
        } else if keys.last() == key {
            assert forall|j: int| 0 <= j < keys.len() - 1 implies keys[j] != key by {
                assert(init[j] == keys[j]);
            }
            assert(is_first(keys, key, keys.len() - 1));
        }
    }
    if keys.contains(key) {
        let k = choose|k: int| 0 <= k < keys.len() && keys[k] == key;
        if k < keys.len() - 1 {
            assert(keys.drop_last()[k] == key);
        }
        assert(exists|i: int| is_first(keys, key, i));
    }
    assert forall|i: int| #[trigger] is_first(keys, key, i) implies i == first_with(keys, key) by {
        let f = first_with(keys, key);
        assert(is_first(keys, key, f));
        if i < f {
        } else if f < i {
        }
    }
}

impl ZoteroSyncManifest {
    /// The entry keys in order.
    pub open spec fn keys(&self) -> Seq<Seq<char>> {
        self.entries@.map_values(|e: (String, SyncEntryState)| e.0@)
    }

    /// No key occurs twice.
    pub open spec fn wf(&self) -> bool {
        self.keys().no_duplicates()
    }

    /// The state stored under `key`: that of its first entry.
    pub open spec fn lookup(&self, key: Seq<char>) -> Option<SyncEntryState> {
        if self.keys().contains(key) {
            Some(self.entries@[first_with(self.keys(), key)].1)
        } else {
            None
        }
    }

    /// The position of the first entry under `key`.
    fn find_entry(&self, key: &String) -> (r: Option<usize>)
        ensures
            match r {
                Some(i) => is_first(self.keys(), key@, i as int),
                None => !self.keys().contains(key@),
            },
    {
        let mut i: usize = 0;
        while i < self.entries.len()
            invariant
                i <= self.entries@.len(),
                forall|j: int| 0 <= j < i ==> self.keys()[j] != key@,
            decreases self.entries.len() - i,
        {
            if self.entries[i].0 == *key {
                return Some(i);
            }
            i = i + 1;
        }
        None
    }

    /// The state stored under `key`, if any.
    pub fn get_entry(&self, key: &str) -> (r: Option<&SyncEntryState>)
        ensures
            match r {
                Some(e) => self.lookup(key@) == Some(*e),
                None => self.lookup(key@) is None,
            },
    {
        let k = string_from(key);
        match self.find_entry(&k) {
            Some(i) => {
                proof {
                    lemma_first_with(self.keys(), key@);
                }
                Some(&self.entries[i].1)
            },
            None => None,
        }
    }

    /// Stores `state` under the key found at `idx`, or under a new key at
    /// the end when there is none.
    fn put_entry(&mut self, idx: Option<usize>, key: String, state: SyncEntryState)
        requires
            match idx {
                Some(i) => is_first(old(self).keys(), key@, i as int),
                None => !old(self).keys().contains(key@),
            },
        ensures
            final(self).last_import == old(self).last_import,
            final(self).last_db_mtime == old(self).last_db_mtime,
            final(self).keys() == (if old(self).keys().contains(key@) {
                old(self).keys()
            } else {
                old(self).keys().push(key@)
            }),
            final(self).lookup(key@) == Some(state),
            forall|k: Seq<char>| k != key@ ==> #[trigger] final(self).lookup(k) == old(self).lookup(k),
            old(self).wf() ==> final(self).wf(),
    {
        let ghost old_keys = self.keys();
        let ghost kv = key@;
        proof {
            lemma_first_with(old_keys, kv);
        }
        match idx {
            Some(i) => {
                self.entries.set(i, (key, state));
                proof {
                    assert(self.keys() =~= old_keys);
                    lemma_first_with(old_keys, kv);
                    assert forall|k: Seq<char>| k != kv implies #[trigger] self.lookup(k) == old(self).lookup(k) by {
                        lemma_first_with(old_keys, k);
                        if old_keys.contains(k) {
                            assert(first_with(old_keys, k) != i);
                        }
                    }
                }
            },
            None => {
                self.entries.push((key, state));
                proof {
                    let nk = self.keys();
                    assert(nk =~= old_keys.push(kv));
                    assert(is_first(nk, kv, old_keys.len() as int));
                    lemma_first_with(nk, kv);
                    assert forall|k: Seq<char>| k != kv implies #[trigger] self.lookup(k) == old(self).lookup(k) by {
                        lemma_first_with(old_keys, k);
                        lemma_first_with(nk, k);
                        if old_keys.contains(k) {
                            let f = first_with(old_keys, k);
                            assert(is_first(nk, k, f));
                        } else {
                            assert forall|j: int| 0 <= j < nk.len() implies nk[j] != k by {
                                if j < old_keys.len() {
                                    assert(old_keys[j] == nk[j]);
                                }
                            }
                            assert(!nk.contains(k));
                        }
                    }
                    if old(self).wf() {
                        assert(nk.no_duplicates());
                    }
                }
            },
        }
    }

    /// Stores `state` under `key`, replacing what was stored there.
    pub fn insert_entry(&mut self, key: &str, state: SyncEntryState)
        ensures
            final(self).last_import == old(self).last_import,
            final(self).last_db_mtime == old(self).last_db_mtime,
            final(self).lookup(key@) == Some(state),
            forall|k: Seq<char>| k != key@ ==> #[trigger] final(self).lookup(k) == old(self).lookup(k),
            old(self).wf() ==> final(self).wf(),
    {
        let k = string_from(key);
        let idx = self.find_entry(&k);
        self.put_entry(idx, k, state);
    }
}

/// The path of the manifest file inside the Markdown directory: the
/// directory joined with `.zolit-sync.json` (no separator is added after an
/// empty directory or one that already ends in `/`).
pub open spec fn manifest_path_spec(md_dir: Seq<char>) -> Seq<char> {
    if md_dir.len() == 0 || md_dir.last() == '/' {
        md_dir + ".zolit-sync.json"@
    } else {
        md_dir + "/.zolit-sync.json"@
    }
}

/// Where the manifest of a Markdown directory is kept.
pub fn manifest_path(md_dir: &str) -> (r: String)
    ensures
        r@ == manifest_path_spec(md_dir@),
{
    let mut v = chars_of(md_dir);
    let n = v.len();
    if n == 0 || v[n - 1] == '/' {
        crate::text::extend_str(&mut v, ".zolit-sync.json");
    } else {
        crate::text::extend_str(&mut v, "/.zolit-sync.json");
    }
    string_of(v.as_slice())
}

/// Whether the Zotero database changed since the last import: true unless
/// both the current and the remembered modification time are known and
/// equal.
pub fn zotero_db_changed_since_last_import(
    current_mtime: Option<u64>,
    manifest: &ZoteroSyncManifest,
) -> (r: bool)
    ensures
        r == match (current_mtime, manifest.last_db_mtime) {
            (Some(current), Some(last)) => current != last,
            _ => true,
        },
{
    match (current_mtime, manifest.last_db_mtime) {
        (Some(current), Some(last)) => current != last,
        _ => true,
    }
}

/// The DSL ids of the given annotations and child notes.
pub open spec fn added_ids(anns: Seq<ZoteroAnnotation>, notes: Seq<ZoteroChildNote>) -> Set<Seq<char>> {
    Set::new(
        |x: Seq<char>|
            (exists|i: int| 0 <= i < anns.len() && x == ann_uuid(#[trigger] anns[i].item_id)) || (
            exists|i: int| 0 <= i < notes.len() && x == note_uuid(#[trigger] notes[i].item_id)),
    )
}

/// The ids remembered under `key`, none when it has no entry.
pub open spec fn prior_ids(m: ZoteroSyncManifest, key: Seq<char>) -> Seq<Seq<char>> {
    match m.lookup(key) {
        Some(st) => st.ids(),
        None => seq![],
    }
}

/// `new` is `old` after recording `anns` and `notes` under `key`: the times
/// are kept, a missing key is appended, other entries keep their state, and
/// the entry's ids become the strictly sorted union of its prior ids and the
/// new ones.
pub open spec fn entry_updated(
    old: ZoteroSyncManifest,
    new: ZoteroSyncManifest,
    key: Seq<char>,
    anns: Seq<ZoteroAnnotation>,
    notes: Seq<ZoteroChildNote>,
) -> bool {
    &&& new.last_import == old.last_import
    &&& new.last_db_mtime == old.last_db_mtime
    &&& new.keys() == (if old.keys().contains(key) {
        old.keys()
    } else {
        old.keys().push(key)
    })
    &&& forall|k: Seq<char>| k != key ==> #[trigger] new.lookup(k) == old.lookup(k)
    &&& new.lookup(key) is Some
    &&& strictly_sorted(new.lookup(key).unwrap().ids())
    &&& new.lookup(key).unwrap().ids().to_set() == prior_ids(old, key).to_set() + added_ids(anns, notes)
    &&& old.wf() ==> new.wf()
}

/// Recording the same annotations and notes a second time changes nothing:
/// the manifest after two updates equals, entry by entry, the manifest after
/// one.
pub proof fn lemma_update_idempotent(
    m0: ZoteroSyncManifest,
    m1: ZoteroSyncManifest,
    m2: ZoteroSyncManifest,
    key: Seq<char>,
    anns: Seq<ZoteroAnnotation>,
    notes: Seq<ZoteroChildNote>,
)
    requires
        entry_updated(m0, m1, key, anns, notes),
        entry_updated(m1, m2, key, anns, notes),
    ensures
        m2.keys() == m1.keys(),
        m2.last_import == m1.last_import,
        m2.last_db_mtime == m1.last_db_mtime,
        forall|k: Seq<char>| k != key ==> #[trigger] m2.lookup(k) == m1.lookup(k),
        m2.lookup(key).unwrap().ids() == m1.lookup(key).unwrap().ids(),
{
    let a = m1.lookup(key).unwrap().ids();
    let b = m2.lookup(key).unwrap().ids();
    assert(m1.keys().contains(key)) by {
        if !m0.keys().contains(key) {
            assert(m1.keys()[m0.keys().len() as int] == key);
        }
    }
    assert(prior_ids(m1, key) == a);
    assert(b.to_set() =~= a.to_set());
    lemma_sorted_unique(b, a);
}

/// Records the given annotations and notes as imported into the entry
/// `entry_key`: its ids become the sorted, duplicate-free union of the ids it
/// had and the new ones. Other entries and the times stay as they were; an
/// entry that did not exist is added at the end.
pub fn update_manifest_entry(
    manifest: &mut ZoteroSyncManifest,
    entry_key: &str,
    annotations: &[ZoteroAnnotation],
    child_notes: &[ZoteroChildNote],
)
    ensures
        entry_updated(*old(manifest), *final(manifest), entry_key@, annotations@, child_notes@),
{
    let key = string_from(entry_key);
    let idx = manifest.find_entry(&key);
    proof {
        lemma_first_with(manifest.keys(), entry_key@);
    }
    let mut ids: Vec<String> = Vec::new();
    let ghost prior = prior_ids(*manifest, entry_key@);
    match idx {
        Some(e) => {
            let old_ids = &manifest.entries[e].1.imported_ids;
            assert(string_views(old_ids@) == prior);
            let mut j: usize = 0;
            while j < old_ids.len()
                invariant
                    j <= old_ids@.len(),
                    string_views(old_ids@) == prior,
                    strictly_sorted(string_views(ids@)),
                    string_views(ids@).to_set() == prior.take(j as int).to_set(),
                decreases old_ids.len() - j,
            {
                insert_sorted(&mut ids, old_ids[j].clone());
                proof {
                    let t0 = prior.take(j as int);
                    let t1 = prior.take(j + 1);
                    assert forall|x: Seq<char>| t1.to_set().contains(x) <==> t0.to_set().insert(prior[j as int]).contains(x) by {
                        if t1.to_set().contains(x) {
                            let k = choose|k: int| 0 <= k < t1.len() && t1[k] == x;
                            if k < j {
                                assert(t0[k] == x);
                            }
                        }
                        if t0.to_set().contains(x) {
                            let k = choose|k: int| 0 <= k < t0.len() && t0[k] == x;
                            assert(t1[k] == x);
                        }
                        if x == prior[j as int] {
                            assert(t1[j as int] == x);
                        }
                    }
                    assert(t1.to_set() =~= t0.to_set().insert(prior[j as int]));
                }
                j = j + 1;
            }
            assert(prior.take(j as int) =~= prior);
        },
        None => {
            assert(string_views(ids@).to_set() =~= prior.to_set());
        },
    }
    let ghost anns = annotations@;
    let ghost notes = child_notes@;
    let mut a: usize = 0;
    while a < annotations.len()
        invariant
            a <= anns.len(),
            anns == annotations@,
            strictly_sorted(string_views(ids@)),
            string_views(ids@).to_set() == prior.to_set() + added_ids(anns.take(a as int), seq![]),
        decreases annotations.len() - a,
    {
        let id = ann_uuid_exec(annotations[a].item_id);
        insert_sorted(&mut ids, string_of(id.as_slice()));
        proof {
            let before = added_ids(anns.take(a as int), seq![]);
            let after = added_ids(anns.take(a + 1), seq![]);
            assert forall|x: Seq<char>| after.contains(x) <==> before.insert(ann_uuid(anns[a as int].item_id)).contains(x) by {
                if after.contains(x) {
                    let i = choose|i: int| 0 <= i < a + 1 && x == ann_uuid(#[trigger] anns.take(a + 1)[i].item_id);
                    if i < a {
                        assert(anns.take(a as int)[i] == anns.take(a + 1)[i]);
                    }
                }
                if before.contains(x) {
                    let i = choose|i: int| 0 <= i < a && x == ann_uuid(#[trigger] anns.take(a as int)[i].item_id);
                    assert(anns.take(a as int)[i] == anns.take(a + 1)[i]);
                }
                if x == ann_uuid(anns[a as int].item_id) {
                    assert(anns.take(a + 1)[a as int] == anns[a as int]);
                }
            }
            assert(after =~= before.insert(ann_uuid(anns[a as int].item_id)));
        }
        a = a + 1;
    }
    assert(anns.take(a as int) =~= anns);
    assert(added_ids(anns, notes.take(0)) =~= added_ids(anns, seq![]));
    let mut n: usize = 0;
    while n < child_notes.len()
        invariant
            n <= notes.len(),
            anns == annotations@,
            notes == child_notes@,
            strictly_sorted(string_views(ids@)),
            string_views(ids@).to_set() == prior.to_set() + added_ids(anns, notes.take(n as int)),
        decreases child_notes.len() - n,
    {
        let id = note_uuid_exec(child_notes[n].item_id);
        insert_sorted(&mut ids, string_of(id.as_slice()));
        proof {
            let before = added_ids(anns, notes.take(n as int));
            let after = added_ids(anns, notes.take(n + 1));
            assert forall|x: Seq<char>| after.contains(x) <==> before.insert(note_uuid(notes[n as int].item_id)).contains(x) by {
                if after.contains(x) {
                    if !(exists|i: int| 0 <= i < anns.len() && x == ann_uuid(#[trigger] anns[i].item_id)) {
                        let i = choose|i: int| 0 <= i < n + 1 && x == note_uuid(#[trigger] notes.take(n + 1)[i].item_id);
                        if i < n {
                            assert(notes.take(n as int)[i] == notes.take(n + 1)[i]);
                        }
                    }
                }
                if before.contains(x) {
                    if !(exists|i: int| 0 <= i < anns.len() && x == ann_uuid(#[trigger] anns[i].item_id)) {
                        let i = choose|i: int| 0 <= i < n && x == note_uuid(#[trigger] notes.take(n as int)[i].item_id);
                        assert(notes.take(n as int)[i] == notes.take(n + 1)[i]);
                    }
                }
                if x == note_uuid(notes[n as int].item_id) {
                    assert(notes.take(n + 1)[n as int] == notes[n as int]);
                }
            }
            assert(after =~= before.insert(note_uuid(notes[n as int].item_id)));
        }
        n = n + 1;
    }
    assert(anns.take(a as int) =~= anns);
    assert(notes.take(n as int) =~= notes);
    let state = SyncEntryState { imported_ids: ids };
    manifest.put_entry(idx, key, state);
}

} // verus!
