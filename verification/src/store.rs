//! The in-memory ordered string-to-string map shared by both backends.
//!
//! The map keeps its entries in insertion order of first-seen key and holds
//! at most one value per key. Every operation is specified against the
//! sequence-of-pairs model returned by `view`.

use vstd::prelude::*;

verus! {

/// An entry as the specification sees it: the key's characters and the
/// value's characters.
pub type SpecEntry = (Seq<char>, Seq<char>);

/// The model of a list of owned entries: each pair seen as its characters.
pub open spec fn entries_view(v: Seq<(String, String)>) -> Seq<SpecEntry> {
    v.map_values(|p: (String, String)| (p.0@, p.1@))
}

/// No two entries share a key.
pub open spec fn distinct_keys(s: Seq<SpecEntry>) -> bool {
    forall|i: int, j: int|
        0 <= i < s.len() && 0 <= j < s.len() && i != j ==> s[i].0 != s[j].0
}

/// Some entry carries the key `k`.
pub open spec fn has_key(s: Seq<SpecEntry>, k: Seq<char>) -> bool {
    exists|i: int| 0 <= i < s.len() && s[i].0 == k
}

/// The enumeration position of the entry carrying `k`; meaningful only when
/// `has_key(s, k)` holds (and then unique whenever the keys are distinct).
pub open spec fn key_index(s: Seq<SpecEntry>, k: Seq<char>) -> int {
    choose|i: int| 0 <= i < s.len() && s[i].0 == k
}

/// The value stored under `k`; meaningful only when `has_key(s, k)` holds.
pub open spec fn value_of(s: Seq<SpecEntry>, k: Seq<char>) -> Seq<char> {
    s[key_index(s, k)].1
}

/// What a lookup of `k` returns.
pub open spec fn spec_get(s: Seq<SpecEntry>, k: Seq<char>) -> Option<Seq<char>> {
    if has_key(s, k) {
        Some(value_of(s, k))
    } else {
        None
    }
}

/// The effect of inserting or overwriting `k` with `v`: an existing entry is
/// overwritten in place, a fresh key is appended at the end.
pub open spec fn spec_set(s: Seq<SpecEntry>, k: Seq<char>, v: Seq<char>) -> Seq<SpecEntry> {
    if has_key(s, k) {
        s.update(key_index(s, k), (k, v))
    } else {
        s.push((k, v))
    }
}

/// The effect of deleting `k`: the entry is removed if present, otherwise
/// the map is unchanged.
pub open spec fn spec_remove(s: Seq<SpecEntry>, k: Seq<char>) -> Seq<SpecEntry> {
    if has_key(s, k) {
        s.remove(key_index(s, k))
    } else {
        s
    }
}

/// When the keys are distinct, `key_index` names exactly the position where
/// `k` was found.
pub proof fn lemma_key_index_unique(s: Seq<SpecEntry>, k: Seq<char>, i: int)
    requires
        distinct_keys(s),
        0 <= i < s.len(),
        s[i].0 == k,
    ensures
        key_index(s, k) == i,
{
    assert(has_key(s, k));
    let j = key_index(s, k);
    assert(0 <= j < s.len() && s[j].0 == k);
}

/// The local storage: an ordered mapping from string keys to string values.
pub struct LocalStorage {
    entries: Vec<(String, String)>,
}

impl View for LocalStorage {
    type V = Seq<SpecEntry>;

    closed spec fn view(&self) -> Seq<SpecEntry> {
        entries_view(self.entries@)
    }
}

impl LocalStorage {
    /// The store's invariant: keys are unique.
    pub open spec fn wf(&self) -> bool {
        distinct_keys(self@)
    }

    /// An empty store.
    pub fn new() -> (r: Self)
        ensures
            r@ == Seq::<SpecEntry>::empty(),
            r.wf(),
    {
        let r = LocalStorage { entries: Vec::new() };
        proof {
            assert(r@ =~= Seq::<SpecEntry>::empty());
        }
        r
    }

    /// The position of `key` among the entries, if it is present.
    fn find(&self, key: &str) -> (r: Option<usize>)
        ensures
            match r {
                Some(i) => i < self@.len() && self@[i as int].0 == key@,
                None => !has_key(self@, key@),
            },
    {
        let owned = key.to_owned();
        let n = self.entries.len();
        let mut i: usize = 0;
        while i < n
            invariant
                n == self.entries.len(),
                i <= n,
                owned@ == key@,
                forall|j: int| 0 <= j < i ==> self@[j].0 != key@,
            decreases n - i,
        {
            if self.entries[i].0 == owned {
                assert(self@[i as int].0 == key@);
                return Some(i);
            }
            i += 1;
        }
        None
    }

    /// The number of distinct keys.
    pub fn len(&self) -> (r: usize)
        ensures
            r == self@.len(),
    {
        self.entries.len()
    }

    /// The key at enumeration position `pos`, or nothing when `pos` is past
    /// the end.
    pub fn key(&self, pos: usize) -> (r: Option<String>)
        ensures
            pos < self@.len() ==> r is Some && r.unwrap()@ == self@[pos as int].0,
            pos >= self@.len() ==> r is None,
    {
        if pos < self.entries.len() {
            Some(self.entries[pos].0.clone())
        } else {
            None
        }
    }

    /// The value stored under `key`, or nothing when the key is absent.
    pub fn get(&self, key: &str) -> (r: Option<String>)
        requires
            self.wf(),
        ensures
            match r {
                Some(v) => has_key(self@, key@) && v@ == value_of(self@, key@),
                None => !has_key(self@, key@),
            },
            r is Some <==> spec_get(self@, key@) is Some,
    {
        match self.find(key) {
            Some(i) => {
                proof {
                    lemma_key_index_unique(self@, key@, i as int);
                }
                Some(self.entries[i].1.clone())
            },
            None => None,
        }
    }

    /// Inserts or overwrites the value for `key`. An existing key keeps its
    /// enumeration position; a fresh key is appended at the end.
    pub fn set(&mut self, key: &str, value: &str)
        requires
            old(self).wf(),
        ensures
            final(self)@ == spec_set(old(self)@, key@, value@),
            final(self).wf(),
    {
        let owned_key = key.to_owned();
        let owned_value = value.to_owned();
        match self.find(key) {
            Some(i) => {
                proof {
                    lemma_key_index_unique(self@, key@, i as int);
                }
                self.entries[i] = (owned_key, owned_value);
                proof {
                    assert(self@ =~= spec_set(old(self)@, key@, value@));
                    assert forall|p: int, q: int|
                        0 <= p < self@.len() && 0 <= q < self@.len() && p != q
                        implies self@[p].0 != self@[q].0 by {
                        assert(old(self)@[p].0 != old(self)@[q].0);
                    }
                }
            },
            None => {
                self.entries.push((owned_key, owned_value));
                proof {
                    assert(self@ =~= spec_set(old(self)@, key@, value@));
                    assert forall|p: int, q: int|
                        0 <= p < self@.len() && 0 <= q < self@.len() && p != q
                        implies self@[p].0 != self@[q].0 by {
                        if p < old(self)@.len() && q < old(self)@.len() {
                            assert(old(self)@[p].0 != old(self)@[q].0);
                        }
                    }
                }
            },
        }
    }

    /// Deletes `key` if present; a no-op when it is absent.
    pub fn remove(&mut self, key: &str)
        requires
            old(self).wf(),
        ensures
            final(self)@ == spec_remove(old(self)@, key@),
            final(self).wf(),
    {
        match self.find(key) {
            Some(i) => {
                proof {
                    lemma_key_index_unique(self@, key@, i as int);
                }
                self.entries.remove(i);
                proof {
                    assert(self@ =~= spec_remove(old(self)@, key@));
                    assert forall|p: int, q: int|
                        0 <= p < self@.len() && 0 <= q < self@.len() && p != q
                        implies self@[p].0 != self@[q].0 by {
                        let s = spec_remove(old(self)@, key@);
                        let p0: int = if p < i { p } else { p + 1 };
                        let q0: int = if q < i { q } else { q + 1 };
                        assert(old(self)@[p0].0 != old(self)@[q0].0);
                    }
                }
            },
            None => {},
        }
    }

    /// Deletes every entry.
    pub fn clear(&mut self)
        ensures
            final(self)@ == Seq::<SpecEntry>::empty(),
            final(self).wf(),
    {
        self.entries.clear();
        proof {
            assert(self@ =~= Seq::<SpecEntry>::empty());
        }
    }
}

/// One `set` keeps the keys distinct, makes its key present, leaves its value
/// behind, and grows the length exactly when the key was fresh.
pub proof fn lemma_set_effect(s: Seq<SpecEntry>, k: Seq<char>, v: Seq<char>)
    requires
        distinct_keys(s),
    ensures
        distinct_keys(spec_set(s, k, v)),
        has_key(spec_set(s, k, v), k),
        spec_get(spec_set(s, k, v), k) == Some(v),
        spec_set(s, k, v).len() == if has_key(s, k) {
            s.len()
        } else {
            s.len() + 1
        },
{
    let s1 = spec_set(s, k, v);
    if has_key(s, k) {
        let i = key_index(s, k);
        assert(0 <= i < s.len() && s[i].0 == k);
        assert(forall|j: int| 0 <= j < s1.len() ==> s1[j].0 == s[j].0);
        assert(distinct_keys(s1));
        assert(s1[i].0 == k);
        lemma_key_index_unique(s1, k, i);
    } else {
        let i = s.len() as int;
        assert(s1[i].0 == k);
        assert forall|p: int, q: int|
            0 <= p < s1.len() && 0 <= q < s1.len() && p != q implies s1[p].0 != s1[q].0 by {
            if p < s.len() && q < s.len() {
                assert(s[p].0 != s[q].0);
            } else if p == i {
                assert(s1[q].0 == s[q].0);
                assert(!has_key(s, k));
                assert(s[q].0 != k);
            } else {
                assert(s1[p].0 == s[p].0);
                assert(s[p].0 != k);
            }
        }
        lemma_key_index_unique(s1, k, i);
    }
}

/// Overwriting: setting the same key twice leaves the length as after the
/// first set, and the second value wins.
pub proof fn lemma_set_overwrite(s: Seq<SpecEntry>, k: Seq<char>, v1: Seq<char>, v2: Seq<char>)
    requires
        distinct_keys(s),
    ensures
        spec_set(spec_set(s, k, v1), k, v2).len() == spec_set(s, k, v1).len(),
        spec_get(spec_set(spec_set(s, k, v1), k, v2), k) == Some(v2),
{
    lemma_set_effect(s, k, v1);
    lemma_set_effect(spec_set(s, k, v1), k, v2);
}

/// Removing an absent key changes nothing at all.
pub proof fn lemma_remove_absent(s: Seq<SpecEntry>, k: Seq<char>)
    requires
        !has_key(s, k),
    ensures
        spec_remove(s, k) == s,
{
}

/// After a clear, every lookup comes back empty.
pub proof fn lemma_clear_get(k: Seq<char>)
    ensures
        spec_get(Seq::<SpecEntry>::empty(), k) is None,
{
}

/// The store that a list of `set` calls, applied in order, builds on top of
/// `s`.
pub open spec fn apply_sets(s: Seq<SpecEntry>, ops: Seq<SpecEntry>) -> Seq<SpecEntry>
    decreases ops.len(),
{
    if ops.len() == 0 {
        s
    } else {
        apply_sets(spec_set(s, ops[0].0, ops[0].1), ops.drop_first())
    }
}

/// Setting keys that are distinct and all fresh appends them in order.
proof fn lemma_apply_sets_fresh(s: Seq<SpecEntry>, ops: Seq<SpecEntry>)
    requires
        distinct_keys(ops),
        forall|i: int| 0 <= i < ops.len() ==> !has_key(s, #[trigger] ops[i].0),
    ensures
        apply_sets(s, ops) == s + ops,
    decreases ops.len(),
{
    if ops.len() == 0 {
        assert(s + ops =~= s);
    } else {
        let k = ops[0].0;
        let v = ops[0].1;
        assert(!has_key(s, ops[0].0));
        let s1 = spec_set(s, k, v);
        assert(s1 == s.push((k, v)));
        assert((k, v) == ops[0]);
        let ops1 = ops.drop_first();
        assert(forall|i: int| 0 <= i < ops1.len() ==> ops1[i] == ops[i + 1]);
        assert(distinct_keys(ops1));
        assert forall|i: int| 0 <= i < ops1.len() implies !has_key(s1, #[trigger] ops1[i].0) by {
            assert(!has_key(s, ops[i + 1].0));
            if has_key(s1, ops1[i].0) {
                let j = choose|j: int| 0 <= j < s1.len() && s1[j].0 == ops1[i].0;
                if j < s.len() {
                    assert(has_key(s, ops[i + 1].0));
                } else {
                    assert(s1[j] == ops[0]);
                    assert(ops[0].0 != ops[i + 1].0);
                }
            }
        }
        lemma_apply_sets_fresh(s1, ops1);
        assert(s.push(ops[0]) + ops1 =~= s + ops);
    }
}

/// All-distinct insertions: after setting each pair of `ops` once into an
/// empty store, the length equals the number of keys set, and each key looks
/// up the value that was set for it.
pub proof fn lemma_distinct_sets(ops: Seq<SpecEntry>)
    requires
        distinct_keys(ops),
    ensures
        apply_sets(Seq::empty(), ops).len() == ops.len(),
        forall|i: int| 0 <= i < ops.len() ==> spec_get(
            apply_sets(Seq::empty(), ops),
            #[trigger] ops[i].0,
        ) == Some(ops[i].1),
{
    lemma_apply_sets_fresh(Seq::empty(), ops);
    assert(Seq::empty() + ops =~= ops);
    assert forall|i: int| 0 <= i < ops.len() implies spec_get(
        apply_sets(Seq::empty(), ops),
        #[trigger] ops[i].0,
    ) == Some(ops[i].1) by {
        assert(has_key(ops, ops[i].0));
        lemma_key_index_unique(ops, ops[i].0, i);
    }
}

/// Enumeration completeness: with distinct keys — and every store the
/// operations can build has distinct keys — the keys at positions `0..len`
/// are pairwise different, and looking up the key at any position is defined
/// and yields that entry's value.
pub proof fn lemma_enumeration(s: Seq<SpecEntry>)
    requires
        distinct_keys(s),
    ensures
        forall|i: int, j: int|
            0 <= i < s.len() && 0 <= j < s.len() && i != j ==> s[i].0 != s[j].0,
        forall|i: int| 0 <= i < s.len() ==> spec_get(s, #[trigger] s[i].0) == Some(s[i].1),
{
    assert forall|i: int| 0 <= i < s.len() implies spec_get(s, #[trigger] s[i].0) == Some(
        s[i].1,
    ) by {
        assert(has_key(s, s[i].0));
        lemma_key_index_unique(s, s[i].0, i);
    }
}

/// The store that results from replaying a list of entries, in order, onto an
/// empty store with `set`: duplicate keys collapse onto the first position,
/// keeping the last value.
pub open spec fn load_entries(es: Seq<SpecEntry>) -> Seq<SpecEntry>
    decreases es.len(),
{
    if es.len() == 0 {
        Seq::empty()
    } else {
        spec_set(load_entries(es.drop_last()), es.last().0, es.last().1)
    }
}

/// Replaying entries whose keys are distinct reproduces them exactly, order
/// included.
pub proof fn lemma_load_distinct(es: Seq<SpecEntry>)
    requires
        distinct_keys(es),
    ensures
        load_entries(es) == es,
    decreases es.len(),
{
    if es.len() == 0 {
        assert(load_entries(es) =~= es);
    } else {
        let es0 = es.drop_last();
        assert(forall|i: int| 0 <= i < es0.len() ==> es0[i] == es[i]);
        assert(distinct_keys(es0));
        lemma_load_distinct(es0);
        assert(!has_key(es0, es.last().0)) by {
            if has_key(es0, es.last().0) {
                let i = choose|i: int| 0 <= i < es0.len() && es0[i].0 == es.last().0;
                assert(es[i].0 == es[es.len() - 1].0);
            }
        }
        assert(es0.push(es.last()) =~= es);
    }
}

impl LocalStorage {
    /// The text the store persists as: the document of its entries.
    pub fn to_persisted_text(&self) -> (r: String)
        ensures
            r@ == crate::codec::ser_doc(self@),
    {
        crate::codec::ser_doc_text(&self.entries)
    }

    /// Builds a store from what was read back from stable storage: no text
    /// (a missing file) or empty text yields an empty store, a well-formed
    /// document yields the store of its entries, and corrupt text yields
    /// nothing — the caller decides how fatal that is.
    pub fn from_persisted_text(text: Option<&str>) -> (r: Option<LocalStorage>)
        ensures
            match text {
                Some(t) => if t@.len() == 0 {
                    r is Some && r.unwrap()@ == Seq::<SpecEntry>::empty() && r.unwrap().wf()
                } else {
                    match crate::codec::parse_doc(t@) {
                        Some(es) => r is Some && r.unwrap()@ == load_entries(es)
                            && r.unwrap().wf(),
                        None => r is None,
                    }
                },
                None => r is Some && r.unwrap()@ == Seq::<SpecEntry>::empty()
                    && r.unwrap().wf(),
            },
    {
        match text {
            None => Some(LocalStorage::new()),
            Some(t) if t.is_empty() => Some(LocalStorage::new()),
            Some(t) => match crate::codec::parse_doc_text(t) {
                None => None,
                Some(entries) => {
                    let ghost ev = entries_view(entries@);
                    let mut store = LocalStorage::new();
                    proof {
                        assert(ev.take(0) =~= Seq::<SpecEntry>::empty());
                    }
                    let n = entries.len();
                    let mut i: usize = 0;
                    while i < n
                        invariant
                            n == entries@.len(),
                            ev == entries_view(entries@),
                            i <= n,
                            store.wf(),
                            store@ == load_entries(ev.take(i as int)),
                        decreases n - i,
                    {
                        store.set(entries[i].0.as_str(), entries[i].1.as_str());
                        proof {
                            assert(ev.take(i as int + 1).drop_last() =~= ev.take(i as int));
                            assert(ev.take(i as int + 1).last() == ev[i as int]);
                        }
                        i += 1;
                    }
                    proof {
                        assert(ev.take(n as int) =~= ev);
                    }
                    Some(store)
                },
            },
        }
    }
}

/// The fixed name of the persistence file, relative to the process's working
/// directory. A target with a sandboxed filesystem resolves its documents
/// directory and joins this name onto it instead.
pub fn get_local_file_path() -> (r: &'static str)
    ensures
        r@ == "local.data"@,
{
    "local.data"
}

/// Round trip: the persisted text of a store with distinct keys — and every
/// store the operations can build has distinct keys — deserializes and
/// replays to exactly the entries it was written from.
pub proof fn lemma_persist_round_trip(es: Seq<SpecEntry>)
    requires
        distinct_keys(es),
    ensures
        crate::codec::parse_doc(crate::codec::ser_doc(es)) == Some(es),
        load_entries(es) == es,
{
    crate::codec::lemma_parse_doc_ser_doc(es);
    lemma_load_distinct(es);
}

impl Default for LocalStorage {
    /// An empty store, as `LocalStorage::new` builds it.
    fn default() -> (r: Self)
        ensures
            r@ == Seq::<SpecEntry>::empty(),
            r.wf(),
    {
        LocalStorage::new()
    }
}

} // verus!
