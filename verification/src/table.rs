//! A table keyed by strings, with at most one entry per key.
use vstd::prelude::*;
use crate::text::str_eq;

verus! {

/// No two entries share a key.
pub open spec fn unique_keys<V>(s: Seq<(String, V)>) -> bool {
    forall|i: int, j: int|
        0 <= i < s.len() && 0 <= j < s.len() && i != j ==> #[trigger] s[i].0@ != #[trigger] s[j].0@
}

/// The map that an entry list with unique keys stands for.
pub open spec fn entries_map<V>(s: Seq<(String, V)>) -> Map<Seq<char>, V> {
    Map::new(
        |k: Seq<char>| exists|i: int| 0 <= i < s.len() && #[trigger] s[i].0@ == k,
        |k: Seq<char>| s[choose|i: int| 0 <= i < s.len() && #[trigger] s[i].0@ == k].1,
    )
}

/// Some entry has key `k`.
pub open spec fn has_key<V>(s: Seq<(String, V)>, k: Seq<char>) -> bool {
    exists|i: int| 0 <= i < s.len() && #[trigger] s[i].0@ == k
}

/// The position of an entry with key `k`.
pub open spec fn key_index<V>(s: Seq<(String, V)>, k: Seq<char>) -> int {
    choose|i: int| 0 <= i < s.len() && #[trigger] s[i].0@ == k
}

/// The keys of the entries, in order.
pub open spec fn keys_of<V>(s: Seq<(String, V)>) -> Seq<Seq<char>> {
    Seq::new(s.len(), |i: int| s[i].0@)
}

/// The entries after storing `value` under `key`: the entry with that key keeps its position,
/// and a new key goes last.
pub open spec fn insert_entry<V>(s: Seq<(String, V)>, key: String, value: V) -> Seq<(String, V)> {
    if has_key(s, key@) {
        s.update(key_index(s, key@), (key, value))
    } else {
        s.push((key, value))
    }
}

/// The entries after replacing the value stored under `k`, which keeps its position.
pub open spec fn replace_value<V>(s: Seq<(String, V)>, k: Seq<char>, v: V) -> Seq<(String, V)> {
    if has_key(s, k) {
        s.update(key_index(s, k), (s[key_index(s, k)].0, v))
    } else {
        s
    }
}

/// A table keyed by strings, with at most one entry per key. Its entries stay in a fixed order:
/// a new key goes last, and storing under an existing key keeps the entry's position.
pub struct StrMap<V> {
    entries: Vec<(String, V)>,
}

impl<V> View for StrMap<V> {
    type V = Map<Seq<char>, V>;

    /// The key of each entry and its value.
    open spec fn view(&self) -> Map<Seq<char>, V> {
        entries_map(self.entry_seq())
    }
}

impl<V> StrMap<V> {
    #[verifier::type_invariant]
    spec fn keys_unique(self) -> bool {
        unique_keys(self.entries@)
    }

    /// The entries, in the order the table holds them.
    pub closed spec fn entry_seq(self) -> Seq<(String, V)> {
        self.entries@
    }

    /// An empty table.
    pub fn new() -> (m: Self)
        ensures
            m.entry_seq() == Seq::<(String, V)>::empty(),
            m.view() == Map::<Seq<char>, V>::empty(),
    {
        let m = StrMap { entries: Vec::new() };
        assert(m.view() =~= Map::<Seq<char>, V>::empty());
        m
    }

    /// The number of entries.
    pub fn len(&self) -> (n: usize)
        ensures
            n == self.entry_seq().len(),
            unique_keys(self.entry_seq()),
    {
        proof {
            use_type_invariant(self);
        }
        self.entries.len()
    }

    /// The entry at position `i`.
    pub fn entry_at(&self, i: usize) -> (e: &(String, V))
        requires
            i < self.entry_seq().len(),
        ensures
            *e == self.entry_seq()[i as int],
            unique_keys(self.entry_seq()),
    {
        proof {
            use_type_invariant(self);
        }
        &self.entries[i]
    }

    fn find(&self, key: &str) -> (r: Option<usize>)
        ensures
            r is None ==> !self.view().contains_key(key@),
            r matches Some(i) ==> i < self.entry_seq().len() && self.entry_seq()[i as int].0@
                == key@,
    {
        let mut i: usize = 0;
        while i < self.entries.len()
            invariant
                i <= self.entries@.len(),
                forall|j: int| 0 <= j < i ==> self.entries@[j].0@ != key@,
            decreases self.entries@.len() - i,
        {
            if str_eq(self.entries[i].0.as_str(), key) {
                return Some(i);
            }
            i = i + 1;
        }
        None
    }

    /// The value stored under `key`.
    pub fn get(&self, key: &str) -> (r: Option<&V>)
        ensures
            r is Some <==> self.view().contains_key(key@),
            r matches Some(v) ==> *v == self.view()[key@],
            unique_keys(self.entry_seq()),
    {
        proof {
            use_type_invariant(self);
        }
        match self.find(key) {
            Some(i) => {
                proof {
                    lemma_entries_map_at(self.entries@, i as int);
                }
                Some(&self.entries[i].1)
            },
            None => None,
        }
    }

    /// Stores `value` under `key`, replacing what was there.
    pub fn insert(&mut self, key: String, value: V)
        ensures
            final(self).view() == old(self).view().insert(key@, value),
            final(self).entry_seq() == insert_entry(old(self).entry_seq(), key, value),
    {
        proof {
            use_type_invariant(&*self);
        }
        let ghost old_entries = self.entries@;
        match self.find(key.as_str()) {
            Some(i) => {
                let ghost k = key;
                let mut entries: Vec<(String, V)> = Vec::new();
                std::mem::swap(&mut entries, &mut self.entries);
                entries.set(i, (key, value));
                proof {
                    let s = entries@;
                    assert(s == old_entries.update(i as int, (k, value)));
                    assert(unique_keys(s)) by {
                        assert forall|a: int, b: int|
                            0 <= a < s.len() && 0 <= b < s.len() && a != b implies #[trigger] s[a].0@
                            != #[trigger] s[b].0@ by {
                            assert(old_entries[a].0@ == s[a].0@ || a == i);
                            assert(old_entries[b].0@ == s[b].0@ || b == i);
                        }
                    }
                    lemma_entries_map_update(old_entries, i as int, k, value);
                    let ki = key_index(old_entries, k@);
                    assert(old_entries[ki].0@ == k@);
                }
                self.entries = entries;
            },
            None => {
                let ghost k = key;
                let mut entries: Vec<(String, V)> = Vec::new();
                std::mem::swap(&mut entries, &mut self.entries);
                entries.push((key, value));
                proof {
                    let s = entries@;
                    assert(s == old_entries.push((k, value)));
                    assert(unique_keys(s)) by {
                        assert forall|a: int, b: int|
                            0 <= a < s.len() && 0 <= b < s.len() && a != b implies #[trigger] s[a].0@
                            != #[trigger] s[b].0@ by {
                            if a == old_entries.len() {
                                assert(s[b] == old_entries[b]);
                            } else if b == old_entries.len() {
                                assert(s[a] == old_entries[a]);
                            } else {
                                assert(s[a] == old_entries[a]);
                                assert(s[b] == old_entries[b]);
                            }
                        }
                    }
                    lemma_entries_map_push(old_entries, k, value);
                    if has_key(old_entries, k@) {
                        let ki = choose|ki: int| 0 <= ki < old_entries.len() && #[trigger] old_entries[ki].0@ == k@;
                        lemma_entries_map_at(old_entries, ki);
                    }
                }
                self.entries = entries;
            },
        }
    }


    /// Exchanges the value stored under `key` with `*value`, when there is one; the entry keeps
    /// its position.
    pub fn swap_value(&mut self, key: &str, value: &mut V) -> (found: bool)
        ensures
            found == old(self).view().contains_key(key@),
            found ==> final(self).view() == old(self).view().insert(key@, *old(value)),
            found ==> *final(value) == old(self).view()[key@],
            final(self).entry_seq() == replace_value(old(self).entry_seq(), key@, *old(value)),
            !found ==> *final(value) == *old(value),
    {
        proof {
            use_type_invariant(&*self);
        }
        let ghost old_entries = self.entries@;
        match self.find(key) {
            Some(i) => {
                proof {
                    lemma_entries_map_at(old_entries, i as int);
                    let ki = key_index(old_entries, key@);
                    assert(old_entries[ki].0@ == key@);
                }
                let mut entries: Vec<(String, V)> = Vec::new();
                std::mem::swap(&mut entries, &mut self.entries);
                let (k, mut v) = entries.remove(i);
                std::mem::swap(&mut v, value);
                let ghost kk = k;
                entries.insert(i, (k, v));
                proof {
                    let s = entries@;
                    assert(s =~= old_entries.update(i as int, (kk, *old(value))));
                    assert(unique_keys(s)) by {
                        assert forall|a: int, b: int|
                            0 <= a < s.len() && 0 <= b < s.len() && a != b implies #[trigger] s[a].0@
                            != #[trigger] s[b].0@ by {
                            assert(old_entries[a].0@ == s[a].0@);
                            assert(old_entries[b].0@ == s[b].0@);
                        }
                    }
                    lemma_entries_map_update(old_entries, i as int, kk, *old(value));
                }
                self.entries = entries;
                true
            },
            None => {
                false
            },
        }
    }

    /// Takes out the value stored under `key`, leaving no entry for it.
    pub fn remove(&mut self, key: &str) -> (r: Option<V>)
        ensures
            r is Some <==> old(self).view().contains_key(key@),
            r matches Some(v) ==> v == old(self).view()[key@],
            final(self).view() == old(self).view().remove(key@),
    {
        proof {
            use_type_invariant(&*self);
        }
        let ghost old_entries = self.entries@;
        match self.find(key) {
            Some(i) => {
                proof {
                    lemma_entries_map_at(old_entries, i as int);
                }
                let mut entries: Vec<(String, V)> = Vec::new();
                std::mem::swap(&mut entries, &mut self.entries);
                let e = entries.remove(i);
                proof {
                    let s = entries@;
                    assert(s == old_entries.remove(i as int));
                    assert(unique_keys(s)) by {
                        assert forall|a: int, b: int|
                            0 <= a < s.len() && 0 <= b < s.len() && a != b implies #[trigger] s[a].0@
                            != #[trigger] s[b].0@ by {
                            let a2 = if a < i { a } else { a + 1 };
                            let b2 = if b < i { b } else { b + 1 };
                            assert(s[a] == old_entries[a2]);
                            assert(s[b] == old_entries[b2]);
                        }
                    }
                    lemma_entries_map_remove(old_entries, i as int);
                }
                self.entries = entries;
                Some(e.1)
            },
            None => {
                assert(old(self).view().remove(key@) =~= old(self).view());
                None
            },
        }
    }
}

impl StrMap<String> {
    /// A copy of a table of strings, with its entries in the same order.
    pub fn clone_strings(&self) -> (r: StrMap<String>)
        ensures
            r.entry_seq() == self.entry_seq(),
            unique_keys(self.entry_seq()),
    {
        proof {
            use_type_invariant(self);
        }
        let mut entries: Vec<(String, String)> = Vec::new();
        let mut i: usize = 0;
        while i < self.entries.len()
            invariant
                i <= self.entries@.len(),
                entries@ == self.entries@.take(i as int),
            decreases self.entries@.len() - i,
        {
            let k = self.entries[i].0.clone();
            let v = self.entries[i].1.clone();
            entries.push((k, v));
            proof {
                assert(entries@ =~= self.entries@.take(i + 1));
            }
            i = i + 1;
        }
        proof {
            assert(self.entries@.take(self.entries@.len() as int) =~= self.entries@);
        }
        StrMap { entries }
    }
}

/// The value of each entry, in a list with unique keys.
pub proof fn lemma_entries_map_at<V>(s: Seq<(String, V)>, i: int)
    requires
        unique_keys(s),
        0 <= i < s.len(),
    ensures
        entries_map(s).contains_key(s[i].0@),
        entries_map(s)[s[i].0@] == s[i].1,
{
    let k = s[i].0@;
    assert(exists|j: int| 0 <= j < s.len() && #[trigger] s[j].0@ == k);
    let j = choose|j: int| 0 <= j < s.len() && #[trigger] s[j].0@ == k;
    assert(j == i);
}

proof fn lemma_entries_map_update<V>(s: Seq<(String, V)>, i: int, k: String, v: V)
    requires
        unique_keys(s),
        0 <= i < s.len(),
        s[i].0@ == k@,
        unique_keys(s.update(i, (k, v))),
    ensures
        entries_map(s.update(i, (k, v))) == entries_map(s).insert(k@, v),
{
    let t = s.update(i, (k, v));
    assert forall|key: Seq<char>|
        #[trigger] entries_map(t).contains_key(key) == entries_map(s).insert(k@, v).contains_key(key)
        by {
        if entries_map(s).contains_key(key) {
            let j = choose|j: int| 0 <= j < s.len() && #[trigger] s[j].0@ == key;
            assert(t[j].0@ == key);
        }
        if entries_map(t).contains_key(key) {
            let j = choose|j: int| 0 <= j < t.len() && #[trigger] t[j].0@ == key;
            assert(s[j].0@ == key);
        }
        if key == k@ {
            assert(t[i].0@ == key);
        }
    }
    assert forall|key: Seq<char>| #[trigger] entries_map(t).contains_key(key) implies entries_map(
        t,
    )[key] == entries_map(s).insert(k@, v)[key] by {
        let j = choose|j: int| 0 <= j < t.len() && #[trigger] t[j].0@ == key;
        lemma_entries_map_at(t, j);
        if j != i {
            lemma_entries_map_at(s, j);
        }
    }
    assert(entries_map(t) =~= entries_map(s).insert(k@, v));
}

proof fn lemma_entries_map_push<V>(s: Seq<(String, V)>, k: String, v: V)
    requires
        unique_keys(s),
        !entries_map(s).contains_key(k@),
        unique_keys(s.push((k, v))),
    ensures
        entries_map(s.push((k, v))) == entries_map(s).insert(k@, v),
{
    let t = s.push((k, v));
    assert forall|key: Seq<char>|
        #[trigger] entries_map(t).contains_key(key) == entries_map(s).insert(k@, v).contains_key(key)
        by {
        if entries_map(s).contains_key(key) {
            let j = choose|j: int| 0 <= j < s.len() && #[trigger] s[j].0@ == key;
            assert(t[j].0@ == key);
        }
        if entries_map(t).contains_key(key) {
            let j = choose|j: int| 0 <= j < t.len() && #[trigger] t[j].0@ == key;
            if j < s.len() {
                assert(s[j].0@ == key);
            }
        }
        if key == k@ {
            assert(t[s.len() as int].0@ == key);
        }
    }
    assert forall|key: Seq<char>| #[trigger] entries_map(t).contains_key(key) implies entries_map(
        t,
    )[key] == entries_map(s).insert(k@, v)[key] by {
        let j = choose|j: int| 0 <= j < t.len() && #[trigger] t[j].0@ == key;
        lemma_entries_map_at(t, j);
        if j < s.len() {
            assert(t[j] == s[j]);
            lemma_entries_map_at(s, j);
        }
    }
    assert(entries_map(t) =~= entries_map(s).insert(k@, v));
}

proof fn lemma_entries_map_remove<V>(s: Seq<(String, V)>, i: int)
    requires
        unique_keys(s),
        0 <= i < s.len(),
        unique_keys(s.remove(i)),
    ensures
        entries_map(s.remove(i)) == entries_map(s).remove(s[i].0@),
{
    let t = s.remove(i);
    let k = s[i].0@;
    assert forall|key: Seq<char>|
        #[trigger] entries_map(t).contains_key(key) == entries_map(s).remove(k).contains_key(key)
        by {
        if entries_map(s).contains_key(key) && key != k {
            let j = choose|j: int| 0 <= j < s.len() && #[trigger] s[j].0@ == key;
            assert(j != i);
            let j2 = if j < i { j } else { j - 1 };
            assert(t[j2] == s[j]);
        }
        if entries_map(t).contains_key(key) {
            let j = choose|j: int| 0 <= j < t.len() && #[trigger] t[j].0@ == key;
            let j2 = if j < i { j } else { j + 1 };
            assert(t[j] == s[j2]);
            assert(j2 != i);
        }
    }
    assert forall|key: Seq<char>| #[trigger] entries_map(t).contains_key(key) implies entries_map(
        t,
    )[key] == entries_map(s).remove(k)[key] by {
        let j = choose|j: int| 0 <= j < t.len() && #[trigger] t[j].0@ == key;
        lemma_entries_map_at(t, j);
        let j2 = if j < i { j } else { j + 1 };
        assert(t[j] == s[j2]);
        lemma_entries_map_at(s, j2);
    }
    assert(entries_map(t) =~= entries_map(s).remove(k));
}

/// The map of a prefix grows by one entry at a time, each with a key not seen before.
pub proof fn lemma_entries_map_prefix<V>(s: Seq<(String, V)>, j: int)
    requires
        unique_keys(s),
        0 <= j < s.len(),
    ensures
        !entries_map(s.take(j)).contains_key(s[j].0@),
        entries_map(s.take(j + 1)) == entries_map(s.take(j)).insert(s[j].0@, s[j].1),
{
    let a = s.take(j);
    assert(s.take(j + 1) =~= a.push(s[j]));
    assert(unique_keys(a)) by {
        assert forall|x: int, y: int| 0 <= x < a.len() && 0 <= y < a.len() && x != y implies #[trigger] a[x].0@
            != #[trigger] a[y].0@ by {
            assert(a[x] == s[x] && a[y] == s[y]);
        }
    }
    let b = a.push(s[j]);
    assert(unique_keys(b)) by {
        assert forall|x: int, y: int| 0 <= x < b.len() && 0 <= y < b.len() && x != y implies #[trigger] b[x].0@
            != #[trigger] b[y].0@ by {
            assert(b[x] == s[x] && b[y] == s[y]);
        }
    }
    if entries_map(a).contains_key(s[j].0@) {
        let i = choose|i: int| 0 <= i < a.len() && #[trigger] a[i].0@ == s[j].0@;
        assert(a[i] == s[i]);
    }
    lemma_entries_map_push(a, s[j].0, s[j].1);
}

/// The map of a whole entry list is the map of its longest prefix.
pub proof fn lemma_entries_map_full<V>(s: Seq<(String, V)>)
    ensures
        s.take(s.len() as int) == s,
        entries_map(s.take(0)) == Map::<Seq<char>, V>::empty(),
{
    assert(s.take(s.len() as int) =~= s);
    assert(entries_map(s.take(0)) =~= Map::<Seq<char>, V>::empty());
}

} // verus!
