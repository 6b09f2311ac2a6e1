//! A small JSON document model: the values that Traefik's dynamic
//! configuration is made of, with a mathematical view of each.
use vstd::prelude::*;
use crate::text::str_eq;

verus! {

/// Mathematical model of a JSON value; an object is a finite map from keys to values.
pub enum Json {
    Null,
    Bool(bool),
    Str(Seq<char>),
    Arr(Seq<Json>),
    Obj(Map<Seq<char>, Json>),
}

/// A JSON value.
pub enum JsonValue {
    Null,
    Bool(bool),
    String(String),
    Array(Vec<JsonValue>),
    Object(JsonMap),
}

/// A JSON object: string keys mapped to values, kept in insertion order.
pub struct JsonMap {
    entries: Vec<(String, JsonValue)>,
}

pub closed spec fn json_of(v: JsonValue) -> Json
    decreases v,
{
    match v {
        JsonValue::Null => Json::Null,
        JsonValue::Bool(b) => Json::Bool(b),
        JsonValue::String(s) => Json::Str(s@),
        JsonValue::Array(a) => Json::Arr(json_seq_of(a@)),
        JsonValue::Object(m) => Json::Obj(json_entries_of(m.entries@)),
    }
}

pub closed spec fn json_seq_of(s: Seq<JsonValue>) -> Seq<Json>
    decreases s,
{
    if s.len() == 0 {
        Seq::empty()
    } else {
        json_seq_of(s.drop_last()).push(json_of(s.last()))
    }
}

/// The map an entry list stands for: where a key occurs more than once, its last entry counts.
pub closed spec fn json_entries_of(s: Seq<(String, JsonValue)>) -> Map<Seq<char>, Json>
    decreases s,
{
    if s.len() == 0 {
        Map::empty()
    } else {
        json_entries_of(s.drop_last()).insert(s.last().0@, json_of(s.last().1))
    }
}

/// Index of the last entry whose key is `k`, or -1.
spec fn last_key_index(s: Seq<(String, JsonValue)>, k: Seq<char>) -> int
    decreases s.len(),
{
    if s.len() == 0 {
        -1
    } else if s.last().0@ == k {
        s.len() - 1
    } else {
        last_key_index(s.drop_last(), k)
    }
}

impl View for JsonValue {
    type V = Json;

    closed spec fn view(&self) -> Json {
        json_of(*self)
    }
}

impl View for JsonMap {
    type V = Map<Seq<char>, Json>;

    closed spec fn view(&self) -> Map<Seq<char>, Json> {
        json_entries_of(self.entries@)
    }
}

/// Viewing a value element by element.
pub broadcast proof fn lemma_json_seq_of(s: Seq<JsonValue>)
    ensures
        #[trigger] json_seq_of(s).len() == s.len(),
        forall|i: int| 0 <= i < s.len() ==> #[trigger] json_seq_of(s)[i] == s[i]@,
    decreases s.len(),
{
    if s.len() > 0 {
        lemma_json_seq_of(s.drop_last());
    }
}

pub proof fn lemma_json_seq_push(s: Seq<JsonValue>, v: JsonValue)
    ensures
        json_seq_of(s.push(v)) == json_seq_of(s).push(v@),
{
    assert(s.push(v).drop_last() =~= s);
}

/// The view of each kind of value.
pub broadcast proof fn lemma_view_json(v: JsonValue)
    ensures
        #[trigger] v@ == (match v {
            JsonValue::Null => Json::Null,
            JsonValue::Bool(b) => Json::Bool(b),
            JsonValue::String(s) => Json::Str(s@),
            JsonValue::Array(a) => Json::Arr(json_seq_of(a@)),
            JsonValue::Object(m) => Json::Obj(m@),
        }),
{
}

proof fn lemma_last_key_index(s: Seq<(String, JsonValue)>, k: Seq<char>)
    ensures
        -1 <= last_key_index(s, k) < s.len(),
        last_key_index(s, k) >= 0 ==> s[last_key_index(s, k)].0@ == k,
        forall|j: int| last_key_index(s, k) < j < s.len() ==> s[j].0@ != k,
        json_entries_of(s).dom().contains(k) <==> last_key_index(s, k) >= 0,
        last_key_index(s, k) >= 0 ==> json_entries_of(s)[k] == json_of(s[last_key_index(s, k)].1),
    decreases s.len(),
{
    if s.len() > 0 {
        lemma_last_key_index(s.drop_last(), k);
        assert forall|j: int| 0 <= j < s.len() - 1 implies #[trigger] s[j] == s.drop_last()[j] by {}
    }
}

proof fn lemma_same_keys(s: Seq<(String, JsonValue)>, t: Seq<(String, JsonValue)>, k: Seq<char>)
    requires
        s.len() == t.len(),
        forall|j: int| 0 <= j < s.len() ==> s[j].0@ == t[j].0@,
    ensures
        last_key_index(s, k) == last_key_index(t, k),
    decreases s.len(),
{
    if s.len() > 0 {
        lemma_same_keys(s.drop_last(), t.drop_last(), k);
    }
}

impl JsonMap {
    /// The entries, in the order the object holds them.
    pub closed spec fn entry_seq(self) -> Seq<(String, JsonValue)> {
        self.entries@
    }

    /// The number of entries.
    pub fn len(&self) -> (n: usize)
        ensures
            n == self.entry_seq().len(),
    {
        self.entries.len()
    }

    /// The entry at position `i`.
    pub fn entry_at(&self, i: usize) -> (e: &(String, JsonValue))
        requires
            i < self.entry_seq().len(),
        ensures
            *e == self.entry_seq()[i as int],
    {
        &self.entries[i]
    }

    /// An empty object.
    pub fn new() -> (m: JsonMap)
        ensures
            m@ == Map::<Seq<char>, Json>::empty(),
    {
        let m = JsonMap { entries: Vec::new() };
        assert(m@ == json_entries_of(Seq::empty()));
        m
    }

    /// The position of the entry that holds `key`.
    fn find(&self, key: &str) -> (r: Option<usize>)
        ensures
            r is None ==> last_key_index(self.entries@, key@) == -1,
            r matches Some(i) ==> i == last_key_index(self.entries@, key@),
    {
        proof {
            lemma_last_key_index(self.entries@, key@);
        }
        let mut i = self.entries.len();
        while i > 0
            invariant
                i <= self.entries@.len(),
                forall|j: int| i <= j < self.entries@.len() ==> self.entries@[j].0@ != key@,
            decreases i,
        {
            i = i - 1;
            if str_eq(self.entries[i].0.as_str(), key) {
                proof {
                    lemma_last_key_index(self.entries@, key@);
                }
                return Some(i);
            }
        }
        None
    }

    /// The value stored under `key`.
    pub fn get(&self, key: &str) -> (r: Option<&JsonValue>)
        ensures
            r is Some <==> self@.contains_key(key@),
            r matches Some(v) ==> v@ == self@[key@],
    {
        proof {
            lemma_last_key_index(self.entries@, key@);
        }
        match self.find(key) {
            Some(i) => Some(&self.entries[i].1),
            None => None,
        }
    }

    /// Whether a value is stored under `key`.
    pub fn contains_key(&self, key: &str) -> (r: bool)
        ensures
            r == self@.contains_key(key@),
    {
        self.get(key).is_some()
    }

    /// Stores `value` under `key`, replacing what was there.
    pub fn insert(&mut self, key: String, value: JsonValue)
        ensures
            final(self)@ == old(self)@.insert(key@, value@),
    {
        let ghost old_entries = self.entries@;
        proof {
            lemma_last_key_index(old_entries, key@);
        }
        match self.find(key.as_str()) {
            Some(i) => {
                self.entries.set(i, (key, value));
                proof {
                    let new_entries = self.entries@;
                    assert forall|k: Seq<char>| #[trigger] json_entries_of(new_entries).dom().contains(k)
                        == json_entries_of(old_entries).insert(key@, value@).dom().contains(k)
                        && (json_entries_of(new_entries).dom().contains(k) ==> json_entries_of(
                        new_entries)[k] == json_entries_of(old_entries).insert(key@, value@)[k]) by {
                        lemma_same_keys(old_entries, new_entries, k);
                        lemma_last_key_index(old_entries, k);
                        lemma_last_key_index(new_entries, k);
                    }
                    assert(json_entries_of(new_entries) =~= json_entries_of(old_entries).insert(
                        key@,
                        value@,
                    ));
                }
            },
            None => {
                let ghost entry = (key, value);
                self.entries.push((key, value));
                proof {
                    assert(self.entries@.drop_last() =~= old_entries);
                }
            },
        }
    }

    /// Exchanges the value stored under `key` with `*value`, when there is one.
    pub fn swap_value(&mut self, key: &str, value: &mut JsonValue) -> (found: bool)
        ensures
            found == old(self)@.contains_key(key@),
            found ==> final(self)@ == old(self)@.insert(key@, old(value)@),
            found ==> final(value)@ == old(self)@[key@],
            !found ==> final(self)@ == old(self)@ && *final(value) == *old(value),
    {
        let ghost old_entries = self.entries@;
        proof {
            lemma_last_key_index(old_entries, key@);
        }
        match self.find(key) {
            Some(i) => {
                let mut entry: (String, JsonValue) = (String::new(), JsonValue::Null);
                self.entries.set_and_swap(i, &mut entry);
                std::mem::swap(&mut entry.1, value);
                let ghost k = entry.0;
                self.entries.set_and_swap(i, &mut entry);
                proof {
                    let new_entries = self.entries@;
                    assert(new_entries == old_entries.update(i as int, (k, *old(value))));
                    assert forall|k2: Seq<char>| #[trigger] json_entries_of(new_entries).dom().contains(k2)
                        == json_entries_of(old_entries).insert(key@, old(value)@).dom().contains(k2)
                        && (json_entries_of(new_entries).dom().contains(k2) ==> json_entries_of(
                        new_entries)[k2] == json_entries_of(old_entries).insert(key@, old(value)@)[k2]) by {
                        lemma_same_keys(old_entries, new_entries, k2);
                        lemma_last_key_index(old_entries, k2);
                        lemma_last_key_index(new_entries, k2);
                    }
                    assert(json_entries_of(new_entries) =~= json_entries_of(old_entries).insert(
                        key@,
                        old(value)@,
                    ));
                }
                true
            },
            None => false,
        }
    }
}

impl JsonValue {
    /// A copy of this value, element by element.
    pub fn deep_clone(&self) -> (r: JsonValue)
        ensures
            r@ == self@,
        decreases self,
    {
        match self {
            JsonValue::Null => JsonValue::Null,
            JsonValue::Bool(b) => JsonValue::Bool(*b),
            JsonValue::String(s) => JsonValue::String(s.clone()),
            JsonValue::Array(a) => {
                let mut out: Vec<JsonValue> = Vec::new();
                let mut i: usize = 0;
                while i < a.len()
                    invariant
                        *self == JsonValue::Array(*a),
                        i <= a@.len(),
                        json_seq_of(out@) == json_seq_of(a@.take(i as int)),
                    decreases a@.len() - i,
                {
                    assert(decreases_to!(*self => (*self)->Array_0));
                    assert(decreases_to!(*a => a@));
                    assert(decreases_to!(a@ => a@[i as int]));
                    assert(decreases_to!(*self => a@[i as int]));
                    let c = a[i].deep_clone();
                    proof {
                        lemma_json_seq_push(out@, c);
                        lemma_json_seq_push(a@.take(i as int), a@[i as int]);
                        assert(a@.take(i as int).push(a@[i as int]) =~= a@.take(i + 1));
                    }
                    out.push(c);
                    i = i + 1;
                }
                assert(a@.take(a@.len() as int) =~= a@);
                JsonValue::Array(out)
            },
            JsonValue::Object(m) => JsonValue::Object(m.deep_clone()),
        }
    }
}

impl JsonMap {
    /// A copy of this object, entry by entry.
    pub fn deep_clone(&self) -> (r: JsonMap)
        ensures
            r@ == self@,
        decreases self,
    {
        let mut out: Vec<(String, JsonValue)> = Vec::new();
        let mut i: usize = 0;
        while i < self.entries.len()
            invariant
                i <= self.entries@.len(),
                json_entries_of(out@) == json_entries_of(self.entries@.take(i as int)),
            decreases self.entries@.len() - i,
        {
            assert(decreases_to!(*self => self.entries@[i as int].1));
            let k = self.entries[i].0.clone();
            let v = self.entries[i].1.deep_clone();
            proof {
                assert(out@.push((k, v)).drop_last() =~= out@);
                let t = self.entries@.take(i + 1);
                assert(t.drop_last() =~= self.entries@.take(i as int));
            }
            out.push((k, v));
            i = i + 1;
        }
        assert(self.entries@.take(self.entries@.len() as int) =~= self.entries@);
        JsonMap { entries: out }
    }
}

impl JsonValue {
    /// The string this value holds, if it is a string.
    pub fn as_str(&self) -> (r: Option<&str>)
        ensures
            r is Some <==> self@ is Str,
            r matches Some(s) ==> self@ == Json::Str(s@),
    {
        match self {
            JsonValue::String(s) => Some(s.as_str()),
            _ => None,
        }
    }

    /// The elements of this value, if it is an array.
    pub fn as_array(&self) -> (r: Option<&Vec<JsonValue>>)
        ensures
            r is Some <==> self@ is Arr,
            r matches Some(a) ==> self@ == Json::Arr(json_seq_of(a@)),
    {
        match self {
            JsonValue::Array(a) => Some(a),
            _ => None,
        }
    }

    /// The object this value is, if it is one.
    pub fn as_object(&self) -> (r: Option<&JsonMap>)
        ensures
            r is Some <==> self@ is Obj,
            r matches Some(m) ==> self@ == Json::Obj(m@),
    {
        match self {
            JsonValue::Object(m) => Some(m),
            _ => None,
        }
    }
}

impl JsonMap {
    /// Stores every entry of `other`, replacing values under the same keys.
    pub fn merge_from(&mut self, other: &JsonMap)
        ensures
            final(self)@ == old(self)@.union_prefer_right(other@),
    {
        let ghost start = self@;
        let mut i: usize = 0;
        assert(json_entries_of(other.entries@.take(0)) =~= Map::<Seq<char>, Json>::empty());
        assert(start.union_prefer_right(Map::<Seq<char>, Json>::empty()) =~= start);
        while i < other.entries.len()
            invariant
                i <= other.entries@.len(),
                self@ == start.union_prefer_right(json_entries_of(other.entries@.take(i as int))),
            decreases other.entries@.len() - i,
        {
            let k = other.entries[i].0.clone();
            let v = other.entries[i].1.deep_clone();
            proof {
                let t = other.entries@.take(i + 1);
                assert(t.drop_last() =~= other.entries@.take(i as int));
                assert(t.last() == other.entries@[i as int]);
            }
            self.insert(k, v);
            proof {
                assert(self@ =~= start.union_prefer_right(json_entries_of(other.entries@.take(i + 1))));
            }
            i = i + 1;
        }
        proof {
            assert(other.entries@.take(other.entries@.len() as int) =~= other.entries@);
        }
    }
}

} // verus!
