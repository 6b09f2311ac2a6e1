//! Reading Traefik container labels such as `traefik.http.routers.app.rule` into nested
//! JSON objects, one per router and one per service.
use vstd::prelude::*;
use crate::json::{Json, JsonMap, JsonValue, json_seq_of, lemma_view_json, lemma_json_seq_of};
use crate::table::{StrMap, entries_map, has_key, keys_of, lemma_entries_map_at, replace_value, unique_keys};
use crate::text::{
    has_prefix, join_on, lemma_split_join, lemma_split_on_first, lemma_split_on_pieces, split_char, split_on, str_eq,
    strip_prefix, trim, trim_spec,
};

verus! {

broadcast use {lemma_view_json, lemma_json_seq_of};

/// Routers or services by name, each with its configuration object.
pub type ObjectTable = Map<Seq<char>, Map<Seq<char>, Json>>;

/// What a label configures.
pub enum LabelTarget {
    /// A key path inside the named HTTP router.
    Router(Seq<char>, Seq<Seq<char>>),
    /// A key path inside the named HTTP service.
    Service(Seq<char>, Seq<Seq<char>>),
    /// Nothing: not a Traefik label, too short, not HTTP, or another kind of resource.
    Ignored,
}

/// The character view of a list of labels.
pub open spec fn labels_view(labels: Seq<(String, String)>) -> Seq<(Seq<char>, Seq<char>)> {
    Seq::new(labels.len(), |i: int| (labels[i].0@, labels[i].1@))
}

/// The character view of a list of strings.
pub open spec fn strings_view(s: Seq<String>) -> Seq<Seq<char>> {
    Seq::new(s.len(), |i: int| s[i]@)
}

/// The JSON field name for a Traefik key segment: three lower-case Traefik keys are written in
/// camel case in the JSON configuration.
pub open spec fn normalize_key_spec(key: Seq<char>) -> Seq<char> {
    if key == "certresolver"@ {
        "certResolver"@
    } else if key == "loadbalancer"@ {
        "loadBalancer"@
    } else if key == "passhostheader"@ {
        "passHostHeader"@
    } else {
        key
    }
}

/// The JSON value of a label: entry points and middlewares are comma-separated lists with each
/// item trimmed, `tls` set to `true` is an empty object, anything else is the string itself.
pub open spec fn parse_value_spec(key: Seq<char>, value: Seq<char>) -> Json {
    if key == "entrypoints"@ || key == "middlewares"@ {
        Json::Arr(split_on(value, ',').map_values(|p: Seq<char>| Json::Str(trim_spec(p))))
    } else if key == "tls"@ && value == "true"@ {
        Json::Obj(Map::empty())
    } else {
        Json::Str(value)
    }
}

/// `m` after setting the value at the key path `keys`: intermediate objects are created where
/// missing, and a path that runs into a value that is not an object changes nothing.
pub open spec fn insert_nested_spec(m: Map<Seq<char>, Json>, keys: Seq<Seq<char>>, value: Seq<char>) -> Map<
    Seq<char>,
    Json,
>
    decreases keys.len(),
{
    if keys.len() == 0 {
        m
    } else if keys.len() == 1 {
        m.insert(normalize_key_spec(keys[0]), parse_value_spec(keys[0], value))
    } else {
        let k = normalize_key_spec(keys[0]);
        if m.contains_key(k) {
            match m[k] {
                Json::Obj(inner) => m.insert(
                    k,
                    Json::Obj(insert_nested_spec(inner, keys.skip(1), value)),
                ),
                _ => m,
            }
        } else {
            m.insert(k, Json::Obj(insert_nested_spec(Map::empty(), keys.skip(1), value)))
        }
    }
}

/// What a label key configures: `traefik.http.routers.<name>.<path>` or
/// `traefik.http.services.<name>.<path>`.
pub open spec fn label_target(key: Seq<char>) -> LabelTarget {
    if has_prefix(key, "traefik."@) {
        let parts = split_on(key.skip(8), '.');
        if parts.len() >= 3 && parts[0] == "http"@ {
            if parts[1] == "routers"@ {
                LabelTarget::Router(parts[2], parts.skip(3))
            } else if parts[1] == "services"@ {
                LabelTarget::Service(parts[2], parts.skip(3))
            } else {
                LabelTarget::Ignored
            }
        } else {
            LabelTarget::Ignored
        }
    } else {
        LabelTarget::Ignored
    }
}

/// `table` after applying a key path and value to the object of `name`, which is created empty
/// when missing.
pub open spec fn apply_to(table: ObjectTable, name: Seq<char>, path: Seq<Seq<char>>, value: Seq<char>) -> ObjectTable {
    let obj = if table.contains_key(name) {
        table[name]
    } else {
        Map::empty()
    };
    table.insert(name, insert_nested_spec(obj, path, value))
}

/// Routers and services after one more label.
pub open spec fn apply_label(tables: (ObjectTable, ObjectTable), key: Seq<char>, value: Seq<char>) -> (
    ObjectTable,
    ObjectTable,
) {
    match label_target(key) {
        LabelTarget::Router(name, path) => (apply_to(tables.0, name, path, value), tables.1),
        LabelTarget::Service(name, path) => (tables.0, apply_to(tables.1, name, path, value)),
        LabelTarget::Ignored => tables,
    }
}

/// Routers and services after applying `labels` in order to `start`.
pub open spec fn fold_labels(start: (ObjectTable, ObjectTable), labels: Seq<(Seq<char>, Seq<char>)>) -> (
    ObjectTable,
    ObjectTable,
)
    decreases labels.len(),
{
    if labels.len() == 0 {
        start
    } else {
        apply_label(fold_labels(start, labels.drop_last()), labels.last().0, labels.last().1)
    }
}

/// Routers and services that a list of labels configures, each label applied in turn.
pub open spec fn parse_labels_spec(labels: Seq<(Seq<char>, Seq<char>)>) -> (ObjectTable, ObjectTable) {
    fold_labels((Map::empty(), Map::empty()), labels)
}

/// The objects of a table of routers or services.
pub open spec fn objects_view(t: StrMap<JsonMap>) -> ObjectTable {
    Map::new(|k: Seq<char>| t.view().contains_key(k), |k: Seq<char>| t.view()[k]@)
}

/// Result of parsing Traefik labels.
pub struct ParsedLabels {
    pub routers: StrMap<JsonMap>,
    pub services: StrMap<JsonMap>,
}

impl ParsedLabels {
    /// Routers and services, each by name with its configuration object.
    pub open spec fn tables(&self) -> (ObjectTable, ObjectTable) {
        (objects_view(self.routers), objects_view(self.services))
    }
}

/// Normalize Traefik label keys to match JSON field names.
/// Traefik uses lowercase with dots, JSON API uses camelCase for some fields.
pub fn normalize_key(key: &str) -> (r: String)
    ensures
        r@ == normalize_key_spec(key@),
{
    if str_eq(key, "certresolver") {
        String::from_str("certResolver")
    } else if str_eq(key, "loadbalancer") {
        String::from_str("loadBalancer")
    } else if str_eq(key, "passhostheader") {
        String::from_str("passHostHeader")
    } else {
        String::from_str(key)
    }
}

/// Parse a label value, handling special cases.
pub fn parse_value(key: &str, value: &str) -> (r: JsonValue)
    ensures
        r@ == parse_value_spec(key@, value@),
{
    if str_eq(key, "entrypoints") || str_eq(key, "middlewares") {
        let pieces = split_char(value, ',');
        let ghost spec_pieces = split_on(value@, ',');
        let mut items: Vec<JsonValue> = Vec::new();
        let mut i: usize = 0;
        while i < pieces.len()
            invariant
                i <= pieces@.len(),
                pieces@.len() == spec_pieces.len(),
                forall|j: int| 0 <= j < pieces@.len() ==> #[trigger] pieces@[j]@ == spec_pieces[j],
                items@.len() == i,
                forall|j: int| 0 <= j < i ==> #[trigger] items@[j]@ == Json::Str(trim_spec(spec_pieces[j])),
            decreases pieces@.len() - i,
        {
            let item = JsonValue::String(String::from_str(trim(pieces[i].as_str())));
            items.push(item);
            i = i + 1;
        }
        let r = JsonValue::Array(items);
        proof {
            assert(json_seq_of(items@) =~= spec_pieces.map_values(
                |p: Seq<char>| Json::Str(trim_spec(p)),
            ));
        }
        r
    } else if str_eq(key, "tls") && str_eq(value, "true") {
        let r = JsonValue::Object(JsonMap::new());
        r
    } else {
        JsonValue::String(String::from_str(value))
    }
}

/// Insert a value into a nested JSON object based on a key path (the keys from position
/// `start` on).
/// For example, ["tls", "certresolver"] with value "letsencrypt"
/// becomes: {"tls": {"certResolver": "letsencrypt"}}
pub fn insert_nested_value(map: &mut JsonMap, keys: &Vec<String>, start: usize, value: &str)
    requires
        start <= keys@.len(),
    ensures
        final(map)@ == insert_nested_spec(
            old(map)@,
            strings_view(keys@).skip(start as int),
            value@,
        ),
    decreases keys@.len() - start,
{
    let ghost path = strings_view(keys@).skip(start as int);
    if start == keys.len() {
        return;
    }
    assert(path[0] == keys@[start as int]@);
    if start + 1 == keys.len() {
        let key = normalize_key(keys[start].as_str());
        let v = parse_value(keys[start].as_str(), value);
        map.insert(key, v);
        return;
    }
    assert(path.skip(1) =~= strings_view(keys@).skip(start + 1));
    let key = normalize_key(keys[start].as_str());
    let mut slot = JsonValue::Null;
    if map.swap_value(key.as_str(), &mut slot) {
        let ghost before = slot;
        match slot {
            JsonValue::Object(mut nested) => {
                insert_nested_value(&mut nested, keys, start + 1, value);
                slot = JsonValue::Object(nested);
            },
            _ => {},
        }
        map.swap_value(key.as_str(), &mut slot);
        proof {
            match before {
                JsonValue::Object(_) => {},
                _ => {
                    assert(final(map)@ =~= old(map)@);
                },
            }
        }
    } else {
        let mut nested = JsonMap::new();
        insert_nested_value(&mut nested, keys, start + 1, value);
        map.insert(key, JsonValue::Object(nested));
    }
}

/// Applies one key path and value to the object of `name` in `table`, creating it when missing.
fn apply_to_table(table: &mut StrMap<JsonMap>, name: &String, keys: &Vec<String>, value: &str)
    requires
        3 <= keys@.len(),
    ensures
        objects_view(*final(table)) == apply_to(
            objects_view(*old(table)),
            name@,
            strings_view(keys@).skip(3),
            value@,
        ),
        keys_of(final(table).entry_seq()) == add_name(keys_of(old(table).entry_seq()), name@),
{
    let ghost before = objects_view(*table);
    let ghost s0 = table.entry_seq();
    proof {
        lemma_keys_of_contains(s0, name@);
    }
    let mut obj = JsonMap::new();
    let ghost empty = obj;
    if table.swap_value(name.as_str(), &mut obj) {
        insert_nested_value(&mut obj, keys, 3, value);
        table.swap_value(name.as_str(), &mut obj);
        proof {
            let s1 = replace_value(s0, name@, empty);
            assert(keys_of(s1) =~= keys_of(s0));
            lemma_keys_of_contains(s1, name@);
            assert(keys_of(table.entry_seq()) =~= keys_of(s1));
        }
    } else {
        insert_nested_value(&mut obj, keys, 3, value);
        table.insert(name.clone(), obj);
        proof {
            assert(keys_of(table.entry_seq()) =~= keys_of(s0).push(name@));
        }
    }
    proof {
        assert(objects_view(*final(table)) =~= apply_to(
            before,
            name@,
            strings_view(keys@).skip(3),
            value@,
        ));
    }
}

/// The names after a label names a router or service: a new name goes last.
pub open spec fn add_name(names: Seq<Seq<char>>, name: Seq<char>) -> Seq<Seq<char>> {
    if names.contains(name) {
        names
    } else {
        names.push(name)
    }
}

/// The names of routers and services, each in the order of the first label that names it.
pub open spec fn fold_names(labels: Seq<(Seq<char>, Seq<char>)>) -> (Seq<Seq<char>>, Seq<Seq<char>>)
    decreases labels.len(),
{
    if labels.len() == 0 {
        (Seq::empty(), Seq::empty())
    } else {
        let prev = fold_names(labels.drop_last());
        match label_target(labels.last().0) {
            LabelTarget::Router(name, _) => (add_name(prev.0, name), prev.1),
            LabelTarget::Service(name, _) => (prev.0, add_name(prev.1, name)),
            LabelTarget::Ignored => prev,
        }
    }
}

/// The key list of an entry list holds exactly the keys that some entry has.
pub proof fn lemma_keys_of_contains<V>(s: Seq<(String, V)>, k: Seq<char>)
    ensures
        keys_of(s).contains(k) <==> has_key(s, k),
{
    if has_key(s, k) {
        let i = choose|i: int| 0 <= i < s.len() && #[trigger] s[i].0@ == k;
        assert(keys_of(s)[i] == k);
    }
}

/// Parse Traefik labels into a structured format.
/// Labels like "traefik.http.routers.myapp.rule" = "Host(`x.com`)"
/// are converted into nested JSON objects.
pub fn parse_traefik_labels(labels: &StrMap<String>) -> (r: ParsedLabels)
    ensures
        r.tables() == parse_labels_spec(labels_view(labels.entry_seq())),
        (keys_of(r.routers.entry_seq()), keys_of(r.services.entry_seq())) == fold_names(
            labels_view(labels.entry_seq()),
        ),
{
    let mut routers: StrMap<JsonMap> = StrMap::new();
    let mut services: StrMap<JsonMap> = StrMap::new();
    let ghost lv = labels_view(labels.entry_seq());
    assert(objects_view(routers) =~= Map::empty());
    assert(objects_view(services) =~= Map::empty());
    assert(keys_of(routers.entry_seq()) =~= Seq::<Seq<char>>::empty());
    assert(keys_of(services.entry_seq()) =~= Seq::<Seq<char>>::empty());
    let mut i: usize = 0;
    while i < labels.len()
        invariant
            i <= labels.entry_seq().len(),
            lv == labels_view(labels.entry_seq()),
            (objects_view(routers), objects_view(services)) == parse_labels_spec(lv.take(i as int)),
            (keys_of(routers.entry_seq()), keys_of(services.entry_seq())) == fold_names(
                lv.take(i as int),
            ),
        decreases labels.entry_seq().len() - i,
    {
        proof {
            assert(lv.take(i + 1).drop_last() =~= lv.take(i as int));
        }
        let entry = labels.entry_at(i);
        let key = entry.0.as_str();
        let value = entry.1.as_str();
        // Skip non-traefik labels
        match strip_prefix(key, "traefik.") {
            None => {},
            Some(stripped) => {
                proof {
                    reveal_strlit("traefik.");
                }
                let parts = split_char(stripped, '.');
                let ghost sp = split_on(key@.skip(8), '.');
                proof {
                    assert(strings_view(parts@) =~= sp);
                }
                if parts.len() >= 3 && str_eq(parts[0].as_str(), "http") {
                    proof {
                        assert(strings_view(parts@).skip(3) =~= sp.skip(3));
                    }
                    if str_eq(parts[1].as_str(), "routers") {
                        apply_to_table(&mut routers, &parts[2], &parts, value);
                    } else if str_eq(parts[1].as_str(), "services") {
                        apply_to_table(&mut services, &parts[2], &parts, value);
                    }
                }
            },
        }
        i = i + 1;
    }
    proof {
        assert(lv.take(lv.len() as int) =~= lv);
    }
    ParsedLabels { routers, services }
}

/// The value at a key path inside a JSON value, when each step is an object holding the key.
pub open spec fn json_at(j: Json, path: Seq<Seq<char>>) -> Option<Json>
    decreases path.len(),
{
    if path.len() == 0 {
        Some(j)
    } else {
        match j {
            Json::Obj(m) => if m.contains_key(path[0]) {
                json_at(m[path[0]], path.skip(1))
            } else {
                None
            },
            _ => None,
        }
    }
}

/// No step of `path` inside `m` holds a value that is not an object.
pub open spec fn path_open(m: Map<Seq<char>, Json>, path: Seq<Seq<char>>) -> bool
    decreases path.len(),
{
    path.len() == 0 || !m.contains_key(path[0]) || match m[path[0]] {
        Json::Obj(inner) => path_open(inner, path.skip(1)),
        _ => false,
    }
}

/// The JSON field names of a path of Traefik key segments.
pub open spec fn normalized_path(keys: Seq<Seq<char>>) -> Seq<Seq<char>> {
    keys.map_values(|k: Seq<char>| normalize_key_spec(k))
}

/// What is inserted at a key path can be read back there: when no value that is not an object
/// stands on the way, the value at the normalized path is the parsed label value.
pub proof fn lemma_insert_nested_read_back(m: Map<Seq<char>, Json>, keys: Seq<Seq<char>>, value: Seq<char>)
    requires
        keys.len() >= 1,
        path_open(m, normalized_path(keys).drop_last()),
    ensures
        json_at(Json::Obj(insert_nested_spec(m, keys, value)), normalized_path(keys)) == Some(
            parse_value_spec(keys.last(), value),
        ),
    decreases keys.len(),
{
    let np = normalized_path(keys);
    let k = normalize_key_spec(keys[0]);
    assert(np[0] == k);
    if keys.len() == 1 {
        let pv = parse_value_spec(keys[0], value);
        assert(insert_nested_spec(m, keys, value) == m.insert(k, pv));
        assert(np.skip(1).len() == 0);
        assert(json_at(pv, np.skip(1)) == Some(pv));
    } else {
        let rest = keys.skip(1);
        assert(normalized_path(rest) =~= np.skip(1));
        assert(np.drop_last()[0] == k);
        assert(np.drop_last().skip(1) =~= normalized_path(rest).drop_last());
        assert(rest.last() == keys.last());
        let inner = if m.contains_key(k) {
            match m[k] {
                Json::Obj(inner) => inner,
                _ => Map::empty(),
            }
        } else {
            Map::empty()
        };
        if !m.contains_key(k) {
            assert(path_open(Map::<Seq<char>, Json>::empty(), normalized_path(rest).drop_last()));
        }
        let after = insert_nested_spec(inner, rest, value);
        assert(insert_nested_spec(m, keys, value) == m.insert(k, Json::Obj(after)));
        lemma_insert_nested_read_back(inner, rest, value);
        assert(json_at(Json::Obj(m.insert(k, Json::Obj(after))), np) == json_at(
            Json::Obj(after),
            np.skip(1),
        ));
    }
}

/// An insertion at a key path touches only the entry of the path's first key.
pub proof fn lemma_insert_nested_frame(m: Map<Seq<char>, Json>, keys: Seq<Seq<char>>, value: Seq<char>)
    requires
        keys.len() >= 1,
    ensures
        insert_nested_spec(m, keys, value).remove(normalize_key_spec(keys[0])) == m.remove(
            normalize_key_spec(keys[0]),
        ),
        insert_nested_spec(m, keys, value).contains_key(normalize_key_spec(keys[0])),
{
    let k = normalize_key_spec(keys[0]);
    assert(insert_nested_spec(m, keys, value).remove(k) =~= m.remove(k));
}

/// Applying labels one list after another is applying their concatenation.
pub proof fn lemma_fold_labels_append(
    start: (ObjectTable, ObjectTable),
    a: Seq<(Seq<char>, Seq<char>)>,
    b: Seq<(Seq<char>, Seq<char>)>,
)
    ensures
        fold_labels(start, a + b) == fold_labels(fold_labels(start, a), b),
    decreases b.len(),
{
    if b.len() == 0 {
        assert(a + b =~= a);
    } else {
        assert((a + b).drop_last() =~= a + b.drop_last());
        lemma_fold_labels_append(start, a, b.drop_last());
    }
}

/// A label that configures no HTTP router or service changes nothing, wherever it stands.
pub proof fn lemma_ignored_label(
    before: Seq<(Seq<char>, Seq<char>)>,
    key: Seq<char>,
    value: Seq<char>,
    after: Seq<(Seq<char>, Seq<char>)>,
)
    requires
        label_target(key) is Ignored,
    ensures
        parse_labels_spec(before + seq![(key, value)] + after) == parse_labels_spec(before + after),
{
    let start = (Map::<Seq<char>, Map<Seq<char>, Json>>::empty(), Map::<Seq<char>, Map<Seq<char>, Json>>::empty());
    lemma_fold_labels_append(start, before + seq![(key, value)], after);
    lemma_fold_labels_append(start, before, after);
    assert((before + seq![(key, value)]).drop_last() =~= before);
}

/// The label names the router `name`.
pub open spec fn names_router(key: Seq<char>, name: Seq<char>) -> bool {
    match label_target(key) {
        LabelTarget::Router(n, _) => n == name,
        _ => false,
    }
}

/// The label names the service `name`.
pub open spec fn names_service(key: Seq<char>, name: Seq<char>) -> bool {
    match label_target(key) {
        LabelTarget::Service(n, _) => n == name,
        _ => false,
    }
}

/// The routers that labels configure are exactly those that some router label names, and the
/// same holds for services.
pub proof fn lemma_parsed_names(labels: Seq<(Seq<char>, Seq<char>)>, name: Seq<char>)
    ensures
        parse_labels_spec(labels).0.contains_key(name) <==> exists|i: int|
            0 <= i < labels.len() && #[trigger] names_router(labels[i].0, name),
        parse_labels_spec(labels).1.contains_key(name) <==> exists|i: int|
            0 <= i < labels.len() && #[trigger] names_service(labels[i].0, name),
    decreases labels.len(),
{
    if labels.len() > 0 {
        let init = labels.drop_last();
        lemma_parsed_names(init, name);
        assert forall|i: int| 0 <= i < init.len() implies #[trigger] init[i] == labels[i] by {}
        let last = labels.len() - 1;
        assert(labels.last() == labels[last]);
        assert(parse_labels_spec(labels) == apply_label(parse_labels_spec(init), labels[last].0, labels[last].1));
        let r = names_router(labels[last].0, name);
        let sv = names_service(labels[last].0, name);
        if exists|i: int| 0 <= i < labels.len() && #[trigger] names_router(labels[i].0, name) {
            let i = choose|i: int| 0 <= i < labels.len() && #[trigger] names_router(labels[i].0, name);
            if i < init.len() {
                assert(init[i] == labels[i]);
            }
        }
        if exists|i: int| 0 <= i < labels.len() && #[trigger] names_service(labels[i].0, name) {
            let i = choose|i: int| 0 <= i < labels.len() && #[trigger] names_service(labels[i].0, name);
            if i < init.len() {
                assert(init[i] == labels[i]);
            }
        }
    }
}

/// A name is in a list after adding a name when it was there or is the added one.
proof fn lemma_add_name_contains(names: Seq<Seq<char>>, n: Seq<char>, name: Seq<char>)
    ensures
        add_name(names, n).contains(name) <==> (names.contains(name) || n == name),
{
    if !names.contains(n) {
        let p = names.push(n);
        assert(p[names.len() as int] == n);
        if names.contains(name) {
            let j = choose|j: int| 0 <= j < names.len() && names[j] == name;
            assert(p[j] == names[j]);
        }
        if p.contains(name) {
            let j = choose|j: int| 0 <= j < p.len() && p[j] == name;
            if j < names.len() {
                assert(p[j] == names[j]);
            }
        }
    }
}

/// The name lists hold each name once, and exactly the names some label names.
pub proof fn lemma_fold_names(labels: Seq<(Seq<char>, Seq<char>)>, name: Seq<char>)
    ensures
        fold_names(labels).0.no_duplicates(),
        fold_names(labels).1.no_duplicates(),
        fold_names(labels).0.contains(name) <==> exists|i: int|
            0 <= i < labels.len() && #[trigger] names_router(labels[i].0, name),
        fold_names(labels).1.contains(name) <==> exists|i: int|
            0 <= i < labels.len() && #[trigger] names_service(labels[i].0, name),
    decreases labels.len(),
{
    if labels.len() > 0 {
        let init = labels.drop_last();
        lemma_fold_names(init, name);
        let prev = fold_names(init);
        let last = labels.len() - 1;
        assert(labels.last() == labels[last]);
        assert forall|i: int| 0 <= i < init.len() implies #[trigger] init[i] == labels[i] by {}
        match label_target(labels.last().0) {
            LabelTarget::Router(n, _) => {
                lemma_fold_names(init, n);
                lemma_add_name_contains(prev.0, n, name);
                assert(names_router(labels[last].0, name) == (n == name));
                assert(!names_service(labels[last].0, name));
                if !prev.0.contains(n) {
                    assert forall|a: int, b: int| 0 <= a < prev.0.push(n).len() && 0 <= b < prev.0.push(n).len() && a != b
                        implies prev.0.push(n)[a] != prev.0.push(n)[b] by {
                        if a == prev.0.len() {
                            assert(prev.0.contains(prev.0[b]));
                        } else if b == prev.0.len() {
                            assert(prev.0.contains(prev.0[a]));
                        }
                    }
                }
            },
            LabelTarget::Service(n, _) => {
                lemma_fold_names(init, n);
                lemma_add_name_contains(prev.1, n, name);
                assert(names_service(labels[last].0, name) == (n == name));
                assert(!names_router(labels[last].0, name));
                if !prev.1.contains(n) {
                    assert forall|a: int, b: int| 0 <= a < prev.1.push(n).len() && 0 <= b < prev.1.push(n).len() && a != b
                        implies prev.1.push(n)[a] != prev.1.push(n)[b] by {
                        if a == prev.1.len() {
                            assert(prev.1.contains(prev.1[b]));
                        } else if b == prev.1.len() {
                            assert(prev.1.contains(prev.1[a]));
                        }
                    }
                }
            },
            LabelTarget::Ignored => {
                assert(!names_router(labels[last].0, name));
                assert(!names_service(labels[last].0, name));
            },
        }
        if names_router(labels[last].0, name) {
            assert(exists|i: int| 0 <= i < labels.len() && #[trigger] names_router(labels[i].0, name));
        }
        if names_service(labels[last].0, name) {
            assert(exists|i: int| 0 <= i < labels.len() && #[trigger] names_service(labels[i].0, name));
        }
        if exists|i: int| 0 <= i < labels.len() && #[trigger] names_router(labels[i].0, name) {
            let i = choose|i: int| 0 <= i < labels.len() && #[trigger] names_router(labels[i].0, name);
            if i < init.len() {
                assert(names_router(init[i].0, name));
            }
        }
        if exists|i: int| 0 <= i < labels.len() && #[trigger] names_service(labels[i].0, name) {
            let i = choose|i: int| 0 <= i < labels.len() && #[trigger] names_service(labels[i].0, name);
            if i < init.len() {
                assert(names_service(init[i].0, name));
            }
        }
        if exists|i: int| 0 <= i < init.len() && #[trigger] names_router(init[i].0, name) {
            let i = choose|i: int| 0 <= i < init.len() && #[trigger] names_router(init[i].0, name);
            assert(names_router(labels[i].0, name));
        }
        if exists|i: int| 0 <= i < init.len() && #[trigger] names_service(init[i].0, name) {
            let i = choose|i: int| 0 <= i < init.len() && #[trigger] names_service(init[i].0, name);
            assert(names_service(labels[i].0, name));
        }
    }
}

/// The name lists count the routers and the services: one name per router or service.
pub proof fn lemma_name_counts(labels: Seq<(Seq<char>, Seq<char>)>)
    ensures
        fold_names(labels).0.len() == parse_labels_spec(labels).0.dom().len(),
        fold_names(labels).1.len() == parse_labels_spec(labels).1.dom().len(),
{
    let names = fold_names(labels);
    let tables = parse_labels_spec(labels);
    assert forall|n: Seq<char>| #[trigger] names.0.to_set().contains(n) == tables.0.dom().contains(n) by {
        lemma_fold_names(labels, n);
        lemma_parsed_names(labels, n);
    }
    assert forall|n: Seq<char>| #[trigger] names.1.to_set().contains(n) == tables.1.dom().contains(n) by {
        lemma_fold_names(labels, n);
        lemma_parsed_names(labels, n);
    }
    assert(names.0.to_set() =~= tables.0.dom());
    assert(names.1.to_set() =~= tables.1.dom());
    lemma_fold_names(labels, Seq::empty());
    names.0.unique_seq_to_set();
    names.1.unique_seq_to_set();
}


/// Two key paths of one router or service conflict when both are non-empty and one normalized
/// path equals the other or is a proper prefix of it.
pub open spec fn paths_conflict(p1: Seq<Seq<char>>, p2: Seq<Seq<char>>) -> bool {
    &&& p1.len() > 0
    &&& p2.len() > 0
    &&& (normalized_path(p1).is_prefix_of(normalized_path(p2)) || normalized_path(p2).is_prefix_of(
        normalized_path(p1),
    ))
}

/// Two label keys conflict when they set conflicting paths of the same router or service.
pub open spec fn labels_conflict(k1: Seq<char>, k2: Seq<char>) -> bool {
    match (label_target(k1), label_target(k2)) {
        (LabelTarget::Router(n1, p1), LabelTarget::Router(n2, p2)) => n1 == n2 && paths_conflict(p1, p2),
        (LabelTarget::Service(n1, p1), LabelTarget::Service(n2, p2)) => n1 == n2 && paths_conflict(p1, p2),
        _ => false,
    }
}

/// What an insertion at a key path leaves under the path's first key depends only on what was
/// there before.
proof fn lemma_insert_nested_local(
    m1: Map<Seq<char>, Json>,
    m2: Map<Seq<char>, Json>,
    keys: Seq<Seq<char>>,
    value: Seq<char>,
)
    requires
        keys.len() >= 1,
        m1.get(normalize_key_spec(keys[0])) == m2.get(normalize_key_spec(keys[0])),
    ensures
        insert_nested_spec(m1, keys, value).get(normalize_key_spec(keys[0])) == insert_nested_spec(
            m2,
            keys,
            value,
        ).get(normalize_key_spec(keys[0])),
{
    let k = normalize_key_spec(keys[0]);
    if keys.len() > 1 && m1.contains_key(k) {
        assert(m1[k] == m2[k]);
    }
}

/// An insertion at a key path is the map with the entry of the path's first key replaced.
proof fn lemma_insert_nested_shape(m: Map<Seq<char>, Json>, keys: Seq<Seq<char>>, value: Seq<char>)
    requires
        keys.len() >= 1,
    ensures
        insert_nested_spec(m, keys, value) == m.insert(
            normalize_key_spec(keys[0]),
            insert_nested_spec(m, keys, value)[normalize_key_spec(keys[0])],
        ),
{
    let k = normalize_key_spec(keys[0]);
    lemma_insert_nested_frame(m, keys, value);
    let r = insert_nested_spec(m, keys, value);
    assert(r =~= m.insert(k, r[k])) by {
        assert forall|x: Seq<char>| x != k implies #[trigger] r.get(x) == m.get(x) by {
            assert(r.remove(k).get(x) == m.remove(k).get(x));
        }
    }
}

/// Insertions at two key paths commute when neither normalized path is a prefix of the other.
proof fn lemma_insert_nested_commute(
    m: Map<Seq<char>, Json>,
    p1: Seq<Seq<char>>,
    v1: Seq<char>,
    p2: Seq<Seq<char>>,
    v2: Seq<char>,
)
    requires
        p1.len() >= 1,
        p2.len() >= 1,
        !normalized_path(p1).is_prefix_of(normalized_path(p2)),
        !normalized_path(p2).is_prefix_of(normalized_path(p1)),
    ensures
        insert_nested_spec(insert_nested_spec(m, p1, v1), p2, v2) == insert_nested_spec(
            insert_nested_spec(m, p2, v2),
            p1,
            v1,
        ),
    decreases p1.len(),
{
    let k1 = normalize_key_spec(p1[0]);
    let k2 = normalize_key_spec(p2[0]);
    let np1 = normalized_path(p1);
    let np2 = normalized_path(p2);
    let a1 = insert_nested_spec(m, p1, v1);
    let a2 = insert_nested_spec(m, p2, v2);
    let a12 = insert_nested_spec(a1, p2, v2);
    let a21 = insert_nested_spec(a2, p1, v1);
    if k1 != k2 {
        lemma_insert_nested_shape(m, p1, v1);
        lemma_insert_nested_shape(m, p2, v2);
        lemma_insert_nested_shape(a1, p2, v2);
        lemma_insert_nested_shape(a2, p1, v1);
        assert(a1.get(k2) == m.get(k2));
        assert(a2.get(k1) == m.get(k1));
        lemma_insert_nested_local(a1, m, p2, v2);
        lemma_insert_nested_local(a2, m, p1, v1);
        lemma_insert_nested_frame(a1, p2, v2);
        lemma_insert_nested_frame(a2, p1, v1);
        lemma_insert_nested_frame(m, p1, v1);
        lemma_insert_nested_frame(m, p2, v2);
        assert(a12 =~= a21);
    } else {
        let k = k1;
        assert(np1[0] == k && np2[0] == k);
        if p1.len() == 1 {
            assert(np1 =~= np2.subrange(0, 1));
            assert(false);
        }
        if p2.len() == 1 {
            assert(np2 =~= np1.subrange(0, 1));
            assert(false);
        }
        let q1 = p1.skip(1);
        let q2 = p2.skip(1);
        assert(normalized_path(q1) =~= np1.skip(1));
        assert(normalized_path(q2) =~= np2.skip(1));
        if normalized_path(q1).is_prefix_of(normalized_path(q2)) {
            assert(np1 =~= np2.subrange(0, np1.len() as int)) by {
                assert forall|i: int| 0 <= i < np1.len() implies np1[i] == np2.subrange(0, np1.len() as int)[i] by {
                    if i > 0 {
                        assert(np1[i] == normalized_path(q1)[i - 1]);
                        assert(np2[i] == normalized_path(q2)[i - 1]);
                    }
                }
            }
            assert(false);
        }
        if normalized_path(q2).is_prefix_of(normalized_path(q1)) {
            assert(np2 =~= np1.subrange(0, np2.len() as int)) by {
                assert forall|i: int| 0 <= i < np2.len() implies np2[i] == np1.subrange(0, np2.len() as int)[i] by {
                    if i > 0 {
                        assert(np1[i] == normalized_path(q1)[i - 1]);
                        assert(np2[i] == normalized_path(q2)[i - 1]);
                    }
                }
            }
            assert(false);
        }
        if m.contains_key(k) {
            match m[k] {
                Json::Obj(inner) => {
                    lemma_insert_nested_commute(inner, q1, v1, q2, v2);
                    assert(a12 =~= a21);
                },
                _ => {},
            }
        } else {
            lemma_insert_nested_commute(Map::empty(), q1, v1, q2, v2);
            assert(a12 =~= a21);
        }
    }
}

/// Applying key paths to the objects of two names commutes, unless the names are equal and the
/// paths conflict.
proof fn lemma_apply_to_commute(
    t: ObjectTable,
    n1: Seq<char>,
    p1: Seq<Seq<char>>,
    v1: Seq<char>,
    n2: Seq<char>,
    p2: Seq<Seq<char>>,
    v2: Seq<char>,
)
    requires
        !(n1 == n2 && paths_conflict(p1, p2)),
    ensures
        apply_to(apply_to(t, n1, p1, v1), n2, p2, v2) == apply_to(apply_to(t, n2, p2, v2), n1, p1, v1),
{
    if n1 != n2 {
        assert(apply_to(apply_to(t, n1, p1, v1), n2, p2, v2) =~= apply_to(apply_to(t, n2, p2, v2), n1, p1, v1));
    } else {
        let obj = if t.contains_key(n1) {
            t[n1]
        } else {
            Map::empty()
        };
        if p1.len() > 0 && p2.len() > 0 {
            lemma_insert_nested_commute(obj, p1, v1, p2, v2);
        }
        assert(apply_to(apply_to(t, n1, p1, v1), n2, p2, v2) =~= apply_to(apply_to(t, n2, p2, v2), n1, p1, v1));
    }
}

/// Two labels that do not conflict can be applied in either order.
proof fn lemma_apply_label_commute(
    tables: (ObjectTable, ObjectTable),
    k1: Seq<char>,
    v1: Seq<char>,
    k2: Seq<char>,
    v2: Seq<char>,
)
    requires
        !labels_conflict(k1, k2),
    ensures
        apply_label(apply_label(tables, k1, v1), k2, v2) == apply_label(apply_label(tables, k2, v2), k1, v1),
{
    match (label_target(k1), label_target(k2)) {
        (LabelTarget::Router(n1, p1), LabelTarget::Router(n2, p2)) => {
            lemma_apply_to_commute(tables.0, n1, p1, v1, n2, p2, v2);
        },
        (LabelTarget::Service(n1, p1), LabelTarget::Service(n2, p2)) => {
            lemma_apply_to_commute(tables.1, n1, p1, v1, n2, p2, v2);
        },
        _ => {},
    }
}

/// A label that conflicts with none of the labels after it can be applied last instead.
proof fn lemma_move_label_last(
    start: (ObjectTable, ObjectTable),
    pre: Seq<(Seq<char>, Seq<char>)>,
    x: (Seq<char>, Seq<char>),
    post: Seq<(Seq<char>, Seq<char>)>,
)
    requires
        forall|i: int| 0 <= i < post.len() ==> !labels_conflict(x.0, #[trigger] post[i].0),
    ensures
        fold_labels(start, pre + seq![x] + post) == fold_labels(start, pre + post + seq![x]),
    decreases post.len(),
{
    if post.len() == 0 {
        assert(pre + seq![x] + post =~= pre + post + seq![x]);
    } else {
        let y = post.last();
        let rest = post.drop_last();
        assert(!labels_conflict(x.0, post[post.len() - 1].0));
        assert forall|i: int| 0 <= i < rest.len() implies !labels_conflict(x.0, #[trigger] rest[i].0) by {
            assert(rest[i] == post[i]);
        }
        lemma_move_label_last(start, pre, x, rest);
        assert((pre + seq![x] + post).drop_last() =~= pre + seq![x] + rest);
        assert((pre + seq![x] + post).last() == y);
        assert((pre + rest + seq![x]).drop_last() =~= pre + rest);
        assert((pre + rest + seq![x]).last() == x);
        assert((pre + post + seq![x]).drop_last() =~= pre + post);
        assert((pre + post).drop_last() =~= pre + rest);
        assert((pre + post).last() == y);
        let base = fold_labels(start, pre + rest);
        lemma_apply_label_commute(base, x.0, x.1, y.0, y.1);
        assert(fold_labels(start, pre + seq![x] + post) == apply_label(
            fold_labels(start, pre + seq![x] + rest),
            y.0,
            y.1,
        ));
        assert(fold_labels(start, pre + rest + seq![x]) == apply_label(base, x.0, x.1));
        assert(fold_labels(start, pre + post) == apply_label(base, y.0, y.1));
        assert(fold_labels(start, pre + post + seq![x]) == apply_label(
            fold_labels(start, pre + post),
            x.0,
            x.1,
        ));
    }
}

/// The routers and services that labels configure do not depend on the order of the labels,
/// as long as no two labels set conflicting paths of one router or service (a path that equals
/// another, or is a proper prefix of it, after normalization): any reordering gives the same
/// result.
pub proof fn lemma_parse_order_independent(
    labels: Seq<(Seq<char>, Seq<char>)>,
    reordered: Seq<(Seq<char>, Seq<char>)>,
)
    requires
        reordered.to_multiset() == labels.to_multiset(),
        forall|i: int, j: int|
            0 <= i < labels.len() && 0 <= j < labels.len() && i != j ==> !labels_conflict(
                #[trigger] labels[i].0,
                #[trigger] labels[j].0,
            ),
    ensures
        parse_labels_spec(reordered) == parse_labels_spec(labels),
    decreases reordered.len(),
{
    broadcast use vstd::multiset::group_multiset_axioms;

    labels.to_multiset_ensures();
    reordered.to_multiset_ensures();
    let start = (Map::<Seq<char>, Map<Seq<char>, Json>>::empty(), Map::<Seq<char>, Map<Seq<char>, Json>>::empty());
    if reordered.len() == 0 {
        assert(labels.len() == 0);
        assert(labels =~= reordered);
    } else {
        let x = reordered.last();
        let d = reordered.drop_last();
        assert(d.push(x) =~= reordered);
        d.to_multiset_ensures();
        assert(reordered.to_multiset().count(x) > 0);
        assert(labels.contains(x));
        let j = choose|j: int| 0 <= j < labels.len() && labels[j] == x;
        let rest = labels.remove(j);
        labels.remove_ensures(j);
        assert(rest.to_multiset() =~= d.to_multiset());
        assert forall|a: int, b: int|
            0 <= a < rest.len() && 0 <= b < rest.len() && a != b implies !labels_conflict(
                #[trigger] rest[a].0,
                #[trigger] rest[b].0,
            ) by {
            let ia = if a < j { a } else { a + 1 };
            let ib = if b < j { b } else { b + 1 };
            assert(rest[a] == labels[ia]);
            assert(rest[b] == labels[ib]);
        }
        lemma_parse_order_independent(rest, d);
        let pre = labels.take(j);
        let post = labels.skip(j + 1);
        assert(labels =~= pre + seq![x] + post);
        assert(rest =~= pre + post);
        assert forall|i: int| 0 <= i < post.len() implies !labels_conflict(x.0, #[trigger] post[i].0) by {
            assert(post[i] == labels[j + 1 + i]);
        }
        lemma_move_label_last(start, pre, x, post);
        assert((pre + post + seq![x]).drop_last() =~= pre + post);
        assert((pre + post + seq![x]).last() == x);
    }
}


/// A label that configures a router starts with `traefik.http.routers.`, and one that configures
/// a service starts with `traefik.http.services.`.
pub proof fn lemma_target_prefix(key: Seq<char>)
    ensures
        label_target(key) is Router ==> has_prefix(key, "traefik.http.routers."@),
        label_target(key) is Service ==> has_prefix(key, "traefik.http.services."@),
{
    reveal_strlit("traefik.");
    reveal_strlit("http");
    reveal_strlit("routers");
    reveal_strlit("services");
    reveal_strlit("traefik.http.routers.");
    reveal_strlit("traefik.http.services.");
    if !(label_target(key) is Ignored) {
        let t = key.skip(8);
        let parts = split_on(t, '.');
        lemma_split_on_first(t, '.');
        let u = t.skip(5);
        assert(parts.skip(1)[0] == parts[1]);
        lemma_split_on_first(u, '.');
        let w = parts[1];
        assert(key.take(8) =~= "traefik."@);
        assert(t.take(4) =~= "http"@);
        if label_target(key) is Router {
            assert(w == "routers"@);
            assert(u.take(7) =~= w);
            assert(key.take(21) =~= "traefik.http.routers."@) by {
                assert forall|i: int| 0 <= i < 21 implies key.take(21)[i] == "traefik.http.routers."@[i] by {
                    if i < 8 {
                        assert(key.take(8)[i] == key[i]);
                    } else if i < 12 {
                        assert(t.take(4)[i - 8] == key[i]);
                    } else if i == 12 {
                        assert(t[4] == key[i]);
                    } else if i < 20 {
                        assert(u.take(7)[i - 13] == key[i]);
                    } else {
                        assert(u[7] == key[i]);
                    }
                }
            }
        } else {
            assert(w == "services"@);
            assert(u.take(8) =~= w);
            assert(key.take(22) =~= "traefik.http.services."@) by {
                assert forall|i: int| 0 <= i < 22 implies key.take(22)[i] == "traefik.http.services."@[i] by {
                    if i < 8 {
                        assert(key.take(8)[i] == key[i]);
                    } else if i < 12 {
                        assert(t.take(4)[i - 8] == key[i]);
                    } else if i == 12 {
                        assert(t[4] == key[i]);
                    } else if i < 21 {
                        assert(u.take(8)[i - 13] == key[i]);
                    } else {
                        assert(u[8] == key[i]);
                    }
                }
            }
        }
    }
}

/// A label whose key starts with neither `traefik.http.routers.` nor `traefik.http.services.`
/// (not a Traefik label, another protocol, a middleware, or too short) changes nothing,
/// wherever it stands.
pub proof fn lemma_non_http_label(
    before: Seq<(Seq<char>, Seq<char>)>,
    key: Seq<char>,
    value: Seq<char>,
    after: Seq<(Seq<char>, Seq<char>)>,
)
    requires
        !has_prefix(key, "traefik.http.routers."@),
        !has_prefix(key, "traefik.http.services."@),
    ensures
        parse_labels_spec(before + seq![(key, value)] + after) == parse_labels_spec(before + after),
{
    lemma_target_prefix(key);
    lemma_ignored_label(before, key, value, after);
}

/// A label is among the labels of a table exactly when the table holds its key with its value.
proof fn lemma_labels_view_contains(s: Seq<(String, String)>, x: (Seq<char>, Seq<char>))
    requires
        unique_keys(s),
    ensures
        labels_view(s).contains(x) <==> (entries_map(s).contains_key(x.0) && entries_map(s)[x.0]@ == x.1),
{
    let lv = labels_view(s);
    if lv.contains(x) {
        let i = choose|i: int| 0 <= i < lv.len() && lv[i] == x;
        lemma_entries_map_at(s, i);
    }
    if entries_map(s).contains_key(x.0) && entries_map(s)[x.0]@ == x.1 {
        let i = choose|i: int| 0 <= i < s.len() && #[trigger] s[i].0@ == x.0;
        lemma_entries_map_at(s, i);
        assert(lv[i] == x);
    }
}

/// The labels of a table with unique keys, as a multiset: each label once.
proof fn lemma_labels_view_counts(s: Seq<(String, String)>, x: (Seq<char>, Seq<char>))
    requires
        unique_keys(s),
    ensures
        labels_view(s).to_multiset().count(x) == if labels_view(s).contains(x) {
            1nat
        } else {
            0nat
        },
{
    let lv = labels_view(s);
    assert(lv.no_duplicates()) by {
        assert forall|i: int, j: int| 0 <= i < lv.len() && 0 <= j < lv.len() && i != j implies lv[i] != lv[j] by {
            assert(s[i].0@ != s[j].0@);
        }
    }
    lv.lemma_multiset_has_no_duplicates();
    lv.to_multiset_ensures();
}

/// The routers and services that a table of labels configures depend only on which labels it
/// holds, not on the order in which it keeps them, as long as no two of its labels set
/// conflicting paths of one router or service.
pub proof fn lemma_parse_label_set(a: StrMap<String>, b: StrMap<String>)
    requires
        unique_keys(a.entry_seq()),
        unique_keys(b.entry_seq()),
        a@ == b@,
        forall|i: int, j: int|
            0 <= i < a.entry_seq().len() && 0 <= j < a.entry_seq().len() && i != j ==> !labels_conflict(
                #[trigger] a.entry_seq()[i].0@,
                #[trigger] a.entry_seq()[j].0@,
            ),
    ensures
        parse_labels_spec(labels_view(b.entry_seq())) == parse_labels_spec(labels_view(a.entry_seq())),
{
    let la = labels_view(a.entry_seq());
    let lb = labels_view(b.entry_seq());
    assert forall|x: (Seq<char>, Seq<char>)| #[trigger] lb.to_multiset().count(x) == la.to_multiset().count(x) by {
        lemma_labels_view_contains(a.entry_seq(), x);
        lemma_labels_view_contains(b.entry_seq(), x);
        lemma_labels_view_counts(a.entry_seq(), x);
        lemma_labels_view_counts(b.entry_seq(), x);
    }
    assert(lb.to_multiset() =~= la.to_multiset());
    assert forall|i: int, j: int| 0 <= i < la.len() && 0 <= j < la.len() && i != j implies !labels_conflict(
        #[trigger] la[i].0,
        #[trigger] la[j].0,
    ) by {
        assert(la[i].0 == a.entry_seq()[i].0@);
        assert(la[j].0 == a.entry_seq()[j].0@);
    }
    lemma_parse_order_independent(la, lb);
}

/// An entry point or middleware label gives a list with one item per comma-separated piece of
/// its value, in order: each item is its piece with the surrounding white space removed and
/// nothing else changed. The pieces hold no comma, and joined back with commas they give the
/// value itself.
pub proof fn lemma_list_value_items(key: Seq<char>, value: Seq<char>)
    requires
        key == "entrypoints"@ || key == "middlewares"@,
    ensures
        parse_value_spec(key, value) is Arr,
        ({
            let items = parse_value_spec(key, value)->Arr_0;
            let pieces = split_on(value, ',');
            &&& items.len() == pieces.len()
            &&& forall|i: int| 0 <= i < items.len() ==> #[trigger] items[i] == Json::Str(trim_spec(pieces[i]))
            &&& forall|i: int, j: int| 0 <= i < pieces.len() && 0 <= j < pieces[i].len() ==> #[trigger] pieces[i][j] != ','
            &&& join_on(pieces, ',') == value
        }),
{
    lemma_split_join(value, ',');
    lemma_split_on_pieces(value, ',');
}
} // verus!
