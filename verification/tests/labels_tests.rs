use komodo_ingress::json::{JsonMap, JsonValue};
use komodo_ingress::labels::{insert_nested_value, normalize_key, parse_traefik_labels, parse_value};
use komodo_ingress::table::StrMap;

fn to_serde(v: &JsonValue) -> serde_json::Value {
    match v {
        JsonValue::Null => serde_json::Value::Null,
        JsonValue::Bool(b) => serde_json::Value::Bool(*b),
        JsonValue::String(s) => serde_json::Value::String(s.clone()),
        JsonValue::Array(a) => serde_json::Value::Array(a.iter().map(to_serde).collect()),
        JsonValue::Object(m) => map_to_serde(m),
    }
}

fn map_to_serde(m: &JsonMap) -> serde_json::Value {
    let mut out = serde_json::Map::new();
    for i in 0..m.len() {
        let (k, v) = m.entry_at(i);
        out.insert(k.clone(), to_serde(v));
    }
    serde_json::Value::Object(out)
}

fn json(text: &str) -> serde_json::Value {
    serde_json::from_str(text).unwrap()
}

fn labels(pairs: &[(&str, &str)]) -> StrMap<String> {
    let mut m = StrMap::new();
    for (k, v) in pairs {
        m.insert(k.to_string(), v.to_string());
    }
    m
}

fn table_to_serde(t: &StrMap<JsonMap>) -> serde_json::Value {
    let mut out = serde_json::Map::new();
    for i in 0..t.len() {
        let (k, v) = t.entry_at(i);
        out.insert(k.clone(), map_to_serde(v));
    }
    serde_json::Value::Object(out)
}

#[test]
fn normalize_key_camel_cases_three_keys() {
    assert_eq!(normalize_key("certresolver"), "certResolver");
    assert_eq!(normalize_key("loadbalancer"), "loadBalancer");
    assert_eq!(normalize_key("passhostheader"), "passHostHeader");
    assert_eq!(normalize_key("rule"), "rule");
    assert_eq!(normalize_key("certResolver"), "certResolver");
    assert_eq!(normalize_key(""), "");
}

#[test]
fn parse_value_lists_entrypoints_and_middlewares() {
    assert_eq!(to_serde(&parse_value("entrypoints", "web,websecure")), json(r#"["web","websecure"]"#));
    assert_eq!(to_serde(&parse_value("middlewares", " auth , ratelimit ")), json(r#"["auth","ratelimit"]"#));
    assert_eq!(to_serde(&parse_value("entrypoints", "")), json(r#"[""]"#));
    assert_eq!(to_serde(&parse_value("entrypoints", "a,,b,")), json(r#"["a","","b",""]"#));
    assert_eq!(to_serde(&parse_value("middlewares", "\u{3000}x\t\n")), json(r#"["x"]"#));
}

#[test]
fn parse_value_tls_true_is_empty_object() {
    assert_eq!(to_serde(&parse_value("tls", "true")), json("{}"));
    assert_eq!(to_serde(&parse_value("tls", "false")), json(r#""false""#));
    assert_eq!(to_serde(&parse_value("tls", "TRUE")), json(r#""TRUE""#));
    assert_eq!(to_serde(&parse_value("rule", "Host(`x.com`)")), json(r#""Host(`x.com`)""#));
}

#[test]
fn insert_nested_value_doc_example() {
    // ["tls", "certresolver"] with value "letsencrypt"
    // becomes: {"tls": {"certResolver": "letsencrypt"}}
    let mut map = JsonMap::new();
    let keys = vec!["tls".to_string(), "certresolver".to_string()];
    insert_nested_value(&mut map, &keys, 0, "letsencrypt");
    assert_eq!(map_to_serde(&map), json(r#"{"tls": {"certResolver": "letsencrypt"}}"#));
}

#[test]
fn insert_nested_value_empty_path_changes_nothing() {
    let mut map = JsonMap::new();
    let keys = vec!["a".to_string()];
    insert_nested_value(&mut map, &keys, 1, "x");
    assert_eq!(map_to_serde(&map), json("{}"));
}

#[test]
fn insert_nested_value_blocked_by_string() {
    let mut map = JsonMap::new();
    insert_nested_value(&mut map, &vec!["tls".to_string()], 0, "false");
    insert_nested_value(&mut map, &vec!["tls".to_string(), "certresolver".to_string()], 0, "le");
    assert_eq!(map_to_serde(&map), json(r#"{"tls": "false"}"#));
}

#[test]
fn insert_nested_value_into_existing_object() {
    let mut map = JsonMap::new();
    insert_nested_value(&mut map, &vec!["tls".to_string()], 0, "true");
    insert_nested_value(&mut map, &vec!["tls".to_string(), "certresolver".to_string()], 0, "le");
    insert_nested_value(&mut map, &vec!["tls".to_string(), "domains".to_string()], 0, "x.com");
    assert_eq!(map_to_serde(&map), json(r#"{"tls": {"certResolver": "le", "domains": "x.com"}}"#));
}

#[test]
fn parse_traefik_labels_doc_example() {
    let l = labels(&[("traefik.http.routers.myapp.rule", "Host(`x.com`)")]);
    let parsed = parse_traefik_labels(&l);
    assert_eq!(table_to_serde(&parsed.routers), json(r#"{"myapp": {"rule": "Host(`x.com`)"}}"#));
    assert_eq!(table_to_serde(&parsed.services), json("{}"));
}

#[test]
fn parse_traefik_labels_full_container() {
    let l = labels(&[
        ("traefik.enable", "true"),
        ("traefik.http.routers.app.rule", "Host(`app.example.com`)"),
        ("traefik.http.routers.app.entrypoints", "web,websecure"),
        ("traefik.http.routers.app.tls", "true"),
        ("traefik.http.routers.app.tls.certresolver", "letsencrypt"),
        ("traefik.http.routers.app.middlewares", "auth"),
        ("traefik.http.services.app.loadbalancer.server.port", "8080"),
        ("traefik.http.services.app.loadbalancer.passhostheader", "true"),
        ("traefik.http.middlewares.auth.basicauth.users", "u:p"),
        ("traefik.tcp.routers.db.rule", "HostSNI(`*`)"),
        ("com.docker.compose.project", "demo"),
    ]);
    let parsed = parse_traefik_labels(&l);
    assert_eq!(
        table_to_serde(&parsed.routers),
        json(
            r#"{"app": {"rule": "Host(`app.example.com`)", "entrypoints": ["web", "websecure"],
                 "tls": {"certResolver": "letsencrypt"}, "middlewares": ["auth"]}}"#
        )
    );
    assert_eq!(
        table_to_serde(&parsed.services),
        json(r#"{"app": {"loadBalancer": {"server": {"port": "8080"}, "passHostHeader": "true"}}}"#)
    );
}

#[test]
fn parse_traefik_labels_short_keys_create_empty_router() {
    let l = labels(&[("traefik.http.routers.bare", "x"), ("traefik.http.routers", "y"), ("traefik.", "z")]);
    let parsed = parse_traefik_labels(&l);
    assert_eq!(table_to_serde(&parsed.routers), json(r#"{"bare": {}}"#));
}

#[test]
fn parse_traefik_labels_routers_in_order_of_first_label() {
    let l = labels(&[
        ("traefik.http.routers.b.rule", "B"),
        ("traefik.http.routers.a.rule", "A"),
        ("traefik.http.routers.b.service", "s"),
    ]);
    let parsed = parse_traefik_labels(&l);
    assert_eq!(parsed.routers.len(), 2);
    assert_eq!(parsed.routers.entry_at(0).0, "b");
    assert_eq!(parsed.routers.entry_at(1).0, "a");
}

#[test]
fn parse_traefik_labels_ignores_prefix_case() {
    let l = labels(&[("Traefik.http.routers.a.rule", "A"), ("traefik.HTTP.routers.a.rule", "A")]);
    let parsed = parse_traefik_labels(&l);
    assert_eq!(parsed.routers.len(), 0);
    assert_eq!(parsed.services.len(), 0);
}

#[test]
fn json_map_insert_replaces_and_get_reads_back() {
    let mut m = JsonMap::new();
    m.insert("a".to_string(), JsonValue::String("1".to_string()));
    m.insert("b".to_string(), JsonValue::Bool(true));
    m.insert("a".to_string(), JsonValue::String("2".to_string()));
    assert_eq!(m.len(), 2);
    assert_eq!(m.get("a").and_then(|v| v.as_str()), Some("2"));
    assert!(m.get("c").is_none());
    assert!(m.contains_key("b"));
    let copy = JsonValue::Object(m.deep_clone());
    assert_eq!(to_serde(&copy), json(r#"{"a": "2", "b": true}"#));
}

#[test]
fn str_map_remove_and_swap() {
    let mut m: StrMap<String> = StrMap::new();
    m.insert("x".to_string(), "1".to_string());
    m.insert("y".to_string(), "2".to_string());
    let mut v = "3".to_string();
    assert!(m.swap_value("x", &mut v));
    assert_eq!(v, "1");
    assert_eq!(m.get("x").map(|s| s.as_str()), Some("3"));
    assert_eq!(m.remove("x"), Some("3".to_string()));
    assert_eq!(m.remove("x"), None);
    assert_eq!(m.len(), 1);
    assert_eq!(m.entry_at(0).0, "y");
}

#[test]
fn insert_nested_value_leaves_other_keys() {
    let mut map = JsonMap::new();
    map.insert("rule".to_string(), JsonValue::String("Host(`a`)".to_string()));
    map.insert("service".to_string(), JsonValue::String("s".to_string()));
    insert_nested_value(&mut map, &vec!["tls".to_string(), "certresolver".to_string()], 0, "le");
    assert_eq!(
        map_to_serde(&map),
        json(r#"{"rule": "Host(`a`)", "service": "s", "tls": {"certResolver": "le"}}"#)
    );
}

#[test]
fn ignored_labels_change_nothing() {
    let with = labels(&[
        ("traefik.http.routers.a.rule", "A"),
        ("traefik.docker.network", "proxy"),
        ("traefik.http.middlewares.m.x", "y"),
        ("maintainer", "me"),
        ("traefik.http.services.s.loadbalancer.server.port", "80"),
    ]);
    let without = labels(&[
        ("traefik.http.routers.a.rule", "A"),
        ("traefik.http.services.s.loadbalancer.server.port", "80"),
    ]);
    let p1 = parse_traefik_labels(&with);
    let p2 = parse_traefik_labels(&without);
    assert_eq!(table_to_serde(&p1.routers), table_to_serde(&p2.routers));
    assert_eq!(table_to_serde(&p1.services), table_to_serde(&p2.services));
}

#[test]
fn parse_traefik_labels_order_of_non_conflicting_labels_does_not_matter() {
    let pairs = [
        ("traefik.http.routers.web.rule", "Host(`a`)"),
        ("traefik.http.routers.web.tls.certresolver", "le"),
        ("traefik.http.routers.web.entrypoints", "web,websecure"),
        ("traefik.http.services.web.loadbalancer.server.port", "80"),
        ("traefik.http.services.web.loadbalancer.passhostheader", "true"),
        ("traefik.http.routers.api.rule", "Host(`b`)"),
        ("other.label", "x"),
    ];
    let forward = parse_traefik_labels(&labels(&pairs));
    let mut reversed_pairs = pairs.to_vec();
    reversed_pairs.reverse();
    let backward = parse_traefik_labels(&labels(&reversed_pairs));
    assert_eq!(table_to_serde(&forward.routers), table_to_serde(&backward.routers));
    assert_eq!(table_to_serde(&forward.services), table_to_serde(&backward.services));
}

#[test]
fn parse_traefik_labels_conflicting_paths_depend_on_order() {
    let a = parse_traefik_labels(&labels(&[
        ("traefik.http.routers.r.tls", "true"),
        ("traefik.http.routers.r.tls.certresolver", "le"),
    ]));
    let b = parse_traefik_labels(&labels(&[
        ("traefik.http.routers.r.tls.certresolver", "le"),
        ("traefik.http.routers.r.tls", "true"),
    ]));
    assert_eq!(table_to_serde(&a.routers), json(r#"{"r": {"tls": {"certResolver": "le"}}}"#));
    assert_eq!(table_to_serde(&b.routers), json(r#"{"r": {"tls": {}}}"#));
}
