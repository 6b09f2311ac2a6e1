use komodo_ingress::api::{instance_routes, instance_traefik_config, list_item_info};
use komodo_ingress::entities::{CachedIngressState, IngressInstance, IngressInstanceConfig};
use komodo_ingress::ingress::{build_ingress_cache, ContainerListItem, ServerStatus};
use komodo_ingress::json::{JsonMap, JsonValue};
use komodo_ingress::table::StrMap;
use komodo_ingress::traefik_config::{Port, Server, ServerConfig};

fn to_serde(v: &JsonValue) -> serde_json::Value {
    match v {
        JsonValue::Null => serde_json::Value::Null,
        JsonValue::Bool(b) => serde_json::Value::Bool(*b),
        JsonValue::String(s) => serde_json::Value::String(s.clone()),
        JsonValue::Array(a) => serde_json::Value::Array(a.iter().map(to_serde).collect()),
        JsonValue::Object(m) => map_to_serde(m),
    }
}

fn map_to_serde(m: &JsonMap) -> serde_json::Value {
    let mut out = serde_json::Map::new();
    for i in 0..m.len() {
        let (k, v) = m.entry_at(i);
        out.insert(k.clone(), to_serde(v));
    }
    serde_json::Value::Object(out)
}

fn json(text: &str) -> serde_json::Value {
    serde_json::from_str(text).unwrap()
}

fn labels(pairs: &[(&str, &str)]) -> StrMap<String> {
    let mut m = StrMap::new();
    for (k, v) in pairs {
        m.insert(k.to_string(), v.to_string());
    }
    m
}

fn instance(name: &str, enabled: bool, is_default: bool) -> IngressInstance {
    IngressInstance {
        id: format!("id-{name}"),
        name: name.to_string(),
        config: IngressInstanceConfig { enabled, is_default, server_id: String::new() },
    }
}

fn server(id: &str, name: &str, address: &str) -> Server {
    Server {
        id: id.to_string(),
        name: name.to_string(),
        config: ServerConfig { address: address.to_string(), external_address: String::new() },
    }
}

fn container(name: &str, pairs: &[(&str, &str)], ports: Vec<Port>) -> ContainerListItem {
    ContainerListItem { name: name.to_string(), ingress_labels: labels(pairs), ports }
}

fn sample_servers() -> Vec<Server> {
    vec![server("s1", "alpha", "http://10.0.0.1:8120"), server("s2", "beta", "https://beta.lan:8120")]
}

fn cache_for(instances: Vec<IngressInstance>) -> StrMap<CachedIngressState> {
    build_ingress_cache(&instances, &sample_servers(), &sample_statuses())
}

fn sample_statuses() -> Vec<ServerStatus> {
    vec![
        ServerStatus {
            id: "s1".to_string(),
            containers: Some(vec![
                container(
                    "web",
                    &[
                        ("traefik.http.routers.web.rule", "Host(`web.example.com`)"),
                        ("traefik.http.routers.web.entrypoints", "web, websecure"),
                        ("traefik.http.services.web.loadbalancer.server.port", "80"),
                    ],
                    vec![Port { private_port: 80, public_port: Some(8080) }],
                ),
                container(
                    "api",
                    &[
                        ("komodo.ingress.instance", "edge"),
                        ("traefik.http.routers.api.rule", "Host(`api.example.com`)"),
                        ("traefik.http.routers.api.service", "backend"),
                    ],
                    vec![Port { private_port: 3000, public_port: Some(33000) }],
                ),
                container("plain", &[], vec![]),
            ]),
        },
        ServerStatus {
            id: "s2".to_string(),
            containers: Some(vec![container(
                "docs",
                &[("traefik.http.routers.docs.rule", "Host(`docs.example.com`)")],
                vec![Port { private_port: 8000, public_port: None }],
            )]),
        },
        ServerStatus { id: "unknown".to_string(), containers: Some(vec![container("ghost", &[("traefik.http.routers.g.rule", "G")], vec![])]) },
        ServerStatus { id: "s2".to_string(), containers: None },
    ]
}

#[test]
fn cache_groups_routes_by_instance() {
    let cache = cache_for(vec![instance("main", true, true), instance("edge", true, false)]);
    assert_eq!(cache.len(), 2);

    let main = instance_routes(&cache, "main");
    assert_eq!(main.len(), 2);
    assert_eq!(main[0].server_name, "alpha");
    assert_eq!(main[0].container_name, "web");
    assert_eq!(main[0].router_name, "web");
    assert_eq!(main[0].rule, "Host(`web.example.com`)");
    assert_eq!(main[0].service_name, "web");
    assert_eq!(main[0].backend_url, "http://10.0.0.1:8080");
    assert_eq!(main[0].entrypoints, vec!["web".to_string(), "websecure".to_string()]);
    assert_eq!(main[1].server_name, "beta");
    assert_eq!(main[1].container_name, "docs");
    assert_eq!(main[1].backend_url, "http://beta.lan:<unpublished>");
    assert!(main[1].entrypoints.is_empty());

    let edge = instance_routes(&cache, "edge");
    assert_eq!(edge.len(), 1);
    assert_eq!(edge[0].router_name, "api");
    assert_eq!(edge[0].service_name, "backend");
    assert_eq!(edge[0].backend_url, "http://10.0.0.1:33000");
}

#[test]
fn cache_builds_traefik_config_per_instance() {
    let cache = cache_for(vec![instance("main", true, true), instance("edge", true, false)]);
    assert_eq!(
        to_serde(&instance_traefik_config(&cache, "main")),
        json(
            r#"{"http": {
                "routers": {
                    "web": {"rule": "Host(`web.example.com`)", "entrypoints": ["web", "websecure"]},
                    "docs": {"rule": "Host(`docs.example.com`)"}
                },
                "services": {"web": {"loadBalancer": {"server": {"port": "80"},
                    "servers": [{"url": "http://10.0.0.1:8080"}]}}}
            }}"#
        )
    );
    assert_eq!(
        to_serde(&instance_traefik_config(&cache, "edge")),
        json(r#"{"http": {"routers": {"api": {"rule": "Host(`api.example.com`)", "service": "backend"}}, "services": {}}}"#)
    );
}

#[test]
fn unknown_instance_gets_empty_config_and_no_routes() {
    let cache = cache_for(vec![instance("main", true, true)]);
    assert_eq!(to_serde(&instance_traefik_config(&cache, "nope")), json(r#"{"http": {"routers": {}, "services": {}}}"#));
    assert!(instance_routes(&cache, "nope").is_empty());
}

#[test]
fn disabled_instances_are_skipped() {
    let cache = cache_for(vec![instance("main", false, true), instance("edge", true, false)]);
    assert_eq!(cache.len(), 1);
    assert!(cache.get("main").is_none());
    assert_eq!(instance_routes(&cache, "edge").len(), 1);
}

#[test]
fn without_default_unlabelled_containers_are_skipped() {
    let cache = cache_for(vec![instance("main", true, false), instance("edge", true, false)]);
    assert!(instance_routes(&cache, "main").is_empty());
    assert_eq!(
        to_serde(&instance_traefik_config(&cache, "main")),
        json(r#"{"http": {"routers": {}, "services": {}}}"#)
    );
    assert_eq!(instance_routes(&cache, "edge").len(), 1);
}

#[test]
fn duplicate_instance_names_hand_routes_once() {
    let cache = cache_for(vec![instance("edge", true, false), instance("edge", true, false)]);
    assert_eq!(cache.len(), 1);
    assert!(instance_routes(&cache, "edge").is_empty());
}

#[test]
fn list_item_counts_cached_routes() {
    let cache = cache_for(vec![instance("main", true, true), instance("edge", true, false)]);
    let info = list_item_info(&instance("main", true, true), &cache);
    assert!(info.enabled);
    assert!(info.is_default);
    assert_eq!(info.route_count, 2);
    let info = list_item_info(&instance("other", false, false), &cache);
    assert!(!info.enabled);
    assert_eq!(info.route_count, 0);
}

#[test]
fn containers_on_the_instance_server_use_host_docker_internal() {
    let mut main = instance("main", true, true);
    main.config.server_id = "s1".to_string();
    let cache = cache_for(vec![main, instance("edge", true, false)]);
    let routes = instance_routes(&cache, "main");
    assert_eq!(routes[0].backend_url, "http://host.docker.internal:8080");
    assert_eq!(routes[1].backend_url, "http://beta.lan:<unpublished>");
    assert_eq!(
        to_serde(&instance_traefik_config(&cache, "main")),
        json(
            r#"{"http": {
                "routers": {
                    "web": {"rule": "Host(`web.example.com`)", "entrypoints": ["web", "websecure"]},
                    "docs": {"rule": "Host(`docs.example.com`)"}
                },
                "services": {"web": {"loadBalancer": {"server": {"port": "80"},
                    "servers": [{"url": "http://host.docker.internal:8080"}]}}}
            }}"#
        )
    );
    // The other instance's Traefik runs elsewhere.
    assert_eq!(instance_routes(&cache, "edge")[0].backend_url, "http://10.0.0.1:33000");
}

fn route_fields(cache: &StrMap<CachedIngressState>, name: &str) -> Vec<Vec<String>> {
    instance_routes(cache, name)
        .iter()
        .map(|r| {
            let mut v = vec![
                r.server_name.clone(),
                r.container_name.clone(),
                r.router_name.clone(),
                r.rule.clone(),
                r.service_name.clone(),
                r.backend_url.clone(),
            ];
            v.extend(r.entrypoints.iter().cloned());
            v
        })
        .collect()
}

fn same_cache(a: &StrMap<CachedIngressState>, b: &StrMap<CachedIngressState>, names: &[&str]) {
    assert_eq!(a.len(), b.len());
    for name in names {
        assert_eq!(route_fields(a, name), route_fields(b, name));
        assert_eq!(to_serde(&instance_traefik_config(a, name)), to_serde(&instance_traefik_config(b, name)));
    }
}

#[test]
fn status_of_unknown_server_changes_nothing() {
    let instances = vec![instance("main", true, true), instance("edge", true, false)];
    let before = build_ingress_cache(&instances, &sample_servers(), &sample_statuses());
    let mut statuses = sample_statuses();
    statuses.insert(
        1,
        ServerStatus {
            id: "s9".to_string(),
            containers: Some(vec![container("x", &[("traefik.http.routers.x.rule", "Host(`x`)")], vec![])]),
        },
    );
    let after = build_ingress_cache(&instances, &sample_servers(), &statuses);
    same_cache(&before, &after, &["main", "edge"]);
    assert_eq!(route_fields(&after, "main").len(), 2);
}

#[test]
fn container_without_ingress_labels_changes_nothing() {
    let instances = vec![instance("main", true, true), instance("edge", true, false)];
    let before = build_ingress_cache(&instances, &sample_servers(), &sample_statuses());
    let mut statuses = sample_statuses();
    if let Some(cs) = statuses[0].containers.as_mut() {
        cs.insert(0, container("bare", &[], vec![Port { private_port: 80, public_port: Some(9999) }]));
    }
    let after = build_ingress_cache(&instances, &sample_servers(), &statuses);
    same_cache(&before, &after, &["main", "edge"]);
}

#[test]
fn route_count_is_sum_of_router_counts() {
    let instances = vec![instance("main", true, true), instance("edge", true, false)];
    let cache = build_ingress_cache(&instances, &sample_servers(), &sample_statuses());
    // main serves "web" (one router) and "docs" (one router); edge serves "api" (one router).
    assert_eq!(route_fields(&cache, "main").len(), 2);
    assert_eq!(route_fields(&cache, "edge").len(), 1);
}

#[test]
fn route_without_rule_or_service_uses_defaults() {
    let instances = vec![instance("main", true, true)];
    let statuses = vec![ServerStatus {
        id: "s1".to_string(),
        containers: Some(vec![container("c", &[("traefik.http.routers.x.priority", "5")], vec![])]),
    }];
    let cache = build_ingress_cache(&instances, &sample_servers(), &statuses);
    let routes = instance_routes(&cache, "main");
    assert_eq!(routes.len(), 1);
    assert_eq!(routes[0].server_name, "alpha");
    assert_eq!(routes[0].container_name, "c");
    assert_eq!(routes[0].router_name, "x");
    assert_eq!(routes[0].rule, "");
    assert_eq!(routes[0].service_name, "x");
    assert!(routes[0].entrypoints.is_empty());
    assert_eq!(routes[0].backend_url, "http://10.0.0.1:<unknown>");
}
