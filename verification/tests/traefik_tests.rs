use komodo_ingress::json::{JsonMap, JsonValue};
use komodo_ingress::table::StrMap;
use komodo_ingress::traefik_config::{
    build, empty_traefik_config, resolve_backend_url_from_labels, resolve_server_ip, strip_protocol_and_port,
    ContainerLabels, Port, Server, ServerConfig,
};

fn to_serde(v: &JsonValue) -> serde_json::Value {
    match v {
        JsonValue::Null => serde_json::Value::Null,
        JsonValue::Bool(b) => serde_json::Value::Bool(*b),
        JsonValue::String(s) => serde_json::Value::String(s.clone()),
        JsonValue::Array(a) => serde_json::Value::Array(a.iter().map(to_serde).collect()),
        JsonValue::Object(m) => map_to_serde(m),
    }
}

fn map_to_serde(m: &JsonMap) -> serde_json::Value {
    let mut out = serde_json::Map::new();
    for i in 0..m.len() {
        let (k, v) = m.entry_at(i);
        out.insert(k.clone(), to_serde(v));
    }
    serde_json::Value::Object(out)
}

fn json(text: &str) -> serde_json::Value {
    serde_json::from_str(text).unwrap()
}

fn labels(pairs: &[(&str, &str)]) -> StrMap<String> {
    let mut m = StrMap::new();
    for (k, v) in pairs {
        m.insert(k.to_string(), v.to_string());
    }
    m
}

fn port(private_port: u16, public_port: Option<u16>) -> Port {
    Port { private_port, public_port }
}

fn server(address: &str, external_address: &str) -> Server {
    Server {
        id: "s1".to_string(),
        name: "server-one".to_string(),
        config: ServerConfig { address: address.to_string(), external_address: external_address.to_string() },
    }
}

#[test]
fn strip_protocol_and_port_doc_example() {
    assert_eq!(strip_protocol_and_port("http://10.0.0.5:8120"), "10.0.0.5");
}

#[test]
fn strip_protocol_and_port_cases() {
    assert_eq!(strip_protocol_and_port("https://example.com:443"), "example.com");
    assert_eq!(strip_protocol_and_port("10.0.0.5"), "10.0.0.5");
    assert_eq!(strip_protocol_and_port("http://http://x:1"), "x");
    assert_eq!(strip_protocol_and_port("https://http://x"), "http");
    assert_eq!(strip_protocol_and_port(""), "");
    assert_eq!(strip_protocol_and_port(":9000"), "");
    assert_eq!(strip_protocol_and_port("ftp://host"), "ftp");
    for addr in ["http://a:1", "https://b:2", "c:3:4", "http://https://d:5", "::"] {
        assert!(!strip_protocol_and_port(addr).contains(':'));
    }
}

#[test]
fn resolve_server_ip_prefers_external_address() {
    assert_eq!(resolve_server_ip(&server("http://10.0.0.5:8120", "https://public.example.com")), "public.example.com");
    assert_eq!(resolve_server_ip(&server("http://10.0.0.5:8120", "")), "10.0.0.5");
}

#[test]
fn backend_url_from_port_label() {
    let l = labels(&[
        ("__komodo_server_ip", "10.0.0.5"),
        ("traefik.http.services.app.loadbalancer.server.port", "80"),
    ]);
    let ports = vec![port(443, Some(8443)), port(80, Some(8080))];
    assert_eq!(resolve_backend_url_from_labels(&l, &ports), "http://10.0.0.5:8080");
}

#[test]
fn backend_url_first_exposed_port() {
    let l = labels(&[("__komodo_server_ip", "10.0.0.5")]);
    let ports = vec![port(3000, Some(33000)), port(80, Some(8080))];
    assert_eq!(resolve_backend_url_from_labels(&l, &ports), "http://10.0.0.5:33000");
}

#[test]
fn backend_url_unknown_and_unpublished() {
    let l = labels(&[]);
    assert_eq!(resolve_backend_url_from_labels(&l, &vec![]), "http://localhost:<unknown>");
    let l = labels(&[("__komodo_server_ip", "h"), ("traefik.http.services.a.loadbalancer.server.port", "9000")]);
    assert_eq!(resolve_backend_url_from_labels(&l, &vec![port(80, Some(8080))]), "http://h:<unpublished>");
    assert_eq!(resolve_backend_url_from_labels(&l, &vec![port(9000, None), port(9000, Some(1))]), "http://h:<unpublished>");
}

#[test]
fn backend_url_skips_unparsable_port_labels() {
    let l = labels(&[
        ("__komodo_server_ip", "h"),
        ("traefik.http.services.a.loadbalancer.server.port", "http"),
        ("traefik.http.services.b.loadbalancer.server.port", "+5000"),
    ]);
    assert_eq!(resolve_backend_url_from_labels(&l, &vec![port(5000, Some(65535))]), "http://h:65535");
    let l = labels(&[("traefik.http.services.a.loadbalancer.server.port", "70000")]);
    assert_eq!(resolve_backend_url_from_labels(&l, &vec![port(1, Some(0))]), "http://localhost:0");
}

#[test]
fn build_no_containers_is_empty_config() {
    let cfg = build(&vec![]);
    assert_eq!(to_serde(&cfg), json(r#"{"http": {"routers": {}, "services": {}}}"#));
    assert_eq!(to_serde(&empty_traefik_config()), to_serde(&cfg));
}

#[test]
fn build_single_container() {
    let c = ContainerLabels {
        labels: labels(&[
            ("__komodo_server_ip", "10.0.0.5"),
            ("traefik.http.routers.app.rule", "Host(`app.example.com`)"),
            ("traefik.http.routers.app.entrypoints", "websecure"),
            ("traefik.http.services.app.loadbalancer.server.port", "80"),
        ]),
        ports: vec![port(80, Some(8080))],
    };
    let cfg = build(&vec![c]);
    assert_eq!(
        to_serde(&cfg),
        json(
            r#"{"http": {
                "routers": {"app": {"rule": "Host(`app.example.com`)", "entrypoints": ["websecure"]}},
                "services": {"app": {"loadBalancer": {"server": {"port": "80"},
                    "servers": [{"url": "http://10.0.0.5:8080"}]}}}
            }}"#
        )
    );
}

#[test]
fn build_merges_servers_of_shared_service() {
    let c1 = ContainerLabels {
        labels: labels(&[("__komodo_server_ip", "10.0.0.1"), ("traefik.http.services.web.foo", "x")]),
        ports: vec![port(80, Some(8001))],
    };
    let c2 = ContainerLabels {
        labels: labels(&[("__komodo_server_ip", "10.0.0.2"), ("traefik.http.services.web.bar", "y")]),
        ports: vec![port(80, Some(8002))],
    };
    let cfg = build(&vec![c1, c2]);
    assert_eq!(
        to_serde(&cfg),
        json(
            r#"{"http": {"routers": {},
                "services": {"web": {"loadBalancer": {"servers": [
                    {"url": "http://10.0.0.1:8001"}, {"url": "http://10.0.0.2:8002"}]}}}}}"#
        )
    );
}

#[test]
fn build_later_router_replaces_earlier() {
    let c1 = ContainerLabels { labels: labels(&[("traefik.http.routers.r.rule", "A")]), ports: vec![] };
    let c2 = ContainerLabels { labels: labels(&[("traefik.http.routers.r.priority", "5")]), ports: vec![] };
    let cfg = build(&vec![c1, c2]);
    assert_eq!(to_serde(&cfg), json(r#"{"http": {"routers": {"r": {"priority": "5"}}, "services": {}}}"#));
}

#[test]
fn build_load_balancer_label_keeps_collected_servers() {
    let c1 = ContainerLabels {
        labels: labels(&[("__komodo_server_ip", "a"), ("traefik.http.services.s.x", "1")]),
        ports: vec![port(1, Some(11))],
    };
    let c2 = ContainerLabels {
        labels: labels(&[("__komodo_server_ip", "b"), ("traefik.http.services.s.loadbalancer.sticky", "true")]),
        ports: vec![port(2, Some(22))],
    };
    let cfg = build(&vec![c1, c2]);
    assert_eq!(
        to_serde(&cfg),
        json(r#"{"http": {"routers": {}, "services": {"s": {"loadBalancer":
            {"sticky": "true", "servers": [{"url": "http://a:11"}, {"url": "http://b:22"}]}}}}}"#)
    );
}

#[test]
fn build_load_balancer_not_an_object_gets_no_servers() {
    let c = ContainerLabels {
        labels: labels(&[("traefik.http.services.s.loadbalancer", "plain")]),
        ports: vec![],
    };
    let cfg = build(&vec![c]);
    assert_eq!(to_serde(&cfg), json(r#"{"http": {"routers": {}, "services": {"s": {"loadBalancer": "plain"}}}}"#));
}

#[test]
fn build_servers_label_of_first_container_is_kept() {
    let c = ContainerLabels {
        labels: labels(&[("traefik.http.services.s.loadbalancer.servers", "fixed")]),
        ports: vec![port(1, Some(2))],
    };
    let cfg = build(&vec![c]);
    assert_eq!(
        to_serde(&cfg),
        json(r#"{"http": {"routers": {}, "services": {"s": {"loadBalancer": {"servers": "fixed"}}}}}"#)
    );
}

#[test]
fn build_servers_label_does_not_replace_collected_list() {
    let c1 = ContainerLabels {
        labels: labels(&[("__komodo_server_ip", "a"), ("traefik.http.services.s.loadbalancer.server.port", "1")]),
        ports: vec![port(1, Some(2))],
    };
    let c2 = ContainerLabels {
        labels: labels(&[("__komodo_server_ip", "b"), ("traefik.http.services.s.loadbalancer.servers", "fixed")]),
        ports: vec![port(3, Some(4))],
    };
    let cfg = build(&vec![c1, c2]);
    assert_eq!(
        to_serde(&cfg),
        json(r#"{"http": {"routers": {}, "services": {"s": {"loadBalancer": {"server": {"port": "1"},
            "servers": [{"url": "http://a:2"}, {"url": "http://b:4"}]}}}}}"#)
    );
}

#[test]
fn build_one_server_per_container_with_port_labels() {
    let c1 = ContainerLabels {
        labels: labels(&[
            ("traefik.http.services.web.loadbalancer.server.port", "80"),
            ("__komodo_server_ip", "10.0.0.1"),
        ]),
        ports: vec![],
    };
    let c2 = ContainerLabels {
        labels: labels(&[
            ("traefik.http.services.web.loadbalancer.server.port", "80"),
            ("__komodo_server_ip", "10.0.0.2"),
        ]),
        ports: vec![],
    };
    let cfg = build(&vec![c1, c2]);
    assert_eq!(
        to_serde(&cfg),
        json(
            r#"{"http": {"routers": {}, "services": {"web": {"loadBalancer": {"server": {"port": "80"},
                "servers": [{"url": "http://10.0.0.1:<unpublished>"}, {"url": "http://10.0.0.2:<unpublished>"}]}}}}}"#
        )
    );
}

#[test]
fn backend_url_ignores_other_labels() {
    let ports = vec![port(80, Some(8080))];
    let with_extra = labels(&[
        ("__komodo_server_ip", "10.0.0.5"),
        ("__komodo_container_ports", "oops"),
        ("traefik.http.routers.web.rule", "Host(`a`)"),
    ]);
    let without = labels(&[("__komodo_server_ip", "10.0.0.5")]);
    assert_eq!(resolve_backend_url_from_labels(&with_extra, &ports), "http://10.0.0.5:8080");
    assert_eq!(resolve_backend_url_from_labels(&without, &ports), "http://10.0.0.5:8080");
}
