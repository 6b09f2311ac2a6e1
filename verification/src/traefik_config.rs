//! Building the Traefik HTTP provider configuration from the labels of containers, and
//! resolving the backend address of each service.
use vstd::prelude::*;
use crate::json::{Json, JsonMap, JsonValue, lemma_view_json, lemma_json_seq_of, lemma_json_seq_push, json_seq_of};
use crate::labels::{ObjectTable, json_at, labels_view, objects_view, parse_labels_spec, parse_traefik_labels};
use crate::table::{StrMap, entries_map, lemma_entries_map_at, lemma_entries_map_full, lemma_entries_map_prefix, unique_keys};
use crate::text::{
    contains, decimal, has_prefix, lemma_split_on_nonempty, lemma_split_on_pieces, occurs_in,
    parse_u16, parse_u16_spec, split_char, split_on,
    trim_start_all, trim_start_matches, u16_to_decimal,
};

verus! {

broadcast use {lemma_view_json, lemma_json_seq_of};

/// A port of a container: the port inside the container and, when published, the port on the
/// host.
#[derive(Clone, Copy, Debug, PartialEq, Eq)]
pub struct Port {
    pub private_port: u16,
    pub public_port: Option<u16>,
}

/// The addresses by which a server is reached.
pub struct ServerConfig {
    /// The address the server is reached at, such as `http://10.0.0.5:8120`.
    pub address: String,
    /// The address to use from outside the server's network, when it differs.
    pub external_address: String,
}

/// A server that runs containers.
pub struct Server {
    pub id: String,
    pub name: String,
    pub config: ServerConfig,
}

/// The labels of one container, with the ports the container exposes (the list that the
/// `__komodo_container_ports` label carries as JSON).
pub struct ContainerLabels {
    pub labels: StrMap<String>,
    pub ports: Vec<Port>,
}

/// Strip protocol and port from an address string: every leading `http://`, then every leading
/// `https://`, and what follows the first `:`.
pub open spec fn strip_protocol_and_port_spec(addr: Seq<char>) -> Seq<char> {
    split_on(trim_start_all(trim_start_all(addr, "http://"@), "https://"@), ':')[0]
}

/// The address used for a server: its external address when set, otherwise its address.
pub open spec fn server_address_spec(server: &Server) -> Seq<char> {
    if server.config.external_address@.len() > 0 {
        server.config.external_address@
    } else {
        server.config.address@
    }
}

/// The value of the label `key`, in a list of labels with distinct keys.
pub open spec fn label_lookup(labels: Seq<(Seq<char>, Seq<char>)>, key: Seq<char>) -> Option<Seq<char>> {
    if exists|i: int| 0 <= i < labels.len() && #[trigger] labels[i].0 == key {
        Some(labels[choose|i: int| 0 <= i < labels.len() && #[trigger] labels[i].0 == key].1)
    } else {
        None
    }
}

/// The server IP that the `__komodo_server_ip` label names, `localhost` without it.
pub open spec fn server_ip_spec(labels: Seq<(Seq<char>, Seq<char>)>) -> Seq<char> {
    match label_lookup(labels, "__komodo_server_ip"@) {
        Some(ip) => ip,
        None => "localhost"@,
    }
}

/// The labels and ports of a container, as character sequences.
pub open spec fn container_view(c: ContainerLabels) -> (Seq<(Seq<char>, Seq<char>)>, Seq<Port>) {
    (labels_view(c.labels.entry_seq()), c.ports@)
}

/// The port of the first label, in table order, whose key contains `loadbalancer.server.port`
/// and whose value is a port number.
pub open spec fn port_label_spec(labels: Seq<(Seq<char>, Seq<char>)>) -> Option<u16>
    decreases labels.len(),
{
    if labels.len() == 0 {
        None
    } else if occurs_in(labels[0].0, "loadbalancer.server.port"@) && parse_u16_spec(
        labels[0].1,
    ) is Some {
        parse_u16_spec(labels[0].1)
    } else {
        port_label_spec(labels.skip(1))
    }
}

/// The container port of a service: the one a label gives, else the first exposed port.
pub open spec fn container_port_spec(labels: Seq<(Seq<char>, Seq<char>)>, ports: Seq<Port>) -> Option<u16> {
    match port_label_spec(labels) {
        Some(p) => Some(p),
        None => if ports.len() > 0 {
            Some(ports[0].private_port)
        } else {
            None
        },
    }
}

/// The host port that the first exposed port with the given container port is published on.
pub open spec fn host_port_spec(ports: Seq<Port>, container_port: u16) -> Option<u16>
    decreases ports.len(),
{
    if ports.len() == 0 {
        None
    } else if ports[0].private_port == container_port {
        ports[0].public_port
    } else {
        host_port_spec(ports.skip(1), container_port)
    }
}

/// The backend URL of a container: `http://<ip>:<host port>`, with `<unknown>` when no container
/// port is known and `<unpublished>` when the container port is not published on the host.
pub open spec fn backend_url_spec(labels: Seq<(Seq<char>, Seq<char>)>, ports: Seq<Port>) -> Seq<char> {
    let ip = server_ip_spec(labels);
    match container_port_spec(labels, ports) {
        None => "http://"@ + ip + ":<unknown>"@,
        Some(cp) => match host_port_spec(ports, cp) {
            None => "http://"@ + ip + ":<unpublished>"@,
            Some(hp) => "http://"@ + ip + ":"@ + decimal(hp as nat),
        },
    }
}

/// The entry a service starts from: a load balancer with no servers.
pub open spec fn empty_service() -> Json {
    Json::Obj(map!["loadBalancer"@ => Json::Obj(map!["servers"@ => Json::Arr(Seq::empty())])])
}

/// A load balancer after adding a server with the given URL: the `servers` list is created when
/// missing, and the server is appended when it is a list.
pub open spec fn add_server(lb: Map<Seq<char>, Json>, url: Seq<char>) -> Map<Seq<char>, Json> {
    let servers = if lb.contains_key("servers"@) {
        lb["servers"@]
    } else {
        Json::Arr(Seq::empty())
    };
    lb.insert(
        "servers"@,
        match servers {
            Json::Arr(a) => Json::Arr(a.push(Json::Obj(map!["url"@ => Json::Str(url)]))),
            other => other,
        },
    )
}

/// A collected load balancer after merging a container's labelled load balancer into it: the
/// labelled settings are added (replacing settings of the same name), and the servers collected
/// so far are kept. A side that is not an object leaves the labelled value.
pub open spec fn merge_load_balancer(current: Json, labelled: Json) -> Json {
    match (current, labelled) {
        (Json::Obj(cur), Json::Obj(lab)) => {
            let merged = cur.union_prefer_right(lab);
            Json::Obj(
                if cur.contains_key("servers"@) {
                    merged.insert("servers"@, cur["servers"@])
                } else {
                    merged
                },
            )
        },
        _ => labelled,
    }
}

/// A service entry after merging one container's configuration of the service: for a service
/// seen before, its load balancer configuration is merged into the entry's, keeping the servers
/// collected so far; a new service starts from a load balancer with no servers, which a labelled
/// load balancer replaces. Then the container's backend URL is added to the load balancer's
/// servers.
pub open spec fn merge_service(existing: Option<Json>, config: Map<Seq<char>, Json>, url: Seq<char>) -> Json {
    let entry = match existing {
        Some(e) => e,
        None => empty_service(),
    };
    let entry = match entry {
        Json::Obj(o) => if config.contains_key("loadBalancer"@) {
            Json::Obj(
                o.insert(
                    "loadBalancer"@,
                    if existing is Some && o.contains_key("loadBalancer"@) {
                        merge_load_balancer(o["loadBalancer"@], config["loadBalancer"@])
                    } else {
                        config["loadBalancer"@]
                    },
                ),
            )
        } else {
            entry
        },
        _ => entry,
    };
    match entry {
        Json::Obj(o) => if o.contains_key("loadBalancer"@) {
            match o["loadBalancer"@] {
                Json::Obj(lb) => Json::Obj(o.insert("loadBalancer"@, Json::Obj(add_server(lb, url)))),
                _ => entry,
            }
        } else {
            entry
        },
        _ => entry,
    }
}

/// Services after merging the services of one container.
pub open spec fn merge_services(services: Map<Seq<char>, Json>, svc: ObjectTable, url: Seq<char>) -> Map<Seq<char>, Json> {
    Map::new(
        |k: Seq<char>| services.contains_key(k) || svc.contains_key(k),
        |k: Seq<char>|
            if svc.contains_key(k) {
                merge_service(services.get(k), svc[k], url)
            } else {
                services[k]
            },
    )
}

/// Routers after adding the routers of one container, which replace routers of the same name.
pub open spec fn merge_routers(routers: Map<Seq<char>, Json>, rt: ObjectTable) -> Map<Seq<char>, Json> {
    routers.union_prefer_right(rt.map_values(|o: Map<Seq<char>, Json>| Json::Obj(o)))
}

/// Routers and services of all containers, taken in order.
pub open spec fn collect_config(containers: Seq<(Seq<(Seq<char>, Seq<char>)>, Seq<Port>)>) -> (
    Map<Seq<char>, Json>,
    Map<Seq<char>, Json>,
)
    decreases containers.len(),
{
    if containers.len() == 0 {
        (Map::empty(), Map::empty())
    } else {
        let prev = collect_config(containers.drop_last());
        let (labels, ports) = containers.last();
        let tables = parse_labels_spec(labels);
        (merge_routers(prev.0, tables.0), merge_services(prev.1, tables.1, backend_url_spec(labels, ports)))
    }
}

/// The Traefik HTTP provider configuration for a list of containers.
pub open spec fn traefik_config_spec(containers: Seq<(Seq<(Seq<char>, Seq<char>)>, Seq<Port>)>) -> Json {
    let (routers, services) = collect_config(containers);
    Json::Obj(
        map![
            "http"@ => Json::Obj(map!["routers"@ => Json::Obj(routers), "services"@ => Json::Obj(services)]),
        ],
    )
}

/// Strip protocol and port from an address string.
/// "http://10.0.0.5:8120" -> "10.0.0.5"
pub fn strip_protocol_and_port(addr: &str) -> (r: String)
    ensures
        r@ == strip_protocol_and_port_spec(addr@),
{
    let rest = trim_start_matches(trim_start_matches(addr, "http://"), "https://");
    let pieces = split_char(rest, ':');
    // `split` always yields at least one piece.
    pieces[0].clone()
}

/// Resolve the server IP for backend URL construction.
/// Prefers external_address if set, otherwise uses the address field.
pub fn resolve_server_ip(server: &Server) -> (r: String)
    ensures
        r@ == strip_protocol_and_port_spec(server_address_spec(server)),
{
    let addr = if server.config.external_address.as_str().unicode_len() > 0 {
        &server.config.external_address
    } else {
        &server.config.address
    };
    strip_protocol_and_port(addr.as_str())
}

/// The first port number given by a label whose key contains `loadbalancer.server.port`.
fn find_port_label(labels: &StrMap<String>) -> (r: Option<u16>)
    ensures
        r == port_label_spec(labels_view(labels.entry_seq())),
{
    let ghost lv = labels_view(labels.entry_seq());
    let n = labels.len();
    let mut i: usize = 0;
    assert(lv.skip(0) =~= lv);
    while i < n
        invariant
            n == labels.entry_seq().len(),
            lv == labels_view(labels.entry_seq()),
            i <= n,
            port_label_spec(lv) == port_label_spec(lv.skip(i as int)),
        decreases n - i,
    {
        let entry = labels.entry_at(i);
        proof {
            assert(lv.skip(i as int)[0] == (entry.0@, entry.1@));
            assert(lv.skip(i as int).skip(1) =~= lv.skip(i + 1));
        }
        if contains(entry.0.as_str(), "loadbalancer.server.port") {
            let parsed = parse_u16(entry.1.as_str());
            if parsed.is_some() {
                return parsed;
            }
        }
        i = i + 1;
    }
    None
}

/// The host port of the first port with the given container port.
fn find_host_port(ports: &Vec<Port>, container_port: u16) -> (r: Option<u16>)
    ensures
        r == host_port_spec(ports@, container_port),
{
    let mut i: usize = 0;
    assert(ports@.skip(0) =~= ports@);
    while i < ports.len()
        invariant
            i <= ports@.len(),
            host_port_spec(ports@, container_port) == host_port_spec(ports@.skip(i as int), container_port),
        decreases ports@.len() - i,
    {
        proof {
            assert(ports@.skip(i as int).skip(1) =~= ports@.skip(i + 1));
        }
        if ports[i].private_port == container_port {
            return ports[i].public_port;
        }
        i = i + 1;
    }
    None
}

/// Resolve the backend URL from container labels and the container's ports.
/// Labels include special keys:
/// - `__komodo_server_ip`: The server IP
/// - `traefik.http.services.<name>.loadbalancer.server.port`: The container port to use
pub fn resolve_backend_url_from_labels(labels: &StrMap<String>, ports: &Vec<Port>) -> (r: String)
    ensures
        r@ == backend_url_spec(labels_view(labels.entry_seq()), ports@),
{
    let server_ip_label = labels.get("__komodo_server_ip");
    proof {
        lemma_label_lookup(*labels, "__komodo_server_ip"@);
    }
    let server_ip: &str = match server_ip_label {
        Some(s) => s.as_str(),
        None => "localhost",
    };
    // Try to find the port from labels, else use the first exposed port.
    let container_port = match find_port_label(labels) {
        Some(p) => Some(p),
        None => if ports.len() > 0 {
            Some(ports[0].private_port)
        } else {
            None
        },
    };
    let mut url = String::from_str("http://");
    url.append(server_ip);
    match container_port {
        None => {
            url.append(":<unknown>");
        },
        Some(cp) => match find_host_port(ports, cp) {
            None => {
                url.append(":<unpublished>");
            },
            Some(hp) => {
                url.append(":");
                let port_str = u16_to_decimal(hp);
                url.append(port_str.as_str());
            },
        },
    }
    url
}

/// A service entry for a load balancer with no servers.
fn empty_service_value() -> (r: JsonValue)
    ensures
        r@ == empty_service(),
{
    let servers = JsonValue::Array(Vec::new());
    assert(json_seq_of(Seq::<JsonValue>::empty()) =~= Seq::<Json>::empty());
    let mut lb = JsonMap::new();
    lb.insert(String::from_str("servers"), servers);
    let mut entry = JsonMap::new();
    entry.insert(String::from_str("loadBalancer"), JsonValue::Object(lb));
    let r = JsonValue::Object(entry);
    assert(r@ =~= empty_service());
    r
}

/// Adds a server with the given URL to a load balancer.
fn add_server_to(lb: &mut JsonMap, url: &String)
    ensures
        final(lb)@ == add_server(old(lb)@, url@),
{
    let mut servers = JsonValue::Array(Vec::new());
    assert(json_seq_of(Seq::<JsonValue>::empty()) =~= Seq::<Json>::empty());
    lb.swap_value("servers", &mut servers);
    match servers {
        JsonValue::Array(mut a) => {
            let mut server = JsonMap::new();
            server.insert(String::from_str("url"), JsonValue::String(url.clone()));
            let ghost before = a@;
            a.push(JsonValue::Object(server));
            proof {
                lemma_json_seq_push(before, JsonValue::Object(server));
            }
            servers = JsonValue::Array(a);
        },
        _ => {},
    }
    lb.insert(String::from_str("servers"), servers);
    proof {
        let o = old(lb)@;
        let expected = add_server(o, url@);
        assert(final(lb)@ =~= expected);
    }
}

/// Merges a labelled load balancer into a collected one, keeping the collected servers.
fn merge_load_balancer_values(current: JsonValue, labelled: &JsonValue) -> (r: JsonValue)
    ensures
        r@ == merge_load_balancer(current@, labelled@),
{
    match current {
        JsonValue::Object(mut cur) => match labelled.as_object() {
            Some(lab) => {
                let ghost c0 = cur@;
                let kept = match cur.get("servers") {
                    Some(servers) => Some(servers.deep_clone()),
                    None => None,
                };
                cur.merge_from(lab);
                match kept {
                    Some(servers) => {
                        cur.insert(String::from_str("servers"), servers);
                    },
                    None => {},
                }
                proof {
                    let merged = c0.union_prefer_right(lab@);
                    assert(cur@ =~= if c0.contains_key("servers"@) {
                        merged.insert("servers"@, c0["servers"@])
                    } else {
                        merged
                    });
                }
                JsonValue::Object(cur)
            },
            None => labelled.deep_clone(),
        },
        _ => labelled.deep_clone(),
    }
}

/// Merges one container's configuration of a service into the services collected so far.
fn merge_service_entry(all: &mut JsonMap, name: &String, config: &JsonMap, url: &String)
    ensures
        final(all)@ == old(all)@.insert(name@, merge_service(old(all)@.get(name@), config@, url@)),
{
    // Get or create the service entry
    let mut entry = JsonValue::Null;
    let existed = all.swap_value(name.as_str(), &mut entry);
    if !existed {
        entry = empty_service_value();
    }
    let ghost e0 = entry@;
    assert(e0 == match old(all)@.get(name@) {
        Some(e) => e,
        None => empty_service(),
    });
    // Merge loadBalancer config, keeping the servers collected so far
    match config.get("loadBalancer") {
        Some(lb) => match entry {
            JsonValue::Object(mut o) => {
                let ghost o0 = o@;
                let mut current = JsonValue::Null;
                let had = o.swap_value("loadBalancer", &mut current);
                let merged = if had && existed {
                    merge_load_balancer_values(current, lb)
                } else {
                    lb.deep_clone()
                };
                o.insert(String::from_str("loadBalancer"), merged);
                proof {
                    assert(o@ =~= o0.insert(
                        "loadBalancer"@,
                        if old(all)@.contains_key(name@) && o0.contains_key("loadBalancer"@) {
                            merge_load_balancer(o0["loadBalancer"@], lb@)
                        } else {
                            lb@
                        },
                    ));
                }
                entry = JsonValue::Object(o);
            },
            _ => {},
        },
        None => {},
    }
    let ghost e1 = entry@;
    assert(e1 == match e0 {
        Json::Obj(o) => if config@.contains_key("loadBalancer"@) {
            Json::Obj(
                o.insert(
                    "loadBalancer"@,
                    if old(all)@.contains_key(name@) && o.contains_key("loadBalancer"@) {
                        merge_load_balancer(o["loadBalancer"@], config@["loadBalancer"@])
                    } else {
                        config@["loadBalancer"@]
                    },
                ),
            )
        } else {
            e0
        },
        _ => e0,
    });
    // Add the backend URL to servers array
    match entry {
        JsonValue::Object(mut o) => {
            let mut lbv = JsonValue::Null;
            if o.swap_value("loadBalancer", &mut lbv) {
                let ghost lb0 = lbv;
                match lbv {
                    JsonValue::Object(mut lb) => {
                        add_server_to(&mut lb, url);
                        lbv = JsonValue::Object(lb);
                    },
                    _ => {},
                }
                o.swap_value("loadBalancer", &mut lbv);
                proof {
                    match lb0 {
                        JsonValue::Object(l) => {
                            assert(o@ =~= e1->Obj_0.insert(
                                "loadBalancer"@,
                                Json::Obj(add_server(l@, url@)),
                            ));
                        },
                        _ => {
                            assert(o@ =~= e1->Obj_0);
                        },
                    }
                }
            }
            entry = JsonValue::Object(o);
        },
        _ => {},
    }
    assert(entry@ == merge_service(old(all)@.get(name@), config@, url@));
    all.insert(name.clone(), entry);
}

/// Adds the routers of one container, which replace routers of the same name.
fn merge_container_routers(all: &mut JsonMap, routers: &StrMap<JsonMap>)
    ensures
        final(all)@ == merge_routers(old(all)@, objects_view(*routers)),
{
    let ghost start = all@;
    let n = routers.len();
    let ghost s = routers.entry_seq();
    proof {
        lemma_entries_map_full(s);
        assert(merge_routers(start, objects_view_of(entries_map(s.take(0)))) =~= start);
    }
    let mut j: usize = 0;
    while j < n
        invariant
            n == s.len(),
            s == routers.entry_seq(),
            unique_keys(s),
            j <= n,
            all@ == merge_routers(start, objects_view_of(entries_map(s.take(j as int)))),
        decreases n - j,
    {
        let entry = routers.entry_at(j);
        proof {
            lemma_entries_map_prefix(s, j as int);
        }
        all.insert(entry.0.clone(), JsonValue::Object(entry.1.deep_clone()));
        proof {
            assert(all@ =~= merge_routers(start, objects_view_of(entries_map(s.take(j + 1)))));
        }
        j = j + 1;
    }
    proof {
        assert(objects_view_of(entries_map(s)) =~= objects_view(*routers));
    }
}

/// Merges the services of one container, each given the container's backend URL.
fn merge_container_services(all: &mut JsonMap, services: &StrMap<JsonMap>, url: &String)
    ensures
        final(all)@ == merge_services(old(all)@, objects_view(*services), url@),
{
    let ghost start = all@;
    let n = services.len();
    let ghost s = services.entry_seq();
    proof {
        lemma_entries_map_full(s);
        assert(merge_services(start, objects_view_of(entries_map(s.take(0))), url@) =~= start);
    }
    let mut j: usize = 0;
    while j < n
        invariant
            n == s.len(),
            s == services.entry_seq(),
            unique_keys(s),
            j <= n,
            all@ == merge_services(start, objects_view_of(entries_map(s.take(j as int))), url@),
        decreases n - j,
    {
        let entry = services.entry_at(j);
        proof {
            lemma_entries_map_prefix(s, j as int);
            let prev = objects_view_of(entries_map(s.take(j as int)));
            assert(!prev.contains_key(entry.0@));
            assert(all@.get(entry.0@) == start.get(entry.0@));
        }
        merge_service_entry(all, &entry.0, &entry.1, url);
        proof {
            assert(all@ =~= merge_services(start, objects_view_of(entries_map(s.take(j + 1))), url@));
        }
        j = j + 1;
    }
    proof {
        assert(objects_view_of(entries_map(s)) =~= objects_view(*services));
    }
}

/// Build the Traefik HTTP provider JSON configuration from a list of container labels.
/// Each container contributes routers and services.
/// Services with the same name are merged (multiple containers -> multiple servers in loadBalancer).
pub fn build(container_labels_list: &Vec<ContainerLabels>) -> (r: JsonValue)
    ensures
        r@ == traefik_config_spec(container_labels_list@.map_values(|c: ContainerLabels| container_view(c))),
{
    let mut all_routers = JsonMap::new();
    let mut all_services = JsonMap::new();
    let ghost list = container_labels_list@.map_values(|c: ContainerLabels| container_view(c));
    let mut i: usize = 0;
    while i < container_labels_list.len()
        invariant
            list == container_labels_list@.map_values(|c: ContainerLabels| container_view(c)),
            i <= list.len(),
            (all_routers@, all_services@) == collect_config(list.take(i as int)),
        decreases list.len() - i,
    {
        let c = &container_labels_list[i];
        proof {
            assert(list.take(i + 1).drop_last() =~= list.take(i as int));
            assert(list.take(i + 1).last() == container_view(container_labels_list@[i as int]));
        }
        let parsed = parse_traefik_labels(&c.labels);
        // Merge routers
        merge_container_routers(&mut all_routers, &parsed.routers);
        // Merge services - handle loadBalancer.servers specially
        let backend_url = resolve_backend_url_from_labels(&c.labels, &c.ports);
        merge_container_services(&mut all_services, &parsed.services, &backend_url);
        i = i + 1;
    }
    proof {
        assert(list.take(list.len() as int) =~= list);
    }
    let mut http = JsonMap::new();
    http.insert(String::from_str("routers"), JsonValue::Object(all_routers));
    http.insert(String::from_str("services"), JsonValue::Object(all_services));
    let mut root = JsonMap::new();
    root.insert(String::from_str("http"), JsonValue::Object(http));
    let r = JsonValue::Object(root);
    proof {
        let (rt, sv) = collect_config(list);
        assert(http@ =~= map!["routers"@ => Json::Obj(rt), "services"@ => Json::Obj(sv)]);
        assert(root@ =~= map!["http"@ => Json::Obj(http@)]);
    }
    r
}

/// The objects of a map of configuration objects.
pub open spec fn objects_view_of(m: Map<Seq<char>, JsonMap>) -> ObjectTable {
    Map::new(|k: Seq<char>| m.contains_key(k), |k: Seq<char>| m[k]@)
}

/// Looking a label up in a table is looking it up in the table's entries.
pub proof fn lemma_label_lookup(labels: StrMap<String>, key: Seq<char>)
    requires
        unique_keys(labels.entry_seq()),
    ensures
        labels.view().contains_key(key) <==> label_lookup(labels_view(labels.entry_seq()), key) is Some,
        labels.view().contains_key(key) ==> label_lookup(labels_view(labels.entry_seq()), key)
            == Some(labels.view()[key]@),
{
    let s = labels.entry_seq();
    let lv = labels_view(s);
    if labels.view().contains_key(key) {
        let i = choose|i: int| 0 <= i < s.len() && #[trigger] s[i].0@ == key;
        assert(lv[i].0 == key);
        let j = choose|j: int| 0 <= j < lv.len() && #[trigger] lv[j].0 == key;
        assert(s[j].0@ == key);
        lemma_entries_map_at(s, j);
    } else {
        if exists|j: int| 0 <= j < lv.len() && #[trigger] lv[j].0 == key {
            let j = choose|j: int| 0 <= j < lv.len() && #[trigger] lv[j].0 == key;
            assert(s[j].0@ == key);
        }
    }
}

/// The configuration with no routers and no services.
pub open spec fn empty_config_spec() -> Json {
    Json::Obj(
        map![
            "http"@ => Json::Obj(map!["routers"@ => Json::Obj(Map::empty()), "services"@ => Json::Obj(Map::empty())]),
        ],
    )
}

/// The configuration with no routers and no services.
pub fn empty_traefik_config() -> (r: JsonValue)
    ensures
        r@ == empty_config_spec(),
{
    let mut http = JsonMap::new();
    http.insert(String::from_str("routers"), JsonValue::Object(JsonMap::new()));
    http.insert(String::from_str("services"), JsonValue::Object(JsonMap::new()));
    let mut root = JsonMap::new();
    root.insert(String::from_str("http"), JsonValue::Object(http));
    proof {
        assert(http@ =~= map!["routers"@ => Json::Obj(Map::empty()), "services"@ => Json::Obj(Map::empty())]);
        assert(root@ =~= map!["http"@ => Json::Obj(http@)]);
    }
    JsonValue::Object(root)
}

/// An instance that serves no container gets the same configuration as an instance that is not
/// found.
pub proof fn lemma_no_containers_empty_config()
    ensures
        traefik_config_spec(Seq::empty()) == empty_config_spec(),
{
}

/// The servers of a service's load balancer, when the entry has a list of them.
pub open spec fn service_servers(entry: Option<Json>) -> Option<Seq<Json>> {
    match entry {
        Some(Json::Obj(o)) => if o.contains_key("loadBalancer"@) {
            match o["loadBalancer"@] {
                Json::Obj(lb) => if lb.contains_key("servers"@) {
                    match lb["servers"@] {
                        Json::Arr(a) => Some(a),
                        _ => None,
                    }
                } else {
                    None
                },
                _ => None,
            }
        } else {
            None
        },
        _ => None,
    }
}

/// A container's configuration of a service sets no load balancer, or sets it as an object.
pub open spec fn load_balancer_mergeable(config: Map<Seq<char>, Json>) -> bool {
    !config.contains_key("loadBalancer"@) || config["loadBalancer"@] is Obj
}

/// The server entry for a backend URL.
pub open spec fn server_entry(url: Seq<char>) -> Json {
    Json::Obj(map!["url"@ => Json::Str(url)])
}

/// A container's configuration of a service sets the `servers` of its load balancer.
pub open spec fn sets_servers(config: Map<Seq<char>, Json>) -> bool {
    &&& config.contains_key("loadBalancer"@)
    &&& config["loadBalancer"@] matches Json::Obj(lb)
    &&& lb.contains_key("servers"@)
}

/// Merging a container's configuration of a service appends the container's backend URL to the
/// servers collected so far (none when the service is new), and keeps them.
pub proof fn lemma_merge_service_servers(existing: Option<Json>, config: Map<Seq<char>, Json>, url: Seq<char>)
    requires
        load_balancer_mergeable(config),
        existing is None ==> !sets_servers(config),
        existing is None || service_servers(existing) is Some,
    ensures
        service_servers(Some(merge_service(existing, config, url))) == Some(
            match existing {
                Some(_) => service_servers(existing).unwrap(),
                None => Seq::<Json>::empty(),
            }.push(server_entry(url)),
        ),
{
    let a = match existing {
        Some(_) => service_servers(existing).unwrap(),
        None => Seq::<Json>::empty(),
    };
    let e = match existing {
        Some(e) => e,
        None => empty_service(),
    };
    assert(service_servers(Some(e)) == Some(a));
}

/// The backend URLs of the containers that configure service `name`, in list order.
pub open spec fn service_urls(containers: Seq<(Seq<(Seq<char>, Seq<char>)>, Seq<Port>)>, name: Seq<char>) -> Seq<Json>
    decreases containers.len(),
{
    if containers.len() == 0 {
        Seq::empty()
    } else {
        let prev = service_urls(containers.drop_last(), name);
        let (labels, ports) = containers.last();
        if parse_labels_spec(labels).1.contains_key(name) {
            prev.push(server_entry(backend_url_spec(labels, ports)))
        } else {
            prev
        }
    }
}

/// The container at `i` is the first in the list that configures service `name`.
pub open spec fn first_configures(
    containers: Seq<(Seq<(Seq<char>, Seq<char>)>, Seq<Port>)>,
    name: Seq<char>,
    i: int,
) -> bool {
    &&& parse_labels_spec(containers[i].0).1.contains_key(name)
    &&& forall|j: int| 0 <= j < i ==> !(#[trigger] parse_labels_spec(containers[j].0).1.contains_key(name))
}

/// Services with the same name are merged: a service's load balancer has one server per
/// container that configures it, with that container's backend URL, in list order (when no
/// container sets the load balancer to a value that is not an object, and the first container
/// that configures the service does not set its `servers`).
pub proof fn lemma_service_servers(containers: Seq<(Seq<(Seq<char>, Seq<char>)>, Seq<Port>)>, name: Seq<char>)
    requires
        forall|i: int|
            0 <= i < containers.len() && #[trigger] parse_labels_spec(containers[i].0).1.contains_key(name)
                ==> load_balancer_mergeable(parse_labels_spec(containers[i].0).1[name]),
        forall|i: int|
            0 <= i < containers.len() && #[trigger] first_configures(containers, name, i) ==> !sets_servers(
                parse_labels_spec(containers[i].0).1[name],
            ),
    ensures
        service_urls(containers, name).len() == 0 <==> forall|j: int|
            0 <= j < containers.len() ==> !(#[trigger] parse_labels_spec(containers[j].0).1.contains_key(name)),
        service_urls(containers, name).len() == 0 <==> !collect_config(containers).1.contains_key(name),
        service_urls(containers, name).len() > 0 ==> service_servers(collect_config(containers).1.get(name))
            == Some(service_urls(containers, name)),
    decreases containers.len(),
{
    if containers.len() > 0 {
        let init = containers.drop_last();
        assert forall|i: int|
            0 <= i < init.len() && #[trigger] parse_labels_spec(init[i].0).1.contains_key(name)
                implies load_balancer_mergeable(parse_labels_spec(init[i].0).1[name]) by {
            assert(init[i] == containers[i]);
        }
        assert forall|i: int| 0 <= i < init.len() && #[trigger] first_configures(init, name, i) implies !sets_servers(
            parse_labels_spec(init[i].0).1[name],
        ) by {
            assert(init[i] == containers[i]);
            assert forall|j: int| 0 <= j < i implies !(#[trigger] parse_labels_spec(containers[j].0).1.contains_key(name)) by {
                assert(init[j] == containers[j]);
            }
            assert(first_configures(containers, name, i));
        }
        lemma_service_servers(init, name);
        let (labels, ports) = containers.last();
        let last = containers.len() - 1;
        assert(containers[last] == containers.last());
        let tables = parse_labels_spec(labels);
        let prev = collect_config(init);
        assert(forall|j: int| 0 <= j < init.len() ==> #[trigger] init[j] == containers[j]);
        if tables.1.contains_key(name) {
            if service_urls(init, name).len() == 0 {
                assert forall|j: int| 0 <= j < last implies !(#[trigger] parse_labels_spec(containers[j].0).1.contains_key(name)) by {
                    assert(init[j] == containers[j]);
                }
                assert(first_configures(containers, name, last));
            }
            lemma_merge_service_servers(prev.1.get(name), tables.1[name], backend_url_spec(labels, ports));
        } else {
            if service_urls(init, name).len() > 0 {
                let j = choose|j: int| 0 <= j < init.len() && #[trigger] parse_labels_spec(init[j].0).1.contains_key(name);
                assert(init[j] == containers[j]);
            }
        }
        if exists|j: int| 0 <= j < containers.len() && #[trigger] parse_labels_spec(containers[j].0).1.contains_key(name) {
            let j = choose|j: int| 0 <= j < containers.len() && #[trigger] parse_labels_spec(containers[j].0).1.contains_key(name);
            if j < last {
                assert(init[j] == containers[j]);
            }
        }
    }
}

/// Every router of every container appears in the configuration, and no other.
pub proof fn lemma_config_routers(containers: Seq<(Seq<(Seq<char>, Seq<char>)>, Seq<Port>)>, name: Seq<char>)
    ensures
        collect_config(containers).0.contains_key(name) <==> exists|i: int|
            0 <= i < containers.len() && #[trigger] parse_labels_spec(containers[i].0).0.contains_key(name),
    decreases containers.len(),
{
    if containers.len() > 0 {
        let init = containers.drop_last();
        lemma_config_routers(init, name);
        if exists|i: int| 0 <= i < init.len() && #[trigger] parse_labels_spec(init[i].0).0.contains_key(name) {
            let i = choose|i: int| 0 <= i < init.len() && #[trigger] parse_labels_spec(init[i].0).0.contains_key(name);
            assert(containers[i] == init[i]);
        }
        if exists|i: int| 0 <= i < containers.len() && #[trigger] parse_labels_spec(containers[i].0).0.contains_key(name) {
            let i = choose|i: int| 0 <= i < containers.len() && #[trigger] parse_labels_spec(containers[i].0).0.contains_key(name);
            if i < init.len() {
                assert(containers[i] == init[i]);
            }
        }
    }
}

/// Every service of every container appears in the configuration, and no other.
pub proof fn lemma_config_services(containers: Seq<(Seq<(Seq<char>, Seq<char>)>, Seq<Port>)>, name: Seq<char>)
    ensures
        collect_config(containers).1.contains_key(name) <==> exists|i: int|
            0 <= i < containers.len() && #[trigger] parse_labels_spec(containers[i].0).1.contains_key(name),
    decreases containers.len(),
{
    if containers.len() > 0 {
        let init = containers.drop_last();
        lemma_config_services(init, name);
        if exists|i: int| 0 <= i < init.len() && #[trigger] parse_labels_spec(init[i].0).1.contains_key(name) {
            let i = choose|i: int| 0 <= i < init.len() && #[trigger] parse_labels_spec(init[i].0).1.contains_key(name);
            assert(containers[i] == init[i]);
        }
        if exists|i: int| 0 <= i < containers.len() && #[trigger] parse_labels_spec(containers[i].0).1.contains_key(name) {
            let i = choose|i: int| 0 <= i < containers.len() && #[trigger] parse_labels_spec(containers[i].0).1.contains_key(name);
            if i < init.len() {
                assert(containers[i] == init[i]);
            }
        }
    }
}

/// A backend URL always names the server IP over HTTP: it begins with `http://`, the IP, and
/// a colon.
pub proof fn lemma_backend_url_prefix(labels: Seq<(Seq<char>, Seq<char>)>, ports: Seq<Port>)
    ensures
        has_prefix(backend_url_spec(labels, ports), "http://"@ + server_ip_spec(labels) + ":"@),
{
    reveal_strlit(":");
    reveal_strlit(":<unknown>");
    reveal_strlit(":<unpublished>");
    let p = "http://"@ + server_ip_spec(labels) + ":"@;
    let u = backend_url_spec(labels, ports);
    assert(u.take(p.len() as int) =~= p);
}

/// A stripped address holds no colon: neither a scheme nor a port is left.
pub proof fn lemma_stripped_address_has_no_colon(addr: Seq<char>)
    ensures
        forall|j: int|
            0 <= j < strip_protocol_and_port_spec(addr).len() ==> #[trigger] strip_protocol_and_port_spec(
                addr,
            )[j] != ':',
{
    let rest = trim_start_all(trim_start_all(addr, "http://"@), "https://"@);
    lemma_split_on_pieces(rest, ':');
    lemma_split_on_nonempty(rest, ':');
    assert forall|j: int| 0 <= j < split_on(rest, ':')[0].len() implies #[trigger] split_on(rest, ':')[0][j]
        != ':' by {}
}

/// No two labels share a key.
pub open spec fn distinct_label_keys(labels: Seq<(Seq<char>, Seq<char>)>) -> bool {
    forall|i: int, j: int|
        0 <= i < labels.len() && 0 <= j < labels.len() && i != j ==> #[trigger] labels[i].0
            != #[trigger] labels[j].0
}

/// Removing one label changes no lookup of another key.
proof fn lemma_label_lookup_without(
    before: Seq<(Seq<char>, Seq<char>)>,
    x: (Seq<char>, Seq<char>),
    after: Seq<(Seq<char>, Seq<char>)>,
    key: Seq<char>,
)
    requires
        distinct_label_keys(before + seq![x] + after),
        key != x.0,
    ensures
        label_lookup(before + seq![x] + after, key) == label_lookup(before + after, key),
{
    let l = before + seq![x] + after;
    let r = before + after;
    let n = before.len() as int;
    assert forall|j: int| 0 <= j < r.len() implies #[trigger] r[j] == l[if j < n { j } else { j + 1 }] by {}
    if exists|i: int| 0 <= i < l.len() && #[trigger] l[i].0 == key {
        let i = choose|i: int| 0 <= i < l.len() && #[trigger] l[i].0 == key;
        assert(i != n);
        let j = if i < n { i } else { i - 1 };
        assert(r[j] == l[i]);
        let jr = choose|j: int| 0 <= j < r.len() && #[trigger] r[j].0 == key;
        let il = if jr < n { jr } else { jr + 1 };
        assert(r[jr] == l[il]);
        assert(il == i);
    }
    if exists|j: int| 0 <= j < r.len() && #[trigger] r[j].0 == key {
        let j = choose|j: int| 0 <= j < r.len() && #[trigger] r[j].0 == key;
        let il = if j < n { j } else { j + 1 };
        assert(r[j] == l[il]);
        assert(l[il].0 == key);
    }
}

/// A label whose key holds no `loadbalancer.server.port` gives no port, wherever it stands.
proof fn lemma_port_label_without(
    before: Seq<(Seq<char>, Seq<char>)>,
    x: (Seq<char>, Seq<char>),
    after: Seq<(Seq<char>, Seq<char>)>,
)
    requires
        !occurs_in(x.0, "loadbalancer.server.port"@),
    ensures
        port_label_spec(before + seq![x] + after) == port_label_spec(before + after),
    decreases before.len(),
{
    if before.len() == 0 {
        assert(before + seq![x] + after =~= seq![x] + after);
        assert((seq![x] + after).skip(1) =~= after);
        assert(before + after =~= after);
    } else {
        lemma_port_label_without(before.skip(1), x, after);
        assert((before + seq![x] + after).skip(1) =~= before.skip(1) + seq![x] + after);
        assert((before + after).skip(1) =~= before.skip(1) + after);
        assert((before + seq![x] + after)[0] == before[0]);
        assert((before + after)[0] == before[0]);
    }
}

/// The backend URL reads only the `__komodo_server_ip` label and the labels whose key holds
/// `loadbalancer.server.port`: any other label (such as `__komodo_container_ports`, whose ports
/// come as an argument) can be removed without changing it.
pub proof fn lemma_backend_url_other_label(
    before: Seq<(Seq<char>, Seq<char>)>,
    key: Seq<char>,
    value: Seq<char>,
    after: Seq<(Seq<char>, Seq<char>)>,
    ports: Seq<Port>,
)
    requires
        distinct_label_keys(before + seq![(key, value)] + after),
        key != "__komodo_server_ip"@,
        !occurs_in(key, "loadbalancer.server.port"@),
    ensures
        backend_url_spec(before + seq![(key, value)] + after, ports) == backend_url_spec(before + after, ports),
{
    lemma_label_lookup_without(before, (key, value), after, "__komodo_server_ip"@);
    lemma_port_label_without(before, (key, value), after);
}


/// Merging a container's configuration into a service seen before: the load balancer then has
/// every setting the container labels (other than `servers`) with the labelled value, keeps the
/// earlier settings the container does not label, keeps the collected servers with the
/// container's backend URL appended, and the entry's other fields stay as they were.
pub proof fn lemma_merge_seen_service(
    entry: Map<Seq<char>, Json>,
    current: Map<Seq<char>, Json>,
    labelled: Map<Seq<char>, Json>,
    config: Map<Seq<char>, Json>,
    url: Seq<char>,
)
    requires
        entry.contains_key("loadBalancer"@),
        entry["loadBalancer"@] == Json::Obj(current),
        config.contains_key("loadBalancer"@),
        config["loadBalancer"@] == Json::Obj(labelled),
        current.contains_key("servers"@),
        current["servers"@] is Arr,
    ensures
        merge_service(Some(Json::Obj(entry)), config, url) is Obj,
        ({
            let res = merge_service(Some(Json::Obj(entry)), config, url)->Obj_0;
            &&& res.remove("loadBalancer"@) == entry.remove("loadBalancer"@)
            &&& res.contains_key("loadBalancer"@)
            &&& res["loadBalancer"@] is Obj
            &&& forall|k: Seq<char>|
                k != "servers"@ ==> (#[trigger] res["loadBalancer"@]->Obj_0.contains_key(k) <==> (
                labelled.contains_key(k) || current.contains_key(k)))
            &&& forall|k: Seq<char>|
                k != "servers"@ && labelled.contains_key(k) ==> #[trigger] res["loadBalancer"@]->Obj_0[k]
                    == labelled[k]
            &&& forall|k: Seq<char>|
                k != "servers"@ && !labelled.contains_key(k) && current.contains_key(k)
                    ==> #[trigger] res["loadBalancer"@]->Obj_0[k] == current[k]
            &&& res["loadBalancer"@]->Obj_0["servers"@] == Json::Arr(
                current["servers"@]->Arr_0.push(server_entry(url)),
            )
        }),
{
    let merged = merge_load_balancer(Json::Obj(current), Json::Obj(labelled));
    let e1 = entry.insert("loadBalancer"@, merged);
    let m = merged->Obj_0;
    assert(m.contains_key("servers"@) && m["servers"@] == current["servers"@]);
    let res = merge_service(Some(Json::Obj(entry)), config, url)->Obj_0;
    assert(res == e1.insert("loadBalancer"@, Json::Obj(add_server(m, url))));
    assert(res.remove("loadBalancer"@) =~= entry.remove("loadBalancer"@));
}

/// Each container that configures service `name` has its server among the service's URLs.
pub proof fn lemma_service_urls_member(
    containers: Seq<(Seq<(Seq<char>, Seq<char>)>, Seq<Port>)>,
    name: Seq<char>,
    p: int,
)
    requires
        0 <= p < containers.len(),
        parse_labels_spec(containers[p].0).1.contains_key(name),
    ensures
        service_urls(containers, name).contains(server_entry(backend_url_spec(containers[p].0, containers[p].1))),
    decreases containers.len(),
{
    let init = containers.drop_last();
    let prev = service_urls(init, name);
    let e = server_entry(backend_url_spec(containers[p].0, containers[p].1));
    if p < init.len() {
        assert(init[p] == containers[p]);
        lemma_service_urls_member(init, name, p);
        let q = choose|q: int| 0 <= q < prev.len() && prev[q] == e;
        if parse_labels_spec(containers.last().0).1.contains_key(name) {
            assert(service_urls(containers, name)[q] == prev[q]);
        }
    } else {
        assert(containers.last() == containers[p]);
        assert(service_urls(containers, name)[prev.len() as int] == e);
    }
}

/// The servers of service `name` in the configuration of some containers, read by key path.
pub proof fn lemma_config_service_servers(containers: Seq<(Seq<(Seq<char>, Seq<char>)>, Seq<Port>)>, name: Seq<char>)
    requires
        forall|i: int|
            0 <= i < containers.len() && #[trigger] parse_labels_spec(containers[i].0).1.contains_key(name)
                ==> load_balancer_mergeable(parse_labels_spec(containers[i].0).1[name]),
        forall|i: int|
            0 <= i < containers.len() && #[trigger] first_configures(containers, name, i) ==> !sets_servers(
                parse_labels_spec(containers[i].0).1[name],
            ),
        service_urls(containers, name).len() > 0,
    ensures
        json_at(
            traefik_config_spec(containers),
            seq!["http"@, "services"@, name, "loadBalancer"@, "servers"@],
        ) == Some(Json::Arr(service_urls(containers, name))),
{
    lemma_service_servers(containers, name);
    let services = collect_config(containers).1;
    let path = seq!["http"@, "services"@, name, "loadBalancer"@, "servers"@];
    let entry = services[name];
    let o = entry->Obj_0;
    let lb = o["loadBalancer"@]->Obj_0;
    let servers = lb["servers"@];
    reveal_strlit("http");
    reveal_strlit("services");
    reveal_strlit("routers");
    assert(json_at(servers, path.skip(5)) == Some(servers));
    assert(path.skip(4).skip(1) =~= path.skip(5));
    assert(json_at(Json::Obj(lb), path.skip(4)) == Some(servers));
    assert(path.skip(3).skip(1) =~= path.skip(4));
    assert(json_at(entry, path.skip(3)) == Some(servers));
    assert(path.skip(2).skip(1) =~= path.skip(3));
    assert(json_at(Json::Obj(services), path.skip(2)) == Some(servers));
    assert(path.skip(1).skip(1) =~= path.skip(2));
    let (routers, _) = collect_config(containers);
    let http = map!["routers"@ => Json::Obj(routers), "services"@ => Json::Obj(services)];
    assert(http["services"@] == Json::Obj(services));
    assert(json_at(Json::Obj(http), path.skip(1)) == Some(servers));
}

/// The URLs of a service over two lists of containers are those of the first list, then those of
/// the second.
pub proof fn lemma_service_urls_append(
    a: Seq<(Seq<(Seq<char>, Seq<char>)>, Seq<Port>)>,
    b: Seq<(Seq<(Seq<char>, Seq<char>)>, Seq<Port>)>,
    name: Seq<char>,
)
    ensures
        service_urls(a + b, name) == service_urls(a, name) + service_urls(b, name),
    decreases b.len(),
{
    if b.len() == 0 {
        assert(a + b =~= a);
        assert(service_urls(a, name) + service_urls(b, name) =~= service_urls(a, name));
    } else {
        assert((a + b).drop_last() =~= a + b.drop_last());
        assert((a + b).last() == b.last());
        lemma_service_urls_append(a, b.drop_last(), name);
        let x = service_urls(a, name);
        let y = service_urls(b.drop_last(), name);
        let (labels, ports) = b.last();
        if parse_labels_spec(labels).1.contains_key(name) {
            assert(x + y.push(server_entry(backend_url_spec(labels, ports))) =~= (x + y).push(
                server_entry(backend_url_spec(labels, ports)),
            ));
        }
    }
}
} // verus!
