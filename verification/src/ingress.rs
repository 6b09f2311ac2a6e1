//! Computing the ingress cache: which containers each ingress instance serves, the routes
//! shown for it, and the Traefik configuration it is given.
use vstd::prelude::*;
use crate::entities::{CachedIngressState, CachedView, IngressInstance, IngressRoute, RouteView, routes_view};
use crate::json::{Json, JsonMap, JsonValue, json_seq_of, lemma_json_seq_of, lemma_view_json};
use crate::labels::{
    LabelTarget, ObjectTable, fold_names, json_at, label_target, lemma_fold_names, lemma_ignored_label, lemma_name_counts,
    lemma_parsed_names, labels_view, objects_view, parse_labels_spec, parse_traefik_labels,
};
use crate::table::{StrMap, has_key, insert_entry, key_index, keys_of, lemma_entries_map_at, unique_keys};
use crate::text::{has_prefix, str_eq};
use crate::traefik_config::{
    ContainerLabels, Port, Server, backend_url_spec, build, container_view, distinct_label_keys, first_configures,
    label_lookup, lemma_config_service_servers, lemma_service_urls_append, lemma_service_urls_member, load_balancer_mergeable, server_entry,
    service_urls, sets_servers,
    lemma_backend_url_prefix, lemma_label_lookup, resolve_backend_url_from_labels,
    resolve_server_ip, server_address_spec, strip_protocol_and_port_spec, traefik_config_spec,
};

verus! {

broadcast use {lemma_view_json, lemma_json_seq_of};

/// A container as the server status reports it.
pub struct ContainerListItem {
    pub name: String,
    /// The container's labels that concern ingress.
    pub ingress_labels: StrMap<String>,
    pub ports: Vec<Port>,
}

/// The status of a server: its containers, when they are known.
pub struct ServerStatus {
    pub id: String,
    pub containers: Option<Vec<ContainerListItem>>,
}

/// The string a JSON value holds, if it is a string.
pub open spec fn json_str(j: Option<Json>) -> Option<Seq<char>> {
    match j {
        Some(Json::Str(s)) => Some(s),
        _ => None,
    }
}

/// The strings among the elements of a JSON array, in order.
pub open spec fn str_items(a: Seq<Json>) -> Seq<Seq<char>>
    decreases a.len(),
{
    if a.len() == 0 {
        Seq::empty()
    } else {
        let prev = str_items(a.drop_last());
        match a.last() {
            Json::Str(s) => prev.push(s),
            _ => prev,
        }
    }
}

/// The route of one router of a container.
pub open spec fn route_spec(
    server_name: Seq<char>,
    container_name: Seq<char>,
    router_name: Seq<char>,
    router: Map<Seq<char>, Json>,
    backend_url: Seq<char>,
) -> RouteView {
    let service_name = match json_str(router.get("service"@)) {
        Some(s) => s,
        None => router_name,
    };
    RouteView {
        server_name,
        container_name,
        router_name,
        rule: match json_str(router.get("rule"@)) {
            Some(s) => s,
            None => Seq::empty(),
        },
        service_name,
        backend_url,
        entrypoints: match router.get("entrypoints"@) {
            Some(Json::Arr(a)) => str_items(a),
            _ => Seq::empty(),
        },
    }
}

/// The routes of a container, one per router, in the order of the router's first label; each
/// shows the container's backend URL, the one its services get in the Traefik configuration.
pub open spec fn container_routes_spec(server_name: Seq<char>, server_ip: Seq<char>, c: ContainerListItem) -> Seq<RouteView> {
    let lv = labels_view(c.ingress_labels.entry_seq());
    let tables = parse_labels_spec(lv);
    let url = backend_url_spec(backend_of(c, server_ip).0, c.ports@);
    fold_names(lv).0.map_values(|n: Seq<char>| route_spec(server_name, c.name@, n, tables.0[n], url))
}

/// The IP that backend URLs of a server's containers use.
pub open spec fn server_ip_of(server: Server) -> Seq<char> {
    strip_protocol_and_port_spec(server_address_spec(&server))
}

/// The address that an instance's backend URLs use for a server: `host.docker.internal` when
/// the instance's Traefik runs on that same server, else the server's IP.
pub open spec fn backend_host_spec(server_id: Seq<char>, server: Server) -> Seq<char> {
    if server.id@ == server_id {
        "host.docker.internal"@
    } else {
        server_ip_of(server)
    }
}

/// The name of the first instance that is the default.
pub open spec fn default_instance_spec(instances: Seq<IngressInstance>) -> Option<Seq<char>>
    decreases instances.len(),
{
    if instances.len() == 0 {
        None
    } else if instances[0].config.is_default {
        Some(instances[0].name@)
    } else {
        default_instance_spec(instances.skip(1))
    }
}

/// The last server with the given id (servers are looked up in a map built in list order).
pub open spec fn find_server_spec(servers: Seq<Server>, id: Seq<char>) -> Option<Server>
    decreases servers.len(),
{
    if servers.len() == 0 {
        None
    } else if servers.last().id@ == id {
        Some(servers.last())
    } else {
        find_server_spec(servers.drop_last(), id)
    }
}

/// The instance a container belongs to: the one its `komodo.ingress.instance` label names,
/// else the default instance.
pub open spec fn container_instance_spec(c: ContainerListItem, default: Option<Seq<char>>) -> Option<Seq<char>> {
    match label_lookup(labels_view(c.ingress_labels.entry_seq()), "komodo.ingress.instance"@) {
        Some(name) => Some(name),
        None => default,
    }
}

/// A container has ingress labels and belongs to the named instance.
pub open spec fn serves(c: ContainerListItem, default: Option<Seq<char>>, name: Seq<char>) -> bool {
    c.ingress_labels.entry_seq().len() > 0 && container_instance_spec(c, default) == Some(name)
}

/// The routes of the containers of one server that an instance serves.
pub open spec fn containers_routes(
    cs: Seq<ContainerListItem>,
    server_name: Seq<char>,
    server_ip: Seq<char>,
    default: Option<Seq<char>>,
    name: Seq<char>,
) -> Seq<RouteView>
    decreases cs.len(),
{
    if cs.len() == 0 {
        Seq::empty()
    } else {
        containers_routes(cs.drop_last(), server_name, server_ip, default, name) + if serves(
            cs.last(),
            default,
            name,
        ) {
            container_routes_spec(server_name, server_ip, cs.last())
        } else {
            Seq::empty()
        }
    }
}

/// The routes of one server that an instance serves: none when the server is unknown or its
/// containers are not.
pub open spec fn status_routes(
    status: ServerStatus,
    servers: Seq<Server>,
    default: Option<Seq<char>>,
    name: Seq<char>,
    server_id: Seq<char>,
) -> Seq<RouteView> {
    match find_server_spec(servers, status.id@) {
        None => Seq::empty(),
        Some(server) => match status.containers {
            None => Seq::empty(),
            Some(cs) => containers_routes(cs@, server.name@, backend_host_spec(server_id, server), default, name),
        },
    }
}

/// The routes of an instance (named `name`, its Traefik on the server `server_id`), server by
/// server and container by container.
pub open spec fn routes_for_instance(
    statuses: Seq<ServerStatus>,
    servers: Seq<Server>,
    default: Option<Seq<char>>,
    name: Seq<char>,
    server_id: Seq<char>,
) -> Seq<RouteView>
    decreases statuses.len(),
{
    if statuses.len() == 0 {
        Seq::empty()
    } else {
        routes_for_instance(statuses.drop_last(), servers, default, name, server_id) + status_routes(
            statuses.last(),
            servers,
            default,
            name,
            server_id,
        )
    }
}

/// Labels after setting `key` to `value`: an existing label keeps its position, a new one goes
/// last.
pub open spec fn with_label(labels: Seq<(Seq<char>, Seq<char>)>, key: Seq<char>, value: Seq<char>) -> Seq<(Seq<char>, Seq<char>)> {
    if exists|i: int| 0 <= i < labels.len() && #[trigger] labels[i].0 == key {
        labels.update(choose|i: int| 0 <= i < labels.len() && #[trigger] labels[i].0 == key, (key, value))
    } else {
        labels.push((key, value))
    }
}

/// The labels and ports from which an instance's configuration is built for a container: its
/// labels with `__komodo_server_ip` set to its server's IP.
pub open spec fn backend_of(c: ContainerListItem, server_ip: Seq<char>) -> (Seq<(Seq<char>, Seq<char>)>, Seq<Port>) {
    (with_label(labels_view(c.ingress_labels.entry_seq()), "__komodo_server_ip"@, server_ip), c.ports@)
}

/// The backends of the containers of one server that an instance serves.
pub open spec fn containers_backends(
    cs: Seq<ContainerListItem>,
    server_ip: Seq<char>,
    default: Option<Seq<char>>,
    name: Seq<char>,
) -> Seq<(Seq<(Seq<char>, Seq<char>)>, Seq<Port>)>
    decreases cs.len(),
{
    if cs.len() == 0 {
        Seq::empty()
    } else {
        let prev = containers_backends(cs.drop_last(), server_ip, default, name);
        if serves(cs.last(), default, name) {
            prev.push(backend_of(cs.last(), server_ip))
        } else {
            prev
        }
    }
}

/// The backends of one server that an instance serves.
pub open spec fn status_backends(
    status: ServerStatus,
    servers: Seq<Server>,
    default: Option<Seq<char>>,
    name: Seq<char>,
    server_id: Seq<char>,
) -> Seq<(Seq<(Seq<char>, Seq<char>)>, Seq<Port>)> {
    match find_server_spec(servers, status.id@) {
        None => Seq::empty(),
        Some(server) => match status.containers {
            None => Seq::empty(),
            Some(cs) => containers_backends(cs@, backend_host_spec(server_id, server), default, name),
        },
    }
}

/// The backends of an instance (named `name`, its Traefik on the server `server_id`), server by
/// server and container by container.
pub open spec fn backends_for_instance(
    statuses: Seq<ServerStatus>,
    servers: Seq<Server>,
    default: Option<Seq<char>>,
    name: Seq<char>,
    server_id: Seq<char>,
) -> Seq<(Seq<(Seq<char>, Seq<char>)>, Seq<Port>)>
    decreases statuses.len(),
{
    if statuses.len() == 0 {
        Seq::empty()
    } else {
        backends_for_instance(statuses.drop_last(), servers, default, name, server_id) + status_backends(
            statuses.last(),
            servers,
            default,
            name,
            server_id,
        )
    }
}

/// The cache after the given instances, in order, with the names whose routes were handed out:
/// each enabled instance gets its Traefik configuration and, when it is the first enabled
/// instance of its name, its routes.
pub open spec fn cache_fold(
    instances: Seq<IngressInstance>,
    statuses: Seq<ServerStatus>,
    servers: Seq<Server>,
    default: Option<Seq<char>>,
) -> (Set<Seq<char>>, Map<Seq<char>, CachedView>)
    decreases instances.len(),
{
    if instances.len() == 0 {
        (Set::empty(), Map::empty())
    } else {
        let (taken, cache) = cache_fold(instances.drop_last(), statuses, servers, default);
        let inst = instances.last();
        let name = inst.name@;
        if !inst.config.enabled {
            (taken, cache)
        } else {
            let server_id = inst.config.server_id@;
            let routes = if taken.contains(name) {
                Seq::empty()
            } else {
                routes_for_instance(statuses, servers, default, name, server_id)
            };
            let config = traefik_config_spec(backends_for_instance(statuses, servers, default, name, server_id));
            (taken.insert(name), cache.insert(name, CachedView { routes, traefik_config: config }))
        }
    }
}

/// The ingress cache: for each enabled instance, by name, its routes and Traefik configuration.
pub open spec fn ingress_cache_spec(
    instances: Seq<IngressInstance>,
    servers: Seq<Server>,
    statuses: Seq<ServerStatus>,
) -> Map<Seq<char>, CachedView> {
    cache_fold(instances, statuses, servers, default_instance_spec(instances)).1
}

/// The cached states of a cache table.
pub open spec fn cache_view(cache: StrMap<CachedIngressState>) -> Map<Seq<char>, CachedView> {
    Map::new(|k: Seq<char>| cache.view().contains_key(k), |k: Seq<char>| cache.view()[k]@)
}

/// The name of the first instance marked as default.
fn default_instance(instances: &Vec<IngressInstance>) -> (r: Option<String>)
    ensures
        r is Some <==> default_instance_spec(instances@) is Some,
        r matches Some(n) ==> default_instance_spec(instances@) == Some(n@),
{
    let mut i: usize = 0;
    assert(instances@.skip(0) =~= instances@);
    while i < instances.len()
        invariant
            i <= instances@.len(),
            default_instance_spec(instances@) == default_instance_spec(instances@.skip(i as int)),
        decreases instances@.len() - i,
    {
        proof {
            assert(instances@.skip(i as int).skip(1) =~= instances@.skip(i + 1));
        }
        if instances[i].config.is_default {
            return Some(instances[i].name.clone());
        }
        i = i + 1;
    }
    None
}

/// The last server with the given id.
fn find_server<'a>(servers: &'a Vec<Server>, id: &str) -> (r: Option<&'a Server>)
    ensures
        r is Some <==> find_server_spec(servers@, id@) is Some,
        r matches Some(s) ==> find_server_spec(servers@, id@) == Some(*s),
{
    let mut i: usize = servers.len();
    assert(servers@.take(servers@.len() as int) =~= servers@);
    while i > 0
        invariant
            i <= servers@.len(),
            find_server_spec(servers@, id@) == find_server_spec(servers@.take(i as int), id@),
        decreases i,
    {
        proof {
            assert(servers@.take(i as int).drop_last() =~= servers@.take(i - 1));
        }
        if str_eq(servers[i - 1].id.as_str(), id) {
            return Some(&servers[i - 1]);
        }
        i = i - 1;
    }
    None
}

/// The instance a container belongs to.
fn container_instance(c: &ContainerListItem, default: &Option<String>) -> (r: Option<String>)
    ensures
        r is Some <==> container_instance_spec(*c, default_view(*default)) is Some,
        r matches Some(n) ==> container_instance_spec(*c, default_view(*default)) == Some(n@),
{
    let label = c.ingress_labels.get("komodo.ingress.instance");
    proof {
        lemma_label_lookup(c.ingress_labels, "komodo.ingress.instance"@);
    }
    match label {
        Some(name) => Some(name.clone()),
        None => match default {
            Some(d) => Some(d.clone()),
            None => None,
        },
    }
}

/// The character view of an optional name.
pub open spec fn default_view(d: Option<String>) -> Option<Seq<char>> {
    match d {
        Some(s) => Some(s@),
        None => None,
    }
}

/// The strings among the elements of an array.
fn string_items(a: &Vec<JsonValue>) -> (r: Vec<String>)
    ensures
        r@.map_values(|s: String| s@) == str_items(json_seq_of(a@)),
{
    let mut out: Vec<String> = Vec::new();
    let mut i: usize = 0;
    while i < a.len()
        invariant
            i <= a@.len(),
            out@.map_values(|s: String| s@) == str_items(json_seq_of(a@.take(i as int))),
        decreases a@.len() - i,
    {
        proof {
            let t = a@.take(i + 1);
            assert(t.drop_last() =~= a@.take(i as int));
            assert(json_seq_of(t).drop_last() =~= json_seq_of(a@.take(i as int)));
            assert(json_seq_of(t).last() == a@[i as int]@);
        }
        match a[i].as_str() {
            Some(s) => {
                let ghost before = out@;
                out.push(String::from_str(s));
                proof {
                    assert(out@.map_values(|s: String| s@) =~= before.map_values(|s: String| s@).push(
                        s@,
                    ));
                }
            },
            None => {},
        }
        i = i + 1;
    }
    proof {
        assert(a@.take(a@.len() as int) =~= a@);
    }
    out
}

/// The string stored under `key` in an object, if it is a string.
fn get_str(m: &JsonMap, key: &str) -> (r: Option<String>)
    ensures
        r is Some <==> json_str(m@.get(key@)) is Some,
        r matches Some(s) ==> json_str(m@.get(key@)) == Some(s@),
{
    match m.get(key) {
        Some(v) => match v.as_str() {
            Some(s) => Some(String::from_str(s)),
            None => None,
        },
        None => None,
    }
}

/// The routes of a container's routers, in the order of their first label.
fn container_routes(server: &Server, server_ip: &String, c: &ContainerListItem) -> (r: Vec<IngressRoute>)
    ensures
        routes_view(r@) == container_routes_spec(server.name@, server_ip@, *c),
{
    let parsed = parse_traefik_labels(&c.ingress_labels);
    let ghost lv = labels_view(c.ingress_labels.entry_seq());
    let ghost tables = parse_labels_spec(lv);
    let ghost names = fold_names(lv).0;
    // The backend URL of the container, as its services get it
    let mut labels_with_backend = c.ingress_labels.clone_strings();
    let ghost s0 = labels_with_backend.entry_seq();
    let key = String::from_str("__komodo_server_ip");
    let ghost k = key;
    labels_with_backend.insert(key, server_ip.clone());
    proof {
        lemma_with_label(s0, k, *server_ip);
    }
    let backend_url = resolve_backend_url_from_labels(&labels_with_backend, &c.ports);
    let ghost url = backend_url_spec(backend_of(*c, server_ip@).0, c.ports@);
    assert(backend_url@ == url);
    let n = parsed.routers.len();
    let ghost s = parsed.routers.entry_seq();
    let mut out: Vec<IngressRoute> = Vec::new();
    let mut i: usize = 0;
    while i < n
        invariant
            n == s.len(),
            s == parsed.routers.entry_seq(),
            unique_keys(s),
            keys_of(s) == names,
            objects_view(parsed.routers) == tables.0,
            backend_url@ == url,
            i <= n,
            routes_view(out@) == names.take(i as int).map_values(
                |nm: Seq<char>| route_spec(server.name@, c.name@, nm, tables.0[nm], url),
            ),
        decreases n - i,
    {
        let entry = parsed.routers.entry_at(i);
        let router_name = &entry.0;
        let router_labels = &entry.1;
        proof {
            lemma_entries_map_at(s, i as int);
            assert(names[i as int] == router_name@);
            assert(tables.0[router_name@] == router_labels@);
        }
        let rule = match get_str(router_labels, "rule") {
            Some(r) => r,
            None => String::new(),
        };
        let entrypoints = match router_labels.get("entrypoints") {
            Some(v) => match v.as_array() {
                Some(arr) => string_items(arr),
                None => Vec::new(),
            },
            None => Vec::new(),
        };
        // Get the service name from router
        let service_name = match get_str(router_labels, "service") {
            Some(s) => s,
            None => router_name.clone(),
        };
        let route = IngressRoute {
            server_name: server.name.clone(),
            container_name: c.name.clone(),
            router_name: router_name.clone(),
            rule,
            service_name,
            backend_url: backend_url.clone(),
            entrypoints,
        };
        let ghost before = out@;
        out.push(route);
        proof {
            let f = |nm: Seq<char>| route_spec(server.name@, c.name@, nm, tables.0[nm], url);
            assert(names.take(i + 1) =~= names.take(i as int).push(names[i as int]));
            assert(routes_view(out@) =~= routes_view(before).push(route@));
            assert(route@.entrypoints =~= f(router_name@).entrypoints);
            assert(route@ == f(router_name@));
            assert(names.take(i + 1).map_values(f) =~= names.take(i as int).map_values(f).push(
                f(names[i as int]),
            ));
        }
        i = i + 1;
    }
    proof {
        assert(names.take(n as int) =~= names);
    }
    out
}

/// The address that an instance's backend URLs use for a server.
fn backend_host(server_id: &String, server: &Server) -> (r: String)
    ensures
        r@ == backend_host_spec(server_id@, *server),
{
    if str_eq(server.id.as_str(), server_id.as_str()) {
        String::from_str("host.docker.internal")
    } else {
        resolve_server_ip(server)
    }
}

/// The routes of the containers an instance serves, server by server and container by
/// container.
fn instance_routes_for(
    statuses: &Vec<ServerStatus>,
    servers: &Vec<Server>,
    default: &Option<String>,
    name: &String,
    server_id: &String,
) -> (r: Vec<IngressRoute>)
    ensures
        routes_view(r@) == routes_for_instance(
            statuses@,
            servers@,
            default_view(*default),
            name@,
            server_id@,
        ),
{
    let ghost d = default_view(*default);
    let mut out: Vec<IngressRoute> = Vec::new();
    assert(routes_view(out@) =~= Seq::<RouteView>::empty());
    let mut i: usize = 0;
    while i < statuses.len()
        invariant
            i <= statuses@.len(),
            d == default_view(*default),
            routes_view(out@) == routes_for_instance(statuses@.take(i as int), servers@, d, name@, server_id@),
        decreases statuses@.len() - i,
    {
        let status = &statuses[i];
        proof {
            assert(statuses@.take(i + 1).drop_last() =~= statuses@.take(i as int));
        }
        let ghost before = routes_view(out@);
        match find_server(servers, status.id.as_str()) {
            None => {
                assert(before + Seq::empty() =~= before);
            },
            Some(server) => {
                let server_ip = backend_host(server_id, server);
                match &status.containers {
                    None => {
                        assert(before + Seq::empty() =~= before);
                    },
                    Some(containers) => {
                        let mut j: usize = 0;
                        assert(before + Seq::empty() =~= before);
                        while j < containers.len()
                            invariant
                                j <= containers@.len(),
                                d == default_view(*default),
                                routes_view(out@) == before + containers_routes(
                                    containers@.take(j as int),
                                    server.name@,
                                    server_ip@,
                                    d,
                                    name@,
                                ),
                            decreases containers@.len() - j,
                        {
                            let c = &containers[j];
                            proof {
                                assert(containers@.take(j + 1).drop_last() =~= containers@.take(
                                    j as int,
                                ));
                                assert(containers@.take(j + 1).last() == *c);
                            }
                            let ghost prev = containers_routes(
                                containers@.take(j as int),
                                server.name@,
                                server_ip@,
                                d,
                                name@,
                            );
                            // Parse labels to determine which instance this belongs to
                            let target = if c.ingress_labels.len() > 0 {
                                container_instance(c, default)
                            } else {
                                None
                            };
                            let matches = match &target {
                                Some(instance_name) => str_eq(instance_name.as_str(), name.as_str()),
                                None => false,
                            };
                            if matches {
                                let mut routes = container_routes(server, &server_ip, c);
                                let ghost added = routes_view(routes@);
                                let ghost mid = out@;
                                out.append(&mut routes);
                                proof {
                                    assert(routes_view(out@) =~= routes_view(mid) + added);
                                    assert(before + (prev + added) =~= (before + prev) + added);
                                }
                            } else {
                                assert(prev + Seq::empty() =~= prev);
                            }
                            j = j + 1;
                        }
                        proof {
                            assert(containers@.take(containers@.len() as int) =~= containers@);
                        }
                    },
                }
            },
        }
        i = i + 1;
    }
    proof {
        assert(statuses@.take(statuses@.len() as int) =~= statuses@);
    }
    out
}

/// Setting a label in a table sets it in the table's entries.
proof fn lemma_with_label(s: Seq<(String, String)>, key: String, value: String)
    requires
        unique_keys(s),
    ensures
        labels_view(insert_entry(s, key, value)) == with_label(labels_view(s), key@, value@),
{
    let lv = labels_view(s);
    if has_key(s, key@) {
        let ki = key_index(s, key@);
        assert(lv[ki].0 == key@);
        let j = choose|j: int| 0 <= j < lv.len() && #[trigger] lv[j].0 == key@;
        assert(s[j].0@ == key@);
        assert(s[ki].0@ == key@);
        assert(j == ki);
        assert(labels_view(s.update(ki, (key, value))) =~= lv.update(ki, (key@, value@)));
    } else {
        if exists|j: int| 0 <= j < lv.len() && #[trigger] lv[j].0 == key@ {
            let j = choose|j: int| 0 <= j < lv.len() && #[trigger] lv[j].0 == key@;
            assert(s[j].0@ == key@);
        }
        assert(labels_view(s.push((key, value))) =~= lv.push((key@, value@)));
    }
}

/// The labels and ports from which an instance's configuration is built, one entry per
/// container it serves.
fn instance_backends(
    statuses: &Vec<ServerStatus>,
    servers: &Vec<Server>,
    default: &Option<String>,
    name: &String,
    server_id: &String,
) -> (r: Vec<ContainerLabels>)
    ensures
        r@.map_values(|c: ContainerLabels| container_view(c)) == backends_for_instance(
            statuses@,
            servers@,
            default_view(*default),
            name@,
            server_id@,
        ),
{
    let ghost d = default_view(*default);
    let mut out: Vec<ContainerLabels> = Vec::new();
    let mut i: usize = 0;
    while i < statuses.len()
        invariant
            i <= statuses@.len(),
            d == default_view(*default),
            out@.map_values(|c: ContainerLabels| container_view(c)) == backends_for_instance(
                statuses@.take(i as int),
                servers@,
                d,
                name@,
                server_id@,
            ),
        decreases statuses@.len() - i,
    {
        let status = &statuses[i];
        proof {
            assert(statuses@.take(i + 1).drop_last() =~= statuses@.take(i as int));
        }
        let ghost before = out@.map_values(|c: ContainerLabels| container_view(c));
        match find_server(servers, status.id.as_str()) {
            None => {
                assert(before + Seq::empty() =~= before);
            },
            Some(server) => {
                let server_ip = backend_host(server_id, server);
                match &status.containers {
                    None => {
                        assert(before + Seq::empty() =~= before);
                    },
                    Some(containers) => {
                        let mut j: usize = 0;
                        while j < containers.len()
                            invariant
                                j <= containers@.len(),
                                d == default_view(*default),
                                out@.map_values(|c: ContainerLabels| container_view(c)) == before
                                    + containers_backends(
                                    containers@.take(j as int),
                                    server_ip@,
                                    d,
                                    name@,
                                ),
                            decreases containers@.len() - j,
                        {
                            let c = &containers[j];
                            proof {
                                assert(containers@.take(j + 1).drop_last() =~= containers@.take(
                                    j as int,
                                ));
                                assert(containers@.take(j + 1).last() == *c);
                            }
                            let ghost prev = containers_backends(
                                containers@.take(j as int),
                                server_ip@,
                                d,
                                name@,
                            );
                            let target = if c.ingress_labels.len() > 0 {
                                container_instance(c, default)
                            } else {
                                None
                            };
                            let matches = match &target {
                                Some(instance_name) => str_eq(instance_name.as_str(), name.as_str()),
                                None => false,
                            };
                            if matches {
                                // Resolve backend URL and inject into labels
                                let mut labels_with_backend = c.ingress_labels.clone_strings();
                                let ghost s0 = labels_with_backend.entry_seq();
                                let key = String::from_str("__komodo_server_ip");
                                let ghost k = key;
                                let ghost v = server_ip;
                                labels_with_backend.insert(key, server_ip.clone());
                                proof {
                                    lemma_with_label(s0, k, v);
                                }
                                let ghost mid = out@;
                                out.push(ContainerLabels { labels: labels_with_backend, ports: c.ports.clone() });
                                proof {
                                    assert(out@.map_values(|c: ContainerLabels| container_view(c)) =~= mid.map_values(
                                        |c: ContainerLabels| container_view(c),
                                    ).push(container_view(out@.last())));
                                    assert(before + prev.push(backend_of(*c, server_ip@)) =~= (before
                                        + prev).push(backend_of(*c, server_ip@)));
                                }
                            }
                            j = j + 1;
                        }
                        proof {
                            assert(containers@.take(containers@.len() as int) =~= containers@);
                        }
                    },
                }
            },
        }
        i = i + 1;
    }
    proof {
        assert(statuses@.take(statuses@.len() as int) =~= statuses@);
    }
    out
}

/// The ingress cache for the given instances, servers and server statuses:
/// 1. Finding the default instance
/// 2. Finding, for each enabled instance, the containers it serves
/// 3. Parsing their labels and resolving backend URLs
/// 4. Collecting the instance's routes and building its Traefik JSON
pub fn build_ingress_cache(
    instances: &Vec<IngressInstance>,
    servers: &Vec<Server>,
    statuses: &Vec<ServerStatus>,
) -> (r: StrMap<CachedIngressState>)
    ensures
        cache_view(r) == ingress_cache_spec(instances@, servers@, statuses@),
{
    // Find the default instance (if any)
    let default_instance = default_instance(instances);
    let ghost d = default_view(default_instance);
    assert(d == default_instance_spec(instances@));
    // The names whose routes were handed out already.
    let mut taken: StrMap<bool> = StrMap::new();
    let mut new_cache: StrMap<CachedIngressState> = StrMap::new();
    assert(cache_view(new_cache) =~= Map::<Seq<char>, CachedView>::empty());
    assert(taken.view().dom() =~= Set::<Seq<char>>::empty());
    let mut i: usize = 0;
    while i < instances.len()
        invariant
            i <= instances@.len(),
            d == default_view(default_instance),
            cache_view(new_cache) == cache_fold(instances@.take(i as int), statuses@, servers@, d).1,
            taken.view().dom() == cache_fold(instances@.take(i as int), statuses@, servers@, d).0,
        decreases instances@.len() - i,
    {
        let instance = &instances[i];
        proof {
            assert(instances@.take(i + 1).drop_last() =~= instances@.take(i as int));
            assert(instances@.take(i + 1).last() == *instance);
        }
        if instance.config.enabled {
            let routes = if taken.get(instance.name.as_str()).is_some() {
                Vec::new()
            } else {
                instance_routes_for(statuses, servers, &default_instance, &instance.name, &instance.config.server_id)
            };
            let ghost rv = routes_view(routes@);
            proof {
                if taken.view().contains_key(instance.name@) {
                    assert(rv =~= Seq::<RouteView>::empty());
                }
            }
            taken.insert(instance.name.clone(), true);
            let backends = instance_backends(
                statuses,
                servers,
                &default_instance,
                &instance.name,
                &instance.config.server_id,
            );
            let traefik_config = build(&backends);
            new_cache.insert(instance.name.clone(), CachedIngressState { routes, traefik_config });
            proof {
                assert(cache_view(new_cache) =~= cache_fold(instances@.take(i + 1), statuses@, servers@, d).1);
                assert(taken.view().dom() =~= cache_fold(instances@.take(i + 1), statuses@, servers@, d).0);
            }
        }
        i = i + 1;
    }
    proof {
        assert(instances@.take(instances@.len() as int) =~= instances@);
    }
    new_cache
}

/// The cache holds an entry exactly for the names of enabled instances: disabled instances are
/// skipped.
pub proof fn lemma_cache_names(
    instances: Seq<IngressInstance>,
    statuses: Seq<ServerStatus>,
    servers: Seq<Server>,
    default: Option<Seq<char>>,
    name: Seq<char>,
)
    ensures
        cache_fold(instances, statuses, servers, default).1.contains_key(name) <==> exists|i: int|
            0 <= i < instances.len() && #[trigger] instances[i].config.enabled && instances[i].name@
                == name,
        cache_fold(instances, statuses, servers, default).0.contains(name)
            <== cache_fold(instances, statuses, servers, default).1.contains_key(name),
        cache_fold(instances, statuses, servers, default).0.contains(name)
            ==> cache_fold(instances, statuses, servers, default).1.contains_key(name),
    decreases instances.len(),
{
    if instances.len() > 0 {
        let init = instances.drop_last();
        lemma_cache_names(init, statuses, servers, default, name);
        if exists|i: int| 0 <= i < init.len() && #[trigger] init[i].config.enabled && init[i].name@ == name {
            let i = choose|i: int| 0 <= i < init.len() && #[trigger] init[i].config.enabled && init[i].name@ == name;
            assert(instances[i] == init[i]);
        }
        if exists|i: int| 0 <= i < instances.len() && #[trigger] instances[i].config.enabled && instances[i].name@ == name {
            let i = choose|i: int| 0 <= i < instances.len() && #[trigger] instances[i].config.enabled && instances[i].name@ == name;
            if i < init.len() {
                assert(instances[i] == init[i]);
            }
        }
    }
}

/// An enabled instance whose name no other instance has is cached with the routes of all the
/// containers it serves.
pub proof fn lemma_routes_of_unique_instance(
    instances: Seq<IngressInstance>,
    statuses: Seq<ServerStatus>,
    servers: Seq<Server>,
    default: Option<Seq<char>>,
    i: int,
)
    requires
        0 <= i < instances.len(),
        instances[i].config.enabled,
        forall|j: int| 0 <= j < instances.len() && j != i ==> #[trigger] instances[j].name@ != instances[i].name@,
    ensures
        cache_fold(instances, statuses, servers, default).1[instances[i].name@].routes
            == routes_for_instance(statuses, servers, default, instances[i].name@, instances[i].config.server_id@),
    decreases instances.len(),
{
    let name = instances[i].name@;
    let init = instances.drop_last();
    if i < instances.len() - 1 {
        assert forall|j: int| 0 <= j < init.len() && j != i implies #[trigger] init[j].name@ != init[i].name@ by {
            assert(init[j] == instances[j]);
        }
        lemma_routes_of_unique_instance(init, statuses, servers, default, i);
        assert(instances.last().name@ != name);
        lemma_cache_names(init, statuses, servers, default, name);
    } else {
        lemma_cache_names(init, statuses, servers, default, name);
        if cache_fold(init, statuses, servers, default).1.contains_key(name) {
            let j = choose|j: int| 0 <= j < init.len() && #[trigger] init[j].config.enabled && init[j].name@ == name;
            assert(instances[j] == init[j]);
        }
    }
}

/// A label that was just set is read back.
pub proof fn lemma_with_label_lookup(labels: Seq<(Seq<char>, Seq<char>)>, key: Seq<char>, value: Seq<char>)
    requires
        distinct_label_keys(labels),
    ensures
        label_lookup(with_label(labels, key, value), key) == Some(value),
{
    let w = with_label(labels, key, value);
    if exists|i: int| 0 <= i < labels.len() && #[trigger] labels[i].0 == key {
        let i = choose|i: int| 0 <= i < labels.len() && #[trigger] labels[i].0 == key;
        assert(w[i].0 == key);
        let j = choose|j: int| 0 <= j < w.len() && #[trigger] w[j].0 == key;
        if j != i {
            assert(w[j] == labels[j]);
        }
    } else {
        assert(w[labels.len() as int].0 == key);
        let j = choose|j: int| 0 <= j < w.len() && #[trigger] w[j].0 == key;
        if j < labels.len() {
            assert(w[j] == labels[j]);
        }
    }
}

/// When an instance's Traefik runs on a container's server, the container's backend URLs go to
/// `host.docker.internal`.
pub proof fn lemma_same_server_backend(c: ContainerListItem, server: Server, server_id: Seq<char>)
    requires
        server.id@ == server_id,
        distinct_label_keys(labels_view(c.ingress_labels.entry_seq())),
    ensures
        has_prefix(
            backend_url_spec(backend_of(c, backend_host_spec(server_id, server)).0, c.ports@),
            "http://host.docker.internal:"@,
        ),
{
    let lv = labels_view(c.ingress_labels.entry_seq());
    let h = "host.docker.internal"@;
    lemma_with_label_lookup(lv, "__komodo_server_ip"@, h);
    let w = with_label(lv, "__komodo_server_ip"@, h);
    lemma_backend_url_prefix(w, c.ports@);
    reveal_strlit("http://");
    reveal_strlit("host.docker.internal");
    reveal_strlit(":");
    reveal_strlit("http://host.docker.internal:");
    assert("http://"@ + h + ":"@ =~= "http://host.docker.internal:"@);
}

/// The labels of a table have distinct keys.
pub proof fn lemma_table_label_keys(labels: StrMap<String>)
    requires
        unique_keys(labels.entry_seq()),
    ensures
        distinct_label_keys(labels_view(labels.entry_seq())),
{
    let s = labels.entry_seq();
    let lv = labels_view(s);
    assert forall|i: int, j: int| 0 <= i < lv.len() && 0 <= j < lv.len() && i != j implies #[trigger] lv[i].0
        != #[trigger] lv[j].0 by {
        assert(s[i].0@ != s[j].0@);
    }
}

/// The number of routers a container's labels configure.
pub open spec fn router_count(c: ContainerListItem) -> nat {
    parse_labels_spec(labels_view(c.ingress_labels.entry_seq())).0.dom().len()
}

/// The number of routers of the containers of one server that an instance serves.
pub open spec fn containers_router_total(cs: Seq<ContainerListItem>, default: Option<Seq<char>>, name: Seq<char>) -> nat
    decreases cs.len(),
{
    if cs.len() == 0 {
        0
    } else {
        containers_router_total(cs.drop_last(), default, name) + if serves(cs.last(), default, name) {
            router_count(cs.last())
        } else {
            0
        }
    }
}

/// The number of routers of the containers that an instance serves, over all known servers.
pub open spec fn instance_router_total(
    statuses: Seq<ServerStatus>,
    servers: Seq<Server>,
    default: Option<Seq<char>>,
    name: Seq<char>,
) -> nat
    decreases statuses.len(),
{
    if statuses.len() == 0 {
        0
    } else {
        instance_router_total(statuses.drop_last(), servers, default, name) + match find_server_spec(
            servers,
            statuses.last().id@,
        ) {
            None => 0,
            Some(_) => match statuses.last().containers {
                None => 0,
                Some(cs) => containers_router_total(cs@, default, name),
            },
        }
    }
}

proof fn lemma_containers_route_count(
    cs: Seq<ContainerListItem>,
    server_name: Seq<char>,
    server_ip: Seq<char>,
    default: Option<Seq<char>>,
    name: Seq<char>,
)
    ensures
        containers_routes(cs, server_name, server_ip, default, name).len() == containers_router_total(cs, default, name),
    decreases cs.len(),
{
    if cs.len() > 0 {
        lemma_containers_route_count(cs.drop_last(), server_name, server_ip, default, name);
        lemma_name_counts(labels_view(cs.last().ingress_labels.entry_seq()));
    }
}

/// An instance has one route per router of each container it serves: containers on unknown
/// servers, without ingress labels, or belonging to another instance add none.
pub proof fn lemma_route_count(
    statuses: Seq<ServerStatus>,
    servers: Seq<Server>,
    default: Option<Seq<char>>,
    name: Seq<char>,
    server_id: Seq<char>,
)
    ensures
        routes_for_instance(statuses, servers, default, name, server_id).len() == instance_router_total(
            statuses,
            servers,
            default,
            name,
        ),
    decreases statuses.len(),
{
    if statuses.len() > 0 {
        lemma_route_count(statuses.drop_last(), servers, default, name, server_id);
        match find_server_spec(servers, statuses.last().id@) {
            None => {},
            Some(server) => match statuses.last().containers {
                None => {},
                Some(cs) => {
                    lemma_containers_route_count(
                        cs@,
                        server.name@,
                        backend_host_spec(server_id, server),
                        default,
                        name,
                    );
                },
            },
        }
    }
}

/// The cached routes of an enabled instance whose name no other instance has number the routers
/// of the containers it serves.
pub proof fn lemma_cached_route_count(
    instances: Seq<IngressInstance>,
    servers: Seq<Server>,
    statuses: Seq<ServerStatus>,
    i: int,
)
    requires
        0 <= i < instances.len(),
        instances[i].config.enabled,
        forall|j: int| 0 <= j < instances.len() && j != i ==> #[trigger] instances[j].name@ != instances[i].name@,
    ensures
        ingress_cache_spec(instances, servers, statuses)[instances[i].name@].routes.len() == instance_router_total(
            statuses,
            servers,
            default_instance_spec(instances),
            instances[i].name@,
        ),
{
    let d = default_instance_spec(instances);
    lemma_routes_of_unique_instance(instances, statuses, servers, d, i);
    lemma_route_count(statuses, servers, d, instances[i].name@, instances[i].config.server_id@);
}

proof fn lemma_routes_append(
    a: Seq<ServerStatus>,
    b: Seq<ServerStatus>,
    servers: Seq<Server>,
    default: Option<Seq<char>>,
    name: Seq<char>,
    server_id: Seq<char>,
)
    ensures
        routes_for_instance(a + b, servers, default, name, server_id) == routes_for_instance(
            a,
            servers,
            default,
            name,
            server_id,
        ) + routes_for_instance(b, servers, default, name, server_id),
        backends_for_instance(a + b, servers, default, name, server_id) == backends_for_instance(
            a,
            servers,
            default,
            name,
            server_id,
        ) + backends_for_instance(b, servers, default, name, server_id),
    decreases b.len(),
{
    if b.len() == 0 {
        assert(a + b =~= a);
        assert(routes_for_instance(a, servers, default, name, server_id) + Seq::empty() =~= routes_for_instance(
            a,
            servers,
            default,
            name,
            server_id,
        ));
        assert(backends_for_instance(a, servers, default, name, server_id) + Seq::empty()
            =~= backends_for_instance(a, servers, default, name, server_id));
    } else {
        assert((a + b).drop_last() =~= a + b.drop_last());
        assert((a + b).last() == b.last());
        lemma_routes_append(a, b.drop_last(), servers, default, name, server_id);
        let ra = routes_for_instance(a, servers, default, name, server_id);
        let rb = routes_for_instance(b.drop_last(), servers, default, name, server_id);
        let rl = status_routes(b.last(), servers, default, name, server_id);
        assert(ra + rb + rl =~= ra + (rb + rl));
        let ba = backends_for_instance(a, servers, default, name, server_id);
        let bb = backends_for_instance(b.drop_last(), servers, default, name, server_id);
        let bl = status_backends(b.last(), servers, default, name, server_id);
        assert(ba + bb + bl =~= ba + (bb + bl));
    }
}

proof fn lemma_containers_append(
    a: Seq<ContainerListItem>,
    b: Seq<ContainerListItem>,
    server_name: Seq<char>,
    server_ip: Seq<char>,
    default: Option<Seq<char>>,
    name: Seq<char>,
)
    ensures
        containers_routes(a + b, server_name, server_ip, default, name) == containers_routes(
            a,
            server_name,
            server_ip,
            default,
            name,
        ) + containers_routes(b, server_name, server_ip, default, name),
        containers_backends(a + b, server_ip, default, name) == containers_backends(
            a,
            server_ip,
            default,
            name,
        ) + containers_backends(b, server_ip, default, name),
    decreases b.len(),
{
    if b.len() == 0 {
        assert(a + b =~= a);
        assert(containers_routes(a, server_name, server_ip, default, name) + Seq::empty() =~= containers_routes(
            a,
            server_name,
            server_ip,
            default,
            name,
        ));
        assert(containers_backends(a, server_ip, default, name) + Seq::empty() =~= containers_backends(
            a,
            server_ip,
            default,
            name,
        ));
    } else {
        assert((a + b).drop_last() =~= a + b.drop_last());
        assert((a + b).last() == b.last());
        lemma_containers_append(a, b.drop_last(), server_name, server_ip, default, name);
        let ra = containers_routes(a, server_name, server_ip, default, name);
        let rb = containers_routes(b.drop_last(), server_name, server_ip, default, name);
        let rl = if serves(b.last(), default, name) {
            container_routes_spec(server_name, server_ip, b.last())
        } else {
            Seq::empty()
        };
        assert(ra + rb + rl =~= ra + (rb + rl));
        let ba = containers_backends(a, server_ip, default, name);
        let bb = containers_backends(b.drop_last(), server_ip, default, name);
        if serves(b.last(), default, name) {
            assert(ba + bb.push(backend_of(b.last(), server_ip)) =~= (ba + bb).push(backend_of(b.last(), server_ip)));
        }
    }
}

/// One status among others contributes its own routes and backends at its place.
proof fn lemma_status_split(
    pre: Seq<ServerStatus>,
    s: ServerStatus,
    post: Seq<ServerStatus>,
    servers: Seq<Server>,
    default: Option<Seq<char>>,
    name: Seq<char>,
    server_id: Seq<char>,
)
    ensures
        routes_for_instance(pre + seq![s] + post, servers, default, name, server_id) == routes_for_instance(
            pre,
            servers,
            default,
            name,
            server_id,
        ) + status_routes(s, servers, default, name, server_id) + routes_for_instance(
            post,
            servers,
            default,
            name,
            server_id,
        ),
        backends_for_instance(pre + seq![s] + post, servers, default, name, server_id)
            == backends_for_instance(pre, servers, default, name, server_id) + status_backends(
            s,
            servers,
            default,
            name,
            server_id,
        ) + backends_for_instance(post, servers, default, name, server_id),
{
    lemma_routes_append(pre + seq![s], post, servers, default, name, server_id);
    lemma_routes_append(pre, seq![s], servers, default, name, server_id);
    assert(seq![s].drop_last() =~= Seq::<ServerStatus>::empty());
    assert(seq![s].last() == s);
    let rs = status_routes(s, servers, default, name, server_id);
    assert(routes_for_instance(Seq::empty(), servers, default, name, server_id) == Seq::<RouteView>::empty());
    assert(Seq::<RouteView>::empty() + rs =~= rs);
    assert(routes_for_instance(seq![s], servers, default, name, server_id) == rs);
    let bs = status_backends(s, servers, default, name, server_id);
    assert(backends_for_instance(Seq::empty(), servers, default, name, server_id) == Seq::<
        (Seq<(Seq<char>, Seq<char>)>, Seq<Port>),
    >::empty());
    assert(Seq::<(Seq<(Seq<char>, Seq<char>)>, Seq<Port>)>::empty() + bs =~= bs);
    assert(backends_for_instance(seq![s], servers, default, name, server_id) == bs);
}

/// One container among others contributes its own routes and backends at its place.
proof fn lemma_container_split(
    pre: Seq<ContainerListItem>,
    c: ContainerListItem,
    post: Seq<ContainerListItem>,
    server_name: Seq<char>,
    server_ip: Seq<char>,
    default: Option<Seq<char>>,
    name: Seq<char>,
)
    requires
        !serves(c, default, name),
    ensures
        containers_routes(pre + seq![c] + post, server_name, server_ip, default, name) == containers_routes(
            pre + post,
            server_name,
            server_ip,
            default,
            name,
        ),
        containers_backends(pre + seq![c] + post, server_ip, default, name) == containers_backends(
            pre + post,
            server_ip,
            default,
            name,
        ),
{
    lemma_containers_append(pre + seq![c], post, server_name, server_ip, default, name);
    lemma_containers_append(pre, seq![c], server_name, server_ip, default, name);
    lemma_containers_append(pre, post, server_name, server_ip, default, name);
    assert(seq![c].drop_last() =~= Seq::<ContainerListItem>::empty());
    assert(seq![c].last() == c);
    let r0 = containers_routes(pre, server_name, server_ip, default, name);
    assert(containers_routes(Seq::empty(), server_name, server_ip, default, name) == Seq::<RouteView>::empty());
    assert(containers_backends(Seq::empty(), server_ip, default, name) == Seq::<
        (Seq<(Seq<char>, Seq<char>)>, Seq<Port>),
    >::empty());
    assert(Seq::<RouteView>::empty() + Seq::<RouteView>::empty() =~= Seq::<RouteView>::empty());
    assert(containers_routes(seq![c], server_name, server_ip, default, name) =~= Seq::<RouteView>::empty());
    assert(r0 + Seq::<RouteView>::empty() =~= r0);
    let b0 = containers_backends(pre, server_ip, default, name);
    assert(containers_backends(seq![c], server_ip, default, name) =~= Seq::<
        (Seq<(Seq<char>, Seq<char>)>, Seq<Port>),
    >::empty());
    assert(b0 + Seq::<(Seq<(Seq<char>, Seq<char>)>, Seq<Port>)>::empty() =~= b0);
}

/// The cache depends on the server statuses only through the routes and backends of each
/// instance.
proof fn lemma_cache_fold_same_inputs(
    instances: Seq<IngressInstance>,
    statuses: Seq<ServerStatus>,
    statuses2: Seq<ServerStatus>,
    servers: Seq<Server>,
    default: Option<Seq<char>>,
)
    requires
        forall|name: Seq<char>, server_id: Seq<char>|
            #[trigger] routes_for_instance(statuses, servers, default, name, server_id) == routes_for_instance(
                statuses2,
                servers,
                default,
                name,
                server_id,
            ),
        forall|name: Seq<char>, server_id: Seq<char>|
            #[trigger] backends_for_instance(statuses, servers, default, name, server_id) == backends_for_instance(
                statuses2,
                servers,
                default,
                name,
                server_id,
            ),
    ensures
        cache_fold(instances, statuses, servers, default) == cache_fold(instances, statuses2, servers, default),
    decreases instances.len(),
{
    if instances.len() > 0 {
        lemma_cache_fold_same_inputs(instances.drop_last(), statuses, statuses2, servers, default);
    }
}

/// The status of a server that is not known adds nothing: wherever it stands among the
/// statuses, the cache is the same.
pub proof fn lemma_unknown_server_status(
    instances: Seq<IngressInstance>,
    servers: Seq<Server>,
    statuses: Seq<ServerStatus>,
    status: ServerStatus,
    k: int,
)
    requires
        0 <= k <= statuses.len(),
        find_server_spec(servers, status.id@) is None,
    ensures
        ingress_cache_spec(instances, servers, statuses.take(k) + seq![status] + statuses.skip(k))
            == ingress_cache_spec(instances, servers, statuses),
{
    let d = default_instance_spec(instances);
    let pre = statuses.take(k);
    let post = statuses.skip(k);
    let l2 = pre + seq![status] + post;
    assert(pre + post =~= statuses);
    assert forall|name: Seq<char>, server_id: Seq<char>|
        #[trigger] routes_for_instance(l2, servers, d, name, server_id) == routes_for_instance(
            statuses,
            servers,
            d,
            name,
            server_id,
        ) by {
        lemma_status_split(pre, status, post, servers, d, name, server_id);
        lemma_routes_append(pre, post, servers, d, name, server_id);
        let r0 = routes_for_instance(pre, servers, d, name, server_id);
        let r1 = routes_for_instance(post, servers, d, name, server_id);
        assert(r0 + Seq::<RouteView>::empty() + r1 =~= r0 + r1);
    }
    assert forall|name: Seq<char>, server_id: Seq<char>|
        #[trigger] backends_for_instance(l2, servers, d, name, server_id) == backends_for_instance(
            statuses,
            servers,
            d,
            name,
            server_id,
        ) by {
        lemma_status_split(pre, status, post, servers, d, name, server_id);
        lemma_routes_append(pre, post, servers, d, name, server_id);
        let b0 = backends_for_instance(pre, servers, d, name, server_id);
        let b1 = backends_for_instance(post, servers, d, name, server_id);
        assert(b0 + Seq::<(Seq<(Seq<char>, Seq<char>)>, Seq<Port>)>::empty() + b1 =~= b0 + b1);
    }
    lemma_cache_fold_same_inputs(instances, l2, statuses, servers, d);
}

/// Inserting a container that no instance serves into a server's containers keeps what that
/// server contributes to every instance.
proof fn lemma_status_with_unserved(
    s: ServerStatus,
    s2: ServerStatus,
    c: ContainerListItem,
    k: int,
    servers: Seq<Server>,
    default: Option<Seq<char>>,
    name: Seq<char>,
    server_id: Seq<char>,
)
    requires
        s2.id@ == s.id@,
        s.containers is Some,
        s2.containers is Some,
        0 <= k <= s.containers.unwrap()@.len(),
        s2.containers.unwrap()@ == s.containers.unwrap()@.take(k) + seq![c] + s.containers.unwrap()@.skip(k),
        !serves(c, default, name),
    ensures
        status_routes(s2, servers, default, name, server_id) == status_routes(s, servers, default, name, server_id),
        status_backends(s2, servers, default, name, server_id) == status_backends(
            s,
            servers,
            default,
            name,
            server_id,
        ),
{
    let cs = s.containers.unwrap()@;
    assert(cs.take(k) + cs.skip(k) =~= cs);
    match find_server_spec(servers, s.id@) {
        None => {},
        Some(server) => {
            let ip = backend_host_spec(server_id, server);
            lemma_container_split(cs.take(k), c, cs.skip(k), server.name@, ip, default, name);
        },
    }
}

/// A container without ingress labels adds nothing: wherever it stands among a server's
/// containers, the cache is the same.
pub proof fn lemma_unlabelled_container(
    instances: Seq<IngressInstance>,
    servers: Seq<Server>,
    statuses: Seq<ServerStatus>,
    statuses2: Seq<ServerStatus>,
    m: int,
    c: ContainerListItem,
    k: int,
)
    requires
        0 <= m < statuses.len(),
        statuses2.len() == statuses.len(),
        forall|j: int| 0 <= j < statuses.len() && j != m ==> #[trigger] statuses2[j] == statuses[j],
        statuses2[m].id@ == statuses[m].id@,
        statuses[m].containers is Some,
        statuses2[m].containers is Some,
        0 <= k <= statuses[m].containers.unwrap()@.len(),
        statuses2[m].containers.unwrap()@ == statuses[m].containers.unwrap()@.take(k) + seq![c]
            + statuses[m].containers.unwrap()@.skip(k),
        c.ingress_labels.entry_seq().len() == 0,
    ensures
        ingress_cache_spec(instances, servers, statuses2) == ingress_cache_spec(instances, servers, statuses),
{
    let d = default_instance_spec(instances);
    let pre = statuses.take(m);
    let post = statuses.skip(m + 1);
    assert(pre + seq![statuses[m]] + post =~= statuses);
    assert(statuses2.take(m) =~= pre);
    assert(statuses2.skip(m + 1) =~= post);
    assert(pre + seq![statuses2[m]] + post =~= statuses2);
    assert forall|name: Seq<char>, server_id: Seq<char>|
        #[trigger] routes_for_instance(statuses2, servers, d, name, server_id) == routes_for_instance(
            statuses,
            servers,
            d,
            name,
            server_id,
        ) by {
        lemma_status_with_unserved(statuses[m], statuses2[m], c, k, servers, d, name, server_id);
        lemma_status_split(pre, statuses[m], post, servers, d, name, server_id);
        lemma_status_split(pre, statuses2[m], post, servers, d, name, server_id);
    }
    assert forall|name: Seq<char>, server_id: Seq<char>|
        #[trigger] backends_for_instance(statuses2, servers, d, name, server_id) == backends_for_instance(
            statuses,
            servers,
            d,
            name,
            server_id,
        ) by {
        lemma_status_with_unserved(statuses[m], statuses2[m], c, k, servers, d, name, server_id);
        lemma_status_split(pre, statuses[m], post, servers, d, name, server_id);
        lemma_status_split(pre, statuses2[m], post, servers, d, name, server_id);
    }
    lemma_cache_fold_same_inputs(instances, statuses2, statuses, servers, d);
}


/// `rt` is the route of one router of container `c`: the router is one that the container's
/// labels configure, and the route shows the server's name, the container's name, the router's
/// name, rule, service and entry points, and the container's backend URL.
pub open spec fn router_route(rt: RouteView, server_name: Seq<char>, server_ip: Seq<char>, c: ContainerListItem) -> bool {
    let tables = parse_labels_spec(labels_view(c.ingress_labels.entry_seq()));
    &&& tables.0.contains_key(rt.router_name)
    &&& rt == route_spec(
        server_name,
        c.name@,
        rt.router_name,
        tables.0[rt.router_name],
        backend_url_spec(backend_of(c, server_ip).0, c.ports@),
    )
}

/// `rt` is the route of a router of the container at `ci` of a known server's status, a
/// container that the instance serves.
pub open spec fn route_from(
    rt: RouteView,
    status: ServerStatus,
    servers: Seq<Server>,
    default: Option<Seq<char>>,
    name: Seq<char>,
    server_id: Seq<char>,
    ci: int,
) -> bool {
    match find_server_spec(servers, status.id@) {
        None => false,
        Some(server) => match status.containers {
            None => false,
            Some(cs) => 0 <= ci < cs@.len() && serves(cs@[ci], default, name) && router_route(
                rt,
                server.name@,
                backend_host_spec(server_id, server),
                cs@[ci],
            ),
        },
    }
}

/// `rt` is the route of a router of some container that the instance serves on a known server.
pub open spec fn route_made_for(
    rt: RouteView,
    statuses: Seq<ServerStatus>,
    servers: Seq<Server>,
    default: Option<Seq<char>>,
    name: Seq<char>,
    server_id: Seq<char>,
) -> bool {
    exists|m: int, ci: int|
        0 <= m < statuses.len() && #[trigger] route_from(rt, statuses[m], servers, default, name, server_id, ci)
}

proof fn lemma_container_route_origin(server_name: Seq<char>, server_ip: Seq<char>, c: ContainerListItem, k: int)
    requires
        0 <= k < container_routes_spec(server_name, server_ip, c).len(),
    ensures
        router_route(container_routes_spec(server_name, server_ip, c)[k], server_name, server_ip, c),
{
    let lv = labels_view(c.ingress_labels.entry_seq());
    let names = fold_names(lv).0;
    let n = names[k];
    assert(names.contains(n));
    lemma_fold_names(lv, n);
    lemma_parsed_names(lv, n);
}

proof fn lemma_containers_route_origin(
    cs: Seq<ContainerListItem>,
    server_name: Seq<char>,
    server_ip: Seq<char>,
    default: Option<Seq<char>>,
    name: Seq<char>,
    k: int,
)
    requires
        0 <= k < containers_routes(cs, server_name, server_ip, default, name).len(),
    ensures
        exists|ci: int|
            0 <= ci < cs.len() && serves(cs[ci], default, name) && #[trigger] router_route(
                containers_routes(cs, server_name, server_ip, default, name)[k],
                server_name,
                server_ip,
                cs[ci],
            ),
    decreases cs.len(),
{
    let init = cs.drop_last();
    let a = containers_routes(init, server_name, server_ip, default, name);
    let rt = containers_routes(cs, server_name, server_ip, default, name)[k];
    if k < a.len() {
        lemma_containers_route_origin(init, server_name, server_ip, default, name, k);
        let ci = choose|ci: int|
            0 <= ci < init.len() && serves(init[ci], default, name) && #[trigger] router_route(
                a[k],
                server_name,
                server_ip,
                init[ci],
            );
        assert(init[ci] == cs[ci]);
        assert(rt == a[k]);
        assert(router_route(rt, server_name, server_ip, cs[ci]));
    } else {
        let last = cs.len() - 1;
        assert(cs[last] == cs.last());
        assert(serves(cs.last(), default, name));
        lemma_container_route_origin(server_name, server_ip, cs.last(), k - a.len());
        assert(rt == container_routes_spec(server_name, server_ip, cs.last())[k - a.len()]);
        assert(router_route(rt, server_name, server_ip, cs[last]));
    }
}

proof fn lemma_instance_route_origin(
    statuses: Seq<ServerStatus>,
    servers: Seq<Server>,
    default: Option<Seq<char>>,
    name: Seq<char>,
    server_id: Seq<char>,
    k: int,
)
    requires
        0 <= k < routes_for_instance(statuses, servers, default, name, server_id).len(),
    ensures
        route_made_for(
            routes_for_instance(statuses, servers, default, name, server_id)[k],
            statuses,
            servers,
            default,
            name,
            server_id,
        ),
    decreases statuses.len(),
{
    let init = statuses.drop_last();
    let a = routes_for_instance(init, servers, default, name, server_id);
    let rt = routes_for_instance(statuses, servers, default, name, server_id)[k];
    if k < a.len() {
        lemma_instance_route_origin(init, servers, default, name, server_id, k);
        assert(rt == a[k]);
        let (m, ci) = choose|m: int, ci: int|
            0 <= m < init.len() && #[trigger] route_from(a[k], init[m], servers, default, name, server_id, ci);
        assert(init[m] == statuses[m]);
        assert(route_from(rt, statuses[m], servers, default, name, server_id, ci));
    } else {
        let last = statuses.len() - 1;
        let st = statuses.last();
        assert(statuses[last] == st);
        match find_server_spec(servers, st.id@) {
            None => {},
            Some(server) => match st.containers {
                None => {},
                Some(cs) => {
                    let ip = backend_host_spec(server_id, server);
                    lemma_containers_route_origin(cs@, server.name@, ip, default, name, k - a.len());
                    assert(rt == containers_routes(cs@, server.name@, ip, default, name)[k - a.len()]);
                    let ci = choose|ci: int|
                        0 <= ci < cs@.len() && serves(cs@[ci], default, name) && #[trigger] router_route(
                            containers_routes(cs@, server.name@, ip, default, name)[k - a.len()],
                            server.name@,
                            ip,
                            cs@[ci],
                        );
                    assert(route_from(rt, statuses[last], servers, default, name, server_id, ci));
                },
            },
        }
    }
}

/// The instance at `j` has the name `name`, is enabled, and the cached routes are either none or
/// the routes of that instance.
pub open spec fn cached_for(
    instances: Seq<IngressInstance>,
    j: int,
    routes: Seq<RouteView>,
    statuses: Seq<ServerStatus>,
    servers: Seq<Server>,
    default: Option<Seq<char>>,
    name: Seq<char>,
) -> bool {
    &&& 0 <= j < instances.len()
    &&& instances[j].name@ == name
    &&& instances[j].config.enabled
    &&& (routes.len() == 0 || routes == routes_for_instance(
        statuses,
        servers,
        default,
        name,
        instances[j].config.server_id@,
    ))
}

proof fn lemma_cache_fold_routes(
    instances: Seq<IngressInstance>,
    statuses: Seq<ServerStatus>,
    servers: Seq<Server>,
    default: Option<Seq<char>>,
    name: Seq<char>,
)
    requires
        cache_fold(instances, statuses, servers, default).1.contains_key(name),
    ensures
        exists|j: int|
            #[trigger] cached_for(
                instances,
                j,
                cache_fold(instances, statuses, servers, default).1[name].routes,
                statuses,
                servers,
                default,
                name,
            ),
    decreases instances.len(),
{
    let init = instances.drop_last();
    let prev = cache_fold(init, statuses, servers, default);
    let inst = instances.last();
    let last = instances.len() - 1;
    assert(instances[last] == inst);
    if inst.config.enabled && inst.name@ == name {
        assert(cached_for(
            instances,
            last,
            cache_fold(instances, statuses, servers, default).1[name].routes,
            statuses,
            servers,
            default,
            name,
        ));
    } else {
        lemma_cache_fold_routes(init, statuses, servers, default, name);
        let j = choose|j: int| #[trigger] cached_for(init, j, prev.1[name].routes, statuses, servers, default, name);
        assert(init[j] == instances[j]);
        assert(cached_for(
            instances,
            j,
            cache_fold(instances, statuses, servers, default).1[name].routes,
            statuses,
            servers,
            default,
            name,
        ));
    }
}

/// Each cached route of an instance is the route of one router of one container that the
/// instance (an enabled instance of that name, on its Traefik server) serves on a known server:
/// it shows that server's name, the container's name, the router's name, the router's rule
/// (empty when unset), its service (the router's name when unset) and its entry points (the
/// strings of the `entrypoints` list, none when it is not a list), and the container's backend
/// URL.
pub proof fn lemma_cached_route_origin(
    instances: Seq<IngressInstance>,
    servers: Seq<Server>,
    statuses: Seq<ServerStatus>,
    name: Seq<char>,
    k: int,
)
    requires
        ingress_cache_spec(instances, servers, statuses).contains_key(name),
        0 <= k < ingress_cache_spec(instances, servers, statuses)[name].routes.len(),
    ensures
        exists|j: int|
            0 <= j < instances.len() && instances[j].name@ == name && instances[j].config.enabled
                && #[trigger] route_made_for(
                ingress_cache_spec(instances, servers, statuses)[name].routes[k],
                statuses,
                servers,
                default_instance_spec(instances),
                name,
                instances[j].config.server_id@,
            ),
{
    let d = default_instance_spec(instances);
    let routes = ingress_cache_spec(instances, servers, statuses)[name].routes;
    lemma_cache_fold_routes(instances, statuses, servers, d, name);
    let j = choose|j: int| #[trigger] cached_for(instances, j, routes, statuses, servers, d, name);
    lemma_instance_route_origin(statuses, servers, d, name, instances[j].config.server_id@, k);
}

/// Setting the `__komodo_server_ip` label changes no router or service.
proof fn lemma_backend_of_parse(c: ContainerListItem, server_ip: Seq<char>)
    ensures
        parse_labels_spec(backend_of(c, server_ip).0) == parse_labels_spec(labels_view(c.ingress_labels.entry_seq())),
{
    let key = "__komodo_server_ip"@;
    reveal_strlit("__komodo_server_ip");
    reveal_strlit("traefik.");
    assert(!has_prefix(key, "traefik."@)) by {
        assert(key.take(8)[0] != "traefik."@[0]);
    }
    assert(label_target(key) is Ignored);
    let l = labels_view(c.ingress_labels.entry_seq());
    if exists|i: int| 0 <= i < l.len() && #[trigger] l[i].0 == key {
        assert forall|i: int| 0 <= i < l.len() && l[i].0 == key implies #[trigger] parse_labels_spec(
            l.update(i, (key, server_ip)),
        ) == parse_labels_spec(l) by {
            let pre = l.take(i);
            let post = l.skip(i + 1);
            assert(l =~= pre + seq![(key, l[i].1)] + post);
            assert(l.update(i, (key, server_ip)) =~= pre + seq![(key, server_ip)] + post);
            lemma_ignored_label(pre, key, l[i].1, post);
            lemma_ignored_label(pre, key, server_ip, post);
        }
    } else {
        assert(l.push((key, server_ip)) =~= l + seq![(key, server_ip)] + Seq::empty());
        assert(l + Seq::<(Seq<char>, Seq<char>)>::empty() =~= l);
        lemma_ignored_label(l, key, server_ip, Seq::empty());
    }
}

/// The container at `ci` of the status at `m` is on a known server and served by the instance.
pub open spec fn served_at(
    statuses: Seq<ServerStatus>,
    servers: Seq<Server>,
    default: Option<Seq<char>>,
    name: Seq<char>,
    m: int,
    ci: int,
) -> bool {
    &&& 0 <= m < statuses.len()
    &&& find_server_spec(servers, statuses[m].id@) is Some
    &&& statuses[m].containers is Some
    &&& 0 <= ci < statuses[m].containers.unwrap()@.len()
    &&& serves(statuses[m].containers.unwrap()@[ci], default, name)
}

/// The container at `ci` of the status at `m`.
pub open spec fn container_at(statuses: Seq<ServerStatus>, m: int, ci: int) -> ContainerListItem {
    statuses[m].containers.unwrap()@[ci]
}

/// The backend of the container at `ci` of the status at `m`, for an instance on `server_id`.
pub open spec fn backend_at(
    statuses: Seq<ServerStatus>,
    servers: Seq<Server>,
    server_id: Seq<char>,
    m: int,
    ci: int,
) -> (Seq<(Seq<char>, Seq<char>)>, Seq<Port>) {
    backend_of(
        container_at(statuses, m, ci),
        backend_host_spec(server_id, find_server_spec(servers, statuses[m].id@).unwrap()),
    )
}

proof fn lemma_containers_backends_member(
    cs: Seq<ContainerListItem>,
    server_ip: Seq<char>,
    default: Option<Seq<char>>,
    name: Seq<char>,
    ci: int,
)
    requires
        0 <= ci < cs.len(),
        serves(cs[ci], default, name),
    ensures
        containers_backends(cs, server_ip, default, name).contains(backend_of(cs[ci], server_ip)),
    decreases cs.len(),
{
    let init = cs.drop_last();
    let prev = containers_backends(init, server_ip, default, name);
    if ci < init.len() {
        assert(init[ci] == cs[ci]);
        lemma_containers_backends_member(init, server_ip, default, name, ci);
        let p = choose|p: int| 0 <= p < prev.len() && prev[p] == backend_of(cs[ci], server_ip);
        assert(containers_backends(cs, server_ip, default, name)[p] == prev[p]);
    } else {
        assert(cs.last() == cs[ci]);
        assert(containers_backends(cs, server_ip, default, name)[prev.len() as int] == backend_of(cs[ci], server_ip));
    }
}

/// Every container an instance serves on a known server gives the instance a backend.
proof fn lemma_backends_member(
    statuses: Seq<ServerStatus>,
    servers: Seq<Server>,
    default: Option<Seq<char>>,
    name: Seq<char>,
    server_id: Seq<char>,
    m: int,
    ci: int,
)
    requires
        served_at(statuses, servers, default, name, m, ci),
    ensures
        backends_for_instance(statuses, servers, default, name, server_id).contains(
            backend_at(statuses, servers, server_id, m, ci),
        ),
    decreases statuses.len(),
{
    let init = statuses.drop_last();
    let prev = backends_for_instance(init, servers, default, name, server_id);
    let all = backends_for_instance(statuses, servers, default, name, server_id);
    let b = backend_at(statuses, servers, server_id, m, ci);
    if m < init.len() {
        assert(init[m] == statuses[m]);
        assert(backend_at(init, servers, server_id, m, ci) == b);
        lemma_backends_member(init, servers, default, name, server_id, m, ci);
        let p = choose|p: int| 0 <= p < prev.len() && prev[p] == b;
        assert(all[p] == prev[p]);
    } else {
        assert(statuses.last() == statuses[m]);
        let server = find_server_spec(servers, statuses[m].id@).unwrap();
        let cs = statuses[m].containers.unwrap()@;
        let ip = backend_host_spec(server_id, server);
        lemma_containers_backends_member(cs, ip, default, name, ci);
        let q = containers_backends(cs, ip, default, name);
        let p = choose|p: int| 0 <= p < q.len() && q[p] == b;
        assert(all[prev.len() + p] == q[p]);
    }
}

proof fn lemma_containers_backends_origin(
    cs: Seq<ContainerListItem>,
    server_ip: Seq<char>,
    default: Option<Seq<char>>,
    name: Seq<char>,
    p: int,
)
    requires
        0 <= p < containers_backends(cs, server_ip, default, name).len(),
    ensures
        exists|ci: int|
            0 <= ci < cs.len() && serves(cs[ci], default, name) && containers_backends(cs, server_ip, default, name)[p]
                == backend_of(#[trigger] cs[ci], server_ip),
    decreases cs.len(),
{
    let init = cs.drop_last();
    let prev = containers_backends(init, server_ip, default, name);
    if p < prev.len() {
        lemma_containers_backends_origin(init, server_ip, default, name, p);
        let ci = choose|ci: int|
            0 <= ci < init.len() && serves(init[ci], default, name) && prev[p] == backend_of(#[trigger] init[ci], server_ip);
        assert(init[ci] == cs[ci]);
    } else {
        let last = cs.len() - 1;
        assert(cs[last] == cs.last());
    }
}

/// Every backend of an instance is that of a container it serves on a known server.
proof fn lemma_backends_origin(
    statuses: Seq<ServerStatus>,
    servers: Seq<Server>,
    default: Option<Seq<char>>,
    name: Seq<char>,
    server_id: Seq<char>,
    p: int,
)
    requires
        0 <= p < backends_for_instance(statuses, servers, default, name, server_id).len(),
    ensures
        exists|m: int, ci: int|
            #[trigger] served_at(statuses, servers, default, name, m, ci) && backends_for_instance(
                statuses,
                servers,
                default,
                name,
                server_id,
            )[p] == backend_at(statuses, servers, server_id, m, ci),
    decreases statuses.len(),
{
    let init = statuses.drop_last();
    let prev = backends_for_instance(init, servers, default, name, server_id);
    let all = backends_for_instance(statuses, servers, default, name, server_id);
    if p < prev.len() {
        lemma_backends_origin(init, servers, default, name, server_id, p);
        let (m, ci) = choose|m: int, ci: int|
            #[trigger] served_at(init, servers, default, name, m, ci) && prev[p] == backend_at(init, servers, server_id, m, ci);
        assert(init[m] == statuses[m]);
        assert(all[p] == prev[p]);
        assert(served_at(statuses, servers, default, name, m, ci));
        assert(backend_at(init, servers, server_id, m, ci) == backend_at(statuses, servers, server_id, m, ci));
    } else {
        let m = statuses.len() - 1;
        assert(statuses.last() == statuses[m]);
        let server = find_server_spec(servers, statuses[m].id@).unwrap();
        let cs = statuses[m].containers.unwrap()@;
        let ip = backend_host_spec(server_id, server);
        let q = containers_backends(cs, ip, default, name);
        assert(all[p] == q[p - prev.len()]);
        lemma_containers_backends_origin(cs, ip, default, name, p - prev.len());
        let ci = choose|ci: int| 0 <= ci < cs.len() && serves(cs[ci], default, name) && q[p - prev.len()] == backend_of(#[trigger] cs[ci], ip);
        assert(served_at(statuses, servers, default, name, m, ci));
    }
}

/// An enabled instance whose name no other instance has is cached with the Traefik
/// configuration of all the containers it serves.
proof fn lemma_config_of_unique_instance(
    instances: Seq<IngressInstance>,
    statuses: Seq<ServerStatus>,
    servers: Seq<Server>,
    default: Option<Seq<char>>,
    i: int,
)
    requires
        0 <= i < instances.len(),
        instances[i].config.enabled,
        forall|j: int| 0 <= j < instances.len() && j != i ==> #[trigger] instances[j].name@ != instances[i].name@,
    ensures
        cache_fold(instances, statuses, servers, default).1[instances[i].name@].traefik_config == traefik_config_spec(
            backends_for_instance(statuses, servers, default, instances[i].name@, instances[i].config.server_id@),
        ),
    decreases instances.len(),
{
    let name = instances[i].name@;
    let init = instances.drop_last();
    if i < instances.len() - 1 {
        assert forall|j: int| 0 <= j < init.len() && j != i implies #[trigger] init[j].name@ != init[i].name@ by {
            assert(init[j] == instances[j]);
        }
        lemma_config_of_unique_instance(init, statuses, servers, default, i);
        assert(instances.last().name@ != name);
    }
}

/// The servers of a service in an instance's Traefik configuration are the service's URLs over
/// the instance's backends, among them that of the given container.
proof fn lemma_instance_config_urls(
    instances: Seq<IngressInstance>,
    servers: Seq<Server>,
    statuses: Seq<ServerStatus>,
    i: int,
    m: int,
    ci: int,
    service: Seq<char>,
)
    requires
        0 <= i < instances.len(),
        instances[i].config.enabled,
        forall|j: int| 0 <= j < instances.len() && j != i ==> #[trigger] instances[j].name@ != instances[i].name@,
        served_at(statuses, servers, default_instance_spec(instances), instances[i].name@, m, ci),
        parse_labels_spec(labels_view(container_at(statuses, m, ci).ingress_labels.entry_seq())).1.contains_key(
            service,
        ),
        forall|m2: int, ci2: int|
            #[trigger] served_at(statuses, servers, default_instance_spec(instances), instances[i].name@, m2, ci2)
                && parse_labels_spec(labels_view(container_at(statuses, m2, ci2).ingress_labels.entry_seq())).1.contains_key(
                service,
            ) ==> ({
                let config = parse_labels_spec(labels_view(container_at(statuses, m2, ci2).ingress_labels.entry_seq())).1[service];
                load_balancer_mergeable(config) && !sets_servers(config)
            }),
    ensures
        json_at(
            ingress_cache_spec(instances, servers, statuses)[instances[i].name@].traefik_config,
            seq!["http"@, "services"@, service, "loadBalancer"@, "servers"@],
        ) == Some(
            Json::Arr(
                service_urls(
                    backends_for_instance(
                        statuses,
                        servers,
                        default_instance_spec(instances),
                        instances[i].name@,
                        instances[i].config.server_id@,
                    ),
                    service,
                ),
            ),
        ),
        service_urls(
            backends_for_instance(
                statuses,
                servers,
                default_instance_spec(instances),
                instances[i].name@,
                instances[i].config.server_id@,
            ),
            service,
        ).contains(
            server_entry(
                backend_url_spec(
                    backend_of(
                        container_at(statuses, m, ci),
                        backend_host_spec(
                            instances[i].config.server_id@,
                            find_server_spec(servers, statuses[m].id@).unwrap(),
                        ),
                    ).0,
                    container_at(statuses, m, ci).ports@,
                ),
            ),
        ),
{
    let d = default_instance_spec(instances);
    let name = instances[i].name@;
    let sid = instances[i].config.server_id@;
    let b = backends_for_instance(statuses, servers, d, name, sid);
    lemma_config_of_unique_instance(instances, statuses, servers, d, i);
    lemma_backends_member(statuses, servers, d, name, sid, m, ci);
    let p = choose|p: int| 0 <= p < b.len() && b[p] == backend_at(statuses, servers, sid, m, ci);
    let server = find_server_spec(servers, statuses[m].id@).unwrap();
    lemma_backend_of_parse(container_at(statuses, m, ci), backend_host_spec(sid, server));
    lemma_service_urls_member(b, service, p);
    assert forall|q: int| 0 <= q < b.len() && #[trigger] parse_labels_spec(b[q].0).1.contains_key(service) implies ({
        let config = parse_labels_spec(b[q].0).1[service];
        load_balancer_mergeable(config) && !sets_servers(config)
    }) by {
        lemma_backends_origin(statuses, servers, d, name, sid, q);
        let (m2, ci2) = choose|m2: int, ci2: int|
            #[trigger] served_at(statuses, servers, d, name, m2, ci2) && b[q] == backend_at(statuses, servers, sid, m2, ci2);
        let server2 = find_server_spec(servers, statuses[m2].id@).unwrap();
        lemma_backend_of_parse(container_at(statuses, m2, ci2), backend_host_spec(sid, server2));
    }
    assert forall|q: int| 0 <= q < b.len() && #[trigger] first_configures(b, service, q) implies !sets_servers(
        parse_labels_spec(b[q].0).1[service],
    ) by {
        assert(parse_labels_spec(b[q].0).1.contains_key(service));
    }
    lemma_config_service_servers(b, service);
}

/// An instance's Traefik configuration has, for every container it serves on a known server
/// and every service that container's labels configure, that service with the container's
/// backend URL among its load balancer's servers, whether or not the container configures
/// routers. (For an enabled instance whose name no other instance has, when no container it
/// serves sets that service's load balancer to a value that is not an object or sets its
/// `servers`.)
pub proof fn lemma_instance_config_servers(
    instances: Seq<IngressInstance>,
    servers: Seq<Server>,
    statuses: Seq<ServerStatus>,
    i: int,
    m: int,
    ci: int,
    service: Seq<char>,
)
    requires
        0 <= i < instances.len(),
        instances[i].config.enabled,
        forall|j: int| 0 <= j < instances.len() && j != i ==> #[trigger] instances[j].name@ != instances[i].name@,
        served_at(statuses, servers, default_instance_spec(instances), instances[i].name@, m, ci),
        parse_labels_spec(labels_view(container_at(statuses, m, ci).ingress_labels.entry_seq())).1.contains_key(
            service,
        ),
        forall|m2: int, ci2: int|
            #[trigger] served_at(statuses, servers, default_instance_spec(instances), instances[i].name@, m2, ci2)
                && parse_labels_spec(labels_view(container_at(statuses, m2, ci2).ingress_labels.entry_seq())).1.contains_key(
                service,
            ) ==> ({
                let config = parse_labels_spec(labels_view(container_at(statuses, m2, ci2).ingress_labels.entry_seq())).1[service];
                load_balancer_mergeable(config) && !sets_servers(config)
            }),
    ensures
        json_at(
            ingress_cache_spec(instances, servers, statuses)[instances[i].name@].traefik_config,
            seq!["http"@, "services"@, service, "loadBalancer"@, "servers"@],
        ) matches Some(Json::Arr(urls)) && urls.contains(
            server_entry(
                backend_url_spec(
                    backend_of(
                        container_at(statuses, m, ci),
                        backend_host_spec(
                            instances[i].config.server_id@,
                            find_server_spec(servers, statuses[m].id@).unwrap(),
                        ),
                    ).0,
                    container_at(statuses, m, ci).ports@,
                ),
            ),
        ),
{
    lemma_instance_config_urls(instances, servers, statuses, i, m, ci, service);
}

/// The container serves the instance and its labels configure service `service`.
pub open spec fn serves_service(c: ContainerListItem, default: Option<Seq<char>>, name: Seq<char>, service: Seq<char>) -> bool {
    serves(c, default, name) && parse_labels_spec(labels_view(c.ingress_labels.entry_seq())).1.contains_key(service)
}

/// The number of containers of one server that serve the instance and configure the service.
pub open spec fn containers_service_total(
    cs: Seq<ContainerListItem>,
    default: Option<Seq<char>>,
    name: Seq<char>,
    service: Seq<char>,
) -> nat
    decreases cs.len(),
{
    if cs.len() == 0 {
        0
    } else {
        containers_service_total(cs.drop_last(), default, name, service) + if serves_service(
            cs.last(),
            default,
            name,
            service,
        ) {
            1nat
        } else {
            0nat
        }
    }
}

/// The number of containers on known servers that serve the instance and configure the service.
pub open spec fn instance_service_total(
    statuses: Seq<ServerStatus>,
    servers: Seq<Server>,
    default: Option<Seq<char>>,
    name: Seq<char>,
    service: Seq<char>,
) -> nat
    decreases statuses.len(),
{
    if statuses.len() == 0 {
        0
    } else {
        instance_service_total(statuses.drop_last(), servers, default, name, service) + match find_server_spec(
            servers,
            statuses.last().id@,
        ) {
            None => 0,
            Some(_) => match statuses.last().containers {
                None => 0,
                Some(cs) => containers_service_total(cs@, default, name, service),
            },
        }
    }
}

proof fn lemma_containers_service_count(
    cs: Seq<ContainerListItem>,
    server_ip: Seq<char>,
    default: Option<Seq<char>>,
    name: Seq<char>,
    service: Seq<char>,
)
    ensures
        service_urls(containers_backends(cs, server_ip, default, name), service).len() == containers_service_total(
            cs,
            default,
            name,
            service,
        ),
    decreases cs.len(),
{
    if cs.len() > 0 {
        lemma_containers_service_count(cs.drop_last(), server_ip, default, name, service);
        let prev = containers_backends(cs.drop_last(), server_ip, default, name);
        if serves(cs.last(), default, name) {
            let bk = backend_of(cs.last(), server_ip);
            lemma_backend_of_parse(cs.last(), server_ip);
            assert(prev.push(bk).drop_last() =~= prev);
            assert(prev.push(bk).last() == bk);
        }
    }
}

proof fn lemma_instance_service_count(
    statuses: Seq<ServerStatus>,
    servers: Seq<Server>,
    default: Option<Seq<char>>,
    name: Seq<char>,
    server_id: Seq<char>,
    service: Seq<char>,
)
    ensures
        service_urls(backends_for_instance(statuses, servers, default, name, server_id), service).len()
            == instance_service_total(statuses, servers, default, name, service),
    decreases statuses.len(),
{
    if statuses.len() > 0 {
        let init = statuses.drop_last();
        lemma_instance_service_count(init, servers, default, name, server_id, service);
        let a = backends_for_instance(init, servers, default, name, server_id);
        let b = status_backends(statuses.last(), servers, default, name, server_id);
        lemma_service_urls_append(a, b, service);
        match find_server_spec(servers, statuses.last().id@) {
            None => {},
            Some(server) => match statuses.last().containers {
                None => {},
                Some(cs) => {
                    lemma_containers_service_count(cs@, backend_host_spec(server_id, server), default, name, service);
                },
            },
        }
    }
}

/// The servers of a service in an instance's Traefik configuration number the containers that
/// the instance serves on known servers and that configure the service: one server per
/// container. (For an enabled instance whose name no other instance has, when no container it
/// serves sets that service's load balancer to a value that is not an object or sets its
/// `servers`, and at least one configures the service.)
pub proof fn lemma_instance_config_server_count(
    instances: Seq<IngressInstance>,
    servers: Seq<Server>,
    statuses: Seq<ServerStatus>,
    i: int,
    m: int,
    ci: int,
    service: Seq<char>,
)
    requires
        0 <= i < instances.len(),
        instances[i].config.enabled,
        forall|j: int| 0 <= j < instances.len() && j != i ==> #[trigger] instances[j].name@ != instances[i].name@,
        served_at(statuses, servers, default_instance_spec(instances), instances[i].name@, m, ci),
        parse_labels_spec(labels_view(container_at(statuses, m, ci).ingress_labels.entry_seq())).1.contains_key(
            service,
        ),
        forall|m2: int, ci2: int|
            #[trigger] served_at(statuses, servers, default_instance_spec(instances), instances[i].name@, m2, ci2)
                && parse_labels_spec(labels_view(container_at(statuses, m2, ci2).ingress_labels.entry_seq())).1.contains_key(
                service,
            ) ==> ({
                let config = parse_labels_spec(labels_view(container_at(statuses, m2, ci2).ingress_labels.entry_seq())).1[service];
                load_balancer_mergeable(config) && !sets_servers(config)
            }),
    ensures
        json_at(
            ingress_cache_spec(instances, servers, statuses)[instances[i].name@].traefik_config,
            seq!["http"@, "services"@, service, "loadBalancer"@, "servers"@],
        ) matches Some(Json::Arr(urls)) && urls.len() == instance_service_total(
            statuses,
            servers,
            default_instance_spec(instances),
            instances[i].name@,
            service,
        ),
{
    let d = default_instance_spec(instances);
    let name = instances[i].name@;
    let sid = instances[i].config.server_id@;
    lemma_instance_config_urls(instances, servers, statuses, i, m, ci, service);
    lemma_instance_service_count(statuses, servers, d, name, sid, service);
}
} // verus!
