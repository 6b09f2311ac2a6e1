//! The ingress instance resource: its configuration, partial updates of it, list items,
//! queries, and the routes and Traefik configuration cached for each instance.
use vstd::prelude::*;
use crate::json::{Json, JsonValue};

verus! {

/// Configuration of an ingress instance.
pub struct IngressInstanceConfig {
    /// Whether the ingress instance is enabled
    pub enabled: bool,
    /// Whether this is the default instance for containers without explicit instance label.
    /// Only one instance can be default.
    pub is_default: bool,
    /// The server this ingress instance's Traefik runs on (server id).
    /// When a target container is on this same server, backend URLs use
    /// host.docker.internal instead of the server's address.
    pub server_id: String,
}

impl Default for IngressInstanceConfig {
    fn default() -> (r: Self)
        ensures
            !r.enabled,
            !r.is_default,
            r.server_id@ == Seq::<char>::empty(),
    {
        IngressInstanceConfig { enabled: false, is_default: false, server_id: String::new() }
    }
}

/// A partial configuration: each field that is set replaces the configuration's.
pub struct PartialIngressInstanceConfig {
    pub enabled: Option<bool>,
    pub is_default: Option<bool>,
    pub server_id: Option<String>,
}

impl Default for PartialIngressInstanceConfig {
    fn default() -> (r: Self)
        ensures
            r.enabled is None,
            r.is_default is None,
            r.server_id is None,
    {
        PartialIngressInstanceConfig { enabled: None, is_default: None, server_id: None }
    }
}

/// The partial configuration that sets every field to the configuration's value.
pub open spec fn partial_of(config: IngressInstanceConfig) -> PartialIngressInstanceConfig {
    PartialIngressInstanceConfig {
        enabled: Some(config.enabled),
        is_default: Some(config.is_default),
        server_id: Some(config.server_id),
    }
}

impl From<IngressInstanceConfig> for PartialIngressInstanceConfig {
    fn from(config: IngressInstanceConfig) -> (r: Self) {
        PartialIngressInstanceConfig {
            enabled: Some(config.enabled),
            is_default: Some(config.is_default),
            server_id: Some(config.server_id),
        }
    }
}

impl vstd::std_specs::convert::FromSpecImpl<IngressInstanceConfig> for PartialIngressInstanceConfig {
    open spec fn obeys_from_spec() -> bool {
        true
    }

    open spec fn from_spec(v: IngressInstanceConfig) -> Self {
        partial_of(v)
    }
}

/// The configuration after applying a partial configuration: the fields it sets are replaced,
/// the others kept.
pub open spec fn merged_config(config: IngressInstanceConfig, partial: PartialIngressInstanceConfig) -> IngressInstanceConfig {
    IngressInstanceConfig {
        enabled: match partial.enabled {
            Some(v) => v,
            None => config.enabled,
        },
        is_default: match partial.is_default {
            Some(v) => v,
            None => config.is_default,
        },
        server_id: match partial.server_id {
            Some(v) => v,
            None => config.server_id,
        },
    }
}

impl IngressInstanceConfig {
    pub fn builder() -> (b: IngressInstanceConfigBuilder)
        ensures
            b.enabled is None,
            b.is_default is None,
            b.server_id is None,
    {
        IngressInstanceConfigBuilder { enabled: None, is_default: None, server_id: None }
    }

    /// Applies a partial configuration: only the fields it sets change.
    pub fn merge_partial(self, partial: PartialIngressInstanceConfig) -> (r: IngressInstanceConfig)
        ensures
            r == merged_config(self, partial),
    {
        IngressInstanceConfig {
            enabled: match partial.enabled {
                Some(v) => v,
                None => self.enabled,
            },
            is_default: match partial.is_default {
                Some(v) => v,
                None => self.is_default,
            },
            server_id: match partial.server_id {
                Some(v) => v,
                None => self.server_id,
            },
        }
    }
}

/// Builder of an `IngressInstanceConfig`; each field left unset takes its default.
pub struct IngressInstanceConfigBuilder {
    pub enabled: Option<bool>,
    pub is_default: Option<bool>,
    pub server_id: Option<String>,
}

/// Error of building a configuration.
pub enum IngressInstanceConfigBuilderError {
    /// A field without default was not set.
    UninitializedField(String),
    /// The configuration did not validate.
    ValidationError(String),
}

impl IngressInstanceConfigBuilder {
    /// Sets whether the instance is enabled.
    pub fn enabled(&mut self, value: bool) -> (r: &mut Self)
        ensures
            *r == (IngressInstanceConfigBuilder { enabled: Some(value), ..*old(self) }),
            *final(self) == *final(r),
    {
        self.enabled = Some(value);
        self
    }

    /// Sets whether the instance is the default one.
    pub fn is_default(&mut self, value: bool) -> (r: &mut Self)
        ensures
            *r == (IngressInstanceConfigBuilder { is_default: Some(value), ..*old(self) }),
            *final(self) == *final(r),
    {
        self.is_default = Some(value);
        self
    }

    /// Sets the server that the instance's Traefik runs on.
    pub fn server_id(&mut self, value: String) -> (r: &mut Self)
        ensures
            *r == (IngressInstanceConfigBuilder { server_id: Some(value), ..*old(self) }),
            *final(self) == *final(r),
    {
        self.server_id = Some(value);
        self
    }

    /// The configuration: the fields that were set, defaults for the others.
    pub fn build(&self) -> (r: Result<IngressInstanceConfig, IngressInstanceConfigBuilderError>)
        ensures
            r matches Ok(c) && c.enabled == (match self.enabled {
                Some(v) => v,
                None => false,
            }) && c.is_default == (match self.is_default {
                Some(v) => v,
                None => false,
            }) && c.server_id@ == (match self.server_id {
                Some(v) => v@,
                None => Seq::<char>::empty(),
            }),
    {
        let server_id = match &self.server_id {
            Some(v) => v.clone(),
            None => String::new(),
        };
        Ok(
            IngressInstanceConfig {
                enabled: match self.enabled {
                    Some(v) => v,
                    None => false,
                },
                is_default: match self.is_default {
                    Some(v) => v,
                    None => false,
                },
                server_id,
            },
        )
    }
}

/// Summary of an ingress instance in a list.
pub struct IngressInstanceListItemInfo {
    /// Whether ingress instance is enabled
    pub enabled: bool,
    /// Whether this is the default instance for containers without explicit instance label
    pub is_default: bool,
    /// Number of routes managed by this instance
    pub route_count: u32,
}

/// An ingress instance resource.
pub struct IngressInstance {
    pub id: String,
    pub name: String,
    pub config: IngressInstanceConfig,
}

/// A route through an ingress instance, for display.
pub struct IngressRoute {
    /// The server name where the container is running
    pub server_name: String,
    /// The container name
    pub container_name: String,
    /// The Traefik router name (from labels)
    pub router_name: String,
    /// The routing rule (e.g., "Host(`example.com`)")
    pub rule: String,
    /// The service name (from labels)
    pub service_name: String,
    /// The backend URL (resolved IP:port)
    pub backend_url: String,
    /// The entrypoints (e.g., ["web", "websecure"])
    pub entrypoints: Vec<String>,
}

/// A route, as character sequences.
pub struct RouteView {
    pub server_name: Seq<char>,
    pub container_name: Seq<char>,
    pub router_name: Seq<char>,
    pub rule: Seq<char>,
    pub service_name: Seq<char>,
    pub backend_url: Seq<char>,
    pub entrypoints: Seq<Seq<char>>,
}

impl View for IngressRoute {
    type V = RouteView;

    open spec fn view(&self) -> RouteView {
        RouteView {
            server_name: self.server_name@,
            container_name: self.container_name@,
            router_name: self.router_name@,
            rule: self.rule@,
            service_name: self.service_name@,
            backend_url: self.backend_url@,
            entrypoints: self.entrypoints@.map_values(|s: String| s@),
        }
    }
}

/// The views of a list of routes.
pub open spec fn routes_view(routes: Seq<IngressRoute>) -> Seq<RouteView> {
    routes.map_values(|r: IngressRoute| r@)
}

/// What is cached for an ingress instance: its routes for display and its Traefik dynamic
/// configuration.
pub struct CachedIngressState {
    /// List of routes for dashboard display
    pub routes: Vec<IngressRoute>,
    /// The Traefik dynamic config JSON
    pub traefik_config: JsonValue,
}

/// A cached state, as mathematical values.
pub struct CachedView {
    pub routes: Seq<RouteView>,
    pub traefik_config: Json,
}

impl View for CachedIngressState {
    type V = CachedView;

    open spec fn view(&self) -> CachedView {
        CachedView { routes: routes_view(self.routes@), traefik_config: self.traefik_config@ }
    }
}

#[verifier::external_type_specification]
#[verifier::external_body]
pub struct ExDocument(bson::Document);

/// What a BSON document holds: each key, with the value stored under it written as canonical
/// Extended JSON text (`Bson::into_canonical_extjson`, then `serde_json::to_string`).
pub uninterp spec fn document_entries(d: bson::Document) -> Map<Seq<char>, Seq<char>>;

/// The canonical Extended JSON text of a BSON boolean.
pub open spec fn bson_bool_text(b: bool) -> Seq<char> {
    if b {
        "true"@
    } else {
        "false"@
    }
}

/// `bson::Document::insert` with a boolean value: the document then maps `key` to the boolean
/// (`Bson::Boolean`, whose canonical Extended JSON is `true` or `false`), replacing any value
/// stored under it, and holds its other entries as before.
#[verifier::external_body]
fn document_insert_bool(doc: &mut bson::Document, key: &str, value: bool)
    ensures
        document_entries(*final(doc)) == document_entries(*old(doc)).insert(key@, bson_bool_text(value)),
{
    doc.insert(key, value);
}

/// Query filters specific to ingress instances.
pub struct IngressInstanceQuerySpecifics {
    /// Filter ingress instances by enabled.
    /// - `None`: Don't filter by enabled
    /// - `Some(true)`: Only include instances with `enabled: true`
    /// - `Some(false)`: Only include instances with `enabled: false`
    pub enabled: Option<bool>,
}

impl IngressInstanceQuerySpecifics {
    /// Adds the filter on `config.enabled` to a database query, when one is asked for.
    pub fn add_filters(&self, filters: &mut bson::Document)
        ensures
            document_entries(*final(filters)) == match self.enabled {
                Some(enabled) => document_entries(*old(filters)).insert(
                    "config.enabled"@,
                    bson_bool_text(enabled),
                ),
                None => document_entries(*old(filters)),
            },
    {
        if let Some(enabled) = self.enabled {
            document_insert_bool(filters, "config.enabled", enabled);
        }
    }
}

/// A query over ingress instances: by name, by tag, and by the specific filters.
pub struct IngressInstanceQuery {
    pub names: Vec<String>,
    pub tags: Vec<String>,
    pub specific: IngressInstanceQuerySpecifics,
}

impl IngressInstanceQuery {
    /// Whether answering the query needs the list of all tags: only when it filters by tag.
    pub fn needs_all_tags(&self) -> (r: bool)
        ensures
            r == (self.tags@.len() > 0),
    {
        !self.tags.is_empty()
    }
}

impl IngressRoute {
    /// A copy of the route.
    pub fn clone_route(&self) -> (r: IngressRoute)
        ensures
            r@ == self@,
    {
        let mut entrypoints: Vec<String> = Vec::new();
        let mut i: usize = 0;
        while i < self.entrypoints.len()
            invariant
                i <= self.entrypoints@.len(),
                entrypoints@ == self.entrypoints@.take(i as int),
            decreases self.entrypoints@.len() - i,
        {
            entrypoints.push(self.entrypoints[i].clone());
            proof {
                assert(entrypoints@ =~= self.entrypoints@.take(i + 1));
            }
            i = i + 1;
        }
        proof {
            assert(self.entrypoints@.take(self.entrypoints@.len() as int) =~= self.entrypoints@);
        }
        IngressRoute {
            server_name: self.server_name.clone(),
            container_name: self.container_name.clone(),
            router_name: self.router_name.clone(),
            rule: self.rule.clone(),
            service_name: self.service_name.clone(),
            backend_url: self.backend_url.clone(),
            entrypoints,
        }
    }
}

/// A copy of a list of routes.
pub fn clone_routes(routes: &Vec<IngressRoute>) -> (r: Vec<IngressRoute>)
    ensures
        routes_view(r@) == routes_view(routes@),
{
    let mut out: Vec<IngressRoute> = Vec::new();
    let mut i: usize = 0;
    while i < routes.len()
        invariant
            i <= routes@.len(),
            routes_view(out@) == routes_view(routes@.take(i as int)),
        decreases routes@.len() - i,
    {
        let r = routes[i].clone_route();
        let ghost before = out@;
        out.push(r);
        proof {
            assert(routes_view(out@) =~= routes_view(before).push(r@));
            assert(routes_view(routes@.take(i + 1)) =~= routes_view(routes@.take(i as int)).push(
                routes@[i as int]@,
            ));
        }
        i = i + 1;
    }
    proof {
        assert(routes@.take(routes@.len() as int) =~= routes@);
    }
    out
}

/// A partial configuration that sets nothing changes nothing.
pub proof fn lemma_merge_empty_partial(config: IngressInstanceConfig)
    ensures
        merged_config(
            config,
            PartialIngressInstanceConfig { enabled: None, is_default: None, server_id: None },
        ) == config,
{
}

/// The partial configuration made from a whole configuration replaces every field: applying it
/// gives that configuration (what copying an instance's configuration relies on).
pub proof fn lemma_merge_full_partial(config: IngressInstanceConfig, other: IngressInstanceConfig)
    ensures
        merged_config(config, partial_of(other)) == other,
{
}

/// Applying the same partial configuration twice is applying it once.
pub proof fn lemma_merge_idempotent(config: IngressInstanceConfig, partial: PartialIngressInstanceConfig)
    ensures
        merged_config(merged_config(config, partial), partial) == merged_config(config, partial),
{
}

} // verus!
