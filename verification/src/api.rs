//! Requests on ingress instances, and the decisions their handlers make: validating a default
//! instance, answering from the ingress cache, and summarising instances.
use vstd::prelude::*;
use crate::entities::{
    CachedIngressState, IngressInstance, IngressInstanceListItemInfo, IngressInstanceQuery,
    IngressRoute, PartialIngressInstanceConfig, RouteView, clone_routes, routes_view,
};
use crate::ingress::cache_view;
use crate::json::JsonValue;
use crate::table::StrMap;
use crate::traefik_config::{empty_config_spec, empty_traefik_config};

verus! {

/// Get a specific ingress instance. Response: [IngressInstance].
pub struct GetIngressInstance {
    /// Id or name
    pub ingress_instance: String,
}

/// List ingress instances matching optional query. Response: [ListIngressInstancesResponse].
pub struct ListIngressInstances {
    /// Structured query to filter ingress instances.
    pub query: IngressInstanceQuery,
}

/// List full ingress instances matching optional query. Response: [ListFullIngressInstancesResponse].
pub struct ListFullIngressInstances {
    /// Structured query to filter ingress instances.
    pub query: IngressInstanceQuery,
}

/// Gets a summary of data relating to all ingress instances.
/// Response: [GetIngressInstancesSummaryResponse].
pub struct GetIngressInstancesSummary {}

/// Response for [GetIngressInstancesSummary].
pub struct GetIngressInstancesSummaryResponse {
    pub total: u32,
}

impl GetIngressInstancesSummaryResponse {
    /// The summary for a count of instance documents (the count is truncated to 32 bits).
    pub fn from_count(count: u64) -> (r: Self)
        ensures
            r.total == count as u32,
    {
        GetIngressInstancesSummaryResponse { total: count as u32 }
    }
}

/// List all ingress routes for a specific instance. Response: [ListIngressRoutesResponse].
pub struct ListIngressRoutes {
    /// The id or name of the ingress instance.
    pub instance: String,
}

/// Create an ingress instance. Response: [IngressInstance].
pub struct CreateIngressInstance {
    /// The name given to newly created ingress instance.
    pub name: String,
    /// Optional partial config to initialize the instance with.
    pub config: PartialIngressInstanceConfig,
}

/// Creates a new ingress instance with given `name` and the configuration
/// of the instance at the given `id`. Response: [IngressInstance].
pub struct CopyIngressInstance {
    /// The name of the new ingress instance.
    pub name: String,
    /// The id of the ingress instance to copy.
    pub id: String,
}

/// Deletes the ingress instance at the given id, and returns the deleted instance.
/// Response: [IngressInstance]
pub struct DeleteIngressInstance {
    /// The id or name of the ingress instance to delete.
    pub id: String,
}

/// Update the ingress instance at the given id, and return the updated instance. Response: [IngressInstance].
///
/// Note. This method updates only the fields which are set in the [PartialIngressInstanceConfig],
/// effectively merging diffs into the final document. This is helpful when multiple users are using
/// the same resources concurrently by ensuring no unintentional
/// field changes occur from out of date local state.
pub struct UpdateIngressInstance {
    /// The id of the ingress instance to update.
    pub id: String,
    /// The partial config update to apply.
    pub config: PartialIngressInstanceConfig,
}

/// Rename the IngressInstance at id to the given name.
/// Response: [Update].
pub struct RenameIngressInstance {
    /// The id or name of the IngressInstance to rename.
    pub id: String,
    /// The new name.
    pub name: String,
}

/// Why a request on an ingress instance is refused.
pub enum IngressError {
    /// Another instance is already the default one; `on_update` tells an update from a creation.
    DefaultAlreadyExists { name: String, on_update: bool },
}

/// The message of a refusal.
pub open spec fn error_message_spec(name: Seq<char>, on_update: bool) -> Seq<char> {
    let base = "An ingress instance with is_default=true already exists: '"@ + name + "'"@;
    if on_update {
        base + ". Set its is_default to false first."@
    } else {
        base
    }
}

impl IngressError {
    /// The message shown for the refusal.
    pub fn message(&self) -> (r: String)
        ensures
            r@ == match self {
                IngressError::DefaultAlreadyExists { name, on_update } => error_message_spec(name@, *on_update),
            },
    {
        match self {
            IngressError::DefaultAlreadyExists { name, on_update } => {
                let mut msg = String::from_str("An ingress instance with is_default=true already exists: '");
                msg.append(name.as_str());
                msg.append("'");
                if *on_update {
                    msg.append(". Set its is_default to false first.");
                }
                msg
            },
        }
    }
}

/// Whether a configuration asks to make the instance the default one, so that the existing
/// default instance must be looked up.
pub fn sets_default(config: &PartialIngressInstanceConfig) -> (r: bool)
    ensures
        r == (config.is_default == Some(true)),
{
    match config.is_default {
        Some(b) => b,
        None => false,
    }
}

/// Validates the configuration of a new instance, given the name of the instance that is the
/// default one, when there is one: only one instance can be default.
pub fn validate_create_config(config: &PartialIngressInstanceConfig, existing_default: Option<String>) -> (r: Result<(), IngressError>)
    ensures
        r is Err <==> (config.is_default == Some(true) && existing_default is Some),
        r matches Err(IngressError::DefaultAlreadyExists { name, on_update }) ==> !on_update && Some(
            name,
        ) == existing_default,
{
    if sets_default(config) {
        if let Some(name) = existing_default {
            return Err(IngressError::DefaultAlreadyExists { name, on_update: false });
        }
    }
    Ok(())
}

/// Validates an update of an instance's configuration, given the name of another instance that
/// is the default one, when there is one: only one instance can be default.
pub fn validate_update_config(config: &PartialIngressInstanceConfig, existing_default: Option<String>) -> (r: Result<(), IngressError>)
    ensures
        r is Err <==> (config.is_default == Some(true) && existing_default is Some),
        r matches Err(IngressError::DefaultAlreadyExists { name, on_update }) ==> on_update && Some(
            name,
        ) == existing_default,
{
    if sets_default(config) {
        if let Some(name) = existing_default {
            return Err(IngressError::DefaultAlreadyExists { name, on_update: true });
        }
    }
    Ok(())
}

/// The number of routes cached for an instance name, 0 when there is no entry.
pub open spec fn cached_route_count(cache: StrMap<CachedIngressState>, name: Seq<char>) -> nat {
    if cache_view(cache).contains_key(name) {
        cache_view(cache)[name].routes.len()
    } else {
        0
    }
}

/// The list item summary of an instance: its flags and the number of routes cached for it
/// (truncated to 32 bits).
pub fn list_item_info(instance: &IngressInstance, cache: &StrMap<CachedIngressState>) -> (r: IngressInstanceListItemInfo)
    ensures
        r.enabled == instance.config.enabled,
        r.is_default == instance.config.is_default,
        r.route_count == cached_route_count(*cache, instance.name@) as u32,
{
    let route_count: u32 = match cache.get(instance.name.as_str()) {
        Some(state) => state.routes.len() as u32,
        None => 0,
    };
    IngressInstanceListItemInfo {
        enabled: instance.config.enabled,
        is_default: instance.config.is_default,
        route_count,
    }
}

/// The routes cached for an instance, none when there is no entry.
pub fn instance_routes(cache: &StrMap<CachedIngressState>, name: &str) -> (r: Vec<IngressRoute>)
    ensures
        routes_view(r@) == if cache_view(*cache).contains_key(name@) {
            cache_view(*cache)[name@].routes
        } else {
            Seq::<RouteView>::empty()
        },
{
    match cache.get(name) {
        Some(state) => clone_routes(&state.routes),
        None => {
            let r: Vec<IngressRoute> = Vec::new();
            assert(routes_view(r@) =~= Seq::<RouteView>::empty());
            r
        },
    }
}

/// The Traefik dynamic configuration for an instance: the cached one, or an empty configuration
/// when the instance is not found.
pub fn instance_traefik_config(cache: &StrMap<CachedIngressState>, name: &str) -> (r: JsonValue)
    ensures
        r@ == if cache_view(*cache).contains_key(name@) {
            cache_view(*cache)[name@].traefik_config
        } else {
            empty_config_spec()
        },
{
    match cache.get(name) {
        Some(state) => state.traefik_config.deep_clone(),
        None => empty_traefik_config(),
    }
}

} // verus!
