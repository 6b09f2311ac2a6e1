use komodo_ingress::api::{
    sets_default, validate_create_config, validate_update_config, GetIngressInstancesSummaryResponse, IngressError,
};
use komodo_ingress::entities::{
    IngressInstanceConfig, IngressInstanceQuery, IngressInstanceQuerySpecifics, PartialIngressInstanceConfig,
};

fn partial(is_default: Option<bool>) -> PartialIngressInstanceConfig {
    PartialIngressInstanceConfig { enabled: None, is_default, server_id: None }
}

#[test]
fn create_refused_when_default_exists() {
    let err = validate_create_config(&partial(Some(true)), Some("main".to_string())).unwrap_err();
    assert_eq!(err.message(), "An ingress instance with is_default=true already exists: 'main'");
    match err {
        IngressError::DefaultAlreadyExists { name, on_update } => {
            assert_eq!(name, "main");
            assert!(!on_update);
        }
    }
}

#[test]
fn update_refused_when_other_default_exists() {
    let err = validate_update_config(&partial(Some(true)), Some("main".to_string())).unwrap_err();
    assert_eq!(
        err.message(),
        "An ingress instance with is_default=true already exists: 'main'. Set its is_default to false first."
    );
}

#[test]
fn default_check_passes_otherwise() {
    assert!(validate_create_config(&partial(Some(true)), None).is_ok());
    assert!(validate_create_config(&partial(Some(false)), Some("main".to_string())).is_ok());
    assert!(validate_update_config(&partial(None), Some("main".to_string())).is_ok());
    assert!(sets_default(&partial(Some(true))));
    assert!(!sets_default(&partial(Some(false))));
    assert!(!sets_default(&partial(None)));
}

#[test]
fn summary_truncates_count() {
    assert_eq!(GetIngressInstancesSummaryResponse::from_count(7).total, 7);
    assert_eq!(GetIngressInstancesSummaryResponse::from_count((1u64 << 32) + 3).total, 3);
}

#[test]
fn config_default_and_builder() {
    let d = IngressInstanceConfig::default();
    assert!(!d.enabled && !d.is_default && d.server_id.is_empty());
    let built = IngressInstanceConfig::builder().enabled(true).server_id("srv".to_string()).build().ok().unwrap();
    assert!(built.enabled);
    assert!(!built.is_default);
    assert_eq!(built.server_id, "srv");
    let empty = IngressInstanceConfig::builder().build().ok().unwrap();
    assert!(!empty.enabled && !empty.is_default && empty.server_id.is_empty());
}

#[test]
fn partial_update_changes_only_set_fields() {
    let config = IngressInstanceConfig { enabled: true, is_default: false, server_id: "a".to_string() };
    let merged = config.merge_partial(PartialIngressInstanceConfig {
        enabled: None,
        is_default: Some(true),
        server_id: None,
    });
    assert!(merged.enabled);
    assert!(merged.is_default);
    assert_eq!(merged.server_id, "a");
    let other = IngressInstanceConfig { enabled: false, is_default: true, server_id: "b".to_string() };
    let copied = merged.merge_partial(PartialIngressInstanceConfig::from(other));
    assert!(!copied.enabled);
    assert!(copied.is_default);
    assert_eq!(copied.server_id, "b");
    let unchanged = copied.merge_partial(PartialIngressInstanceConfig::default());
    assert!(!unchanged.enabled && unchanged.is_default && unchanged.server_id == "b");
    let once = unchanged.merge_partial(PartialIngressInstanceConfig { enabled: Some(true), is_default: None, server_id: None });
    let twice = IngressInstanceConfig { enabled: once.enabled, is_default: once.is_default, server_id: once.server_id.clone() }
        .merge_partial(PartialIngressInstanceConfig { enabled: Some(true), is_default: None, server_id: None });
    assert_eq!((once.enabled, once.is_default, once.server_id.clone()), (twice.enabled, twice.is_default, twice.server_id));
}

#[test]
fn query_adds_enabled_filter() {
    let mut doc = bson::Document::new();
    IngressInstanceQuerySpecifics { enabled: Some(false) }.add_filters(&mut doc);
    assert_eq!(doc.get_bool("config.enabled"), Ok(false));
    let mut doc = bson::Document::new();
    IngressInstanceQuerySpecifics { enabled: None }.add_filters(&mut doc);
    assert!(doc.is_empty());
    let mut doc = bson::Document::new();
    doc.insert("name", "edge");
    doc.insert("config.enabled", 7i32);
    IngressInstanceQuerySpecifics { enabled: Some(true) }.add_filters(&mut doc);
    let text = |k: &str| serde_json::to_string(&doc.get(k).unwrap().clone().into_canonical_extjson()).unwrap();
    assert_eq!(text("config.enabled"), "true");
    assert_eq!(text("name"), "\"edge\"");
    assert_eq!(doc.len(), 2);
}

#[test]
fn query_needs_tags_only_when_filtering_by_tag() {
    let q = IngressInstanceQuery { names: vec![], tags: vec![], specific: IngressInstanceQuerySpecifics { enabled: None } };
    assert!(!q.needs_all_tags());
    let q = IngressInstanceQuery {
        names: vec![],
        tags: vec!["prod".to_string()],
        specific: IngressInstanceQuerySpecifics { enabled: None },
    };
    assert!(q.needs_all_tags());
}
