//! Tags, the tag query, read-visibility tiers against the write gate,
//! and the tiered-transparency invariant.

use std::collections::BTreeSet;

use topo::config::ProductConfig;
use topo::config_model::{
    required_read_level, ConfigError, ConfigStore, ConfigValue, ImpactLevel, ItemPolicy,
    LayeredConfig,
};
use topo::strmap::StrMap;

fn map(pairs: Vec<(&str, ConfigValue)>) -> StrMap<ConfigValue> {
    let mut m = StrMap::new();
    for (k, v) in pairs {
        m.insert(k.to_string(), v);
    }
    m
}

fn s(v: &str) -> ConfigValue {
    ConfigValue::Str(v.to_string())
}

fn i(v: i64) -> ConfigValue {
    ConfigValue::Int(v)
}

fn tagged_store() -> ConfigStore {
    let layered = LayeredConfig {
        inlined: map(vec![
            ("log.level", s("warn")),
            ("net.timeout_ms", i(5000)),
            ("net.retries", i(3)),
            ("cache.size", i(256)),
            ("db.dsn", s("postgres://local")),
            ("secret.api_key", s("k-xxx")),
        ]),
        ..Default::default()
    };
    let mut store = ConfigStore::new(layered, StrMap::new());
    store.declare("log.level", ItemPolicy::new().with_tags(&["obs"])).unwrap();
    store.declare("net.timeout_ms", ItemPolicy::new().with_tags(&["network", "tuning"])).unwrap();
    store.declare("net.retries", ItemPolicy::new().with_tags(&["network"])).unwrap();
    store.declare("cache.size", ItemPolicy::new().with_tags(&["tuning"])).unwrap();
    store
        .declare(
            "db.dsn",
            ItemPolicy::new().with_tags(&["network"]).with_read_level(2).with_impact(ImpactLevel::High),
        )
        .unwrap();
    store
        .declare(
            "secret.api_key",
            ItemPolicy::new().with_tags(&["network"]).with_read_level(3).with_impact(ImpactLevel::High),
        )
        .unwrap();
    store
}

#[test]
fn single_tag_returns_exact_subset() {
    let store = tagged_store();
    assert_eq!(store.query(Some(&["network"]), 0), vec!["net.retries", "net.timeout_ms"]);
}

#[test]
fn multi_tag_is_and_combination() {
    let store = tagged_store();
    assert_eq!(store.query(Some(&["network", "tuning"]), 0), vec!["net.timeout_ms"]);
    assert_eq!(store.query(Some(&["tuning", "network"]), 0), vec!["net.timeout_ms"]);
}

#[test]
fn no_tag_returns_all_non_permission_items() {
    let store = tagged_store();
    assert_eq!(
        store.query(None, 0),
        vec!["cache.size", "log.level", "net.retries", "net.timeout_ms"]
    );
}

#[test]
fn tag_with_no_match_returns_empty() {
    let store = tagged_store();
    assert!(store.query(Some(&["does-not-exist"]), 0).is_empty());
}

#[test]
fn query_resolved_carries_values_and_provenance() {
    let store = tagged_store();
    let rv = store.query_resolved(Some(&["tuning"]), 0).unwrap();
    let keys: BTreeSet<String> = rv.keys().into_iter().collect();
    let expected: BTreeSet<String> =
        ["net.timeout_ms".to_string(), "cache.size".to_string()].into_iter().collect();
    assert_eq!(keys, expected);
    assert_eq!(rv.get("cache.size").unwrap().value, i(256));
}

#[test]
fn gated_item_hidden_without_credential() {
    let store = tagged_store();
    assert!(!store.query(None, 0).contains(&"db.dsn".to_string()));
    assert!(!store.query(None, 0).contains(&"secret.api_key".to_string()));
    assert!(matches!(store.read("db.dsn", 0).unwrap_err(), ConfigError::WriteProtection(_)));
}

#[test]
fn each_level_sees_that_levels_complete_range() {
    let store = tagged_store();
    let keys_l2 = store.query(None, 2);
    assert!(keys_l2.contains(&"db.dsn".to_string()));
    assert!(!keys_l2.contains(&"secret.api_key".to_string()));
    assert_eq!(store.read("db.dsn", 2).unwrap(), s("postgres://local"));
    assert!(store.read("secret.api_key", 2).is_err());
}

#[test]
fn tiered_transparency_highest_level_enumerates_everything() {
    let store = tagged_store();
    let top = store.max_read_level();
    assert_eq!(top, 3);
    let enumerated: BTreeSet<String> = store.query(None, top).into_iter().collect();
    let all: BTreeSet<String> = store.keys().into_iter().collect();
    assert_eq!(enumerated, all);
    for key in store.keys() {
        store.read(&key, top).unwrap();
    }
}

#[test]
fn tag_filter_and_read_tier_are_orthogonal() {
    let store = tagged_store();
    let top = store.max_read_level();
    assert_eq!(
        store.query(Some(&["network"]), top),
        vec!["db.dsn", "net.retries", "net.timeout_ms", "secret.api_key"]
    );
    assert_eq!(store.query(Some(&["network"]), 0), vec!["net.retries", "net.timeout_ms"]);
}

#[test]
fn two_callsites_different_args_different_visibility() {
    let store = tagged_store();
    let site_one = store.query(Some(&["network"]), 0);
    let site_two = store.query(Some(&["network"]), store.max_read_level());
    assert_ne!(site_one, site_two);
    assert!(!site_one.contains(&"db.dsn".to_string()));
    assert!(site_two.contains(&"db.dsn".to_string()));
}

#[test]
fn mid_level_threshold_via_required_credential_table() {
    let mut store = ConfigStore::default();
    store.credential_table_mut().set(ImpactLevel::High, 2);
    store.declare("db.dsn", ItemPolicy::new().with_impact(ImpactLevel::High)).unwrap();
    assert!(store.set("db.dsn", s("x"), 1).is_err());
    store.set("db.dsn", s("ok"), 2).unwrap();
    assert_eq!(store.get("db.dsn").unwrap(), s("ok"));
}

#[test]
fn read_level_and_write_gate_are_independent_fields() {
    let mut store = ConfigStore::default();
    store
        .declare(
            "public.but.guarded",
            ItemPolicy::new().with_read_level(0).with_impact(ImpactLevel::High),
        )
        .unwrap();
    store
        .declare("gated.but.cheap", ItemPolicy::new().with_read_level(2).with_impact(ImpactLevel::Low))
        .unwrap();
    assert_eq!(required_read_level(&store.policy_of("public.but.guarded")), 0);
    assert!(store.set("public.but.guarded", i(1), 0).is_err());
    assert_eq!(required_read_level(&store.policy_of("gated.but.cheap")), 2);
    store.set("gated.but.cheap", i(1), 0).unwrap();
    assert!(store.read("gated.but.cheap", 0).is_err());
}

#[test]
fn product_config_query_passthrough() {
    let mut pc = ProductConfig::builder()
        .inlined(map(vec![("a", i(1)), ("b", i(2))]))
        .build(None)
        .unwrap();
    pc.declare("b", ItemPolicy::new().with_tags(&["x"])).unwrap();
    pc.declare("a", ItemPolicy::new().with_read_level(2)).unwrap();
    assert_eq!(pc.query(None, 0), vec!["b"]);
    assert_eq!(pc.query(Some(&["x"]), 0), vec!["b"]);
    assert_eq!(pc.max_read_level(), 2);
    assert_eq!(pc.query(None, 2), vec!["a", "b"]);
    assert_eq!(pc.read("a", 2).unwrap(), i(1));
}

#[test]
fn read_refusal_message_is_exact() {
    let store = tagged_store();
    let err = store.read("secret.api_key", 1).unwrap_err();
    assert_eq!(
        err.to_display_string(),
        "config key 'secret.api_key' requires read level >= 3 to be listed or read; the request \
         presented level 1. Permission-gated items are hidden below their tier; re-issue with a \
         sufficient level."
    );
}

#[test]
fn max_read_level_of_empty_store_is_zero() {
    assert_eq!(ConfigStore::default().max_read_level(), 0);
}
