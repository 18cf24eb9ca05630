//! The unified browse: a self-describing row per runtime item within the
//! caller's read tier, and the separate development listing of
//! pure-internal data.

use std::collections::{BTreeMap, BTreeSet};

use topo::config::ProductConfig;
use topo::config_model::{
    BrowseEntry, ConfigStore, ConfigValue, ImpactLevel, ItemPolicy, Layer, LayeredConfig,
};
use topo::strmap::{StrMap, StrSet};

fn map(pairs: Vec<(&str, ConfigValue)>) -> StrMap<ConfigValue> {
    let mut m = StrMap::new();
    for (k, v) in pairs {
        m.insert(k.to_string(), v);
    }
    m
}

fn s(v: &str) -> ConfigValue {
    ConfigValue::Str(v.to_string())
}

fn i(v: i64) -> ConfigValue {
    ConfigValue::Int(v)
}

fn b(v: bool) -> ConfigValue {
    ConfigValue::Bool(v)
}

fn layered_store() -> ConfigStore {
    let layered = LayeredConfig {
        inlined: map(vec![
            ("log.level", s("warn")),
            ("net.timeout_ms", i(1000)),
            ("cache.size", i(256)),
            ("db.dsn", s("postgres://default")),
        ]),
        external: map(vec![("net.timeout_ms", i(5000))]),
        injected: map(vec![("cache.size", i(512)), ("feature.flag", b(true))]),
    };
    let mut store = ConfigStore::new(layered, StrMap::new());
    store.declare("log.level", ItemPolicy::new().with_tags(&["obs"])).unwrap();
    store
        .declare(
            "net.timeout_ms",
            ItemPolicy::new().with_tags(&["network", "tuning"]).with_impact(ImpactLevel::High),
        )
        .unwrap();
    store.declare("cache.size", ItemPolicy::new().with_tags(&["tuning"])).unwrap();
    store.declare("feature.flag", ItemPolicy::new().with_tags(&["features"])).unwrap();
    store
        .declare(
            "db.dsn",
            ItemPolicy::new().with_tags(&["network"]).with_read_level(2).with_impact(ImpactLevel::High),
        )
        .unwrap();
    store
}

fn by_key(rows: &[BrowseEntry]) -> BTreeMap<String, BrowseEntry> {
    rows.iter().map(|r| (r.key.clone(), r.clone())).collect()
}

fn tagset(items: &[&str]) -> StrSet {
    StrSet::from_strs(items)
}

fn nameset(items: &[&str]) -> BTreeSet<String> {
    items.iter().map(|s| s.to_string()).collect()
}

#[test]
fn every_documented_field_present_and_correct() {
    let store = layered_store();
    let rows = store.browse(None, store.max_read_level()).unwrap();
    let by = by_key(&rows);

    let log = &by["log.level"];
    assert_eq!(log.value_type, "str");
    assert_eq!(log.default, Some(s("warn")));
    assert_eq!(log.effective, s("warn"));
    assert_eq!(log.layer, Layer::B);
    assert_eq!(log.impact, ImpactLevel::Low);
    assert_eq!(log.required_write_level, 0);
    assert_eq!(log.required_read_level, 0);
    assert_eq!(log.tags, tagset(&["obs"]));

    let net = &by["net.timeout_ms"];
    assert_eq!(net.value_type, "int");
    assert_eq!(net.default, Some(i(1000)));
    assert_eq!(net.effective, i(5000));
    assert_eq!(net.layer, Layer::A);
    assert_eq!(net.impact, ImpactLevel::High);
    assert_eq!(net.required_write_level, 1);
    assert_eq!(net.required_read_level, 0);
    assert_eq!(net.tags, tagset(&["network", "tuning"]));

    let cache = &by["cache.size"];
    assert_eq!(cache.value_type, "int");
    assert_eq!(cache.default, Some(i(256)));
    assert_eq!(cache.effective, i(512));
    assert_eq!(cache.layer, Layer::C);

    let flag = &by["feature.flag"];
    assert_eq!(flag.value_type, "bool");
    assert_eq!(flag.default, None);
    assert_eq!(flag.effective, ConfigValue::Bool(true));
    assert_eq!(flag.layer, Layer::C);

    let dsn = &by["db.dsn"];
    assert_eq!(dsn.required_read_level, 2);
    assert_eq!(dsn.required_write_level, 1);
    assert_eq!(dsn.value_type, "str");
}

fn browsed_keys(store: &ConfigStore, level: i64) -> BTreeSet<String> {
    store.browse(None, level).unwrap().iter().map(|r| r.key.clone()).collect()
}

#[test]
fn gated_item_absent_below_tier_present_at_and_above() {
    let store = layered_store();
    assert!(!browsed_keys(&store, 0).contains("db.dsn"));
    assert!(browsed_keys(&store, 2).contains("db.dsn"));
    assert!(browsed_keys(&store, 5).contains("db.dsn"));
}

#[test]
fn top_level_browse_equals_complete_runtime_key_set() {
    let store = layered_store();
    let top = store.max_read_level();
    let mut browsed: Vec<String> =
        store.browse(None, top).unwrap().iter().map(|r| r.key.clone()).collect();
    browsed.sort();
    assert_eq!(browsed, store.keys());
}

#[test]
fn each_level_is_exactly_that_levels_complete_range() {
    let store = layered_store();
    let mut zero: Vec<String> =
        store.browse(None, 0).unwrap().iter().map(|r| r.key.clone()).collect();
    zero.sort();
    let mut expected: Vec<String> =
        store.keys().into_iter().filter(|k| store.policy_of(k).read_level == 0).collect();
    expected.sort();
    assert_eq!(zero, expected);
}

#[test]
fn browse_does_not_use_resolve_all_to_leak() {
    let store = layered_store();
    let tier_blind: BTreeSet<String> = store.resolve_all().unwrap().keys().into_iter().collect();
    assert!(tier_blind.contains("db.dsn"));
    let browsed = browsed_keys(&store, 0);
    assert!(!browsed.contains("db.dsn"));
    assert_ne!(browsed, tier_blind);
    for r in store.browse(None, 0).unwrap() {
        assert_ne!(r.key, "db.dsn");
    }
}

#[test]
fn same_level_yields_identical_browse() {
    let store = layered_store();
    let a = store.browse(None, 1).unwrap();
    let b = store.browse(None, 1).unwrap();
    assert_eq!(a, b);
}

#[test]
fn key_added_after_construction_auto_appears() {
    let mut store = layered_store();
    assert!(!browsed_keys(&store, 0).contains("late.added"));
    store.set("late.added", s("hi"), 0).unwrap();
    assert!(browsed_keys(&store, 0).contains("late.added"));
}

#[test]
fn d_absent_from_runtime_browse_at_every_level() {
    let mut cfg = ProductConfig::builder().inlined(map(vec![("log.level", s("warn"))])).build(None).unwrap();
    cfg.declare_internal("BUILD_SALT", s("abc123"), &["crypto"]).unwrap();
    cfg.declare_internal("MAX_WIDGETS", i(64), &["limits"]).unwrap();
    for level in [0, 1, 99] {
        let keys: BTreeSet<String> =
            cfg.browse(None, level).unwrap().iter().map(|r| r.key.clone()).collect();
        assert!(!keys.contains("BUILD_SALT"));
        assert!(!keys.contains("MAX_WIDGETS"));
    }
    assert!(!cfg.keys().contains(&"BUILD_SALT".to_string()));
}

#[test]
fn d_present_only_in_dev_listing_and_tag_searchable() {
    let mut cfg = ProductConfig::in_memory();
    cfg.declare_internal("BUILD_SALT", s("abc123"), &["crypto"]).unwrap();
    cfg.declare_internal("MAX_WIDGETS", i(64), &["limits"]).unwrap();

    let listed: BTreeSet<String> = cfg.dev_browse(None).iter().map(|r| r.name.clone()).collect();
    assert_eq!(listed, nameset(&["BUILD_SALT", "MAX_WIDGETS"]));

    let crypto = cfg.dev_browse(Some(&["crypto"]));
    assert_eq!(crypto.iter().map(|r| r.name.clone()).collect::<Vec<_>>(), vec!["BUILD_SALT"]);
    assert_eq!(crypto[0].value, s("abc123"));
    assert_eq!(crypto[0].tags, tagset(&["crypto"]));
}

#[test]
fn dev_browse_shape_is_distinct_from_runtime_entry() {
    let mut cfg = ProductConfig::in_memory();
    cfg.declare_internal("BUILD_SALT", s("abc123"), &["crypto"]).unwrap();
    let rec = &cfg.dev_browse(None)[0];
    assert_eq!(rec.name, "BUILD_SALT");
    assert_eq!(rec.value, s("abc123"));
    assert_eq!(rec.tags, tagset(&["crypto"]));
}

#[test]
fn no_d_declared_yields_empty_listing_without_registry() {
    let cfg = ProductConfig::in_memory();
    assert!(cfg.dev_browse(None).is_empty());
    assert!(cfg.dev_internal().is_none());
}

#[test]
fn bridge_browse_is_passthrough_to_model() {
    let mut cfg = ProductConfig::builder()
        .inlined(map(vec![("a.x", i(1)), ("b.y", s("two"))]))
        .injected(map(vec![("a.x", i(9))]))
        .build(None)
        .unwrap();
    cfg.declare("b.y", ItemPolicy::new().with_tags(&["t"]).with_read_level(1)).unwrap();
    let low: BTreeSet<String> = cfg.browse(None, 0).unwrap().iter().map(|r| r.key.clone()).collect();
    assert_eq!(low, nameset(&["a.x"]));
    let full = cfg.browse(None, cfg.max_read_level()).unwrap();
    let full_keys: BTreeSet<String> = full.iter().map(|r| r.key.clone()).collect();
    assert_eq!(full_keys, nameset(&["a.x", "b.y"]));
    let ax = by_key(&full)["a.x"].clone();
    assert_eq!(ax.default, Some(i(1)));
    assert_eq!(ax.effective, i(9));
    assert_eq!(ax.layer, Layer::C);
}

#[test]
fn browse_rows_come_in_key_order() {
    let store = layered_store();
    let keys: Vec<String> =
        store.browse(None, store.max_read_level()).unwrap().iter().map(|r| r.key.clone()).collect();
    assert_eq!(keys, vec!["cache.size", "db.dsn", "feature.flag", "log.level", "net.timeout_ms"]);
}

#[test]
fn browse_refuses_datetime_without_bridged_default() {
    let layered = LayeredConfig {
        injected: map(vec![("when", ConfigValue::Datetime("2026-01-01".to_string()))]),
        ..Default::default()
    };
    let store = ConfigStore::new(layered, StrMap::new());
    assert!(store.browse(None, 0).is_err());
}
