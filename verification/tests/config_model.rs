//! Merge precedence across the b/a/c layers, per-value provenance, and
//! the Topo.toml boundary guard.

use topo::config_model::{
    iter_provenance, merge_layers, reject_if_build_config_key, ConfigError, ConfigValue, Layer,
    LayeredConfig, PRODUCT_CONFIG_FILENAME,
};
use topo::strmap::StrMap;

fn map(pairs: Vec<(&str, ConfigValue)>) -> StrMap<ConfigValue> {
    let mut m = StrMap::new();
    for (k, v) in pairs {
        m.insert(k.to_string(), v);
    }
    m
}

fn s(v: &str) -> ConfigValue {
    ConfigValue::Str(v.to_string())
}

fn i(v: i64) -> ConfigValue {
    ConfigValue::Int(v)
}

fn sample() -> LayeredConfig {
    LayeredConfig {
        inlined: map(vec![
            ("log.level", s("warn")),
            ("cache.size", i(64)),
            ("retry.count", i(1)),
        ]),
        external: map(vec![
            ("cache.size", i(256)),
            ("retry.count", i(3)),
            ("feature.flag", ConfigValue::Bool(true)),
        ]),
        injected: map(vec![
            ("retry.count", i(9)),
            ("tracing.enabled", ConfigValue::Bool(false)),
        ]),
    }
}

#[test]
fn each_key_has_unique_effective_value_and_provenance() {
    let resolved = sample().resolve_all().unwrap();

    assert_eq!(resolved.get("log.level").unwrap().value, s("warn"));
    assert_eq!(resolved.get("log.level").unwrap().layer, Layer::B);

    assert_eq!(resolved.get("cache.size").unwrap().value, i(256));
    assert_eq!(resolved.get("cache.size").unwrap().layer, Layer::A);

    assert_eq!(resolved.get("feature.flag").unwrap().value, ConfigValue::Bool(true));
    assert_eq!(resolved.get("feature.flag").unwrap().layer, Layer::A);

    assert_eq!(resolved.get("retry.count").unwrap().value, i(9));
    assert_eq!(resolved.get("retry.count").unwrap().layer, Layer::C);

    assert_eq!(resolved.get("tracing.enabled").unwrap().value, ConfigValue::Bool(false));
    assert_eq!(resolved.get("tracing.enabled").unwrap().layer, Layer::C);
}

#[test]
fn keys_enumerates_every_layer_once_sorted() {
    assert_eq!(
        sample().keys(),
        vec![
            "cache.size",
            "feature.flag",
            "log.level",
            "retry.count",
            "tracing.enabled",
        ]
    );
}

#[test]
fn iter_provenance_triples() {
    let triples = iter_provenance(&sample().resolve_all().unwrap());
    assert_eq!(
        triples,
        vec![
            ("cache.size".to_string(), i(256), Layer::A),
            ("feature.flag".to_string(), ConfigValue::Bool(true), Layer::A),
            ("log.level".to_string(), s("warn"), Layer::B),
            ("retry.count".to_string(), i(9), Layer::C),
            ("tracing.enabled".to_string(), ConfigValue::Bool(false), Layer::C),
        ]
    );
}

#[test]
fn merge_layers_helper_matches() {
    let resolved = merge_layers(
        map(vec![("x", i(1))]),
        map(vec![("x", i(2))]),
        map(vec![("x", i(3))]),
    )
    .unwrap();
    assert_eq!(resolved.get("x").unwrap().value, i(3));
    assert_eq!(resolved.get("x").unwrap().layer, Layer::C);
}

#[test]
fn unknown_key_raises() {
    let err = sample().resolve("does.not.exist").unwrap_err();
    assert!(matches!(err, ConfigError::KeyNotFound(_)));
}

#[test]
fn d_layer_is_not_a_runtime_merge_layer() {
    let cfg = LayeredConfig::default();
    let err = cfg.resolve("anything").unwrap_err();
    assert!(matches!(err, ConfigError::KeyNotFound(_)));
    assert!(cfg.layer_map_for(Layer::D).is_err());
    assert!(cfg.layer_map_for(Layer::B).is_ok());
}

#[test]
fn build_section_key_rejected_and_points_to_topo_toml() {
    let err = reject_if_build_config_key("build.language").unwrap_err();
    let msg = err.to_display_string();
    assert!(msg.contains("Topo.toml"), "msg: {msg}");
    assert!(msg.contains(PRODUCT_CONFIG_FILENAME), "msg: {msg}");
}

#[test]
fn feature_mode_section_key_rejected() {
    for key in [
        "parallel.mode",
        "adaptive.min_trigger_ns",
        "optimize.indirection",
        "check.jobs",
        "topo.root",
    ] {
        assert!(reject_if_build_config_key(key).is_err(), "expected rejection for {key}");
    }
}

#[test]
fn build_key_in_a_layer_rejected_on_resolve_all() {
    let cfg = LayeredConfig {
        external: map(vec![("build.standard", s("c++20"))]),
        ..Default::default()
    };
    let err = cfg.resolve_all().unwrap_err();
    assert!(err.to_display_string().contains("Topo.toml"));
}

#[test]
fn product_key_with_similar_name_is_not_rejected() {
    reject_if_build_config_key("checkout.timeout_ms").unwrap();
    reject_if_build_config_key("testing_endpoint.url").unwrap();
    let cfg = LayeredConfig {
        inlined: map(vec![("checkout.timeout_ms", i(5000))]),
        ..Default::default()
    };
    assert_eq!(cfg.resolve("checkout.timeout_ms").unwrap().value, i(5000));
}

#[test]
fn build_key_message_is_exact() {
    let err = reject_if_build_config_key("build.language").unwrap_err();
    assert_eq!(
        err.to_display_string(),
        "'build.language' configures the build toolchain (section '[build]') and belongs in \
         Topo.toml, not the product runtime config (topo-app.toml). The two files share no \
         sections; set this in Topo.toml instead."
    );
    assert!(matches!(err, ConfigError::BuildConfigKey(_)));
}

#[test]
fn key_not_found_displays_the_key() {
    let err = sample().resolve("nope.key").unwrap_err();
    assert_eq!(err.to_display_string(), "key not found: nope.key");
}

#[test]
fn injected_layer_alone_wins_its_key() {
    let cfg = LayeredConfig {
        injected: map(vec![("only.c", i(5))]),
        ..Default::default()
    };
    let rv = cfg.resolve("only.c").unwrap();
    assert_eq!(rv.value, i(5));
    assert_eq!(rv.layer, Layer::C);
}
