//! get/set over the b ◁ a ◁ c precedence, the stdlib value contract and
//! the identity-independent write gate.

use topo::config::ProductConfig;
use topo::config_model::{
    ConfigError, ConfigStore, ConfigValue, Fields, ImpactLevel, ItemPolicy, Layer, LayeredConfig,
};
use topo::strmap::StrMap;

fn map(pairs: Vec<(&str, ConfigValue)>) -> StrMap<ConfigValue> {
    let mut m = StrMap::new();
    for (k, v) in pairs {
        m.insert(k.to_string(), v);
    }
    m
}

fn s(v: &str) -> ConfigValue {
    ConfigValue::Str(v.to_string())
}

fn i(v: i64) -> ConfigValue {
    ConfigValue::Int(v)
}

fn float(x: f64) -> ConfigValue {
    ConfigValue::Float(format!("{:?}", x))
}

#[test]
fn set_then_get_through_store() {
    let mut store = ConfigStore::new(
        LayeredConfig { inlined: map(vec![("log.level", s("warn"))]), ..Default::default() },
        StrMap::new(),
    );
    store.set("log.level", s("debug"), 0).unwrap();
    assert_eq!(store.get("log.level").unwrap(), s("debug"));
    assert_eq!(store.resolve("log.level").unwrap().layer, Layer::A);
    store.layered_mut().injected.insert("log.level".to_string(), s("trace"));
    assert_eq!(store.get("log.level").unwrap(), s("trace"));
    assert_eq!(store.resolve("log.level").unwrap().layer, Layer::C);
}

#[test]
fn get_default_only_when_no_layer_sets_key() {
    let store = ConfigStore::new(
        LayeredConfig { inlined: map(vec![("present", i(1))]), ..Default::default() },
        StrMap::new(),
    );
    assert_eq!(store.get_or("absent", i(42)), i(42));
    assert!(matches!(store.get("absent").unwrap_err(), ConfigError::KeyNotFound(_)));
    assert_eq!(store.get_or("present", i(99)), i(1));
}

#[test]
fn set_reflected_in_serialized_external_toml() {
    let mut pc = ProductConfig::builder().path("topo-app.toml").build(None).unwrap();
    pc.set("cache.size", i(256), 0).unwrap();
    pc.set("log.level", s("debug"), 0).unwrap();
    pc.set("feature.flags", ConfigValue::Array(vec![s("a"), s("b")]), 0).unwrap();

    let text = pc.serialize_external().unwrap();
    let reloaded: toml::Value = text.parse().unwrap();
    assert_eq!(reloaded["cache"]["size"].as_integer(), Some(256));
    assert_eq!(reloaded["log"]["level"].as_str(), Some("debug"));
    let flags = reloaded["feature"]["flags"].as_array().unwrap();
    assert_eq!(flags[0].as_str(), Some("a"));
    assert_eq!(flags[1].as_str(), Some("b"));

    let pc2 = ProductConfig::builder().path("topo-app.toml").build(Some(&text)).unwrap();
    assert_eq!(pc2.get("cache.size").unwrap(), i(256));
    assert_eq!(pc2.get("feature.flags").unwrap(), ConfigValue::Array(vec![s("a"), s("b")]));
}

#[test]
fn keys_enumerates_all_layers() {
    let mut store = ConfigStore::new(
        LayeredConfig {
            inlined: map(vec![("a.x", i(1))]),
            injected: map(vec![("c.z", i(3))]),
            ..Default::default()
        },
        StrMap::new(),
    );
    store.set("b.y", i(2), 0).unwrap();
    assert_eq!(store.keys(), vec!["a.x", "b.y", "c.z"]);
}

#[test]
fn stdlib_scalars_accepted() {
    let mut store = ConfigStore::default();
    store.set("s", s("str"), 0).unwrap();
    store.set("i", i(7), 0).unwrap();
    store.set("f", float(1.5), 0).unwrap();
    store.set("b", ConfigValue::Bool(true), 0).unwrap();
    store.set("arr", ConfigValue::Array(vec![i(1), i(2), i(3)]), 0).unwrap();
    let mut rec = Fields::new();
    rec.insert("id".to_string(), i(1));
    rec.insert("amount".to_string(), float(2.0));
    store.set("rec", ConfigValue::Record(rec.clone()), 0).unwrap();
    assert_eq!(store.get("rec").unwrap(), ConfigValue::Record(rec));
}

#[test]
fn datetime_rejected_points_to_stdlib_bridging_gap() {
    let mut store = ConfigStore::default();
    let err = store
        .set("event.at", ConfigValue::Datetime("2026-05-16T12:00:00".into()), 0)
        .unwrap_err();
    let msg = err.to_display_string();
    assert!(msg.contains("event.at"), "locates the key: {msg}");
    assert!(msg.contains("stdlib-bridging-types"), "names the gap source: {msg}");
    assert!(msg.contains("time_*"), "names the missing family: {msg}");
}

#[test]
fn datetime_nested_in_array_rejected() {
    let mut store = ConfigStore::default();
    let err = store
        .set(
            "schedule.points",
            ConfigValue::Array(vec![ConfigValue::Datetime("2026-01-01".into())]),
            0,
        )
        .unwrap_err();
    assert!(err.to_display_string().contains("schedule.points"));
}

#[test]
fn build_toolchain_key_still_rejected_on_write() {
    let mut store = ConfigStore::default();
    let err = store.set("build.standard", s("c++20"), 0).unwrap_err();
    assert!(err.to_display_string().contains("Topo.toml"));
}

fn gated_store() -> ConfigStore {
    let mut store = ConfigStore::default();
    store.declare("db.dsn", ItemPolicy::new().with_impact(ImpactLevel::High)).unwrap();
    store.declare("ui.theme", ItemPolicy::new().with_impact(ImpactLevel::Low)).unwrap();
    store
}

#[test]
fn high_impact_write_without_credential_rejected() {
    let mut store = gated_store();
    let err = store.set("db.dsn", s("postgres://prod"), 0).unwrap_err();
    let msg = err.to_display_string();
    assert!(matches!(err, ConfigError::WriteProtection(_)));
    assert!(msg.contains("db.dsn"));
    assert!(msg.contains("HIGH"));
    assert!(!msg.to_lowercase().contains("human"));
    assert!(!msg.to_lowercase().contains("agent"));
}

#[test]
fn high_impact_write_with_credential_succeeds() {
    let mut store = gated_store();
    store.set("db.dsn", s("postgres://prod"), 1).unwrap();
    assert_eq!(store.get("db.dsn").unwrap(), s("postgres://prod"));
}

#[test]
fn low_impact_write_needs_no_credential() {
    let mut store = gated_store();
    store.set("ui.theme", s("dark"), 0).unwrap();
    assert_eq!(store.get("ui.theme").unwrap(), s("dark"));
}

#[test]
fn undeclared_item_defaults_to_low_impact() {
    let mut store = ConfigStore::default();
    store.set("anything.unlisted", i(1), 0).unwrap();
    assert_eq!(store.get("anything.unlisted").unwrap(), i(1));
}

#[test]
fn gate_is_identity_independent() {
    let mut store_a = gated_store();
    let mut store_b = gated_store();
    assert!(store_a.set("db.dsn", s("x"), 0).is_err());
    assert!(store_b.set("db.dsn", s("x"), 0).is_err());
    store_a.set("db.dsn", s("ok"), 1).unwrap();
    store_b.set("db.dsn", s("ok"), 1).unwrap();
    assert_eq!(store_a.get("db.dsn").unwrap(), store_b.get("db.dsn").unwrap());
}

#[test]
fn refused_write_changes_nothing() {
    let mut store = gated_store();
    store.set("db.dsn", s("first"), 1).unwrap();
    assert!(store.set("db.dsn", s("second"), 0).is_err());
    assert_eq!(store.get("db.dsn").unwrap(), s("first"));
    assert!(store.set("build.x", s("y"), 5).is_err());
    assert_eq!(store.keys(), vec!["db.dsn"]);
}

#[test]
fn write_refusal_message_is_exact() {
    let mut store = gated_store();
    let err = store.set("db.dsn", s("x"), 0).unwrap_err();
    assert_eq!(
        err.to_display_string(),
        "config key 'db.dsn' is impact=HIGH; writing it requires credential level >= 1, \
         but the write presented level 0. This guard prevents accidental high-impact \
         changes; re-issue the write with a sufficient credential level if the change is \
         intended."
    );
}

#[test]
fn file_text_that_does_not_parse_is_refused_with_path() {
    let err = match ProductConfig::builder().path("cfg/topo-app.toml").build(Some("x = = 1")) {
        Err(e) => e,
        Ok(_) => panic!("malformed file must be refused"),
    };
    assert!(matches!(err, ConfigError::UnbridgedValue(_)));
    assert!(err.to_display_string().starts_with("failed to parse cfg/topo-app.toml: "));
}

#[test]
fn missing_file_is_an_empty_external_layer() {
    let pc = ProductConfig::builder().path("nowhere.toml").build(None).unwrap();
    assert!(pc.keys().is_empty());
    assert_eq!(pc.path(), Some("nowhere.toml"));
}

#[test]
fn set_on_file_backed_config_reports_unwritable_datetime_from_file() {
    let mut pc = ProductConfig::builder()
        .path("topo-app.toml")
        .build(Some("when = 1979-05-27T07:32:00Z\n"))
        .unwrap();
    let err = pc.set("other", i(1), 0).unwrap_err();
    assert!(matches!(err, ConfigError::UnbridgedValue(_)));
    assert_eq!(pc.get("other").unwrap(), i(1));
}
