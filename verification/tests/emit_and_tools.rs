//! The TOML writer's exact output and the check's decisions.

use topo::app::App;
use topo::check::{check_project_name, check_verdict, contains_str, topo_toml_text};
use topo::config_model::{ConfigError, ConfigValue, Fields};
use topo::schema::{scalar_topo_of, TypeRef};
use topo::strmap::StrMap;
use topo::toml_emit::{serialize_flat, toml_scalar};

fn map(pairs: Vec<(&str, ConfigValue)>) -> StrMap<ConfigValue> {
    let mut m = StrMap::new();
    for (k, v) in pairs {
        m.insert(k.to_string(), v);
    }
    m
}

fn s(v: &str) -> ConfigValue {
    ConfigValue::Str(v.to_string())
}

fn i(v: i64) -> ConfigValue {
    ConfigValue::Int(v)
}

#[test]
fn scalar_texts() {
    assert_eq!(toml_scalar(&ConfigValue::Bool(true)).unwrap(), "true");
    assert_eq!(toml_scalar(&ConfigValue::Bool(false)).unwrap(), "false");
    assert_eq!(toml_scalar(&i(-42)).unwrap(), "-42");
    assert_eq!(toml_scalar(&i(i64::MIN)).unwrap(), "-9223372036854775808");
    assert_eq!(toml_scalar(&ConfigValue::Float(format!("{:?}", 1.0f64))).unwrap(), "1.0");
    assert_eq!(toml_scalar(&s("a\"b\\c\nd\te")).unwrap(), "\"a\\\"b\\\\c\\nd\\te\"");
    assert_eq!(toml_scalar(&ConfigValue::Array(vec![i(1), s("x")])).unwrap(), "[1, \"x\"]");
    assert_eq!(toml_scalar(&ConfigValue::Array(vec![])).unwrap(), "[]");
    let mut f = Fields::new();
    f.insert("b".to_string(), i(2));
    f.insert("a".to_string(), s("y"));
    assert_eq!(toml_scalar(&ConfigValue::Record(f)).unwrap(), "{a = \"y\", b = 2}");
}

#[test]
fn datetime_is_refused_by_the_writer() {
    let err = toml_scalar(&ConfigValue::Array(vec![ConfigValue::Datetime("2026-01-01".to_string())]))
        .unwrap_err();
    assert!(matches!(err, ConfigError::UnbridgedValue(_)));
    assert_eq!(
        err.to_display_string(),
        "datetime values have no stdlib bridge and must be rejected by the model before serialisation"
    );
}

#[test]
fn serialize_flat_nests_and_sorts() {
    let flat = map(vec![
        ("z", i(1)),
        ("a.b.c", s("deep")),
        ("a.x", ConfigValue::Bool(true)),
        ("m", i(2)),
    ]);
    assert_eq!(
        serialize_flat(&flat).unwrap(),
        "m = 2\nz = 1\n\n[a]\nx = true\n\n[a.b]\nc = \"deep\"\n"
    );
    assert_eq!(serialize_flat(&StrMap::new()).unwrap(), "");
}

#[test]
fn serialize_flat_without_root_values_starts_with_a_section() {
    let flat = map(vec![("net.host", s("h"))]);
    assert_eq!(serialize_flat(&flat).unwrap(), "[net]\nhost = \"h\"\n");
}

#[test]
fn a_value_key_that_is_also_a_table_prefix_becomes_the_table() {
    let flat = map(vec![("a", i(1)), ("a.b", i(2))]);
    assert_eq!(serialize_flat(&flat).unwrap(), "[a]\nb = 2\n");
}

#[test]
fn check_project_name_and_toml() {
    assert_eq!(check_project_name(&App::new("orders")), "orders");
    assert_eq!(check_project_name(&App::new("")), "topo_app");
    let text = topo_toml_text("orders");
    assert!(text.starts_with("[project]\nname = \"orders\"\n\n[topo]\nroot = \"topo/app.topo\"\n"));
    assert!(text.ends_with("[completeness]\nignore_constructors = true\nignore_main = true\n"));
    assert!(text.contains("[purity]\nmode = \"force\"\n"));
}

#[test]
fn verdict_reads_the_output_not_the_exit_code() {
    let pass = check_verdict(Some(0), "...\nResult: PASS\n".to_string(), String::new());
    assert!(pass.passed);
    assert_eq!(pass.returncode, 0);
    let fail = check_verdict(Some(0), "Result: FAIL".to_string(), "e".to_string());
    assert!(!fail.passed);
    assert_eq!(fail.stderr, "e");
    let killed = check_verdict(None, String::new(), String::new());
    assert_eq!(killed.returncode, -1);
    assert!(contains_str("abc", ""));
    assert!(!contains_str("ab", "abc"));
}

#[test]
fn config_scalars_spell_as_rust_host_types() {
    assert_eq!(scalar_topo_of(&ConfigValue::Bool(true)), Some("bool"));
    assert_eq!(scalar_topo_of(&i(1)), Some("i64"));
    assert_eq!(scalar_topo_of(&ConfigValue::Float("0.5".to_string())), Some("f64"));
    assert_eq!(scalar_topo_of(&s("x")), Some("string"));
    assert_eq!(scalar_topo_of(&ConfigValue::Array(vec![])), None);
    assert_eq!(TypeRef::Scalar("x".to_string()).topo(), "x");
}

#[test]
fn written_text_ignores_the_order_keys_were_set_in() {
    let a = map(vec![("net.port", i(80)), ("log", s("x")), ("net.host", s("h"))]);
    let b = map(vec![("net.host", s("h")), ("net.port", i(80)), ("log", s("x"))]);
    assert_eq!(serialize_flat(&a).unwrap(), serialize_flat(&b).unwrap());
    assert_eq!(serialize_flat(&a).unwrap(), "log = \"x\"\n\n[net]\nhost = \"h\"\nport = 80\n");
}
