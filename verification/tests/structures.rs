use internetarchive_core::config::{deep_update, ConfigMap, ConfigValue};
use internetarchive_core::json::{json_equal, JsonNumber, JsonValue};
use internetarchive_core::strmap::StrMap;
use internetarchive_core::utils::delete_items_from_dict;

fn table(pairs: Vec<(&str, ConfigValue)>) -> ConfigMap {
    ConfigMap::from_pairs(pairs.into_iter().map(|(k, v)| (k.to_string(), v)).collect())
}

fn text(v: &str) -> ConfigValue {
    ConfigValue::String(v.to_string())
}

#[test]
fn merges_nested_maps_recursively() {
    let mut target = table(vec![
        ("general", ConfigValue::Table(table(vec![("secure", ConfigValue::Bool(true))]))),
        ("s3", text("old")),
    ]);
    let updates = table(vec![
        ("general", ConfigValue::Table(table(vec![("host", text("archive.org"))]))),
        ("s3", text("new")),
    ]);

    deep_update(&mut target, &updates);

    assert_eq!(
        target.get("general"),
        Some(&ConfigValue::Table(table(vec![
            ("secure", ConfigValue::Bool(true)),
            ("host", text("archive.org")),
        ])))
    );
    assert_eq!(target.get("s3"), Some(&text("new")));
}

#[test]
fn deep_update_replaces_what_is_not_a_map() {
    let mut target = table(vec![
        ("a", text("scalar")),
        ("b", ConfigValue::Table(table(vec![("x", ConfigValue::Integer(1))]))),
        ("keep", ConfigValue::List(vec![ConfigValue::Null])),
    ]);
    let updates = table(vec![
        ("a", ConfigValue::Table(table(vec![("y", ConfigValue::Integer(2))]))),
        ("b", ConfigValue::Integer(7)),
        ("c", ConfigValue::Bool(false)),
    ]);
    deep_update(&mut target, &updates);
    assert_eq!(
        target.get("a"),
        Some(&ConfigValue::Table(table(vec![("y", ConfigValue::Integer(2))])))
    );
    assert_eq!(target.get("b"), Some(&ConfigValue::Integer(7)));
    assert_eq!(target.get("c"), Some(&ConfigValue::Bool(false)));
    assert_eq!(target.get("keep"), Some(&ConfigValue::List(vec![ConfigValue::Null])));
    assert_eq!(target.len(), 4);
    let keys: Vec<&str> = target.entries.iter().map(|(k, _)| k.as_str()).collect();
    assert_eq!(keys, vec!["a", "b", "c", "keep"]);
}

#[test]
fn config_values_compare_floats_as_numbers() {
    let zero = ConfigValue::Float(0.0f64.to_bits());
    let negative_zero = ConfigValue::Float((-0.0f64).to_bits());
    assert_eq!(zero, negative_zero);
    let nan = ConfigValue::Float(f64::NAN.to_bits());
    assert_ne!(nan, nan.clone());
    assert_ne!(ConfigValue::Integer(1), ConfigValue::Float(1.0f64.to_bits()));
    let nested = ConfigValue::Table(table(vec![("k", ConfigValue::List(vec![text("v")]))]));
    assert_eq!(nested.clone(), nested);
}

#[test]
fn strmap_keeps_keys_sorted_and_unique() {
    let mut m: StrMap<i32> = StrMap::new();
    m.insert("b".to_string(), 1);
    m.insert("a".to_string(), 2);
    m.insert("c".to_string(), 3);
    m.insert("b".to_string(), 4);
    let keys: Vec<&str> = m.entries.iter().map(|(k, _)| k.as_str()).collect();
    assert_eq!(keys, vec!["a", "b", "c"]);
    assert_eq!(m.get("b"), Some(&4));
    assert_eq!(m.get("z"), None);
    assert_eq!(m.find("c"), Some(2));
    let from = StrMap::from_pairs(vec![("y".to_string(), 1), ("x".to_string(), 2), ("y".to_string(), 3)]);
    assert_eq!(from.len(), 2);
    assert_eq!(from.get("y"), Some(&3));
    assert_eq!(from.entries[0].0, "x");
}

#[test]
fn strmap_orders_keys_by_code_point() {
    let mut m: StrMap<()> = StrMap::new();
    for k in ["é", "Z", "a", "ab", ""] {
        m.insert(k.to_string(), ());
    }
    let keys: Vec<&str> = m.entries.iter().map(|(k, _)| k.as_str()).collect();
    assert_eq!(keys, vec!["", "Z", "a", "ab", "é"]);
}

#[test]
fn json_equality_matches_serde() {
    let a = JsonValue::Number(JsonNumber::Float("0.0".to_string()));
    let b = JsonValue::Number(JsonNumber::Float("-0.0".to_string()));
    assert!(json_equal(&a, &b));
    assert_ne!(
        JsonValue::Number(JsonNumber::PosInt(1)),
        JsonValue::Number(JsonNumber::Float("1.0".to_string()))
    );
    let doc = JsonValue::Array(vec![JsonValue::Null, JsonValue::Bool(true)]);
    assert_eq!(doc.clone(), doc);
    assert_ne!(doc, JsonValue::Array(vec![JsonValue::Null]));
}

#[test]
fn json_accessors() {
    let m = StrMap::from_pairs(vec![("k".to_string(), JsonValue::String("v".to_string()))]);
    let v = JsonValue::Object(m);
    assert_eq!(v.get("k").and_then(|x| x.as_str()), Some("v"));
    assert!(v.get("missing").is_none());
    assert!(v.as_object().is_some());
    assert!(v.as_array().is_none());
    assert_eq!(JsonValue::Bool(true).as_bool(), Some(true));
    assert_eq!(JsonValue::Number(JsonNumber::PosInt(9)).as_u64(), Some(9));
    assert_eq!(JsonValue::Number(JsonNumber::NegInt(-9)).as_u64(), None);
    assert!(JsonValue::Null.is_null());
}

#[test]
fn deletes_tagged_members_at_every_depth() {
    let tag = || JsonValue::String("REMOVE_TAG".to_string());
    let inner = JsonValue::Object(StrMap::from_pairs(vec![
        ("gone".to_string(), tag()),
        ("kept".to_string(), JsonValue::Bool(true)),
    ]));
    let doc = JsonValue::Object(StrMap::from_pairs(vec![
        ("a".to_string(), tag()),
        ("b".to_string(), JsonValue::Array(vec![inner, tag()])),
    ]));
    let cleaned = delete_items_from_dict(&doc, "REMOVE_TAG");
    let expected_inner = JsonValue::Object(StrMap::from_pairs(vec![(
        "kept".to_string(),
        JsonValue::Bool(true),
    )]));
    let expected = JsonValue::Object(StrMap::from_pairs(vec![(
        "b".to_string(),
        JsonValue::Array(vec![expected_inner, tag()]),
    )]));
    assert_eq!(cleaned, expected);
    assert_eq!(delete_items_from_dict(&cleaned, "REMOVE_TAG"), cleaned);
}

#[test]
fn deep_update_twice_changes_nothing() {
    let mut target = table(vec![
        ("general", ConfigValue::Table(table(vec![("secure", ConfigValue::Bool(true))]))),
        ("s3", text("old")),
    ]);
    let updates = table(vec![
        ("general", ConfigValue::Table(table(vec![("host", text("archive.org"))]))),
        ("new", ConfigValue::Table(table(vec![("k", ConfigValue::Integer(1))]))),
        ("s3", text("new")),
    ]);
    deep_update(&mut target, &updates);
    let once = ConfigValue::Table(target.clone());
    deep_update(&mut target, &updates);
    assert_eq!(ConfigValue::Table(target), once);
}
