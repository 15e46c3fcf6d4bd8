use ingot::model::{Class, DataModel, DataType, DefaultValue, EnumDef, Key, Meta};
use ingot::prepare::{
    collect_statistics, load_models, merge_models, resolve_variant, stamp_key_indices,
};
use ingot::strmap::StrMap;

fn key(id: &str, data_type: DataType) -> Key {
    Key {
        id: id.to_string(),
        data_type,
        default: None,
        defaults: StrMap::new(),
        enum_ref: None,
        max_size: None,
        read_only: false,
        thread_safe: false,
        persistent: false,
        event: false,
        helpers: false,
        key_index: None,
    }
}

fn class(id: &str, keys: Vec<Key>) -> Class {
    Class { id: id.to_string(), keys, namespace_name: None, namespace_id: None, class_index: None }
}

fn model(id: &str, ns: Option<u16>, enums: StrMap<EnumDef>, classes: Vec<Class>) -> DataModel {
    DataModel {
        meta: Meta { id: id.to_string(), version: "1.0.0".to_string(), doc: None, namespace_id: ns },
        enums,
        classes,
    }
}

fn values(v: &[(&str, i64)]) -> StrMap<i64> {
    let mut m = StrMap::new();
    for (n, x) in v {
        m.insert(n.to_string(), *x);
    }
    m
}

#[test]
fn variant_replaces_defaults_and_enum_values() {
    let mut k1 = key("speed", DataType::Uint8);
    k1.default = Some(DefaultValue::Integer(1));
    k1.defaults.insert("pro".to_string(), DefaultValue::Integer(9));
    let mut k2 = key("name", DataType::String);
    k2.default = Some(DefaultValue::Text("a".to_string()));
    k2.defaults.insert("lite".to_string(), DefaultValue::Text("b".to_string()));
    let mut variants = StrMap::new();
    variants.insert("pro".to_string(), values(&[("turbo", 5), ("on", 7)]));
    let mut enums = StrMap::new();
    enums.insert("mode".to_string(), EnumDef { values: values(&[("off", 0), ("on", 1)]), variants });
    enums.insert("other".to_string(), EnumDef { values: values(&[("x", 3)]), variants: StrMap::new() });
    let mut m = model("dev", None, enums, vec![class("cfg", vec![k1, k2])]);

    let counts = resolve_variant(&mut m, "pro");
    assert_eq!(counts, (1, 1));
    assert_eq!(m.classes[0].keys[0].default, Some(DefaultValue::Integer(9)));
    assert_eq!(m.classes[0].keys[1].default, Some(DefaultValue::Text("a".to_string())));
    let mode = m.enums.get("mode").unwrap();
    assert_eq!(mode.values.get("off"), None);
    assert_eq!(mode.values.get("on"), Some(&7));
    assert_eq!(mode.values.get("turbo"), Some(&5));
    assert_eq!(mode.values.len(), 2);
    assert_eq!(m.enums.get("other").unwrap().values.get("x"), Some(&3));

    // Resolving the same variant again changes nothing more.
    let again = resolve_variant(&mut m, "pro");
    assert_eq!(again, (1, 1));
    assert_eq!(m.enums.get("mode").unwrap().values.len(), 2);
    assert_eq!(m.classes[0].keys[0].default, Some(DefaultValue::Integer(9)));
}

#[test]
fn variant_values_replace_enum_values() {
    let mut variants = StrMap::new();
    variants.insert("v2".to_string(), values(&[("on", 5), ("turbo", 2)]));
    let mut enums = StrMap::new();
    enums.insert("mode".to_string(), EnumDef { values: values(&[("off", 0), ("on", 1)]), variants });
    let mut k = key("k", DataType::Uint8);
    k.default = Some(DefaultValue::Integer(0));
    let mut m = model("d", None, enums, vec![class("c", vec![k])]);
    assert_eq!(resolve_variant(&mut m, "v2"), (0, 1));
    let mode = m.enums.get("mode").unwrap();
    assert_eq!(mode.values.len(), 2);
    assert_eq!(mode.values.key_at(0), "on");
    assert_eq!(mode.values.get("on"), Some(&5));
    assert_eq!(mode.values.get("turbo"), Some(&2));
    assert_eq!(mode.values.get("off"), None);
    assert_eq!(m.classes[0].keys[0].default, Some(DefaultValue::Integer(0)));
}

#[test]
fn unknown_variant_changes_nothing() {
    let mut k = key("speed", DataType::Uint8);
    k.default = Some(DefaultValue::Integer(1));
    k.defaults.insert("pro".to_string(), DefaultValue::Integer(9));
    let mut m = model("dev", None, StrMap::new(), vec![class("cfg", vec![k])]);
    assert_eq!(resolve_variant(&mut m, "nope"), (0, 0));
    assert_eq!(m.classes[0].keys[0].default, Some(DefaultValue::Integer(1)));
}

#[test]
fn stamping_gives_positions_and_keeps_explicit_indices() {
    let mut b = key("b", DataType::Bool);
    b.key_index = Some(40);
    let mut m = model(
        "dev",
        None,
        StrMap::new(),
        vec![class("c", vec![key("a", DataType::Bool), b, key("c", DataType::Int16)])],
    );
    stamp_key_indices(&mut m);
    let idx: Vec<Option<u16>> = m.classes[0].keys.iter().map(|k| k.key_index).collect();
    assert_eq!(idx, vec![Some(0), Some(40), Some(2)]);
    // Stamping twice gives the same result.
    stamp_key_indices(&mut m);
    let idx2: Vec<Option<u16>> = m.classes[0].keys.iter().map(|k| k.key_index).collect();
    assert_eq!(idx2, idx);
}

#[test]
fn statistics_count_keys_by_type() {
    let mut ro = key("serial", DataType::String);
    ro.read_only = true;
    let m = model(
        "dev",
        None,
        StrMap::new(),
        vec![
            class("a", vec![key("x", DataType::Bool), key("y", DataType::Bool), ro]),
            class(
                "b",
                vec![
                    key("u", DataType::Uint8),
                    key("s", DataType::String),
                    key("blob", DataType::Binary),
                    key("t", DataType::Int32),
                ],
            ),
        ],
    );
    let s = collect_statistics(&m);
    assert_eq!(s.bool_count, 2);
    assert_eq!(s.u8_count, 1);
    assert_eq!(s.i8_count, 0);
    assert_eq!(s.u16_count, 0);
    assert_eq!(s.i16_count, 0);
    assert_eq!(s.u32_count, 0);
    assert_eq!(s.i32_count, 1);
    assert_eq!(s.ro_string_count, 1);
    assert_eq!(s.rw_string_count, 1);
    let counted = s.bool_count
        + s.u8_count
        + s.i8_count
        + s.u16_count
        + s.i16_count
        + s.u32_count
        + s.i32_count
        + s.ro_string_count
        + s.rw_string_count;
    // Every key but the single binary one is counted, and counted once.
    assert_eq!(counted + 1, 7);
}

#[test]
fn merge_prefixes_enums_and_records_namespaces() {
    let mut k = key("mode", DataType::Uint8);
    k.enum_ref = Some("mode".to_string());
    let mut e1 = StrMap::new();
    e1.insert("mode".to_string(), EnumDef { values: values(&[("off", 0)]), variants: StrMap::new() });
    let m1 = model("pump", Some(4), e1, vec![class("status", vec![k]), class("cfg", vec![])]);
    let mut c2 = class("status", vec![key("v", DataType::Uint16)]);
    c2.class_index = Some(9);
    let mut e2 = StrMap::new();
    e2.insert("mode".to_string(), EnumDef { values: values(&[("on", 1)]), variants: StrMap::new() });
    let m2 = model("fan", None, e2, vec![c2]);

    let merged = merge_models(vec![m1, m2]);
    assert_eq!(merged.meta.id, "unified");
    assert_eq!(merged.meta.version, "0.0.0");
    assert_eq!(merged.meta.namespace_id, None);
    assert_eq!(merged.classes.len(), 3);
    assert_eq!(merged.classes[0].namespace_name.as_deref(), Some("pump"));
    assert_eq!(merged.classes[0].namespace_id, Some(4));
    assert_eq!(merged.classes[0].class_index, Some(0));
    assert_eq!(merged.classes[1].class_index, Some(1));
    assert_eq!(merged.classes[2].namespace_name.as_deref(), Some("fan"));
    assert_eq!(merged.classes[2].namespace_id, None);
    assert_eq!(merged.classes[2].class_index, Some(9));
    assert_eq!(merged.classes[0].keys[0].enum_ref.as_deref(), Some("pump::mode"));
    assert_eq!(merged.enums.len(), 2);
    assert_eq!(merged.enums.key_at(0), "fan::mode");
    assert_eq!(merged.enums.key_at(1), "pump::mode");
    assert_eq!(merged.enums.get("pump::mode").unwrap().values.get("off"), Some(&0));
}

#[test]
fn load_keeps_a_single_model_and_merges_several() {
    let single = load_models(vec![model("only", Some(2), StrMap::new(), vec![class("c", vec![])])], false);
    assert_eq!(single.meta.id, "only");
    assert_eq!(single.meta.namespace_id, Some(2));
    assert_eq!(single.classes[0].namespace_name, None);
    // One file found in a directory is merged like several.
    let from_dir = load_models(vec![model("only", Some(2), StrMap::new(), vec![class("c", vec![])])], true);
    assert_eq!(from_dir.meta.id, "unified");
    assert_eq!(from_dir.meta.namespace_id, None);
    assert_eq!(from_dir.classes[0].namespace_name.as_deref(), Some("only"));
    assert_eq!(from_dir.classes[0].namespace_id, Some(2));
    let none = load_models(vec![], false);
    assert_eq!(none.meta.id, "unified");
    assert!(none.classes.is_empty());
}
