use ingot::key::KeyEncoding;
use ingot::manifest::{convert_default, generate_yaml_manifest, YamlDefault};
use ingot::model::{Class, DataModel, DataType, DefaultValue, EnumDef, Key, Meta};
use ingot::strmap::StrMap;

fn key(id: &str, data_type: DataType, default: Option<DefaultValue>) -> Key {
    Key {
        id: id.to_string(),
        data_type,
        default,
        defaults: StrMap::new(),
        enum_ref: None,
        max_size: None,
        read_only: false,
        thread_safe: false,
        persistent: false,
        event: false,
        helpers: false,
        key_index: None,
    }
}

fn class(id: &str, keys: Vec<Key>) -> Class {
    Class { id: id.to_string(), keys, namespace_name: None, namespace_id: None, class_index: None }
}

fn enum_def(values: &[(&str, i64)]) -> EnumDef {
    let mut m = StrMap::new();
    for (n, v) in values {
        m.insert(n.to_string(), *v);
    }
    EnumDef { values: m, variants: StrMap::new() }
}

fn battery_like() -> DataModel {
    let mut enums = StrMap::new();
    enums.insert(
        "level".to_string(),
        enum_def(&[("unknown", 0), ("low", 1), ("full", 2)]),
    );
    enums.insert(
        "state".to_string(),
        enum_def(&[("idle", 0), ("enable_charging", 1)]),
    );
    let mut level = key("level", DataType::Uint8, Some(DefaultValue::Integer(0)));
    level.enum_ref = Some("level".to_string());
    let mut state = key("state", DataType::Uint8, None);
    state.enum_ref = Some("state".to_string());
    let voltage = key("voltage", DataType::Uint16, Some(DefaultValue::Integer(3700)));
    DataModel {
        meta: Meta { id: "battery".to_string(), version: "1.0.0".to_string(), doc: None, namespace_id: None },
        enums,
        classes: vec![class("status", vec![voltage, level, state])],
    }
}

#[test]
fn default_values_match_types() {
    assert_eq!(convert_default(&Some(DefaultValue::Boolean(true)), DataType::Bool), YamlDefault::Bool(true));
    assert_eq!(convert_default(&Some(DefaultValue::Integer(42)), DataType::Uint16), YamlDefault::Number(42));
    assert_eq!(
        convert_default(&Some(DefaultValue::Text("hello".into())), DataType::String),
        YamlDefault::Str("hello".into())
    );
    // No default -> type-appropriate zero
    assert_eq!(convert_default(&None, DataType::Bool), YamlDefault::Bool(false));
    assert_eq!(convert_default(&None, DataType::Uint32), YamlDefault::Number(0));
    assert_eq!(convert_default(&None, DataType::String), YamlDefault::Str(String::new()));
}

#[test]
fn float_and_other_defaults_convert() {
    assert_eq!(convert_default(&Some(DefaultValue::FloatAsInteger(3)), DataType::Int32), YamlDefault::Number(3));
    assert_eq!(convert_default(&Some(DefaultValue::Other), DataType::Binary), YamlDefault::Str(String::new()));
    assert_eq!(convert_default(&Some(DefaultValue::Other), DataType::Int8), YamlDefault::Number(0));
}

#[test]
fn manifest_names_and_types_for_battery_like_model() {
    let m = battery_like();
    let r = generate_yaml_manifest(&m, 0, "0.1.0");
    assert_eq!(r.metadata.ingot_version, "0.1.0");
    assert_eq!(r.namespaces.len(), 1);
    assert_eq!(r.namespaces[0].name, "battery");
    let c = &r.namespaces[0].classes[0];
    assert_eq!(c.name, "status");
    assert_eq!(c.data[0].define_name, "BATTERY_STATUS_VOLTAGE");
    assert_eq!(c.data[0].key_type.mem, "uint16");
    assert_eq!(c.data[0].key_type.default_value, YamlDefault::Number(3700));
    assert!(c.data[0].enum_values.is_none());
    let level = c.data[1].enum_values.as_ref().unwrap();
    let names: Vec<(i64, &str)> = level.iter().map(|e| (e.value, e.name.as_str())).collect();
    assert_eq!(
        names,
        vec![(0, "BATTERY_STATUS_LEVEL_UNKNOWN"), (1, "BATTERY_STATUS_LEVEL_LOW"), (2, "BATTERY_STATUS_LEVEL_FULL")]
    );
    let state = c.data[2].enum_values.as_ref().unwrap();
    assert_eq!(state[1].name, "BATTERY_STATUS_STATE_ENABLE_CHARGING");
    assert_eq!(c.data[2].key_type.default_value, YamlDefault::Number(0));
}

#[test]
fn manifest_key_ids_are_encoded_and_non_zero() {
    let m = battery_like();
    let r = generate_yaml_manifest(&m, 0, "x");
    for (i, k) in r.namespaces[0].classes[0].data.iter().enumerate() {
        assert!(k.id > 0, "encoded key ID should be non-zero");
        let expected = KeyEncoding {
            namespace: 0,
            class: 0,
            id: i as u16,
            data_type: m.classes[0].keys[i].data_type.type_code(),
            thread_safe: false,
            derived: false,
            read_only: false,
        }
        .encode();
        assert_eq!(k.id, expected);
    }
}

#[test]
fn manifest_groups_classes_by_namespace_in_name_order() {
    let mut a = class("alpha", vec![key("x", DataType::Bool, None)]);
    a.namespace_name = Some("zeta".to_string());
    a.namespace_id = Some(3);
    let b = class("beta", vec![key("y", DataType::Int8, None)]);
    let mut c = class("gamma", vec![key("z", DataType::String, None)]);
    c.namespace_name = Some("zeta".to_string());
    let m = DataModel {
        meta: Meta { id: "base".to_string(), version: "1".to_string(), doc: None, namespace_id: None },
        enums: StrMap::new(),
        classes: vec![a, b, c],
    };
    let r = generate_yaml_manifest(&m, 7, "v");
    let names: Vec<&str> = r.namespaces.iter().map(|n| n.name.as_str()).collect();
    assert_eq!(names, vec!["base", "zeta"]);
    let zeta: Vec<&str> = r.namespaces[1].classes.iter().map(|c| c.name.as_str()).collect();
    assert_eq!(zeta, vec!["alpha", "gamma"]);
    assert_eq!(r.namespaces[1].classes[1].data[0].define_name, "ZETA_GAMMA_Z");
    assert_eq!(r.namespaces[1].classes[1].data[0].key_type.default_value, YamlDefault::Str(String::new()));
    // class "alpha" carries namespace id 3; "beta" falls back to 7.
    assert_eq!(r.namespaces[1].classes[0].data[0].id >> 23, 3);
    assert_eq!(r.namespaces[0].classes[0].data[0].id >> 23, 7);
    // "gamma" is the third class of the model: class index 2.
    assert_eq!((r.namespaces[1].classes[1].data[0].id >> 10) & 0x3f, 2);
}

#[test]
fn duplicate_enum_numbers_keep_the_later_name() {
    let mut enums = StrMap::new();
    enums.insert("mode".to_string(), enum_def(&[("alpha", 1), ("beta", 1), ("gamma", 0)]));
    let mut k = key("mode", DataType::Uint8, None);
    k.enum_ref = Some("mode".to_string());
    let m = DataModel {
        meta: Meta { id: "dev".to_string(), version: "1".to_string(), doc: None, namespace_id: None },
        enums,
        classes: vec![class("cfg", vec![k])],
    };
    let r = generate_yaml_manifest(&m, 0, "v");
    let ev = r.namespaces[0].classes[0].data[0].enum_values.as_ref().unwrap();
    let got: Vec<(i64, &str)> = ev.iter().map(|e| (e.value, e.name.as_str())).collect();
    assert_eq!(got, vec![(0, "DEV_CFG_MODE_GAMMA"), (1, "DEV_CFG_MODE_BETA")]);
}

#[test]
fn missing_enum_gives_no_inlined_values() {
    let mut k = key("mode", DataType::Uint8, None);
    k.enum_ref = Some("nowhere".to_string());
    k.max_size = Some(12);
    k.helpers = true;
    let m = DataModel {
        meta: Meta { id: "dev".to_string(), version: "1".to_string(), doc: None, namespace_id: None },
        enums: StrMap::new(),
        classes: vec![class("cfg", vec![k])],
    };
    let r = generate_yaml_manifest(&m, 0, "v");
    let e = &r.namespaces[0].classes[0].data[0];
    assert!(e.enum_values.is_none());
    assert_eq!(e.max_size, 12);
    assert!(e.generate_helpers);
    assert_eq!(e.name, "mode");
}

#[test]
fn manifest_is_the_same_on_every_build() {
    let m = battery_like();
    assert_eq!(generate_yaml_manifest(&m, 3, "v"), generate_yaml_manifest(&m, 3, "v"));
}
