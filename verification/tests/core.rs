use ingot::key::KeyEncoding;
use ingot::model::DataType;
use ingot::rust_kvp::{generate, Accessor};
use ingot::strings::{replace_spaces, str_lt};
use ingot::strmap::StrMap;

#[test]
fn key_encoding_packs_fields_in_their_slots() {
    let e = KeyEncoding {
        namespace: 5,
        class: 3,
        id: 17,
        data_type: DataType::Uint16.type_code(),
        thread_safe: true,
        derived: false,
        read_only: true,
    };
    let k = e.encode();
    assert_eq!(k, (5 << 23) | (1 << 22) | (1 << 20) | (4 << 16) | (3 << 10) | 17);
    assert_eq!(k & 0x3ff, 17);
    assert_eq!((k >> 10) & 0x3f, 3);
    assert_eq!((k >> 16) & 0xf, 4);
    assert_eq!((k >> 23) & 0x1ff, 5);
}

#[test]
fn key_encoding_truncates_oversized_fields() {
    let e = KeyEncoding {
        namespace: 0x200 | 1,
        class: 0x40 | 2,
        id: 0x400 | 3,
        data_type: 0x10 | 1,
        thread_safe: false,
        derived: true,
        read_only: false,
    };
    assert_eq!(e.encode(), (1 << 23) | (1 << 21) | (1 << 16) | (2 << 10) | 3);
}

#[test]
fn type_codes_and_names() {
    assert_eq!(DataType::Bool.type_code(), 1);
    assert_eq!(DataType::Binary.type_code(), 9);
    assert_eq!(DataType::Int16.mem_name(), "int16");
    assert_eq!(DataType::String.mem_name(), "string");
}

#[test]
fn string_order_follows_code_points() {
    assert!(str_lt("abc", "abd"));
    assert!(str_lt("ab", "abc"));
    assert!(!str_lt("abc", "abc"));
    assert!(str_lt("Z", "a"));
    assert!(!str_lt("b", "a"));
    assert!(str_lt("", "a"));
}

#[test]
fn spaces_become_underscores() {
    assert_eq!(replace_spaces("ENABLE CHARGING NOW"), "ENABLE_CHARGING_NOW");
    assert_eq!(replace_spaces(""), "");
}

#[test]
fn strmap_keeps_keys_sorted_and_replaces_values() {
    let mut m = StrMap::new();
    m.insert("pear".to_string(), 1);
    m.insert("apple".to_string(), 2);
    m.insert("fig".to_string(), 3);
    m.insert("apple".to_string(), 4);
    assert_eq!(m.len(), 3);
    assert_eq!(m.key_at(0), "apple");
    assert_eq!(m.key_at(1), "fig");
    assert_eq!(m.key_at(2), "pear");
    assert_eq!(m.get("apple"), Some(&4));
    assert_eq!(m.get("kiwi"), None);
    assert_eq!(m.find("pear"), Some(2));
    let prev = m.replace_value_at(1, 30);
    assert_eq!(prev, 3);
    assert_eq!(m.get("fig"), Some(&30));
}

fn acc(name: &str, hex: &str, persistent: bool) -> Accessor {
    Accessor { const_name: name.to_string(), hex_value: hex.to_string(), persistent }
}

#[test]
fn rust_backend_context_orders_constants_by_storage_kind() {
    let ints = vec![acc("DM_KEY_A", "0x1", true), acc("DM_KEY_B", "0x2", false)];
    let bools = vec![acc("DM_KEY_C", "0x3", true)];
    let bytes = vec![acc("DM_KEY_D", "0x4", false)];
    let ctx = generate(1, &ints, true, &bools, &bytes);
    let names: Vec<&str> = ctx.key_consts.iter().map(|k| k.const_name.as_str()).collect();
    assert_eq!(names, vec!["DM_KEY_A", "DM_KEY_B", "DM_KEY_C", "DM_KEY_D"]);
    assert_eq!(ctx.key_consts[2].hex_value, "0x3");
    assert_eq!(ctx.persistent_key_names, vec!["DM_KEY_A".to_string(), "DM_KEY_C".to_string()]);
    assert!(ctx.has_int && ctx.has_bool && ctx.has_bytes);
    let empty = generate(0, &vec![], false, &vec![], &vec![]);
    assert!(empty.key_consts.is_empty());
    assert!(!empty.has_int && !empty.has_bool && !empty.has_bytes);
}

use ingot::files::{dir_model_file_paths, expand_to_toml_files, is_toml_file_name, ExpandError, ModelPath};

#[test]
fn toml_extension_follows_path_rules() {
    assert!(is_toml_file_name("battery.toml"));
    assert!(is_toml_file_name("a.b.toml"));
    assert!(!is_toml_file_name(".toml"));
    assert!(!is_toml_file_name("toml"));
    assert!(!is_toml_file_name("battery.toml.bak"));
    assert!(!is_toml_file_name("battery.tom"));
    assert!(is_toml_file_name("..toml"));
}

fn entry(name: &str) -> (String, String) {
    (name.to_string(), format!("models/{name}"))
}

#[test]
fn directory_files_are_filtered_and_sorted() {
    let es = vec![entry("zeta.toml"), entry("notes.txt"), entry("alpha.toml"), entry("Beta.toml")];
    assert_eq!(
        dir_model_file_paths(&es),
        vec!["models/Beta.toml".to_string(), "models/alpha.toml".to_string(), "models/zeta.toml".to_string()]
    );
}

#[test]
fn expansion_keeps_files_and_rejects_empty_directories() {
    let paths = vec![
        ModelPath::File("one.toml".to_string()),
        ModelPath::Dir("models".to_string(), vec![entry("b.toml"), entry("a.toml")]),
        ModelPath::File("last.txt".to_string()),
    ];
    assert_eq!(
        expand_to_toml_files(&paths),
        Ok(vec![
            "one.toml".to_string(),
            "models/a.toml".to_string(),
            "models/b.toml".to_string(),
            "last.txt".to_string()
        ])
    );
    let bad = vec![
        ModelPath::File("one.toml".to_string()),
        ModelPath::Dir("empty".to_string(), vec![entry("readme.md")]),
        ModelPath::Dir("also".to_string(), vec![]),
    ];
    assert_eq!(expand_to_toml_files(&bad), Err(ExpandError::NoTomlFiles("empty".to_string())));
}
