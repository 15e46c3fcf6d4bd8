//! The resolved model manifest (`dm_full.yaml`) that downstream tools read:
//! namespaces in name order, their classes, and for every key its define
//! name, encoded identifier, inlined enum values, default and storage type.

use vstd::prelude::*;
use crate::key::{KeyEncoding, spec_encode};
use crate::model::{Class, DataModel, DataType, DefaultValue, Key, spec_mem_name, spec_type_code};
use crate::strings::{replace_spaces, seq_lt, spaces_to_underscores, str_to_uppercase, to_uppercase};
use crate::strmap::StrMap;

verus! {

/// A default value as the manifest writes it.
#[derive(Clone, Debug, PartialEq)]
pub enum YamlDefault {
    Bool(bool),
    Number(i64),
    Str(String),
}

/// One inlined enum value: the number and its full define name.
#[derive(Clone, Debug, PartialEq)]
pub struct EnumValueEntry {
    pub value: i64,
    pub name: String,
}

/// Storage description of a key.
#[derive(Clone, Debug, PartialEq)]
pub struct KeyTypeEntry {
    pub default_value: YamlDefault,
    pub mem: String,
}

/// One key of the manifest.
#[derive(Clone, Debug, PartialEq)]
pub struct KeyEntry {
    pub define_name: String,
    /// The key's enum values, by increasing number.
    pub enum_values: Option<Vec<EnumValueEntry>>,
    pub generate_helpers: bool,
    pub id: u32,
    pub max_size: usize,
    pub name: String,
    pub key_type: KeyTypeEntry,
}

/// One class of the manifest.
#[derive(Clone, Debug, PartialEq)]
pub struct ClassEntry {
    pub data: Vec<KeyEntry>,
    pub name: String,
}

/// One namespace of the manifest.
#[derive(Clone, Debug, PartialEq)]
pub struct NamespaceEntry {
    pub classes: Vec<ClassEntry>,
    pub name: String,
}

/// Manifest header.
#[derive(Clone, Debug, PartialEq)]
pub struct Metadata {
    pub ingot_version: String,
}

/// The whole manifest.
#[derive(Clone, Debug, PartialEq)]
pub struct DmFullManifest {
    pub metadata: Metadata,
    pub namespaces: Vec<NamespaceEntry>,
}

// ---------------------------------------------------------------------------
// Defaults

/// `r` is the manifest form of `default` for a key of type `t`: the value
/// itself where there is one (a float as its integer part), else the
/// type's zero: `false`, the empty string, or `0`.
pub open spec fn default_converted(r: YamlDefault, default: Option<DefaultValue>, t: DataType) -> bool {
    match default {
        Some(DefaultValue::Boolean(b)) => r == YamlDefault::Bool(b),
        Some(DefaultValue::Integer(i)) => r == YamlDefault::Number(i),
        Some(DefaultValue::FloatAsInteger(i)) => r == YamlDefault::Number(i),
        Some(DefaultValue::Text(s)) => r matches YamlDefault::Str(x) && x@ == s@,
        _ => match t {
            DataType::Bool => r == YamlDefault::Bool(false),
            DataType::String | DataType::Binary => r matches YamlDefault::Str(x) && x@
                == Seq::<char>::empty(),
            _ => r == YamlDefault::Number(0),
        },
    }
}

/// Converts a key's default into its manifest form.
pub fn convert_default(default: &Option<DefaultValue>, data_type: DataType) -> (r: YamlDefault)
    ensures
        default_converted(r, *default, data_type),
{
    match default {
        Some(DefaultValue::Boolean(b)) => YamlDefault::Bool(*b),
        Some(DefaultValue::Integer(i)) => YamlDefault::Number(*i),
        Some(DefaultValue::FloatAsInteger(i)) => YamlDefault::Number(*i),
        Some(DefaultValue::Text(s)) => YamlDefault::Str(s.clone()),
        _ => match data_type {
            DataType::Bool => YamlDefault::Bool(false),
            DataType::String | DataType::Binary => YamlDefault::Str(String::new()),
            _ => YamlDefault::Number(0),
        },
    }
}

// ---------------------------------------------------------------------------
// Enum values

/// The numbers of the first `n` values of an enum, each mapped to the
/// key's define name, `_`, and the value's upper-cased name; where two
/// names share a number the later name (in name order) wins.
pub open spec fn enum_name_map(values: StrMap<i64>, prefix: Seq<char>, n: int) -> Map<i64, Seq<char>>
    decreases n,
{
    if n <= 0 {
        Map::empty()
    } else {
        enum_name_map(values, prefix, n - 1).insert(
            values.value_seq()[n - 1],
            prefix + "_"@ + str_to_uppercase(values.key_seq()[n - 1]),
        )
    }
}

/// `v` lists the map `m` by strictly increasing number.
pub open spec fn entries_list_map(v: Seq<EnumValueEntry>, m: Map<i64, Seq<char>>) -> bool {
    &&& forall|i: int, j: int| 0 <= i < j < v.len() ==> v[i].value < v[j].value
    &&& forall|i: int|
        0 <= i < v.len() ==> #[trigger] m.dom().contains(v[i].value) && m[v[i].value] == v[i].name@
    &&& forall|x: i64| #[trigger] m.dom().contains(x) ==> exists|i: int| 0 <= i < v.len() && v[i].value == x
}

/// The inlined values of an enum, for a key whose define name is `prefix`.
fn enum_value_entries(values: &StrMap<i64>, prefix: &String) -> (r: Vec<EnumValueEntry>)
    ensures
        entries_list_map(r@, enum_name_map(*values, prefix@, values.key_seq().len() as int)),
{
    proof {
        values.lemma_lengths();
    }
    let n = values.len();
    let mut r: Vec<EnumValueEntry> = Vec::new();
    let mut e: usize = 0;
    while e < n
        invariant
            n == values.key_seq().len(),
            n == values.value_seq().len(),
            e <= n,
            entries_list_map(r@, enum_name_map(*values, prefix@, e as int)),
        decreases n - e,
    {
        let val = *values.value_at(e);
        let upper = to_uppercase(values.key_at(e).as_str());
        let mut name = prefix.clone();
        name.append("_");
        name.append(upper.as_str());
        let ghost m0 = enum_name_map(*values, prefix@, e as int);
        let ghost r0 = r@;
        let len = r.len();
        let mut i: usize = 0;
        while i < len && r[i].value < val
            invariant
                len == r@.len(),
                i <= len,
                forall|t: int| 0 <= t < i ==> (#[trigger] r@[t]).value < val,
            decreases len - i,
        {
            i = i + 1;
        }
        let ghost nm = name@;
        let entry = EnumValueEntry { value: val, name };
        if i < len && r[i].value == val {
            r.set(i, entry);
            proof {
                assert forall|x: i64| #[trigger] m0.insert(val, nm).dom().contains(x) implies exists|t: int|
                    0 <= t < r@.len() && r@[t].value == x by {
                    if x != val {
                        let t = choose|t: int| 0 <= t < r0.len() && r0[t].value == x;
                        assert(r@[t].value == x);
                    } else {
                        assert(r@[i as int].value == x);
                    }
                }
            }
        } else {
            r.insert(i, entry);
            proof {
                assert forall|a: int, b: int| 0 <= a < b < r@.len() implies r@[a].value < r@[b].value by {
                    if a < i && b > i {
                        assert(r0[a].value < val);
                        if b - 1 > i {
                            assert(r0[i as int].value < r0[b - 1].value);
                        }
                    } else if a == i && b > i + 1 {
                        assert(r0[i as int].value < r0[b - 1].value);
                    }
                }
                assert forall|t: int| 0 <= t < r@.len() implies #[trigger] m0.insert(val, nm).dom().contains(r@[t].value)
                    && m0.insert(val, nm)[r@[t].value] == r@[t].name@ by {
                    if t < i {
                        assert(r@[t] == r0[t]);
                        assert(m0.dom().contains(r0[t].value));
                    } else if t > i {
                        assert(r@[t] == r0[t - 1]);
                        assert(m0.dom().contains(r0[t - 1].value));
                        if r0[t - 1].value == val {
                            if t - 1 > i {
                                assert(r0[i as int].value < r0[t - 1].value);
                            }
                        }
                    }
                }
                assert forall|x: i64| #[trigger] m0.insert(val, nm).dom().contains(x) implies exists|t: int|
                    0 <= t < r@.len() && r@[t].value == x by {
                    if x != val {
                        let t = choose|t: int| 0 <= t < r0.len() && r0[t].value == x;
                        if t < i {
                            assert(r@[t].value == x);
                        } else {
                            assert(r@[t + 1].value == x);
                        }
                    } else {
                        assert(r@[i as int].value == x);
                    }
                }
            }
        }
        proof {
            assert(enum_name_map(*values, prefix@, e + 1) == m0.insert(val, nm));
        }
        e = e + 1;
    }
    r
}

// ---------------------------------------------------------------------------
// Keys and classes

/// The namespace a class belongs to: its own, or else the model's.
pub open spec fn spec_ns_name(model: DataModel, c: Class) -> Seq<char> {
    match c.namespace_name {
        Some(n) => n@,
        None => model.meta.id@,
    }
}

/// The namespace id of a class: its own, or else the fallback `ns_id`.
pub open spec fn spec_ns_id(c: Class, ns_id: u16) -> u16 {
    match c.namespace_id {
        Some(n) => n,
        None => ns_id,
    }
}

/// The index of the class at position `pos`: its own, or else the position.
pub open spec fn spec_class_index(c: Class, pos: int) -> u8 {
    match c.class_index {
        Some(x) => x,
        None => (pos % 256) as u8,
    }
}

/// The id of the key at position `kpos`: its own index, or else the position.
pub open spec fn spec_key_id(k: Key, kpos: int) -> u16 {
    match k.key_index {
        Some(x) => x,
        None => (kpos % 65536) as u16,
    }
}

/// The fields that a key's identifier encodes.
pub open spec fn spec_key_encoding(c: Class, pos: int, k: Key, kpos: int, ns_id: u16) -> KeyEncoding {
    KeyEncoding {
        namespace: spec_ns_id(c, ns_id),
        class: spec_class_index(c, pos),
        id: spec_key_id(k, kpos),
        data_type: spec_type_code(k.data_type),
        thread_safe: k.thread_safe,
        derived: false,
        read_only: k.read_only,
    }
}

/// `NAMESPACE_CLASS_KEY`, each part upper-cased, spaces in the key's name
/// turned into underscores.
pub open spec fn spec_define_name(model: DataModel, c: Class, k: Key) -> Seq<char> {
    str_to_uppercase(spec_ns_name(model, c)) + "_"@ + str_to_uppercase(c.id@) + "_"@
        + spaces_to_underscores(str_to_uppercase(k.id@))
}

/// The inlined enum values of a key whose define name is `define_name`:
/// none without an enum reference or when the model has no such enum.
pub open spec fn enum_values_ok(r: Option<Vec<EnumValueEntry>>, model: DataModel, k: Key, define_name: Seq<char>) -> bool {
    match k.enum_ref {
        None => r is None,
        Some(e) => if model.enums@.dom().contains(e@) {
            let values = model.enums@[e@].values;
            r matches Some(v) && entries_list_map(
                v@,
                enum_name_map(values, define_name, values.key_seq().len() as int),
            )
        } else {
            r is None
        },
    }
}

/// `e` is the manifest entry of key `k` at position `kpos` of class `c`,
/// which stands at position `pos` of the model.
pub open spec fn key_entry_ok(e: KeyEntry, model: DataModel, ns_id: u16, c: Class, pos: int, k: Key, kpos: int) -> bool {
    &&& e.define_name@ == spec_define_name(model, c, k)
    &&& enum_values_ok(e.enum_values, model, k, e.define_name@)
    &&& e.generate_helpers == k.helpers
    &&& e.id == spec_encode(spec_key_encoding(c, pos, k, kpos, ns_id))
    &&& e.max_size == match k.max_size {
        Some(m) => m,
        None => 0,
    }
    &&& e.name@ == k.id@
    &&& default_converted(e.key_type.default_value, k.default, k.data_type)
    &&& e.key_type.mem@ == spec_mem_name(k.data_type)
}

/// `ce` is the manifest entry of the class at position `pos`.
pub open spec fn class_entry_ok(ce: ClassEntry, model: DataModel, ns_id: u16, pos: int) -> bool {
    let c = model.classes@[pos];
    &&& ce.name@ == c.id@
    &&& ce.data@.len() == c.keys@.len()
    &&& forall|kpos: int|
        0 <= kpos < c.keys@.len() ==> key_entry_ok(
            #[trigger] ce.data@[kpos],
            model,
            ns_id,
            c,
            pos,
            c.keys@[kpos],
            kpos,
        )
}

/// Builds the manifest entry of key `kpos` of the class at `pos`.
fn build_key_entry(
    model: &DataModel,
    ns_id: u16,
    pos: usize,
    kpos: usize,
    ns_upper: &String,
    class_upper: &String,
) -> (e: KeyEntry)
    requires
        model.wf(),
        pos < model.classes@.len(),
        kpos < model.classes@[pos as int].keys@.len(),
        ns_upper@ == str_to_uppercase(spec_ns_name(*model, model.classes@[pos as int])),
        class_upper@ == str_to_uppercase(model.classes@[pos as int].id@),
    ensures
        key_entry_ok(
            e,
            *model,
            ns_id,
            model.classes@[pos as int],
            pos as int,
            model.classes@[pos as int].keys@[kpos as int],
            kpos as int,
        ),
{
    let class = &model.classes[pos];
    let key = &class.keys[kpos];
    let encoding = KeyEncoding {
        namespace: match class.namespace_id {
            Some(n) => n,
            None => ns_id,
        },
        class: match class.class_index {
            Some(x) => x,
            None => (pos % 256) as u8,
        },
        id: match key.key_index {
            Some(x) => x,
            None => (kpos % 65536) as u16,
        },
        data_type: key.data_type.type_code(),
        thread_safe: key.thread_safe,
        derived: false,
        read_only: key.read_only,
    };
    let id = encoding.encode();
    let mut define_name = ns_upper.clone();
    define_name.append("_");
    define_name.append(class_upper.as_str());
    define_name.append("_");
    let key_upper = to_uppercase(key.id.as_str());
    let key_part = replace_spaces(key_upper.as_str());
    define_name.append(key_part.as_str());
    let enum_values = match &key.enum_ref {
        Some(enum_name) => match model.enums.get(enum_name.as_str()) {
            Some(def) => Some(enum_value_entries(&def.values, &define_name)),
            None => None,
        },
        None => None,
    };
    let default_value = convert_default(&key.default, key.data_type);
    let max_size = match key.max_size {
        Some(m) => m,
        None => 0,
    };
    KeyEntry {
        define_name,
        enum_values,
        generate_helpers: key.helpers,
        id,
        max_size,
        name: key.id.clone(),
        key_type: KeyTypeEntry { default_value, mem: key.data_type.mem_name() },
    }
}

/// Builds the manifest entry of the class at `pos`.
fn build_class_entry(model: &DataModel, ns_id: u16, pos: usize, ns_upper: &String) -> (ce: ClassEntry)
    requires
        model.wf(),
        pos < model.classes@.len(),
        ns_upper@ == str_to_uppercase(spec_ns_name(*model, model.classes@[pos as int])),
    ensures
        class_entry_ok(ce, *model, ns_id, pos as int),
{
    let class = &model.classes[pos];
    let class_upper = to_uppercase(class.id.as_str());
    let nk = class.keys.len();
    let mut data: Vec<KeyEntry> = Vec::new();
    let mut kpos: usize = 0;
    while kpos < nk
        invariant
            model.wf(),
            pos < model.classes@.len(),
            *class == model.classes@[pos as int],
            nk == class.keys@.len(),
            kpos <= nk,
            ns_upper@ == str_to_uppercase(spec_ns_name(*model, model.classes@[pos as int])),
            class_upper@ == str_to_uppercase(model.classes@[pos as int].id@),
            data@.len() == kpos,
            forall|t: int|
                0 <= t < kpos ==> key_entry_ok(
                    #[trigger] data@[t],
                    *model,
                    ns_id,
                    *class,
                    pos as int,
                    class.keys@[t],
                    t,
                ),
        decreases nk - kpos,
    {
        let e = build_key_entry(model, ns_id, pos, kpos, ns_upper, &class_upper);
        data.push(e);
        kpos = kpos + 1;
    }
    ClassEntry { data, name: class.id.clone() }
}

// ---------------------------------------------------------------------------
// Namespaces

/// Positions, among the first `n` classes of the model, of the classes in
/// namespace `name`, in model order.
pub open spec fn ns_positions(model: DataModel, name: Seq<char>, n: int) -> Seq<int>
    decreases n,
{
    if n <= 0 {
        Seq::empty()
    } else {
        let r = ns_positions(model, name, n - 1);
        if spec_ns_name(model, model.classes@[n - 1]) == name {
            r.push(n - 1)
        } else {
            r
        }
    }
}

/// `v` holds the class entries of the classes at `ps`, in that order.
pub open spec fn group_ok(v: Seq<ClassEntry>, ps: Seq<int>, model: DataModel, ns_id: u16) -> bool {
    &&& v.len() == ps.len()
    &&& forall|c: int| 0 <= c < v.len() ==> class_entry_ok(#[trigger] v[c], model, ns_id, ps[c])
}

/// `r` is the manifest of `model`: the given version; one namespace per
/// distinct namespace of the classes, in strictly increasing name order;
/// and in each namespace the entries of its classes, in model order.
pub open spec fn manifest_ok(r: DmFullManifest, model: DataModel, ns_id: u16, version: Seq<char>) -> bool {
    let ns = r.namespaces@;
    let n = model.classes@.len() as int;
    &&& r.metadata.ingot_version@ == version
    &&& forall|a: int, b: int| 0 <= a < b < ns.len() ==> seq_lt(ns[a].name@, ns[b].name@)
    &&& forall|j: int| 0 <= j < ns.len() ==> ns_positions(model, (#[trigger] ns[j]).name@, n).len() > 0
    &&& forall|p: int|
        0 <= p < n ==> exists|j: int|
            0 <= j < ns.len() && (#[trigger] ns[j]).name@ == spec_ns_name(model, #[trigger] model.classes@[p])
    &&& forall|j: int|
        0 <= j < ns.len() ==> group_ok(
            (#[trigger] ns[j]).classes@,
            ns_positions(model, ns[j].name@, n),
            model,
            ns_id,
        )
}

/// A class at a position before `n` puts its namespace among the
/// positions' namespaces.
proof fn lemma_ns_positions_nonempty(model: DataModel, n: int, p: int)
    requires
        0 <= p < n <= model.classes@.len(),
    ensures
        ns_positions(model, spec_ns_name(model, model.classes@[p]), n).len() > 0,
    decreases n,
{
    let name = spec_ns_name(model, model.classes@[p]);
    if p < n - 1 {
        lemma_ns_positions_nonempty(model, n - 1, p);
    }
}

/// Builds the manifest of the model: classes grouped by namespace (a
/// class's own namespace, or else the model's), namespaces in name order;
/// each key with its define name, encoded identifier (the namespace id of
/// its class, or else `ns_id`), inlined enum values, default and type name.
pub fn generate_yaml_manifest(model: &DataModel, ns_id: u16, version: &str) -> (r: DmFullManifest)
    requires
        model.wf(),
    ensures
        manifest_ok(r, *model, ns_id, version@),
{
    let nc = model.classes.len();
    let mut groups: StrMap<Vec<ClassEntry>> = StrMap::new();
    let mut pos: usize = 0;
    while pos < nc
        invariant
            model.wf(),
            nc == model.classes@.len(),
            pos <= nc,
            groups.wf(),
            forall|k: Seq<char>| #[trigger] groups@.dom().contains(k) <==> ns_positions(*model, k, pos as int).len() > 0,
            forall|k: Seq<char>|
                #[trigger] groups@.dom().contains(k) ==> group_ok(
                    groups@[k]@,
                    ns_positions(*model, k, pos as int),
                    *model,
                    ns_id,
                ),
        decreases nc - pos,
    {
        let class = &model.classes[pos];
        let ns_name = match &class.namespace_name {
            Some(n) => n.clone(),
            None => model.meta.id.clone(),
        };
        let ns_upper = to_uppercase(ns_name.as_str());
        let entry = build_class_entry(model, ns_id, pos, &ns_upper);
        let ghost name = ns_name@;
        let ghost g0 = groups@;
        match groups.find(ns_name.as_str()) {
            Some(t) => {
                proof {
                    groups.lemma_view();
                }
                let mut v = groups.replace_value_at(t, Vec::new());
                assert(v == g0[name]);
                v.push(entry);
                let ghost vv = v;
                groups.replace_value_at(t, v);
                assert(groups@[name] == vv);
            },
            None => {
                let mut v: Vec<ClassEntry> = Vec::new();
                v.push(entry);
                groups.insert(ns_name, v);
            },
        }
        proof {
            assert forall|k: Seq<char>| #[trigger] groups@.dom().contains(k) <==> ns_positions(*model, k, pos + 1).len() > 0 by {
                if k != name {
                    assert(ns_positions(*model, k, pos + 1) == ns_positions(*model, k, pos as int));
                }
            }
            assert forall|k: Seq<char>| #[trigger] groups@.dom().contains(k) implies group_ok(
                groups@[k]@,
                ns_positions(*model, k, pos + 1),
                *model,
                ns_id,
            ) by {
                if k != name {
                    assert(ns_positions(*model, k, pos + 1) == ns_positions(*model, k, pos as int));
                } else {
                    let ps = ns_positions(*model, k, pos + 1);
                    let v = groups@[k]@;
                    assert(ps == ns_positions(*model, k, pos as int).push(pos as int));
                    if g0.dom().contains(k) {
                        assert(v == g0[k]@.push(entry));
                        assert forall|c: int| 0 <= c < v.len() implies class_entry_ok(#[trigger] v[c], *model, ns_id, ps[c]) by {
                            if c < v.len() - 1 {
                                assert(v[c] == g0[k]@[c]);
                            }
                        }
                    } else {
                        assert(ns_positions(*model, k, pos as int).len() == 0);
                        assert(v =~= seq![entry]);
                    }
                }
            }
        }
        pos = pos + 1;
    }
    proof {
        groups.lemma_lengths();
        groups.lemma_view();
    }
    let ghost gks = groups.key_seq();
    let ghost gview = groups@;
    let entries = groups.into_entries();
    let ne = entries.len();
    let mut rest = entries;
    let ghost eorig = rest@;
    assert(rest@ =~= eorig.skip(0));
    let mut namespaces: Vec<NamespaceEntry> = Vec::new();
    let mut e: usize = 0;
    while e < ne
        invariant
            ne == eorig.len(),
            ne == gks.len(),
            e <= ne,
            rest@ == eorig.skip(e as int),
            keys_increasing_names(gks),
            forall|t: int|
                0 <= t < ne ==> (#[trigger] eorig[t]).0@ == gks[t] && gview.dom().contains(gks[t])
                    && eorig[t].1 == gview[gks[t]],
            namespaces@.len() == e,
            forall|t: int|
                0 <= t < e ==> (#[trigger] namespaces@[t]).name@ == gks[t] && gview.dom().contains(
                    gks[t],
                ) && namespaces@[t].classes == gview[gks[t]],
            forall|k: Seq<char>| #[trigger] gview.dom().contains(k) <==> ns_positions(*model, k, nc as int).len() > 0,
            forall|k: Seq<char>|
                #[trigger] gview.dom().contains(k) ==> group_ok(
                    gview[k]@,
                    ns_positions(*model, k, nc as int),
                    *model,
                    ns_id,
                ),
        decreases ne - e,
    {
        assert(rest@[0] == eorig[e as int]);
        let (name, classes) = rest.remove(0);
        assert(rest@ =~= eorig.skip(e + 1));
        namespaces.push(NamespaceEntry { classes, name });
        e = e + 1;
    }
    let r = DmFullManifest {
        metadata: Metadata { ingot_version: String::from_str(version) },
        namespaces,
    };
    proof {
        let n = nc as int;
        assert forall|j: int| 0 <= j < r.namespaces@.len() implies group_ok(
            (#[trigger] r.namespaces@[j]).classes@,
            ns_positions(*model, r.namespaces@[j].name@, n),
            *model,
            ns_id,
        ) && ns_positions(*model, r.namespaces@[j].name@, n).len() > 0 by {
            assert(gview.dom().contains(gks[j]));
        }
        assert forall|p: int| 0 <= p < n implies exists|j: int|
            0 <= j < r.namespaces@.len() && (#[trigger] r.namespaces@[j]).name@ == spec_ns_name(*model, #[trigger] model.classes@[p]) by {
            lemma_ns_positions_nonempty(*model, n, p);
            let k = spec_ns_name(*model, model.classes@[p]);
            assert(gview.dom().contains(k));
            let j = choose|j: int| 0 <= j < gks.len() && gks[j] == k;
            assert(r.namespaces@[j].name@ == k);
        }
    }
    r
}

/// The positions gathered for a namespace are exactly those of its classes,
/// each once, in increasing order.
pub proof fn lemma_ns_positions_exact(model: DataModel, name: Seq<char>, n: int)
    requires
        0 <= n <= model.classes@.len(),
    ensures
        forall|c: int|
            #![trigger ns_positions(model, name, n)[c]]
            0 <= c < ns_positions(model, name, n).len() ==> 0 <= ns_positions(model, name, n)[c] < n
                && spec_ns_name(model, model.classes@[ns_positions(model, name, n)[c]]) == name,
        forall|a: int, b: int|
            0 <= a < b < ns_positions(model, name, n).len() ==> ns_positions(model, name, n)[a]
                < ns_positions(model, name, n)[b],
        forall|p: int|
            0 <= p < n && spec_ns_name(model, #[trigger] model.classes@[p]) == name ==> ns_positions(
                model,
                name,
                n,
            ).contains(p),
    decreases n,
{
    if n > 0 {
        lemma_ns_positions_exact(model, name, n - 1);
        let r = ns_positions(model, name, n - 1);
        let ps = ns_positions(model, name, n);
        assert forall|p: int| 0 <= p < n && spec_ns_name(model, #[trigger] model.classes@[p]) == name implies ps.contains(p) by {
            if p < n - 1 {
                let c = choose|c: int| 0 <= c < r.len() && r[c] == p;
                assert(ps[c] == p);
            } else {
                assert(ps[ps.len() - 1] == p);
            }
        }
    }
}

/// In a manifest, each class of the model stands in exactly one namespace,
/// the one it belongs to, and there exactly once.
pub proof fn lemma_manifest_places_each_class_once(r: DmFullManifest, model: DataModel, ns_id: u16, version: Seq<char>, p: int)
    requires
        manifest_ok(r, model, ns_id, version),
        0 <= p < model.classes@.len(),
    ensures
        exists|j: int|
            #![trigger r.namespaces@[j]]
            0 <= j < r.namespaces@.len() && r.namespaces@[j].name@ == spec_ns_name(model, model.classes@[p])
                && ns_positions(model, r.namespaces@[j].name@, model.classes@.len() as int).contains(p),
        forall|j: int|
            #![trigger r.namespaces@[j]]
            0 <= j < r.namespaces@.len() && ns_positions(model, r.namespaces@[j].name@, model.classes@.len() as int).contains(p)
                ==> r.namespaces@[j].name@ == spec_ns_name(model, model.classes@[p]),
        forall|j: int, c1: int, c2: int|
            0 <= j < r.namespaces@.len() && 0 <= c1 < c2 < ns_positions(model, r.namespaces@[j].name@, model.classes@.len() as int).len()
                ==> #[trigger] ns_positions(model, r.namespaces@[j].name@, model.classes@.len() as int)[c1]
                    != #[trigger] ns_positions(model, r.namespaces@[j].name@, model.classes@.len() as int)[c2],
{
    let n = model.classes@.len() as int;
    let name = spec_ns_name(model, model.classes@[p]);
    lemma_ns_positions_exact(model, name, n);
    let j = choose|j: int| 0 <= j < r.namespaces@.len() && (#[trigger] r.namespaces@[j]).name@ == spec_ns_name(model, model.classes@[p]);
    assert(r.namespaces@[j].name@ == name);
    assert forall|j2: int|
        #![trigger r.namespaces@[j2]]
        0 <= j2 < r.namespaces@.len() && ns_positions(model, r.namespaces@[j2].name@, n).contains(p)
            implies r.namespaces@[j2].name@ == name by {
        let k = r.namespaces@[j2].name@;
        lemma_ns_positions_exact(model, k, n);
        let c = choose|c: int| 0 <= c < ns_positions(model, k, n).len() && ns_positions(model, k, n)[c] == p;
        assert(ns_positions(model, k, n)[c] == p);
    }
    assert forall|j2: int, c1: int, c2: int|
        0 <= j2 < r.namespaces@.len() && 0 <= c1 < c2 < ns_positions(model, r.namespaces@[j2].name@, n).len()
            implies #[trigger] ns_positions(model, r.namespaces@[j2].name@, n)[c1]
                != #[trigger] ns_positions(model, r.namespaces@[j2].name@, n)[c2] by {
        lemma_ns_positions_exact(model, r.namespaces@[j2].name@, n);
    }
}

/// A stamped key keeps its identifier wherever it later stands in its
/// class: filtering other keys out does not move it.
pub proof fn lemma_stamped_id_survives_filtering(k: Key, pos: int, later: int)
    ensures
        spec_key_id(crate::prepare::key_stamped(k, pos), later) == spec_key_id(
            crate::prepare::key_stamped(k, pos),
            pos,
        ),
{
}

/// A manifest entry's identifier encodes the key it describes: decoded, it
/// gives the key's read-only and thread-safe flags, no derived flag, the
/// key's type code, the key's own index (else its position), the class's
/// own index (else its position) and the class's namespace id (else the
/// fallback), each cut to its slot.
pub proof fn lemma_key_entry_id_encodes_key(
    e: KeyEntry,
    model: DataModel,
    ns_id: u16,
    c: Class,
    pos: int,
    k: Key,
    kpos: int,
)
    requires
        key_entry_ok(e, model, ns_id, c, pos, k, kpos),
    ensures
        ((e.id >> 22u32) & 1 == 1) == k.read_only,
        ((e.id >> 20u32) & 1 == 1) == k.thread_safe,
        !((e.id >> 21u32) & 1 == 1),
        (e.id >> 16u32) & 0xf == match k.data_type {
            DataType::Bool => 1u32,
            DataType::Uint8 => 2u32,
            DataType::Int8 => 3u32,
            DataType::Uint16 => 4u32,
            DataType::Int16 => 5u32,
            DataType::Uint32 => 6u32,
            DataType::Int32 => 7u32,
            DataType::String => 8u32,
            DataType::Binary => 9u32,
        },
        e.id & 0x3ff == (match k.key_index {
            Some(x) => x as u32,
            None => (kpos % 65536) as u32,
        }) % 1024,
        (e.id >> 10u32) & 0x3f == (match c.class_index {
            Some(x) => x as u32,
            None => (pos % 256) as u32,
        }) % 64,
        e.id >> 23u32 == (match c.namespace_id {
            Some(x) => x as u32,
            None => ns_id as u32,
        }) % 512,
        crate::key::spec_decode(e.id).read_only == k.read_only,
        crate::key::spec_decode(e.id).thread_safe == k.thread_safe,
{
    crate::key::lemma_decode_encode_masked(spec_key_encoding(c, pos, k, kpos, ns_id));
}

/// The numbers an enum's first `n` values map to: each number that some
/// value has, named after the last value (in name order) that has it.
pub proof fn lemma_enum_name_map_last_wins(values: StrMap<i64>, prefix: Seq<char>, n: int)
    requires
        0 <= n <= values.key_seq().len(),
        values.key_seq().len() == values.value_seq().len(),
    ensures
        forall|x: i64|
            #[trigger] enum_name_map(values, prefix, n).dom().contains(x) <==> exists|t: int|
                0 <= t < n && values.value_seq()[t] == x,
        forall|x: i64|
            #[trigger] enum_name_map(values, prefix, n).dom().contains(x) ==> exists|t: int|
                0 <= t < n && values.value_seq()[t] == x && enum_name_map(values, prefix, n)[x]
                    == prefix + "_"@ + str_to_uppercase(values.key_seq()[t]) && forall|u: int|
                    t < u < n ==> #[trigger] values.value_seq()[u] != x,
    decreases n,
{
    if n > 0 {
        lemma_enum_name_map_last_wins(values, prefix, n - 1);
        let m = enum_name_map(values, prefix, n);
        let v = values.value_seq()[n - 1];
        let m0 = enum_name_map(values, prefix, n - 1);
        assert(m == m0.insert(v, prefix + "_"@ + str_to_uppercase(values.key_seq()[n - 1])));
        assert forall|x: i64| #[trigger] m.dom().contains(x) <==> exists|t: int| 0 <= t < n && values.value_seq()[t] == x by {
            if m.dom().contains(x) && x != v {
                assert(m0.dom().contains(x));
                let t = choose|t: int| 0 <= t < n - 1 && values.value_seq()[t] == x;
                assert(0 <= t < n && values.value_seq()[t] == x);
            }
            if x == v {
                assert(0 <= n - 1 < n && values.value_seq()[n - 1] == x);
            }
            if exists|t: int| 0 <= t < n && values.value_seq()[t] == x {
                let t = choose|t: int| 0 <= t < n && values.value_seq()[t] == x;
                if t < n - 1 {
                    assert(exists|t2: int| 0 <= t2 < n - 1 && values.value_seq()[t2] == x);
                    assert(m0.dom().contains(x));
                }
            }
        }
        assert forall|x: i64| #[trigger] m.dom().contains(x) implies exists|t: int|
            0 <= t < n && values.value_seq()[t] == x && m[x] == prefix + "_"@ + str_to_uppercase(values.key_seq()[t])
                && forall|u: int| t < u < n ==> #[trigger] values.value_seq()[u] != x by {
            if x == v {
                assert(0 <= n - 1 < n && values.value_seq()[n - 1] == x && m[x] == prefix + "_"@ + str_to_uppercase(values.key_seq()[n - 1])
                    && forall|u: int| n - 1 < u < n ==> #[trigger] values.value_seq()[u] != x);
            } else {
                let m0 = enum_name_map(values, prefix, n - 1);
                assert(m0.dom().contains(x));
                let t = choose|t: int| 0 <= t < n - 1 && values.value_seq()[t] == x && m0[x]
                    == prefix + "_"@ + str_to_uppercase(values.key_seq()[t]) && forall|u: int|
                    t < u < n - 1 ==> #[trigger] values.value_seq()[u] != x;
                assert(forall|u: int| t < u < n ==> #[trigger] values.value_seq()[u] != x);
            }
        }
    }
}

/// A manifest key entry, field by field, stated on the key and its class:
/// the define name is the class's namespace (its own, else the model's),
/// the class id and the key id, each upper-cased and joined by `_`, spaces
/// of the key id turned into `_`; the name, helper flag and maximum size are
/// the key's own (no maximum size giving 0); the storage type is the type's
/// lower-case name; the default is the key's own default (a float as its
/// integer part), or else `false`, the empty string or 0 by type; and the
/// enum values are those of the key's enum, by strictly increasing number,
/// each number named after the last value name that has it.
pub proof fn lemma_key_entry_fields(
    e: KeyEntry,
    model: DataModel,
    ns_id: u16,
    c: Class,
    pos: int,
    k: Key,
    kpos: int,
)
    requires
        key_entry_ok(e, model, ns_id, c, pos, k, kpos),
        model.wf(),
    ensures
        e.define_name@ == str_to_uppercase(
            match c.namespace_name {
                Some(n) => n@,
                None => model.meta.id@,
            },
        ) + "_"@ + str_to_uppercase(c.id@) + "_"@ + str_to_uppercase(k.id@).map_values(
            |ch: char| if ch == ' ' { '_' } else { ch },
        ),
        e.name@ == k.id@,
        e.generate_helpers == k.helpers,
        e.max_size == match k.max_size {
            Some(m) => m,
            None => 0usize,
        },
        e.key_type.mem@ == match k.data_type {
            DataType::Bool => "bool"@,
            DataType::Uint8 => "uint8"@,
            DataType::Int8 => "int8"@,
            DataType::Uint16 => "uint16"@,
            DataType::Int16 => "int16"@,
            DataType::Uint32 => "uint32"@,
            DataType::Int32 => "int32"@,
            DataType::String => "string"@,
            DataType::Binary => "binary"@,
        },
        match k.default {
            Some(DefaultValue::Boolean(b)) => e.key_type.default_value == YamlDefault::Bool(b),
            Some(DefaultValue::Integer(i)) => e.key_type.default_value == YamlDefault::Number(i),
            Some(DefaultValue::FloatAsInteger(i)) => e.key_type.default_value == YamlDefault::Number(i),
            Some(DefaultValue::Text(t)) => e.key_type.default_value matches YamlDefault::Str(x) && x@ == t@,
            _ => match k.data_type {
                DataType::Bool => e.key_type.default_value == YamlDefault::Bool(false),
                DataType::String | DataType::Binary => e.key_type.default_value matches YamlDefault::Str(x)
                    && x@.len() == 0,
                _ => e.key_type.default_value == YamlDefault::Number(0),
            },
        },
        k.enum_ref is None ==> e.enum_values is None,
        match k.enum_ref {
            None => true,
            Some(r) => !model.enums@.dom().contains(r@) ==> e.enum_values is None,
        },
        match k.enum_ref {
            None => true,
            Some(r) => model.enums@.dom().contains(r@) ==> {
            let vals = model.enums@[r@].values;
            e.enum_values matches Some(v) && {
                &&& forall|i: int, j: int| 0 <= i < j < v@.len() ==> v@[i].value < v@[j].value
                &&& forall|t: int|
                    0 <= t < vals.value_seq().len() ==> exists|i: int|
                        0 <= i < v@.len() && v@[i].value == #[trigger] vals.value_seq()[t]
                &&& forall|i: int|
                    0 <= i < v@.len() ==> exists|t: int|
                        0 <= t < vals.value_seq().len() && vals.value_seq()[t] == (#[trigger] v@[i]).value
                            && v@[i].name@ == e.define_name@ + "_"@ + str_to_uppercase(vals.key_seq()[t])
                            && forall|u: int| t < u < vals.value_seq().len() ==> vals.value_seq()[u] != v@[i].value
            }
        },
        },
{
    match k.enum_ref {
        Some(r) => {
            if model.enums@.dom().contains(r@) {
                let vals = model.enums@[r@].values;
                vals.lemma_lengths();
                let nv = vals.key_seq().len() as int;
                let m = enum_name_map(vals, e.define_name@, nv);
                lemma_enum_name_map_last_wins(vals, e.define_name@, nv);
                let v = e.enum_values.unwrap();
                assert(entries_list_map(v@, m));
                assert forall|t: int| 0 <= t < vals.value_seq().len() implies exists|i: int|
                    0 <= i < v@.len() && v@[i].value == #[trigger] vals.value_seq()[t] by {
                    assert(m.dom().contains(vals.value_seq()[t]));
                }
                assert forall|i: int| 0 <= i < v@.len() implies exists|t: int|
                    0 <= t < vals.value_seq().len() && vals.value_seq()[t] == (#[trigger] v@[i]).value
                        && v@[i].name@ == e.define_name@ + "_"@ + str_to_uppercase(vals.key_seq()[t])
                        && forall|u: int| t < u < vals.value_seq().len() ==> vals.value_seq()[u] != v@[i].value by {
                    assert(m.dom().contains(v@[i].value));
                }
                assert(forall|i: int, j: int| 0 <= i < j < v@.len() ==> v@[i].value < v@[j].value);
                assert(e.enum_values == Some(v));
            }
        },
        None => {},
    }
}

/// Every key entry of a manifest carries, in its identifier, the
/// read-only and thread-safe flags of the model key it stands for.
pub proof fn lemma_manifest_ids_carry_key_flags(r: DmFullManifest, model: DataModel, ns_id: u16, version: Seq<char>)
    requires
        manifest_ok(r, model, ns_id, version),
    ensures
        forall|j: int, c: int, kpos: int|
            0 <= j < r.namespaces@.len() && 0 <= c < r.namespaces@[j].classes@.len() && 0 <= kpos
                < r.namespaces@[j].classes@[c].data@.len() ==> {
                let p = ns_positions(model, r.namespaces@[j].name@, model.classes@.len() as int)[c];
                let key = model.classes@[p].keys@[kpos];
                let id = (#[trigger] r.namespaces@[j].classes@[c].data@[kpos]).id;
                &&& ((id >> 22u32) & 1 == 1) == key.read_only
                &&& ((id >> 20u32) & 1 == 1) == key.thread_safe
                &&& crate::key::spec_decode(id).read_only == key.read_only
                &&& crate::key::spec_decode(id).thread_safe == key.thread_safe
            },
{
    assert forall|j: int, c: int, kpos: int|
        0 <= j < r.namespaces@.len() && 0 <= c < r.namespaces@[j].classes@.len() && 0 <= kpos
            < r.namespaces@[j].classes@[c].data@.len() implies {
            let p = ns_positions(model, r.namespaces@[j].name@, model.classes@.len() as int)[c];
            let key = model.classes@[p].keys@[kpos];
            let id = (#[trigger] r.namespaces@[j].classes@[c].data@[kpos]).id;
            &&& ((id >> 22u32) & 1 == 1) == key.read_only
            &&& ((id >> 20u32) & 1 == 1) == key.thread_safe
            &&& crate::key::spec_decode(id).read_only == key.read_only
            &&& crate::key::spec_decode(id).thread_safe == key.thread_safe
        } by {
        let n = r.namespaces@[j];
        let ps = ns_positions(model, n.name@, model.classes@.len() as int);
        assert(group_ok(n.classes@, ps, model, ns_id));
        let ce = n.classes@[c];
        assert(class_entry_ok(ce, model, ns_id, ps[c]));
        let cl = model.classes@[ps[c]];
        assert(key_entry_ok(ce.data@[kpos], model, ns_id, cl, ps[c], cl.keys@[kpos], kpos));
        lemma_key_entry_id_encodes_key(ce.data@[kpos], model, ns_id, cl, ps[c], cl.keys@[kpos], kpos);
    }
}

/// The manifest's shape, stated on the model: it carries the given version;
/// each class entry of a namespace stands for a class of that namespace
/// (the class's own namespace name, else the model's id), is named after
/// the class, and holds one entry per key of the class, in key order, each
/// named after its key; the classes of a namespace come in model order.
pub proof fn lemma_manifest_class_entries(r: DmFullManifest, model: DataModel, ns_id: u16, version: Seq<char>)
    requires
        manifest_ok(r, model, ns_id, version),
    ensures
        r.metadata.ingot_version@ == version,
        forall|j: int, c: int|
            0 <= j < r.namespaces@.len() && 0 <= c < r.namespaces@[j].classes@.len() ==> {
                let p = ns_positions(model, r.namespaces@[j].name@, model.classes@.len() as int)[c];
                let ce = #[trigger] r.namespaces@[j].classes@[c];
                &&& 0 <= p < model.classes@.len()
                &&& r.namespaces@[j].name@ == match model.classes@[p].namespace_name {
                    Some(x) => x@,
                    None => model.meta.id@,
                }
                &&& ce.name@ == model.classes@[p].id@
                &&& ce.data@.len() == model.classes@[p].keys@.len()
                &&& forall|kpos: int|
                    0 <= kpos < ce.data@.len() ==> (#[trigger] ce.data@[kpos]).name@
                        == model.classes@[p].keys@[kpos].id@
            },
        forall|j: int, c1: int, c2: int|
            0 <= j < r.namespaces@.len() && 0 <= c1 < c2 < r.namespaces@[j].classes@.len() ==> #[trigger] ns_positions(
                model,
                r.namespaces@[j].name@,
                model.classes@.len() as int,
            )[c1] < #[trigger] ns_positions(model, r.namespaces@[j].name@, model.classes@.len() as int)[c2],
{
    let n = model.classes@.len() as int;
    assert forall|j: int, c: int|
        0 <= j < r.namespaces@.len() && 0 <= c < r.namespaces@[j].classes@.len() implies {
            let p = ns_positions(model, r.namespaces@[j].name@, model.classes@.len() as int)[c];
            let ce = #[trigger] r.namespaces@[j].classes@[c];
            &&& 0 <= p < model.classes@.len()
            &&& r.namespaces@[j].name@ == match model.classes@[p].namespace_name {
                Some(x) => x@,
                None => model.meta.id@,
            }
            &&& ce.name@ == model.classes@[p].id@
            &&& ce.data@.len() == model.classes@[p].keys@.len()
            &&& forall|kpos: int|
                0 <= kpos < ce.data@.len() ==> (#[trigger] ce.data@[kpos]).name@
                    == model.classes@[p].keys@[kpos].id@
        } by {
        let nm = r.namespaces@[j];
        let ps = ns_positions(model, nm.name@, n);
        lemma_ns_positions_exact(model, nm.name@, n);
        assert(group_ok(nm.classes@, ps, model, ns_id));
        let ce = nm.classes@[c];
        assert(class_entry_ok(ce, model, ns_id, ps[c]));
        let cl = model.classes@[ps[c]];
        assert forall|kpos: int| 0 <= kpos < ce.data@.len() implies (#[trigger] ce.data@[kpos]).name@ == cl.keys@[kpos].id@ by {
            assert(key_entry_ok(ce.data@[kpos], model, ns_id, cl, ps[c], cl.keys@[kpos], kpos));
        }
    }
    assert forall|j: int, c1: int, c2: int|
        0 <= j < r.namespaces@.len() && 0 <= c1 < c2 < r.namespaces@[j].classes@.len() implies #[trigger] ns_positions(
            model,
            r.namespaces@[j].name@,
            n,
        )[c1] < #[trigger] ns_positions(model, r.namespaces@[j].name@, n)[c2] by {
        lemma_ns_positions_exact(model, r.namespaces@[j].name@, n);
        assert(group_ok(r.namespaces@[j].classes@, ns_positions(model, r.namespaces@[j].name@, n), model, ns_id));
    }
}

/// Two inlined enum lists hold the same numbers and names in the same order.
pub open spec fn enum_lists_agree(a: Option<Vec<EnumValueEntry>>, b: Option<Vec<EnumValueEntry>>) -> bool {
    match (a, b) {
        (None, None) => true,
        (Some(x), Some(y)) => x@.len() == y@.len() && forall|i: int|
            0 <= i < x@.len() ==> (#[trigger] x@[i]).value == y@[i].value && x@[i].name@ == y@[i].name@,
        _ => false,
    }
}

/// Two manifest defaults are the same value.
pub open spec fn defaults_agree(a: YamlDefault, b: YamlDefault) -> bool {
    match (a, b) {
        (YamlDefault::Bool(x), YamlDefault::Bool(y)) => x == y,
        (YamlDefault::Number(x), YamlDefault::Number(y)) => x == y,
        (YamlDefault::Str(x), YamlDefault::Str(y)) => x@ == y@,
        _ => false,
    }
}

/// Two key entries carry the same fields.
pub open spec fn key_entries_agree(a: KeyEntry, b: KeyEntry) -> bool {
    &&& a.define_name@ == b.define_name@
    &&& enum_lists_agree(a.enum_values, b.enum_values)
    &&& a.generate_helpers == b.generate_helpers
    &&& a.id == b.id
    &&& a.max_size == b.max_size
    &&& a.name@ == b.name@
    &&& defaults_agree(a.key_type.default_value, b.key_type.default_value)
    &&& a.key_type.mem@ == b.key_type.mem@
}

/// Two manifests carry the same version, namespaces, classes and keys, in
/// the same order.
pub open spec fn manifests_agree(r1: DmFullManifest, r2: DmFullManifest) -> bool {
    &&& r1.metadata.ingot_version@ == r2.metadata.ingot_version@
    &&& r1.namespaces@.len() == r2.namespaces@.len()
    &&& forall|j: int|
        0 <= j < r1.namespaces@.len() ==> {
            let n1 = #[trigger] r1.namespaces@[j];
            let n2 = r2.namespaces@[j];
            &&& n1.name@ == n2.name@
            &&& n1.classes@.len() == n2.classes@.len()
            &&& forall|c: int|
                0 <= c < n1.classes@.len() ==> {
                    let c1 = #[trigger] n1.classes@[c];
                    let c2 = n2.classes@[c];
                    &&& c1.name@ == c2.name@
                    &&& c1.data@.len() == c2.data@.len()
                    &&& forall|k: int|
                        0 <= k < c1.data@.len() ==> key_entries_agree(#[trigger] c1.data@[k], c2.data@[k])
                }
        }
}

/// Two sequences that strictly increase in a strict total order and hold
/// the same elements are equal.
proof fn lemma_sorted_same_members<A>(a: Seq<A>, b: Seq<A>, lt: spec_fn(A, A) -> bool)
    requires
        forall|x: A| !#[trigger] lt(x, x),
        forall|x: A, y: A, z: A| #[trigger] lt(x, y) && #[trigger] lt(y, z) ==> lt(x, z),
        forall|x: A, y: A| x != y ==> #[trigger] lt(x, y) || #[trigger] lt(y, x),
        forall|i: int, j: int| 0 <= i < j < a.len() ==> lt(a[i], a[j]),
        forall|i: int, j: int| 0 <= i < j < b.len() ==> lt(b[i], b[j]),
        forall|x: A| a.contains(x) <==> b.contains(x),
    ensures
        a == b,
    decreases a.len(),
{
    if a.len() == 0 {
        if b.len() > 0 {
            assert(b.contains(b[0]));
        }
        assert(a =~= b);
    } else {
        assert(a.contains(a[0]));
        let k = choose|k: int| 0 <= k < b.len() && b[k] == a[0];
        assert(b.contains(b[0]));
        let l = choose|l: int| 0 <= l < a.len() && a[l] == b[0];
        if k > 0 && l > 0 {
            assert(lt(b[0], b[k]));
            assert(lt(a[0], a[l]));
            assert(lt(b[0], b[0]));
        } else if k > 0 {
            assert(lt(b[0], b[k]));
        } else if l > 0 {
            assert(lt(a[0], a[l]));
        }
        assert(a[0] == b[0]);
        let a1 = a.drop_first();
        let b1 = b.drop_first();
        assert forall|x: A| a1.contains(x) <==> b1.contains(x) by {
            if a1.contains(x) {
                let i = choose|i: int| 0 <= i < a1.len() && a1[i] == x;
                assert(lt(a[0], a[i + 1]));
                assert(a.contains(x));
                let j = choose|j: int| 0 <= j < b.len() && b[j] == x;
                assert(j != 0);
                assert(b1[j - 1] == x);
            }
            if b1.contains(x) {
                let i = choose|i: int| 0 <= i < b1.len() && b1[i] == x;
                assert(lt(b[0], b[i + 1]));
                assert(b.contains(x));
                let j = choose|j: int| 0 <= j < a.len() && a[j] == x;
                assert(j != 0);
                assert(a1[j - 1] == x);
            }
        }
        assert forall|i: int, j: int| 0 <= i < j < a1.len() implies lt(a1[i], a1[j]) by {
            assert(lt(a[i + 1], a[j + 1]));
        }
        assert forall|i: int, j: int| 0 <= i < j < b1.len() implies lt(b1[i], b1[j]) by {
            assert(lt(b[i + 1], b[j + 1]));
        }
        lemma_sorted_same_members(a1, b1, lt);
        assert(a.len() == b.len());
        assert forall|i: int| 0 <= i < a.len() implies a[i] == b[i] by {
            if i > 0 {
                assert(a[i] == a1[i - 1]);
                assert(b[i] == b1[i - 1]);
            }
        }
        assert(a =~= b);
    }
}

proof fn lemma_seq_lt_order()
    ensures
        forall|x: Seq<char>| !#[trigger] seq_lt(x, x),
        forall|x: Seq<char>, y: Seq<char>, z: Seq<char>|
            #[trigger] seq_lt(x, y) && #[trigger] seq_lt(y, z) ==> seq_lt(x, z),
        forall|x: Seq<char>, y: Seq<char>| x != y ==> #[trigger] seq_lt(x, y) || #[trigger] seq_lt(y, x),
{
    assert forall|x: Seq<char>| !#[trigger] seq_lt(x, x) by {
        crate::strings::lemma_seq_lt_irreflexive(x);
    }
    assert forall|x: Seq<char>, y: Seq<char>, z: Seq<char>|
        #[trigger] seq_lt(x, y) && #[trigger] seq_lt(y, z) implies seq_lt(x, z) by {
        crate::strings::lemma_seq_lt_transitive(x, y, z);
    }
    assert forall|x: Seq<char>, y: Seq<char>| x != y implies #[trigger] seq_lt(x, y) || #[trigger] seq_lt(y, x) by {
        crate::strings::lemma_seq_lt_total(x, y);
    }
}

proof fn lemma_enum_lists_agree(x: Seq<EnumValueEntry>, y: Seq<EnumValueEntry>, m: Map<i64, Seq<char>>)
    requires
        entries_list_map(x, m),
        entries_list_map(y, m),
    ensures
        x.len() == y.len(),
        forall|i: int| 0 <= i < x.len() ==> (#[trigger] x[i]).value == y[i].value && x[i].name@ == y[i].name@,
{
    let xv = x.map_values(|e: EnumValueEntry| e.value);
    let yv = y.map_values(|e: EnumValueEntry| e.value);
    let lt = |a: i64, b: i64| a < b;
    assert forall|v: i64| xv.contains(v) <==> yv.contains(v) by {
        if xv.contains(v) {
            let i = choose|i: int| 0 <= i < xv.len() && xv[i] == v;
            assert(m.dom().contains(x[i].value));
            let j = choose|j: int| 0 <= j < y.len() && y[j].value == v;
            assert(yv[j] == v);
        }
        if yv.contains(v) {
            let i = choose|i: int| 0 <= i < yv.len() && yv[i] == v;
            assert(m.dom().contains(y[i].value));
            let j = choose|j: int| 0 <= j < x.len() && x[j].value == v;
            assert(xv[j] == v);
        }
    }
    assert forall|i: int, j: int| 0 <= i < j < xv.len() implies lt(xv[i], xv[j]) by {}
    assert forall|i: int, j: int| 0 <= i < j < yv.len() implies lt(yv[i], yv[j]) by {}
    lemma_sorted_same_members(xv, yv, lt);
    assert(xv.len() == yv.len());
    assert forall|i: int| 0 <= i < x.len() implies (#[trigger] x[i]).value == y[i].value && x[i].name@ == y[i].name@ by {
        assert(xv[i] == yv[i]);
        assert(m.dom().contains(x[i].value));
        assert(m.dom().contains(y[i].value));
    }
}

/// Two manifests built from the same model, fallback namespace id and
/// version carry the same content, field for field and in the same order:
/// the manifest depends on nothing but these.
pub proof fn lemma_manifest_deterministic(
    r1: DmFullManifest,
    r2: DmFullManifest,
    model: DataModel,
    ns_id: u16,
    version: Seq<char>,
)
    requires
        manifest_ok(r1, model, ns_id, version),
        manifest_ok(r2, model, ns_id, version),
    ensures
        manifests_agree(r1, r2),
{
    let n = model.classes@.len() as int;
    let s1 = r1.namespaces@.map_values(|e: NamespaceEntry| e.name@);
    let s2 = r2.namespaces@.map_values(|e: NamespaceEntry| e.name@);
    lemma_seq_lt_order();
    assert forall|x: Seq<char>| s1.contains(x) implies s2.contains(x) by {
        let j = choose|j: int| 0 <= j < s1.len() && s1[j] == x;
        assert(ns_positions(model, r1.namespaces@[j].name@, n).len() > 0);
        lemma_ns_positions_exact(model, x, n);
        let p = ns_positions(model, x, n)[0];
        assert(spec_ns_name(model, model.classes@[p]) == x);
        let j2 = choose|j2: int| 0 <= j2 < r2.namespaces@.len() && (#[trigger] r2.namespaces@[j2]).name@
            == spec_ns_name(model, model.classes@[p]);
        assert(s2[j2] == x);
    }
    assert forall|x: Seq<char>| s2.contains(x) implies s1.contains(x) by {
        let j = choose|j: int| 0 <= j < s2.len() && s2[j] == x;
        assert(ns_positions(model, r2.namespaces@[j].name@, n).len() > 0);
        lemma_ns_positions_exact(model, x, n);
        let p = ns_positions(model, x, n)[0];
        assert(spec_ns_name(model, model.classes@[p]) == x);
        let j1 = choose|j1: int| 0 <= j1 < r1.namespaces@.len() && (#[trigger] r1.namespaces@[j1]).name@
            == spec_ns_name(model, model.classes@[p]);
        assert(s1[j1] == x);
    }
    let lt = |a: Seq<char>, b: Seq<char>| seq_lt(a, b);
    assert forall|i: int, j: int| 0 <= i < j < s1.len() implies lt(s1[i], s1[j]) by {}
    assert forall|i: int, j: int| 0 <= i < j < s2.len() implies lt(s2[i], s2[j]) by {}
    assert forall|x: Seq<char>| !#[trigger] lt(x, x) by {}
    assert forall|x: Seq<char>, y: Seq<char>, z: Seq<char>| #[trigger] lt(x, y) && #[trigger] lt(y, z) implies lt(x, z) by {}
    assert forall|x: Seq<char>, y: Seq<char>| x != y implies #[trigger] lt(x, y) || #[trigger] lt(y, x) by {}
    lemma_sorted_same_members(s1, s2, lt);
    assert forall|j: int| 0 <= j < r1.namespaces@.len() implies {
        let n1 = #[trigger] r1.namespaces@[j];
        let n2 = r2.namespaces@[j];
        &&& n1.name@ == n2.name@
        &&& n1.classes@.len() == n2.classes@.len()
        &&& forall|c: int|
            0 <= c < n1.classes@.len() ==> {
                let c1 = #[trigger] n1.classes@[c];
                let c2 = n2.classes@[c];
                &&& c1.name@ == c2.name@
                &&& c1.data@.len() == c2.data@.len()
                &&& forall|k: int|
                    0 <= k < c1.data@.len() ==> key_entries_agree(#[trigger] c1.data@[k], c2.data@[k])
            }
    } by {
        let n1 = r1.namespaces@[j];
        let n2 = r2.namespaces@[j];
        assert(s1[j] == s2[j]);
        let ps = ns_positions(model, n1.name@, n);
        assert(group_ok(n1.classes@, ps, model, ns_id));
        assert(group_ok(n2.classes@, ps, model, ns_id));
        assert forall|c: int| 0 <= c < n1.classes@.len() implies {
            let c1 = #[trigger] n1.classes@[c];
            let c2 = n2.classes@[c];
            &&& c1.name@ == c2.name@
            &&& c1.data@.len() == c2.data@.len()
            &&& forall|k: int|
                0 <= k < c1.data@.len() ==> key_entries_agree(#[trigger] c1.data@[k], c2.data@[k])
        } by {
            let c1 = n1.classes@[c];
            let c2 = n2.classes@[c];
            assert(class_entry_ok(c1, model, ns_id, ps[c]));
            assert(class_entry_ok(c2, model, ns_id, ps[c]));
            let cl = model.classes@[ps[c]];
            assert forall|k: int| 0 <= k < c1.data@.len() implies key_entries_agree(#[trigger] c1.data@[k], c2.data@[k]) by {
                let e1 = c1.data@[k];
                let e2 = c2.data@[k];
                assert(key_entry_ok(e1, model, ns_id, cl, ps[c], cl.keys@[k], k));
                assert(key_entry_ok(e2, model, ns_id, cl, ps[c], cl.keys@[k], k));
                match (e1.enum_values, e2.enum_values) {
                    (Some(x), Some(y)) => {
                        let key = cl.keys@[k];
                        let en = key.enum_ref.unwrap();
                        let values = model.enums@[en@].values;
                        lemma_enum_lists_agree(x@, y@, enum_name_map(values, e1.define_name@, values.key_seq().len() as int));
                    },
                    _ => {},
                }
            }
        }
    }
}

/// Names in strictly increasing order.
pub open spec fn keys_increasing_names(s: Seq<Seq<char>>) -> bool {
    forall|a: int, b: int| 0 <= a < b < s.len() ==> seq_lt(s[a], s[b])
}

} // verus!
