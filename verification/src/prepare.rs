//! Transformations of a loaded model before code generation: key positions,
//! per-variant overrides, merging of several model files, and counts.

use vstd::prelude::*;
use crate::model::{Class, DataModel, DataType, EnumDef, Key, Meta, total_keys};
use crate::strmap::StrMap;

verus! {

// ---------------------------------------------------------------------------
// Counting keys

/// Which keys a count takes in.
#[derive(Clone, Copy, Debug, PartialEq, Eq, Structural)]
pub enum KeySelector {
    /// Keys of this type.
    OfType(DataType),
    /// String keys that are read-only (`true`) or writable (`false`).
    Text(bool),
}

/// Whether `sel` takes in `k`.
pub open spec fn selects(sel: KeySelector, k: Key) -> bool {
    match sel {
        KeySelector::OfType(t) => k.data_type == t,
        KeySelector::Text(ro) => k.data_type == DataType::String && k.read_only == ro,
    }
}

/// Number of keys in `keys` that `sel` takes in.
pub open spec fn count_in_keys(keys: Seq<Key>, sel: KeySelector) -> nat
    decreases keys.len(),
{
    if keys.len() == 0 {
        0
    } else {
        count_in_keys(keys.drop_last(), sel) + if selects(sel, keys.last()) {
            1nat
        } else {
            0nat
        }
    }
}

/// Number of keys, over a run of classes, that `sel` takes in.
pub open spec fn count_in_classes(classes: Seq<Class>, sel: KeySelector) -> nat
    decreases classes.len(),
{
    if classes.len() == 0 {
        0
    } else {
        count_in_classes(classes.drop_last(), sel) + count_in_keys(classes.last().keys@, sel)
    }
}

proof fn lemma_count_in_keys_bound(keys: Seq<Key>, sel: KeySelector)
    ensures
        count_in_keys(keys, sel) <= keys.len(),
    decreases keys.len(),
{
    if keys.len() > 0 {
        lemma_count_in_keys_bound(keys.drop_last(), sel);
    }
}

proof fn lemma_count_in_classes_bound(classes: Seq<Class>, sel: KeySelector)
    ensures
        count_in_classes(classes, sel) <= total_keys(classes),
    decreases classes.len(),
{
    if classes.len() > 0 {
        lemma_count_in_classes_bound(classes.drop_last(), sel);
        lemma_count_in_keys_bound(classes.last().keys@, sel);
    }
}

/// The keys of a prefix of the classes never outnumber those of all of them.
pub proof fn lemma_total_keys_prefix(classes: Seq<Class>, i: int)
    requires
        0 <= i <= classes.len(),
    ensures
        total_keys(classes.take(i)) <= total_keys(classes),
    decreases classes.len() - i,
{
    if i < classes.len() {
        lemma_total_keys_prefix(classes, i + 1);
        assert(classes.take(i + 1).drop_last() =~= classes.take(i));
    } else {
        assert(classes.take(i) =~= classes);
    }
}

/// Counts the keys of `classes` that `sel` takes in.
pub fn count_keys(classes: &Vec<Class>, sel: KeySelector) -> (n: usize)
    requires
        total_keys(classes@) <= usize::MAX,
    ensures
        n == count_in_classes(classes@, sel),
{
    let nc = classes.len();
    let mut n: usize = 0;
    let mut i: usize = 0;
    while i < nc
        invariant
            nc == classes@.len(),
            i <= nc,
            total_keys(classes@) <= usize::MAX,
            n == count_in_classes(classes@.take(i as int), sel),
        decreases nc - i,
    {
        let keys = &classes[i].keys;
        let nk = keys.len();
        let mut j: usize = 0;
        proof {
            lemma_count_in_classes_bound(classes@.take(i as int), sel);
            lemma_total_keys_prefix(classes@, i + 1);
            assert(classes@.take(i + 1).drop_last() =~= classes@.take(i as int));
        }
        while j < nk
            invariant
                nc == classes@.len(),
                i < nc,
                nk == keys@.len(),
                keys@ == classes@[i as int].keys@,
                j <= nk,
                total_keys(classes@) <= usize::MAX,
                total_keys(classes@.take(i as int)) + nk <= usize::MAX,
                count_in_classes(classes@.take(i as int), sel) <= total_keys(classes@.take(i as int)),
                n == count_in_classes(classes@.take(i as int), sel) + count_in_keys(
                    keys@.take(j as int),
                    sel,
                ),
            decreases nk - j,
        {
            proof {
                lemma_count_in_keys_bound(keys@.take(j as int), sel);
                assert(keys@.take(j + 1).drop_last() =~= keys@.take(j as int));
            }
            let k = &keys[j];
            let hit = match sel {
                KeySelector::OfType(t) => k.data_type == t,
                KeySelector::Text(ro) => k.data_type == DataType::String && k.read_only == ro,
            };
            if hit {
                n = n + 1;
            }
            j = j + 1;
        }
        proof {
            assert(keys@.take(nk as int) =~= keys@);
            assert(classes@.take(i + 1).drop_last() =~= classes@.take(i as int));
        }
        i = i + 1;
    }
    assert(classes@.take(nc as int) =~= classes@);
    n
}

/// How many keys of each type a model has.
#[derive(Clone, Copy, Debug, PartialEq, Eq, Structural)]
pub struct Statistics {
    pub bool_count: usize,
    pub u8_count: usize,
    pub i8_count: usize,
    pub u16_count: usize,
    pub i16_count: usize,
    pub u32_count: usize,
    pub i32_count: usize,
    pub ro_string_count: usize,
    pub rw_string_count: usize,
}

/// Counts the keys of the model by type, strings split by whether they are
/// read-only; binary keys are counted nowhere.
pub fn collect_statistics(model: &DataModel) -> (s: Statistics)
    requires
        total_keys(model.classes@) <= usize::MAX,
    ensures
        s.bool_count == count_in_classes(model.classes@, KeySelector::OfType(DataType::Bool)),
        s.u8_count == count_in_classes(model.classes@, KeySelector::OfType(DataType::Uint8)),
        s.i8_count == count_in_classes(model.classes@, KeySelector::OfType(DataType::Int8)),
        s.u16_count == count_in_classes(model.classes@, KeySelector::OfType(DataType::Uint16)),
        s.i16_count == count_in_classes(model.classes@, KeySelector::OfType(DataType::Int16)),
        s.u32_count == count_in_classes(model.classes@, KeySelector::OfType(DataType::Uint32)),
        s.i32_count == count_in_classes(model.classes@, KeySelector::OfType(DataType::Int32)),
        s.ro_string_count == count_in_classes(model.classes@, KeySelector::Text(true)),
        s.rw_string_count == count_in_classes(model.classes@, KeySelector::Text(false)),
{
    Statistics {
        bool_count: count_keys(&model.classes, KeySelector::OfType(DataType::Bool)),
        u8_count: count_keys(&model.classes, KeySelector::OfType(DataType::Uint8)),
        i8_count: count_keys(&model.classes, KeySelector::OfType(DataType::Int8)),
        u16_count: count_keys(&model.classes, KeySelector::OfType(DataType::Uint16)),
        i16_count: count_keys(&model.classes, KeySelector::OfType(DataType::Int16)),
        u32_count: count_keys(&model.classes, KeySelector::OfType(DataType::Uint32)),
        i32_count: count_keys(&model.classes, KeySelector::OfType(DataType::Int32)),
        ro_string_count: count_keys(&model.classes, KeySelector::Text(true)),
        rw_string_count: count_keys(&model.classes, KeySelector::Text(false)),
    }
}

// ---------------------------------------------------------------------------
// Per-variant overrides

/// A key once `variant` is resolved: its default becomes its per-variant
/// default where it has one for `variant`.
pub open spec fn key_with_variant(k: Key, variant: Seq<char>) -> Key {
    if k.defaults@.dom().contains(variant) {
        Key { default: Some(k.defaults@[variant]), ..k }
    } else {
        k
    }
}

/// A class once `variant` is resolved: each of its keys is resolved, and
/// nothing else changes.
pub open spec fn class_with_variant(new: Class, old: Class, variant: Seq<char>) -> bool {
    &&& new.id == old.id
    &&& new.namespace_name == old.namespace_name
    &&& new.namespace_id == old.namespace_id
    &&& new.class_index == old.class_index
    &&& new.keys@ == old.keys@.map_values(|k: Key| key_with_variant(k, variant))
}

/// An enum once `variant` is resolved: where the enum has a value set for
/// `variant`, its values become that value set; otherwise it is unchanged.
pub open spec fn enum_with_variant(new: EnumDef, old: EnumDef, variant: Seq<char>) -> bool {
    if old.variants@.dom().contains(variant) {
        &&& new.variants == old.variants
        &&& new.values.wf()
        &&& new.values@ == old.variants@[variant]@
    } else {
        new == old
    }
}

/// Number of keys that have a default for `variant`.
pub open spec fn variant_keys_in(keys: Seq<Key>, variant: Seq<char>) -> nat
    decreases keys.len(),
{
    if keys.len() == 0 {
        0
    } else {
        variant_keys_in(keys.drop_last(), variant) + if keys.last().defaults@.dom().contains(
            variant,
        ) {
            1nat
        } else {
            0nat
        }
    }
}

/// Number of keys, over a run of classes, that have a default for `variant`.
pub open spec fn variant_keys(classes: Seq<Class>, variant: Seq<char>) -> nat
    decreases classes.len(),
{
    if classes.len() == 0 {
        0
    } else {
        variant_keys(classes.drop_last(), variant) + variant_keys_in(classes.last().keys@, variant)
    }
}

/// Number of enums that have a value set for `variant`.
pub open spec fn variant_enums(defs: Seq<EnumDef>, variant: Seq<char>) -> nat
    decreases defs.len(),
{
    if defs.len() == 0 {
        0
    } else {
        variant_enums(defs.drop_last(), variant) + if defs.last().variants@.dom().contains(
            variant,
        ) {
            1nat
        } else {
            0nat
        }
    }
}

proof fn lemma_variant_keys_in_bound(keys: Seq<Key>, variant: Seq<char>)
    ensures
        variant_keys_in(keys, variant) <= keys.len(),
    decreases keys.len(),
{
    if keys.len() > 0 {
        lemma_variant_keys_in_bound(keys.drop_last(), variant);
    }
}

proof fn lemma_variant_keys_bound(classes: Seq<Class>, variant: Seq<char>)
    ensures
        variant_keys(classes, variant) <= total_keys(classes),
    decreases classes.len(),
{
    if classes.len() > 0 {
        lemma_variant_keys_bound(classes.drop_last(), variant);
        lemma_variant_keys_in_bound(classes.last().keys@, variant);
    }
}

proof fn lemma_variant_enums_bound(defs: Seq<EnumDef>, variant: Seq<char>)
    ensures
        variant_enums(defs, variant) <= defs.len(),
    decreases defs.len(),
{
    if defs.len() > 0 {
        lemma_variant_enums_bound(defs.drop_last(), variant);
    }
}

/// The entries of `m` before position `i`, as a map.
pub open spec fn prefix_map<V>(m: StrMap<V>, i: int) -> Map<Seq<char>, V> {
    Map::new(|k: Seq<char>| m.key_seq().take(i).contains(k), |k: Seq<char>| m@[k])
}

/// Writes every entry of `over` into `values`.
fn merge_values(values: &mut StrMap<i64>, over: &StrMap<i64>)
    requires
        old(values).wf(),
        over.wf(),
    ensures
        final(values).wf(),
        final(values)@ == old(values)@.union_prefer_right(over@),
{
    let n = over.len();
    let mut i: usize = 0;
    proof {
        over.lemma_view();
        assert(prefix_map(*over, 0) =~= Map::<Seq<char>, i64>::empty());
        assert(old(values)@.union_prefer_right(prefix_map(*over, 0)) =~= old(values)@);
    }
    while i < n
        invariant
            n == over.key_seq().len(),
            i <= n,
            over.wf(),
            values.wf(),
            forall|t: int|
                0 <= t < over.key_seq().len() ==> #[trigger] over@.dom().contains(over.key_seq()[t])
                    && over@[over.key_seq()[t]] == over.value_seq()[t],
            values@ == old(values)@.union_prefer_right(prefix_map(*over, i as int)),
        decreases n - i,
    {
        let k = over.key_at(i).clone();
        let v = *over.value_at(i);
        let ghost before = values@;
        values.insert(k, v);
        proof {
            let ks = over.key_seq();
            over.lemma_lengths();
            assert(over@.dom().contains(ks[i as int]) && over@[ks[i as int]] == over.value_seq()[i as int]);
            assert(ks.take(i + 1) =~= ks.take(i as int).push(ks[i as int]));
            assert forall|x: Seq<char>| #[trigger] ks.take(i + 1).contains(x) <==> (ks.take(
                i as int,
            ).contains(x) || x == ks[i as int]) by {
                if ks.take(i + 1).contains(x) {
                    let t = choose|t: int| 0 <= t < i + 1 && #[trigger] ks.take(i + 1)[t] == x;
                    if t < i {
                        assert(ks.take(i as int)[t] == x);
                    }
                }
                if ks.take(i as int).contains(x) {
                    let t = choose|t: int| 0 <= t < i && #[trigger] ks.take(i as int)[t] == x;
                    assert(ks.take(i + 1)[t] == x);
                }
                if x == ks[i as int] {
                    assert(ks.take(i + 1)[i as int] == x);
                }
            }
            assert(values@ =~= old(values)@.union_prefer_right(prefix_map(*over, i + 1)));
        }
        i = i + 1;
    }
    proof {
        assert(over.key_seq().take(n as int) =~= over.key_seq());
        assert(prefix_map(*over, n as int) =~= over@);
    }
}

/// Resolves `variant` in the keys of one class; gives the number of keys
/// whose default it replaced.
fn apply_variant_to_keys(keys: &mut Vec<Key>, variant: &str) -> (n: usize)
    requires
        forall|j: int| 0 <= j < old(keys)@.len() ==> (#[trigger] old(keys)@[j]).wf(),
    ensures
        final(keys)@ == old(keys)@.map_values(|k: Key| key_with_variant(k, variant@)),
        n == variant_keys_in(old(keys)@, variant@),
{
    let len = keys.len();
    let mut n: usize = 0;
    let mut j: usize = 0;
    while j < len
        invariant
            len == keys@.len(),
            len == old(keys)@.len(),
            j <= len,
            n <= j,
            n == variant_keys_in(old(keys)@.take(j as int), variant@),
            forall|t: int| 0 <= t < len ==> (#[trigger] old(keys)@[t]).wf(),
            forall|t: int|
                0 <= t < j ==> #[trigger] keys@[t] == key_with_variant(old(keys)@[t], variant@),
            forall|t: int| j <= t < len ==> #[trigger] keys@[t] == old(keys)@[t],
        decreases len - j,
    {
        let mut k = keys.remove(j);
        let found = match k.defaults.get(variant) {
            Some(v) => Some(v.duplicate()),
            None => None,
        };
        match found {
            Some(d) => {
                k.default = Some(d);
                n = n + 1;
            },
            None => {},
        }
        keys.insert(j, k);
        proof {
            assert(old(keys)@.take(j + 1).drop_last() =~= old(keys)@.take(j as int));
        }
        j = j + 1;
    }
    proof {
        assert(old(keys)@.take(len as int) =~= old(keys)@);
        assert(keys@ =~= old(keys)@.map_values(|k: Key| key_with_variant(k, variant@)));
    }
    n
}

/// Resolves per-variant defaults and enum values for `variant`.
///
/// Each key that has a default for `variant` takes it as its default; each
/// enum that has a value set for `variant` takes that value set as its
/// values. Gives the number of keys and of enums so changed.
pub fn resolve_variant(model: &mut DataModel, variant: &str) -> (counts: (usize, usize))
    requires
        old(model).wf(),
        total_keys(old(model).classes@) <= usize::MAX,
    ensures
        variant_resolved(*final(model), *old(model), variant@),
        counts.0 == variant_keys(old(model).classes@, variant@),
        counts.1 == variant_enums(old(model).enums.value_seq(), variant@),
{
    let ghost old_classes = model.classes@;
    let nc = model.classes.len();
    let mut key_count: usize = 0;
    let mut i: usize = 0;
    while i < nc
        invariant
            nc == model.classes@.len(),
            nc == old_classes.len(),
            old_classes == old(model).classes@,
            i <= nc,
            model.meta == old(model).meta,
            model.enums == old(model).enums,
            total_keys(old_classes) <= usize::MAX,
            key_count == variant_keys(old_classes.take(i as int), variant@),
            forall|t: int| 0 <= t < nc ==> (#[trigger] old_classes[t]).wf(),
            forall|t: int|
                0 <= t < i ==> class_with_variant(
                    #[trigger] model.classes@[t],
                    old_classes[t],
                    variant@,
                ),
            forall|t: int| i <= t < nc ==> #[trigger] model.classes@[t] == old_classes[t],
        decreases nc - i,
    {
        let mut class = model.classes.remove(i);
        proof {
            lemma_variant_keys_bound(old_classes.take(i as int), variant@);
            lemma_variant_keys_in_bound(class.keys@, variant@);
            lemma_total_keys_prefix(old_classes, i + 1);
            assert(old_classes.take(i + 1).drop_last() =~= old_classes.take(i as int));
        }
        let added = apply_variant_to_keys(&mut class.keys, variant);
        model.classes.insert(i, class);
        key_count = key_count + added;
        i = i + 1;
    }
    proof {
        assert(old_classes.take(nc as int) =~= old_classes);
    }
    let ghost old_defs = model.enums.value_seq();
    let ne = model.enums.len();
    let mut enum_count: usize = 0;
    let mut e: usize = 0;
    proof {
        model.enums.lemma_lengths();
    }
    while e < ne
        invariant
            ne == model.enums.key_seq().len(),
            ne == model.enums.value_seq().len(),
            ne == old_defs.len(),
            old_defs == old(model).enums.value_seq(),
            model.enums.key_seq() == old(model).enums.key_seq(),
            old(model).enums.wf(),
            e <= ne,
            enum_count <= e,
            enum_count == variant_enums(old_defs.take(e as int), variant@),
            forall|t: int| 0 <= t < ne ==> (#[trigger] old_defs[t]).wf(),
            forall|t: int|
                0 <= t < e ==> enum_with_variant(
                    #[trigger] model.enums.value_seq()[t],
                    old_defs[t],
                    variant@,
                ),
            forall|t: int| e <= t < ne ==> #[trigger] model.enums.value_seq()[t] == old_defs[t],
            model.meta == old(model).meta,
            model.classes@.len() == old(model).classes@.len(),
            forall|t: int|
                0 <= t < old(model).classes@.len() ==> class_with_variant(
                    #[trigger] model.classes@[t],
                    old(model).classes@[t],
                    variant@,
                ),
        decreases ne - e,
    {
        let mut def = model.enums.replace_value_at(e, EnumDef::empty());
        let has = match def.variants.get(variant) {
            Some(over) => {
                proof {
                    assert(def == old_defs[e as int]);
                    assert(def.wf());
                    def.variants.lemma_lengths();
                    def.variants.lemma_view();
                    let t = choose|t: int|
                        0 <= t < def.variants.key_seq().len() && #[trigger] def.variants.key_seq()[t]
                            == variant@;
                    assert(def.variants@[def.variants.key_seq()[t]] == def.variants.value_seq()[t]);
                    assert(over.wf());
                }
                let mut values: StrMap<i64> = StrMap::new();
                merge_values(&mut values, over);
                assert(values@ =~= over@);
                def.values = values;
                true
            },
            None => false,
        };
        model.enums.replace_value_at(e, def);
        if has {
            enum_count = enum_count + 1;
        }
        proof {
            assert(old_defs.take(e + 1).drop_last() =~= old_defs.take(e as int));
        }
        e = e + 1;
    }
    proof {
        assert(old_defs.take(ne as int) =~= old_defs);
        assert forall|t: int| 0 <= t < model.classes@.len() implies (#[trigger] model.classes@[t]).wf() by {
            let c = model.classes@[t];
            let oc = old(model).classes@[t];
            assert forall|j: int| 0 <= j < c.keys@.len() implies (#[trigger] c.keys@[j]).wf() by {
                assert(c.keys@[j] == key_with_variant(oc.keys@[j], variant@));
                assert(oc.wf());
            }
        }
    }
    (key_count, enum_count)
}

// ---------------------------------------------------------------------------
// Key positions

/// A key at position `pos` of its class once positions are stamped: an
/// explicit index stays, a missing one becomes the position (wrapped to
/// `u16`, as an `as` cast does).
pub open spec fn key_stamped(k: Key, pos: int) -> Key {
    match k.key_index {
        Some(_) => k,
        None => Key { key_index: Some((pos % 65536) as u16), ..k },
    }
}

/// Gives each key without an explicit index its position in its class, so
/// that encoded identifiers do not move when keys are filtered out later.
pub fn stamp_key_indices(model: &mut DataModel)
    requires
        old(model).wf(),
    ensures
        final(model).wf(),
        final(model).meta == old(model).meta,
        final(model).enums == old(model).enums,
        final(model).classes@.len() == old(model).classes@.len(),
        forall|i: int|
            0 <= i < old(model).classes@.len() ==> {
                let c = #[trigger] final(model).classes@[i];
                let o = old(model).classes@[i];
                &&& c.id == o.id
                &&& c.namespace_name == o.namespace_name
                &&& c.namespace_id == o.namespace_id
                &&& c.class_index == o.class_index
                &&& c.keys@ == o.keys@.map(|j: int, k: Key| key_stamped(k, j))
            },
{
    let nc = model.classes.len();
    let mut i: usize = 0;
    while i < nc
        invariant
            nc == model.classes@.len(),
            nc == old(model).classes@.len(),
            i <= nc,
            model.meta == old(model).meta,
            model.enums == old(model).enums,
            forall|t: int| 0 <= t < nc ==> (#[trigger] old(model).classes@[t]).wf(),
            forall|t: int|
                0 <= t < i ==> {
                    let c = #[trigger] model.classes@[t];
                    let o = old(model).classes@[t];
                    &&& c.id == o.id
                    &&& c.namespace_name == o.namespace_name
                    &&& c.namespace_id == o.namespace_id
                    &&& c.class_index == o.class_index
                    &&& c.keys@ == o.keys@.map(|j: int, k: Key| key_stamped(k, j))
                },
            forall|t: int| i <= t < nc ==> #[trigger] model.classes@[t] == old(model).classes@[t],
        decreases nc - i,
    {
        let mut class = model.classes.remove(i);
        let ghost old_keys = class.keys@;
        let ghost old_class = class;
        let nk = class.keys.len();
        let mut j: usize = 0;
        while j < nk
            invariant
                class.id == old_class.id,
                class.namespace_name == old_class.namespace_name,
                class.namespace_id == old_class.namespace_id,
                class.class_index == old_class.class_index,
                nk == class.keys@.len(),
                nk == old_keys.len(),
                j <= nk,
                forall|t: int| 0 <= t < j ==> #[trigger] class.keys@[t] == key_stamped(old_keys[t], t),
                forall|t: int| j <= t < nk ==> #[trigger] class.keys@[t] == old_keys[t],
            decreases nk - j,
        {
            let mut k = class.keys.remove(j);
            if k.key_index.is_none() {
                k.key_index = Some((j % 65536) as u16);
            }
            class.keys.insert(j, k);
            j = j + 1;
        }
        assert(class.keys@ =~= old_keys.map(|j: int, k: Key| key_stamped(k, j)));
        model.classes.insert(i, class);
        i = i + 1;
    }
    proof {
        assert forall|t: int| 0 <= t < model.classes@.len() implies (#[trigger] model.classes@[t]).wf() by {
            let c = model.classes@[t];
            let o = old(model).classes@[t];
            assert forall|j: int| 0 <= j < c.keys@.len() implies (#[trigger] c.keys@[j]).wf() by {
                assert(c.keys@[j] == key_stamped(o.keys@[j], j));
                assert(o.wf());
            }
        }
    }
}

// ---------------------------------------------------------------------------
// Merging several model files

/// The enum reference of a key once its file's namespace is prefixed.
pub open spec fn enum_ref_prefixed(new: Option<String>, old: Option<String>, ns: Seq<char>) -> bool {
    match old {
        None => new is None,
        Some(r) => new matches Some(n) && n@ == ns + "::"@ + r@,
    }
}

/// A key of a merged file: only its enum reference changes, to name the
/// enum inside the file's namespace.
pub open spec fn key_merged(new: Key, old: Key, ns: Seq<char>) -> bool {
    &&& new == Key { enum_ref: new.enum_ref, ..old }
    &&& enum_ref_prefixed(new.enum_ref, old.enum_ref, ns)
}

/// The class at position `pos` of a file with header `meta`, once merged:
/// it records the file's namespace name and id, takes its position as class
/// index where it has none, and prefixes its keys' enum references.
pub open spec fn class_merged(new: Class, old: Class, meta: Meta, pos: int) -> bool {
    &&& new.id == old.id
    &&& new.namespace_name == Some(meta.id)
    &&& new.namespace_id == meta.namespace_id
    &&& new.class_index == Some(
        match old.class_index {
            Some(c) => c,
            None => (pos % 256) as u8,
        },
    )
    &&& new.keys@.len() == old.keys@.len()
    &&& forall|j: int|
        0 <= j < old.keys@.len() ==> key_merged(#[trigger] new.keys@[j], old.keys@[j], meta.id@)
}

/// Number of classes in the first `f` files.
pub open spec fn classes_before(models: Seq<DataModel>, f: int) -> int
    decreases f,
{
    if f <= 0 {
        0
    } else {
        classes_before(models, f - 1) + models[f - 1].classes@.len()
    }
}

/// The enums of one file, each under its name prefixed by the file's
/// namespace and `::`.
pub open spec fn prefixed_enums(m: DataModel) -> Map<Seq<char>, EnumDef> {
    let p = m.meta.id@ + "::"@;
    Map::new(
        |k: Seq<char>|
            k.len() >= p.len() && k.take(p.len() as int) == p && m.enums@.dom().contains(
                k.skip(p.len() as int),
            ),
        |k: Seq<char>| m.enums@[k.skip(p.len() as int)],
    )
}

/// The enums of the first `f` files, a later file's enum replacing an
/// earlier one under the same prefixed name.
pub open spec fn merged_enums(models: Seq<DataModel>, f: int) -> Map<Seq<char>, EnumDef>
    decreases f,
{
    if f <= 0 {
        Map::empty()
    } else {
        merged_enums(models, f - 1).union_prefer_right(prefixed_enums(models[f - 1]))
    }
}

/// The first `e` enums of `m`, each under its name prefixed by `p`.
pub open spec fn prefixed_upto(m: StrMap<EnumDef>, p: Seq<char>, e: int) -> Map<Seq<char>, EnumDef> {
    Map::new(
        |k: Seq<char>| exists|t: int| 0 <= t < e && k == p + #[trigger] m.key_seq()[t],
        |k: Seq<char>| m@[k.skip(p.len() as int)],
    )
}

/// `r` is the merge of the files `models`: a header of its own, the classes
/// of all files in order (each merged), and the enums of all files under
/// prefixed names.
pub open spec fn is_merge_of(r: DataModel, models: Seq<DataModel>) -> bool {
    &&& r.meta.id@ == "unified"@
    &&& r.meta.version@ == "0.0.0"@
    &&& r.meta.doc is None
    &&& r.meta.namespace_id is None
    &&& r.classes@.len() == classes_before(models, models.len() as int)
    &&& forall|f: int, i: int|
        0 <= f < models.len() && 0 <= i < models[f].classes@.len() ==> class_merged(
            #[trigger] r.classes@[classes_before(models, f) + i],
            #[trigger] models[f].classes@[i],
            models[f].meta,
            i,
        )
    &&& r.enums@ == merged_enums(models, models.len() as int)
}

proof fn lemma_classes_before_mono(models: Seq<DataModel>, f: int, g: int)
    requires
        0 <= f <= g,
    ensures
        classes_before(models, f) <= classes_before(models, g),
    decreases g - f,
{
    if f < g {
        lemma_classes_before_mono(models, f, g - 1);
    }
}

/// Moves the classes of one file into `out`, merged.
fn merge_classes(out: &mut Vec<Class>, classes: Vec<Class>, meta: &Meta)
    requires
        forall|i: int| 0 <= i < classes@.len() ==> (#[trigger] classes@[i]).wf(),
    ensures
        final(out)@.len() == old(out)@.len() + classes@.len(),
        forall|i: int| 0 <= i < old(out)@.len() ==> #[trigger] final(out)@[i] == old(out)@[i],
        forall|i: int|
            0 <= i < classes@.len() ==> class_merged(
                #[trigger] final(out)@[old(out)@.len() + i],
                classes@[i],
                *meta,
                i,
            ),
        forall|i: int|
            0 <= i < classes@.len() ==> (#[trigger] final(out)@[old(out)@.len() + i]).wf(),
{
    let ghost orig = classes@;
    let mut rest = classes;
    let n = rest.len();
    assert(rest@ =~= orig.skip(0));
    let mut i: usize = 0;
    while i < n
        invariant
            n == orig.len(),
            i <= n,
            rest@ == orig.skip(i as int),
            forall|t: int| 0 <= t < n ==> (#[trigger] orig[t]).wf(),
            out@.len() == old(out)@.len() + i,
            forall|t: int| 0 <= t < old(out)@.len() ==> #[trigger] out@[t] == old(out)@[t],
            forall|t: int|
                0 <= t < i ==> class_merged(#[trigger] out@[old(out)@.len() + t], orig[t], *meta, t),
            forall|t: int| 0 <= t < i ==> (#[trigger] out@[old(out)@.len() + t]).wf(),
        decreases n - i,
    {
        assert(rest@[0] == orig[i as int]);
        let mut class = rest.remove(0);
        assert(rest@ =~= orig.skip(i + 1));
        class.namespace_name = Some(meta.id.clone());
        class.namespace_id = meta.namespace_id;
        if class.class_index.is_none() {
            class.class_index = Some((i % 256) as u8);
        }
        let ghost old_keys = class.keys@;
        let ghost old_class = class;
        let nk = class.keys.len();
        let mut j: usize = 0;
        while j < nk
            invariant
                class.id == old_class.id,
                class.namespace_name == old_class.namespace_name,
                class.namespace_id == old_class.namespace_id,
                class.class_index == old_class.class_index,
                nk == class.keys@.len(),
                nk == old_keys.len(),
                j <= nk,
                forall|t: int| 0 <= t < nk ==> (#[trigger] old_keys[t]).wf(),
                forall|t: int| 0 <= t < j ==> key_merged(#[trigger] class.keys@[t], old_keys[t], meta.id@),
                forall|t: int| j <= t < nk ==> #[trigger] class.keys@[t] == old_keys[t],
            decreases nk - j,
        {
            let mut k = class.keys.remove(j);
            let new_ref = match &k.enum_ref {
                Some(r) => {
                    let mut s = meta.id.clone();
                    s.append("::");
                    s.append(r.as_str());
                    Some(s)
                },
                None => None,
            };
            k.enum_ref = new_ref;
            class.keys.insert(j, k);
            j = j + 1;
        }
        proof {
            assert forall|t: int| 0 <= t < nk implies (#[trigger] class.keys@[t]).wf() by {
                assert(key_merged(class.keys@[t], old_keys[t], meta.id@));
            }
        }
        out.push(class);
        i = i + 1;
    }
}

/// Merges several model files into one model: every class records the
/// namespace of the file it came from, enum names and enum references are
/// prefixed by that namespace, and the model gets a header of its own.
pub fn merge_models(models: Vec<DataModel>) -> (r: DataModel)
    requires
        forall|f: int| 0 <= f < models@.len() ==> (#[trigger] models@[f]).wf(),
    ensures
        r.wf(),
        is_merge_of(r, models@),
{
    let ghost orig = models@;
    let mut rest = models;
    let nf = rest.len();
    assert(rest@ =~= orig.skip(0));
    let mut classes: Vec<Class> = Vec::new();
    let mut enums: StrMap<EnumDef> = StrMap::new();
    proof {
        enums.lemma_lengths();
    }
    let mut f: usize = 0;
    while f < nf
        invariant
            nf == orig.len(),
            f <= nf,
            rest@ == orig.skip(f as int),
            forall|g: int| 0 <= g < nf ==> (#[trigger] orig[g]).wf(),
            classes@.len() == classes_before(orig, f as int),
            forall|g: int, i: int|
                0 <= g < f && 0 <= i < orig[g].classes@.len() ==> class_merged(
                    #[trigger] classes@[classes_before(orig, g) + i],
                    #[trigger] orig[g].classes@[i],
                    orig[g].meta,
                    i,
                ),
            forall|t: int| 0 <= t < classes@.len() ==> (#[trigger] classes@[t]).wf(),
            enums.wf(),
            forall|t: int| 0 <= t < enums.value_seq().len() ==> (#[trigger] enums.value_seq()[t]).wf(),
            enums@ == merged_enums(orig, f as int),
        decreases nf - f,
    {
        assert(rest@[0] == orig[f as int]);
        let m = rest.remove(0);
        assert(rest@ =~= orig.skip(f + 1));
        let ghost before = classes@;
        let ghost m_enums = m.enums;
        proof {
            lemma_classes_before_mono(orig, f as int, f as int);
        }
        merge_classes(&mut classes, m.classes, &m.meta);
        assert(forall|x: int| 0 <= x < before.len() ==> classes@[x] == before[x]);
        proof {
            assert forall|g: int, i: int|
                0 <= g < f + 1 && 0 <= i < orig[g].classes@.len() implies class_merged(
                    #[trigger] classes@[classes_before(orig, g) + i],
                    #[trigger] orig[g].classes@[i],
                    orig[g].meta,
                    i,
                ) by {
                if g < f {
                    lemma_classes_before_mono(orig, g + 1, f as int);
                    lemma_classes_before_mono(orig, 0, g);
                    assert(classes_before(orig, g + 1) == classes_before(orig, g) + orig[g].classes@.len());
                    let x = classes_before(orig, g) + i;
                    assert(0 <= x < before.len());
                    assert(classes@[x] == before[x]);
                } else {
                    assert(g == f);
                    assert(m.classes@ == orig[f as int].classes@);
                }
            }
            assert forall|t: int| 0 <= t < classes@.len() implies (#[trigger] classes@[t]).wf() by {
                if t < before.len() {
                    assert(classes@[t] == before[t]);
                } else {
                    assert(classes@[before.len() + (t - before.len())].wf());
                }
            }
        }
        let ghost enums_before = enums@;
        proof {
            m_enums.lemma_lengths();
            m_enums.lemma_view();
            assert(m == orig[f as int]);
            assert forall|t: int| 0 <= t < m_enums.value_seq().len() implies (#[trigger] m_enums.value_seq()[t]).wf() by {
                assert(orig[f as int].wf());
            }
        }
        let entries = m.enums.into_entries();
        let ne = entries.len();
        let mut erest = entries;
        let ghost eorig = erest@;
        assert(erest@ =~= eorig.skip(0));
        let mut e: usize = 0;
        let ghost p = m.meta.id@ + "::"@;
        assert(prefixed_upto(m_enums, p, 0) =~= Map::<Seq<char>, EnumDef>::empty());
        assert(enums@ =~= enums_before.union_prefer_right(prefixed_upto(m_enums, p, 0)));
        while e < ne
            invariant
                ne == eorig.len(),
                ne == m_enums.key_seq().len(),
                e <= ne,
                erest@ == eorig.skip(e as int),
                forall|t: int|
                    0 <= t < ne ==> (#[trigger] eorig[t]).0@ == m_enums.key_seq()[t] && eorig[t].1
                        == m_enums.value_seq()[t],
                forall|t: int| 0 <= t < ne ==> (#[trigger] m_enums.value_seq()[t]).wf(),
                forall|t: int|
                    0 <= t < ne ==> #[trigger] m_enums@.dom().contains(m_enums.key_seq()[t])
                        && m_enums@[m_enums.key_seq()[t]] == m_enums.value_seq()[t],
                enums.wf(),
                forall|t: int| 0 <= t < enums.value_seq().len() ==> (#[trigger] enums.value_seq()[t]).wf(),
                p == m.meta.id@ + "::"@,
                enums@ == enums_before.union_prefer_right(prefixed_upto(m_enums, p, e as int)),
            decreases ne - e,
        {
            assert(erest@[0] == eorig[e as int]);
            let (name, def) = erest.remove(0);
            assert(erest@ =~= eorig.skip(e + 1));
            let mut key = m.meta.id.clone();
            key.append("::");
            key.append(name.as_str());
            let ghost old_vals = enums.value_seq();
            let ghost before_e = enums@;
            assert(name@ == m_enums.key_seq()[e as int]);
            assert(def == m_enums.value_seq()[e as int]);
            assert(key@ == p + m_enums.key_seq()[e as int]);
            enums.insert(key, def);
            proof {
                assert forall|t: int| 0 <= t < enums.value_seq().len() implies (#[trigger] enums.value_seq()[t]).wf() by {
                    if enums.value_seq()[t] != def {
                        let t2 = choose|t2: int| 0 <= t2 < old_vals.len() && #[trigger] old_vals[t2] == enums.value_seq()[t];
                    }
                }
                let kk = m_enums.key_seq()[e as int];
                assert((p + kk).skip(p.len() as int) =~= kk);
                assert(m_enums@.dom().contains(m_enums.key_seq()[e as int]));
                assert(m_enums@[kk] == def);
                assert(enums@ == before_e.insert(p + kk, def));
                assert forall|k: Seq<char>| #[trigger] prefixed_upto(m_enums, p, e + 1).dom().contains(k) <==> (
                    prefixed_upto(m_enums, p, e as int).dom().contains(k) || k == p + kk) by {
                    if prefixed_upto(m_enums, p, e + 1).dom().contains(k) {
                        let t = choose|t: int| 0 <= t < e + 1 && k == p + #[trigger] m_enums.key_seq()[t];
                        if t < e {
                            assert(prefixed_upto(m_enums, p, e as int).dom().contains(k));
                        }
                    }
                    if prefixed_upto(m_enums, p, e as int).dom().contains(k) {
                        let t = choose|t: int| 0 <= t < e && k == p + #[trigger] m_enums.key_seq()[t];
                        assert(0 <= t < e + 1 && k == p + m_enums.key_seq()[t]);
                    }
                    if k == p + kk {
                        assert(0 <= e < e + 1 && k == p + m_enums.key_seq()[e as int]);
                    }
                }
                assert(enums@ =~= enums_before.union_prefer_right(prefixed_upto(m_enums, p, e + 1)));
            }
            e = e + 1;
        }
        proof {
            assert forall|k: Seq<char>| #[trigger] prefixed_upto(m_enums, p, ne as int).dom().contains(k) <==> prefixed_enums(orig[f as int]).dom().contains(k) by {
                if prefixed_upto(m_enums, p, ne as int).dom().contains(k) {
                    let t = choose|t: int| 0 <= t < ne && k == p + #[trigger] m_enums.key_seq()[t];
                    assert(k.take(p.len() as int) =~= p);
                    assert(k.skip(p.len() as int) =~= m_enums.key_seq()[t]);
                }
                if prefixed_enums(orig[f as int]).dom().contains(k) {
                    let kk = k.skip(p.len() as int);
                    assert(m_enums.key_seq().contains(kk));
                    let t = choose|t: int| 0 <= t < ne && #[trigger] m_enums.key_seq()[t] == kk;
                    assert(k =~= p + m_enums.key_seq()[t]);
                }
            }
            assert(prefixed_upto(m_enums, p, ne as int) =~= prefixed_enums(orig[f as int]));
        }
        f = f + 1;
    }
    DataModel {
        meta: Meta {
            id: String::from_str("unified"),
            version: String::from_str("0.0.0"),
            doc: None,
            namespace_id: None,
        },
        enums,
        classes,
    }
}

/// The model that loading gives: a single file named on its own as it
/// stands; several files, or files found in a directory, merged.
pub fn load_models(models: Vec<DataModel>, from_directory: bool) -> (r: DataModel)
    requires
        forall|f: int| 0 <= f < models@.len() ==> (#[trigger] models@[f]).wf(),
    ensures
        r.wf(),
        models@.len() == 1 && !from_directory ==> r == models@[0],
        models@.len() != 1 || from_directory ==> is_merge_of(r, models@),
{
    if models.len() == 1 && !from_directory {
        let mut models = models;
        models.remove(0)
    } else {
        merge_models(models)
    }
}

/// Two runs of classes whose classes hold as many keys each hold as many
/// keys in all.
pub proof fn lemma_total_keys_same(a: Seq<Class>, b: Seq<Class>)
    requires
        a.len() == b.len(),
        forall|i: int| 0 <= i < a.len() ==> (#[trigger] a[i]).keys@.len() == b[i].keys@.len(),
    ensures
        total_keys(a) == total_keys(b),
    decreases a.len(),
{
    if a.len() > 0 {
        lemma_total_keys_same(a.drop_last(), b.drop_last());
    }
}

// ---------------------------------------------------------------------------
// Laws

/// What stamping does to the keys of a class, stated on the keys: a key
/// with an index keeps it, a key without one gets its position (wrapped to
/// `u16`), and nothing else of any key changes.
pub proof fn lemma_stamping_gives_positions(new_keys: Seq<Key>, old_keys: Seq<Key>)
    requires
        new_keys == old_keys.map(|j: int, k: Key| key_stamped(k, j)),
    ensures
        new_keys.len() == old_keys.len(),
        forall|j: int|
            0 <= j < old_keys.len() ==> {
                let o = old_keys[j];
                let n = #[trigger] new_keys[j];
                &&& n.key_index == Some(
                    match o.key_index {
                        Some(x) => x,
                        None => (j % 65536) as u16,
                    },
                )
                &&& n == Key { key_index: n.key_index, ..o }
            },
{
}

/// Each file's classes in a merge, stated on their own fields: the class
/// records its file's namespace name and id, keeps its own class index or
/// else takes its position in the file (wrapped to `u8`), keeps its id and
/// its keys, and each key keeps everything but its enum reference, which
/// becomes the file's namespace, `::` and the enum's name.
pub proof fn lemma_merge_records_namespaces(r: DataModel, models: Seq<DataModel>, f: int, i: int, j: int)
    requires
        is_merge_of(r, models),
        0 <= f < models.len(),
        0 <= i < models[f].classes@.len(),
    ensures
        ({
            let n = r.classes@[classes_before(models, f) + i];
            let o = models[f].classes@[i];
            &&& n.id == o.id
            &&& n.namespace_name == Some(models[f].meta.id)
            &&& n.namespace_id == models[f].meta.namespace_id
            &&& n.class_index == Some(
                match o.class_index {
                    Some(x) => x,
                    None => (i % 256) as u8,
                },
            )
            &&& n.keys@.len() == o.keys@.len()
            &&& (0 <= j < o.keys@.len() ==> {
                let nk = n.keys@[j];
                let ok = o.keys@[j];
                &&& nk == Key { enum_ref: nk.enum_ref, ..ok }
                &&& match ok.enum_ref {
                    None => nk.enum_ref is None,
                    Some(e) => nk.enum_ref matches Some(x) && x@ == models[f].meta.id@ + "::"@ + e@,
                }
            })
        }),
{
    let n = r.classes@[classes_before(models, f) + i];
    let o = models[f].classes@[i];
    assert(class_merged(n, o, models[f].meta, i));
    if 0 <= j < o.keys@.len() {
        assert(key_merged(n.keys@[j], o.keys@[j], models[f].meta.id@));
    }
}

/// The enum count of a variant resolution is the number of enums with a
/// value set for the variant.
pub proof fn lemma_variant_enum_count(defs: Seq<EnumDef>, variant: Seq<char>)
    ensures
        variant_enums(defs, variant) == defs.filter(|d: EnumDef| d.variants@.dom().contains(variant)).len(),
    decreases defs.len(),
{
    reveal(Seq::filter);
    if defs.len() > 0 {
        lemma_variant_enum_count(defs.drop_last(), variant);
    }
}

/// Stamping positions twice gives what stamping once gives: a key that
/// already has an index keeps it.
pub proof fn lemma_stamp_idempotent(k: Key, pos: int, pos2: int)
    ensures
        key_stamped(key_stamped(k, pos), pos2) == key_stamped(k, pos),
        key_stamped(k, pos).key_index is Some,
{
}

/// Resolving the same variant twice gives what resolving it once gives.
pub proof fn lemma_key_variant_idempotent(k: Key, variant: Seq<char>)
    ensures
        key_with_variant(key_with_variant(k, variant), variant) == key_with_variant(k, variant),
{
}

/// An enum resolved twice for the same variant holds the values it held
/// after the first time.
pub proof fn lemma_enum_variant_idempotent(first: EnumDef, second: EnumDef, orig: EnumDef, variant: Seq<char>)
    requires
        enum_with_variant(first, orig, variant),
        enum_with_variant(second, first, variant),
    ensures
        second.values@ == first.values@,
        second.variants == first.variants,
{
    if orig.variants@.dom().contains(variant) {
        let over = orig.variants@[variant]@;
        assert(second.values@ =~= first.values@);
    }
}

/// `new` is `old` once `variant` is resolved, as `resolve_variant` leaves it.
pub open spec fn variant_resolved(new: DataModel, old: DataModel, variant: Seq<char>) -> bool {
    &&& new.wf()
    &&& new.meta == old.meta
    &&& new.classes@.len() == old.classes@.len()
    &&& forall|i: int|
        0 <= i < old.classes@.len() ==> class_with_variant(
            #[trigger] new.classes@[i],
            old.classes@[i],
            variant,
        )
    &&& new.enums.key_seq() == old.enums.key_seq()
    &&& new.enums.value_seq().len() == old.enums.value_seq().len()
    &&& forall|i: int|
        0 <= i < old.enums.value_seq().len() ==> enum_with_variant(
            #[trigger] new.enums.value_seq()[i],
            old.enums.value_seq()[i],
            variant,
        )
}

proof fn lemma_variant_keys_in_resolved(keys: Seq<Key>, v: Seq<char>)
    ensures
        variant_keys_in(keys.map_values(|k: Key| key_with_variant(k, v)), v) == variant_keys_in(keys, v),
    decreases keys.len(),
{
    if keys.len() > 0 {
        lemma_variant_keys_in_resolved(keys.drop_last(), v);
        assert(keys.map_values(|k: Key| key_with_variant(k, v)).drop_last() =~= keys.drop_last().map_values(
            |k: Key| key_with_variant(k, v),
        ));
    }
}

proof fn lemma_variant_keys_resolved(a: Seq<Class>, b: Seq<Class>, v: Seq<char>)
    requires
        a.len() == b.len(),
        forall|i: int| 0 <= i < a.len() ==> class_with_variant(#[trigger] a[i], b[i], v),
    ensures
        variant_keys(a, v) == variant_keys(b, v),
    decreases a.len(),
{
    if a.len() > 0 {
        lemma_variant_keys_resolved(a.drop_last(), b.drop_last(), v);
        lemma_variant_keys_in_resolved(b.last().keys@, v);
    }
}

proof fn lemma_variant_enums_resolved(a: Seq<EnumDef>, b: Seq<EnumDef>, v: Seq<char>)
    requires
        a.len() == b.len(),
        forall|i: int| 0 <= i < a.len() ==> enum_with_variant(#[trigger] a[i], b[i], v),
    ensures
        variant_enums(a, v) == variant_enums(b, v),
    decreases a.len(),
{
    if a.len() > 0 {
        lemma_variant_enums_resolved(a.drop_last(), b.drop_last(), v);
    }
}

/// Calling `resolve_variant` a second time with the same variant changes
/// nothing more: the second call gives the same counts as the first, and
/// leaves the header, every class and key, and every enum's names, values
/// and value sets as the first call left them.
pub proof fn lemma_resolve_variant_idempotent(
    m0: DataModel,
    m1: DataModel,
    m2: DataModel,
    variant: Seq<char>,
)
    requires
        m0.wf(),
        variant_resolved(m1, m0, variant),
        variant_resolved(m2, m1, variant),
    ensures
        variant_keys(m1.classes@, variant) == variant_keys(m0.classes@, variant),
        variant_enums(m1.enums.value_seq(), variant) == variant_enums(m0.enums.value_seq(), variant),
        m2.meta == m1.meta,
        m2.classes@.len() == m1.classes@.len(),
        forall|i: int|
            0 <= i < m1.classes@.len() ==> {
                let c2 = #[trigger] m2.classes@[i];
                let c1 = m1.classes@[i];
                &&& c2.id == c1.id
                &&& c2.namespace_name == c1.namespace_name
                &&& c2.namespace_id == c1.namespace_id
                &&& c2.class_index == c1.class_index
                &&& c2.keys@ == c1.keys@
            },
        m2.enums.key_seq() == m1.enums.key_seq(),
        m2.enums@.dom() == m1.enums@.dom(),
        forall|i: int|
            0 <= i < m1.enums.value_seq().len() ==> (#[trigger] m2.enums.value_seq()[i]).values@
                == m1.enums.value_seq()[i].values@ && m2.enums.value_seq()[i].variants
                == m1.enums.value_seq()[i].variants,
{
    lemma_variant_keys_resolved(m1.classes@, m0.classes@, variant);
    lemma_variant_enums_resolved(m1.enums.value_seq(), m0.enums.value_seq(), variant);
    assert forall|i: int| 0 <= i < m1.classes@.len() implies (#[trigger] m2.classes@[i]).keys@
        == m1.classes@[i].keys@ by {
        let c0 = m0.classes@[i];
        let c1 = m1.classes@[i];
        let c2 = m2.classes@[i];
        assert(class_with_variant(c1, c0, variant));
        assert(class_with_variant(c2, c1, variant));
        assert forall|j: int| 0 <= j < c2.keys@.len() implies c2.keys@[j] == c1.keys@[j] by {
            lemma_key_variant_idempotent(c0.keys@[j], variant);
        }
        assert(c2.keys@ =~= c1.keys@);
    }
    assert forall|i: int| 0 <= i < m1.enums.value_seq().len() implies (#[trigger] m2.enums.value_seq()[i]).values@
        == m1.enums.value_seq()[i].values@ && m2.enums.value_seq()[i].variants
        == m1.enums.value_seq()[i].variants by {
        lemma_enum_variant_idempotent(m1.enums.value_seq()[i], m2.enums.value_seq()[i], m0.enums.value_seq()[i], variant);
    }
    assert(m2.enums@.dom() =~= m1.enums@.dom());
}

/// What resolving a variant does to each key and enum, stated on their own
/// fields: a key with a default for the variant takes exactly that default,
/// whatever default it had (or lacked) before; any other key keeps its
/// default; nothing else of a key changes. An enum with a value set for the
/// variant takes exactly that set as its values; any other enum is
/// unchanged. The key count is the number of keys with a default for the
/// variant.
pub proof fn lemma_variant_sets_defaults(new: DataModel, old: DataModel, variant: Seq<char>)
    requires
        variant_resolved(new, old, variant),
    ensures
        new.meta == old.meta,
        new.classes@.len() == old.classes@.len(),
        forall|i: int|
            0 <= i < old.classes@.len() ==> {
                let o = old.classes@[i];
                let n = #[trigger] new.classes@[i];
                &&& n.id == o.id
                &&& n.namespace_name == o.namespace_name
                &&& n.namespace_id == o.namespace_id
                &&& n.class_index == o.class_index
                &&& n.keys@.len() == o.keys@.len()
            },
        forall|i: int, j: int|
            0 <= i < old.classes@.len() && 0 <= j < old.classes@[i].keys@.len() ==> {
                let o = old.classes@[i].keys@[j];
                let n = #[trigger] new.classes@[i].keys@[j];
                &&& new.classes@[i].keys@.len() == old.classes@[i].keys@.len()
                &&& (o.defaults@.dom().contains(variant) ==> n.default == Some(o.defaults@[variant]))
                &&& (!o.defaults@.dom().contains(variant) ==> n.default == o.default)
                &&& n.id == o.id
                &&& n.data_type == o.data_type
                &&& n.defaults == o.defaults
                &&& n.enum_ref == o.enum_ref
                &&& n.max_size == o.max_size
                &&& n.read_only == o.read_only
                &&& n.thread_safe == o.thread_safe
                &&& n.persistent == o.persistent
                &&& n.event == o.event
                &&& n.helpers == o.helpers
                &&& n.key_index == o.key_index
            },
        new.enums.key_seq() == old.enums.key_seq(),
        forall|i: int|
            0 <= i < old.enums.value_seq().len() ==> {
                let o = old.enums.value_seq()[i];
                let n = #[trigger] new.enums.value_seq()[i];
                &&& (o.variants@.dom().contains(variant) ==> n.values@ == o.variants@[variant]@
                    && n.variants == o.variants)
                &&& (!o.variants@.dom().contains(variant) ==> n == o)
            },
{
    assert forall|i: int, j: int|
        0 <= i < old.classes@.len() && 0 <= j < old.classes@[i].keys@.len() implies
            new.classes@[i].keys@.len() == old.classes@[i].keys@.len() && {
            let o = old.classes@[i].keys@[j];
            let n = #[trigger] new.classes@[i].keys@[j];
            &&& (o.defaults@.dom().contains(variant) ==> n.default == Some(o.defaults@[variant]))
            &&& (!o.defaults@.dom().contains(variant) ==> n.default == o.default)
            &&& n.id == o.id
            &&& n.data_type == o.data_type
            &&& n.defaults == o.defaults
            &&& n.enum_ref == o.enum_ref
            &&& n.max_size == o.max_size
            &&& n.read_only == o.read_only
            &&& n.thread_safe == o.thread_safe
            &&& n.persistent == o.persistent
            &&& n.event == o.event
            &&& n.helpers == o.helpers
            &&& n.key_index == o.key_index
        } by {
        assert(class_with_variant(new.classes@[i], old.classes@[i], variant));
    }
}

/// The key count of a variant resolution is the number of keys, over all
/// classes, whose per-variant defaults hold the variant; each class adds
/// the number of its keys that do.
pub proof fn lemma_variant_count_is_keys_with_default(classes: Seq<Class>, variant: Seq<char>)
    ensures
        variant_keys(classes, variant) == flat_keys(classes).filter(
            |k: Key| k.defaults@.dom().contains(variant),
        ).len(),
    decreases classes.len(),
{
    if classes.len() > 0 {
        lemma_variant_count_is_keys_with_default(classes.drop_last(), variant);
        lemma_variant_keys_in_filter(classes.last().keys@, variant);
        let p = |k: Key| k.defaults@.dom().contains(variant);
        Seq::filter_distributes_over_add(flat_keys(classes.drop_last()), classes.last().keys@, p);
    }
}

proof fn lemma_variant_keys_in_filter(keys: Seq<Key>, variant: Seq<char>)
    ensures
        variant_keys_in(keys, variant) == keys.filter(|k: Key| k.defaults@.dom().contains(variant)).len(),
    decreases keys.len(),
{
    reveal(Seq::filter);
    if keys.len() > 0 {
        lemma_variant_keys_in_filter(keys.drop_last(), variant);
    }
}

/// All keys of a run of classes, class after class.
pub open spec fn flat_keys(classes: Seq<Class>) -> Seq<Key>
    decreases classes.len(),
{
    if classes.len() == 0 {
        Seq::empty()
    } else {
        flat_keys(classes.drop_last()) + classes.last().keys@
    }
}

proof fn lemma_count_in_keys_filter(keys: Seq<Key>, p: spec_fn(Key) -> bool, sel: KeySelector)
    requires
        forall|k: Key| #[trigger] p(k) == selects(sel, k),
    ensures
        count_in_keys(keys, sel) == keys.filter(p).len(),
    decreases keys.len(),
{
    reveal(Seq::filter);
    if keys.len() > 0 {
        lemma_count_in_keys_filter(keys.drop_last(), p, sel);
    }
}

proof fn lemma_count_in_classes_filter(classes: Seq<Class>, p: spec_fn(Key) -> bool, sel: KeySelector)
    requires
        forall|k: Key| #[trigger] p(k) == selects(sel, k),
    ensures
        count_in_classes(classes, sel) == flat_keys(classes).filter(p).len(),
    decreases classes.len(),
{
    if classes.len() > 0 {
        lemma_count_in_classes_filter(classes.drop_last(), p, sel);
        lemma_count_in_keys_filter(classes.last().keys@, p, sel);
        Seq::filter_distributes_over_add(flat_keys(classes.drop_last()), classes.last().keys@, p);
    }
}

/// What the statistics count, stated on the keys themselves: the
/// read-only string count is the number of string keys that are read-only,
/// the writable string count the number of string keys that are not, and
/// each type's count the number of keys of that type.
pub proof fn lemma_statistics_count_keys(classes: Seq<Class>)
    ensures
        count_in_classes(classes, KeySelector::Text(true)) == flat_keys(classes).filter(
            |k: Key| k.data_type == DataType::String && k.read_only,
        ).len(),
        count_in_classes(classes, KeySelector::Text(false)) == flat_keys(classes).filter(
            |k: Key| k.data_type == DataType::String && !k.read_only,
        ).len(),
        forall|t: DataType|
            #[trigger] count_in_classes(classes, KeySelector::OfType(t)) == flat_keys(classes).filter(
                |k: Key| k.data_type == t,
            ).len(),
{
    lemma_count_in_classes_filter(classes, |k: Key| k.data_type == DataType::String && k.read_only, KeySelector::Text(true));
    lemma_count_in_classes_filter(classes, |k: Key| k.data_type == DataType::String && !k.read_only, KeySelector::Text(false));
    assert forall|t: DataType|
        #[trigger] count_in_classes(classes, KeySelector::OfType(t)) == flat_keys(classes).filter(
            |k: Key| k.data_type == t,
        ).len() by {
        lemma_count_in_classes_filter(classes, |k: Key| k.data_type == t, KeySelector::OfType(t));
    }
}

/// Binary keys: the keys that no count of the statistics takes in.
pub open spec fn binary_selector() -> KeySelector {
    KeySelector::OfType(DataType::Binary)
}

/// The sum of the statistics' counts for a run of classes, with the binary
/// keys that they leave out.
pub open spec fn statistics_sum(classes: Seq<Class>) -> nat {
    count_in_classes(classes, KeySelector::OfType(DataType::Bool)) + count_in_classes(
        classes,
        KeySelector::OfType(DataType::Uint8),
    ) + count_in_classes(classes, KeySelector::OfType(DataType::Int8)) + count_in_classes(
        classes,
        KeySelector::OfType(DataType::Uint16),
    ) + count_in_classes(classes, KeySelector::OfType(DataType::Int16)) + count_in_classes(
        classes,
        KeySelector::OfType(DataType::Uint32),
    ) + count_in_classes(classes, KeySelector::OfType(DataType::Int32)) + count_in_classes(
        classes,
        KeySelector::Text(true),
    ) + count_in_classes(classes, KeySelector::Text(false)) + count_in_classes(
        classes,
        binary_selector(),
    )
}

proof fn lemma_keys_counted_once(keys: Seq<Key>)
    ensures
        count_in_keys(keys, KeySelector::OfType(DataType::Bool)) + count_in_keys(
            keys,
            KeySelector::OfType(DataType::Uint8),
        ) + count_in_keys(keys, KeySelector::OfType(DataType::Int8)) + count_in_keys(
            keys,
            KeySelector::OfType(DataType::Uint16),
        ) + count_in_keys(keys, KeySelector::OfType(DataType::Int16)) + count_in_keys(
            keys,
            KeySelector::OfType(DataType::Uint32),
        ) + count_in_keys(keys, KeySelector::OfType(DataType::Int32)) + count_in_keys(
            keys,
            KeySelector::Text(true),
        ) + count_in_keys(keys, KeySelector::Text(false)) + count_in_keys(keys, binary_selector())
            == keys.len(),
    decreases keys.len(),
{
    if keys.len() > 0 {
        lemma_keys_counted_once(keys.drop_last());
    }
}

/// Every key falls in exactly one of the statistics' counts, or is binary:
/// the counts and the binary keys add up to all the keys.
pub proof fn lemma_statistics_cover_all_keys(classes: Seq<Class>)
    ensures
        statistics_sum(classes) == total_keys(classes),
    decreases classes.len(),
{
    if classes.len() > 0 {
        lemma_statistics_cover_all_keys(classes.drop_last());
        lemma_keys_counted_once(classes.last().keys@);
    }
}

} // verus!
