//! The data model: namespaces of classes of typed keys, with enums.

use vstd::prelude::*;
use crate::strmap::StrMap;

verus! {

/// Value type of a key.
#[derive(Clone, Copy, Debug, PartialEq, Eq, Structural)]
pub enum DataType {
    Bool,
    Uint8,
    Int8,
    Uint16,
    Int16,
    Uint32,
    Int32,
    String,
    Binary,
}

/// The code that the key encoding stores for each type.
pub open spec fn spec_type_code(t: DataType) -> u8 {
    match t {
        DataType::Bool => 1,
        DataType::Uint8 => 2,
        DataType::Int8 => 3,
        DataType::Uint16 => 4,
        DataType::Int16 => 5,
        DataType::Uint32 => 6,
        DataType::Int32 => 7,
        DataType::String => 8,
        DataType::Binary => 9,
    }
}

/// The lower-case name of each type, as the manifest's `mem` field spells it.
pub open spec fn spec_mem_name(t: DataType) -> Seq<char> {
    match t {
        DataType::Bool => "bool"@,
        DataType::Uint8 => "uint8"@,
        DataType::Int8 => "int8"@,
        DataType::Uint16 => "uint16"@,
        DataType::Int16 => "int16"@,
        DataType::Uint32 => "uint32"@,
        DataType::Int32 => "int32"@,
        DataType::String => "string"@,
        DataType::Binary => "binary"@,
    }
}

impl DataType {
    /// The type code stored in an encoded key.
    pub fn type_code(&self) -> (c: u8)
        ensures
            c == spec_type_code(*self),
    {
        match self {
            DataType::Bool => 1,
            DataType::Uint8 => 2,
            DataType::Int8 => 3,
            DataType::Uint16 => 4,
            DataType::Int16 => 5,
            DataType::Uint32 => 6,
            DataType::Int32 => 7,
            DataType::String => 8,
            DataType::Binary => 9,
        }
    }

    /// The type's lower-case name.
    pub fn mem_name(&self) -> (s: String)
        ensures
            s@ == spec_mem_name(*self),
    {
        match self {
            DataType::Bool => String::from_str("bool"),
            DataType::Uint8 => String::from_str("uint8"),
            DataType::Int8 => String::from_str("int8"),
            DataType::Uint16 => String::from_str("uint16"),
            DataType::Int16 => String::from_str("int16"),
            DataType::Uint32 => String::from_str("uint32"),
            DataType::Int32 => String::from_str("int32"),
            DataType::String => String::from_str("string"),
            DataType::Binary => String::from_str("binary"),
        }
    }
}

/// A default value as the model file writes it.
#[derive(Clone, Debug, PartialEq)]
pub enum DefaultValue {
    Boolean(bool),
    Integer(i64),
    /// A floating-point default, held as the integer that Rust's `as`
    /// conversion of it gives (toward zero, saturating).
    FloatAsInteger(i64),
    Text(String),
    /// A date, an array or a table.
    Other,
}

impl DefaultValue {
    /// A copy of the value.
    pub fn duplicate(&self) -> (r: Self)
        ensures
            r == *self,
    {
        match self {
            DefaultValue::Boolean(b) => DefaultValue::Boolean(*b),
            DefaultValue::Integer(i) => DefaultValue::Integer(*i),
            DefaultValue::FloatAsInteger(i) => DefaultValue::FloatAsInteger(*i),
            DefaultValue::Text(s) => DefaultValue::Text(s.clone()),
            DefaultValue::Other => DefaultValue::Other,
        }
    }
}

/// One key of a class.
#[derive(Clone, Debug)]
pub struct Key {
    pub id: String,
    pub data_type: DataType,
    pub default: Option<DefaultValue>,
    /// Per-variant defaults, by variant name.
    pub defaults: StrMap<DefaultValue>,
    /// Name of the enum that the key's values come from.
    pub enum_ref: Option<String>,
    pub max_size: Option<usize>,
    pub read_only: bool,
    pub thread_safe: bool,
    pub persistent: bool,
    pub event: bool,
    pub helpers: bool,
    /// Explicit position of the key in its class.
    pub key_index: Option<u16>,
}

/// A class: a named group of keys.
#[derive(Clone, Debug)]
pub struct Class {
    pub id: String,
    pub keys: Vec<Key>,
    pub namespace_name: Option<String>,
    pub namespace_id: Option<u16>,
    pub class_index: Option<u8>,
}

/// An enum: named integer values, with per-variant value sets.
#[derive(Clone, Debug)]
pub struct EnumDef {
    pub values: StrMap<i64>,
    pub variants: StrMap<StrMap<i64>>,
}

/// The model's header.
#[derive(Clone, Debug)]
pub struct Meta {
    pub id: String,
    pub version: String,
    pub doc: Option<String>,
    pub namespace_id: Option<u16>,
}

/// A whole data model.
#[derive(Clone, Debug)]
pub struct DataModel {
    pub meta: Meta,
    pub enums: StrMap<EnumDef>,
    pub classes: Vec<Class>,
}

impl Key {
    /// The key's maps are well formed.
    pub open spec fn wf(&self) -> bool {
        self.defaults.wf()
    }
}

impl Class {
    /// Every key of the class is well formed.
    pub open spec fn wf(&self) -> bool {
        forall|j: int| 0 <= j < self.keys@.len() ==> (#[trigger] self.keys@[j]).wf()
    }
}

impl EnumDef {
    /// The enum's maps are well formed.
    pub open spec fn wf(&self) -> bool {
        &&& self.values.wf()
        &&& self.variants.wf()
        &&& forall|i: int|
            0 <= i < self.variants.value_seq().len() ==> (#[trigger] self.variants.value_seq()[i]).wf()
    }

    /// An enum with no values and no variants.
    pub fn empty() -> (d: Self)
        ensures
            d.wf(),
            d.values@ == Map::<Seq<char>, i64>::empty(),
            d.variants@ == Map::<Seq<char>, StrMap<i64>>::empty(),
    {
        let d = EnumDef { values: StrMap::new(), variants: StrMap::new() };
        assert(d.variants.value_seq().len() == 0) by {
            d.variants.lemma_lengths();
        }
        d
    }
}

impl DataModel {
    /// Every map in the model is well formed.
    pub open spec fn wf(&self) -> bool {
        &&& self.enums.wf()
        &&& forall|i: int|
            0 <= i < self.enums.value_seq().len() ==> (#[trigger] self.enums.value_seq()[i]).wf()
        &&& forall|i: int| 0 <= i < self.classes@.len() ==> (#[trigger] self.classes@[i]).wf()
    }
}

/// Number of keys in a run of classes.
pub open spec fn total_keys(classes: Seq<Class>) -> nat
    decreases classes.len(),
{
    if classes.len() == 0 {
        0
    } else {
        total_keys(classes.drop_last()) + classes.last().keys@.len()
    }
}

} // verus!
