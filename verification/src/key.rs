//! The 32-bit key identifier: namespace, class, key position, value type
//! and three flags packed into one word.
//!
//! Layout, from the least significant bit:
//! bits 0-9 key id, bits 10-15 class index, bits 16-19 type code,
//! bit 20 thread-safe, bit 21 derived, bit 22 read-only,
//! bits 23-31 namespace id. A field wider than its slot keeps its low bits.

use vstd::prelude::*;

verus! {

/// Mask of the key-id slot.
pub const KEY_ID_MASK: u32 = 0x3ff;
/// Mask of the class-index slot.
pub const CLASS_MASK: u32 = 0x3f;
/// Mask of the type-code slot.
pub const TYPE_MASK: u32 = 0xf;
/// Mask of the namespace slot.
pub const NAMESPACE_MASK: u32 = 0x1ff;

/// The fields that make up an encoded key.
#[derive(Clone, Copy, Debug, PartialEq, Eq, Structural)]
pub struct KeyEncoding {
    pub namespace: u16,
    pub class: u8,
    pub id: u16,
    pub data_type: u8,
    pub thread_safe: bool,
    pub derived: bool,
    pub read_only: bool,
}

/// One bit for a flag.
pub open spec fn flag_bit(b: bool) -> u32 {
    if b {
        1
    } else {
        0
    }
}

/// The encoded word of `e`.
pub open spec fn spec_encode(e: KeyEncoding) -> u32 {
    (((e.namespace as u32) & NAMESPACE_MASK) << 23u32) | (flag_bit(e.read_only) << 22u32) | (
    flag_bit(e.derived) << 21u32) | (flag_bit(e.thread_safe) << 20u32) | (((e.data_type as u32)
        & TYPE_MASK) << 16u32) | (((e.class as u32) & CLASS_MASK) << 10u32) | ((e.id as u32)
        & KEY_ID_MASK)
}

/// Every field of `e` fits its slot.
pub open spec fn fits_slots(e: KeyEncoding) -> bool {
    &&& e.namespace <= NAMESPACE_MASK
    &&& e.class <= CLASS_MASK
    &&& e.id <= KEY_ID_MASK
    &&& e.data_type <= TYPE_MASK
}

/// The fields read back out of an encoded word.
pub open spec fn spec_decode(k: u32) -> KeyEncoding {
    KeyEncoding {
        namespace: ((k >> 23u32) & NAMESPACE_MASK) as u16,
        class: ((k >> 10u32) & CLASS_MASK) as u8,
        id: (k & KEY_ID_MASK) as u16,
        data_type: ((k >> 16u32) & TYPE_MASK) as u8,
        thread_safe: (k >> 20u32) & 1 == 1,
        derived: (k >> 21u32) & 1 == 1,
        read_only: (k >> 22u32) & 1 == 1,
    }
}

impl KeyEncoding {
    /// Packs the fields into one word.
    pub fn encode(&self) -> (k: u32)
        ensures
            k == spec_encode(*self),
    {
        let ro: u32 = if self.read_only { 1 } else { 0 };
        let dv: u32 = if self.derived { 1 } else { 0 };
        let ts: u32 = if self.thread_safe { 1 } else { 0 };
        (((self.namespace as u32) & NAMESPACE_MASK) << 23u32) | (ro << 22u32) | (dv << 21u32) | (ts
            << 20u32) | (((self.data_type as u32) & TYPE_MASK) << 16u32) | (((self.class as u32)
            & CLASS_MASK) << 10u32) | ((self.id as u32) & KEY_ID_MASK)
    }
}

/// Decoding an encoded key gives back its fields, whenever each field fits
/// its slot.
pub proof fn lemma_decode_encode(e: KeyEncoding)
    requires
        fits_slots(e),
    ensures
        spec_decode(spec_encode(e)) == e,
{
    let ns = e.namespace as u32;
    let cl = e.class as u32;
    let id = e.id as u32;
    let ty = e.data_type as u32;
    let ro = flag_bit(e.read_only);
    let dv = flag_bit(e.derived);
    let ts = flag_bit(e.thread_safe);
    let k = spec_encode(e);
    assert(k == ((ns & 0x1ff) << 23u32) | (ro << 22u32) | (dv << 21u32) | (ts << 20u32) | ((ty
        & 0xf) << 16u32) | ((cl & 0x3f) << 10u32) | (id & 0x3ff));
    assert(ns <= 0x1ff && cl <= 0x3f && id <= 0x3ff && ty <= 0xf && ro <= 1 && dv <= 1 && ts <= 1
        ==> {
        let w = ((ns & 0x1ff) << 23u32) | (ro << 22u32) | (dv << 21u32) | (ts << 20u32) | ((ty
            & 0xf) << 16u32) | ((cl & 0x3f) << 10u32) | (id & 0x3ff);
        &&& (w >> 23u32) & 0x1ff == ns
        &&& (w >> 10u32) & 0x3f == cl
        &&& w & 0x3ff == id
        &&& (w >> 16u32) & 0xf == ty
        &&& (w >> 20u32) & 1 == ts
        &&& (w >> 21u32) & 1 == dv
        &&& (w >> 22u32) & 1 == ro
    }) by (bit_vector);
}

/// Where each field sits in the encoded word, read straight off its bits:
/// bit 22 is the read-only flag, bit 21 the derived flag, bit 20 the
/// thread-safe flag, bits 16-19 the type code, bits 10-15 the class index,
/// bits 0-9 the key id and bits 23-31 the namespace, each field cut to the
/// low bits that its slot holds. Decoding reads the same fields back.
pub proof fn lemma_decode_encode_masked(e: KeyEncoding)
    ensures
        ((spec_encode(e) >> 22u32) & 1 == 1) == e.read_only,
        ((spec_encode(e) >> 21u32) & 1 == 1) == e.derived,
        ((spec_encode(e) >> 20u32) & 1 == 1) == e.thread_safe,
        (spec_encode(e) >> 23u32) == (e.namespace as u32) % 512,
        (spec_encode(e) >> 10u32) & 0x3f == (e.class as u32) % 64,
        spec_encode(e) & 0x3ff == (e.id as u32) % 1024,
        (spec_encode(e) >> 16u32) & 0xf == (e.data_type as u32) % 16,
        spec_decode(spec_encode(e)).read_only == e.read_only,
        spec_decode(spec_encode(e)).thread_safe == e.thread_safe,
        spec_decode(spec_encode(e)).derived == e.derived,
        spec_decode(spec_encode(e)).namespace as u32 == (e.namespace as u32) % 512,
        spec_decode(spec_encode(e)).class as u32 == (e.class as u32) % 64,
        spec_decode(spec_encode(e)).id as u32 == (e.id as u32) % 1024,
        spec_decode(spec_encode(e)).data_type as u32 == (e.data_type as u32) % 16,
{
    let ns = e.namespace as u32;
    let cl = e.class as u32;
    let id = e.id as u32;
    let ty = e.data_type as u32;
    let ro = flag_bit(e.read_only);
    let dv = flag_bit(e.derived);
    let ts = flag_bit(e.thread_safe);
    assert(spec_encode(e) == ((ns & 0x1ff) << 23u32) | (ro << 22u32) | (dv << 21u32) | (ts << 20u32) | ((ty
        & 0xf) << 16u32) | ((cl & 0x3f) << 10u32) | (id & 0x3ff));
    assert(ns <= 0xffff && cl <= 0xff && id <= 0xffff && ty <= 0xff && ro <= 1 && dv <= 1 && ts <= 1
        ==> {
        let w = ((ns & 0x1ff) << 23u32) | (ro << 22u32) | (dv << 21u32) | (ts << 20u32) | ((ty
            & 0xf) << 16u32) | ((cl & 0x3f) << 10u32) | (id & 0x3ff);
        &&& (w >> 23u32) & 0x1ff == ns % 512
        &&& (w >> 23u32) == ns % 512
        &&& (w >> 10u32) & 0x3f == cl % 64
        &&& w & 0x3ff == id % 1024
        &&& (w >> 16u32) & 0xf == ty % 16
        &&& (w >> 20u32) & 1 == ts
        &&& (w >> 21u32) & 1 == dv
        &&& (w >> 22u32) & 1 == ro
    }) by (bit_vector);
}

/// Two keys whose fields fit their slots share an encoded word only if all
/// their fields agree.
pub proof fn lemma_encode_injective(a: KeyEncoding, b: KeyEncoding)
    requires
        fits_slots(a),
        fits_slots(b),
        spec_encode(a) == spec_encode(b),
    ensures
        a == b,
{
    lemma_decode_encode(a);
    lemma_decode_encode(b);
}

} // verus!
