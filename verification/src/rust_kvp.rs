//! The Rust backend's template context: the key constants of every
//! accessor and the names of the persistent keys.

use vstd::prelude::*;

verus! {

/// What the Rust backend knows of one key accessor.
#[derive(Clone, Debug, PartialEq)]
pub struct Accessor {
    /// Name of the key constant, `DM_KEY_...`.
    pub const_name: String,
    /// The encoded key, as a hexadecimal literal.
    pub hex_value: String,
    pub persistent: bool,
}

/// An encoded key constant, emitted as `pub const NAME: u32 = VALUE;`.
#[derive(Clone, Debug, PartialEq)]
pub struct KeyConst {
    pub const_name: String,
    pub hex_value: String,
}

/// The values the `dm_rust.rs` template is rendered with, beside the
/// accessors themselves.
#[derive(Clone, Debug, PartialEq)]
pub struct RustKvpContext {
    pub key_consts: Vec<KeyConst>,
    pub persistent_key_names: Vec<String>,
    pub has_int: bool,
    pub has_bool: bool,
    pub has_bytes: bool,
}

/// The constant of each accessor, in order.
pub open spec fn consts_of(a: Seq<Accessor>) -> Seq<(Seq<char>, Seq<char>)> {
    a.map_values(|x: Accessor| (x.const_name@, x.hex_value@))
}

/// The constant names of the persistent accessors, in order.
pub open spec fn persistent_names(a: Seq<Accessor>) -> Seq<Seq<char>>
    decreases a.len(),
{
    if a.len() == 0 {
        Seq::empty()
    } else {
        persistent_names(a.drop_last()) + if a.last().persistent {
            seq![a.last().const_name@]
        } else {
            Seq::<Seq<char>>::empty()
        }
    }
}

/// The constants of the accessors are their names and values, one for one
/// and in order.
pub proof fn lemma_consts_are_accessor_names(a: Seq<Accessor>)
    ensures
        consts_of(a).len() == a.len(),
        forall|i: int|
            0 <= i < a.len() ==> #[trigger] consts_of(a)[i] == (a[i].const_name@, a[i].hex_value@),
{
}

/// The persistent names are the constant names of exactly the persistent
/// accessors, each its own, in accessor order.
pub proof fn lemma_persistent_names_are_persistent_accessors(a: Seq<Accessor>)
    ensures
        persistent_names(a) == a.filter(|x: Accessor| x.persistent).map_values(|x: Accessor| x.const_name@),
    decreases a.len(),
{
    reveal(Seq::filter);
    if a.len() > 0 {
        lemma_persistent_names_are_persistent_accessors(a.drop_last());
        let f = a.drop_last().filter(|x: Accessor| x.persistent);
        if a.last().persistent {
            assert(f.push(a.last()).map_values(|x: Accessor| x.const_name@) =~= f.map_values(
                |x: Accessor| x.const_name@,
            ) + seq![a.last().const_name@]);
        } else {
            assert(f.map_values(|x: Accessor| x.const_name@) + Seq::<Seq<char>>::empty() =~= f.map_values(
                |x: Accessor| x.const_name@,
            ));
        }
    }
}

/// Appends the constants and persistent names of `accessors`.
fn add_accessors(consts: &mut Vec<KeyConst>, persistent: &mut Vec<String>, accessors: &Vec<Accessor>)
    ensures
        final(consts)@.map_values(|k: KeyConst| (k.const_name@, k.hex_value@)) == old(consts)@.map_values(
            |k: KeyConst| (k.const_name@, k.hex_value@),
        ) + consts_of(accessors@),
        final(persistent)@.map_values(|s: String| s@) == old(persistent)@.map_values(|s: String| s@)
            + persistent_names(accessors@),
{
    let n = accessors.len();
    let mut i: usize = 0;
    while i < n
        invariant
            n == accessors@.len(),
            i <= n,
            consts@.map_values(|k: KeyConst| (k.const_name@, k.hex_value@)) == old(consts)@.map_values(
                |k: KeyConst| (k.const_name@, k.hex_value@),
            ) + consts_of(accessors@.take(i as int)),
            persistent@.map_values(|s: String| s@) == old(persistent)@.map_values(|s: String| s@)
                + persistent_names(accessors@.take(i as int)),
        decreases n - i,
    {
        let a = &accessors[i];
        let ghost c0 = consts@;
        let ghost p0 = persistent@;
        consts.push(KeyConst { const_name: a.const_name.clone(), hex_value: a.hex_value.clone() });
        if a.persistent {
            persistent.push(a.const_name.clone());
        }
        proof {
            assert(accessors@.take(i + 1).drop_last() =~= accessors@.take(i as int));
            assert(accessors@.take(i + 1) =~= accessors@.take(i as int).push(*a));
            assert(consts_of(accessors@.take(i + 1)) =~= consts_of(accessors@.take(i as int)).push((a.const_name@, a.hex_value@)));
            assert(consts@.map_values(|k: KeyConst| (k.const_name@, k.hex_value@)) =~= c0.map_values(|k: KeyConst| (k.const_name@, k.hex_value@)).push((a.const_name@, a.hex_value@)));
            if a.persistent {
                assert(persistent@.map_values(|s: String| s@) =~= p0.map_values(|s: String| s@).push(a.const_name@));
            } else {
                assert(persistent@.map_values(|s: String| s@) =~= p0.map_values(|s: String| s@));
            }
            assert(consts@.map_values(|k: KeyConst| (k.const_name@, k.hex_value@)) =~= old(consts)@.map_values(
                |k: KeyConst| (k.const_name@, k.hex_value@),
            ) + consts_of(accessors@.take(i + 1)));
            assert(persistent@.map_values(|s: String| s@) =~= old(persistent)@.map_values(|s: String| s@)
                + persistent_names(accessors@.take(i + 1)));
        }
        i = i + 1;
    }
    assert(accessors@.take(n as int) =~= accessors@);
}

/// Collects the key constants of the integer, boolean and string/binary
/// accessors, in that order, the names of the persistent ones in the same
/// order, and which kinds of storage the model has.
pub fn generate(
    int_group_count: usize,
    int_accessors: &Vec<Accessor>,
    has_bool_group: bool,
    bool_accessors: &Vec<Accessor>,
    bytes_accessors: &Vec<Accessor>,
) -> (ctx: RustKvpContext)
    ensures
        ctx.key_consts@.map_values(|k: KeyConst| (k.const_name@, k.hex_value@)) == consts_of(
            int_accessors@,
        ) + consts_of(bool_accessors@) + consts_of(bytes_accessors@),
        ctx.persistent_key_names@.map_values(|s: String| s@) == persistent_names(int_accessors@)
            + persistent_names(bool_accessors@) + persistent_names(bytes_accessors@),
        ctx.has_int == (int_group_count > 0),
        ctx.has_bool == has_bool_group,
        ctx.has_bytes == (bytes_accessors@.len() > 0),
{
    let mut key_consts: Vec<KeyConst> = Vec::new();
    let mut persistent_key_names: Vec<String> = Vec::new();
    assert(key_consts@.map_values(|k: KeyConst| (k.const_name@, k.hex_value@)) =~= Seq::empty());
    assert(persistent_key_names@.map_values(|s: String| s@) =~= Seq::empty());
    add_accessors(&mut key_consts, &mut persistent_key_names, int_accessors);
    add_accessors(&mut key_consts, &mut persistent_key_names, bool_accessors);
    add_accessors(&mut key_consts, &mut persistent_key_names, bytes_accessors);
    assert(Seq::<(Seq<char>, Seq<char>)>::empty() + consts_of(int_accessors@) =~= consts_of(int_accessors@));
    assert(Seq::<Seq<char>>::empty() + persistent_names(int_accessors@) =~= persistent_names(int_accessors@));
    RustKvpContext {
        key_consts,
        persistent_key_names,
        has_int: int_group_count > 0,
        has_bool: has_bool_group,
        has_bytes: bytes_accessors.len() > 0,
    }
}

} // verus!
