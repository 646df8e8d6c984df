//! The hash tables of this library, and what it takes for granted about
//! them.
//!
//! Every table is a `hashbrown::HashMap`, keyed by a number: the table of a
//! block by the number of a variable, the tables of a run context by the
//! number of a hash or of a value type. Verus does not look inside a table.
//! For each kind of table a function without a body names what the table
//! holds, and the functions below it say what each method of the table does
//! to that.
use vstd::prelude::*;

use crate::context::FnSignature;
use crate::context::TypeInfo;
use crate::inst::SsaValue;
use crate::program::VarId;

verus! {

/// `hashbrown::hash_map::DefaultHashBuilder`: the hasher of every table.
#[verifier::external_type_specification]
#[verifier::external_body]
pub struct ExDefaultHashBuilder(hashbrown::hash_map::DefaultHashBuilder);

/// `hashbrown::HashMap`: the table.
#[verifier::external_type_specification]
#[verifier::external_body]
#[verifier::reject_recursive_types(K)]
#[verifier::reject_recursive_types(V)]
#[verifier::reject_recursive_types(S)]
pub struct ExHashMap<K, V, S>(hashbrown::HashMap<K, V, S>);

/// What the table holds: the value stored under each key.
pub uninterp spec fn table_of(table: hashbrown::HashMap<usize, SsaValue>) -> Map<usize, SsaValue>;

/// `hashbrown::HashMap::new`: the new table holds nothing.
#[verifier::external_body]
pub(crate) fn table_new() -> (table: hashbrown::HashMap<usize, SsaValue>)
    ensures
        forall|key: usize| !(#[trigger] table_of(table).contains_key(key)),
{
    hashbrown::HashMap::new()
}

/// `hashbrown::HashMap::insert`: afterwards the table holds `value` under
/// `key` and is otherwise unchanged; the value that `key` held before is
/// returned.
#[verifier::external_body]
pub(crate) fn table_insert(
    table: &mut hashbrown::HashMap<usize, SsaValue>,
    key: usize,
    value: SsaValue,
) -> (previous: Option<SsaValue>)
    ensures
        table_of(*final(table)) == table_of(*old(table)).insert(key, value),
        previous == (if table_of(*old(table)).contains_key(key) {
            Some(table_of(*old(table))[key])
        } else {
            None
        }),
{
    table.insert(key, value)
}

/// `hashbrown::HashMap::get`: a copy of the value held under `key`, if the
/// table holds one.
#[verifier::external_body]
pub(crate) fn table_get(table: &hashbrown::HashMap<usize, SsaValue>, key: usize) -> (value: Option<
    SsaValue,
>)
    ensures
        value == (if table_of(*table).contains_key(key) {
            Some(table_of(*table)[key])
        } else {
            None
        }),
{
    table.get(&key).copied()
}

/// `hashbrown::HashMap::get_mut`: a reference to the value held under `key`,
/// if the table holds one. What is written through the reference is what the
/// table holds under `key` afterwards; nothing else changes.
#[verifier::external_body]
pub(crate) fn table_get_mut(table: &mut hashbrown::HashMap<usize, SsaValue>, key: usize) -> (slot:
    Option<&mut SsaValue>)
    ensures
        match slot {
            Some(value) => table_of(*old(table)).contains_key(key) && *value == table_of(
                *old(table),
            )[key] && table_of(*final(table)) == table_of(*old(table)).insert(key, *final(value)),
            None => !table_of(*old(table)).contains_key(key) && table_of(*final(table))
                == table_of(*old(table)),
        },
{
    table.get_mut(&key)
}

/// `hashbrown::HashMap::iter`: the pairs of the table, each key once and as
/// the variable that it numbers, in an order that is left open.
#[verifier::external_body]
pub(crate) fn table_entries(table: &hashbrown::HashMap<usize, SsaValue>) -> (entries: Vec<
    (VarId, SsaValue),
>)
    ensures
        forall|i: int|
            0 <= i < entries@.len() ==> table_of(*table).contains_pair(
                (#[trigger] entries@[i]).0.0,
                entries@[i].1,
            ),
        forall|i: int, j: int|
            0 <= i < j < entries@.len() ==> (#[trigger] entries@[i]).0 != (#[trigger] entries@[j]).0,
        forall|key: usize| #[trigger]
            table_of(*table).contains_key(key) ==> exists|i: int|
                0 <= i < entries@.len() && (#[trigger] entries@[i]).0.0 == key,
{
    table.iter().map(|(key, value)| (VarId(*key), *value)).collect()
}

/// What a table of types holds: the type registered under each hash.
pub uninterp spec fn types_of(table: hashbrown::HashMap<u64, TypeInfo>) -> Map<u64, TypeInfo>;

/// `hashbrown::HashMap::new`: the new table holds nothing.
#[verifier::external_body]
pub(crate) fn types_new() -> (table: hashbrown::HashMap<u64, TypeInfo>)
    ensures
        forall|key: u64| !(#[trigger] types_of(table).contains_key(key)),
{
    hashbrown::HashMap::new()
}

/// `hashbrown::HashMap::insert`: afterwards the table holds `value` under
/// `key` and is otherwise unchanged; the value that `key` held before is
/// returned.
#[verifier::external_body]
pub(crate) fn types_insert(
    table: &mut hashbrown::HashMap<u64, TypeInfo>,
    key: u64,
    value: TypeInfo,
) -> (previous: Option<TypeInfo>)
    ensures
        types_of(*final(table)) == types_of(*old(table)).insert(key, value),
        previous == (if types_of(*old(table)).contains_key(key) {
            Some(types_of(*old(table))[key])
        } else {
            None
        }),
{
    table.insert(key, value)
}

/// `hashbrown::HashMap::get`: the value held under `key`, if the table holds
/// one.
#[verifier::external_body]
pub(crate) fn types_get(table: &hashbrown::HashMap<u64, TypeInfo>, key: u64) -> (value: Option<
    &TypeInfo,
>)
    ensures
        value == (if types_of(*table).contains_key(key) {
            Some(&types_of(*table)[key])
        } else {
            None
        }),
{
    table.get(&key)
}

/// `hashbrown::HashMap::iter`: the pairs of the table, each key once and as
/// the hash that it numbers, in an order that is left open.
#[verifier::external_body]
pub(crate) fn types_entries(table: &hashbrown::HashMap<u64, TypeInfo>) -> (entries: Vec<
    (crate::context::Hash, &TypeInfo),
>)
    ensures
        forall|i: int|
            0 <= i < entries@.len() ==> types_of(*table).contains_pair(
                (#[trigger] entries@[i]).0.0,
                *entries@[i].1,
            ),
        forall|i: int, j: int|
            0 <= i < j < entries@.len() ==> (#[trigger] entries@[i]).0 != (#[trigger] entries@[j]).0,
        forall|key: u64| #[trigger]
            types_of(*table).contains_key(key) ==> exists|i: int|
                0 <= i < entries@.len() && (#[trigger] entries@[i]).0.0 == key,
{
    table.iter().map(|(key, value)| (crate::context::Hash(*key), value)).collect()
}

/// What a table of functions holds: the signature registered under each
/// hash.
pub uninterp spec fn signatures_of(table: hashbrown::HashMap<u64, FnSignature>) -> Map<
    u64,
    FnSignature,
>;

/// `hashbrown::HashMap::new`: the new table holds nothing.
#[verifier::external_body]
pub(crate) fn signatures_new() -> (table: hashbrown::HashMap<u64, FnSignature>)
    ensures
        forall|key: u64| !(#[trigger] signatures_of(table).contains_key(key)),
{
    hashbrown::HashMap::new()
}

/// `hashbrown::HashMap::insert`: afterwards the table holds `value` under
/// `key` and is otherwise unchanged; the value that `key` held before is
/// returned.
#[verifier::external_body]
pub(crate) fn signatures_insert(
    table: &mut hashbrown::HashMap<u64, FnSignature>,
    key: u64,
    value: FnSignature,
) -> (previous: Option<FnSignature>)
    ensures
        signatures_of(*final(table)) == signatures_of(*old(table)).insert(key, value),
        previous == (if signatures_of(*old(table)).contains_key(key) {
            Some(signatures_of(*old(table))[key])
        } else {
            None
        }),
{
    table.insert(key, value)
}

/// `hashbrown::HashMap::iter`: the pairs of the table, each key once and as
/// the hash that it numbers, in an order that is left open.
#[verifier::external_body]
pub(crate) fn signatures_entries(table: &hashbrown::HashMap<u64, FnSignature>) -> (entries: Vec<
    (crate::context::Hash, &FnSignature),
>)
    ensures
        forall|i: int|
            0 <= i < entries@.len() ==> signatures_of(*table).contains_pair(
                (#[trigger] entries@[i]).0.0,
                *entries@[i].1,
            ),
        forall|i: int, j: int|
            0 <= i < j < entries@.len() ==> (#[trigger] entries@[i]).0 != (#[trigger] entries@[j]).0,
        forall|key: u64| #[trigger]
            signatures_of(*table).contains_key(key) ==> exists|i: int|
                0 <= i < entries@.len() && (#[trigger] entries@[i]).0.0 == key,
{
    table.iter().map(|(key, value)| (crate::context::Hash(*key), value)).collect()
}

/// What a table of value types holds: the hash registered for each value
/// type.
pub uninterp spec fn hashes_of(table: hashbrown::HashMap<u64, u64>) -> Map<u64, u64>;

/// `hashbrown::HashMap::new`: the new table holds nothing.
#[verifier::external_body]
pub(crate) fn hashes_new() -> (table: hashbrown::HashMap<u64, u64>)
    ensures
        forall|key: u64| !(#[trigger] hashes_of(table).contains_key(key)),
{
    hashbrown::HashMap::new()
}

/// `hashbrown::HashMap::insert`: afterwards the table holds `value` under
/// `key` and is otherwise unchanged; the value that `key` held before is
/// returned.
#[verifier::external_body]
pub(crate) fn hashes_insert(table: &mut hashbrown::HashMap<u64, u64>, key: u64, value: u64) -> (previous:
    Option<u64>)
    ensures
        hashes_of(*final(table)) == hashes_of(*old(table)).insert(key, value),
        previous == (if hashes_of(*old(table)).contains_key(key) {
            Some(hashes_of(*old(table))[key])
        } else {
            None
        }),
{
    table.insert(key, value)
}

/// `hashbrown::HashMap::get`: a copy of the value held under `key`, if the
/// table holds one.
#[verifier::external_body]
pub(crate) fn hashes_get(table: &hashbrown::HashMap<u64, u64>, key: u64) -> (value: Option<u64>)
    ensures
        value == (if hashes_of(*table).contains_key(key) {
            Some(hashes_of(*table)[key])
        } else {
            None
        }),
{
    table.get(&key).copied()
}

} // verus!
