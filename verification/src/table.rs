//! Tables keyed by an identity: `nohash_hasher::IntMap`, a hash map of the
//! standard library whose hasher hands the key back as its own hash.
//!
//! The hash of a key is the key, in every process alike, so such a table
//! behaves as a map from keys to values. Its operations are taken on trust
//! with that meaning; its contents are the map that its view gives. A fresh
//! table comes from `Default::default`, which is known to be empty.

use nohash_hasher::{IntMap, NoHashHasher};
use std::hash::BuildHasherDefault;
use vstd::prelude::*;

verus! {

/// `std::hash::BuildHasherDefault`, the hasher factory of an `IntMap`; an
/// opaque type.
#[verifier::external_type_specification]
#[verifier::external_body]
#[verifier::reject_recursive_types(H)]
pub struct ExBuildHasherDefault<H>(BuildHasherDefault<H>);

/// `nohash_hasher::NoHashHasher`, the hasher of an `IntMap`; an opaque
/// type.
#[verifier::external_type_specification]
#[verifier::external_body]
#[verifier::reject_recursive_types(T)]
pub struct ExNoHashHasher<T>(NoHashHasher<T>);

/// `values` are the values of `table`, each once, in the order of `keys`.
pub open spec fn walks<V>(table: Map<usize, V>, keys: Seq<usize>, values: Seq<V>) -> bool {
    &&& keys.no_duplicates()
    &&& keys.len() == values.len()
    &&& forall|key: usize| keys.contains(key) <==> table.contains_key(key)
    &&& forall|k: int| 0 <= k < keys.len() ==> #[trigger] values[k] == table[keys[k]]
}

/// `HashMap::insert` on an `IntMap`. Trusted: the table then maps `key` to
/// `value` and is otherwise as before, and the value that `key` had, if any,
/// is handed back.
#[verifier::external_body]
pub(crate) fn insert<V>(table: &mut IntMap<usize, V>, key: usize, value: V) -> (previous: Option<V>)
    ensures
        final(table)@ == old(table)@.insert(key, value),
        match previous {
            Some(v) => old(table)@.contains_key(key) && v == old(table)@[key],
            None => !old(table)@.contains_key(key),
        },
{
    table.insert(key, value)
}

/// `HashMap::get` on an `IntMap`. Trusted: the result is the value of `key`
/// if the table has one, and nothing if it has none.
#[verifier::external_body]
pub(crate) fn get<V>(table: &IntMap<usize, V>, key: usize) -> (found: Option<&V>)
    ensures
        match found {
            Some(v) => table@.contains_key(key) && *v == table@[key],
            None => !table@.contains_key(key),
        },
{
    table.get(&key)
}

/// `HashMap::into_values` on an `IntMap`, collected into a vector. Trusted:
/// the result holds the value of each entry once. Nothing is claimed of the
/// order in which the table hands them out.
#[verifier::external_body]
pub(crate) fn into_values<V>(table: IntMap<usize, V>) -> (values: Vec<V>)
    ensures
        exists|keys: Seq<usize>| walks(table@, keys, values@),
{
    table.into_values().collect()
}

} // verus!
