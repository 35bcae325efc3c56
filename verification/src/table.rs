//! The hash tables of the daemon: `fxhash`'s `FxHashMap` with integer keys.
//!
//! `FxHashMap` is std's `HashMap` with another hasher. What a table holds is its view, a map.

use fxhash::FxHashMap;
use std::hash::Hash;
use vstd::prelude::*;
use vstd::std_specs::hash::obeys_key_model;

verus! {

/// The hasher of `fxhash`.
#[verifier::external_type_specification]
#[verifier::external_body]
pub struct ExFxHasher(fxhash::FxHasher);

/// What makes the hashers of a table.
#[verifier::external_type_specification]
#[verifier::external_body]
#[verifier::reject_recursive_types(H)]
pub struct ExBuildHasherDefault<H>(std::hash::BuildHasherDefault<H>);

/// Calls `HashMap::get`. Claims that it gives the value of the key, `None` where the key is not in
/// the table.
#[verifier::external_body]
pub(crate) fn map_get<'a, K: Eq + Hash, V>(map: &'a FxHashMap<K, V>, key: &K) -> (r: Option<&'a V>)
    requires
        obeys_key_model::<K>(),
    ensures
        match r {
            Some(v) => map@.contains_key(*key) && *v == map@[*key],
            None => !map@.contains_key(*key),
        },
{
    map.get(key)
}

/// Calls `HashMap::get_mut`. Claims that it gives access to the value of the key and to nothing
/// else, `None` where the key is not in the table.
#[verifier::external_body]
pub(crate) fn map_get_mut<'a, K: Eq + Hash, V>(map: &'a mut FxHashMap<K, V>, key: &K) -> (r: Option<
    &'a mut V,
>)
    requires
        obeys_key_model::<K>(),
    ensures
        match r {
            Some(v) => {
                &&& old(map)@.contains_key(*key)
                &&& *v == old(map)@[*key]
                &&& final(map)@ == old(map)@.insert(*key, *final(v))
            },
            None => !old(map)@.contains_key(*key) && final(map)@ == old(map)@,
        },
{
    map.get_mut(key)
}

/// Calls `HashMap::insert`. Claims that afterwards the table holds the value under the key, and
/// everything else as before.
#[verifier::external_body]
pub(crate) fn map_insert<K: Eq + Hash, V>(map: &mut FxHashMap<K, V>, key: K, value: V) -> (r: Option<
    V,
>)
    requires
        obeys_key_model::<K>(),
    ensures
        final(map)@ == old(map)@.insert(key, value),
        match r {
            Some(v) => old(map)@.contains_key(key) && v == old(map)@[key],
            None => !old(map)@.contains_key(key),
        },
{
    map.insert(key, value)
}

/// Calls `HashMap::remove`. Claims that it takes the key and its value out of the table and leaves
/// everything else, `None` where the key is not in the table.
#[verifier::external_body]
pub(crate) fn map_remove<K: Eq + Hash, V>(map: &mut FxHashMap<K, V>, key: &K) -> (r: Option<V>)
    requires
        obeys_key_model::<K>(),
    ensures
        final(map)@ == old(map)@.remove(*key),
        match r {
            Some(v) => old(map)@.contains_key(*key) && v == old(map)@[*key],
            None => !old(map)@.contains_key(*key),
        },
{
    map.remove(key)
}

/// Calls `HashMap::keys`. Claims that it gives each key of the table once, and says nothing of
/// their order.
#[verifier::external_body]
pub(crate) fn map_keys<K: Eq + Hash + Copy, V>(map: &FxHashMap<K, V>) -> (r: Vec<K>)
    requires
        obeys_key_model::<K>(),
    ensures
        r@.no_duplicates(),
        forall|k: K| r@.contains(k) <==> #[trigger] map@.contains_key(k),
{
    map.keys().copied().collect()
}

} // verus!
