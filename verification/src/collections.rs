//! Hash sets and maps of `rustc_hash`, as verified code sees them.
//!
//! `FxHashSet` and `FxHashMap` are the sets and maps of the standard library
//! with another hasher. What a set or a map holds is its view (`@`), a `Set` or
//! a `Map`. The functions here are trusted: each makes one call, and its
//! contract says what that call does to the view.
use rustc_hash::{FxHashMap, FxHashSet};
use std::hash::Hash;
use vstd::prelude::*;
use vstd::std_specs::hash::obeys_key_model;

verus! {

/// The hasher factory of `rustc_hash`. It has no state: every hasher it builds
/// starts from zero.
#[verifier::external_type_specification]
#[verifier::external_body]
pub struct ExFxBuildHasher(rustc_hash::FxBuildHasher);

/// `HashSet::insert`: the key is in the set afterwards, and nothing else has
/// changed. Returns whether the key is new.
#[verifier::external_body]
pub(crate) fn set_insert<K: Eq + Hash>(set: &mut FxHashSet<K>, key: K) -> (fresh: bool)
    requires
        obeys_key_model::<K>(),
    ensures
        final(set)@ == old(set)@.insert(key),
        fresh == !old(set)@.contains(key),
{
    set.insert(key)
}

/// `HashSet::contains`.
#[verifier::external_body]
pub(crate) fn set_contains<K: Eq + Hash>(set: &FxHashSet<K>, key: K) -> (found: bool)
    requires
        obeys_key_model::<K>(),
    ensures
        found == set@.contains(key),
{
    set.contains(&key)
}

/// `HashSet::is_disjoint`: whether the two sets share no key.
#[verifier::external_body]
pub(crate) fn set_is_disjoint<K: Eq + Hash>(left: &FxHashSet<K>, right: &FxHashSet<K>) -> (disjoint:
    bool)
    requires
        obeys_key_model::<K>(),
    ensures
        disjoint == left@.disjoint(right@),
{
    left.is_disjoint(right)
}

/// `Extend::extend` of a set with the keys of another: afterwards the set is
/// the union of the two.
#[verifier::external_body]
pub(crate) fn set_extend<K: Eq + Hash + Copy>(set: &mut FxHashSet<K>, other: &FxHashSet<K>)
    requires
        obeys_key_model::<K>(),
    ensures
        final(set)@ == old(set)@.union(other@),
{
    set.extend(other.iter().copied())
}

/// `Clone::clone` of a set of integers: a set of the same keys.
#[verifier::external_body]
pub(crate) fn set_clone(set: &FxHashSet<i32>) -> (copy: FxHashSet<i32>)
    ensures
        copy@ == set@,
{
    set.clone()
}

/// `HashMap::get`: the value stored under the key, if there is one.
#[verifier::external_body]
pub(crate) fn map_get<K: Eq + Hash, V>(map: &FxHashMap<K, V>, key: K) -> (value: Option<&V>)
    requires
        obeys_key_model::<K>(),
    ensures
        value.is_some() == map@.contains_key(key),
        value matches Some(v) ==> *v == map@[key],
{
    map.get(&key)
}

/// `HashMap::insert`: the key maps to the value afterwards, and no other entry
/// has changed.
#[verifier::external_body]
pub(crate) fn map_insert<K: Eq + Hash, V>(map: &mut FxHashMap<K, V>, key: K, value: V)
    requires
        obeys_key_model::<K>(),
    ensures
        final(map)@ == old(map)@.insert(key, value),
{
    map.insert(key, value);
}

/// `HashMap::remove`: takes the entry of the key out and returns its value.
#[verifier::external_body]
pub(crate) fn map_remove<K: Eq + Hash, V>(map: &mut FxHashMap<K, V>, key: K) -> (value: Option<V>)
    requires
        obeys_key_model::<K>(),
    ensures
        final(map)@ == old(map)@.remove(key),
        value.is_some() == old(map)@.contains_key(key),
        value matches Some(v) ==> v == old(map)@[key],
{
    map.remove(&key)
}

/// `HashMap::keys`, collected: every key of the map once, in the order in
/// which the map hands them out, of which nothing is said.
#[verifier::external_body]
pub(crate) fn map_keys<K: Eq + Hash + Copy, V>(map: &FxHashMap<K, V>) -> (keys: Vec<K>)
    requires
        obeys_key_model::<K>(),
    ensures
        keys@.no_duplicates(),
        forall|key: K| keys@.contains(key) <==> map@.contains_key(key),
{
    map.keys().copied().collect()
}

} // verus!
