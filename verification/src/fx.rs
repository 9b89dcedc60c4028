//! Hash maps and hash sets keyed through the Fx hasher.
//!
//! `FxHashMap` and `FxHashSet` are the standard hash map and hash set with the
//! Fx hasher plugged in. Their contents are the views that vstd gives the
//! standard collections: a `Map` for a map, a `Set` for a set. The functions
//! here are the operations the solver needs on them. Each forwards to the
//! method of the same name, and its contract says what that method does to the
//! contents. These contracts are taken on trust; they hold for key types whose
//! `Hash` and `Eq` are deterministic and agree with equality of values, which
//! is what `obeys_key_model` says.
use fxhash::{FxHashMap, FxHashSet};
use std::hash::Hash;
use vstd::prelude::*;
use vstd::std_specs::hash::obeys_key_model;

verus! {

/// The Fx hasher state, `fxhash::FxHasher`. Nothing is said of its inside.
#[verifier::external_type_specification]
#[verifier::external_body]
pub struct ExFxHasher(fxhash::FxHasher);

/// The builder `std::hash::BuildHasherDefault`, which makes a fresh default
/// hasher for every key. Nothing is said of its inside.
#[verifier::external_type_specification]
#[verifier::external_body]
#[verifier::reject_recursive_types(H)]
pub struct ExBuildHasherDefault<H>(std::hash::BuildHasherDefault<H>);

/// `HashMap::insert`: binds `k` to `v`, replacing an earlier binding, and
/// returns the value that was bound before, if any.
#[verifier::external_body]
pub(crate) fn map_insert<K: Eq + Hash, V>(m: &mut FxHashMap<K, V>, k: K, v: V) -> (r: Option<V>)
    requires
        obeys_key_model::<K>(),
    ensures
        final(m)@ == old(m)@.insert(k, v),
        r == (if old(m)@.contains_key(k) {
            Some(old(m)@[k])
        } else {
            None
        }),
{
    m.insert(k, v)
}

/// `HashMap::get`: the value bound to `k`, if any.
#[verifier::external_body]
pub(crate) fn map_get<'a, K: Eq + Hash, V>(m: &'a FxHashMap<K, V>, k: &K) -> (r: Option<&'a V>)
    requires
        obeys_key_model::<K>(),
    ensures
        r == (if m@.contains_key(*k) {
            Some(&m@[*k])
        } else {
            None
        }),
{
    m.get(k)
}

/// `HashMap::get_mut`: a mutable borrow of the value bound to `k`, if any.
/// Whatever the borrower leaves in it is what the map binds to `k` afterwards;
/// every other binding stays.
#[verifier::external_body]
pub(crate) fn map_get_mut<'a, K: Eq + Hash, V>(m: &'a mut FxHashMap<K, V>, k: &K) -> (r: Option<
    &'a mut V,
>)
    requires
        obeys_key_model::<K>(),
    ensures
        match r {
            Some(v) => old(m)@.contains_key(*k) && *v == old(m)@[*k] && final(m)@ == old(
                m,
            )@.insert(*k, *final(v)),
            None => !old(m)@.contains_key(*k) && final(m)@ == old(m)@,
        },
{
    m.get_mut(k)
}

/// `HashMap::remove`: unbinds `k` and returns the value that was bound, if any.
#[verifier::external_body]
pub(crate) fn map_remove<K: Eq + Hash, V>(m: &mut FxHashMap<K, V>, k: &K) -> (r: Option<V>)
    requires
        obeys_key_model::<K>(),
    ensures
        final(m)@ == old(m)@.remove(*k),
        r == (if old(m)@.contains_key(*k) {
            Some(old(m)@[*k])
        } else {
            None
        }),
{
    m.remove(k)
}

/// `HashMap::contains_key`: whether `k` is bound.
#[verifier::external_body]
pub(crate) fn map_contains_key<K: Eq + Hash, V>(m: &FxHashMap<K, V>, k: &K) -> (r: bool)
    requires
        obeys_key_model::<K>(),
    ensures
        r == m@.contains_key(*k),
{
    m.contains_key(k)
}

/// `HashMap::keys`, collected: every bound key once, in the order in which the
/// map walks them. That order is not specified.
#[verifier::external_body]
pub(crate) fn map_keys<K: Eq + Hash + Copy, V>(m: &FxHashMap<K, V>) -> (r: Vec<K>)
    requires
        obeys_key_model::<K>(),
    ensures
        r@.no_duplicates(),
        r@.to_set() == m@.dom(),
{
    m.keys().copied().collect()
}

/// `HashSet::insert`: adds `k`; returns whether it was new.
#[verifier::external_body]
pub(crate) fn set_insert<K: Eq + Hash>(s: &mut FxHashSet<K>, k: K) -> (r: bool)
    requires
        obeys_key_model::<K>(),
    ensures
        final(s)@ == old(s)@.insert(k),
        r == !old(s)@.contains(k),
{
    s.insert(k)
}

/// `HashSet::remove`: takes `k` out; returns whether it was there.
#[verifier::external_body]
pub(crate) fn set_remove<K: Eq + Hash>(s: &mut FxHashSet<K>, k: &K) -> (r: bool)
    requires
        obeys_key_model::<K>(),
    ensures
        final(s)@ == old(s)@.remove(*k),
        r == old(s)@.contains(*k),
{
    s.remove(k)
}

/// `HashSet::len`: the number of elements.
#[verifier::external_body]
pub(crate) fn set_len<K: Eq + Hash>(s: &FxHashSet<K>) -> (r: usize)
    requires
        obeys_key_model::<K>(),
        s@.finite(),
    ensures
        r == s@.len(),
{
    s.len()
}

/// `HashSet::iter`, collected: every element once, in the order in which the
/// set walks them. That order is not specified.
#[verifier::external_body]
pub(crate) fn set_items<K: Eq + Hash + Copy>(s: &FxHashSet<K>) -> (r: Vec<K>)
    requires
        obeys_key_model::<K>(),
    ensures
        r@.no_duplicates(),
        r@.to_set() == s@,
{
    s.iter().copied().collect()
}

/// `HashSet::clone`: a set with the same elements.
#[verifier::external_body]
pub(crate) fn set_clone<K: Eq + Hash + Clone>(s: &FxHashSet<K>) -> (r: FxHashSet<K>)
    requires
        obeys_key_model::<K>(),
    ensures
        r@ == s@,
{
    s.clone()
}

} // verus!
