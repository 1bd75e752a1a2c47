//! Hash maps with `u64` keys and the Fx hash function of `rustc_hash`.
//!
//! `rustc_hash::FxHashMap` is `std::collections::HashMap` with `rustc_hash::FxBuildHasher`, a
//! stateless builder whose hasher is a fixed function of the bytes written to it. The functions
//! below state what the map operations do for `u64` keys; nothing is said of the walking order.

use rustc_hash::{FxBuildHasher, FxHashMap};
use vstd::prelude::*;

verus! {

/// The hasher builder of `rustc_hash`, a unit struct.
#[verifier::external_type_specification]
#[verifier::external_body]
pub struct ExFxBuildHasher(FxBuildHasher);

/// `FxHashMap::default`: a map without entries.
#[verifier::external_body]
pub(crate) fn fx_new<V>() -> (m: FxHashMap<u64, V>)
    ensures
        m@.dom() == Set::<u64>::empty(),
{
    FxHashMap::default()
}

/// `HashMap::get` on an `FxHashMap`: the value stored under `k`, if there is one.
#[verifier::external_body]
pub(crate) fn fx_get<V>(m: &FxHashMap<u64, V>, k: u64) -> (r: Option<&V>)
    ensures
        match r {
            Some(v) => m@.contains_key(k) && *v == m@[k],
            None => !m@.contains_key(k),
        },
{
    m.get(&k)
}

/// `HashMap::insert` on an `FxHashMap`: stores `v` under `k`, replacing an earlier value, and
/// returns the replaced one.
#[verifier::external_body]
pub(crate) fn fx_insert<V>(m: &mut FxHashMap<u64, V>, k: u64, v: V) -> (r: Option<V>)
    ensures
        final(m)@ == old(m)@.insert(k, v),
        r == (if old(m)@.contains_key(k) { Some(old(m)@[k]) } else { None }),
{
    m.insert(k, v)
}

/// `HashMap::remove` on an `FxHashMap`: takes the entry of `k` out and returns its value.
#[verifier::external_body]
pub(crate) fn fx_remove<V>(m: &mut FxHashMap<u64, V>, k: u64) -> (r: Option<V>)
    ensures
        final(m)@ == old(m)@.remove(k),
        r == (if old(m)@.contains_key(k) { Some(old(m)@[k]) } else { None }),
{
    m.remove(&k)
}

/// `HashMap::keys` on an `FxHashMap`, collected: every key once, in an order that is not stated.
#[verifier::external_body]
pub(crate) fn fx_keys<V>(m: &FxHashMap<u64, V>) -> (ks: Vec<u64>)
    ensures
        ks@.no_duplicates(),
        forall|k: u64| #[trigger] ks@.contains(k) <==> m@.contains_key(k),
{
    m.keys().copied().collect()
}

} // verus!
