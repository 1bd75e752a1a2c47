//! Hash maps keyed by the identifier types of the library.
//!
//! An identifier type gives each of its values a `u64` key of its own. [`IdMap`] stores its
//! entries under those keys in an Fx hash map, and its view is the map from identifiers to values.

use crate::fx::{fx_get, fx_insert, fx_keys, fx_new, fx_remove};
use rustc_hash::FxHashMap;
use vstd::prelude::*;

verus! {

/// A value that has a `u64` key of its own.
pub trait MapKey: Sized + Copy {
    /// The key as a mathematical value.
    spec fn key_of(self) -> u64;

    /// Two values with one key are equal.
    proof fn key_injective(a: Self, b: Self)
        requires
            a.key_of() == b.key_of(),
        ensures
            a == b,
    ;

    fn to_key(self) -> (k: u64)
        ensures
            k == self.key_of(),
    ;
}

/// A value that can be found again from its key.
pub trait ListedKey: MapKey {
    /// The value that has the key, if one has it.
    fn from_key(k: u64) -> (r: Self)
        ensures
            forall|a: Self| #[trigger] a.key_of() == k ==> a == r,
    ;
}

/// The `u64` that holds two 32-bit halves.
pub open spec fn pack(hi: int, lo: int) -> int {
    hi * 0x1_0000_0000 + lo
}

/// Packs two halves, each given as an offset from its smallest value.
pub fn pack_halves(hi: u32, lo: u32) -> (k: u64)
    ensures
        k == pack(hi as int, lo as int),
{
    (hi as u64) * 0x1_0000_0000u64 + (lo as u64)
}

/// Takes the two halves out of a packed key.
pub fn unpack_halves(k: u64) -> (r: (u32, u32))
    ensures
        pack(r.0 as int, r.1 as int) == k,
{
    let hi: u64 = k / 0x1_0000_0000u64;
    let lo: u64 = k % 0x1_0000_0000u64;
    (hi as u32, lo as u32)
}

/// The offset of an `i32` from the smallest one.
pub fn offset_of(v: i32) -> (r: u32)
    ensures
        r == v + 0x8000_0000,
{
    ((v as i64) + 0x8000_0000i64) as u32
}

/// The `i32` at an offset from the smallest one.
pub fn at_offset(v: u32) -> (r: i32)
    ensures
        r + 0x8000_0000 == v,
{
    ((v as i64) - 0x8000_0000i64) as i32
}

/// A hash map from identifiers to values.
pub struct IdMap<K: MapKey, V> {
    entries: FxHashMap<u64, V>,
    marker: Ghost<Option<K>>,
}

impl<K: MapKey, V> IdMap<K, V> {
    /// The stored entries as a map from identifiers.
    pub closed spec fn entries_by_id(self) -> Map<K, V> {
        Map::new(
            |k: K| self.entries@.contains_key(k.key_of()),
            |k: K| self.entries@[k.key_of()],
        )
    }

    proof fn lemma_keys_injective()
        ensures
            forall|a: K, b: K| #![trigger a.key_of(), b.key_of()] a.key_of() == b.key_of() ==> a == b,
    {
        assert forall|a: K, b: K| #![trigger a.key_of(), b.key_of()] a.key_of() == b.key_of() implies a
            == b by {
            K::key_injective(a, b);
        }
    }

    /// A map without entries.
    pub fn new() -> (m: Self)
        ensures
            m@ == Map::<K, V>::empty(),
    {
        let m = IdMap { entries: fx_new(), marker: Ghost(None) };
        assert(m@ =~= Map::<K, V>::empty());
        m
    }

    /// The value of `k`, if it has one.
    pub fn get(&self, k: K) -> (r: Option<&V>)
        ensures
            match r {
                Some(v) => self@.contains_key(k) && *v == self@[k],
                None => !self@.contains_key(k),
            },
    {
        fx_get(&self.entries, k.to_key())
    }

    /// Whether `k` has a value.
    pub fn contains_key(&self, k: K) -> (r: bool)
        ensures
            r == self@.contains_key(k),
    {
        self.get(k).is_some()
    }

    /// Gives `k` the value `v`; the value that it had before is returned.
    pub fn insert(&mut self, k: K, v: V) -> (r: Option<V>)
        ensures
            final(self)@ == old(self)@.insert(k, v),
            r == (if old(self)@.contains_key(k) { Some(old(self)@[k]) } else { None }),
    {
        let r = fx_insert(&mut self.entries, k.to_key(), v);
        proof {
            Self::lemma_keys_injective();
            assert(self@ =~= old(self)@.insert(k, v));
        }
        r
    }

    /// Takes the entry of `k` out.
    pub fn remove(&mut self, k: K) -> (r: Option<V>)
        ensures
            final(self)@ == old(self)@.remove(k),
            r == (if old(self)@.contains_key(k) { Some(old(self)@[k]) } else { None }),
    {
        let r = fx_remove(&mut self.entries, k.to_key());
        proof {
            Self::lemma_keys_injective();
            assert(self@ =~= old(self)@.remove(k));
        }
        r
    }
}

impl<K: ListedKey, V> IdMap<K, V> {
    /// Every identifier that has a value, once each, in an order that is not stated.
    pub fn keys(&self) -> (ks: Vec<K>)
        ensures
            ks@.no_duplicates(),
            forall|k: K| #[trigger] ks@.contains(k) <==> self@.contains_key(k),
            ks@.to_set() == self@.dom(),
            self@.dom().finite(),
            ks@.len() == self@.dom().len(),
    {
        let raw = fx_keys(&self.entries);
        let mut ks: Vec<K> = Vec::new();
        for i in 0..raw.len()
            invariant
                raw@.no_duplicates(),
                forall|j: int| 0 <= j < ks@.len() ==> raw@.take(i as int).contains((#[trigger] ks@[j]).key_of()),
                ks@.no_duplicates(),
                forall|k: K|
                    raw@.take(i as int).contains(#[trigger] k.key_of()) ==> ks@.contains(k),
        {
            let raw_key: u64 = raw[i];
            let k: K = K::from_key(raw_key);
            let ghost part = raw@.take(i as int);
            let ghost whole = raw@.take(i + 1);
            let ghost before = ks@;
            proof {
                assert(whole =~= part.push(raw_key));
                assert(whole[i as int] == raw_key);
                assert forall|x: u64| #[trigger] whole.contains(x) <==> part.contains(x) || x == raw_key by {
                    if part.contains(x) {
                        let j = choose|j: int| 0 <= j < part.len() && part[j] == x;
                        assert(whole[j] == x);
                    }
                    if whole.contains(x) {
                        let j = choose|j: int| 0 <= j < whole.len() && whole[j] == x;
                        if j < i {
                            assert(part[j] == x);
                        }
                    }
                }
                assert(!part.contains(raw_key)) by {
                    if part.contains(raw_key) {
                        let j = choose|j: int| 0 <= j < part.len() && part[j] == raw_key;
                        assert(raw@[j] == raw@[i as int]);
                    }
                }
            }
            if k.to_key() == raw_key {
                ks.push(k);
                proof {
                    assert(ks@[ks@.len() - 1] == k);
                    assert forall|x: K| #[trigger] before.contains(x) implies ks@.contains(x) by {
                        let j = choose|j: int| 0 <= j < before.len() && before[j] == x;
                        assert(ks@[j] == x);
                    }
                }
            }
        }
        proof {
            assert(raw@.take(raw@.len() as int) =~= raw@);
            assert forall|k: K| #[trigger] ks@.contains(k) <==> self@.contains_key(k) by {
                if self@.contains_key(k) {
                    assert(raw@.contains(k.key_of()));
                }
                if ks@.contains(k) {
                    let j = choose|j: int| 0 <= j < ks@.len() && ks@[j] == k;
                    assert(raw@.contains(ks@[j].key_of()));
                }
            }
            assert(ks@.to_set() =~= self@.dom());
            ks@.unique_seq_to_set();
        }
        ks
    }

    /// A map with the same entries.
    pub fn duplicate(&self) -> (r: Self)
        where
            V: Copy,
        ensures
            r@ == self@,
    {
        let ks = self.keys();
        let mut r: IdMap<K, V> = IdMap::new();
        for i in 0..ks.len()
            invariant
                forall|k: K| #[trigger] ks@.contains(k) <==> self@.contains_key(k),
                forall|k: K| #[trigger] r@.contains_key(k) <==> ks@.take(i as int).contains(k),
                forall|k: K| #[trigger] r@.contains_key(k) ==> r@[k] == self@[k],
        {
            let k: K = ks[i];
            assert(ks@.contains(k));
            if let Some(v) = self.get(k) {
                let _ = r.insert(k, *v);
            }
            proof {
                let part = ks@.take(i as int);
                let whole = ks@.take(i + 1);
                assert(whole[i as int] == k);
                assert forall|x: K| #[trigger] whole.contains(x) <==> part.contains(x) || x == k by {
                    if part.contains(x) {
                        let j = choose|j: int| 0 <= j < part.len() && part[j] == x;
                        assert(whole[j] == x);
                    }
                    if whole.contains(x) {
                        let j = choose|j: int| 0 <= j < whole.len() && whole[j] == x;
                        if j < i {
                            assert(part[j] == x);
                        }
                    }
                }
            }
        }
        proof {
            assert(ks@.take(ks@.len() as int) =~= ks@);
            assert(r@ =~= self@);
        }
        r
    }

    /// The number of entries.
    pub fn len(&self) -> (n: usize)
        ensures
            n == self@.dom().len(),
            self@.dom().finite(),
    {
        self.keys().len()
    }
}

impl<K: MapKey, V> View for IdMap<K, V> {
    type V = Map<K, V>;

    closed spec fn view(&self) -> Map<K, V> {
        self.entries_by_id()
    }
}

} // verus!
