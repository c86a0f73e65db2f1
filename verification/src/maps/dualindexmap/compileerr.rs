//! The map as one would first write it. `put` owns one key and one value,
//! and having moved them into the first table it has nothing left for the
//! second: the compiler refuses the second insert. What remains is a map
//! that records one direction only, so a lookup by value finds nothing that
//! `put` stored.

use core::hash::Hash;
use std::collections::HashMap;
use vstd::prelude::*;
use vstd::std_specs::hash::obeys_key_model;

verus! {

/// A map with a table for each direction, of which `put` fills only the
/// one from keys to values.
pub struct DualIndexMap<K, V> {
    kv_map: HashMap<K, V>,
    vk_map: HashMap<V, K>,
}

impl<K: Hash + Eq, V: Hash + Eq> DualIndexMap<K, V> {
    /// The table from keys to values.
    pub closed spec fn by_key(&self) -> Map<K, V> {
        self.kv_map@
    }

    /// The table from values to keys.
    pub closed spec fn by_val(&self) -> Map<V, K> {
        self.vk_map@
    }

    /// An empty map with room set aside for `capacity` pairs.
    pub fn new(capacity: usize) -> (m: DualIndexMap<K, V>)
        ensures
            m.by_key() == Map::<K, V>::empty(),
            m.by_val() == Map::<V, K>::empty(),
    {
        DualIndexMap {
            kv_map: HashMap::with_capacity(capacity),
            vk_map: HashMap::with_capacity(capacity),
        }
    }

    /// Binds `key` to `val` in the table from keys to values. The table
    /// from values to keys is left as it was.
    pub fn put(&mut self, key: K, val: V)
        ensures
            obeys_key_model::<K>() ==> final(self).by_key() == old(self).by_key().insert(key, val),
            final(self).by_val() == old(self).by_val(),
    {
        self.kv_map.insert(key, val);
    }

    /// The value bound to `key`, if any.
    pub fn get_by_key(&self, key: &K) -> (r: Option<&V>)
        ensures
            obeys_key_model::<K>() ==> match r {
                Some(v) => self.by_key().contains_key(*key) && self.by_key()[*key] == *v,
                None => !self.by_key().contains_key(*key),
            },
    {
        self.kv_map.get(key)
    }

    /// The key bound to `val`, if any.
    pub fn get_by_val(&self, val: &V) -> (r: Option<&K>)
        ensures
            obeys_key_model::<V>() ==> match r {
                Some(k) => self.by_val().contains_key(*val) && self.by_val()[*val] == *k,
                None => !self.by_val().contains_key(*val),
            },
    {
        self.vk_map.get(val)
    }
}

} // verus!
