//! Keys and values that are `Copy`: `put` stores a copy of each in either
//! table.

use core::hash::Hash;
use std::collections::HashMap;
use vstd::prelude::*;
use vstd::std_specs::hash::obeys_key_model;

verus! {

/// A map from keys to values and back, for keys and values that are `Copy`.
pub struct DualIndexMap<K, V> {
    kv_map: HashMap<K, V>,
    vk_map: HashMap<V, K>,
}

impl<K: Copy + Hash + Eq, V: Copy + Hash + Eq> DualIndexMap<K, V> {
    /// The table from keys to values.
    pub closed spec fn by_key(&self) -> Map<K, V> {
        self.kv_map@
    }

    /// The table from values to keys.
    pub closed spec fn by_val(&self) -> Map<V, K> {
        self.vk_map@
    }

    /// An empty map with room set aside for `capacity` pairs.
    pub fn new(capacity: usize) -> (m: DualIndexMap<K, V>)
        ensures
            m.by_key() == Map::<K, V>::empty(),
            m.by_val() == Map::<V, K>::empty(),
    {
        DualIndexMap {
            kv_map: HashMap::with_capacity(capacity),
            vk_map: HashMap::with_capacity(capacity),
        }
    }

    /// Binds `key` to `val` in one table and `val` to `key` in the other.
    /// An earlier binding of `key`, or of `val`, in the table it is the key
    /// of is replaced; the other table keeps what it had for it.
    pub fn put(&mut self, key: K, val: V)
        ensures
            obeys_key_model::<K>() ==> final(self).by_key() == old(self).by_key().insert(key, val),
            obeys_key_model::<V>() ==> final(self).by_val() == old(self).by_val().insert(val, key),
    {
        self.kv_map.insert(key, val);
        self.vk_map.insert(val, key);
    }

    /// The value bound to `key`, if any.
    pub fn get_by_key(&self, key: &K) -> (r: Option<&V>)
        ensures
            obeys_key_model::<K>() ==> match r {
                Some(v) => self.by_key().contains_key(*key) && self.by_key()[*key] == *v,
                None => !self.by_key().contains_key(*key),
            },
    {
        self.kv_map.get(key)
    }

    /// The key bound to `val`, if any.
    pub fn get_by_val(&self, val: &V) -> (r: Option<&K>)
        ensures
            obeys_key_model::<V>() ==> match r {
                Some(k) => self.by_val().contains_key(*val) && self.by_val()[*val] == *k,
                None => !self.by_val().contains_key(*val),
            },
    {
        self.vk_map.get(val)
    }
}

} // verus!
