//! Keys and values behind reference-counted pointers: `put` makes each
//! once and gives either table a pointer to it. Nothing has to be `Copy` or
//! `Clone`, and nothing is stored twice.

use crate::maps::rckeys;
use crate::maps::rckeys::lookup;
use core::hash::Hash;
use std::collections::HashMap;
use std::rc::Rc;
use vstd::prelude::*;
use vstd::std_specs::hash::obeys_key_model;

verus! {

/// A map from keys to values and back, whose two tables share each key and
/// each value through reference-counted pointers.
pub struct DualIndexMap<K, V> {
    kv_map: HashMap<Rc<K>, Rc<V>>,
    vk_map: HashMap<Rc<V>, Rc<K>>,
}

impl<K: Hash + Eq, V: Hash + Eq> DualIndexMap<K, V> {
    /// The table from keys to values.
    pub closed spec fn by_key(&self) -> Map<Rc<K>, Rc<V>> {
        self.kv_map@
    }

    /// The table from values to keys.
    pub closed spec fn by_val(&self) -> Map<Rc<V>, Rc<K>> {
        self.vk_map@
    }

    /// An empty map with room set aside for `capacity` pairs.
    pub fn new(capacity: usize) -> (m: DualIndexMap<K, V>)
        ensures
            m.by_key() == Map::<Rc<K>, Rc<V>>::empty(),
            m.by_val() == Map::<Rc<V>, Rc<K>>::empty(),
    {
        DualIndexMap {
            kv_map: HashMap::with_capacity(capacity),
            vk_map: HashMap::with_capacity(capacity),
        }
    }

    /// Binds `key` to `val` in one table and `val` to `key` in the other.
    /// An earlier binding of `key`, or of `val`, in the table it is the key
    /// of is replaced; the other table keeps what it had for it.
    pub fn put(&mut self, key: K, val: V)
        ensures
            obeys_key_model::<K>() ==> final(self).by_key() == old(self).by_key().insert(
                Rc::new(key),
                Rc::new(val),
            ),
            obeys_key_model::<V>() ==> final(self).by_val() == old(self).by_val().insert(
                Rc::new(val),
                Rc::new(key),
            ),
    {
        let k = Rc::new(key);
        let v = Rc::new(val);
        rckeys::insert(&mut self.kv_map, rckeys::share(&k), rckeys::share(&v));
        rckeys::insert(&mut self.vk_map, v, k);
    }

    /// The value bound to `key`, if any.
    pub fn get_by_key(&self, key: &K) -> (r: Option<&V>)
        ensures
            obeys_key_model::<K>() ==> match r {
                Some(v) => lookup(self.by_key(), *key) == Some(Rc::new(*v)),
                None => lookup(self.by_key(), *key).is_none(),
            },
    {
        if let Some(r) = rckeys::get(&self.kv_map, key) {
            return Some(&**r);
        }
        None
    }

    /// The key bound to `val`, if any.
    pub fn get_by_val(&self, val: &V) -> (r: Option<&K>)
        ensures
            obeys_key_model::<V>() ==> match r {
                Some(k) => lookup(self.by_val(), *val) == Some(Rc::new(*k)),
                None => lookup(self.by_val(), *val).is_none(),
            },
    {
        if let Some(r) = rckeys::get(&self.vk_map, val) {
            return Some(&**r);
        }
        None
    }
}

} // verus!
