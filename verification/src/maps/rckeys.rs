//! The standard hash map keyed by reference-counted keys.
//!
//! A map keyed by `Rc<K>` hashes and compares the values behind the
//! pointers, and can be searched with a plain `&K`. `vstd` describes the
//! hash map for key types that it knows to hash and compare by value, and
//! for keys borrowed as themselves or out of a `Box`; of a key behind an
//! `Rc` it says nothing. So the calls are made here, each behind a contract
//! that states what the call does to the map's view. Nothing in this module
//! is proved: the contracts say what the standard library documents. As
//! everywhere with hash maps, they hold for key types whose `Hash` and `Eq`
//! agree with equality of values.

use core::hash::Hash;
use std::collections::HashMap;
use std::rc::Rc;
use vstd::prelude::*;
use vstd::std_specs::hash::obeys_key_model;

verus! {

/// What a lookup of `key` finds in `m`.
pub open spec fn lookup<K, X>(m: Map<Rc<K>, X>, key: K) -> Option<X> {
    if m.contains_key(Rc::new(key)) {
        Some(m[Rc::new(key)])
    } else {
        None
    }
}

/// `Rc::clone`: a second pointer to the same value.
#[verifier::external_body]
pub(crate) fn share<T>(rc: &Rc<T>) -> (r: Rc<T>)
    ensures
        r == *rc,
{
    Rc::clone(rc)
}

/// `HashMap::len`: the number of keys in the map.
#[verifier::external_body]
pub(crate) fn len<K: Hash + Eq, X>(m: &HashMap<Rc<K>, X>) -> (n: usize)
    ensures
        obeys_key_model::<K>() ==> n == m@.len(),
{
    m.len()
}

/// `HashMap::contains_key` with a borrowed key: whether some key of the map
/// points to a value equal to `key`.
#[verifier::external_body]
pub(crate) fn contains_key<K: Hash + Eq, X>(m: &HashMap<Rc<K>, X>, key: &K) -> (r: bool)
    ensures
        obeys_key_model::<K>() ==> r == m@.contains_key(Rc::new(*key)),
{
    m.contains_key(key)
}

/// `HashMap::get` with a borrowed key: the value stored under the key that
/// points to a value equal to `key`, if there is one.
#[verifier::external_body]
pub(crate) fn get<'a, K: Hash + Eq, X>(m: &'a HashMap<Rc<K>, X>, key: &K) -> (r: Option<&'a X>)
    ensures
        obeys_key_model::<K>() ==> match r {
            Some(x) => lookup(m@, *key) == Some(*x),
            None => lookup(m@, *key).is_none(),
        },
{
    m.get(key)
}

/// `HashMap::insert`: binds `key` to `value`, and returns the value that was
/// bound to an equal key before, if any.
#[verifier::external_body]
pub(crate) fn insert<K: Hash + Eq, X>(m: &mut HashMap<Rc<K>, X>, key: Rc<K>, value: X) -> (r:
    Option<X>)
    ensures
        obeys_key_model::<K>() ==> final(m)@ == old(m)@.insert(key, value) && r == lookup(
            old(m)@,
            *key,
        ),
{
    m.insert(key, value)
}

/// `HashMap::remove` with a borrowed key: takes out the key that points to
/// a value equal to `key`, and returns what was stored under it, if
/// anything.
#[verifier::external_body]
pub(crate) fn remove<K: Hash + Eq, X>(m: &mut HashMap<Rc<K>, X>, key: &K) -> (r: Option<X>)
    ensures
        obeys_key_model::<K>() ==> final(m)@ == old(m)@.remove(Rc::new(*key)) && r == lookup(
            old(m)@,
            *key,
        ),
{
    m.remove(key)
}

} // verus!
