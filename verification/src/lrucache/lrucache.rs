//! The cache itself: an index from keys to list nodes, and a list of
//! entries in order of use.

use crate::linkedlist::fastlist::{lemma_index_of_unique, FastLinkedList, Node};
use crate::linkedlist::tickets::moved_to_head;
use crate::lrucache::recency::{
    distinct_keys, found, has_key, key_index, lemma_stored, removed, stored, touched,
};
use crate::maps::rckeys;
use core::hash::Hash;
use std::collections::HashMap;
use std::rc::Rc;
use vstd::prelude::*;
use vstd::std_specs::hash::obeys_key_model;

verus! {

/// Why a cache could not be made.
#[derive(Debug, Clone, Copy, PartialEq, Eq, Structural)]
pub enum CacheError {
    /// The capacity asked for was zero: such a cache could never hold an
    /// entry.
    ZeroCapacity,
}

/// One entry of the cache: a key, shared with the index, and its value.
pub struct CacheEntry<K, V> {
    pub key: Rc<K>,
    pub val: V,
}

impl<K, V> CacheEntry<K, V> {
    /// An entry for `val` under `key`.
    pub fn new(key: Rc<K>, val: V) -> (entry: CacheEntry<K, V>)
        ensures
            entry.key == key,
            entry.val == val,
    {
        CacheEntry { key, val }
    }

    /// The entry as a key-value pair.
    pub open spec fn pair(self) -> (K, V) {
        (*self.key, self.val)
    }
}

/// The entries as key-value pairs.
spec fn pairs<K, V>(entries: Seq<CacheEntry<K, V>>) -> Seq<(K, V)> {
    entries.map_values(|e: CacheEntry<K, V>| e.pair())
}

/// An index and a list of entries agree: `ids` names the node of each
/// entry; every key of the index leads to the node of an entry with that
/// key, in the list `owner`; and every entry is reached from the index by
/// its key.
spec fn agrees<K, V>(
    index: Map<Rc<K>, Node>,
    entries: Seq<CacheEntry<K, V>>,
    ids: Seq<int>,
    owner: int,
) -> bool {
    &&& entries.len() == ids.len()
    &&& forall|k: Rc<K>| #[trigger]
        index.contains_key(k) ==> index[k].owner() == owner && exists|i: int|
            0 <= i < ids.len() && #[trigger] ids[i] == index[k].id() && entries[i].key == k
    &&& forall|i: int|
        0 <= i < entries.len() ==> index.contains_key((#[trigger] entries[i]).key)
            && index[entries[i].key].id() == ids[i]
}

/// Agreement is kept when an entry and its node move to the front.
proof fn lemma_agrees_moved<K, V>(
    index: Map<Rc<K>, Node>,
    entries: Seq<CacheEntry<K, V>>,
    ids: Seq<int>,
    owner: int,
    p: int,
)
    requires
        agrees(index, entries, ids, owner),
        0 <= p < entries.len(),
    ensures
        agrees(index, moved_to_head(entries, p), moved_to_head(ids, p), owner),
{
    let entries2 = moved_to_head(entries, p);
    let ids2 = moved_to_head(ids, p);
    assert forall|k: Rc<K>| #[trigger] index.contains_key(k) implies index[k].owner() == owner
        && exists|i: int|
        0 <= i < ids2.len() && #[trigger] ids2[i] == index[k].id() && entries2[i].key == k by {
        let i = choose|i: int|
            0 <= i < ids.len() && #[trigger] ids[i] == index[k].id() && entries[i].key == k;
        let j = if i == p {
            0
        } else if i < p {
            i + 1
        } else {
            i
        };
        assert(ids2[j] == ids[i] && entries2[j] == entries[i]);
    }
    assert forall|j: int| 0 <= j < entries2.len() implies index.contains_key(
        (#[trigger] entries2[j]).key,
    ) && index[entries2[j].key].id() == ids2[j] by {
        let i = if j == 0 {
            p
        } else if j <= p {
            j - 1
        } else {
            j
        };
        assert(ids2[j] == ids[i] && entries2[j] == entries[i]);
    }
}

/// Agreement is kept when an entry leaves the list and its key leaves the
/// index.
proof fn lemma_agrees_removed<K, V>(
    index: Map<Rc<K>, Node>,
    entries: Seq<CacheEntry<K, V>>,
    ids: Seq<int>,
    owner: int,
    p: int,
)
    requires
        agrees(index, entries, ids, owner),
        ids.no_duplicates(),
        0 <= p < entries.len(),
    ensures
        agrees(index.remove(entries[p].key), entries.remove(p), ids.remove(p), owner),
{
    let index2 = index.remove(entries[p].key);
    let entries2 = entries.remove(p);
    let ids2 = ids.remove(p);
    assert forall|k: Rc<K>| #[trigger] index2.contains_key(k) implies index2[k].owner() == owner
        && exists|i: int|
        0 <= i < ids2.len() && #[trigger] ids2[i] == index2[k].id() && entries2[i].key == k by {
        assert(index.contains_key(k));
        let i = choose|i: int|
            0 <= i < ids.len() && #[trigger] ids[i] == index[k].id() && entries[i].key == k;
        assert(i != p);
        let j = if i < p {
            i
        } else {
            i - 1
        };
        assert(ids2[j] == ids[i] && entries2[j] == entries[i]);
    }
    assert forall|j: int| 0 <= j < entries2.len() implies index2.contains_key(
        (#[trigger] entries2[j]).key,
    ) && index2[entries2[j].key].id() == ids2[j] by {
        let i = if j < p {
            j
        } else {
            j + 1
        };
        assert(ids2[j] == ids[i] && entries2[j] == entries[i]);
        assert(index.contains_key(entries[i].key));
        if entries[i].key == entries[p].key {
            assert(ids[i] == ids[p]);
        }
    }
}

/// Agreement is kept when a new entry goes to the front under a key that
/// the index did not have, with a node that the list did not have.
proof fn lemma_agrees_pushed<K, V>(
    index: Map<Rc<K>, Node>,
    entries: Seq<CacheEntry<K, V>>,
    ids: Seq<int>,
    owner: int,
    entry: CacheEntry<K, V>,
    node: Node,
)
    requires
        agrees(index, entries, ids, owner),
        !index.contains_key(entry.key),
        node.owner() == owner,
    ensures
        agrees(index.insert(entry.key, node), seq![entry] + entries, seq![node.id()] + ids, owner),
{
    let index2 = index.insert(entry.key, node);
    let entries2 = seq![entry] + entries;
    let ids2 = seq![node.id()] + ids;
    assert forall|k: Rc<K>| #[trigger] index2.contains_key(k) implies index2[k].owner() == owner
        && exists|i: int|
        0 <= i < ids2.len() && #[trigger] ids2[i] == index2[k].id() && entries2[i].key == k by {
        if k == entry.key {
            assert(ids2[0] == node.id() && entries2[0] == entry);
        } else {
            assert(index.contains_key(k));
            let i = choose|i: int|
                0 <= i < ids.len() && #[trigger] ids[i] == index[k].id() && entries[i].key == k;
            assert(ids2[i + 1] == ids[i] && entries2[i + 1] == entries[i]);
        }
    }
    assert forall|j: int| 0 <= j < entries2.len() implies index2.contains_key(
        (#[trigger] entries2[j]).key,
    ) && index2[entries2[j].key].id() == ids2[j] by {
        if j > 0 {
            assert(ids2[j] == ids[j - 1] && entries2[j] == entries[j - 1]);
            assert(index.contains_key(entries[j - 1].key));
        }
    }
}

/// Agreement is kept when an entry is replaced by one with the same key.
proof fn lemma_agrees_updated<K, V>(
    index: Map<Rc<K>, Node>,
    entries: Seq<CacheEntry<K, V>>,
    ids: Seq<int>,
    owner: int,
    p: int,
    entry: CacheEntry<K, V>,
)
    requires
        agrees(index, entries, ids, owner),
        0 <= p < entries.len(),
        entry.key == entries[p].key,
    ensures
        agrees(index, entries.update(p, entry), ids, owner),
{
    let entries2 = entries.update(p, entry);
    assert forall|k: Rc<K>| #[trigger] index.contains_key(k) implies index[k].owner() == owner
        && exists|i: int|
        0 <= i < ids.len() && #[trigger] ids[i] == index[k].id() && entries2[i].key == k by {
        let i = choose|i: int|
            0 <= i < ids.len() && #[trigger] ids[i] == index[k].id() && entries[i].key == k;
        assert(entries2[i].key == entries[i].key);
    }
    assert forall|j: int| 0 <= j < entries2.len() implies index.contains_key(
        (#[trigger] entries2[j]).key,
    ) && index[entries2[j].key].id() == ids[j] by {
        assert(entries2[j].key == entries[j].key);
        assert(index.contains_key(entries[j].key));
    }
}

/// What agreement says of the entries as pairs: keys are distinct, a key is
/// among them exactly when the index has it, and the index leads to the
/// position where the key stands.
proof fn lemma_agrees_index<K, V>(
    index: Map<Rc<K>, Node>,
    entries: Seq<CacheEntry<K, V>>,
    ids: Seq<int>,
    owner: int,
    key: K,
)
    requires
        agrees(index, entries, ids, owner),
        ids.no_duplicates(),
    ensures
        distinct_keys(pairs(entries)),
        has_key(pairs(entries), key) == index.contains_key(Rc::new(key)),
        has_key(pairs(entries), key) ==> {
            let p = key_index(pairs(entries), key);
            &&& 0 <= p < entries.len()
            &&& entries[p].key == Rc::new(key)
            &&& ids[p] == index[Rc::new(key)].id()
            &&& ids.index_of(index[Rc::new(key)].id()) == p
            &&& ids.contains(index[Rc::new(key)].id())
            &&& index[Rc::new(key)].owner() == owner
        },
{
    let ps = pairs(entries);
    assert forall|i: int, j: int| 0 <= i < ps.len() && 0 <= j < ps.len() && i != j implies (
    #[trigger] ps[i]).0 != (#[trigger] ps[j]).0 by {
        if ps[i].0 == ps[j].0 {
            assert(entries[i].key == entries[j].key);
            assert(index.contains_key(entries[i].key));
            assert(index.contains_key(entries[j].key));
            assert(ids[i] == ids[j]);
        }
    }
    let k = Rc::new(key);
    if has_key(ps, key) {
        let p = key_index(ps, key);
        assert(ps[p].0 == key);
        assert(entries[p].key == k);
        assert(index.contains_key(entries[p].key));
        lemma_index_of_unique(ids, p);
    }
    if index.contains_key(k) {
        let i = choose|i: int|
            0 <= i < ids.len() && #[trigger] ids[i] == index[k].id() && entries[i].key == k;
        assert(ps[i].0 == key);
    }
}

/// Under agreement the index has as many keys as the list has entries.
proof fn lemma_agrees_len<K, V>(
    index: Map<Rc<K>, Node>,
    entries: Seq<CacheEntry<K, V>>,
    ids: Seq<int>,
    owner: int,
)
    requires
        agrees(index, entries, ids, owner),
        ids.no_duplicates(),
        index.dom().finite(),
    ensures
        index.len() == entries.len(),
{
    let keys = entries.map_values(|e: CacheEntry<K, V>| e.key);
    assert forall|i: int, j: int| 0 <= i < keys.len() && 0 <= j < keys.len() && i != j implies keys[i]
        != keys[j] by {
        if keys[i] == keys[j] {
            assert(index.contains_key(entries[i].key));
            assert(index.contains_key(entries[j].key));
            assert(ids[i] == ids[j]);
        }
    }
    keys.unique_seq_to_set();
    assert(keys.to_set() =~= index.dom()) by {
        assert forall|k: Rc<K>| keys.to_set().contains(k) <==> index.dom().contains(k) by {
            if keys.to_set().contains(k) {
                let i = choose|i: int| 0 <= i < keys.len() && keys[i] == k;
                assert(index.contains_key(entries[i].key));
            }
            if index.contains_key(k) {
                let i = choose|i: int|
                    0 <= i < ids.len() && #[trigger] ids[i] == index[k].id() && entries[i].key == k;
                assert(keys[i] == k);
            }
        }
    }
}

/// A key-value store of fixed capacity. When a new key would take it over
/// its capacity, the entry that has gone longest without a `get` or a `put`
/// is dropped.
pub struct LruCache<K, V> {
    size: usize,
    map: HashMap<Rc<K>, Node>,
    list: FastLinkedList<CacheEntry<K, V>>,
}

impl<K, V> View for LruCache<K, V> {
    type V = Seq<(K, V)>;

    /// The entries as key-value pairs, most recently used first.
    closed spec fn view(&self) -> Seq<(K, V)> {
        pairs(self.list@)
    }
}

impl<K: Hash + Eq, V> LruCache<K, V> {
    /// The capacity the cache was made with.
    pub closed spec fn capacity(&self) -> nat {
        self.size as nat
    }

    /// How many times a key that was not in the cache has been stored.
    pub closed spec fn insertions(&self) -> int {
        self.list.pushes()
    }

    /// The cache's invariant. The capacity is at least one and the list is
    /// not longer than that. The index and the list agree: every key of the
    /// index leads to the node of an entry with that key, and every entry
    /// is reached from the index by its key. And the key type is one that
    /// a hash map can be relied on with.
    pub closed spec fn wf(&self) -> bool {
        &&& obeys_key_model::<K>()
        &&& self.size >= 1
        &&& self.list.wf()
        &&& self.list@.len() <= self.size
        &&& agrees(self.map@, self.list@, self.list.ids(), self.list.owner())
    }

    /// What the invariant gives to users of the cache: it is never over its
    /// capacity, and no key is in it twice.
    pub proof fn lemma_wf(&self)
        requires
            self.wf(),
        ensures
            self@.len() <= self.capacity(),
            self.capacity() >= 1,
            distinct_keys(self@),
            0 <= self.insertions() <= usize::MAX,
    {
        self.list.lemma_wf();
        if self@.len() > 0 {
            lemma_agrees_index(
                self.map@,
                self.list@,
                self.list.ids(),
                self.list.owner(),
                self@[0].0,
            );
        }
    }

    /// A cache for up to `size` entries, with storage for that many set
    /// aside. A capacity of zero is refused.
    ///
    /// The key type must be one whose `Hash` and `Eq` agree with equality
    /// of values; everything the cache promises rests on that.
    pub fn new(size: usize) -> (r: Result<LruCache<K, V>, CacheError>)
        requires
            obeys_key_model::<K>(),
        ensures
            size == 0 <==> r.is_err(),
            r matches Err(e) ==> e == CacheError::ZeroCapacity,
            r matches Ok(cache) ==> cache.wf() && cache@ == Seq::<(K, V)>::empty()
                && cache.capacity() == size && cache.insertions() == 0,
    {
        if size == 0 {
            return Err(CacheError::ZeroCapacity);
        }
        let cache = LruCache {
            size: size,
            map: HashMap::with_capacity(size),
            list: FastLinkedList::with_capacity(size),
        };
        assert(cache@ =~= Seq::<(K, V)>::empty());
        Ok(cache)
    }

    /// The capacity of the cache: how many entries it can hold, not how
    /// many it holds now.
    pub fn size(&self) -> (n: usize)
        ensures
            n == self.capacity(),
    {
        self.size
    }

    /// Whether a key that is not in the cache can still be stored. Each
    /// such key uses up one node identity of the list, and there are
    /// `usize::MAX` of them.
    pub fn can_insert(&self) -> (r: bool)
        requires
            self.wf(),
        ensures
            r == (self.insertions() < usize::MAX),
    {
        self.list.can_push()
    }

    /// Whether `key` is in the cache. Asking does not count as a use: the
    /// cache is only read.
    pub fn contains(&self, key: &K) -> (r: bool)
        requires
            self.wf(),
        ensures
            r == has_key(self@, *key),
    {
        proof {
            self.list.lemma_wf();
            lemma_agrees_index(self.map@, self.list@, self.list.ids(), self.list.owner(), *key);
        }
        rckeys::contains_key(&self.map, key)
    }

    /// The value stored under `key`, if any. Finding it counts as a use:
    /// the entry becomes the most recently used one. A miss changes
    /// nothing.
    pub fn get(&mut self, key: &K) -> (r: Option<&V>)
        requires
            old(self).wf(),
        ensures
            final(self).wf(),
            final(self).capacity() == old(self).capacity(),
            final(self).insertions() == old(self).insertions(),
            final(self)@ == touched(old(self)@, *key),
            match r {
                Some(v) => found(old(self)@, *key) == Some(*v) && final(self)@[0] == (*key, *v),
                None => found(old(self)@, *key).is_none(),
            },
    {
        proof {
            self.list.lemma_wf();
            lemma_agrees_index(self.map@, self.list@, self.list.ids(), self.list.owner(), *key);
        }
        let node = match rckeys::get(&self.map, key) {
            None => {
                return None;
            },
            Some(llnode) => *llnode,
        };
        let ghost p = key_index(old(self)@, *key);
        let ghost entries = self.list@;
        if !node.make_head(&mut self.list) {
            unreached::<()>();
        }
        proof {
            lemma_agrees_moved(self.map@, entries, old(self).list.ids(), self.list.owner(), p);
            assert(self@ =~= moved_to_head(old(self)@, p));
            self.list.lemma_wf();
        }
        match node.val(&self.list) {
            None => unreached(),
            Some(ce) => Some(&ce.val),
        }
    }

    /// Stores `val` under `key` and makes the entry the most recently used
    /// one. A key that was not in the cache may take it over its capacity;
    /// then the least recently used entry is dropped.
    ///
    /// The list numbers its nodes with a counter of machine size, so the
    /// count of keys newly stored must not have reached `usize::MAX`;
    /// [`LruCache::can_insert`] tells.
    ///
    /// Should the index ever lead to a node that the list does not have,
    /// or the list be empty while the index is not, the cache would be
    /// broken beyond repair. The invariant rules that out: the branches
    /// that would notice it are shown never to be taken, here and in `get`
    /// and `remove`.
    pub fn put(&mut self, key: K, val: V)
        requires
            old(self).wf(),
            old(self).insertions() < usize::MAX,
        ensures
            final(self).wf(),
            final(self).capacity() == old(self).capacity(),
            final(self)@ == stored(old(self)@, old(self).capacity(), key, val),
            1 <= final(self)@.len() <= final(self).capacity(),
            final(self)@[0] == (key, val),
            final(self).insertions() == old(self).insertions() + (if has_key(old(self)@, key) {
                0int
            } else {
                1int
            }),
    {
        proof {
            self.list.lemma_wf();
            lemma_agrees_index(self.map@, self.list@, self.list.ids(), self.list.owner(), key);
            lemma_stored(self@, self.capacity(), key, val);
        }
        let ghost entries = self.list@;
        let ghost ids = self.list.ids();
        let present = match rckeys::get(&self.map, &key) {
            None => None,
            Some(llnode) => Some(*llnode),
        };
        match present {
            None => {
                let map_key = Rc::new(key);
                let entry = CacheEntry::new(rckeys::share(&map_key), val);
                let new_node = self.list.push_head(entry);
                rckeys::insert(&mut self.map, map_key, new_node);
                proof {
                    lemma_agrees_pushed(
                        old(self).map@,
                        entries,
                        ids,
                        self.list.owner(),
                        entry,
                        new_node,
                    );
                    assert(pairs(self.list@) =~= seq![(key, val)] + old(self)@);
                }
            },
            Some(node) => {
                let ghost p = key_index(old(self)@, key);
                let entry = CacheEntry::new(Rc::new(key), val);
                match node.replace(&mut self.list, entry) {
                    None => unreached(),
                    Some(_) => {},
                }
                proof {
                    lemma_agrees_updated(self.map@, entries, ids, self.list.owner(), p, entry);
                }
                if !node.make_head(&mut self.list) {
                    unreached::<()>();
                }
                proof {
                    lemma_agrees_moved(
                        self.map@,
                        entries.update(p, entry),
                        ids,
                        self.list.owner(),
                        p,
                    );
                    assert(pairs(self.list@) =~= seq![(key, val)] + old(self)@.remove(p));
                }
            },
        }
        proof {
            self.list.lemma_wf();
            lemma_agrees_len(self.map@, self.list@, self.list.ids(), self.list.owner());
        }
        if rckeys::len(&self.map) > self.size {
            let ghost full = self.list@;
            let ghost full_ids = self.list.ids();
            let ghost index = self.map@;
            match self.list.pop_tail() {
                None => unreached(),
                Some(ce) => {
                    rckeys::remove(&mut self.map, &ce.key);
                },
            }
            proof {
                lemma_agrees_removed(index, full, full_ids, self.list.owner(), full.len() - 1);
                assert(full.remove(full.len() - 1) =~= full.drop_last());
                assert(full_ids.remove(full.len() - 1) =~= full_ids.drop_last());
                assert(pairs(self.list@) =~= pairs(full).drop_last());
            }
        }
    }

    /// Takes `key` out of the cache and returns its value, if it was there.
    /// The other entries keep their order.
    pub fn remove(&mut self, key: &K) -> (r: Option<V>)
        requires
            old(self).wf(),
        ensures
            final(self).wf(),
            final(self).capacity() == old(self).capacity(),
            final(self).insertions() == old(self).insertions(),
            final(self)@ == removed(old(self)@, *key),
            r == found(old(self)@, *key),
            !has_key(final(self)@, *key),
    {
        proof {
            self.list.lemma_wf();
            lemma_agrees_index(self.map@, self.list@, self.list.ids(), self.list.owner(), *key);
        }
        let ghost entries = self.list@;
        let ghost ids = self.list.ids();
        match rckeys::remove(&mut self.map, key) {
            None => None,
            Some(llnode) => {
                let ghost p = key_index(old(self)@, *key);
                let ce = match llnode.pop(&mut self.list) {
                    None => unreached(),
                    Some(ce) => ce,
                };
                proof {
                    lemma_agrees_removed(old(self).map@, entries, ids, self.list.owner(), p);
                    assert(pairs(self.list@) =~= old(self)@.remove(p));
                    self.list.lemma_wf();
                    lemma_agrees_index(
                        self.map@,
                        self.list@,
                        self.list.ids(),
                        self.list.owner(),
                        *key,
                    );
                }
                Some(ce.val)
            },
        }
    }
}

} // verus!
