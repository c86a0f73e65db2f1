//! A doubly linked list with constant-time access through node handles.
//!
//! The order of the nodes and the handles are kept by a `deepmesa_collections`
//! list that holds one ticket per element; the elements themselves live in a
//! table keyed by ticket. A ticket is the number of pushes made before its
//! element was pushed, so no ticket is ever used twice.

use crate::linkedlist::tickets;
use crate::linkedlist::tickets::{
    exchanged, handle_index, handle_owner, handle_serial, handle_valid, holds_serial, list_nodes,
    list_owner, list_serial, moved_to_head, serial_index,
};
use deepmesa_collections::linkedlist::NodeHandle;
use deepmesa_collections::LinkedList;
use std::collections::HashMap;
use vstd::prelude::*;

verus! {

/// A handle to one node of a [`FastLinkedList`].
///
/// A handle stays valid, whatever else happens to the list, until its node
/// is removed; after that it is invalid for good.
#[derive(Clone, Copy)]
pub struct Node {
    handle: NodeHandle<usize>,
}

/// A doubly linked list of `T`, head first.
pub struct FastLinkedList<T> {
    order: LinkedList<usize>,
    slots: HashMap<usize, T>,
    next: usize,
}

impl Node {
    /// The list that handed this handle out.
    pub closed spec fn owner(self) -> int {
        handle_owner(self.handle)
    }

    /// The identity of the node within its list.
    pub closed spec fn id(self) -> int {
        handle_serial(self.handle)
    }
}

/// No two nodes carry the same serial number.
spec fn distinct_serials(nodes: Seq<(int, usize)>) -> bool {
    forall|i: int, j: int|
        0 <= i < nodes.len() && 0 <= j < nodes.len() && i != j ==> (#[trigger] nodes[i]).0 != (
        #[trigger] nodes[j]).0
}

/// Among nodes with distinct serial numbers, a serial number is found at the
/// one position that carries it.
proof fn lemma_serial_index(nodes: Seq<(int, usize)>, i: int)
    requires
        distinct_serials(nodes),
        0 <= i < nodes.len(),
    ensures
        holds_serial(nodes, nodes[i].0),
        serial_index(nodes, nodes[i].0) == i,
{
    let s = nodes[i].0;
    assert(holds_serial(nodes, s));
    let j = serial_index(nodes, s);
    assert(0 <= j < nodes.len() && nodes[j].0 == s);
}

/// In a sequence without duplicates, a value is found at the one position
/// that holds it.
pub proof fn lemma_index_of_unique<A>(s: Seq<A>, i: int)
    requires
        s.no_duplicates(),
        0 <= i < s.len(),
    ensures
        s.contains(s[i]),
        s.index_of(s[i]) == i,
{
    assert(s.contains(s[i]));
    let j = s.index_of(s[i]);
    assert(0 <= j < s.len() && s[j] == s[i]);
}

/// `after` holds the nodes of `before` in another order: position `k` of
/// `after` is position `from(k)` of `before`, and position `m` of `before`
/// went to position `to(m)`.
spec fn rearranged(
    before: Seq<(int, usize)>,
    after: Seq<(int, usize)>,
    from: spec_fn(int) -> int,
    to: spec_fn(int) -> int,
) -> bool {
    &&& after.len() == before.len()
    &&& forall|k: int|
        0 <= k < after.len() ==> 0 <= #[trigger] from(k) < before.len() && after[k] == before[from(
            k,
        )] && to(from(k)) == k
    &&& forall|m: int|
        0 <= m < before.len() ==> 0 <= #[trigger] to(m) < after.len() && from(to(m)) == m
}

/// Putting nodes in another order keeps their serial numbers distinct and
/// keeps the set of serial numbers.
proof fn lemma_rearranged(
    before: Seq<(int, usize)>,
    after: Seq<(int, usize)>,
    from: spec_fn(int) -> int,
    to: spec_fn(int) -> int,
)
    requires
        rearranged(before, after, from, to),
        distinct_serials(before),
    ensures
        distinct_serials(after),
        forall|s: int| holds_serial(after, s) <==> holds_serial(before, s),
{
    assert forall|i: int, j: int|
        0 <= i < after.len() && 0 <= j < after.len() && i != j implies (#[trigger] after[i]).0 != (
        #[trigger] after[j]).0 by {
        assert(to(from(i)) == i && to(from(j)) == j);
        assert(from(i) != from(j));
        assert(before[from(i)].0 != before[from(j)].0);
    }
    assert forall|s: int| holds_serial(after, s) <==> holds_serial(before, s) by {
        if holds_serial(after, s) {
            let k = serial_index(after, s);
            assert(before[from(k)].0 == s);
        }
        if holds_serial(before, s) {
            let m = serial_index(before, s);
            assert(after[to(m)] == before[from(to(m))]);
            assert(after[to(m)].0 == s);
        }
    }
}

impl<T> View for FastLinkedList<T> {
    type V = Seq<T>;

    /// The elements from head to tail.
    closed spec fn view(&self) -> Seq<T> {
        Seq::new(list_nodes(self.order).len(), |i: int| self.slots@[list_nodes(self.order)[i].1])
    }
}

impl<T> FastLinkedList<T> {
    /// The identities of the nodes from head to tail.
    pub closed spec fn ids(&self) -> Seq<int> {
        Seq::new(list_nodes(self.order).len(), |i: int| list_nodes(self.order)[i].0)
    }

    /// The number by which this list tells its own handles from others.
    pub closed spec fn owner(&self) -> int {
        list_owner(self.order)
    }

    /// How many elements have been pushed since the list was made. The next
    /// node pushed gets this number as its identity.
    pub closed spec fn pushes(&self) -> int {
        list_serial(self.order)
    }

    /// The handle refers to a node that is in this list now.
    pub open spec fn holds(&self, node: Node) -> bool {
        node.owner() == self.owner() && self.ids().contains(node.id())
    }

    /// The position, counted from the head, of the node a valid handle
    /// refers to.
    pub open spec fn position(&self, node: Node) -> int {
        self.ids().index_of(node.id())
    }

    /// The list's invariant: tickets and identities agree, no identity occurs
    /// twice, all are below the count of pushes, and the table holds exactly
    /// the elements whose tickets are in the list.
    pub closed spec fn wf(&self) -> bool {
        let nodes = list_nodes(self.order);
        &&& self.next == list_serial(self.order)
        &&& vstd::std_specs::hash::obeys_key_model::<usize>()
        &&& forall|i: int|
            0 <= i < nodes.len() ==> 0 <= (#[trigger] nodes[i]).0 < self.next && nodes[i].1
                == nodes[i].0
        &&& distinct_serials(nodes)
        &&& forall|t: usize| #[trigger] self.slots@.contains_key(t) <==> holds_serial(nodes, t as int)
    }

    /// What the invariant gives to users of the list.
    pub proof fn lemma_wf(&self)
        requires
            self.wf(),
        ensures
            self.ids().len() == self@.len(),
            self.ids().no_duplicates(),
            0 <= self.pushes() <= usize::MAX,
            forall|i: int| 0 <= i < self.ids().len() ==> 0 <= #[trigger] self.ids()[i] < self.pushes(),
            forall|i: int|
                0 <= i < self.ids().len() ==> self.ids().index_of(#[trigger] self.ids()[i]) == i,
    {
        let nodes = list_nodes(self.order);
        assert forall|i: int, j: int|
            0 <= i < self.ids().len() && 0 <= j < self.ids().len() && i != j implies self.ids()[i]
            != self.ids()[j] by {
            assert(nodes[i].0 != nodes[j].0);
        }
        assert forall|i: int| 0 <= i < self.ids().len() implies 0 <= #[trigger] self.ids()[i]
            < self.pushes() by {
            assert(0 <= nodes[i].0 < self.next);
        }
        assert forall|i: int| 0 <= i < self.ids().len() implies self.ids().index_of(
            #[trigger] self.ids()[i],
        ) == i by {
            lemma_index_of_unique(self.ids(), i);
        }
    }

    /// A handle is valid exactly when its node's identity is among the
    /// list's, and then its position is where that identity stands.
    proof fn lemma_handle(&self, node: Node)
        requires
            self.wf(),
        ensures
            self.holds(node) == handle_valid(self.order, node.handle),
            self.holds(node) ==> 0 <= self.position(node) < self.ids().len() && self.position(node)
                == handle_index(self.order, node.handle) && self.ids()[self.position(node)]
                == node.id(),
    {
        let nodes = list_nodes(self.order);
        let s = node.id();
        if self.ids().contains(s) {
            let i = self.ids().index_of(s);
            assert(0 <= i < self.ids().len() && self.ids()[i] == s);
            assert(nodes[i].0 == s);
            lemma_serial_index(nodes, i);
        }
        if holds_serial(nodes, s) {
            let j = serial_index(nodes, s);
            assert(0 <= j < nodes.len() && nodes[j].0 == s);
            assert(self.ids()[j] == s);
            assert(self.ids().contains(s));
        }
    }

    /// After the nodes were put in another order, with the table untouched,
    /// the invariant holds again and each position shows the element that
    /// its node showed before.
    proof fn lemma_reordered(
        &self,
        prev: &Self,
        from: spec_fn(int) -> int,
        to: spec_fn(int) -> int,
    )
        requires
            prev.wf(),
            self.slots@ == prev.slots@,
            self.next == prev.next,
            list_serial(self.order) == list_serial(prev.order),
            rearranged(list_nodes(prev.order), list_nodes(self.order), from, to),
        ensures
            self.wf(),
            self@.len() == prev@.len(),
            self.ids().len() == prev.ids().len(),
            forall|k: int| 0 <= k < self@.len() ==> #[trigger] self@[k] == prev@[from(k)],
            forall|k: int| 0 <= k < self@.len() ==> #[trigger] self.ids()[k] == prev.ids()[from(k)],
    {
        let before = list_nodes(prev.order);
        let after = list_nodes(self.order);
        lemma_rearranged(before, after, from, to);
        assert forall|i: int| 0 <= i < after.len() implies 0 <= (#[trigger] after[i]).0 < self.next
            && after[i].1 == after[i].0 by {
            assert(after[i] == before[from(i)]);
        }
        assert forall|k: int| 0 <= k < self@.len() implies #[trigger] self@[k] == prev@[from(k)] by {
            assert(after[k] == before[from(k)]);
        }
        assert forall|k: int| 0 <= k < self@.len() implies #[trigger] self.ids()[k] == prev.ids()[from(
            k,
        )] by {
            assert(after[k] == before[from(k)]);
        }
    }

    /// An empty list with room set aside for `capacity` elements.
    pub fn with_capacity(capacity: usize) -> (list: FastLinkedList<T>)
        ensures
            list.wf(),
            list@ == Seq::<T>::empty(),
            list.ids() == Seq::<int>::empty(),
            list.pushes() == 0,
    {
        let list = FastLinkedList {
            order: tickets::with_capacity(capacity),
            slots: HashMap::with_capacity(capacity),
            next: 0,
        };
        assert(list@ =~= Seq::<T>::empty());
        assert(list.ids() =~= Seq::<int>::empty());
        list
    }

    /// The number of elements.
    pub fn len(&self) -> (n: usize)
        ensures
            n == self@.len(),
    {
        tickets::len(&self.order)
    }

    /// Whether the list has no elements.
    pub fn is_empty(&self) -> (empty: bool)
        ensures
            empty == (self@.len() == 0),
    {
        tickets::len(&self.order) == 0
    }

    /// Whether another element can be pushed. Each push uses up one node
    /// identity, and there are `usize::MAX` of them.
    pub fn can_push(&self) -> (r: bool)
        requires
            self.wf(),
        ensures
            r == (self.pushes() < usize::MAX),
    {
        self.next < usize::MAX
    }

    /// Puts `elem` at the head and returns the handle of its node.
    pub fn push_head(&mut self, elem: T) -> (node: Node)
        requires
            old(self).wf(),
            old(self).pushes() < usize::MAX,
        ensures
            final(self).wf(),
            final(self)@ == seq![elem] + old(self)@,
            final(self).ids() == seq![old(self).pushes()] + old(self).ids(),
            final(self).pushes() == old(self).pushes() + 1,
            final(self).owner() == old(self).owner(),
            node.owner() == old(self).owner(),
            node.id() == old(self).pushes(),
    {
        let ticket = self.next;
        let ghost before = list_nodes(self.order);
        let ghost table = self.slots@;
        proof {
            if table.contains_key(ticket) {
                let i = serial_index(before, ticket as int);
                assert(before[i].0 < ticket);
            }
        }
        let handle = tickets::push_head(&mut self.order, ticket);
        self.slots.insert(ticket, elem);
        self.next = ticket + 1;
        proof {
            let after = list_nodes(self.order);
            assert(after[0] == (ticket as int, ticket));
            assert forall|i: int| 0 < i < after.len() implies #[trigger] after[i] == before[i - 1] by {}
            assert forall|t: usize| #[trigger]
                self.slots@.contains_key(t) <==> holds_serial(after, t as int) by {
                if holds_serial(after, t as int) {
                    let i = serial_index(after, t as int);
                    if i > 0 {
                        assert(before[i - 1].0 == t);
                        assert(holds_serial(before, t as int));
                    }
                }
                if self.slots@.contains_key(t) {
                    if t == ticket {
                        assert(after[0].0 == t);
                    } else {
                        assert(table.contains_key(t));
                        let i = serial_index(before, t as int);
                        assert(after[i + 1].0 == t);
                    }
                }
            }
            assert(self@ =~= seq![elem] + old(self)@) by {
                assert forall|i: int| 0 < i < after.len() implies self@[i] == old(self)@[i - 1] by {
                    assert(after[i] == before[i - 1]);
                    assert(before[i - 1].0 < ticket);
                }
            }
            assert(self.ids() =~= seq![old(self).pushes()] + old(self).ids());
        }
        Node { handle }
    }

    /// Puts `elem` at the head.
    pub fn push_front(&mut self, elem: T)
        requires
            old(self).wf(),
            old(self).pushes() < usize::MAX,
        ensures
            final(self).wf(),
            final(self)@ == seq![elem] + old(self)@,
            final(self).ids() == seq![old(self).pushes()] + old(self).ids(),
            final(self).pushes() == old(self).pushes() + 1,
            final(self).owner() == old(self).owner(),
    {
        let _ = self.push_head(elem);
    }

    /// Removes the element at the tail and returns it; `None` on an empty
    /// list. The handles of the other nodes stay valid.
    pub fn pop_tail(&mut self) -> (r: Option<T>)
        requires
            old(self).wf(),
        ensures
            final(self).wf(),
            final(self).pushes() == old(self).pushes(),
            final(self).owner() == old(self).owner(),
            match r {
                None => old(self)@.len() == 0 && final(self)@ == old(self)@ && final(self).ids()
                    == old(self).ids(),
                Some(elem) => {
                    &&& old(self)@.len() > 0
                    &&& elem == old(self)@.last()
                    &&& final(self)@ == old(self)@.drop_last()
                    &&& final(self).ids() == old(self).ids().drop_last()
                },
            },
    {
        let ghost before = list_nodes(self.order);
        let ghost table = self.slots@;
        match tickets::pop_tail(&mut self.order) {
            None => {
                assert(self@ =~= old(self)@);
                assert(self.ids() =~= old(self).ids());
                None
            },
            Some(ticket) => {
                proof {
                    lemma_serial_index(before, before.len() - 1);
                }
                let r = self.slots.remove(&ticket);
                proof {
                    let after = list_nodes(self.order);
                    assert forall|i: int| 0 <= i < after.len() implies #[trigger] after[i]
                        == before[i] by {}
                    assert forall|t: usize| #[trigger]
                        self.slots@.contains_key(t) <==> holds_serial(after, t as int) by {
                        if holds_serial(after, t as int) {
                            let i = serial_index(after, t as int);
                            assert(before[i].0 == t);
                            assert(holds_serial(before, t as int));
                        }
                        if self.slots@.contains_key(t) {
                            assert(table.contains_key(t));
                            let i = serial_index(before, t as int);
                            assert(i != before.len() - 1);
                            assert(after[i].0 == t);
                        }
                    }
                    assert(self@ =~= old(self)@.drop_last()) by {
                        assert forall|i: int| 0 <= i < after.len() implies self@[i] == old(self)@[i] by {
                            assert(after[i] == before[i]);
                            assert(before[i].0 != before[before.len() - 1].0);
                        }
                    }
                    assert(self.ids() =~= old(self).ids().drop_last());
                }
                r
            },
        }
    }
}

impl<T> FastLinkedList<T> {
    /// The handle of the node at the head; `None` on an empty list.
    pub fn head_node(&self) -> (r: Option<Node>)
        requires
            self.wf(),
        ensures
            match r {
                None => self@.len() == 0,
                Some(node) => {
                    &&& self@.len() > 0
                    &&& self.holds(node)
                    &&& self.position(node) == 0
                },
            },
    {
        match tickets::head_node(&self.order) {
            None => None,
            Some(handle) => {
                let node = Node { handle };
                proof {
                    self.lemma_wf();
                    assert(self.ids()[0] == node.id());
                    lemma_index_of_unique(self.ids(), 0);
                }
                Some(node)
            },
        }
    }

    /// The handle of the node at the tail; `None` on an empty list.
    pub fn tail_node(&self) -> (r: Option<Node>)
        requires
            self.wf(),
        ensures
            match r {
                None => self@.len() == 0,
                Some(node) => {
                    &&& self@.len() > 0
                    &&& self.holds(node)
                    &&& self.position(node) == self@.len() - 1
                },
            },
    {
        match tickets::tail_node(&self.order) {
            None => None,
            Some(handle) => {
                let node = Node { handle };
                proof {
                    self.lemma_wf();
                    assert(self.ids()[self.ids().len() - 1] == node.id());
                    lemma_index_of_unique(self.ids(), self.ids().len() - 1);
                }
                Some(node)
            },
        }
    }

    /// References to the elements from head to tail.
    pub fn items(&self) -> (v: Vec<&T>)
        requires
            self.wf(),
        ensures
            v@.len() == self@.len(),
            forall|i: int| 0 <= i < v@.len() ==> *(#[trigger] v@[i]) == self@[i],
    {
        let mut v: Vec<&T> = Vec::new();
        let n = self.len();
        let mut cur = self.head_node();
        let mut i: usize = 0;
        while i < n
            invariant
                self.wf(),
                n == self@.len(),
                i <= n,
                v@.len() == i,
                forall|k: int| 0 <= k < i ==> *(#[trigger] v@[k]) == self@[k],
                i < n ==> (cur matches Some(c) && self.holds(c) && self.position(c) == i),
            decreases n - i,
        {
            let c = cur.unwrap();
            let e = c.val(self).unwrap();
            v.push(e);
            cur = c.next_node(self);
            i = i + 1;
        }
        v
    }
}

impl Node {
    /// The element of this handle's node; `None` where the handle is not
    /// valid in `list`.
    pub fn val<'a, T>(&self, list: &'a FastLinkedList<T>) -> (r: Option<&'a T>)
        requires
            list.wf(),
        ensures
            list.holds(*self) ==> r == Some(&list@[list.position(*self)]),
            !list.holds(*self) ==> r.is_none(),
    {
        proof {
            list.lemma_handle(*self);
        }
        match tickets::val(&self.handle, &list.order) {
            None => None,
            Some(ticket) => {
                proof {
                    let nodes = list_nodes(list.order);
                    let p = list.position(*self);
                    assert(nodes[p].1 == *ticket);
                    lemma_serial_index(nodes, p);
                    assert(holds_serial(nodes, *ticket as int));
                }
                list.slots.get(ticket)
            },
        }
    }

    /// Puts `elem` in the place of this handle's element and returns the
    /// element that was there; the node keeps its position and its handle.
    /// Where the handle is not valid in `list` nothing changes and the
    /// result is `None`.
    pub fn replace<T>(&self, list: &mut FastLinkedList<T>, elem: T) -> (r: Option<T>)
        requires
            old(list).wf(),
        ensures
            final(list).wf(),
            final(list).pushes() == old(list).pushes(),
            final(list).owner() == old(list).owner(),
            final(list).ids() == old(list).ids(),
            old(list).holds(*self) ==> {
                &&& r == Some(old(list)@[old(list).position(*self)])
                &&& final(list)@ == old(list)@.update(old(list).position(*self), elem)
            },
            !old(list).holds(*self) ==> r.is_none() && final(list)@ == old(list)@,
    {
        proof {
            list.lemma_handle(*self);
        }
        let ghost nodes = list_nodes(list.order);
        let ghost table = list.slots@;
        let found = match tickets::val(&self.handle, &list.order) {
            None => None,
            Some(t) => Some(*t),
        };
        match found {
            None => None,
            Some(ticket) => {
                let ghost p = old(list).position(*self);
                proof {
                    assert(nodes[p].1 == ticket);
                    lemma_serial_index(nodes, p);
                }
                let r = list.slots.insert(ticket, elem);
                proof {
                    assert forall|t: usize| #[trigger]
                        list.slots@.contains_key(t) <==> holds_serial(nodes, t as int) by {
                        assert(table.contains_key(t) <==> holds_serial(nodes, t as int));
                    }
                    assert(list@ =~= old(list)@.update(p, elem)) by {
                        assert forall|k: int| 0 <= k < nodes.len() && k != p implies list@[k]
                            == old(list)@[k] by {
                            assert(nodes[k].0 != nodes[p].0);
                        }
                    }
                }
                r
            },
        }
    }

    /// Removes this handle's node from `list` and returns its element; the
    /// other nodes keep their order and their handles. Where the handle is
    /// not valid in `list` nothing changes and the result is `None`.
    pub fn pop<T>(&self, list: &mut FastLinkedList<T>) -> (r: Option<T>)
        requires
            old(list).wf(),
        ensures
            final(list).wf(),
            final(list).pushes() == old(list).pushes(),
            final(list).owner() == old(list).owner(),
            old(list).holds(*self) ==> {
                &&& r == Some(old(list)@[old(list).position(*self)])
                &&& final(list)@ == old(list)@.remove(old(list).position(*self))
                &&& final(list).ids() == old(list).ids().remove(old(list).position(*self))
            },
            !old(list).holds(*self) ==> {
                &&& r.is_none()
                &&& final(list)@ == old(list)@
                &&& final(list).ids() == old(list).ids()
            },
    {
        proof {
            list.lemma_handle(*self);
        }
        let ghost before = list_nodes(list.order);
        let ghost table = list.slots@;
        match tickets::pop_node(&self.handle, &mut list.order) {
            None => {
                assert(list@ =~= old(list)@);
                assert(list.ids() =~= old(list).ids());
                None
            },
            Some(ticket) => {
                let ghost p = old(list).position(*self);
                proof {
                    assert(before[p].1 == ticket);
                    lemma_serial_index(before, p);
                }
                let r = list.slots.remove(&ticket);
                proof {
                    let after = list_nodes(list.order);
                    assert(after == before.remove(p));
                    assert forall|k: int| 0 <= k < after.len() implies #[trigger] after[k] == before[if k
                        < p {
                        k
                    } else {
                        k + 1
                    }] by {}
                    assert forall|i: int| 0 <= i < after.len() implies 0 <= (#[trigger] after[i]).0
                        < list.next && after[i].1 == after[i].0 by {
                        assert(after[i] == before[if i < p {
                            i
                        } else {
                            i + 1
                        }]);
                    }
                    assert forall|i: int, j: int|
                        0 <= i < after.len() && 0 <= j < after.len() && i != j implies (
                    #[trigger] after[i]).0 != (#[trigger] after[j]).0 by {
                        assert(after[i] == before[if i < p {
                            i
                        } else {
                            i + 1
                        }]);
                        assert(after[j] == before[if j < p {
                            j
                        } else {
                            j + 1
                        }]);
                    }
                    assert forall|t: usize| #[trigger]
                        list.slots@.contains_key(t) <==> holds_serial(after, t as int) by {
                        if holds_serial(after, t as int) {
                            let i = serial_index(after, t as int);
                            let m = if i < p {
                                i
                            } else {
                                i + 1
                            };
                            assert(after[i] == before[m]);
                            assert(before[m].0 == t);
                            assert(holds_serial(before, t as int));
                            assert(before[m].0 != before[p].0);
                        }
                        if list.slots@.contains_key(t) {
                            assert(table.contains_key(t));
                            let m = serial_index(before, t as int);
                            assert(m != p);
                            let i = if m < p {
                                m
                            } else {
                                m - 1
                            };
                            assert(after[i] == before[m]);
                            assert(after[i].0 == t);
                        }
                    }
                    assert(list@ =~= old(list)@.remove(p)) by {
                        assert forall|k: int| 0 <= k < after.len() implies list@[k] == old(list)@[if k
                            < p {
                            k
                        } else {
                            k + 1
                        }] by {
                            let m = if k < p {
                                k
                            } else {
                                k + 1
                            };
                            assert(after[k] == before[m]);
                            assert(before[m].0 != before[p].0);
                        }
                    }
                    assert(list.ids() =~= old(list).ids().remove(p));
                }
                r
            },
        }
    }

    /// Moves this handle's node to the head of `list`; the other nodes keep
    /// their order, and every handle stays valid. Returns `false`, and
    /// changes nothing, where the handle is not valid in `list`.
    pub fn make_head<T>(&self, list: &mut FastLinkedList<T>) -> (moved: bool)
        requires
            old(list).wf(),
        ensures
            final(list).wf(),
            final(list).pushes() == old(list).pushes(),
            final(list).owner() == old(list).owner(),
            moved == old(list).holds(*self),
            moved ==> final(list)@ == moved_to_head(old(list)@, old(list).position(*self))
                && final(list).ids() == moved_to_head(old(list).ids(), old(list).position(*self)),
            !moved ==> final(list)@ == old(list)@ && final(list).ids() == old(list).ids(),
    {
        proof {
            list.lemma_handle(*self);
        }
        let ghost prev = *list;
        let moved = tickets::make_head(&self.handle, &mut list.order);
        proof {
            if moved {
                let p = prev.position(*self);
                let from = |k: int|
                    if k == 0 {
                        p
                    } else if k <= p {
                        k - 1
                    } else {
                        k
                    };
                let to = |m: int|
                    if m == p {
                        0
                    } else if m < p {
                        m + 1
                    } else {
                        m
                    };
                assert(rearranged(list_nodes(prev.order), list_nodes(list.order), from, to));
                list.lemma_reordered(&prev, from, to);
                assert(list@ =~= moved_to_head(prev@, p)) by {
                    assert forall|k: int| 0 <= k < list@.len() implies list@[k] == moved_to_head(
                        prev@,
                        p,
                    )[k] by {
                        assert(list@[k] == prev@[from(k)]);
                    }
                }
                assert(list.ids() =~= moved_to_head(prev.ids(), p)) by {
                    assert forall|k: int| 0 <= k < list@.len() implies list.ids()[k]
                        == moved_to_head(prev.ids(), p)[k] by {
                        assert(list.ids()[k] == prev.ids()[from(k)]);
                    }
                }
            } else {
                assert(list@ =~= prev@);
                assert(list.ids() =~= prev.ids());
            }
        }
        moved
    }

    /// Exchanges the places of this handle's node and `other`'s node in
    /// `list`; every handle stays valid. Returns `false`, and changes
    /// nothing, where either handle is not valid in `list`.
    pub fn swap_node<T>(&self, other: &Node, list: &mut FastLinkedList<T>) -> (swapped: bool)
        requires
            old(list).wf(),
        ensures
            final(list).wf(),
            final(list).pushes() == old(list).pushes(),
            final(list).owner() == old(list).owner(),
            swapped == (old(list).holds(*self) && old(list).holds(*other)),
            swapped ==> final(list)@ == exchanged(
                old(list)@,
                old(list).position(*self),
                old(list).position(*other),
            ) && final(list).ids() == exchanged(
                old(list).ids(),
                old(list).position(*self),
                old(list).position(*other),
            ),
            !swapped ==> final(list)@ == old(list)@ && final(list).ids() == old(list).ids(),
    {
        proof {
            list.lemma_handle(*self);
            list.lemma_handle(*other);
        }
        let ghost prev = *list;
        let swapped = tickets::swap_node(&self.handle, &other.handle, &mut list.order);
        proof {
            if swapped {
                let p = prev.position(*self);
                let q = prev.position(*other);
                let from = |k: int|
                    if k == p {
                        q
                    } else if k == q {
                        p
                    } else {
                        k
                    };
                assert(rearranged(list_nodes(prev.order), list_nodes(list.order), from, from));
                list.lemma_reordered(&prev, from, from);
                assert(list@ =~= exchanged(prev@, p, q)) by {
                    assert forall|k: int| 0 <= k < list@.len() implies list@[k] == exchanged(
                        prev@,
                        p,
                        q,
                    )[k] by {
                        assert(list@[k] == prev@[from(k)]);
                    }
                }
                assert(list.ids() =~= exchanged(prev.ids(), p, q)) by {
                    assert forall|k: int| 0 <= k < list@.len() implies list.ids()[k] == exchanged(
                        prev.ids(),
                        p,
                        q,
                    )[k] by {
                        assert(list.ids()[k] == prev.ids()[from(k)]);
                    }
                }
            } else {
                assert(list@ =~= prev@);
                assert(list.ids() =~= prev.ids());
            }
        }
        swapped
    }

    /// The handle of the node after this handle's node in `list`; `None`
    /// where this handle is not valid in `list` or its node is the tail.
    pub fn next_node<T>(&self, list: &FastLinkedList<T>) -> (r: Option<Node>)
        requires
            list.wf(),
        ensures
            match r {
                None => !list.holds(*self) || list.position(*self) + 1 == list@.len(),
                Some(next) => {
                    &&& list.holds(*self)
                    &&& list.holds(next)
                    &&& list.position(next) == list.position(*self) + 1
                    &&& list.position(next) < list@.len()
                },
            },
    {
        proof {
            list.lemma_handle(*self);
            list.lemma_wf();
        }
        match tickets::next_node(&self.handle, &list.order) {
            None => None,
            Some(handle) => {
                let next = Node { handle };
                proof {
                    let p = list.position(*self);
                    assert(list.ids()[p + 1] == next.id());
                    lemma_index_of_unique(list.ids(), p + 1);
                }
                Some(next)
            },
        }
    }

    /// The handle of the node before this handle's node in `list`; `None`
    /// where this handle is not valid in `list` or its node is the head.
    pub fn prev_node<T>(&self, list: &FastLinkedList<T>) -> (r: Option<Node>)
        requires
            list.wf(),
        ensures
            match r {
                None => !list.holds(*self) || list.position(*self) == 0,
                Some(prev) => {
                    &&& list.holds(*self)
                    &&& list.holds(prev)
                    &&& list.position(prev) == list.position(*self) - 1
                    &&& list.position(prev) >= 0
                },
            },
    {
        proof {
            list.lemma_handle(*self);
            list.lemma_wf();
        }
        match tickets::prev_node(&self.handle, &list.order) {
            None => None,
            Some(handle) => {
                let prev = Node { handle };
                proof {
                    let p = list.position(*self);
                    assert(list.ids()[p - 1] == prev.id());
                    lemma_index_of_unique(list.ids(), p - 1);
                }
                Some(prev)
            },
        }
    }
}

} // verus!
