//! The `deepmesa_collections` linked list, as far as this crate relies on it.
//!
//! The list is used at one item type, `usize`. Every function in this module
//! is a thin call into that crate; its contract is taken on trust from the
//! crate's source and is what the verified code elsewhere is proved against.
//!
//! The model: a list is a sequence of nodes from head to tail. When a node is
//! pushed the list stamps it with the current value of a counter (its field
//! `nid`), the node's serial number, and advances the counter, so that no two
//! nodes of one list ever share a serial number. Every list has a number of
//! its own (its field `cid`). A handle records the number of the list that
//! made it and the serial number of its node; the list accepts a handle
//! exactly when the list's number is the handle's and the handle's node is
//! still in the list.

use deepmesa_collections::linkedlist::NodeHandle;
use deepmesa_collections::LinkedList;
use vstd::prelude::*;

verus! {

/// `deepmesa_collections::LinkedList`, a value that the verifier carries
/// through without looking inside.
#[verifier::external_type_specification]
#[verifier::external_body]
#[verifier::reject_recursive_types(T)]
pub struct ExLinkedList<T>(LinkedList<T>);

/// `deepmesa_collections::linkedlist::NodeHandle`, likewise.
#[verifier::external_type_specification]
#[verifier::external_body]
#[verifier::reject_recursive_types(T)]
pub struct ExNodeHandle<T>(NodeHandle<T>);

/// The nodes of a list from head to tail: for each node its serial number and
/// the item it holds.
pub uninterp spec fn list_nodes(l: LinkedList<usize>) -> Seq<(int, usize)>;

/// The serial number that the list will give to the next node pushed; it
/// counts the pushes made so far.
pub uninterp spec fn list_serial(l: LinkedList<usize>) -> int;

/// The number by which a list tells its own handles from those of other lists.
pub uninterp spec fn list_owner(l: LinkedList<usize>) -> int;

/// The number of the list that handed the handle out.
pub uninterp spec fn handle_owner(h: NodeHandle<usize>) -> int;

/// The serial number of the node that the handle was made for.
pub uninterp spec fn handle_serial(h: NodeHandle<usize>) -> int;

/// Some node of `nodes` carries the serial number `serial`.
pub open spec fn holds_serial(nodes: Seq<(int, usize)>, serial: int) -> bool {
    exists|i: int| 0 <= i < nodes.len() && (#[trigger] nodes[i]).0 == serial
}

/// A position in `nodes` of a node that carries `serial`, where there is one.
pub open spec fn serial_index(nodes: Seq<(int, usize)>, serial: int) -> int {
    choose|i: int| 0 <= i < nodes.len() && (#[trigger] nodes[i]).0 == serial
}

/// The handle refers to a node that is in the list now.
pub open spec fn handle_valid(l: LinkedList<usize>, h: NodeHandle<usize>) -> bool {
    handle_owner(h) == list_owner(l) && holds_serial(list_nodes(l), handle_serial(h))
}

/// The position of the handle's node, for a handle that is valid in the list.
pub open spec fn handle_index(l: LinkedList<usize>, h: NodeHandle<usize>) -> int {
    serial_index(list_nodes(l), handle_serial(h))
}

/// `s` with the element at `i` taken out and put in front.
pub open spec fn moved_to_head<A>(s: Seq<A>, i: int) -> Seq<A> {
    seq![s[i]] + s.remove(i)
}

/// `s` with the elements at `i` and `j` exchanged.
pub open spec fn exchanged<A>(s: Seq<A>, i: int, j: int) -> Seq<A> {
    s.update(i, s[j]).update(j, s[i])
}

/// `LinkedList::with_capacity`: a new list has no nodes and its counter of
/// pushes stands at zero.
#[verifier::external_body]
pub(crate) fn with_capacity(capacity: usize) -> (l: LinkedList<usize>)
    ensures
        list_nodes(l) == Seq::<(int, usize)>::empty(),
        list_serial(l) == 0,
{
    LinkedList::with_capacity(capacity)
}

/// `LinkedList::len`: the number of nodes in the list.
#[verifier::external_body]
pub(crate) fn len(l: &LinkedList<usize>) -> (n: usize)
    ensures
        n == list_nodes(*l).len(),
{
    l.len()
}

/// `LinkedList::push_head`: a node with the next serial number and the given
/// item becomes the head; the returned handle is this list's handle for that
/// node. The counter must not be exhausted, since the list increments it with
/// a plain addition.
#[verifier::external_body]
pub(crate) fn push_head(l: &mut LinkedList<usize>, item: usize) -> (h: NodeHandle<usize>)
    requires
        list_serial(*old(l)) < usize::MAX,
    ensures
        list_nodes(*final(l)) == seq![(list_serial(*old(l)), item)] + list_nodes(*old(l)),
        list_serial(*final(l)) == list_serial(*old(l)) + 1,
        list_owner(*final(l)) == list_owner(*old(l)),
        handle_owner(h) == list_owner(*old(l)),
        handle_serial(h) == list_serial(*old(l)),
{
    l.push_head(item)
}

/// `LinkedList::pop_tail`: an empty list gives `None` and stays as it is;
/// otherwise the last node leaves the list and its item is returned.
#[verifier::external_body]
pub(crate) fn pop_tail(l: &mut LinkedList<usize>) -> (r: Option<usize>)
    ensures
        list_serial(*final(l)) == list_serial(*old(l)),
        list_owner(*final(l)) == list_owner(*old(l)),
        match r {
            None => list_nodes(*old(l)).len() == 0 && list_nodes(*final(l)) == list_nodes(*old(l)),
            Some(item) => {
                &&& list_nodes(*old(l)).len() > 0
                &&& item == list_nodes(*old(l)).last().1
                &&& list_nodes(*final(l)) == list_nodes(*old(l)).drop_last()
            },
        },
{
    l.pop_tail()
}

/// `NodeHandle::pop`: with a valid handle the handle's node leaves the list
/// and its item is returned; with any other handle the result is `None` and
/// the list stays as it is.
#[verifier::external_body]
pub(crate) fn pop_node(h: &NodeHandle<usize>, l: &mut LinkedList<usize>) -> (r: Option<usize>)
    ensures
        list_serial(*final(l)) == list_serial(*old(l)),
        list_owner(*final(l)) == list_owner(*old(l)),
        handle_valid(*old(l), *h) ==> r == Some(list_nodes(*old(l))[handle_index(*old(l), *h)].1)
            && list_nodes(*final(l)) == list_nodes(*old(l)).remove(handle_index(*old(l), *h)),
        !handle_valid(*old(l), *h) ==> r.is_none() && list_nodes(*final(l)) == list_nodes(*old(l)),
{
    h.pop(l)
}

/// `NodeHandle::make_head`: with a valid handle the handle's node moves to the
/// head, the other nodes keep their order, and the result is `true`; with any
/// other handle the result is `false` and the list stays as it is.
#[verifier::external_body]
pub(crate) fn make_head(h: &NodeHandle<usize>, l: &mut LinkedList<usize>) -> (moved: bool)
    ensures
        list_serial(*final(l)) == list_serial(*old(l)),
        list_owner(*final(l)) == list_owner(*old(l)),
        moved == handle_valid(*old(l), *h),
        moved ==> list_nodes(*final(l)) == moved_to_head(
            list_nodes(*old(l)),
            handle_index(*old(l), *h),
        ),
        !moved ==> list_nodes(*final(l)) == list_nodes(*old(l)),
{
    h.make_head(l)
}

/// `NodeHandle::val`: the item of the handle's node, or `None` for a handle
/// that is not valid in the list.
#[verifier::external_body]
pub(crate) fn val<'a>(h: &NodeHandle<usize>, l: &'a LinkedList<usize>) -> (r: Option<&'a usize>)
    ensures
        handle_valid(*l, *h) ==> r == Some(&list_nodes(*l)[handle_index(*l, *h)].1),
        !handle_valid(*l, *h) ==> r.is_none(),
{
    h.val(l)
}

/// `LinkedList::head_node`: this list's handle for its first node, or `None`
/// for an empty list.
#[verifier::external_body]
pub(crate) fn head_node(l: &LinkedList<usize>) -> (r: Option<NodeHandle<usize>>)
    ensures
        match r {
            None => list_nodes(*l).len() == 0,
            Some(h) => {
                &&& list_nodes(*l).len() > 0
                &&& handle_owner(h) == list_owner(*l)
                &&& handle_serial(h) == list_nodes(*l).first().0
            },
        },
{
    l.head_node()
}

/// `LinkedList::tail_node`: this list's handle for its last node, or `None`
/// for an empty list.
#[verifier::external_body]
pub(crate) fn tail_node(l: &LinkedList<usize>) -> (r: Option<NodeHandle<usize>>)
    ensures
        match r {
            None => list_nodes(*l).len() == 0,
            Some(h) => {
                &&& list_nodes(*l).len() > 0
                &&& handle_owner(h) == list_owner(*l)
                &&& handle_serial(h) == list_nodes(*l).last().0
            },
        },
{
    l.tail_node()
}

/// `NodeHandle::next_node`: this list's handle for the node after the
/// handle's node; `None` where the handle is not valid or its node is the
/// last.
#[verifier::external_body]
pub(crate) fn next_node(h: &NodeHandle<usize>, l: &LinkedList<usize>) -> (r: Option<
    NodeHandle<usize>,
>)
    ensures
        match r {
            None => !handle_valid(*l, *h) || handle_index(*l, *h) + 1 == list_nodes(*l).len(),
            Some(next) => {
                &&& handle_valid(*l, *h)
                &&& handle_index(*l, *h) + 1 < list_nodes(*l).len()
                &&& handle_owner(next) == list_owner(*l)
                &&& handle_serial(next) == list_nodes(*l)[handle_index(*l, *h) + 1].0
            },
        },
{
    h.next_node(l)
}

/// `NodeHandle::prev_node`: this list's handle for the node before the
/// handle's node; `None` where the handle is not valid or its node is the
/// first.
#[verifier::external_body]
pub(crate) fn prev_node(h: &NodeHandle<usize>, l: &LinkedList<usize>) -> (r: Option<
    NodeHandle<usize>,
>)
    ensures
        match r {
            None => !handle_valid(*l, *h) || handle_index(*l, *h) == 0,
            Some(prev) => {
                &&& handle_valid(*l, *h)
                &&& handle_index(*l, *h) > 0
                &&& handle_owner(prev) == list_owner(*l)
                &&& handle_serial(prev) == list_nodes(*l)[handle_index(*l, *h) - 1].0
            },
        },
{
    h.prev_node(l)
}

/// `NodeHandle::swap_node`: where both handles are valid their nodes exchange
/// places and the result is `true`; otherwise the result is `false` and the
/// list stays as it is.
#[verifier::external_body]
pub(crate) fn swap_node(
    h: &NodeHandle<usize>,
    other: &NodeHandle<usize>,
    l: &mut LinkedList<usize>,
) -> (swapped: bool)
    ensures
        list_serial(*final(l)) == list_serial(*old(l)),
        list_owner(*final(l)) == list_owner(*old(l)),
        swapped == (handle_valid(*old(l), *h) && handle_valid(*old(l), *other)),
        swapped ==> list_nodes(*final(l)) == exchanged(
            list_nodes(*old(l)),
            handle_index(*old(l), *h),
            handle_index(*old(l), *other),
        ),
        !swapped ==> list_nodes(*final(l)) == list_nodes(*old(l)),
{
    h.swap_node(other, l)
}

} // verus!
