//! Reversing a list in place.

use crate::linkedlist::fastlist::{FastLinkedList, Node};
use std::collections::VecDeque;
use vstd::prelude::*;

verus! {

/// Reverses a [`FastLinkedList`] in place by exchanging nodes pairwise from
/// the two ends inwards. Every element stays in its node, so every handle
/// stays valid and keeps referring to the same element.
pub fn reverse_fll<T>(list: &mut FastLinkedList<T>)
    requires
        old(list).wf(),
    ensures
        final(list).wf(),
        final(list)@ == old(list)@.reverse(),
        final(list).ids() == old(list).ids().reverse(),
        final(list).pushes() == old(list).pushes(),
        final(list).owner() == old(list).owner(),
{
    let ghost elems = list@;
    let ghost ids = list.ids();
    proof {
        list.lemma_wf();
    }
    if list.is_empty() || list.len() == 1 {
        assert(list@ =~= elems.reverse());
        assert(list.ids() =~= ids.reverse());
        return ;
    }
    let n = list.len();
    let half = n / 2;
    let mut front_p: Node = list.head_node().unwrap();
    let mut back_p: Node = list.tail_node().unwrap();

    for i in 0..half
        invariant
            list.wf(),
            n >= 2,
            half == n / 2,
            list@.len() == n,
            list.ids().len() == n,
            elems.len() == n,
            ids.len() == n,
            list.pushes() == old(list).pushes(),
            list.owner() == old(list).owner(),
            forall|k: int|
                0 <= k < i || n - 1 - i < k < n ==> #[trigger] list@[k] == elems[n - 1 - k],
            forall|k: int| i <= k <= n - 1 - i ==> #[trigger] list@[k] == elems[k],
            forall|k: int|
                0 <= k < i || n - 1 - i < k < n ==> #[trigger] list.ids()[k] == ids[n - 1 - k],
            forall|k: int| i <= k <= n - 1 - i ==> #[trigger] list.ids()[k] == ids[k],
            i < half ==> list.holds(front_p) && list.position(front_p) == i,
            i < half ==> list.holds(back_p) && list.position(back_p) == n - 1 - i,
    {
        let ghost before = *list;
        let front_next = front_p.next_node(list).unwrap();
        let back_prev = back_p.prev_node(list).unwrap();
        front_p.swap_node(&back_p, list);
        proof {
            before.lemma_wf();
            list.lemma_wf();
            if i + 1 < half {
                assert(list.ids()[i + 1] == front_next.id());
                assert(list.ids()[n - 2 - i] == back_prev.id());
            }
        }
        front_p = front_next;
        back_p = back_prev;
    }
    assert(list@ =~= elems.reverse());
    assert(list.ids() =~= ids.reverse());
}

/// Reverses a double-ended queue in place: the elements are moved one by
/// one onto the front of a second queue, which turns them round, and then
/// moved back in the order in which they come off it.
pub fn reverse_std<T>(list: &mut VecDeque<T>)
    ensures
        final(list)@ == old(list)@.reverse(),
{
    let ghost orig = list@;
    let ghost n = orig.len() as int;
    if list.len() == 0 || list.len() == 1 {
        assert(list@ =~= orig.reverse());
        return ;
    }
    let mut tmp_list = VecDeque::<T>::new();
    let mut cur: Option<T> = list.pop_front();
    while cur.is_some()
        invariant
            n == orig.len(),
            tmp_list@.len() + (if cur.is_some() {
                1int
            } else {
                0int
            }) + list@.len() == n,
            forall|k: int| 0 <= k < tmp_list@.len() ==> tmp_list@[k] == orig[tmp_list@.len() - 1 - k],
            cur matches Some(x) ==> x == orig[tmp_list@.len() as int],
            forall|k: int| 0 <= k < list@.len() ==> list@[k] == orig[n - list@.len() + k],
            cur.is_none() ==> list@.len() == 0,
        decreases list@.len() + (if cur.is_some() {
            1int
        } else {
            0int
        }),
    {
        tmp_list.push_front(cur.unwrap());
        cur = list.pop_front();
    }

    cur = tmp_list.pop_front();
    while cur.is_some()
        invariant
            n == orig.len(),
            list@.len() + (if cur.is_some() {
                1int
            } else {
                0int
            }) + tmp_list@.len() == n,
            forall|k: int| 0 <= k < list@.len() ==> list@[k] == orig[n - 1 - k],
            cur matches Some(x) ==> x == orig[n - 1 - list@.len()],
            forall|k: int| 0 <= k < tmp_list@.len() ==> tmp_list@[k] == orig[tmp_list@.len() - 1 - k],
            cur.is_none() ==> tmp_list@.len() == 0,
        decreases tmp_list@.len() + (if cur.is_some() {
            1int
        } else {
            0int
        }),
    {
        list.push_back(cur.unwrap());
        cur = tmp_list.pop_front();
    }
    assert(list@ =~= orig.reverse());
}

} // verus!
