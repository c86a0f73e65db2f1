use lru_collections::linkedlist::fastlist::FastLinkedList;
use lru_collections::linkedlist::reverse::{reverse_fll, reverse_std};
use std::collections::VecDeque;

#[test]
fn test_reverse_fll() {
    let mut list = FastLinkedList::<u8>::with_capacity(5);
    for i in 0..6 {
        list.push_front(i);
    }

    reverse_fll(&mut list);

    let mut val = 0;
    for v in list.items() {
        assert_eq!(v, &val);
        val += 1;
    }
}

#[test]
fn test_reverse_std() {
    let mut list = VecDeque::<u8>::new();
    for i in 0..5 {
        list.push_front(i);
    }

    reverse_std(&mut list);
    let mut val = 0;
    for v in list.iter() {
        assert_eq!(v, &val);
        val += 1;
    }
}

fn collected(list: &FastLinkedList<u32>) -> Vec<u32> {
    list.items().into_iter().copied().collect()
}

#[test]
fn reverse_fll_on_short_lists() {
    let mut empty = FastLinkedList::<u32>::with_capacity(0);
    reverse_fll(&mut empty);
    assert_eq!(empty.len(), 0);
    assert!(empty.is_empty());

    let mut one = FastLinkedList::<u32>::with_capacity(1);
    one.push_front(9);
    reverse_fll(&mut one);
    assert_eq!(collected(&one), vec![9]);

    let mut two = FastLinkedList::<u32>::with_capacity(2);
    two.push_front(1);
    two.push_front(2);
    reverse_fll(&mut two);
    assert_eq!(collected(&two), vec![1, 2]);
}

#[test]
fn reverse_fll_even_and_odd() {
    let mut even = FastLinkedList::<u32>::with_capacity(4);
    for i in [4, 3, 2, 1] {
        even.push_front(i);
    }
    assert_eq!(collected(&even), vec![1, 2, 3, 4]);
    reverse_fll(&mut even);
    assert_eq!(collected(&even), vec![4, 3, 2, 1]);

    let mut odd = FastLinkedList::<u32>::with_capacity(2);
    for i in [5, 4, 3, 2, 1] {
        odd.push_front(i);
    }
    reverse_fll(&mut odd);
    assert_eq!(collected(&odd), vec![5, 4, 3, 2, 1]);
    reverse_fll(&mut odd);
    assert_eq!(collected(&odd), vec![1, 2, 3, 4, 5]);
}

#[test]
fn reverse_fll_keeps_handles() {
    let mut list = FastLinkedList::<u32>::with_capacity(3);
    let a = list.push_head(1);
    let b = list.push_head(2);
    let c = list.push_head(3);
    reverse_fll(&mut list);
    assert_eq!(collected(&list), vec![1, 2, 3]);
    assert_eq!(a.val(&list), Some(&1));
    assert_eq!(b.val(&list), Some(&2));
    assert_eq!(c.val(&list), Some(&3));
    assert_eq!(list.head_node().unwrap().val(&list), Some(&1));
    assert_eq!(list.tail_node().unwrap().val(&list), Some(&3));
}

#[test]
fn reverse_std_on_short_and_longer_queues() {
    let mut empty = VecDeque::<u32>::new();
    reverse_std(&mut empty);
    assert!(empty.is_empty());

    let mut one: VecDeque<u32> = VecDeque::from(vec![7]);
    reverse_std(&mut one);
    assert_eq!(one, VecDeque::from(vec![7]));

    let mut two: VecDeque<u32> = VecDeque::from(vec![1, 2]);
    reverse_std(&mut two);
    assert_eq!(two, VecDeque::from(vec![2, 1]));

    let mut six: VecDeque<u32> = VecDeque::from(vec![1, 2, 3, 4, 5, 6]);
    reverse_std(&mut six);
    assert_eq!(six, VecDeque::from(vec![6, 5, 4, 3, 2, 1]));
}
