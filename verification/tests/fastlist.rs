use lru_collections::linkedlist::fastlist::FastLinkedList;

fn collected(list: &FastLinkedList<&'static str>) -> Vec<&'static str> {
    list.items().into_iter().copied().collect()
}

#[test]
fn push_head_puts_the_newest_first() {
    let mut list = FastLinkedList::<&'static str>::with_capacity(2);
    assert!(list.is_empty());
    assert_eq!(list.len(), 0);
    list.push_head("a");
    list.push_head("b");
    list.push_front("c");
    assert_eq!(list.len(), 3);
    assert!(!list.is_empty());
    assert_eq!(collected(&list), vec!["c", "b", "a"]);
}

#[test]
fn pop_tail_gives_the_oldest() {
    let mut list = FastLinkedList::<&'static str>::with_capacity(2);
    assert_eq!(list.pop_tail(), None);
    list.push_head("a");
    list.push_head("b");
    list.push_head("c");
    assert_eq!(list.pop_tail(), Some("a"));
    assert_eq!(collected(&list), vec!["c", "b"]);
    assert_eq!(list.pop_tail(), Some("b"));
    assert_eq!(list.pop_tail(), Some("c"));
    assert_eq!(list.pop_tail(), None);
    assert_eq!(list.len(), 0);
}

#[test]
fn make_head_moves_one_node_only() {
    let mut list = FastLinkedList::<&'static str>::with_capacity(4);
    let a = list.push_head("a");
    let b = list.push_head("b");
    let c = list.push_head("c");
    let d = list.push_head("d");
    assert_eq!(b.make_head(&mut list), true);
    assert_eq!(collected(&list), vec!["b", "d", "c", "a"]);
    assert_eq!(b.make_head(&mut list), true);
    assert_eq!(collected(&list), vec!["b", "d", "c", "a"]);
    assert_eq!(a.make_head(&mut list), true);
    assert_eq!(collected(&list), vec!["a", "b", "d", "c"]);
    assert_eq!(c.val(&list), Some(&"c"));
    assert_eq!(d.val(&list), Some(&"d"));
}

#[test]
fn a_handle_dies_with_its_node() {
    let mut list = FastLinkedList::<&'static str>::with_capacity(4);
    let a = list.push_head("a");
    let b = list.push_head("b");
    let c = list.push_head("c");
    assert_eq!(b.pop(&mut list), Some("b"));
    assert_eq!(collected(&list), vec!["c", "a"]);
    assert_eq!(b.pop(&mut list), None);
    assert_eq!(b.val(&list), None);
    assert_eq!(b.make_head(&mut list), false);
    assert_eq!(b.replace(&mut list, "x"), None);
    assert_eq!(b.next_node(&list).is_none(), true);
    assert_eq!(b.prev_node(&list).is_none(), true);
    assert_eq!(b.swap_node(&a, &mut list), false);
    assert_eq!(collected(&list), vec!["c", "a"]);
    let d = list.push_head("d");
    assert_eq!(b.val(&list), None);
    assert_eq!(d.val(&list), Some(&"d"));
    assert_eq!(list.pop_tail(), Some("a"));
    assert_eq!(a.val(&list), None);
    assert_eq!(c.val(&list), Some(&"c"));
}

#[test]
fn a_handle_is_good_in_its_own_list_only() {
    let mut first = FastLinkedList::<&'static str>::with_capacity(2);
    let mut second = FastLinkedList::<&'static str>::with_capacity(2);
    let a = first.push_head("a");
    let b = second.push_head("b");
    assert_eq!(a.val(&second), None);
    assert_eq!(b.val(&first), None);
    assert_eq!(a.make_head(&mut second), false);
    assert_eq!(a.pop(&mut second), None);
    assert_eq!(second.len(), 1);
    assert_eq!(a.val(&first), Some(&"a"));
}

#[test]
fn replace_keeps_the_place() {
    let mut list = FastLinkedList::<&'static str>::with_capacity(3);
    let a = list.push_head("a");
    let b = list.push_head("b");
    list.push_head("c");
    assert_eq!(b.replace(&mut list, "B"), Some("b"));
    assert_eq!(collected(&list), vec!["c", "B", "a"]);
    assert_eq!(b.val(&list), Some(&"B"));
    assert_eq!(a.val(&list), Some(&"a"));
}

#[test]
fn neighbours_and_ends() {
    let mut list = FastLinkedList::<&'static str>::with_capacity(3);
    assert!(list.head_node().is_none());
    assert!(list.tail_node().is_none());
    let a = list.push_head("a");
    let b = list.push_head("b");
    let c = list.push_head("c");
    assert_eq!(list.head_node().unwrap().val(&list), Some(&"c"));
    assert_eq!(list.tail_node().unwrap().val(&list), Some(&"a"));
    assert_eq!(c.next_node(&list).unwrap().val(&list), Some(&"b"));
    assert_eq!(b.next_node(&list).unwrap().val(&list), Some(&"a"));
    assert!(a.next_node(&list).is_none());
    assert_eq!(a.prev_node(&list).unwrap().val(&list), Some(&"b"));
    assert_eq!(b.prev_node(&list).unwrap().val(&list), Some(&"c"));
    assert!(c.prev_node(&list).is_none());
}

#[test]
fn swap_node_exchanges_two_places() {
    let mut list = FastLinkedList::<&'static str>::with_capacity(4);
    let a = list.push_head("a");
    let b = list.push_head("b");
    let c = list.push_head("c");
    let d = list.push_head("d");
    assert_eq!(collected(&list), vec!["d", "c", "b", "a"]);
    assert_eq!(d.swap_node(&a, &mut list), true);
    assert_eq!(collected(&list), vec!["a", "c", "b", "d"]);
    assert_eq!(c.swap_node(&b, &mut list), true);
    assert_eq!(collected(&list), vec!["a", "b", "c", "d"]);
    assert_eq!(b.swap_node(&b, &mut list), true);
    assert_eq!(collected(&list), vec!["a", "b", "c", "d"]);
    assert_eq!(a.val(&list), Some(&"a"));
    assert_eq!(list.head_node().unwrap().val(&list), Some(&"a"));
    assert_eq!(list.tail_node().unwrap().val(&list), Some(&"d"));
}

#[test]
fn a_new_list_can_be_pushed_to() {
    let mut list = FastLinkedList::<&'static str>::with_capacity(0);
    assert!(list.can_push());
    list.push_head("a");
    assert!(list.can_push());
    assert_eq!(collected(&list), vec!["a"]);
}
