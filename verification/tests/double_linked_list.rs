use dsa_toolkit::double_linked_list::DoubleLinkedList;

fn drain(list: &mut DoubleLinkedList<i32>) -> Vec<i32> {
    let mut out = Vec::new();
    while let Some(v) = list.pop() {
        out.push(v);
    }
    out
}

#[test]
fn deque_push_and_pop_at_both_ends() {
    let mut list = DoubleLinkedList::new();
    list.push(1);
    list.push(2);
    list.push(3);
    assert_eq!(list.len(), 3);
    list.push_end(4);
    list.push_end(5);
    assert_eq!(list.len(), 5);
    assert_eq!(list.pop(), Some(3));
    assert_eq!(list.pop(), Some(2));
    assert_eq!(list.pop_end(), Some(5));
    assert_eq!(list.len(), 2);
    assert_eq!(drain(&mut list), vec![1, 4]);
}

#[test]
fn deque_empty_list_gives_nothing() {
    let mut list: DoubleLinkedList<i32> = DoubleLinkedList::new();
    assert_eq!(list.len(), 0);
    assert_eq!(list.pop(), None);
    assert_eq!(list.pop_end(), None);
    list.push_end(10);
    list.push_end(20);
    list.push_end(30);
    assert_eq!(list.len(), 3);
    list.clear();
    assert_eq!(list.len(), 0);
    assert_eq!(list.pop(), None);
    assert_eq!(list.pop_end(), None);
}

#[test]
fn deque_has_and_remove_val() {
    let mut list = DoubleLinkedList::new();
    for v in [100, 200, 300, 400] {
        list.push_end(v);
    }
    assert!(list.has(&200));
    assert!(!list.has(&999));
    assert!(list.remove_val(&200));
    assert!(!list.has(&200));
    assert!(!list.remove_val(&999));
    assert!(list.remove_val(&100));
    assert!(list.remove_val(&400));
    assert_eq!(list.len(), 1);
    assert_eq!(drain(&mut list), vec![300]);
}

#[test]
fn deque_remove_val_takes_the_first_match() {
    let mut list = DoubleLinkedList::new();
    for v in [1, 2, 1, 3, 1] {
        list.push_end(v);
    }
    assert!(list.remove_val(&1));
    assert_eq!(list.len(), 4);
    assert!(list.has(&1));
    assert_eq!(drain(&mut list), vec![2, 1, 3, 1]);
}

#[test]
fn deque_single_element() {
    let mut list = DoubleLinkedList::new();
    list.push(42);
    assert!(list.has(&42));
    assert_eq!(list.pop(), Some(42));
    assert_eq!(list.len(), 0);
    list.push(7);
    assert!(list.remove_val(&7));
    assert_eq!(list.len(), 0);
    assert_eq!(list.pop_end(), None);
}

#[test]
fn deque_mixed_pushes_keep_order() {
    let mut list = DoubleLinkedList::new();
    list.push(1);
    list.push_end(2);
    list.push(3);
    list.push_end(4);
    assert_eq!(drain(&mut list), vec![3, 1, 2, 4]);
}

#[test]
fn deque_reverse() {
    let mut list = DoubleLinkedList::new();
    for v in [1, 2, 3, 4] {
        list.push_end(v);
    }
    list.reverse();
    assert_eq!(list.len(), 4);
    assert_eq!(list.pop_end(), Some(1));
    assert_eq!(drain(&mut list), vec![4, 3, 2]);
    list.reverse();
    assert_eq!(list.len(), 0);
}
