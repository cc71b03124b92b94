use dsa_toolkit::linked_list::LinkedList;

fn drain(list: &mut LinkedList<i32>) -> Vec<i32> {
    let mut out = Vec::new();
    while let Some(v) = list.pop() {
        out.push(v);
    }
    out
}

#[test]
fn list_push_and_pop_at_the_front() {
    let mut list = LinkedList::new();
    assert!(list.is_empty());
    list.push(1);
    list.push(2);
    list.push(3);
    assert_eq!(list.len(), 3);
    assert!(list.contains(&2));
    assert!(!list.contains(&5));
    assert_eq!(list.pop(), Some(3));
    assert_eq!(list.len(), 2);
    assert_eq!(drain(&mut list), vec![2, 1]);
    assert_eq!(list.pop(), None);
    assert_eq!(list.len(), 0);
}

#[test]
fn list_remove_by_index() {
    let mut list = LinkedList::new();
    for v in [1, 2, 3, 4, 5] {
        list.push(v);
    }
    assert_eq!(list.remove(0), Some(5));
    assert_eq!(list.remove(1), Some(3));
    assert_eq!(list.remove(2), Some(1));
    assert_eq!(list.len(), 2);
    assert_eq!(list.remove(2), None);
    assert_eq!(list.remove(10), None);
    assert_eq!(list.len(), 2);
    assert_eq!(drain(&mut list), vec![4, 2]);
}

#[test]
fn list_remove_from_the_middle_of_a_long_list() {
    let mut list = LinkedList::new();
    for v in 0..10 {
        list.push(v);
    }
    assert_eq!(list.remove(7), Some(2));
    assert_eq!(list.remove(8), Some(0));
    assert_eq!(list.len(), 8);
    assert_eq!(drain(&mut list), vec![9, 8, 7, 6, 5, 4, 3, 1]);
}

#[test]
fn list_remove_on_empty() {
    let mut list: LinkedList<i32> = LinkedList::new();
    assert_eq!(list.remove(0), None);
    assert_eq!(list.len(), 0);
}

#[test]
fn list_reverse() {
    let mut list = LinkedList::new();
    for v in [1, 2, 3, 4] {
        list.push(v);
    }
    list.reverse();
    assert_eq!(list.len(), 4);
    assert_eq!(drain(&mut list), vec![1, 2, 3, 4]);
    list.reverse();
    assert!(list.is_empty());
    list.push(9);
    list.reverse();
    assert_eq!(drain(&mut list), vec![9]);
}

#[test]
fn list_clear() {
    let mut list = LinkedList::new();
    list.push(4);
    list.push(5);
    list.clear();
    assert!(list.is_empty());
    assert_eq!(list.len(), 0);
    assert!(!list.contains(&4));
    assert_eq!(list.pop(), None);
}
