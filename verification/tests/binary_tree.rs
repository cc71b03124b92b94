use dsa_toolkit::bst::BinaryTree;

fn sample() -> BinaryTree<i32> {
    let mut tree = BinaryTree::new();
    for v in [5, 3, 7, 1, 4, 6, 9] {
        tree.insert(v);
    }
    tree
}

#[test]
fn bst_starts_empty() {
    let tree: BinaryTree<u8> = BinaryTree::new();
    assert_eq!(tree.len(), 0);
    assert!(tree.is_empty());
    assert!(!tree.contains(&0));
}

#[test]
fn bst_insert_and_contains() {
    let tree = sample();
    assert_eq!(tree.len(), 7);
    assert!(tree.contains(&5));
    assert!(!tree.contains(&8));
    for v in [5, 3, 7, 1, 4, 6, 9] {
        assert!(tree.contains(&v));
    }
    for v in [0, 2, 8, 10] {
        assert!(!tree.contains(&v));
    }
}

#[test]
fn bst_duplicate_insert_is_ignored() {
    let mut tree = sample();
    tree.insert(4);
    tree.insert(5);
    assert_eq!(tree.len(), 7);
}

#[test]
fn bst_remove_leaf_inner_and_root() {
    let mut tree = sample();
    assert!(tree.remove(&3));
    assert_eq!(tree.len(), 6);
    assert!(!tree.contains(&3));
    assert!(tree.contains(&1));
    assert!(tree.contains(&4));
    assert!(tree.remove(&1));
    assert!(tree.remove(&5));
    assert!(!tree.contains(&5));
    for v in [7, 4, 6, 9] {
        assert!(tree.contains(&v));
    }
    assert_eq!(tree.len(), 4);
    assert!(!tree.remove(&5));
    assert!(!tree.remove(&100));
    assert_eq!(tree.len(), 4);
}

#[test]
fn bst_remove_with_one_child() {
    let mut tree = BinaryTree::new();
    for v in [10, 5, 3, 20, 30] {
        tree.insert(v);
    }
    assert!(tree.remove(&5));
    assert!(tree.remove(&20));
    assert!(tree.contains(&3));
    assert!(tree.contains(&30));
    assert!(tree.contains(&10));
    assert_eq!(tree.len(), 3);
}

#[test]
fn bst_clear() {
    let mut tree = sample();
    tree.clear();
    assert_eq!(tree.len(), 0);
    assert!(tree.is_empty());
    assert!(!tree.contains(&5));
}

#[test]
fn bst_agrees_with_a_table() {
    let mut tree = BinaryTree::new();
    let mut present = [false; 32];
    let mut x: u64 = 7;
    for _ in 0..3000 {
        x = x.wrapping_mul(6364136223846793005).wrapping_add(1442695040888963407);
        let v = ((x >> 40) % 32) as usize;
        if (x >> 20) % 3 != 0 {
            tree.insert(v);
            present[v] = true;
        } else {
            assert_eq!(tree.remove(&v), present[v]);
            present[v] = false;
        }
        assert_eq!(tree.len(), present.iter().filter(|p| **p).count());
    }
    for v in 0..32 {
        assert_eq!(tree.contains(&v), present[v]);
    }
}
