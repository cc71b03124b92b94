use dsa_toolkit::avl::AvlTree;

fn filled(values: &[i32]) -> AvlTree<i32> {
    let mut tree = AvlTree::new();
    for v in values {
        tree.insert(*v);
    }
    tree
}

#[test]
fn new_tree_is_empty() {
    let tree: AvlTree<i32> = AvlTree::new();
    assert_eq!(tree.len(), 0);
    assert!(tree.is_empty());
    assert_eq!(tree.height(), 0);
    assert!(tree.is_balanced());
    assert!(!tree.contains(&1));
}

#[test]
fn insert_one_to_ten() {
    let mut tree = AvlTree::new();
    for i in 1..=10 {
        tree.insert(i);
        assert!(tree.is_balanced());
        assert_eq!(tree.len(), i as usize);
    }
    assert_eq!(tree.len(), 10);
    assert!(tree.height() <= 4);
    assert_eq!(tree.height(), 4);
    assert!(tree.is_balanced());
}

#[test]
fn insert_then_remove_first_three() {
    let mut tree = filled(&[1, 2, 3, 4, 5, 6, 7, 8, 9, 10]);
    for i in 1..=3 {
        assert!(tree.remove(&i));
        assert!(tree.is_balanced());
    }
    assert_eq!(tree.len(), 7);
    assert!(!tree.contains(&3));
    assert!(tree.contains(&4));
    assert!(tree.is_balanced());
}

#[test]
fn grows_after_removals() {
    let mut tree = filled(&[1, 2, 3, 4, 5, 6, 7, 8, 9, 10]);
    for i in 1..=3 {
        tree.remove(&i);
    }
    for i in 11..=25 {
        tree.insert(i);
        assert!(tree.is_balanced());
    }
    assert_eq!(tree.len(), 22);
    assert!(!tree.contains(&3));
    assert!(tree.contains(&20));
    assert_eq!(tree.height(), 5);
}

#[test]
fn duplicate_insert_keeps_len() {
    let mut tree = filled(&[5, 3, 8]);
    tree.insert(3);
    tree.insert(5);
    tree.insert(8);
    assert_eq!(tree.len(), 3);
    assert_eq!(tree.height(), 2);
}

#[test]
fn remove_missing_reports_false() {
    let mut tree = filled(&[5, 3, 8]);
    assert!(!tree.remove(&4));
    assert_eq!(tree.len(), 3);
    assert!(tree.remove(&3));
    assert!(!tree.remove(&3));
    assert_eq!(tree.len(), 2);
}

#[test]
fn remove_node_with_two_children() {
    let mut tree = filled(&[50, 30, 70, 20, 40, 60, 80, 35, 45, 65]);
    assert!(tree.remove(&50));
    assert!(!tree.contains(&50));
    for v in [30, 70, 20, 40, 60, 80, 35, 45, 65] {
        assert!(tree.contains(&v));
    }
    assert_eq!(tree.len(), 9);
    assert!(tree.is_balanced());
    assert!(tree.remove(&30));
    assert!(tree.remove(&70));
    assert_eq!(tree.len(), 7);
    assert!(tree.is_balanced());
}

#[test]
fn left_right_and_right_left_rotations() {
    let tree = filled(&[3, 1, 2]);
    assert_eq!(tree.height(), 2);
    assert!(tree.is_balanced());
    let tree = filled(&[1, 3, 2]);
    assert_eq!(tree.height(), 2);
    assert!(tree.is_balanced());
}

#[test]
fn descending_insertions_stay_shallow() {
    let mut tree = AvlTree::new();
    for i in (0..1000).rev() {
        tree.insert(i);
    }
    assert_eq!(tree.len(), 1000);
    assert!(tree.is_balanced());
    assert_eq!(tree.height(), 10);
}

#[test]
fn height_respects_logarithmic_bound() {
    let mut tree = AvlTree::new();
    let mut x: u64 = 12345;
    let mut n: usize = 0;
    for _ in 0..2000 {
        x = x.wrapping_mul(6364136223846793005).wrapping_add(1442695040888963407);
        let v = (x >> 33) as u32;
        if !tree.contains(&v) {
            n += 1;
        }
        tree.insert(v);
        let bound = (1.44 * ((n + 2) as f64).log2()).ceil() as u8;
        assert!(tree.height() <= bound);
        assert_eq!(tree.len(), n);
    }
}

#[test]
fn contains_tracks_inserts_and_removes() {
    let mut tree = AvlTree::new();
    let mut present = [false; 64];
    let mut successes: i64 = 0;
    let mut x: u64 = 99;
    for _ in 0..5000 {
        x = x.wrapping_mul(6364136223846793005).wrapping_add(1442695040888963407);
        let v = ((x >> 40) % 64) as usize;
        if (x >> 20) % 2 == 0 {
            if !present[v] {
                successes += 1;
            }
            tree.insert(v);
            present[v] = true;
        } else {
            let removed = tree.remove(&v);
            assert_eq!(removed, present[v]);
            if removed {
                successes -= 1;
            }
            present[v] = false;
        }
        assert!(tree.is_balanced());
        assert_eq!(tree.len() as i64, successes);
    }
    for v in 0..64 {
        assert_eq!(tree.contains(&v), present[v]);
    }
}

#[test]
fn permutations_give_the_same_set() {
    let a = filled(&[1, 2, 3, 4, 5, 6, 7]);
    let b = filled(&[4, 2, 6, 1, 3, 5, 7]);
    let c = filled(&[7, 6, 5, 4, 3, 2, 1]);
    for v in -2..12 {
        assert_eq!(a.contains(&v), b.contains(&v));
        assert_eq!(a.contains(&v), c.contains(&v));
    }
    assert!(a.is_balanced() && b.is_balanced() && c.is_balanced());
    assert_eq!(a.len(), b.len());
    assert_eq!(a.len(), c.len());
}

#[test]
fn clear_empties_the_tree() {
    let mut tree = filled(&[1, 2, 3]);
    tree.clear();
    assert_eq!(tree.len(), 0);
    assert!(tree.is_empty());
    assert_eq!(tree.height(), 0);
    assert!(!tree.contains(&2));
    tree.insert(9);
    assert!(tree.contains(&9));
    assert_eq!(tree.len(), 1);
}

#[test]
fn works_with_tuples_and_strings_of_integers() {
    let mut tree: AvlTree<(u8, i64)> = AvlTree::new();
    tree.insert((1, -5));
    tree.insert((0, 7));
    tree.insert((1, -6));
    assert!(tree.contains(&(0, 7)));
    assert!(!tree.contains(&(0, 8)));
    assert_eq!(tree.len(), 3);
}

#[test]
fn root_summary_shows_the_root() {
    let mut tree: AvlTree<i32> = AvlTree::new();
    assert!(tree.root_summary().is_none());
    tree.insert(1);
    {
        let root = tree.root_summary().unwrap();
        assert_eq!(*root.value, 1);
        assert_eq!(root.height, 1);
        assert_eq!(root.balance, 0);
        assert_eq!(root.left, None);
        assert_eq!(root.right, None);
    }
    tree.insert(2);
    {
        let root = tree.root_summary().unwrap();
        assert_eq!(*root.value, 1);
        assert_eq!(root.height, 2);
        assert_eq!(root.balance, -1);
        assert_eq!(root.left, None);
        assert_eq!(root.right, Some(&2));
    }
    tree.insert(3);
    {
        let root = tree.root_summary().unwrap();
        assert_eq!(*root.value, 2);
        assert_eq!(root.height, 2);
        assert_eq!(root.balance, 0);
        assert_eq!(root.left, Some(&1));
        assert_eq!(root.right, Some(&3));
    }
    for v in 4..=10 {
        tree.insert(v);
    }
    let root = tree.root_summary().unwrap();
    assert_eq!(*root.value, 4);
    assert_eq!(root.height, 4);
    assert_eq!(root.balance, -1);
    assert_eq!(root.left, Some(&2));
    assert_eq!(root.right, Some(&8));
}

#[test]
fn single_rotation_is_taken_on_a_tie() {
    let mut tree: AvlTree<i32> = AvlTree::new();
    for v in [4, 2, 6, 1, 3, 7] {
        tree.insert(v);
    }
    assert!(tree.remove(&7));
    assert!(tree.remove(&6));
    let root = tree.root_summary().unwrap();
    assert_eq!(*root.value, 2);
    assert_eq!(root.left, Some(&1));
    assert_eq!(root.right, Some(&4));
    assert_eq!(root.height, 3);
    assert_eq!(root.balance, -1);
    assert!(tree.is_balanced());
}
