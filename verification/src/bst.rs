use crate::order::{lemma_order_laws, lemma_transitive, lemma_trichotomy, precedes, total_order};
use core::cmp::Ordering;
use vstd::prelude::*;

verus! {

struct Node<T> {
    value: T,
    left: Option<Box<Node<T>>>,
    right: Option<Box<Node<T>>>,
}

/// A set of totally ordered values, kept as a plain binary search tree.
pub struct BinaryTree<T> {
    root: Option<Box<Node<T>>>,
    size: usize,
}

/// The values stored below a link.
spec fn elems<T>(link: Option<Box<Node<T>>>) -> Set<T>
    decreases link,
{
    match link {
        None => Set::empty(),
        Some(n) => elems(n.left).union(elems(n.right)).insert(n.value),
    }
}

/// The number of nodes below a link.
spec fn count<T>(link: Option<Box<Node<T>>>) -> nat
    decreases link,
{
    match link {
        None => 0,
        Some(n) => 1 + count(n.left) + count(n.right),
    }
}

/// Below every node, smaller values stand left and larger values right.
spec fn ordered<T: Ord>(link: Option<Box<Node<T>>>) -> bool
    decreases link,
{
    match link {
        None => true,
        Some(n) => {
            &&& ordered(n.left)
            &&& ordered(n.right)
            &&& forall|x: T| #[trigger] elems(n.left).contains(x) ==> precedes(x, n.value)
            &&& forall|x: T| #[trigger] elems(n.right).contains(x) ==> precedes(n.value, x)
        },
    }
}

/// In an ordered subtree the value of a node occurs in neither of its subtrees.
proof fn lemma_value_apart<T: Ord>(n: Box<Node<T>>)
    requires
        total_order::<T>(),
        ordered(Some(n)),
    ensures
        !elems(n.left).contains(n.value),
        !elems(n.right).contains(n.value),
{
    lemma_trichotomy(n.value, n.value);
}

impl<T> View for BinaryTree<T> {
    type V = Set<T>;

    open spec fn view(&self) -> Set<T> {
        self.contents()
    }
}

impl<T> BinaryTree<T> {
    /// The set of values that the tree holds.
    pub closed spec fn contents(&self) -> Set<T> {
        elems(self.root)
    }
}

impl<T: Ord> BinaryTree<T> {
    /// The invariant of the tree: search-tree order without duplicates, and a
    /// size counter equal to the number of values.
    pub closed spec fn wf(&self) -> bool {
        &&& ordered(self.root)
        &&& self.size == count(self.root)
        &&& elems(self.root).finite()
        &&& elems(self.root).len() == self.size
    }

    /// A well-formed tree holds finitely many values, no more than fit in `usize`.
    pub proof fn lemma_wf_finite(&self)
        requires
            self.wf(),
        ensures
            self@.finite(),
            self@.len() <= usize::MAX,
    {
    }

    /// An empty tree.
    pub fn new() -> (tree: Self)
        ensures
            tree.wf(),
            tree@ == Set::<T>::empty(),
    {
        BinaryTree { root: None, size: 0 }
    }

    /// Puts a value into the set; a value that is there already changes
    /// nothing.
    pub fn insert(&mut self, value: T)
        requires
            total_order::<T>(),
            old(self).wf(),
            old(self)@.contains(value) || old(self)@.len() < usize::MAX,
        ensures
            final(self).wf(),
            final(self)@ == old(self)@.insert(value),
            final(self)@.len() == old(self)@.len() + if old(self)@.contains(value) {
                0nat
            } else {
                1nat
            },
    {
        match self.root.take() {
            None => {
                let node = Box::new(Node { value, left: None, right: None });
                proof {
                    assert(elems(Some(node)) =~= old(self)@.insert(value));
                    assert(count(node.left) == 0 && count(node.right) == 0);
                }
                self.root = Some(node);
                self.size += 1;
            },
            Some(node) => {
                self.root = Some(Self::insert_node(node, value, &mut self.size));
            },
        }
    }

    fn insert_node(mut node: Box<Node<T>>, value: T, size: &mut usize) -> (grown: Box<Node<T>>)
        requires
            total_order::<T>(),
            ordered(Some(node)),
            elems(Some(node)).contains(value) || *old(size) < usize::MAX,
        ensures
            ordered(Some(grown)),
            grown.value == node.value,
            elems(Some(grown)) == elems(Some(node)).insert(value),
            elems(Some(node)).contains(value) ==> *final(size) == *old(size) && count(Some(grown))
                == count(Some(node)),
            !elems(Some(node)).contains(value) ==> *final(size) == *old(size) + 1 && count(
                Some(grown),
            ) == count(Some(node)) + 1,
        decreases node,
    {
        let ghost before = node;
        proof {
            lemma_order_laws::<T>();
            lemma_value_apart(node);
            assert(count(Some(node)) == 1 + count(node.left) + count(node.right));
        }
        match value.cmp(&node.value) {
            Ordering::Less => {
                proof {
                    lemma_trichotomy(value, node.value);
                    if elems(node.right).contains(value) {
                        lemma_trichotomy(node.value, value);
                    }
                }
                match node.left.take() {
                    None => {
                        let leaf = Box::new(Node { value, left: None, right: None });
                        proof {
                            assert(elems(leaf.left) =~= Set::<T>::empty());
                            assert(elems(leaf.right) =~= Set::<T>::empty());
                            assert(elems(Some(leaf)) =~= set![value]);
                            assert(ordered(Some(leaf)));
                            assert(count(leaf.left) == 0 && count(leaf.right) == 0);
                        }
                        node.left = Some(leaf);
                        *size += 1;
                    },
                    Some(left_node) => {
                        node.left = Some(Self::insert_node(left_node, value, size));
                    },
                }
            },
            Ordering::Greater => {
                proof {
                    lemma_trichotomy(value, node.value);
                    if elems(node.left).contains(value) {
                        lemma_trichotomy(node.value, value);
                    }
                }
                match node.right.take() {
                    None => {
                        let leaf = Box::new(Node { value, left: None, right: None });
                        proof {
                            assert(elems(leaf.left) =~= Set::<T>::empty());
                            assert(elems(leaf.right) =~= Set::<T>::empty());
                            assert(elems(Some(leaf)) =~= set![value]);
                            assert(ordered(Some(leaf)));
                            assert(count(leaf.left) == 0 && count(leaf.right) == 0);
                        }
                        node.right = Some(leaf);
                        *size += 1;
                    },
                    Some(right_node) => {
                        node.right = Some(Self::insert_node(right_node, value, size));
                    },
                }
            },
            Ordering::Equal => {},
        }
        proof {
            assert(ordered(node.left) && ordered(node.right));
            assert(elems(Some(node)) =~= elems(Some(before)).insert(value));
            assert(count(Some(node)) == 1 + count(node.left) + count(node.right));
        }
        node
    }

    /// Whether the value is in the set.
    pub fn contains(&self, value: &T) -> (found: bool)
        requires
            total_order::<T>(),
            self.wf(),
        ensures
            found == self@.contains(*value),
    {
        Self::contains_node(&self.root, value)
    }

    fn contains_node(node: &Option<Box<Node<T>>>, value: &T) -> (found: bool)
        requires
            total_order::<T>(),
            ordered(*node),
        ensures
            found == elems(*node).contains(*value),
        decreases node,
    {
        proof {
            lemma_order_laws::<T>();
        }
        match node {
            None => false,
            Some(n) => {
                proof {
                    lemma_trichotomy(*value, n.value);
                    if elems(n.right).contains(*value) {
                        lemma_trichotomy(n.value, *value);
                    }
                    if elems(n.left).contains(*value) {
                        lemma_trichotomy(n.value, *value);
                    }
                }
                match value.cmp(&n.value) {
                    Ordering::Equal => true,
                    Ordering::Less => Self::contains_node(&n.left, value),
                    Ordering::Greater => Self::contains_node(&n.right, value),
                }
            },
        }
    }

    /// Takes a value out of the set and says whether it was there.
    pub fn remove(&mut self, value: &T) -> (removed: bool)
        requires
            total_order::<T>(),
            old(self).wf(),
        ensures
            final(self).wf(),
            final(self)@ == old(self)@.remove(*value),
            removed == old(self)@.contains(*value),
            final(self)@.len() + if removed { 1nat } else { 0nat } == old(self)@.len(),
    {
        let (new_root, removed) = Self::remove_node(self.root.take(), value);
        self.root = new_root;
        if removed {
            self.size -= 1;
        }
        removed
    }

    fn remove_node(node: Option<Box<Node<T>>>, value: &T) -> (res: (Option<Box<Node<T>>>, bool))
        requires
            total_order::<T>(),
            ordered(node),
        ensures
            ordered(res.0),
            elems(res.0) == elems(node).remove(*value),
            res.1 == elems(node).contains(*value),
            count(res.0) + if res.1 { 1nat } else { 0nat } == count(node),
        decreases node,
    {
        proof {
            lemma_order_laws::<T>();
        }
        match node {
            None => {
                proof {
                    assert(elems(node) =~= elems(node).remove(*value));
                }
                (None, false)
            },
            Some(mut n) => {
                let ghost before = n;
                proof {
                    lemma_value_apart(n);
                    lemma_trichotomy(*value, n.value);
                    if elems(n.right).contains(*value) {
                        lemma_trichotomy(n.value, *value);
                    }
                    if elems(n.left).contains(*value) {
                        lemma_trichotomy(n.value, *value);
                    }
                    assert(count(node) == 1 + count(n.left) + count(n.right));
                }
                match value.cmp(&n.value) {
                    Ordering::Less => {
                        let (new_left, removed) = Self::remove_node(n.left.take(), value);
                        n.left = new_left;
                        proof {
                            assert(elems(Some(n)) =~= elems(node).remove(*value));
                            assert(count(Some(n)) == 1 + count(n.left) + count(n.right));
                        }
                        (Some(n), removed)
                    },
                    Ordering::Greater => {
                        let (new_right, removed) = Self::remove_node(n.right.take(), value);
                        n.right = new_right;
                        proof {
                            assert(elems(Some(n)) =~= elems(node).remove(*value));
                            assert(count(Some(n)) == 1 + count(n.left) + count(n.right));
                        }
                        (Some(n), removed)
                    },
                    Ordering::Equal => {
                        match (n.left.take(), n.right.take()) {
                            (None, None) => {
                                proof {
                                    assert(elems(None::<Box<Node<T>>>) =~= elems(node).remove(
                                        *value,
                                    ));
                                }
                                (None, true)
                            },
                            (Some(left), None) => {
                                proof {
                                    assert(elems(Some(left)) =~= elems(node).remove(*value));
                                }
                                (Some(left), true)
                            },
                            (None, Some(right)) => {
                                proof {
                                    assert(elems(Some(right)) =~= elems(node).remove(*value));
                                }
                                (Some(right), true)
                            },
                            (Some(left), Some(right)) => {
                                let (min_value, new_right) = Self::extract_min(right);
                                let new_node = Box::new(
                                    Node { value: min_value, left: Some(left), right: new_right },
                                );
                                proof {
                                    assert forall|x: T| #[trigger]
                                        elems(new_node.left).contains(x) implies precedes(
                                        x,
                                        min_value,
                                    ) by {
                                        lemma_transitive(x, before.value, min_value);
                                    }
                                    assert(elems(Some(new_node)) =~= elems(node).remove(*value));
                                    assert(count(Some(new_node)) == 1 + count(new_node.left)
                                        + count(new_node.right));
                                }
                                (Some(new_node), true)
                            },
                        }
                    },
                }
            },
        }
    }

    fn extract_min(mut node: Box<Node<T>>) -> (res: (T, Option<Box<Node<T>>>))
        requires
            total_order::<T>(),
            ordered(Some(node)),
        ensures
            ordered(res.1),
            elems(Some(node)).contains(res.0),
            elems(res.1) == elems(Some(node)).remove(res.0),
            forall|x: T| #[trigger] elems(res.1).contains(x) ==> precedes(res.0, x),
            count(res.1) + 1 == count(Some(node)),
        decreases node,
    {
        let ghost before = node;
        proof {
            lemma_order_laws::<T>();
            lemma_value_apart(node);
            assert(count(Some(node)) == 1 + count(node.left) + count(node.right));
        }
        match node.left.take() {
            None => {
                proof {
                    assert(elems(before.right) =~= elems(Some(before)).remove(before.value));
                }
                (node.value, node.right)
            },
            Some(left) => {
                let (min_value, new_left) = Self::extract_min(left);
                node.left = new_left;
                proof {
                    assert(precedes(min_value, before.value));
                    assert forall|x: T| #[trigger] elems(before.right).contains(x) implies precedes(
                        min_value,
                        x,
                    ) && x != min_value by {
                        lemma_transitive(min_value, before.value, x);
                        lemma_trichotomy(min_value, x);
                    }
                    lemma_trichotomy(min_value, before.value);
                    assert(elems(Some(node)) =~= elems(Some(before)).remove(min_value));
                    assert(count(Some(node)) == 1 + count(node.left) + count(node.right));
                }
                (min_value, Some(node))
            },
        }
    }

    /// The number of values.
    pub fn len(&self) -> (n: usize)
        requires
            self.wf(),
        ensures
            n == self@.len(),
    {
        self.size
    }

    /// Empties the tree.
    pub fn clear(&mut self)
        ensures
            final(self).wf(),
            final(self)@ == Set::<T>::empty(),
    {
        self.root = None;
        self.size = 0;
    }

    /// Whether the set holds no value.
    pub fn is_empty(&self) -> (empty: bool)
        requires
            self.wf(),
        ensures
            empty == (self@.len() == 0),
            empty == (self@ == Set::<T>::empty()),
    {
        proof {
            if self.size == 0 {
                assert(self@ =~= Set::<T>::empty());
            }
        }
        self.size == 0
    }
}

} // verus!
