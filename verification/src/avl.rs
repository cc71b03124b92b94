use crate::order::{lemma_order_laws, lemma_transitive, lemma_trichotomy, precedes, total_order};
use core::cmp::Ordering;
use vstd::prelude::*;

verus! {

struct Node<T> {
    value: T,
    left: Option<Box<Node<T>>>,
    right: Option<Box<Node<T>>>,
    height: u8,
}

/// A set of totally ordered values, kept as a height-balanced search tree.
pub struct AvlTree<T> {
    root: Option<Box<Node<T>>>,
    size: usize,
}

/// What stands at the root of a tree: its value, its height, its balance
/// factor, and the values of its two children.
pub struct RootSummary<'a, T> {
    pub value: &'a T,
    pub height: u8,
    pub balance: i8,
    pub left: Option<&'a T>,
    pub right: Option<&'a T>,
}

/// The larger of two integers.
pub open spec fn larger(a: int, b: int) -> int {
    if a >= b {
        a
    } else {
        b
    }
}

/// The values stored below a link.
spec fn elems<T>(link: Option<Box<Node<T>>>) -> Set<T>
    decreases link,
{
    match link {
        None => Set::empty(),
        Some(n) => elems(n.left).union(elems(n.right)).insert(n.value),
    }
}

/// The number of nodes below a link.
spec fn count<T>(link: Option<Box<Node<T>>>) -> nat
    decreases link,
{
    match link {
        None => 0,
        Some(n) => 1 + count(n.left) + count(n.right),
    }
}

/// The true height of the subtree below a link, recomputed from its shape.
spec fn depth<T>(link: Option<Box<Node<T>>>) -> int
    decreases link,
{
    match link {
        None => 0,
        Some(n) => 1 + larger(depth(n.left), depth(n.right)),
    }
}

/// The height that the node at a link has cached.
spec fn cached<T>(link: Option<Box<Node<T>>>) -> int {
    match link {
        None => 0,
        Some(n) => n.height as int,
    }
}

/// Every value of `s` precedes `v`.
spec fn all_before<T: Ord>(s: Set<T>, v: T) -> bool {
    forall|x: T| #[trigger] s.contains(x) ==> precedes(x, v)
}

/// `v` precedes every value of `s`.
spec fn all_after<T: Ord>(s: Set<T>, v: T) -> bool {
    forall|x: T| #[trigger] s.contains(x) ==> precedes(v, x)
}

/// Search-tree order: below every node, smaller values left, larger values right.
spec fn ordered<T: Ord>(link: Option<Box<Node<T>>>) -> bool
    decreases link,
{
    match link {
        None => true,
        Some(n) => {
            &&& ordered(n.left)
            &&& ordered(n.right)
            &&& all_before(elems(n.left), n.value)
            &&& all_after(elems(n.right), n.value)
        },
    }
}

/// At every node the true heights of the two subtrees differ by at most one.
spec fn balanced<T>(link: Option<Box<Node<T>>>) -> bool
    decreases link,
{
    match link {
        None => true,
        Some(n) => {
            &&& balanced(n.left)
            &&& balanced(n.right)
            &&& -1 <= depth(n.left) - depth(n.right) <= 1
        },
    }
}

/// Every node caches its true height.
spec fn heights_cached<T>(link: Option<Box<Node<T>>>) -> bool
    decreases link,
{
    match link {
        None => true,
        Some(n) => {
            &&& heights_cached(n.left)
            &&& heights_cached(n.right)
            &&& n.height == depth(link)
        },
    }
}

/// All three invariants of a subtree.
spec fn valid<T: Ord>(link: Option<Box<Node<T>>>) -> bool {
    ordered(link) && balanced(link) && heights_cached(link)
}

/// The fewest nodes that a balanced tree of height `h` can have.
pub open spec fn min_nodes(h: nat) -> nat
    decreases h,
{
    if h == 0 {
        0
    } else if h == 1 {
        1
    } else {
        1 + min_nodes((h - 1) as nat) + min_nodes((h - 2) as nat)
    }
}

/// The Fibonacci numbers: 0, 1, 1, 2, 3, 5, ...
pub open spec fn fib(n: nat) -> nat
    decreases n,
{
    if n <= 1 {
        n
    } else {
        fib((n - 1) as nat) + fib((n - 2) as nat)
    }
}

/// The fewest nodes of a balanced tree of height `h` are one less than a
/// Fibonacci number.
pub proof fn lemma_min_nodes_fib(h: nat)
    ensures
        min_nodes(h) + 1 == fib(h + 2),
    decreases h,
{
    if h == 0 {
        assert(fib(2) == fib(1) + fib(0));
    } else if h == 1 {
        assert(fib(2) == fib(1) + fib(0));
        assert(fib(3) == fib(2) + fib(1));
    } else {
        lemma_min_nodes_fib((h - 1) as nat);
        lemma_min_nodes_fib((h - 2) as nat);
        assert(fib(h + 2) == fib((h + 1) as nat) + fib(h));
    }
}

/// A subtree of height `h` holds fewer than `2^h` nodes.
proof fn lemma_count_below_power<T>(link: Option<Box<Node<T>>>)
    ensures
        depth(link) >= 0,
        count(link) < vstd::arithmetic::power2::pow2(depth(link) as nat),
    decreases link,
{
    lemma_depth_nonneg(link);
    vstd::arithmetic::power2::lemma2_to64();
    if let Some(n) = link {
        lemma_count_below_power(n.left);
        lemma_count_below_power(n.right);
        lemma_depth_nonneg(n.left);
        lemma_depth_nonneg(n.right);
        let h = depth(link) as nat;
        vstd::arithmetic::power2::lemma_pow2_unfold(h);
        if depth(n.left) < h - 1 {
            vstd::arithmetic::power2::lemma_pow2_strictly_increases(
                depth(n.left) as nat,
                (h - 1) as nat,
            );
        }
        if depth(n.right) < h - 1 {
            vstd::arithmetic::power2::lemma_pow2_strictly_increases(
                depth(n.right) as nat,
                (h - 1) as nat,
            );
        }
    }
}

/// Heights are not negative, and only the empty subtree has height 0.
proof fn lemma_depth_nonneg<T>(link: Option<Box<Node<T>>>)
    ensures
        depth(link) >= 0,
        link is Some ==> depth(link) >= 1,
    decreases link,
{
    if let Some(n) = link {
        lemma_depth_nonneg(n.left);
        lemma_depth_nonneg(n.right);
    }
}

/// A taller balanced tree needs no fewer nodes.
pub proof fn lemma_min_nodes_monotonic(a: nat, b: nat)
    requires
        a <= b,
    ensures
        min_nodes(a) <= min_nodes(b),
    decreases b,
{
    if a < b {
        if b >= 2 {
            lemma_min_nodes_monotonic(a, (b - 1) as nat);
        }
    }
}

/// A balanced subtree of height `h` holds at least `min_nodes(h)` nodes.
proof fn lemma_count_at_least<T>(link: Option<Box<Node<T>>>)
    requires
        balanced(link),
    ensures
        depth(link) >= 0,
        count(link) >= min_nodes(depth(link) as nat),
    decreases link,
{
    lemma_depth_nonneg(link);
    if let Some(n) = link {
        lemma_count_at_least(n.left);
        lemma_count_at_least(n.right);
        lemma_depth_nonneg(n.left);
        lemma_depth_nonneg(n.right);
        let h = depth(link);
        let hl = depth(n.left);
        let hr = depth(n.right);
        if h >= 2 {
            if hl >= hr {
                assert(hl == h - 1);
                lemma_min_nodes_monotonic((h - 2) as nat, hr as nat);
            } else {
                assert(hr == h - 1);
                lemma_min_nodes_monotonic((h - 2) as nat, hl as nat);
            }
        }
    }
}

/// Three more levels at least quadruple the number of nodes.
pub proof fn lemma_min_nodes_quadruples(k: nat)
    ensures
        min_nodes(3 * k) + 1 >= vstd::arithmetic::power2::pow2(2 * k),
    decreases k,
{
    vstd::arithmetic::power2::lemma2_to64();
    if k > 0 {
        lemma_min_nodes_quadruples((k - 1) as nat);
        let h = (3 * k - 3) as nat;
        vstd::arithmetic::power2::lemma_pow2_unfold(2 * k);
        vstd::arithmetic::power2::lemma_pow2_unfold((2 * k - 1) as nat);
        assert(min_nodes(h + 3) == 1 + min_nodes(h + 2) + min_nodes(h + 1));
        assert(min_nodes(h + 2) == 1 + min_nodes(h + 1) + min_nodes(h));
        if h >= 1 {
            assert(min_nodes(h + 1) == 1 + min_nodes(h) + min_nodes((h - 1) as nat));
            if h >= 2 {
                lemma_min_nodes_monotonic((h - 2) as nat, (h - 1) as nat);
            }
            assert(min_nodes(h) <= 1 + 2 * min_nodes((h - 1) as nat));
        }
    }
}

/// A balanced subtree that fits in memory is far too shallow to overflow a
/// cached height.
proof fn lemma_depth_small<T>(link: Option<Box<Node<T>>>)
    requires
        balanced(link),
        count(link) <= usize::MAX,
    ensures
        0 <= depth(link) <= 98,
{
    lemma_count_at_least(link);
    if depth(link) > 98 {
        lemma_min_nodes_monotonic(99, depth(link) as nat);
        lemma_min_nodes_quadruples(33);
        vstd::arithmetic::power2::lemma2_to64();
        vstd::arithmetic::power2::lemma_pow2_unfold(65);
        vstd::arithmetic::power2::lemma_pow2_unfold(66);
    }
}

/// What a rotation needs of the three subtrees that it rearranges.
spec fn rotatable<T: Ord>(
    a: Option<Box<Node<T>>>,
    b: Option<Box<Node<T>>>,
    c: Option<Box<Node<T>>>,
) -> bool {
    &&& heights_cached(a) && heights_cached(b) && heights_cached(c)
    &&& depth(a) <= 100 && depth(b) <= 100 && depth(c) <= 100
}

/// Where heights are cached correctly, the cached height of a link is its height.
proof fn lemma_cached_is_depth<T>(link: Option<Box<Node<T>>>)
    requires
        heights_cached(link),
    ensures
        cached(link) == depth(link),
{
}

/// The node of the given value and subtrees, with the height that the
/// cached heights of the subtrees give it.
spec fn node_of<T>(value: T, left: Option<Box<Node<T>>>, right: Option<Box<Node<T>>>) -> Box<
    Node<T>,
> {
    Box::new(Node { value, left, right, height: (1 + larger(cached(left), cached(right))) as u8 })
}

/// A right rotation: the left child comes up, its right subtree becomes the
/// left subtree of the old root, and the old root becomes its right child.
spec fn turned_right<T>(root: Box<Node<T>>) -> Box<Node<T>> {
    let pivot = root.left->Some_0;
    node_of(pivot.value, pivot.left, Some(node_of(root.value, pivot.right, root.right)))
}

/// A left rotation: the mirror image of a right rotation.
spec fn turned_left<T>(root: Box<Node<T>>) -> Box<Node<T>> {
    let pivot = root.right->Some_0;
    node_of(pivot.value, Some(node_of(root.value, root.left, pivot.left)), pivot.right)
}

/// The cached height of the left subtree of a node less that of its right one.
spec fn tilt<T>(node: Box<Node<T>>) -> int {
    cached(node.left) - cached(node.right)
}

/// The node after rebalancing. A node that leans left by more than one is
/// rotated right, after its left child was rotated left if that child leans
/// right; a node that leans right by more than one is treated in the mirror
/// image; any other node only has its height set.
spec fn mended<T>(node: Box<Node<T>>) -> Box<Node<T>> {
    if tilt(node) > 1 {
        let heavy = node.left->Some_0;
        if tilt(heavy) < 0 {
            turned_right(node_of(node.value, Some(turned_left(heavy)), node.right))
        } else {
            turned_right(node)
        }
    } else if tilt(node) < -1 {
        let heavy = node.right->Some_0;
        if tilt(heavy) > 0 {
            turned_left(node_of(node.value, node.left, Some(turned_right(heavy))))
        } else {
            turned_left(node)
        }
    } else {
        node_of(node.value, node.left, node.right)
    }
}

/// A node whose two subtrees are valid and lie on the right sides of its
/// value, but whose own height may be stale and whose subtrees may differ in
/// height by two.
spec fn mendable<T: Ord>(node: Box<Node<T>>) -> bool {
    &&& valid(node.left)
    &&& valid(node.right)
    &&& all_before(elems(node.left), node.value)
    &&& all_after(elems(node.right), node.value)
    &&& -2 <= depth(node.left) - depth(node.right) <= 2
    &&& depth(node.left) <= 100
    &&& depth(node.right) <= 100
}

/// The height of a node after rebalancing, given the heights of its subtrees
/// before: exact where they differed by at most one, else within one step.
spec fn mended_depth(d: int, l: int, r: int) -> bool {
    if -1 <= l - r <= 1 {
        d == 1 + larger(l, r)
    } else {
        larger(l, r) <= d <= larger(l, r) + 1
    }
}

impl<T: Ord> AvlTree<T> {
    fn node_height(node: &Option<Box<Node<T>>>) -> (h: u8)
        ensures
            h == cached(*node),
    {
        match node {
            None => 0,
            Some(n) => n.height,
        }
    }

    fn update_height(node: &mut Node<T>)
        requires
            cached(old(node).left) < 255,
            cached(old(node).right) < 255,
        ensures
            final(node).height == 1 + larger(cached(old(node).left), cached(old(node).right)),
            final(node).value == old(node).value,
            final(node).left == old(node).left,
            final(node).right == old(node).right,
    {
        let l: u8 = Self::node_height(&node.left);
        let r: u8 = Self::node_height(&node.right);
        node.height = 1 + if l >= r {
            l
        } else {
            r
        };
    }

    fn balance_factor(node: &Node<T>) -> (bf: i8)
        requires
            cached(node.left) <= 127,
            cached(node.right) <= 127,
        ensures
            bf == cached(node.left) - cached(node.right),
    {
        Self::node_height(&node.left) as i8 - Self::node_height(&node.right) as i8
    }

    fn rotate_right(mut root: Box<Node<T>>) -> (top: Box<Node<T>>)
        requires
            total_order::<T>(),
            root.left is Some,
            ordered(Some(root)),
            rotatable(root.left.unwrap().left, root.left.unwrap().right, root.right),
        ensures
            top == turned_right(root),
            ordered(Some(top)),
            elems(Some(top)) == elems(Some(root)),
            count(Some(top)) == count(Some(root)),
            top.left == root.left.unwrap().left,
            top.right is Some,
            top.right.unwrap().left == root.left.unwrap().right,
            top.right.unwrap().right == root.right,
            top.right.unwrap().height == depth(top.right),
            top.height == depth(Some(top)),
    {
        let ghost before = root;
        let mut new_root = root.left.take().unwrap();
        let ghost pivot = new_root;
        root.left = new_root.right.take();
        proof {
            lemma_cached_is_depth(root.left);
            lemma_cached_is_depth(root.right);
            lemma_cached_is_depth(new_root.left);
        }
        Self::update_height(&mut root);
        let ghost lowered = root;
        new_root.right = Some(root);
        Self::update_height(&mut new_root);
        proof {
            assert(ordered(Some(pivot)));
            assert(elems(Some(before)).contains(before.value));
            assert(elems(before.left).contains(pivot.value));
            assert(precedes(pivot.value, before.value));
            assert(all_before(elems(lowered.left), lowered.value)) by {
                assert forall|x: T| #[trigger] elems(lowered.left).contains(x) implies precedes(
                    x,
                    lowered.value,
                ) by {
                    assert(elems(before.left).contains(x));
                }
            }
            assert(ordered(Some(lowered)));
            assert(all_after(elems(Some(lowered)), pivot.value)) by {
                assert forall|x: T| #[trigger] elems(Some(lowered)).contains(x) implies precedes(
                    pivot.value,
                    x,
                ) by {
                    if elems(before.right).contains(x) {
                        lemma_transitive(pivot.value, before.value, x);
                    }
                }
            }
            assert(elems(Some(new_root)) =~= elems(Some(before)));
            assert(depth(Some(lowered)) == 1 + larger(depth(lowered.left), depth(lowered.right)));
            assert(depth(Some(new_root)) == 1 + larger(
                depth(new_root.left),
                depth(new_root.right),
            ));
            assert(count(Some(pivot)) == 1 + count(pivot.left) + count(pivot.right));
            assert(count(Some(lowered)) == 1 + count(lowered.left) + count(lowered.right));
            assert(count(Some(before)) == 1 + count(before.left) + count(before.right));
        }
        new_root
    }

    fn rotate_left(mut root: Box<Node<T>>) -> (top: Box<Node<T>>)
        requires
            total_order::<T>(),
            root.right is Some,
            ordered(Some(root)),
            rotatable(root.left, root.right.unwrap().left, root.right.unwrap().right),
        ensures
            top == turned_left(root),
            ordered(Some(top)),
            elems(Some(top)) == elems(Some(root)),
            count(Some(top)) == count(Some(root)),
            top.right == root.right.unwrap().right,
            top.left is Some,
            top.left.unwrap().left == root.left,
            top.left.unwrap().right == root.right.unwrap().left,
            top.left.unwrap().height == depth(top.left),
            top.height == depth(Some(top)),
    {
        let ghost before = root;
        let mut new_root = root.right.take().unwrap();
        let ghost pivot = new_root;
        root.right = new_root.left.take();
        proof {
            lemma_cached_is_depth(root.left);
            lemma_cached_is_depth(root.right);
            lemma_cached_is_depth(new_root.right);
        }
        Self::update_height(&mut root);
        let ghost lowered = root;
        new_root.left = Some(root);
        Self::update_height(&mut new_root);
        proof {
            assert(ordered(Some(pivot)));
            assert(elems(before.right).contains(pivot.value));
            assert(precedes(before.value, pivot.value));
            assert(all_after(elems(lowered.right), lowered.value)) by {
                assert forall|x: T| #[trigger] elems(lowered.right).contains(x) implies precedes(
                    lowered.value,
                    x,
                ) by {
                    assert(elems(before.right).contains(x));
                }
            }
            assert(ordered(Some(lowered)));
            assert(all_before(elems(Some(lowered)), pivot.value)) by {
                assert forall|x: T| #[trigger] elems(Some(lowered)).contains(x) implies precedes(
                    x,
                    pivot.value,
                ) by {
                    if elems(before.left).contains(x) {
                        lemma_transitive(x, before.value, pivot.value);
                    }
                }
            }
            assert(elems(Some(new_root)) =~= elems(Some(before)));
            assert(depth(Some(lowered)) == 1 + larger(depth(lowered.left), depth(lowered.right)));
            assert(depth(Some(new_root)) == 1 + larger(
                depth(new_root.left),
                depth(new_root.right),
            ));
            assert(count(Some(pivot)) == 1 + count(pivot.left) + count(pivot.right));
            assert(count(Some(lowered)) == 1 + count(lowered.left) + count(lowered.right));
            assert(count(Some(before)) == 1 + count(before.left) + count(before.right));
        }
        new_root
    }

    fn rebalance(mut node: Box<Node<T>>) -> (top: Box<Node<T>>)
        requires
            total_order::<T>(),
            mendable(node),
        ensures
            top == mended(node),
            valid(Some(top)),
            elems(Some(top)) == elems(Some(node)),
            count(Some(top)) == count(Some(node)),
            mended_depth(depth(Some(top)), depth(node.left), depth(node.right)),
    {
        let ghost before = node;
        proof {
            lemma_cached_is_depth(node.left);
            lemma_cached_is_depth(node.right);
            lemma_depth_nonneg(node.left);
            lemma_depth_nonneg(node.right);
        }
        Self::update_height(&mut node);
        let balance = Self::balance_factor(&node);

        if balance > 1 {
            let left_balance = match &node.left {
                Some(left) => {
                    proof {
                        lemma_cached_is_depth(left.left);
                        lemma_cached_is_depth(left.right);
                        lemma_depth_nonneg(left.left);
                        lemma_depth_nonneg(left.right);
                    }
                    Self::balance_factor(left)
                },
                None => 0,
            };
            let ghost heavy = node.left.unwrap();
            proof {
                lemma_depth_nonneg(heavy.left);
                lemma_depth_nonneg(heavy.right);
                assert(depth(node.left) == 1 + larger(depth(heavy.left), depth(heavy.right)));
            }
            if left_balance < 0 {
                let ghost inner = heavy.right.unwrap();
                proof {
                    assert(heavy.right is Some);
                    assert(valid(heavy.right));
                    lemma_depth_nonneg(inner.left);
                    lemma_depth_nonneg(inner.right);
                    assert(depth(heavy.right) == 1 + larger(depth(inner.left), depth(inner.right)));
                }
                let rotated = Self::rotate_left(node.left.take().unwrap());
                proof {
                    assert(rotated.left.unwrap().left == heavy.left);
                    assert(rotated.left.unwrap().right == inner.left);
                    assert(rotated.right == inner.right);
                    assert(depth(rotated.left) == 1 + larger(depth(heavy.left), depth(inner.left)));
                    assert(heights_cached(rotated.left));
                    assert(balanced(rotated.left));
                }
                node.left = Some(rotated);
                proof {
                    assert(ordered(Some(node)));
                }
                let top = Self::rotate_right(node);
                proof {
                    assert(top.left == rotated.left);
                    assert(top.right.unwrap().left == inner.right);
                    assert(top.right.unwrap().right == before.right);
                    assert(depth(top.right) == 1 + larger(depth(inner.right), depth(before.right)));
                    assert(depth(Some(top)) == 1 + larger(depth(top.left), depth(top.right)));
                    assert(balanced(top.right));
                    assert(heights_cached(top.right));
                    assert(balanced(Some(top)));
                    assert(heights_cached(Some(top)));
                    assert(elems(Some(top)) =~= elems(Some(before)));
                    assert(count(Some(before)) == 1 + count(before.left) + count(before.right));
                }
                top
            } else {
                proof {
                    assert(ordered(Some(node)));
                }
                let top = Self::rotate_right(node);
                proof {
                    assert(top.left == heavy.left);
                    assert(top.right.unwrap().left == heavy.right);
                    assert(top.right.unwrap().right == before.right);
                    assert(depth(top.right) == 1 + larger(depth(heavy.right), depth(before.right)));
                    assert(depth(Some(top)) == 1 + larger(depth(top.left), depth(top.right)));
                    assert(balanced(top.right));
                    assert(heights_cached(top.right));
                    assert(balanced(Some(top)));
                    assert(heights_cached(Some(top)));
                    assert(elems(Some(top)) =~= elems(Some(before)));
                    assert(count(Some(before)) == 1 + count(before.left) + count(before.right));
                }
                top
            }
        } else if balance < -1 {
            let right_balance = match &node.right {
                Some(right) => {
                    proof {
                        lemma_cached_is_depth(right.left);
                        lemma_cached_is_depth(right.right);
                        lemma_depth_nonneg(right.left);
                        lemma_depth_nonneg(right.right);
                    }
                    Self::balance_factor(right)
                },
                None => 0,
            };
            let ghost heavy = node.right.unwrap();
            proof {
                lemma_depth_nonneg(heavy.left);
                lemma_depth_nonneg(heavy.right);
                assert(depth(node.right) == 1 + larger(depth(heavy.left), depth(heavy.right)));
            }
            if right_balance > 0 {
                let ghost inner = heavy.left.unwrap();
                proof {
                    assert(heavy.left is Some);
                    assert(valid(heavy.left));
                    lemma_depth_nonneg(inner.left);
                    lemma_depth_nonneg(inner.right);
                    assert(depth(heavy.left) == 1 + larger(depth(inner.left), depth(inner.right)));
                }
                let rotated = Self::rotate_right(node.right.take().unwrap());
                proof {
                    assert(rotated.right.unwrap().right == heavy.right);
                    assert(rotated.right.unwrap().left == inner.right);
                    assert(rotated.left == inner.left);
                    assert(depth(rotated.right) == 1 + larger(
                        depth(inner.right),
                        depth(heavy.right),
                    ));
                    assert(heights_cached(rotated.right));
                    assert(balanced(rotated.right));
                }
                node.right = Some(rotated);
                proof {
                    assert(ordered(Some(node)));
                }
                let top = Self::rotate_left(node);
                proof {
                    assert(top.right == rotated.right);
                    assert(top.left.unwrap().right == inner.left);
                    assert(top.left.unwrap().left == before.left);
                    assert(depth(top.left) == 1 + larger(depth(before.left), depth(inner.left)));
                    assert(depth(Some(top)) == 1 + larger(depth(top.left), depth(top.right)));
                    assert(balanced(top.left));
                    assert(heights_cached(top.left));
                    assert(balanced(Some(top)));
                    assert(heights_cached(Some(top)));
                    assert(elems(Some(top)) =~= elems(Some(before)));
                    assert(count(Some(before)) == 1 + count(before.left) + count(before.right));
                }
                top
            } else {
                proof {
                    assert(ordered(Some(node)));
                }
                let top = Self::rotate_left(node);
                proof {
                    assert(top.right == heavy.right);
                    assert(top.left.unwrap().right == heavy.left);
                    assert(top.left.unwrap().left == before.left);
                    assert(depth(top.left) == 1 + larger(depth(before.left), depth(heavy.left)));
                    assert(depth(Some(top)) == 1 + larger(depth(top.left), depth(top.right)));
                    assert(balanced(top.left));
                    assert(heights_cached(top.left));
                    assert(balanced(Some(top)));
                    assert(heights_cached(Some(top)));
                    assert(elems(Some(top)) =~= elems(Some(before)));
                    assert(count(Some(before)) == 1 + count(before.left) + count(before.right));
                }
                top
            }
        } else {
            proof {
                assert(depth(Some(node)) == 1 + larger(depth(node.left), depth(node.right)));
                assert(elems(Some(node)) =~= elems(Some(before)));
                assert(count(Some(node)) == count(Some(before)));
            }
            node
        }
    }

    fn insert_node(node: Option<Box<Node<T>>>, value: T) -> (res: (Option<Box<Node<T>>>, bool))
        requires
            total_order::<T>(),
            valid(node),
            count(node) <= usize::MAX,
        ensures
            valid(res.0),
            elems(res.0) == elems(node).insert(value),
            res.1 == !elems(node).contains(value),
            count(res.0) == count(node) + if res.1 { 1nat } else { 0nat },
            depth(node) <= depth(res.0) <= depth(node) + 1,
            !res.1 ==> res.0 == node,
        decreases node,
    {
        proof {
            lemma_order_laws::<T>();
        }
        match node {
            None => {
                let new_node = Box::new(Node { value, left: None, right: None, height: 1 });
                proof {
                    assert(elems(Some(new_node)) =~= elems(node).insert(value));
                    assert(depth(new_node.left) == 0 && depth(new_node.right) == 0);
                    assert(count(new_node.left) == 0 && count(new_node.right) == 0);
                }
                (Some(new_node), true)
            },
            Some(mut n) => {
                let ghost before = n;
                proof {
                    lemma_depth_small(n.left);
                    lemma_depth_small(n.right);
                }
                let inserted = match value.cmp(&n.value) {
                    Ordering::Less => {
                        proof {
                            lemma_trichotomy(value, n.value);
                            if elems(n.right).contains(value) {
                                lemma_trichotomy(n.value, value);
                            }
                        }
                        let (left, ins) = Self::insert_node(n.left.take(), value);
                        n.left = left;
                        ins
                    },
                    Ordering::Greater => {
                        proof {
                            lemma_trichotomy(value, n.value);
                            if elems(n.left).contains(value) {
                                lemma_trichotomy(n.value, value);
                            }
                        }
                        let (right, ins) = Self::insert_node(n.right.take(), value);
                        n.right = right;
                        ins
                    },
                    Ordering::Equal => false,
                };
                if inserted {
                    let top = Self::rebalance(n);
                    proof {
                        assert(elems(Some(top)) =~= elems(node).insert(value));
                        assert(count(Some(n)) == 1 + count(n.left) + count(n.right));
                        assert(count(node) == 1 + count(before.left) + count(before.right));
                        assert(depth(node) == 1 + larger(depth(before.left), depth(before.right)));
                    }
                    (Some(top), inserted)
                } else {
                    proof {
                        assert(n == before);
                        assert(elems(node) =~= elems(node).insert(value));
                    }
                    (Some(n), inserted)
                }
            },
        }
    }

    fn extract_min(mut node: Box<Node<T>>) -> (res: (T, Option<Box<Node<T>>>))
        requires
            total_order::<T>(),
            valid(Some(node)),
            count(Some(node)) <= usize::MAX,
        ensures
            valid(res.1),
            elems(Some(node)).contains(res.0),
            elems(res.1) == elems(Some(node)).remove(res.0),
            all_after(elems(res.1), res.0),
            count(res.1) + 1 == count(Some(node)),
            depth(Some(node)) - 1 <= depth(res.1) <= depth(Some(node)),
        decreases node,
    {
        let ghost before = node;
        proof {
            lemma_order_laws::<T>();
            lemma_depth_small(node.left);
            lemma_depth_small(node.right);
            lemma_depth_nonneg(node.left);
            lemma_depth_nonneg(node.right);
            assert(count(Some(node)) == 1 + count(node.left) + count(node.right));
            assert(depth(Some(node)) == 1 + larger(depth(node.left), depth(node.right)));
        }
        match node.left.take() {
            None => {
                proof {
                    assert forall|x: T| #[trigger] elems(before.right).contains(x) implies x
                        != before.value by {
                        lemma_trichotomy(before.value, x);
                    }
                    assert(elems(before.right) =~= elems(Some(before)).remove(before.value));
                }
                (node.value, node.right)
            },
            Some(left) => {
                let (min_val, new_left) = Self::extract_min(left);
                node.left = new_left;
                let rebalanced = Self::rebalance(node);
                proof {
                    assert(precedes(min_val, before.value));
                    assert forall|x: T| #[trigger] elems(before.right).contains(x) implies precedes(
                        min_val,
                        x,
                    ) && x != min_val by {
                        lemma_transitive(min_val, before.value, x);
                        lemma_trichotomy(min_val, x);
                    }
                    lemma_trichotomy(min_val, before.value);
                    assert(elems(Some(rebalanced)) =~= elems(Some(before)).remove(min_val));
                    assert(count(Some(node)) == 1 + count(node.left) + count(node.right));
                }
                (min_val, Some(rebalanced))
            },
        }
    }

    fn remove_node(node: Option<Box<Node<T>>>, value: &T) -> (res: (Option<Box<Node<T>>>, bool))
        requires
            total_order::<T>(),
            valid(node),
            count(node) <= usize::MAX,
        ensures
            valid(res.0),
            elems(res.0) == elems(node).remove(*value),
            res.1 == elems(node).contains(*value),
            count(res.0) + if res.1 { 1nat } else { 0nat } == count(node),
            depth(node) - 1 <= depth(res.0) <= depth(node),
            !res.1 ==> res.0 == node,
        decreases node,
    {
        proof {
            lemma_order_laws::<T>();
        }
        match node {
            None => {
                proof {
                    assert(elems(node) =~= elems(node).remove(*value));
                }
                (None, false)
            },
            Some(mut n) => {
                let ghost before = n;
                proof {
                    lemma_depth_small(n.left);
                    lemma_depth_small(n.right);
                    lemma_depth_nonneg(n.left);
                    lemma_depth_nonneg(n.right);
                    assert(count(node) == 1 + count(n.left) + count(n.right));
                    assert(depth(node) == 1 + larger(depth(n.left), depth(n.right)));
                    assert forall|x: T|
                        elems(n.left).contains(x) || elems(n.right).contains(x) implies x
                        != n.value by {
                        lemma_trichotomy(n.value, x);
                    }
                }
                let removed = match value.cmp(&n.value) {
                    Ordering::Less => {
                        proof {
                            lemma_trichotomy(*value, n.value);
                            if elems(n.right).contains(*value) {
                                lemma_trichotomy(n.value, *value);
                            }
                        }
                        let (left, rem) = Self::remove_node(n.left.take(), value);
                        n.left = left;
                        rem
                    },
                    Ordering::Greater => {
                        proof {
                            lemma_trichotomy(*value, n.value);
                            if elems(n.left).contains(*value) {
                                lemma_trichotomy(n.value, *value);
                            }
                        }
                        let (right, rem) = Self::remove_node(n.right.take(), value);
                        n.right = right;
                        rem
                    },
                    Ordering::Equal => {
                        return match (n.left.take(), n.right.take()) {
                            (None, None) => {
                                proof {
                                    assert(elems(None::<Box<Node<T>>>) =~= elems(node).remove(
                                        *value,
                                    ));
                                }
                                (None, true)
                            },
                            (Some(left), None) => {
                                proof {
                                    assert(elems(Some(left)) =~= elems(node).remove(*value));
                                }
                                (Some(left), true)
                            },
                            (None, Some(right)) => {
                                proof {
                                    assert(elems(Some(right)) =~= elems(node).remove(*value));
                                }
                                (Some(right), true)
                            },
                            (Some(left), Some(right)) => {
                                let (successor, new_right) = Self::extract_min(right);
                                let mut new_node = Box::new(
                                    Node {
                                        value: successor,
                                        left: Some(left),
                                        right: new_right,
                                        height: 1,
                                    },
                                );
                                proof {
                                    lemma_cached_is_depth(new_node.left);
                                    lemma_cached_is_depth(new_node.right);
                                    assert forall|x: T| #[trigger]
                                        elems(new_node.left).contains(x) implies precedes(
                                        x,
                                        successor,
                                    ) by {
                                        lemma_transitive(x, before.value, successor);
                                    }
                                }
                                Self::update_height(&mut new_node);
                                let top = Self::rebalance(new_node);
                                proof {
                                    assert(elems(Some(top)) =~= elems(node).remove(*value));
                                    assert(count(Some(new_node)) == 1 + count(new_node.left)
                                        + count(new_node.right));
                                }
                                (Some(top), true)
                            },
                        };
                    },
                };
                if removed {
                    let top = Self::rebalance(n);
                    proof {
                        assert(elems(Some(top)) =~= elems(node).remove(*value));
                        assert(count(Some(n)) == 1 + count(n.left) + count(n.right));
                    }
                    (Some(top), removed)
                } else {
                    proof {
                        assert(n == before);
                        assert(elems(node) =~= elems(node).remove(*value));
                    }
                    (Some(n), removed)
                }
            },
        }
    }

    fn check_balanced(node: &Option<Box<Node<T>>>) -> (res: Option<u8>)
        requires
            count(*node) <= usize::MAX,
        ensures
            balanced(*node) ==> res == Some(depth(*node) as u8) && depth(*node) <= 98,
            !balanced(*node) ==> res is None,
        decreases node,
    {
        match node {
            None => Some(0),
            Some(n) => {
                proof {
                    assert(count(*node) == 1 + count(n.left) + count(n.right));
                    if balanced(n.left) {
                        lemma_depth_small(n.left);
                    }
                    if balanced(n.right) {
                        lemma_depth_small(n.right);
                    }
                    if balanced(*node) {
                        lemma_depth_small(*node);
                    }
                }
                let left_height = Self::check_balanced(&n.left)?;
                let right_height = Self::check_balanced(&n.right)?;

                let balance = left_height as i8 - right_height as i8;
                if balance > 1 || balance < -1 {
                    None
                } else {
                    Some(
                        1 + if left_height >= right_height {
                            left_height
                        } else {
                            right_height
                        },
                    )
                }
            },
        }
    }
}

impl<T> View for AvlTree<T> {
    type V = Set<T>;

    open spec fn view(&self) -> Set<T> {
        self.contents()
    }
}

impl<T> AvlTree<T> {
    /// The set of values that the tree holds.
    pub closed spec fn contents(&self) -> Set<T> {
        elems(self.root)
    }

    /// The height of the tree: the number of nodes on its longest path from
    /// the root down, 0 for the empty tree.
    pub closed spec fn spec_height(&self) -> nat {
        depth(self.root) as nat
    }

    /// At every node the heights of the two subtrees, recomputed from the
    /// shape of the tree, differ by at most one.
    pub closed spec fn spec_balanced(&self) -> bool {
        balanced(self.root)
    }

    /// The size counter is the number of nodes of the tree.
    pub closed spec fn sized(&self) -> bool {
        self.size == count(self.root)
    }
}

impl<T: Ord> AvlTree<T> {
    /// Search-tree order without duplicates, a correct cached height in every
    /// node, and as many values as there are nodes.
    pub closed spec fn arranged(&self) -> bool {
        &&& ordered(self.root)
        &&& heights_cached(self.root)
        &&& elems(self.root).finite()
        &&& elems(self.root).len() == count(self.root)
    }

    /// The invariant of the tree: a size counter equal to the number of
    /// nodes, the balance of every node, search-tree order without
    /// duplicates, and a correct cached height in every node.
    pub open spec fn wf(&self) -> bool {
        &&& self.sized()
        &&& self.spec_balanced()
        &&& self.arranged()
    }

    /// A well-formed tree is balanced.
    pub proof fn lemma_wf_balanced(&self)
        requires
            self.wf(),
        ensures
            self.spec_balanced(),
    {
    }

    /// A well-formed tree holds finitely many values, no more than fit in `usize`.
    pub proof fn lemma_wf_finite(&self)
        requires
            self.wf(),
        ensures
            self@.finite(),
            self@.len() <= usize::MAX,
    {
    }

    /// A well-formed tree of height `h` holds at least `min_nodes(h)` values, so
    /// its height grows only with the logarithm of its size.
    pub proof fn lemma_height_bound(&self)
        requires
            self.wf(),
        ensures
            min_nodes(self.spec_height()) <= self@.len(),
            fib(self.spec_height() + 2) <= self@.len() + 1,
            self.spec_height() <= 98,
    {
        lemma_count_at_least(self.root);
        lemma_depth_small(self.root);
        lemma_min_nodes_fib(self.spec_height());
    }

    /// The height is at most three halves of the binary logarithm of the
    /// size, and a little: a tree of height `h` holds at least `4^(h / 3) - 1`
    /// values.
    pub proof fn lemma_height_logarithmic(&self)
        requires
            self.wf(),
        ensures
            vstd::arithmetic::power2::pow2(2 * (self.spec_height() / 3)) <= self@.len() + 1,
    {
        let h = self.spec_height();
        let k = h / 3;
        lemma_count_at_least(self.root);
        lemma_min_nodes_monotonic(3 * k, h);
        lemma_min_nodes_quadruples(k);
    }

    /// A tree of height `h` holds fewer than `2^h` values.
    pub proof fn lemma_size_bound(&self)
        requires
            self.wf(),
        ensures
            self@.len() < vstd::arithmetic::power2::pow2(self.spec_height()),
    {
        lemma_count_below_power(self.root);
    }

    /// A tree is empty exactly when its height is 0.
    pub proof fn lemma_height_zero(&self)
        requires
            self.wf(),
        ensures
            self.spec_height() == 0 <==> self@.len() == 0,
    {
        lemma_depth_nonneg(self.root);
        if let Some(n) = self.root {
            assert(elems(self.root).contains(n.value));
        }
    }

    /// An empty tree.
    pub fn new() -> (tree: Self)
        ensures
            tree.wf(),
            tree@ == Set::<T>::empty(),
            tree.spec_height() == 0,
    {
        Self { root: None, size: 0 }
    }

    /// Puts a value into the set; a value that is there already changes
    /// nothing. The tree stays balanced.
    pub fn insert(&mut self, value: T)
        requires
            total_order::<T>(),
            old(self).wf(),
            old(self)@.contains(value) || old(self)@.len() < usize::MAX,
        ensures
            final(self).wf(),
            final(self)@ == old(self)@.insert(value),
            final(self)@.len() == old(self)@.len() + if old(self)@.contains(value) {
                0nat
            } else {
                1nat
            },
            old(self).spec_height() <= final(self).spec_height() <= old(self).spec_height() + 1,
    {
        proof {
            lemma_depth_nonneg(self.root);
        }
        let (new_root, inserted) = Self::insert_node(self.root.take(), value);
        self.root = new_root;
        if inserted {
            self.size += 1;
        }
        proof {
            lemma_depth_nonneg(self.root);
        }
    }

    /// Takes a value out of the set and says whether it was there. The tree
    /// stays balanced.
    pub fn remove(&mut self, value: &T) -> (removed: bool)
        requires
            total_order::<T>(),
            old(self).wf(),
        ensures
            final(self).wf(),
            final(self)@ == old(self)@.remove(*value),
            removed == old(self)@.contains(*value),
            final(self)@.len() + if removed { 1nat } else { 0nat } == old(self)@.len(),
            final(self).spec_height() <= old(self).spec_height() <= final(self).spec_height() + 1,
    {
        proof {
            lemma_depth_nonneg(self.root);
        }
        let (new_root, removed) = Self::remove_node(self.root.take(), value);
        self.root = new_root;
        if removed {
            self.size -= 1;
        }
        proof {
            lemma_depth_nonneg(self.root);
        }
        removed
    }

    /// Whether the value is in the set.
    pub fn contains(&self, value: &T) -> (found: bool)
        requires
            total_order::<T>(),
            self.wf(),
        ensures
            found == self@.contains(*value),
    {
        proof {
            lemma_order_laws::<T>();
        }
        let mut current = &self.root;
        loop
            invariant
                total_order::<T>(),
                crate::order::order_laws::<T>(),
                valid(*current),
                elems(self.root).contains(*value) == elems(*current).contains(*value),
            ensures
                !self@.contains(*value),
            decreases *current,
        {
            match current {
                None => break,
                Some(node) => match value.cmp(&node.value) {
                    Ordering::Equal => return true,
                    Ordering::Less => {
                        proof {
                            lemma_trichotomy(*value, node.value);
                            if elems(node.right).contains(*value) {
                                lemma_trichotomy(node.value, *value);
                            }
                        }
                        current = &node.left;
                    },
                    Ordering::Greater => {
                        proof {
                            lemma_trichotomy(*value, node.value);
                            if elems(node.left).contains(*value) {
                                lemma_trichotomy(node.value, *value);
                            }
                        }
                        current = &node.right;
                    },
                },
            }
        }
        false
    }

    /// The number of values.
    pub fn len(&self) -> (n: usize)
        requires
            self.wf(),
        ensures
            n == self@.len(),
    {
        self.size
    }

    /// Whether the set holds no value.
    pub fn is_empty(&self) -> (empty: bool)
        requires
            self.wf(),
        ensures
            empty == (self@.len() == 0),
            empty == (self@ == Set::<T>::empty()),
    {
        proof {
            if self.size == 0 {
                assert(self@ =~= Set::<T>::empty());
            }
        }
        self.size == 0
    }

    /// The height of the tree, 0 for the empty tree.
    pub fn height(&self) -> (h: u8)
        requires
            self.wf(),
        ensures
            h == self.spec_height(),
    {
        proof {
            lemma_cached_is_depth(self.root);
            lemma_depth_nonneg(self.root);
        }
        Self::node_height(&self.root)
    }

    /// Empties the tree.
    pub fn clear(&mut self)
        ensures
            final(self).wf(),
            final(self)@ == Set::<T>::empty(),
            final(self).spec_height() == 0,
    {
        self.root = None;
        self.size = 0;
    }

    /// The root as it stands, or `None` of an empty tree. The height of the
    /// root is that of the tree, its balance factor is the height of its left
    /// subtree less that of its right one, and its children lie on the two
    /// sides of its value.
    pub fn root_summary(&self) -> (summary: Option<RootSummary<'_, T>>)
        requires
            total_order::<T>(),
            self.wf(),
        ensures
            summary is None <==> self@.len() == 0,
            summary matches Some(root) ==> {
                &&& self@.contains(*root.value)
                &&& root.height == self.spec_height()
                &&& -1 <= root.balance <= 1
                &&& root.left matches Some(l) ==> self@.contains(*l) && precedes(*l, *root.value)
                &&& root.right matches Some(r) ==> self@.contains(*r) && precedes(*root.value, *r)
                &&& root.left is None && root.right is None <==> self@.len() == 1
                &&& root.left is None ==> root.balance <= 0
                &&& root.right is None ==> root.balance >= 0
            },
    {
        match &self.root {
            None => None,
            Some(node) => {
                proof {
                    lemma_order_laws::<T>();
                    lemma_depth_small(self.root);
                    lemma_depth_small(node.left);
                    lemma_depth_small(node.right);
                    lemma_depth_nonneg(node.left);
                    lemma_depth_nonneg(node.right);
                    lemma_cached_is_depth(self.root);
                    lemma_cached_is_depth(node.left);
                    lemma_cached_is_depth(node.right);
                    assert(elems(self.root).contains(node.value));
                    assert(count(self.root) == 1 + count(node.left) + count(node.right));
                    if node.left is Some {
                        let l = node.left->Some_0;
                        assert(elems(node.left).contains(l.value));
                        assert(count(node.left) >= 1) by {
                            assert(count(node.left) == 1 + count(l.left) + count(l.right));
                        }
                    }
                    if node.right is Some {
                        let r = node.right->Some_0;
                        assert(elems(node.right).contains(r.value));
                        assert(count(node.right) >= 1) by {
                            assert(count(node.right) == 1 + count(r.left) + count(r.right));
                        }
                    }
                }
                let left = match &node.left {
                    None => None,
                    Some(l) => Some(&l.value),
                };
                let right = match &node.right {
                    None => None,
                    Some(r) => Some(&r.value),
                };
                Some(
                    RootSummary {
                        value: &node.value,
                        height: node.height,
                        balance: Self::balance_factor(node),
                        left,
                        right,
                    },
                )
            },
        }
    }

    /// Recomputes every height from the leaves up and reports whether the
    /// balance holds at every node, whatever the nodes have cached and however
    /// their values are ordered; of a well-formed tree it always does.
    pub fn is_balanced(&self) -> (ok: bool)
        requires
            self.sized(),
        ensures
            ok == self.spec_balanced(),
            self.wf() ==> ok,
    {
        Self::check_balanced(&self.root).is_some()
    }
}

} // verus!
