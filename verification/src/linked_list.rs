use vstd::prelude::*;
use vstd::std_specs::cmp::PartialEqSpec;

verus! {

struct Node<T> {
    data: T,
    next: Option<Box<Node<T>>>,
}

/// A singly linked list; its front is its head.
pub struct LinkedList<T> {
    head: Option<Box<Node<T>>>,
    size: usize,
}

/// The values along a chain of nodes, head first.
spec fn items<T>(link: Option<Box<Node<T>>>) -> Seq<T>
    decreases link,
{
    match link {
        None => Seq::empty(),
        Some(n) => seq![n.data] + items(n.next),
    }
}

/// The chain that holds the values of `front`, followed by the chain `rest`.
spec fn chain<T>(front: Seq<T>, rest: Option<Box<Node<T>>>) -> Option<Box<Node<T>>>
    decreases front.len(),
{
    if front.len() == 0 {
        rest
    } else {
        Some(Box::new(Node { data: front[0], next: chain(front.drop_first(), rest) }))
    }
}

/// A chain holds the values of its front, then those of its rest.
proof fn lemma_chain_items<T>(front: Seq<T>, rest: Option<Box<Node<T>>>)
    ensures
        items(chain(front, rest)) == front + items(rest),
    decreases front.len(),
{
    if front.len() == 0 {
        assert(front + items(rest) =~= items(rest));
    } else {
        lemma_chain_items(front.drop_first(), rest);
        assert(seq![front[0]] + (front.drop_first() + items(rest)) =~= front + items(rest));
    }
}

/// Lengthening the front of a chain by the value of the node that follows it.
proof fn lemma_chain_step<T>(front: Seq<T>, node: Box<Node<T>>)
    ensures
        chain(front, Some(node)) == chain(front.push(node.data), node.next),
    decreases front.len(),
{
    if front.len() == 0 {
        let one = front.push(node.data);
        assert(one.drop_first() =~= Seq::<T>::empty());
        assert(chain(one.drop_first(), node.next) == node.next);
        assert(*node == Node { data: node.data, next: node.next });
    } else {
        lemma_chain_step(front.drop_first(), node);
        assert(front.push(node.data).drop_first() =~= front.drop_first().push(node.data));
    }
}

impl<T> View for LinkedList<T> {
    type V = Seq<T>;

    open spec fn view(&self) -> Seq<T> {
        self.contents()
    }
}

impl<T> LinkedList<T> {
    /// The values of the list, the front first.
    pub closed spec fn contents(&self) -> Seq<T> {
        items(self.head)
    }

    /// The invariant of the list: the size counter is the number of values.
    pub closed spec fn wf(&self) -> bool {
        self.size == items(self.head).len()
    }
}

impl<T: PartialEq> LinkedList<T> {
    /// An empty list.
    pub fn new() -> (list: Self)
        ensures
            list.wf(),
            list@ == Seq::<T>::empty(),
    {
        LinkedList { head: None, size: 0 }
    }

    /// Adds a value at the front.
    pub fn push(&mut self, value: T)
        requires
            old(self).wf(),
            old(self)@.len() < usize::MAX,
        ensures
            final(self).wf(),
            final(self)@ == seq![value] + old(self)@,
    {
        let new_node = Box::new(Node { data: value, next: self.head.take() });
        self.head = Some(new_node);
        self.size += 1;
    }

    /// Takes the value at the front, if there is one.
    pub fn pop(&mut self) -> (front: Option<T>)
        requires
            old(self).wf(),
        ensures
            final(self).wf(),
            old(self)@.len() == 0 ==> front is None && final(self)@ == old(self)@,
            old(self)@.len() > 0 ==> front == Some(old(self)@[0]) && final(self)@ == old(
                self,
            )@.drop_first(),
    {
        match self.head.take() {
            None => None,
            Some(node) => {
                let node = *node;
                self.head = node.next;
                self.size -= 1;
                proof {
                    assert(final(self)@ =~= old(self)@.drop_first());
                }
                Some(node.data)
            },
        }
    }

    /// Takes out the value at `index`, counted from the front, if there is one.
    pub fn remove(&mut self, index: usize) -> (removed: Option<T>)
        requires
            old(self).wf(),
        ensures
            final(self).wf(),
            index >= old(self)@.len() ==> removed is None && final(self)@ == old(self)@,
            index < old(self)@.len() ==> removed == Some(old(self)@[index as int]) && final(self)@
                == old(self)@.remove(index as int),
    {
        if index >= self.size {
            return None;
        }
        if index == 0 {
            let front = self.pop();
            proof {
                assert(old(self)@.drop_first() =~= old(self)@.remove(0));
            }
            return front;
        }
        let ghost all = self@;
        let mut head = self.head.take();
        let mut current = &mut head;
        let mut i: usize = 0;
        proof {
            assert(all.take(0) =~= Seq::<T>::empty());
            assert(all.skip(0) =~= all);
        }
        while i < index - 1
            invariant
                0 < index < all.len(),
                i <= index - 1,
                items(*current) == all.skip(i as int),
                after_borrow(head) == chain(all.take(i as int), *final(current)),
            decreases index - 1 - i,
        {
            let ghost front = all.take(i as int);
            match current {
                Some(node) => {
                    proof {
                        assert(all.skip(i as int)[0] == node.data);
                        assert(items(node.next) =~= all.skip(i as int).drop_first());
                        assert(all.skip(i as int).drop_first() =~= all.skip(i + 1));
                        assert(front.push(node.data) =~= all.take(i + 1));
                    }
                    let ghost data = node.data;
                    current = &mut node.next;
                    proof {
                        lemma_chain_step(front, Box::new(Node { data, next: *final(current) }));
                    }
                },
                None => {
                    proof {
                        assert(all.skip(i as int).len() > 0);
                    }
                },
            }
            i += 1;
        }
        let ghost front = all.take(i as int);
        let mut removed: Option<T> = None;
        match current {
            Some(node) => {
                proof {
                    assert(all.skip(i as int)[0] == node.data);
                    assert(items(node.next) =~= all.skip(i as int).drop_first());
                    assert(all.skip(i as int).drop_first() =~= all.skip(index as int));
                }
                match node.next.take() {
                    Some(target) => {
                        let target = *target;
                        proof {
                            assert(all.skip(index as int)[0] == target.data);
                            assert(items(target.next) =~= all.skip(index as int).drop_first());
                            assert(all.skip(index as int).drop_first() =~= all.skip(index + 1));
                        }
                        node.next = target.next;
                        removed = Some(target.data);
                        proof {
                            let mended = Some(
                                Box::new(Node { data: node.data, next: target.next }),
                            );
                            lemma_chain_items(front, mended);
                            assert(front + (seq![node.data] + all.skip(index + 1)) =~= all.remove(
                                index as int,
                            ));
                        }
                    },
                    None => {
                        proof {
                            assert(all.skip(index as int).len() > 0);
                        }
                    },
                }
            },
            None => {
                proof {
                    assert(all.skip(i as int).len() > 0);
                }
            },
        }
        self.head = head;
        self.size -= 1;
        removed
    }

    /// The number of values.
    pub fn len(&self) -> (n: usize)
        requires
            self.wf(),
        ensures
            n == self@.len(),
    {
        self.size
    }

    /// Whether the list holds no value.
    pub fn is_empty(&self) -> (empty: bool)
        requires
            self.wf(),
        ensures
            empty == (self@.len() == 0),
    {
        self.size == 0
    }

    /// Empties the list.
    pub fn clear(&mut self)
        ensures
            final(self).wf(),
            final(self)@ == Seq::<T>::empty(),
    {
        self.head = None;
        self.size = 0;
    }

    /// Whether some value of the list equals `value`.
    pub fn contains(&self, value: &T) -> (found: bool)
        ensures
            T::obeys_eq_spec() ==> found == exists|i: int|
                0 <= i < self@.len() && #[trigger] self@[i].eq_spec(value),
            vstd::laws_eq::obeys_concrete_eq::<T>() ==> found == self@.contains(*value),
    {
        let mut current = &self.head;
        let ghost mut seen: int = 0;
        loop
            invariant
                0 <= seen <= self@.len(),
                items(*current) == self@.skip(seen),
                T::obeys_eq_spec() ==> forall|i: int|
                    0 <= i < seen ==> !(#[trigger] self@[i].eq_spec(value)),
            ensures
                T::obeys_eq_spec() ==> forall|i: int|
                    0 <= i < self@.len() ==> !(#[trigger] self@[i].eq_spec(value)),
            decreases *current,
        {
            match current {
                None => {
                    break ;
                },
                Some(node) => {
                    proof {
                        assert(items(*current) == seq![node.data] + items(node.next));
                        assert(self@.skip(seen).len() >= 1);
                        assert(self@.skip(seen)[0] == node.data);
                        assert(items(node.next) =~= self@.skip(seen).drop_first());
                        assert(self@.skip(seen).drop_first() =~= self@.skip(seen + 1));
                    }
                    if node.data == *value {
                        proof {
                            reveal(vstd::laws_eq::obeys_concrete_eq);
                            assert(T::obeys_eq_spec() ==> self@[seen].eq_spec(value));
                        }
                        return true;
                    }
                    current = &node.next;
                    proof {
                        seen = seen + 1;
                    }
                },
            }
        }
        proof {
            reveal(vstd::laws_eq::obeys_concrete_eq);
            if vstd::laws_eq::obeys_concrete_eq::<T>() && self@.contains(*value) {
                let i = choose|i: int| 0 <= i < self@.len() && self@[i] == *value;
                assert(self@[i].eq_spec(value));
            }
        }
        false
    }

    /// Turns the list round.
    pub fn reverse(&mut self)
        requires
            old(self).wf(),
        ensures
            final(self).wf(),
            final(self)@ == old(self)@.reverse(),
    {
        let mut prev: Option<Box<Node<T>>> = None;
        let mut current = self.head.take();
        let ghost all = old(self)@;
        let ghost mut moved: int = 0;
        loop
            invariant
                0 <= moved <= all.len(),
                items(current) == all.skip(moved),
                items(prev) == all.take(moved).reverse(),
            ensures
                items(prev) == all.reverse(),
            decreases items(current).len(),
        {
            match current {
                None => {
                    proof {
                        assert(all.take(moved) =~= all);
                    }
                    break ;
                },
                Some(mut node) => {
                    proof {
                        assert(items(current) == seq![node.data] + items(node.next));
                        assert(all.skip(moved).len() >= 1);
                        assert(all.skip(moved)[0] == node.data);
                        assert(items(node.next) =~= all.skip(moved).drop_first());
                        assert(all.skip(moved).drop_first() =~= all.skip(moved + 1));
                    }
                    let next = node.next.take();
                    proof {
                        assert(seq![node.data] + all.take(moved).reverse() =~= all.take(
                            moved + 1,
                        ).reverse());
                    }
                    node.next = prev;
                    prev = Some(node);
                    current = next;
                    proof {
                        moved = moved + 1;
                    }
                },
            }
        }
        self.head = prev;
    }
}

} // verus!
