use std::collections::VecDeque;
use vstd::prelude::*;
use vstd::std_specs::cmp::PartialEqSpec;

verus! {

/// A list that grows and shrinks at both ends; its front is its head.
pub struct DoubleLinkedList<T> {
    items: VecDeque<T>,
}

/// The index of the first value of `s` that equals `value`, or the length of
/// `s` where none does.
pub open spec fn position<T: PartialEq>(s: Seq<T>, value: T) -> int
    decreases s.len(),
{
    if s.len() == 0 {
        0
    } else if s[0].eq_spec(&value) {
        0
    } else {
        1 + position(s.drop_first(), value)
    }
}

/// `position` is the least index at which an equal value stands.
pub proof fn lemma_position<T: PartialEq>(s: Seq<T>, value: T, i: int)
    requires
        0 <= i <= s.len(),
        forall|j: int| 0 <= j < i ==> !(#[trigger] s[j]).eq_spec(&value),
        i < s.len() ==> s[i].eq_spec(&value),
    ensures
        position(s, value) == i,
    decreases s.len(),
{
    if s.len() > 0 && i > 0 {
        assert(!s[0].eq_spec(&value));
        let rest = s.drop_first();
        assert forall|j: int| 0 <= j < i - 1 implies !(#[trigger] rest[j]).eq_spec(&value) by {
            assert(rest[j] == s[j + 1]);
        }
        lemma_position(rest, value, i - 1);
    }
}

impl<T> View for DoubleLinkedList<T> {
    type V = Seq<T>;

    open spec fn view(&self) -> Seq<T> {
        self.contents()
    }
}

impl<T> DoubleLinkedList<T> {
    /// The values of the list, the front first.
    pub closed spec fn contents(&self) -> Seq<T> {
        self.items@
    }

    /// An empty list.
    pub fn new() -> (list: Self)
        ensures
            list@ == Seq::<T>::empty(),
    {
        Self { items: VecDeque::new() }
    }

    /// Adds a value at the front.
    pub fn push(&mut self, data: T)
        ensures
            final(self)@ == seq![data] + old(self)@,
    {
        self.items.push_front(data);
    }

    /// Adds a value at the back.
    pub fn push_end(&mut self, data: T)
        ensures
            final(self)@ == old(self)@.push(data),
    {
        self.items.push_back(data);
    }

    /// Takes the value at the front, if there is one.
    pub fn pop(&mut self) -> (front: Option<T>)
        ensures
            old(self)@.len() == 0 ==> front is None && final(self)@ == old(self)@,
            old(self)@.len() > 0 ==> front == Some(old(self)@[0]) && final(self)@ == old(
                self,
            )@.drop_first(),
    {
        self.items.pop_front()
    }

    /// Takes the value at the back, if there is one.
    pub fn pop_end(&mut self) -> (back: Option<T>)
        ensures
            old(self)@.len() == 0 ==> back is None && final(self)@ == old(self)@,
            old(self)@.len() > 0 ==> back == Some(old(self)@.last()) && final(self)@ == old(
                self,
            )@.drop_last(),
    {
        self.items.pop_back()
    }

    /// The number of values.
    pub fn len(&self) -> (n: usize)
        ensures
            n == self@.len(),
    {
        self.items.len()
    }

    /// Empties the list.
    pub fn clear(&mut self)
        ensures
            final(self)@ == Seq::<T>::empty(),
    {
        self.items.clear();
    }

    /// Turns the list round.
    pub fn reverse(&mut self)
        ensures
            final(self)@ == old(self)@.reverse(),
    {
        let ghost all = self@;
        let mut turned: VecDeque<T> = VecDeque::new();
        loop
            invariant
                self.items@.len() <= all.len(),
                self.items@ == all.skip(all.len() - self.items@.len()),
                turned@ == all.take(all.len() - self.items@.len()).reverse(),
            ensures
                turned@ == all.reverse(),
            decreases self.items@.len(),
        {
            let ghost moved = all.len() - self.items@.len();
            match self.items.pop_front() {
                None => {
                    proof {
                        assert(all.take(moved) =~= all);
                    }
                    break ;
                },
                Some(value) => {
                    turned.push_front(value);
                    proof {
                        assert(all.skip(moved).subrange(1, all.len() - moved) =~= all.skip(
                            moved + 1,
                        ));
                        assert(seq![value] + all.take(moved).reverse() =~= all.take(
                            moved + 1,
                        ).reverse());
                    }
                },
            }
        }
        self.items = turned;
    }
}

impl<T: PartialEq> DoubleLinkedList<T> {
    /// Whether some value of the list equals `value`.
    pub fn has(&self, value: &T) -> (found: bool)
        ensures
            T::obeys_eq_spec() ==> found == (position(self@, *value) < self@.len()),
            vstd::laws_eq::obeys_concrete_eq::<T>() ==> found == self@.contains(*value),
    {
        let n = self.items.len();
        let mut i: usize = 0;
        while i < n
            invariant
                n == self@.len(),
                i <= n,
                T::obeys_eq_spec() ==> forall|j: int|
                    0 <= j < i ==> !(#[trigger] self@[j]).eq_spec(value),
            decreases n - i,
        {
            if self.items[i] == *value {
                proof {
                    reveal(vstd::laws_eq::obeys_concrete_eq);
                    if T::obeys_eq_spec() {
                        lemma_position(self@, *value, i as int);
                    }
                }
                return true;
            }
            i += 1;
        }
        proof {
            reveal(vstd::laws_eq::obeys_concrete_eq);
            if T::obeys_eq_spec() {
                lemma_position(self@, *value, n as int);
            }
            if vstd::laws_eq::obeys_concrete_eq::<T>() && self@.contains(*value) {
                let k = choose|k: int| 0 <= k < self@.len() && self@[k] == *value;
                assert(self@[k].eq_spec(value));
            }
        }
        false
    }

    /// Takes out the first value that equals `value`, and says whether there
    /// was one.
    pub fn remove_val(&mut self, value: &T) -> (removed: bool)
        ensures
            !removed ==> final(self)@ == old(self)@,
            removed ==> final(self)@.len() + 1 == old(self)@.len(),
            T::obeys_eq_spec() ==> removed == (position(old(self)@, *value) < old(self)@.len()),
            T::obeys_eq_spec() && removed ==> final(self)@ == old(self)@.remove(
                position(old(self)@, *value),
            ),
    {
        let n = self.items.len();
        let mut i: usize = 0;
        while i < n
            invariant
                n == self@.len(),
                self@ == old(self)@,
                i <= n,
                T::obeys_eq_spec() ==> forall|j: int|
                    0 <= j < i ==> !(#[trigger] self@[j]).eq_spec(value),
            decreases n - i,
        {
            if self.items[i] == *value {
                proof {
                    if T::obeys_eq_spec() {
                        lemma_position(self@, *value, i as int);
                    }
                }
                self.remove_node(i);
                return true;
            }
            i += 1;
        }
        proof {
            if T::obeys_eq_spec() {
                lemma_position(self@, *value, n as int);
            }
        }
        false
    }

    /// Unlinks the value at `index`.
    fn remove_node(&mut self, index: usize)
        requires
            index < old(self)@.len(),
        ensures
            final(self)@ == old(self)@.remove(index as int),
    {
        let _ = self.items.remove(index);
    }
}

} // verus!
