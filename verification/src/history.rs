use vstd::prelude::*;

verus! {

/// One change asked of a set: what `insert` and `remove` of a tree do to the
/// set of its values.
pub enum Change<T> {
    Insert(T),
    Remove(T),
}

/// The set after one change.
pub open spec fn apply<T>(s: Set<T>, change: Change<T>) -> Set<T> {
    match change {
        Change::Insert(v) => s.insert(v),
        Change::Remove(v) => s.remove(v),
    }
}

/// Whether a change alters the set: an insertion of a value that is absent,
/// a removal of one that is present.
pub open spec fn succeeds<T>(s: Set<T>, change: Change<T>) -> bool {
    match change {
        Change::Insert(v) => !s.contains(v),
        Change::Remove(v) => s.contains(v),
    }
}

/// The set that a sequence of changes leaves of the empty set.
pub open spec fn replay<T>(changes: Seq<Change<T>>) -> Set<T>
    decreases changes.len(),
{
    if changes.len() == 0 {
        Set::empty()
    } else {
        apply(replay(changes.drop_last()), changes.last())
    }
}

/// How many insertions among the changes altered the set.
pub open spec fn inserted<T>(changes: Seq<Change<T>>) -> nat
    decreases changes.len(),
{
    if changes.len() == 0 {
        0
    } else {
        inserted(changes.drop_last()) + if changes.last() is Insert && succeeds(
            replay(changes.drop_last()),
            changes.last(),
        ) {
            1nat
        } else {
            0nat
        }
    }
}

/// How many removals among the changes altered the set.
pub open spec fn removed<T>(changes: Seq<Change<T>>) -> nat
    decreases changes.len(),
{
    if changes.len() == 0 {
        0
    } else {
        removed(changes.drop_last()) + if changes.last() is Remove && succeeds(
            replay(changes.drop_last()),
            changes.last(),
        ) {
            1nat
        } else {
            0nat
        }
    }
}

/// How many insertions of `v` among the changes altered the set.
pub open spec fn inserted_of<T>(changes: Seq<Change<T>>, v: T) -> nat
    decreases changes.len(),
{
    if changes.len() == 0 {
        0
    } else {
        inserted_of(changes.drop_last(), v) + if changes.last() == Change::Insert(v) && succeeds(
            replay(changes.drop_last()),
            changes.last(),
        ) {
            1nat
        } else {
            0nat
        }
    }
}

/// How many removals of `v` among the changes altered the set.
pub open spec fn removed_of<T>(changes: Seq<Change<T>>, v: T) -> nat
    decreases changes.len(),
{
    if changes.len() == 0 {
        0
    } else {
        removed_of(changes.drop_last(), v) + if changes.last() == Change::Remove(v) && succeeds(
            replay(changes.drop_last()),
            changes.last(),
        ) {
            1nat
        } else {
            0nat
        }
    }
}

/// The set that inserting the values one after the other leaves of the empty
/// set.
pub open spec fn filled<T>(values: Seq<T>) -> Set<T>
    decreases values.len(),
{
    if values.len() == 0 {
        Set::empty()
    } else {
        filled(values.drop_last()).insert(values.last())
    }
}

/// A value is in the set exactly when it was inserted once more than it was
/// removed, counting only the changes that altered the set.
pub proof fn lemma_membership<T>(changes: Seq<Change<T>>, v: T)
    ensures
        replay(changes).contains(v) ==> inserted_of(changes, v) == removed_of(changes, v) + 1,
        !replay(changes).contains(v) ==> inserted_of(changes, v) == removed_of(changes, v),
    decreases changes.len(),
{
    if changes.len() > 0 {
        lemma_membership(changes.drop_last(), v);
    }
}

/// The set is finite, and its size is the number of insertions that altered
/// it less the number of removals that did.
pub proof fn lemma_size<T>(changes: Seq<Change<T>>)
    ensures
        replay(changes).finite(),
        replay(changes).len() + removed(changes) == inserted(changes),
    decreases changes.len(),
{
    if changes.len() > 0 {
        lemma_size(changes.drop_last());
    }
}

/// Inserting values leaves the set of the values.
pub proof fn lemma_filled<T>(values: Seq<T>)
    ensures
        filled(values) == values.to_set(),
    decreases values.len(),
{
    if values.len() == 0 {
        assert(filled(values) =~= values.to_set());
    } else {
        let front = values.drop_last();
        lemma_filled(front);
        assert forall|x: T| values.to_set().contains(x) <==> front.to_set().insert(
            values.last(),
        ).contains(x) by {
            if values.contains(x) {
                let i = choose|i: int| 0 <= i < values.len() && values[i] == x;
                if i < values.len() - 1 {
                    assert(front[i] == x);
                }
            }
            if front.contains(x) {
                let i = choose|i: int| 0 <= i < front.len() && front[i] == x;
                assert(values[i] == x);
            }
            assert(values[values.len() - 1] == values.last());
        }
        assert(filled(values) =~= values.to_set());
    }
}

/// Inserting the same values in another order leaves the same set.
pub proof fn lemma_order_of_insertion<T>(a: Seq<T>, b: Seq<T>)
    requires
        a.to_multiset() == b.to_multiset(),
    ensures
        filled(a) == filled(b),
{
    lemma_filled(a);
    lemma_filled(b);
    broadcast use vstd::seq_lib::group_to_multiset_ensures;

    assert forall|x: T| a.to_set().contains(x) <==> b.to_set().contains(x) by {
        assert(a.contains(x) <==> a.to_multiset().count(x) > 0);
        assert(b.contains(x) <==> b.to_multiset().count(x) > 0);
    }
    assert(a.to_set() =~= b.to_set());
}

} // verus!
