//! Laws of the counted set, stated over the multisets that the operations'
//! contracts speak of.

use crate::counted_set::{shared, without, Key};
use vstd::multiset::Multiset;
use vstd::prelude::*;

verus! {

/// `bag` after `key` has been inserted `times` times.
pub open spec fn insert_times(bag: Multiset<Key>, key: Key, times: nat) -> Multiset<Key>
    decreases times,
{
    if times == 0 {
        bag
    } else {
        insert_times(bag, key, (times - 1) as nat).insert(key)
    }
}

/// `bag` after `key` has been removed `times` times, one occurrence at a time.
pub open spec fn remove_times(bag: Multiset<Key>, key: Key, times: nat) -> Multiset<Key>
    decreases times,
{
    if times == 0 {
        bag
    } else {
        remove_times(bag, key, (times - 1) as nat).remove(key)
    }
}

/// Inserting a key `times` times raises its count by `times` and changes the
/// count of no other key.
pub proof fn law_insert_times_counts(bag: Multiset<Key>, key: Key, times: nat, other: Key)
    ensures
        insert_times(bag, key, times).count(key) == bag.count(key) + times,
        other != key ==> insert_times(bag, key, times).count(other) == bag.count(other),
    decreases times,
{
    if times > 0 {
        law_insert_times_counts(bag, key, (times - 1) as nat, other);
    }
}

/// Removing a key `times` times lowers its count by `times`, stopping at
/// zero, and changes the count of no other key.
pub proof fn law_remove_times_counts(bag: Multiset<Key>, key: Key, times: nat, other: Key)
    ensures
        remove_times(bag, key, times).count(key) == (if bag.count(key) >= times {
            (bag.count(key) - times) as nat
        } else {
            0
        }),
        other != key ==> remove_times(bag, key, times).count(other) == bag.count(other),
    decreases times,
{
    if times > 0 {
        law_remove_times_counts(bag, key, (times - 1) as nat, other);
    }
}

/// A set that starts empty and has one key inserted `times` times counts that
/// key `times` times and, once the key is in, holds exactly one distinct key,
/// however large `times` is.
pub proof fn law_repeated_insert(key: Key, times: nat)
    ensures
        insert_times(Multiset::empty(), key, times).count(key) == times,
        times >= 1 ==> insert_times(Multiset::empty(), key, times).dom().len() == 1,
        times == 0 ==> insert_times(Multiset::empty(), key, times).dom().len() == 0,
{
    let bag = insert_times(Multiset::empty(), key, times);
    law_insert_times_counts(Multiset::empty(), key, times, key);
    if times >= 1 {
        assert forall|k: Key| bag.dom().contains(k) <==> k == key by {
            law_insert_times_counts(Multiset::empty(), key, times, k);
        }
        assert(bag.dom() =~= Set::<Key>::empty().insert(key));
    } else {
        assert(bag.dom() =~= Set::<Key>::empty());
    }
}

/// Removing a key that is not in the set changes nothing and leaves the count
/// of that key at zero.
pub proof fn law_remove_absent(bag: Multiset<Key>, key: Key)
    requires
        !bag.contains(key),
    ensures
        bag.remove(key) == bag,
        bag.remove(key).count(key) == 0,
        bag.count(key) == 0,
{
    assert(bag.remove(key) =~= bag);
}

/// Inserting a key any number of times and removing it as often gives back
/// the set as it was: every count, and with it the number of distinct keys.
pub proof fn law_insert_then_remove(bag: Multiset<Key>, key: Key, times: nat)
    ensures
        remove_times(insert_times(bag, key, times), key, times) == bag,
{
    let raised = insert_times(bag, key, times);
    let back = remove_times(raised, key, times);
    assert forall|k: Key| back.count(k) == bag.count(k) by {
        law_insert_times_counts(bag, key, times, k);
        law_remove_times_counts(raised, key, times, k);
    }
    assert(back =~= bag);
}

/// However often a key was inserted, taking it out wholesale finds it
/// present, leaves it absent and every other key untouched; taking it out
/// again finds nothing and changes nothing.
pub proof fn law_remove_all_once(bag: Multiset<Key>, key: Key, times: nat, other: Key)
    requires
        times >= 1,
    ensures
        insert_times(bag, key, times).contains(key),
        !without(insert_times(bag, key, times), key).contains(key),
        other != key ==> without(insert_times(bag, key, times), key).count(other) == bag.count(
            other,
        ),
        without(without(insert_times(bag, key, times), key), key) == without(
            insert_times(bag, key, times),
            key,
        ),
{
    let raised = insert_times(bag, key, times);
    law_insert_times_counts(bag, key, times, other);
    assert(without(without(raised, key), key) =~= without(raised, key));
}

/// Taking a key out wholesale sets its count to zero and changes the count of
/// no other key.
pub proof fn law_without_counts(bag: Multiset<Key>, key: Key, other: Key)
    ensures
        without(bag, key).count(key) == 0,
        other != key ==> without(bag, key).count(other) == bag.count(other),
{
}

/// After a union every key counts as often as in both operands together.
pub proof fn law_union_adds(a: Multiset<Key>, b: Multiset<Key>, key: Key)
    ensures
        a.add(b).count(key) == a.count(key) + b.count(key),
        a.add(b).contains(key) <==> a.contains(key) || b.contains(key),
{
}

/// After an intersection a key that both operands hold counts as often as in
/// both together, and every other key is gone.
pub proof fn law_intersect_sums_shared(a: Multiset<Key>, b: Multiset<Key>, key: Key)
    ensures
        a.contains(key) && b.contains(key) ==> shared(a, b).count(key) == a.count(key) + b.count(
            key,
        ),
        !b.contains(key) ==> !shared(a, b).contains(key),
        !a.contains(key) ==> !shared(a, b).contains(key),
{
}

/// After a difference no count has gone below zero: a key keeps what is left
/// of its count, and a key with nothing left is gone.
pub proof fn law_minus_clamps(a: Multiset<Key>, b: Multiset<Key>, key: Key)
    ensures
        a.count(key) > b.count(key) ==> a.sub(b).count(key) == a.count(key) - b.count(key),
        a.count(key) <= b.count(key) ==> !a.sub(b).contains(key),
        !b.contains(key) ==> a.sub(b).count(key) == a.count(key),
{
}

} // verus!
