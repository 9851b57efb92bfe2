//! Ranked extraction: the stored entries ordered by falling count.

use crate::counted_set::{ranks, Key};
use crate::entry::{
    bag_of, lemma_bag_counts, lemma_tally_at, lemma_tally_present, well_formed, Entry,
};
use vstd::multiset::Multiset;
use vstd::prelude::*;
use vstd::seq_lib::lemma_multiset_commutative;

verus! {

/// Counts never rise from left to right.
pub open spec fn descending(s: Seq<Entry>) -> bool {
    forall|i: int, j: int|
        0 <= i < j < s.len() ==> (#[trigger] s[i]).count >= (#[trigger] s[j]).count
}

/// Every count in `s` is at least `floor`.
pub open spec fn counts_at_least(s: Seq<Entry>, floor: usize) -> bool {
    forall|i: int| 0 <= i < s.len() ==> (#[trigger] s[i]).count >= floor
}

/// Appending an entry whose count no earlier entry falls below keeps the run
/// descending.
proof fn lemma_push_descending(s: Seq<Entry>, e: Entry)
    requires
        descending(s),
        counts_at_least(s, e.count),
    ensures
        descending(s.push(e)),
{
    let t = s.push(e);
    assert forall|i: int, j: int| 0 <= i < j < t.len() implies (#[trigger] t[i]).count >= (
    #[trigger] t[j]).count by {
        assert(t[i] == s[i]);
        if j < s.len() {
            assert(t[j] == s[j]);
        }
    }
}

/// Appending an entry that is at least `floor` keeps a run at least `floor`.
proof fn lemma_push_at_least(s: Seq<Entry>, e: Entry, floor: usize)
    requires
        counts_at_least(s, e.count),
        e.count >= floor,
    ensures
        counts_at_least(s.push(e), floor),
{
    let t = s.push(e);
    assert forall|i: int| 0 <= i < t.len() implies (#[trigger] t[i]).count >= floor by {
        if i < s.len() {
            assert(t[i] == s[i]);
        }
    }
}

/// The empty run holds no entry.
proof fn lemma_empty_to_multiset()
    ensures
        Seq::<Entry>::empty().to_multiset() == Multiset::<Entry>::empty(),
{
    let none = Seq::<Entry>::empty();
    none.to_multiset_ensures();
    assert forall|e: Entry| none.to_multiset().count(e) == 0 by {
        assert(!none.contains(e));
    }
    assert(none.to_multiset() =~= Multiset::<Entry>::empty());
}

/// Merges two descending runs into one. Of two entries with equal counts the
/// one from `left` comes first.
pub fn merge_by_count(left: &Vec<Entry>, right: &Vec<Entry>) -> (out: Vec<Entry>)
    requires
        descending(left@),
        descending(right@),
    ensures
        descending(out@),
        out@.to_multiset() == left@.to_multiset().add(right@.to_multiset()),
{
    let mut out: Vec<Entry> = Vec::new();
    let mut i: usize = 0;
    let mut j: usize = 0;
    proof {
        lemma_empty_to_multiset();
        assert(left@.take(0) =~= Seq::<Entry>::empty());
        assert(right@.take(0) =~= Seq::<Entry>::empty());
        assert(out@ =~= Seq::<Entry>::empty());
    }
    while i < left.len() || j < right.len()
        invariant
            0 <= i <= left@.len(),
            0 <= j <= right@.len(),
            descending(left@),
            descending(right@),
            descending(out@),
            i < left@.len() ==> counts_at_least(out@, left@[i as int].count),
            j < right@.len() ==> counts_at_least(out@, right@[j as int].count),
            out@.to_multiset() == left@.take(i as int).to_multiset().add(
                right@.take(j as int).to_multiset(),
            ),
        decreases left@.len() - i + (right@.len() - j),
    {
        let ghost before = out@;
        if j >= right.len() || (i < left.len() && left[i].count >= right[j].count) {
            let e = left[i];
            proof {
                lemma_push_descending(before, e);
                assert(left@.take(i + 1) =~= left@.take(i as int).push(e));
                before.to_multiset_ensures();
                left@.take(i as int).to_multiset_ensures();
                assert(before.push(e).to_multiset() =~= left@.take(i + 1).to_multiset().add(
                    right@.take(j as int).to_multiset(),
                ));
                if i + 1 < left@.len() {
                    assert(left@[i as int].count >= left@[i + 1].count);
                    lemma_push_at_least(before, e, left@[i + 1].count);
                }
                if j < right@.len() {
                    lemma_push_at_least(before, e, right@[j as int].count);
                }
            }
            out.push(e);
            i = i + 1;
        } else {
            let e = right[j];
            proof {
                lemma_push_descending(before, e);
                assert(right@.take(j + 1) =~= right@.take(j as int).push(e));
                before.to_multiset_ensures();
                right@.take(j as int).to_multiset_ensures();
                assert(before.push(e).to_multiset() =~= left@.take(i as int).to_multiset().add(
                    right@.take(j + 1).to_multiset(),
                ));
                if j + 1 < right@.len() {
                    assert(right@[j as int].count >= right@[j + 1].count);
                    lemma_push_at_least(before, e, right@[j + 1].count);
                }
                if i < left@.len() {
                    lemma_push_at_least(before, e, left@[i as int].count);
                }
            }
            out.push(e);
            j = j + 1;
        }
    }
    proof {
        assert(left@.take(i as int) =~= left@);
        assert(right@.take(j as int) =~= right@);
    }
    out
}

/// Orders the entries of `run` by falling count with a merge sort.
pub fn sort_by_count(run: Vec<Entry>) -> (out: Vec<Entry>)
    ensures
        descending(out@),
        out@.to_multiset() == run@.to_multiset(),
    decreases run@.len(),
{
    if run.len() <= 1 {
        return run;
    }
    let ghost whole = run@;
    let mut front = run;
    let middle = front.len() / 2;
    let back = front.split_off(middle);
    proof {
        assert(whole =~= front@ + back@);
        lemma_multiset_commutative(front@, back@);
    }
    let front = sort_by_count(front);
    let back = sort_by_count(back);
    merge_by_count(&front, &back)
}

/// Two runs with the same multiset of entries hold the same entries.
proof fn lemma_same_entries(a: Seq<Entry>, b: Seq<Entry>, e: Entry)
    requires
        a.to_multiset() == b.to_multiset(),
    ensures
        a.contains(e) <==> b.contains(e),
{
    a.to_multiset_ensures();
    b.to_multiset_ensures();
    assert(a.contains(e) <==> a.to_multiset().count(e) > 0);
    assert(b.contains(e) <==> b.to_multiset().count(e) > 0);
}

/// The keys of a reordering of a well-formed run, read off in order, rank the
/// multiset of that run.
pub proof fn lemma_reordered_keys_rank(stored: Seq<Entry>, sorted: Seq<Entry>, keys: Seq<Key>)
    requires
        well_formed(stored),
        descending(sorted),
        sorted.to_multiset() == stored.to_multiset(),
        keys.len() == sorted.len(),
        forall|i: int| 0 <= i < keys.len() ==> #[trigger] keys[i] == sorted[i].key,
    ensures
        ranks(keys, bag_of(stored)),
{
    let bag = bag_of(stored);
    lemma_bag_counts(stored);
    stored.to_multiset_ensures();
    sorted.to_multiset_ensures();
    assert(stored.no_duplicates()) by {
        assert forall|x: int, y: int|
            0 <= x < stored.len() && 0 <= y < stored.len() && x != y implies stored[x]
            != stored[y] by {
            if x < y {
                assert(stored[x].key < stored[y].key);
            } else {
                assert(stored[y].key < stored[x].key);
            }
        }
    }
    stored.lemma_multiset_has_no_duplicates();
    sorted.lemma_multiset_has_no_duplicates_conv();
    // Every sorted entry is a stored entry, so its count is the count of its key.
    assert forall|i: int| 0 <= i < sorted.len() implies bag.count(#[trigger] keys[i])
        == sorted[i].count && sorted[i].count >= 1 by {
        lemma_same_entries(stored, sorted, sorted[i]);
        assert(sorted.contains(sorted[i]));
        let x = choose|x: int| 0 <= x < stored.len() && stored[x] == sorted[i];
        lemma_tally_at(stored, x);
    }
    assert(keys.no_duplicates()) by {
        assert forall|i: int, j: int|
            0 <= i < keys.len() && 0 <= j < keys.len() && i != j implies keys[i] != keys[j] by {
            if keys[i] == keys[j] {
                assert(stored.contains(sorted[i]) && stored.contains(sorted[j])) by {
                    lemma_same_entries(stored, sorted, sorted[i]);
                    lemma_same_entries(stored, sorted, sorted[j]);
                    assert(sorted.contains(sorted[i]));
                    assert(sorted.contains(sorted[j]));
                }
                let x = choose|x: int| 0 <= x < stored.len() && stored[x] == sorted[i];
                let y = choose|y: int| 0 <= y < stored.len() && stored[y] == sorted[j];
                if x < y {
                    assert(stored[x].key < stored[y].key);
                } else if y < x {
                    assert(stored[y].key < stored[x].key);
                }
                assert(sorted[i] == sorted[j]);
            }
        }
    }
    assert forall|k: Key| keys.contains(k) <==> bag.contains(k) by {
        if keys.contains(k) {
            let i = choose|i: int| 0 <= i < keys.len() && keys[i] == k;
            assert(bag.count(keys[i]) >= 1);
        }
        if bag.contains(k) {
            lemma_tally_present(stored, k);
            let x = choose|x: int| 0 <= x < stored.len() && (#[trigger] stored[x]).key == k;
            lemma_same_entries(stored, sorted, stored[x]);
            assert(stored.contains(stored[x]));
            let i = choose|i: int| 0 <= i < sorted.len() && sorted[i] == stored[x];
            assert(keys[i] == k);
        }
    }
    assert forall|i: int, j: int| 0 <= i < j < keys.len() implies bag.count(keys[i]) >= bag.count(
        keys[j],
    ) by {
        assert(sorted[i].count >= sorted[j].count);
    }
}

} // verus!
