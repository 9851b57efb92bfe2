//! The stored form of a counted set: a run of entries in ascending key order,
//! together with the multiset that such a run stands for.

use crate::counted_set::Key;
use vstd::multiset::Multiset;
use vstd::prelude::*;
use vstd::set_lib::lemma_set_subset_finite;

verus! {

/// One stored key together with the number of times it has been recorded.
#[derive(Clone, Copy, Debug)]
pub struct Entry {
    pub key: Key,
    pub count: usize,
}

/// Keys grow strictly from left to right, so no key is stored twice.
pub open spec fn strictly_ascending(s: Seq<Entry>) -> bool {
    forall|i: int, j: int| 0 <= i < j < s.len() ==> (#[trigger] s[i]).key < (#[trigger] s[j]).key
}

/// No entry records a count of zero.
pub open spec fn all_positive(s: Seq<Entry>) -> bool {
    forall|i: int| 0 <= i < s.len() ==> (#[trigger] s[i]).count >= 1
}

/// The representation invariant of a stored run.
pub open spec fn well_formed(s: Seq<Entry>) -> bool {
    strictly_ascending(s) && all_positive(s)
}

/// The multiplicity that the run `s` records for `key`: the counts of all
/// entries carrying that key, added up.
pub open spec fn tally(s: Seq<Entry>, key: Key) -> nat
    decreases s.len(),
{
    if s.len() == 0 {
        0
    } else if s.last().key == key {
        tally(s.drop_last(), key) + s.last().count as nat
    } else {
        tally(s.drop_last(), key)
    }
}

/// The keys to which `s` gives a nonzero multiplicity.
pub open spec fn support(s: Seq<Entry>) -> Set<Key> {
    Set::new(|k: Key| tally(s, k) > 0)
}

/// The multiset that the run `s` stands for.
pub open spec fn bag_of(s: Seq<Entry>) -> Multiset<Key> {
    Multiset::from_map(Map::new(|k: Key| support(s).contains(k), |k: Key| tally(s, k)))
}

/// `pos` is where `key` sits in `s`, or where it would have to be inserted.
pub open spec fn is_slot(s: Seq<Entry>, key: Key, pos: int) -> bool {
    &&& 0 <= pos <= s.len()
    &&& forall|i: int| 0 <= i < pos ==> (#[trigger] s[i]).key < key
    &&& forall|i: int| pos <= i < s.len() ==> (#[trigger] s[i]).key >= key
}

/// Appending an entry adds its count to the tally of its key and to no other.
pub proof fn lemma_tally_push(s: Seq<Entry>, e: Entry, key: Key)
    ensures
        tally(s.push(e), key) == tally(s, key) + (if e.key == key {
            e.count as nat
        } else {
            0
        }),
{
    assert(s.push(e).drop_last() =~= s);
}

/// A key that no entry carries has tally zero.
pub proof fn lemma_tally_absent(s: Seq<Entry>, key: Key)
    requires
        forall|i: int| 0 <= i < s.len() ==> (#[trigger] s[i]).key != key,
    ensures
        tally(s, key) == 0,
    decreases s.len(),
{
    if s.len() > 0 {
        lemma_tally_absent(s.drop_last(), key);
    }
}

/// A key with a nonzero tally is carried by some entry.
pub proof fn lemma_tally_present(s: Seq<Entry>, key: Key)
    requires
        tally(s, key) > 0,
    ensures
        exists|i: int| 0 <= i < s.len() && (#[trigger] s[i]).key == key,
{
    if forall|i: int| 0 <= i < s.len() ==> (#[trigger] s[i]).key != key {
        lemma_tally_absent(s, key);
    }
}

/// In an ascending run the tally of a stored key is the count of its one entry.
pub proof fn lemma_tally_at(s: Seq<Entry>, i: int)
    requires
        strictly_ascending(s),
        0 <= i < s.len(),
    ensures
        tally(s, s[i].key) == s[i].count,
    decreases s.len(),
{
    let key = s[i].key;
    let rest = s.drop_last();
    if i == s.len() - 1 {
        assert forall|j: int| 0 <= j < rest.len() implies (#[trigger] rest[j]).key != key by {
            assert(rest[j] == s[j]);
        }
        lemma_tally_absent(rest, key);
    } else {
        assert(rest[i] == s[i]);
        assert(s.last() == s[s.len() - 1]);
        lemma_tally_at(rest, i);
    }
}

/// What the slot of a key says about its tally.
pub proof fn lemma_tally_slot(s: Seq<Entry>, key: Key, pos: int)
    requires
        strictly_ascending(s),
        is_slot(s, key, pos),
    ensures
        tally(s, key) == (if pos < s.len() && s[pos].key == key {
            s[pos].count as nat
        } else {
            0
        }),
{
    if pos < s.len() && s[pos].key == key {
        lemma_tally_at(s, pos);
    } else {
        assert forall|i: int| 0 <= i < s.len() implies (#[trigger] s[i]).key != key by {
            if i >= pos {
                assert(s[pos].key >= key);
            }
        }
        lemma_tally_absent(s, key);
    }
}

/// Only finitely many keys have a nonzero tally.
pub proof fn lemma_support_finite(s: Seq<Entry>)
    ensures
        support(s).finite(),
    decreases s.len(),
{
    if s.len() == 0 {
        assert(support(s) =~= Set::empty());
    } else {
        let rest = s.drop_last();
        lemma_support_finite(rest);
        let bound = support(rest).insert(s.last().key);
        assert(support(s).subset_of(bound));
        lemma_set_subset_finite(bound, support(s));
    }
}

/// The multiset of a run counts every key as the tally does.
pub proof fn lemma_bag_counts(s: Seq<Entry>)
    ensures
        forall|k: Key| #[trigger] bag_of(s).count(k) == tally(s, k),
{
    lemma_support_finite(s);
    let m = Map::new(|k: Key| support(s).contains(k), |k: Key| tally(s, k));
    assert(m.dom() =~= support(s));
    assert forall|k: Key| #[trigger] bag_of(s).count(k) == tally(s, k) by {
        if m.dom().contains(k) {
            assert(m[k] == tally(s, k));
        }
    }
}

/// A well-formed run stores as many entries as its multiset has distinct keys.
pub proof fn lemma_bag_distinct(s: Seq<Entry>)
    requires
        well_formed(s),
    ensures
        bag_of(s).dom().len() == s.len(),
    decreases s.len(),
{
    lemma_bag_counts(s);
    if s.len() == 0 {
        assert(bag_of(s).dom() =~= Set::empty());
    } else {
        let rest = s.drop_last();
        let last = s.last();
        assert forall|j: int| 0 <= j < rest.len() implies (#[trigger] rest[j]).key != last.key by {
            assert(rest[j] == s[j]);
            assert(last == s[s.len() - 1]);
        }
        lemma_tally_absent(rest, last.key);
        lemma_bag_counts(rest);
        lemma_bag_distinct(rest);
        assert(bag_of(s).dom() =~= bag_of(rest).dom().insert(last.key));
    }
}

/// Changing the count of the entry at `pos` changes the tally of its key and
/// of no other.
pub proof fn lemma_recount(s: Seq<Entry>, pos: int, count: usize)
    requires
        strictly_ascending(s),
        0 <= pos < s.len(),
    ensures
        strictly_ascending(s.update(pos, Entry { key: s[pos].key, count })),
        forall|k: Key| #[trigger]
            tally(s.update(pos, Entry { key: s[pos].key, count }), k) == (if k == s[pos].key {
                count as nat
            } else {
                tally(s, k)
            }),
{
    let t = s.update(pos, Entry { key: s[pos].key, count });
    assert forall|i: int, j: int| 0 <= i < j < t.len() implies (#[trigger] t[i]).key < (
    #[trigger] t[j]).key by {
        assert(t[i].key == s[i].key && t[j].key == s[j].key);
    }
    assert forall|k: Key| #[trigger]
        tally(t, k) == (if k == s[pos].key {
            count as nat
        } else {
            tally(s, k)
        }) by {
        if k == s[pos].key {
            lemma_tally_at(t, pos);
        } else if tally(s, k) > 0 {
            lemma_tally_present(s, k);
            let i = choose|i: int| 0 <= i < s.len() && (#[trigger] s[i]).key == k;
            assert(t[i] == s[i]);
            lemma_tally_at(s, i);
            lemma_tally_at(t, i);
        } else if tally(t, k) > 0 {
            lemma_tally_present(t, k);
            let i = choose|i: int| 0 <= i < t.len() && (#[trigger] t[i]).key == k;
            assert(t[i] == s[i]);
            lemma_tally_at(s, i);
            lemma_tally_at(t, i);
        }
    }
}

/// Inserting an entry at the slot of a key that is not stored yet sets the
/// tally of that key and of no other.
pub proof fn lemma_insert_entry(s: Seq<Entry>, pos: int, e: Entry)
    requires
        strictly_ascending(s),
        is_slot(s, e.key, pos),
        pos < s.len() ==> s[pos].key != e.key,
    ensures
        strictly_ascending(s.insert(pos, e)),
        forall|k: Key| #[trigger]
            tally(s.insert(pos, e), k) == (if k == e.key {
                e.count as nat
            } else {
                tally(s, k)
            }),
{
    let t = s.insert(pos, e);
    assert forall|i: int, j: int| 0 <= i < j < t.len() implies (#[trigger] t[i]).key < (
    #[trigger] t[j]).key by {
        if i < pos {
            assert(t[i] == s[i]);
        } else if i > pos {
            assert(t[i] == s[i - 1]);
        }
        if j < pos {
            assert(t[j] == s[j]);
        } else if j > pos {
            assert(t[j] == s[j - 1]);
        }
    }
    assert forall|k: Key| #[trigger]
        tally(t, k) == (if k == e.key {
            e.count as nat
        } else {
            tally(s, k)
        }) by {
        if k == e.key {
            assert(t[pos] == e);
            lemma_tally_at(t, pos);
        } else if tally(s, k) > 0 {
            lemma_tally_present(s, k);
            let i = choose|i: int| 0 <= i < s.len() && (#[trigger] s[i]).key == k;
            let moved = if i < pos {
                i
            } else {
                i + 1
            };
            assert(t[moved] == s[i]);
            lemma_tally_at(s, i);
            lemma_tally_at(t, moved);
        } else if tally(t, k) > 0 {
            lemma_tally_present(t, k);
            let i = choose|i: int| 0 <= i < t.len() && (#[trigger] t[i]).key == k;
            let origin = if i < pos {
                i
            } else {
                i - 1
            };
            assert(t[pos] == e);
            assert(t[i] == s[origin]);
            lemma_tally_at(s, origin);
            lemma_tally_at(t, i);
        }
    }
}

/// Taking the entry at `pos` out of the run sets the tally of its key to zero
/// and changes no other.
pub proof fn lemma_remove_entry(s: Seq<Entry>, pos: int)
    requires
        strictly_ascending(s),
        0 <= pos < s.len(),
    ensures
        strictly_ascending(s.remove(pos)),
        forall|k: Key| #[trigger]
            tally(s.remove(pos), k) == (if k == s[pos].key {
                0
            } else {
                tally(s, k)
            }),
{
    let t = s.remove(pos);
    assert forall|i: int| 0 <= i < t.len() implies #[trigger] t[i] == s[if i < pos {
        i
    } else {
        i + 1
    }] by {}
    assert forall|k: Key| #[trigger]
        tally(t, k) == (if k == s[pos].key {
            0
        } else {
            tally(s, k)
        }) by {
        if tally(t, k) > 0 {
            lemma_tally_present(t, k);
            let i = choose|i: int| 0 <= i < t.len() && (#[trigger] t[i]).key == k;
            let origin = if i < pos {
                i
            } else {
                i + 1
            };
            assert(t[i] == s[origin]);
            lemma_tally_at(s, origin);
            lemma_tally_at(t, i);
        } else if k != s[pos].key && tally(s, k) > 0 {
            lemma_tally_present(s, k);
            let i = choose|i: int| 0 <= i < s.len() && (#[trigger] s[i]).key == k;
            let moved = if i < pos {
                i
            } else {
                i - 1
            };
            assert(t[moved] == s[i]);
            lemma_tally_at(s, i);
            lemma_tally_at(t, moved);
        }
    }
}

/// Finds the slot of `key` by bisection.
pub fn locate(entries: &Vec<Entry>, key: Key) -> (pos: usize)
    requires
        strictly_ascending(entries@),
    ensures
        is_slot(entries@, key, pos as int),
{
    let mut low: usize = 0;
    let mut high: usize = entries.len();
    while low < high
        invariant
            low <= high <= entries@.len(),
            strictly_ascending(entries@),
            forall|i: int| 0 <= i < low ==> (#[trigger] entries@[i]).key < key,
            forall|i: int| high <= i < entries@.len() ==> (#[trigger] entries@[i]).key >= key,
        decreases high - low,
    {
        let middle = low + (high - low) / 2;
        if entries[middle].key < key {
            low = middle + 1;
        } else {
            high = middle;
        }
    }
    low
}

} // verus!
