//! The counted multiset and its operations.

use crate::entry::{
    bag_of, lemma_bag_counts, lemma_bag_distinct, lemma_insert_entry, lemma_recount,
    lemma_remove_entry, lemma_tally_at, lemma_tally_slot, locate, tally, well_formed, Entry,
};
use crate::merge::{intersect_runs, minus_runs, union_runs};
use crate::rank::{lemma_reordered_keys_rank, sort_by_count};
use vstd::multiset::Multiset;
use vstd::prelude::*;

verus! {

/// The key domain: 64-bit signed integers. Every signature names the key type
/// through this alias rather than writing it out.
pub type Key = i64;

/// `bag` with every occurrence of `key` taken out.
pub open spec fn without(bag: Multiset<Key>, key: Key) -> Multiset<Key> {
    bag.filter(|k: Key| k != key)
}

/// The keys that both `a` and `b` hold, each with its counts in `a` and in `b`
/// added up.
pub open spec fn shared(a: Multiset<Key>, b: Multiset<Key>) -> Multiset<Key> {
    a.add(b).filter(|k: Key| a.contains(k) && b.contains(k))
}

/// `keys` lists every key of `bag` exactly once, and no key comes before one
/// with a higher count.
pub open spec fn ranks(keys: Seq<Key>, bag: Multiset<Key>) -> bool {
    &&& keys.no_duplicates()
    &&& forall|k: Key| keys.contains(k) <==> bag.contains(k)
    &&& forall|i: int, j: int| 0 <= i < j < keys.len() ==> bag.count(keys[i]) >= bag.count(keys[j])
}

/// A multiset of keys that remembers, for each key, how often it was inserted.
///
/// Its view is the mathematical multiset of the keys: the count of a key is the
/// multiplicity of that key in the view, and an absent key has multiplicity 0.
#[derive(Debug)]
pub struct CountedSet {
    entries: Vec<Entry>,
}

impl View for CountedSet {
    type V = Multiset<Key>;

    closed spec fn view(&self) -> Multiset<Key> {
        bag_of(self.entries@)
    }
}

impl CountedSet {
    #[verifier::type_invariant]
    spec fn stored_well(self) -> bool {
        well_formed(self.entries@)
    }

    /// Creates an empty set.
    pub fn new() -> (set: CountedSet)
        ensures
            set@ == Multiset::<Key>::empty(),
    {
        let set = CountedSet { entries: Vec::new() };
        proof {
            lemma_bag_counts(set.entries@);
            assert(set@ =~= Multiset::<Key>::empty());
        }
        set
    }

    /// The number of distinct keys in the set.
    pub fn len(&self) -> (n: usize)
        ensures
            n == self@.dom().len(),
    {
        proof {
            use_type_invariant(self);
            lemma_bag_distinct(self.entries@);
        }
        self.entries.len()
    }

    /// Whether the set holds no key at all.
    pub fn is_empty(&self) -> (empty: bool)
        ensures
            empty <==> self@.dom().len() == 0,
            empty <==> self@ =~= Multiset::<Key>::empty(),
    {
        proof {
            use_type_invariant(self);
            lemma_bag_counts(self.entries@);
            lemma_bag_distinct(self.entries@);
            if self.entries@.len() > 0 {
                lemma_tally_at(self.entries@, 0);
                assert(self@.count(self.entries@[0].key) >= 1);
            } else {
                assert(self@ =~= Multiset::<Key>::empty());
            }
        }
        self.entries.len() == 0
    }

    /// Whether `key` has been recorded at least once.
    pub fn contains(&self, key: Key) -> (present: bool)
        ensures
            present == self@.contains(key),
    {
        self.get_count(key) > 0
    }

    /// How often `key` has been recorded; 0 for a key that is not in the set.
    pub fn get_count(&self, key: Key) -> (count: usize)
        ensures
            count == self@.count(key),
    {
        proof {
            use_type_invariant(self);
            lemma_bag_counts(self.entries@);
        }
        let pos = locate(&self.entries, key);
        proof {
            lemma_tally_slot(self.entries@, key, pos as int);
        }
        if pos < self.entries.len() && self.entries[pos].key == key {
            self.entries[pos].count
        } else {
            0
        }
    }

    /// The keys of the set, each once, ordered by falling count. Keys with
    /// equal counts come in no particular order.
    pub fn to_vec(&self) -> (keys: Vec<Key>)
        ensures
            ranks(keys@, self@),
    {
        proof {
            use_type_invariant(self);
        }
        let stored = self.entries.clone();
        proof {
            assert(stored@ =~= self.entries@);
        }
        let sorted = sort_by_count(stored);
        let mut keys: Vec<Key> = Vec::with_capacity(sorted.len());
        let mut i: usize = 0;
        while i < sorted.len()
            invariant
                0 <= i <= sorted@.len(),
                keys@.len() == i,
                forall|x: int| 0 <= x < i ==> #[trigger] keys@[x] == sorted@[x].key,
            decreases sorted@.len() - i,
        {
            keys.push(sorted[i].key);
            i = i + 1;
        }
        proof {
            lemma_reordered_keys_rank(self.entries@, sorted@, keys@);
        }
        keys
    }

    /// Records `key` once more and returns its new count.
    ///
    /// The count is kept in a `usize`, so it must not already be at the top
    /// of that range.
    pub fn insert(&mut self, key: Key) -> (count: usize)
        requires
            old(self)@.count(key) < usize::MAX,
        ensures
            final(self)@ == old(self)@.insert(key),
            count == old(self)@.count(key) + 1,
    {
        proof {
            use_type_invariant(&*self);
        }
        let pos = locate(&self.entries, key);
        let mut entries: Vec<Entry> = Vec::new();
        std::mem::swap(&mut entries, &mut self.entries);
        let ghost before = entries@;
        proof {
            lemma_bag_counts(before);
            lemma_tally_slot(before, key, pos as int);
        }
        let count = if pos < entries.len() && entries[pos].key == key {
            let raised = entries[pos].count + 1;
            entries[pos] = Entry { key, count: raised };
            proof {
                lemma_recount(before, pos as int, raised);
            }
            raised
        } else {
            entries.insert(pos, Entry { key, count: 1 });
            proof {
                lemma_insert_entry(before, pos as int, Entry { key, count: 1 });
            }
            1
        };
        proof {
            lemma_bag_counts(entries@);
            assert(bag_of(entries@) =~= bag_of(before).insert(key));
        }
        self.entries = entries;
        count
    }

    /// Takes one occurrence of `key` out of the set and returns the count that
    /// is left. A key that is not in the set stays absent, and 0 is returned.
    pub fn remove(&mut self, key: Key) -> (count: usize)
        ensures
            final(self)@ == old(self)@.remove(key),
            count == final(self)@.count(key),
    {
        proof {
            use_type_invariant(&*self);
        }
        let pos = locate(&self.entries, key);
        let mut entries: Vec<Entry> = Vec::new();
        std::mem::swap(&mut entries, &mut self.entries);
        let ghost before = entries@;
        proof {
            lemma_bag_counts(before);
            lemma_tally_slot(before, key, pos as int);
        }
        let count = if pos < entries.len() && entries[pos].key == key {
            let lowered = entries[pos].count - 1;
            if lowered == 0 {
                entries.remove(pos);
                proof {
                    lemma_remove_entry(before, pos as int);
                }
            } else {
                entries[pos] = Entry { key, count: lowered };
                proof {
                    lemma_recount(before, pos as int, lowered);
                }
            }
            lowered
        } else {
            0
        };
        proof {
            lemma_bag_counts(entries@);
            assert(bag_of(entries@) =~= bag_of(before).remove(key));
        }
        self.entries = entries;
        count
    }

    /// Takes every occurrence of `key` out of the set in one step and says
    /// whether there was any.
    pub fn remove_all(&mut self, key: Key) -> (present: bool)
        ensures
            final(self)@ == without(old(self)@, key),
            present == old(self)@.contains(key),
    {
        proof {
            use_type_invariant(&*self);
        }
        let pos = locate(&self.entries, key);
        let mut entries: Vec<Entry> = Vec::new();
        std::mem::swap(&mut entries, &mut self.entries);
        let ghost before = entries@;
        proof {
            lemma_bag_counts(before);
            lemma_tally_slot(before, key, pos as int);
        }
        let present = pos < entries.len() && entries[pos].key == key;
        if present {
            entries.remove(pos);
            proof {
                lemma_remove_entry(before, pos as int);
            }
        }
        proof {
            lemma_bag_counts(entries@);
            assert(bag_of(entries@) =~= without(bag_of(before), key));
        }
        self.entries = entries;
        present
    }

    /// Takes every key out of the set.
    pub fn clear(&mut self)
        ensures
            final(self)@ == Multiset::<Key>::empty(),
    {
        let entries: Vec<Entry> = Vec::new();
        proof {
            lemma_bag_counts(entries@);
            assert(bag_of(entries@) =~= Multiset::<Key>::empty());
        }
        self.entries = entries;
    }

    /// Adds the counts of `other` to this set, key by key. A key that only
    /// `other` holds enters this set with the count it has there.
    ///
    /// Counts are kept in a `usize`, so no sum may leave that range.
    pub fn union(&mut self, other: &CountedSet)
        requires
            forall|k: Key| old(self)@.count(k) + other@.count(k) <= usize::MAX,
        ensures
            final(self)@ == old(self)@.add(other@),
    {
        proof {
            use_type_invariant(&*self);
            use_type_invariant(other);
            lemma_bag_counts(self.entries@);
            lemma_bag_counts(other.entries@);
            assert forall|k: Key|
                tally(self.entries@, k) + tally(other.entries@, k) <= usize::MAX by {
                assert(self@.count(k) + other@.count(k) <= usize::MAX);
            }
        }
        let merged = union_runs(&self.entries, &other.entries);
        proof {
            lemma_bag_counts(merged@);
            assert(bag_of(merged@) =~= bag_of(self.entries@).add(bag_of(other.entries@)));
        }
        self.entries = merged;
    }

    /// Keeps the keys that `other` holds too and adds the counts of `other`
    /// to theirs; every other key leaves this set. The counts are added, not
    /// reduced to the smaller of the two.
    ///
    /// Counts are kept in a `usize`, so no sum of a shared key may leave that
    /// range.
    pub fn intersect(&mut self, other: &CountedSet)
        requires
            forall|k: Key|
                old(self)@.contains(k) && other@.contains(k) ==> old(self)@.count(k)
                    + other@.count(k) <= usize::MAX,
        ensures
            final(self)@ == shared(old(self)@, other@),
    {
        proof {
            use_type_invariant(&*self);
            use_type_invariant(other);
            lemma_bag_counts(self.entries@);
            lemma_bag_counts(other.entries@);
            assert forall|k: Key|
                tally(self.entries@, k) > 0 && tally(other.entries@, k) > 0 implies tally(
                    self.entries@,
                    k,
                ) + tally(other.entries@, k) <= usize::MAX by {
                assert(self@.contains(k) && other@.contains(k));
            }
        }
        let merged = intersect_runs(&self.entries, &other.entries);
        proof {
            lemma_bag_counts(merged@);
            assert(bag_of(merged@) =~= shared(bag_of(self.entries@), bag_of(other.entries@)));
        }
        self.entries = merged;
    }

    /// Takes the counts of `other` off the counts of this set, key by key. A
    /// key whose count would drop to zero or below leaves the set.
    pub fn minus(&mut self, other: &CountedSet)
        ensures
            final(self)@ == old(self)@.sub(other@),
    {
        proof {
            use_type_invariant(&*self);
            use_type_invariant(other);
            lemma_bag_counts(self.entries@);
            lemma_bag_counts(other.entries@);
        }
        let merged = minus_runs(&self.entries, &other.entries);
        proof {
            lemma_bag_counts(merged@);
            assert(bag_of(merged@) =~= bag_of(self.entries@).sub(bag_of(other.entries@)));
        }
        self.entries = merged;
    }
}

impl Clone for CountedSet {
    /// An independent copy: it holds the same keys with the same counts and
    /// shares no storage with the set it was made from.
    fn clone(&self) -> (copy: CountedSet)
        ensures
            copy@ == self@,
    {
        proof {
            use_type_invariant(self);
        }
        let entries = self.entries.clone();
        proof {
            assert(entries@ =~= self.entries@);
        }
        CountedSet { entries }
    }
}

} // verus!
