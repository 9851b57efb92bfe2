//! Set algebra on stored runs: each operation walks two ascending runs side by
//! side and writes the resulting run in one pass.

use crate::counted_set::Key;
use crate::entry::{
    lemma_tally_absent, lemma_tally_at, lemma_tally_present, lemma_tally_push, strictly_ascending,
    tally, well_formed, Entry,
};
use vstd::prelude::*;

verus! {

/// Every key of `s` lies below `bound`.
pub open spec fn keys_below(s: Seq<Entry>, bound: Key) -> bool {
    forall|i: int| 0 <= i < s.len() ==> (#[trigger] s[i]).key < bound
}

/// Appending an entry whose key lies above all keys of a well-formed run
/// gives a well-formed run again.
pub proof fn lemma_push_keeps_order(s: Seq<Entry>, e: Entry)
    requires
        well_formed(s),
        keys_below(s, e.key),
        e.count >= 1,
    ensures
        well_formed(s.push(e)),
{
    let t = s.push(e);
    assert forall|i: int, j: int| 0 <= i < j < t.len() implies (#[trigger] t[i]).key < (
    #[trigger] t[j]).key by {
        if j < s.len() {
            assert(t[i] == s[i] && t[j] == s[j]);
        } else {
            assert(t[i] == s[i]);
        }
    }
    assert forall|i: int| 0 <= i < t.len() implies (#[trigger] t[i]).count >= 1 by {
        if i < s.len() {
            assert(t[i] == s[i]);
        }
    }
}

/// Taking one more entry into a prefix adds that entry's count to the tally
/// of its key and to no other.
pub proof fn lemma_tally_take(s: Seq<Entry>, n: int, key: Key)
    requires
        0 <= n < s.len(),
    ensures
        tally(s.take(n + 1), key) == tally(s.take(n), key) + (if s[n].key == key {
            s[n].count as nat
        } else {
            0
        }),
{
    assert(s.take(n + 1) =~= s.take(n).push(s[n]));
    lemma_tally_push(s.take(n), s[n], key);
}

/// In an ascending run, a key below the entry at `n` is tallied by the first
/// `n` entries alone.
pub proof fn lemma_tally_prefix(s: Seq<Entry>, n: int, key: Key)
    requires
        strictly_ascending(s),
        0 <= n <= s.len(),
        n < s.len() ==> key < s[n].key,
    ensures
        tally(s, key) == tally(s.take(n), key),
{
    let head = s.take(n);
    assert forall|i: int, j: int| 0 <= i < j < head.len() implies (#[trigger] head[i]).key < (
    #[trigger] head[j]).key by {
        assert(head[i] == s[i] && head[j] == s[j]);
    }
    if tally(s, key) > 0 {
        lemma_tally_present(s, key);
        let i = choose|i: int| 0 <= i < s.len() && (#[trigger] s[i]).key == key;
        if i >= n {
            assert(s[n].key <= s[i].key);
        }
        assert(head[i] == s[i]);
        lemma_tally_at(s, i);
        lemma_tally_at(head, i);
    } else if tally(head, key) > 0 {
        lemma_tally_present(head, key);
        let i = choose|i: int| 0 <= i < head.len() && (#[trigger] head[i]).key == key;
        assert(head[i] == s[i]);
        lemma_tally_at(s, i);
        lemma_tally_at(head, i);
    }
}

/// The run that holds, for every key, the counts of `left` and `right` added up.
pub fn union_runs(left: &Vec<Entry>, right: &Vec<Entry>) -> (out: Vec<Entry>)
    requires
        well_formed(left@),
        well_formed(right@),
        forall|k: Key| tally(left@, k) + tally(right@, k) <= usize::MAX,
    ensures
        well_formed(out@),
        forall|k: Key| #[trigger] tally(out@, k) == tally(left@, k) + tally(right@, k),
{
    let mut out: Vec<Entry> = Vec::new();
    let mut i: usize = 0;
    let mut j: usize = 0;
    while i < left.len() || j < right.len()
        invariant
            0 <= i <= left@.len(),
            0 <= j <= right@.len(),
            well_formed(left@),
            well_formed(right@),
            well_formed(out@),
            forall|k: Key| tally(left@, k) + tally(right@, k) <= usize::MAX,
            i < left@.len() ==> keys_below(out@, left@[i as int].key),
            j < right@.len() ==> keys_below(out@, right@[j as int].key),
            forall|k: Key| #[trigger]
                tally(out@, k) == tally(left@.take(i as int), k) + tally(right@.take(j as int), k),
        decreases left@.len() - i + (right@.len() - j),
    {
        let ghost before = out@;
        let take_left = j >= right.len() || (i < left.len() && left[i].key < right[j].key);
        let take_right = i >= left.len() || (j < right.len() && right[j].key < left[i].key);
        if take_left {
            let e = left[i];
            proof {
                lemma_push_keeps_order(before, e);
                assert forall|k: Key| #[trigger]
                    tally(before.push(e), k) == tally(left@.take(i + 1), k) + tally(
                        right@.take(j as int),
                        k,
                    ) by {
                    lemma_tally_push(before, e, k);
                    lemma_tally_take(left@, i as int, k);
                }
                if i + 1 < left@.len() {
                    assert forall|x: int| 0 <= x < before.push(e).len() implies (
                    #[trigger] before.push(e)[x]).key < left@[i + 1].key by {
                        assert(left@[i as int].key < left@[i + 1].key);
                    }
                }
            }
            out.push(e);
            i = i + 1;
        } else if take_right {
            let e = right[j];
            proof {
                lemma_push_keeps_order(before, e);
                assert forall|k: Key| #[trigger]
                    tally(before.push(e), k) == tally(left@.take(i as int), k) + tally(
                        right@.take(j + 1),
                        k,
                    ) by {
                    lemma_tally_push(before, e, k);
                    lemma_tally_take(right@, j as int, k);
                }
                if j + 1 < right@.len() {
                    assert forall|x: int| 0 <= x < before.push(e).len() implies (
                    #[trigger] before.push(e)[x]).key < right@[j + 1].key by {
                        assert(right@[j as int].key < right@[j + 1].key);
                    }
                }
            }
            out.push(e);
            j = j + 1;
        } else {
            proof {
                lemma_tally_at(left@, i as int);
                lemma_tally_at(right@, j as int);
            }
            let e = Entry { key: left[i].key, count: left[i].count + right[j].count };
            proof {
                lemma_push_keeps_order(before, e);
                assert forall|k: Key| #[trigger]
                    tally(before.push(e), k) == tally(left@.take(i + 1), k) + tally(
                        right@.take(j + 1),
                        k,
                    ) by {
                    lemma_tally_push(before, e, k);
                    lemma_tally_take(left@, i as int, k);
                    lemma_tally_take(right@, j as int, k);
                }
                if i + 1 < left@.len() {
                    assert forall|x: int| 0 <= x < before.push(e).len() implies (
                    #[trigger] before.push(e)[x]).key < left@[i + 1].key by {
                        assert(left@[i as int].key < left@[i + 1].key);
                    }
                }
                if j + 1 < right@.len() {
                    assert forall|x: int| 0 <= x < before.push(e).len() implies (
                    #[trigger] before.push(e)[x]).key < right@[j + 1].key by {
                        assert(right@[j as int].key < right@[j + 1].key);
                    }
                }
            }
            out.push(e);
            i = i + 1;
            j = j + 1;
        }
    }
    proof {
        assert(left@.take(i as int) =~= left@);
        assert(right@.take(j as int) =~= right@);
    }
    out
}

/// Appending an entry below `bound` to a run below that entry keeps the run
/// below `bound`.
pub proof fn lemma_push_below(s: Seq<Entry>, e: Entry, bound: Key)
    requires
        keys_below(s, e.key),
        e.key < bound,
    ensures
        keys_below(s.push(e), bound),
{
    let t = s.push(e);
    assert forall|i: int| 0 <= i < t.len() implies (#[trigger] t[i]).key < bound by {
        if i < s.len() {
            assert(t[i] == s[i]);
        }
    }
}

/// A key above all of the first `n` entries is not tallied by them.
pub proof fn lemma_tally_above(s: Seq<Entry>, n: int, key: Key)
    requires
        0 <= n <= s.len(),
        forall|x: int| 0 <= x < n ==> (#[trigger] s[x]).key < key,
    ensures
        tally(s.take(n), key) == 0,
{
    let head = s.take(n);
    assert forall|x: int| 0 <= x < head.len() implies (#[trigger] head[x]).key != key by {
        assert(head[x] == s[x]);
    }
    lemma_tally_absent(head, key);
}

/// The count that intersecting leaves for a key counted `a` times on one side
/// and `b` times on the other.
pub open spec fn shared_sum(a: nat, b: nat) -> nat {
    if a > 0 && b > 0 {
        a + b
    } else {
        0
    }
}

/// The count that subtracting leaves for a key counted `a` times on the left
/// and `b` times on the right.
pub open spec fn clamped_difference(a: nat, b: nat) -> nat {
    if a > b {
        (a - b) as nat
    } else {
        0
    }
}

/// The run that holds the keys stored in both `left` and `right`, each with
/// the counts of the two sides added up.
pub fn intersect_runs(left: &Vec<Entry>, right: &Vec<Entry>) -> (out: Vec<Entry>)
    requires
        well_formed(left@),
        well_formed(right@),
        forall|k: Key|
            tally(left@, k) > 0 && tally(right@, k) > 0 ==> tally(left@, k) + tally(right@, k)
                <= usize::MAX,
    ensures
        well_formed(out@),
        forall|k: Key| #[trigger] tally(out@, k) == shared_sum(tally(left@, k), tally(right@, k)),
{
    let mut out: Vec<Entry> = Vec::new();
    let mut i: usize = 0;
    let mut j: usize = 0;
    while i < left.len() && j < right.len()
        invariant
            0 <= i <= left@.len(),
            0 <= j <= right@.len(),
            well_formed(left@),
            well_formed(right@),
            well_formed(out@),
            forall|k: Key|
                tally(left@, k) > 0 && tally(right@, k) > 0 ==> tally(left@, k) + tally(right@, k)
                    <= usize::MAX,
            i < left@.len() ==> keys_below(out@, left@[i as int].key),
            j < right@.len() ==> keys_below(out@, right@[j as int].key),
            i < left@.len() ==> forall|y: int|
                0 <= y < j ==> (#[trigger] right@[y]).key < left@[i as int].key,
            j < right@.len() ==> forall|x: int|
                0 <= x < i ==> (#[trigger] left@[x]).key < right@[j as int].key,
            forall|k: Key| #[trigger]
                tally(out@, k) == shared_sum(
                    tally(left@.take(i as int), k),
                    tally(right@.take(j as int), k),
                ),
        decreases left@.len() - i + (right@.len() - j),
    {
        let ghost before = out@;
        let l = left[i];
        let r = right[j];
        proof {
            assert forall|x: int| 0 <= x < i implies (#[trigger] left@[x]).key < l.key by {}
            assert forall|y: int| 0 <= y < j implies (#[trigger] right@[y]).key < r.key by {}
            lemma_tally_above(left@, i as int, l.key);
            lemma_tally_above(right@, j as int, r.key);
        }
        if l.key < r.key {
            proof {
                lemma_tally_above(right@, j as int, l.key);
                assert forall|k: Key| #[trigger]
                    tally(before, k) == shared_sum(
                        tally(left@.take(i + 1), k),
                        tally(right@.take(j as int), k),
                    ) by {
                    lemma_tally_take(left@, i as int, k);
                }
                if i + 1 < left@.len() {
                    assert(left@[i as int].key < left@[i + 1].key);
                }
            }
            i = i + 1;
        } else if r.key < l.key {
            proof {
                lemma_tally_above(left@, i as int, r.key);
                assert forall|k: Key| #[trigger]
                    tally(before, k) == shared_sum(
                        tally(left@.take(i as int), k),
                        tally(right@.take(j + 1), k),
                    ) by {
                    lemma_tally_take(right@, j as int, k);
                }
                if j + 1 < right@.len() {
                    assert(right@[j as int].key < right@[j + 1].key);
                }
            }
            j = j + 1;
        } else {
            proof {
                lemma_tally_at(left@, i as int);
                lemma_tally_at(right@, j as int);
            }
            let e = Entry { key: l.key, count: l.count + r.count };
            proof {
                lemma_push_keeps_order(before, e);
                assert forall|k: Key| #[trigger]
                    tally(before.push(e), k) == shared_sum(
                        tally(left@.take(i + 1), k),
                        tally(right@.take(j + 1), k),
                    ) by {
                    lemma_tally_push(before, e, k);
                    lemma_tally_take(left@, i as int, k);
                    lemma_tally_take(right@, j as int, k);
                }
                if i + 1 < left@.len() {
                    assert(left@[i as int].key < left@[i + 1].key);
                    lemma_push_below(before, e, left@[i + 1].key);
                }
                if j + 1 < right@.len() {
                    assert(right@[j as int].key < right@[j + 1].key);
                    lemma_push_below(before, e, right@[j + 1].key);
                }
            }
            out.push(e);
            i = i + 1;
            j = j + 1;
        }
    }
    proof {
        assert forall|k: Key| #[trigger]
            tally(out@, k) == shared_sum(tally(left@, k), tally(right@, k)) by {
            if i == left@.len() {
                assert(left@.take(i as int) =~= left@);
                if tally(left@, k) > 0 {
                    lemma_tally_present(left@, k);
                    lemma_tally_prefix(right@, j as int, k);
                }
            } else {
                assert(right@.take(j as int) =~= right@);
                if tally(right@, k) > 0 {
                    lemma_tally_present(right@, k);
                    lemma_tally_prefix(left@, i as int, k);
                }
            }
        }
    }
    out
}

/// The run that holds the keys of `left` with the counts of `right` taken
/// off; a key whose count would drop to zero or below is left out.
pub fn minus_runs(left: &Vec<Entry>, right: &Vec<Entry>) -> (out: Vec<Entry>)
    requires
        well_formed(left@),
        well_formed(right@),
    ensures
        well_formed(out@),
        forall|k: Key| #[trigger]
            tally(out@, k) == clamped_difference(tally(left@, k), tally(right@, k)),
{
    let mut out: Vec<Entry> = Vec::new();
    let mut i: usize = 0;
    let mut j: usize = 0;
    while i < left.len()
        invariant
            0 <= i <= left@.len(),
            0 <= j <= right@.len(),
            well_formed(left@),
            well_formed(right@),
            well_formed(out@),
            i < left@.len() ==> keys_below(out@, left@[i as int].key),
            i < left@.len() ==> forall|y: int|
                0 <= y < j ==> (#[trigger] right@[y]).key < left@[i as int].key,
            j < right@.len() ==> forall|x: int|
                0 <= x < i ==> (#[trigger] left@[x]).key < right@[j as int].key,
            forall|k: Key| #[trigger]
                tally(out@, k) == clamped_difference(
                    tally(left@.take(i as int), k),
                    tally(right@.take(j as int), k),
                ),
        decreases left@.len() - i + (right@.len() - j),
    {
        let ghost before = out@;
        let l = left[i];
        proof {
            assert forall|x: int| 0 <= x < i implies (#[trigger] left@[x]).key < l.key by {}
            lemma_tally_above(left@, i as int, l.key);
            lemma_tally_above(right@, j as int, l.key);
            if i + 1 < left@.len() {
                assert(left@[i as int].key < left@[i + 1].key);
            }
        }
        if j < right.len() && right[j].key < l.key {
            proof {
                lemma_tally_above(left@, i as int, right@[j as int].key);
                assert forall|k: Key| #[trigger]
                    tally(before, k) == clamped_difference(
                        tally(left@.take(i as int), k),
                        tally(right@.take(j + 1), k),
                    ) by {
                    lemma_tally_take(right@, j as int, k);
                }
                if j + 1 < right@.len() {
                    assert(right@[j as int].key < right@[j + 1].key);
                }
            }
            j = j + 1;
        } else if j < right.len() && right[j].key == l.key {
            let r = right[j];
            if l.count > r.count {
                let e = Entry { key: l.key, count: l.count - r.count };
                proof {
                    lemma_push_keeps_order(before, e);
                    assert forall|k: Key| #[trigger]
                        tally(before.push(e), k) == clamped_difference(
                            tally(left@.take(i + 1), k),
                            tally(right@.take(j + 1), k),
                        ) by {
                        lemma_tally_push(before, e, k);
                        lemma_tally_take(left@, i as int, k);
                        lemma_tally_take(right@, j as int, k);
                    }
                    if i + 1 < left@.len() {
                        lemma_push_below(before, e, left@[i + 1].key);
                    }
                }
                out.push(e);
            } else {
                proof {
                    assert forall|k: Key| #[trigger]
                        tally(before, k) == clamped_difference(
                            tally(left@.take(i + 1), k),
                            tally(right@.take(j + 1), k),
                        ) by {
                        lemma_tally_take(left@, i as int, k);
                        lemma_tally_take(right@, j as int, k);
                    }
                }
            }
            proof {
                if j + 1 < right@.len() {
                    assert(right@[j as int].key < right@[j + 1].key);
                }
            }
            i = i + 1;
            j = j + 1;
        } else {
            proof {
                lemma_push_keeps_order(before, l);
                assert forall|k: Key| #[trigger]
                    tally(before.push(l), k) == clamped_difference(
                        tally(left@.take(i + 1), k),
                        tally(right@.take(j as int), k),
                    ) by {
                    lemma_tally_push(before, l, k);
                    lemma_tally_take(left@, i as int, k);
                }
                if i + 1 < left@.len() {
                    lemma_push_below(before, l, left@[i + 1].key);
                }
            }
            out.push(l);
            i = i + 1;
        }
    }
    proof {
        assert(left@.take(i as int) =~= left@);
        assert forall|k: Key| #[trigger]
            tally(out@, k) == clamped_difference(tally(left@, k), tally(right@, k)) by {
            if tally(left@, k) > 0 {
                lemma_tally_present(left@, k);
                lemma_tally_prefix(right@, j as int, k);
            }
        }
    }
    out
}

} // verus!
