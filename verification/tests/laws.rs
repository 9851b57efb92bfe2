use std::collections::HashMap;
use text_search::counted_set::CountedSet;

fn set_of(keys: &[i64]) -> CountedSet {
    let mut set = CountedSet::new();
    for key in keys {
        set.insert(*key);
    }
    set
}

fn counts_of(set: &CountedSet, keys: &[i64]) -> Vec<usize> {
    let mut counts: Vec<usize> = Vec::new();
    for key in keys {
        counts.push(set.get_count(*key));
    }
    counts
}

#[test]
fn repeated_insert_keeps_one_distinct_key() {
    for key in [0i64, -1, 7, i64::MIN, i64::MAX] {
        let mut set = CountedSet::new();
        for n in 1..=40usize {
            assert_eq!(n, set.insert(key));
            assert_eq!(n, set.get_count(key));
            assert_eq!(1, set.len());
        }
    }
}

#[test]
fn removing_an_absent_key_changes_nothing() {
    let mut set = set_of(&[3, 3, 8]);
    assert_eq!(false, set.contains(5));
    assert_eq!(0, set.get_count(5));
    assert_eq!(0, set.remove(5));
    assert_eq!(false, set.contains(5));
    assert_eq!(0, set.get_count(5));
    assert_eq!(2, set.len());
    assert_eq!(vec![2, 1], counts_of(&set, &[3, 8]));

    let mut empty = CountedSet::new();
    assert_eq!(0, empty.remove(0));
    assert_eq!(0, empty.len());
    assert_eq!(true, empty.is_empty());
}

#[test]
fn insert_then_remove_restores_the_set() {
    let watched: [i64; 4] = [-4, 0, 9, 12];
    for key in [0i64, 5, 12] {
        for times in 0..6usize {
            let mut set = set_of(&[-4, 9, 9, 12]);
            let len_before: usize = set.len();
            let counts_before = counts_of(&set, &watched);
            let count_before: usize = set.get_count(key);
            for _ in 0..times {
                set.insert(key);
            }
            assert_eq!(count_before + times, set.get_count(key));
            for _ in 0..times {
                set.remove(key);
            }
            assert_eq!(len_before, set.len());
            assert_eq!(count_before, set.get_count(key));
            assert_eq!(counts_before, counts_of(&set, &watched));
        }
    }
}

#[test]
fn remove_all_deletes_a_key_in_one_call() {
    let mut set = set_of(&[6, 6, 6, 6, 2]);
    assert_eq!(true, set.remove_all(6));
    assert_eq!(false, set.contains(6));
    assert_eq!(0, set.get_count(6));
    assert_eq!(1, set.len());
    assert_eq!(1, set.get_count(2));
    assert_eq!(false, set.remove_all(6));
    assert_eq!(1, set.len());
    assert_eq!(false, set.remove_all(100));
}

#[test]
fn remove_all_differs_from_one_remove() {
    let mut one_by_one = set_of(&[4, 4, 4]);
    let mut at_once = one_by_one.clone();
    assert_eq!(2, one_by_one.remove(4));
    assert_eq!(true, one_by_one.contains(4));
    assert_eq!(true, at_once.remove_all(4));
    assert_eq!(false, at_once.contains(4));
}

#[test]
fn union_adds_the_counts_of_both_operands() {
    let left_keys: [i64; 5] = [-3, -3, 0, 10, 10];
    let right_keys: [i64; 6] = [-8, 0, 0, 0, 10, 44];
    let every: [i64; 7] = [-8, -3, 0, 10, 44, 1, 99];
    let left = set_of(&left_keys);
    let right = set_of(&right_keys);
    let mut merged = left.clone();
    merged.union(&right);
    for key in every {
        assert_eq!(left.get_count(key) + right.get_count(key), merged.get_count(key));
    }
    assert_eq!(vec![1, 2, 4, 3, 1, 0, 0], counts_of(&merged, &every));
    assert_eq!(5, merged.len());
    assert_eq!(vec![1, 3, 1, 1], counts_of(&right, &[-8, 0, 10, 44]));
    assert_eq!(4, right.len());
}

#[test]
fn union_of_disjoint_sets_keeps_every_key() {
    let mut evens = set_of(&[2, 4, 4]);
    let odds = set_of(&[1, 3, 3, 3]);
    evens.union(&odds);
    assert_eq!(vec![1, 1, 3, 2], counts_of(&evens, &[1, 2, 3, 4]));
    assert_eq!(4, evens.len());
}

#[test]
fn union_with_an_empty_set() {
    let mut set = set_of(&[5, 5, 6]);
    set.union(&CountedSet::new());
    assert_eq!(vec![2, 1], counts_of(&set, &[5, 6]));
    let mut empty = CountedSet::new();
    empty.union(&set);
    assert_eq!(vec![2, 1], counts_of(&empty, &[5, 6]));
    assert_eq!(2, empty.len());
}

#[test]
fn union_with_a_copy_doubles_every_count() {
    let mut set = set_of(&[1, 2, 2, 3, 3, 3]);
    let copy = set.clone();
    set.union(&copy);
    assert_eq!(vec![2, 4, 6], counts_of(&set, &[1, 2, 3]));
}

#[test]
fn intersect_sums_shared_keys_and_drops_the_rest() {
    let mut set = set_of(&[1, 1, 1, 2]);
    let other = set_of(&[1, 1, 2, 4]);
    set.intersect(&other);
    assert_eq!(5, set.get_count(1));
    assert_eq!(2, set.get_count(2));
    assert_eq!(false, set.contains(4));
    assert_eq!(2, set.len());
    assert_eq!(vec![2, 1, 1], counts_of(&other, &[1, 2, 4]));
}

#[test]
fn intersect_is_not_the_smaller_count() {
    let mut set = set_of(&[7, 7, 7, 7]);
    let other = set_of(&[7]);
    set.intersect(&other);
    assert_eq!(5, set.get_count(7));
}

#[test]
fn intersect_of_disjoint_sets_is_empty() {
    let mut set = set_of(&[1, 2, 3]);
    set.intersect(&set_of(&[4, 5]));
    assert_eq!(true, set.is_empty());
    let mut other = set_of(&[1, 2, 3]);
    other.intersect(&CountedSet::new());
    assert_eq!(0, other.len());
    let mut empty = CountedSet::new();
    empty.intersect(&set_of(&[1]));
    assert_eq!(true, empty.is_empty());
}

#[test]
fn intersect_where_one_side_runs_out_first() {
    let mut low = set_of(&[1, 2, 50]);
    low.intersect(&set_of(&[50, 60, 70, 80]));
    assert_eq!(vec![0, 0, 2, 0], counts_of(&low, &[1, 2, 50, 60]));
    let mut high = set_of(&[50, 60, 70, 80]);
    high.intersect(&set_of(&[1, 2, 50]));
    assert_eq!(vec![2, 0, 0, 0], counts_of(&high, &[50, 60, 70, 80]));
    assert_eq!(1, high.len());
}

#[test]
fn minus_clamps_at_zero() {
    let mut set = set_of(&[1, 1, 1, 2]);
    let other = set_of(&[1, 1, 2]);
    set.minus(&other);
    assert_eq!(1, set.get_count(1));
    assert_eq!(false, set.contains(2));
    assert_eq!(1, set.len());

    let mut small = set_of(&[9, 3, 3]);
    small.minus(&set_of(&[9, 9, 9, 9, 3, 5]));
    assert_eq!(vec![1, 0, 0], counts_of(&small, &[3, 9, 5]));
    assert_eq!(1, small.len());
}

#[test]
fn minus_leaves_unshared_keys_alone() {
    let mut set = set_of(&[-5, -5, 0, 8]);
    let other = set_of(&[-9, 1, 1, 20]);
    set.minus(&other);
    assert_eq!(vec![2, 1, 1], counts_of(&set, &[-5, 0, 8]));
    assert_eq!(3, set.len());
    assert_eq!(vec![1, 2, 1], counts_of(&other, &[-9, 1, 20]));
    set.minus(&CountedSet::new());
    assert_eq!(3, set.len());
    let copy = set.clone();
    set.minus(&copy);
    assert_eq!(true, set.is_empty());
}

#[test]
fn a_clone_and_its_source_are_independent() {
    let mut source = set_of(&[1, 1, 2]);
    let mut copy = source.clone();
    assert_eq!(vec![2, 1], counts_of(&copy, &[1, 2]));

    copy.insert(3);
    copy.remove_all(1);
    assert_eq!(vec![2, 1, 0], counts_of(&source, &[1, 2, 3]));
    assert_eq!(2, source.len());

    source.insert(2);
    source.remove(1);
    source.union(&set_of(&[40]));
    assert_eq!(vec![0, 1, 1, 0], counts_of(&copy, &[1, 2, 3, 40]));
    assert_eq!(2, copy.len());

    source.clear();
    assert_eq!(vec![2, 3], copy.to_vec());
    assert_ne!(copy.get_count(3), source.get_count(3));
}

#[test]
fn to_vec_lists_each_key_once_by_falling_count() {
    let set = set_of(&[1, 1, 2, 2, 2, 4]);
    assert_eq!(vec![2, 1, 4], set.to_vec());
    assert_eq!(Vec::<i64>::new(), CountedSet::new().to_vec());
}

#[test]
fn to_vec_keeps_tied_keys() {
    let set = set_of(&[10, 20, 20, 30, 30, 40, 40, 40]);
    let keys = set.to_vec();
    assert_eq!(4, keys.len());
    assert_eq!(40, keys[0]);
    assert_eq!(10, keys[3]);
    let mut tied: Vec<i64> = vec![keys[1], keys[2]];
    tied.sort();
    assert_eq!(vec![20, 30], tied);
}

#[test]
fn to_vec_does_not_change_the_set() {
    let set = set_of(&[5, 5, 5, -2, 7, 7]);
    let first = set.to_vec();
    let second = set.to_vec();
    assert_eq!(vec![5, 7, -2], first);
    assert_eq!(first, second);
    assert_eq!(vec![3, 2, 1], counts_of(&set, &[5, 7, -2]));
}

#[test]
fn insert_sequence_with_a_repeated_key() {
    let set = set_of(&[-1, 0, 0, 1, 2]);
    assert_eq!(4, set.len());
    assert_eq!(2, set.get_count(0));
    assert_eq!(1, set.get_count(-1));
}

#[test]
fn remove_all_on_a_key_inserted_twice() {
    let mut set = set_of(&[33, 33]);
    assert_eq!(true, set.remove_all(33));
    assert_eq!(false, set.contains(33));
    assert_eq!(false, set.remove_all(33));
}

#[test]
fn keys_at_the_ends_of_the_range() {
    let mut set = set_of(&[i64::MAX, i64::MIN, 0, i64::MIN, i64::MAX, i64::MAX]);
    assert_eq!(3, set.len());
    assert_eq!(vec![2, 1, 3], counts_of(&set, &[i64::MIN, 0, i64::MAX]));
    assert_eq!(vec![i64::MAX, i64::MIN, 0], set.to_vec());
    assert_eq!(2, set.remove(i64::MAX));
    assert_eq!(true, set.remove_all(i64::MIN));
    assert_eq!(vec![i64::MAX, 0], set.to_vec());
}

#[test]
fn order_of_insertion_does_not_matter() {
    let watched: [i64; 5] = [1, 2, 3, 4, 5];
    let rising = set_of(&[1, 2, 2, 3, 4, 4, 4, 5]);
    let falling = set_of(&[5, 4, 4, 4, 3, 2, 2, 1]);
    let mixed = set_of(&[4, 2, 5, 4, 1, 2, 3, 4]);
    assert_eq!(counts_of(&rising, &watched), counts_of(&falling, &watched));
    assert_eq!(counts_of(&rising, &watched), counts_of(&mixed, &watched));
    assert_eq!(rising.len(), mixed.len());
    assert_eq!(rising.to_vec(), mixed.to_vec());
}

#[test]
fn removing_the_last_occurrence_deletes_the_key() {
    let mut set = set_of(&[1, 2, 3]);
    assert_eq!(0, set.remove(2));
    assert_eq!(false, set.contains(2));
    assert_eq!(2, set.len());
    assert_eq!(vec![1, 0, 1], counts_of(&set, &[1, 2, 3]));
    assert_eq!(1, set.insert(2));
    assert_eq!(3, set.len());
}

#[test]
fn clear_then_reuse() {
    let mut set = set_of(&[1, 1, 2]);
    set.clear();
    assert_eq!(0, set.len());
    assert_eq!(0, set.get_count(1));
    assert_eq!(1, set.insert(1));
    assert_eq!(1, set.len());
}

fn step(state: &mut u64) -> u64 {
    *state = state.wrapping_mul(6364136223846793005).wrapping_add(1442695040888963407);
    *state >> 33
}

fn model_of(set: &CountedSet, keys: &[i64]) -> HashMap<i64, usize> {
    let mut model: HashMap<i64, usize> = HashMap::new();
    for key in keys {
        let count: usize = set.get_count(*key);
        if count > 0 {
            model.insert(*key, count);
        }
    }
    model
}

fn agree(set: &CountedSet, model: &HashMap<i64, usize>, keys: &[i64]) {
    assert_eq!(model.len(), set.len());
    assert_eq!(model.is_empty(), set.is_empty());
    for key in keys {
        let expected: usize = *model.get(key).unwrap_or(&0);
        assert_eq!(expected, set.get_count(*key));
        assert_eq!(expected > 0, set.contains(*key));
    }
    let ranked = set.to_vec();
    assert_eq!(model.len(), ranked.len());
    for at in 0..ranked.len() {
        assert!(model.contains_key(&ranked[at]));
        for later in (at + 1)..ranked.len() {
            assert_ne!(ranked[at], ranked[later]);
            assert!(model[&ranked[at]] >= model[&ranked[later]]);
        }
    }
}

#[test]
fn a_long_run_agrees_with_a_plain_map() {
    let keys: Vec<i64> = (-12..12).collect();
    let mut state: u64 = 0x5eed;
    let mut set = CountedSet::new();
    let mut model: HashMap<i64, usize> = HashMap::new();
    let mut other = CountedSet::new();
    for round in 0..3000usize {
        let key: i64 = keys[(step(&mut state) % 24) as usize];
        match step(&mut state) % 10 {
            0..=3 => {
                let count = model.entry(key).or_insert(0);
                *count += 1;
                assert_eq!(*count, set.insert(key));
            }
            4..=5 => {
                let left: usize = match model.get(&key) {
                    Some(count) if *count > 1 => *count - 1,
                    _ => 0,
                };
                if left == 0 {
                    model.remove(&key);
                } else {
                    model.insert(key, left);
                }
                assert_eq!(left, set.remove(key));
            }
            6 => {
                assert_eq!(model.remove(&key).is_some(), set.remove_all(key));
            }
            7 => {
                other.insert(key);
                other.insert(keys[(step(&mut state) % 24) as usize]);
            }
            8 => {
                let before = model_of(&other, &keys);
                match step(&mut state) % 3 {
                    0 => {
                        for (k, c) in &before {
                            *model.entry(*k).or_insert(0) += *c;
                        }
                        set.union(&other);
                    }
                    1 => {
                        let mut kept: HashMap<i64, usize> = HashMap::new();
                        for (k, c) in &model {
                            if let Some(d) = before.get(k) {
                                kept.insert(*k, *c + *d);
                            }
                        }
                        model = kept;
                        set.intersect(&other);
                    }
                    _ => {
                        let mut kept: HashMap<i64, usize> = HashMap::new();
                        for (k, c) in &model {
                            let d: usize = *before.get(k).unwrap_or(&0);
                            if *c > d {
                                kept.insert(*k, *c - d);
                            }
                        }
                        model = kept;
                        set.minus(&other);
                    }
                }
                assert_eq!(before, model_of(&other, &keys));
                other.clear();
            }
            _ => {
                if round % 7 == 0 {
                    set.clear();
                    model.clear();
                }
            }
        }
        agree(&set, &model, &keys);
    }
}
