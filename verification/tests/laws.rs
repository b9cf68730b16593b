use max_values::MaxValues;
use max_values::MaxValuesIterExt;
use std::cmp::Ordering;

/// A reproducible sequence of small numbers with many repeats.
fn sequence(seed: u64, len: usize) -> Vec<i32> {
    let mut state = seed;
    let mut out = Vec::with_capacity(len);
    for _ in 0..len {
        state = state.wrapping_mul(6364136223846793005).wrapping_add(1442695040888963407);
        out.push(((state >> 33) % 23) as i32 - 11);
    }
    out
}

fn largest(values: &[i32], n: usize) -> Vec<i32> {
    let mut sorted = values.to_vec();
    sorted.sort();
    sorted.reverse();
    sorted.truncate(n);
    sorted.reverse();
    sorted
}

fn sorted<T: Ord>(mut values: Vec<T>) -> Vec<T> {
    values.sort();
    values
}

fn is_heap<T: Ord>(slots: &[T]) -> bool {
    (1..slots.len()).all(|i| slots[(i - 1) / 2] <= slots[i])
}

fn check_selection<const N: usize>() {
    for seed in 0..40u64 {
        for len in 0..(2 * N + 6) {
            let input = sequence(seed, len);
            let values = MaxValues::<i32, N>::from_iter(input.iter().copied());
            assert_eq!(values.as_ref().len(), len.min(N));
            assert!(is_heap(values.as_ref()));
            assert_eq!(sorted(values.to_values()), largest(&input, N));
        }
    }
}

#[test]
fn size_is_the_lesser_of_length_and_capacity() {
    assert_eq!(MaxValues::<i32, 0>::from_iter(sequence(1, 7).into_iter()).as_ref().len(), 0);
    assert_eq!(MaxValues::<i32, 3>::from_iter(sequence(1, 0).into_iter()).as_ref().len(), 0);
    assert_eq!(MaxValues::<i32, 3>::from_iter(sequence(1, 2).into_iter()).as_ref().len(), 2);
    assert_eq!(MaxValues::<i32, 3>::from_iter(sequence(1, 3).into_iter()).as_ref().len(), 3);
    assert_eq!(MaxValues::<i32, 3>::from_iter(sequence(1, 50).into_iter()).as_ref().len(), 3);
    assert_eq!(sequence(2, 50).into_iter().max_values::<7>().count(), 7);
    assert_eq!(sequence(2, 5).into_iter().max_values::<7>().count(), 5);
}

#[test]
fn the_largest_values_are_kept() {
    check_selection::<0>();
    check_selection::<1>();
    check_selection::<2>();
    check_selection::<3>();
    check_selection::<4>();
    check_selection::<5>();
    check_selection::<6>();
    check_selection::<7>();
    check_selection::<8>();
    check_selection::<16>();
}

#[test]
fn no_dropped_value_is_greater_than_a_kept_one() {
    let input = sequence(99, 200);
    let values = MaxValues::<i32, 10>::from_iter(input.iter().copied());
    let mut dropped = input.clone();
    for kept in values.iter() {
        let at = dropped.iter().position(|v| v == kept).unwrap();
        dropped.remove(at);
    }
    assert_eq!(dropped.len(), 190);
    let least_kept = values.iter().min().unwrap();
    assert!(dropped.iter().all(|d| d <= least_kept));
}

#[test]
fn every_push_leaves_a_heap() {
    let mut values = MaxValues::<i32, 6>::new();
    for v in sequence(7, 300) {
        values.push(v);
        assert!(is_heap(values.as_ref()));
        assert!(values.as_ref().len() <= 6);
    }
}

#[test]
fn the_root_is_the_least_kept_value() {
    let mut values = MaxValues::<i32, 5>::new();
    for v in sequence(3, 100) {
        values.push(v);
        assert_eq!(values.as_ref().first(), values.iter().min());
    }
}

#[test]
fn a_value_not_above_the_least_changes_nothing() {
    let mut values = MaxValues::<i32, 4>::from_iter([8, 3, 9, 5, 7].into_iter());
    let before = values.as_ref().to_vec();
    assert_eq!(before[0], 5);
    values.push(4);
    assert_eq!(values.as_ref(), before);
    values.push(5);
    assert_eq!(values.as_ref(), before);
    values.push(i32::MIN);
    assert_eq!(values.as_ref(), before);
}

#[test]
fn bulk_construction_equals_repeated_pushes() {
    for seed in 0..30u64 {
        let input = sequence(seed, 60);
        let bulk = MaxValues::<i32, 7>::from_iter(input.iter().copied());
        let mut single = MaxValues::<i32, 7>::new();
        for v in input.iter().copied() {
            single.push(v);
        }
        assert_eq!(bulk.as_ref(), single.as_ref());
        let by_method: Vec<i32> = input.iter().copied().max_values::<7>().collect();
        assert_eq!(by_method, single.to_values());
    }
}

#[test]
fn batches_give_what_one_run_gives() {
    let input = sequence(11, 45);
    let whole = MaxValues::<i32, 5>::from_iter(input.iter().copied());
    for cut in 0..=input.len() {
        let mut parts = MaxValues::<i32, 5>::from_iter(input[..cut].iter().copied());
        for v in input[cut..].iter().copied() {
            parts.push(v);
        }
        assert_eq!(parts.as_ref(), whole.as_ref());
    }
}

/// Ordered by `key` alone: values with the same key compare equal.
#[derive(Debug, Clone, Copy)]
struct Keyed {
    key: u8,
    tag: char,
}

impl PartialEq for Keyed {
    fn eq(&self, other: &Self) -> bool {
        self.key == other.key
    }
}

impl Eq for Keyed {}

impl PartialOrd for Keyed {
    fn partial_cmp(&self, other: &Self) -> Option<Ordering> {
        Some(self.cmp(other))
    }
}

impl Ord for Keyed {
    fn cmp(&self, other: &Self) -> Ordering {
        self.key.cmp(&other.key)
    }
}

#[test]
fn a_value_equal_to_the_least_is_dropped() {
    let mut values = MaxValues::<Keyed, 1>::new();
    values.push(Keyed { key: 1, tag: 'a' });
    values.push(Keyed { key: 1, tag: 'b' });
    assert_eq!(values.as_ref()[0].tag, 'a');
    values.push(Keyed { key: 2, tag: 'c' });
    assert_eq!(values.as_ref()[0].tag, 'c');
    values.push(Keyed { key: 2, tag: 'd' });
    assert_eq!(values.as_ref()[0].tag, 'c');
}

#[test]
fn ties_are_kept_by_key() {
    let input = [
        Keyed { key: 3, tag: 'a' },
        Keyed { key: 1, tag: 'b' },
        Keyed { key: 3, tag: 'c' },
        Keyed { key: 2, tag: 'd' },
        Keyed { key: 3, tag: 'e' },
        Keyed { key: 2, tag: 'f' },
    ];
    let values = MaxValues::<Keyed, 4>::from_iter(input.into_iter());
    let mut keys: Vec<u8> = values.iter().map(|v| v.key).collect();
    keys.sort();
    assert_eq!(keys, vec![2, 3, 3, 3]);
    let mut tags: Vec<char> = values.iter().filter(|v| v.key == 3).map(|v| v.tag).collect();
    tags.sort();
    assert_eq!(tags, vec!['a', 'c', 'e']);
}
