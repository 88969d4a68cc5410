use fn_map::{FnMap, InsertError, DEFAULT_MAX_SLOTS};

fn ident(k: &usize) -> usize {
    *k
}

fn last_digit(k: &u64) -> usize {
    (*k % 10) as usize
}

fn table_len<K, V, F: Fn(&K) -> usize>(m: &FnMap<K, V, F>) -> usize {
    m.iter().size_hint().1.unwrap()
}

fn pairs<K: Clone, V: Clone, F: Fn(&K) -> usize>(m: &FnMap<K, V, F>) -> Vec<(K, V)> {
    let mut out = Vec::new();
    let mut it = m.iter();
    while let Some((k, v)) = it.next() {
        out.push((k.clone(), v.clone()));
    }
    out
}

#[test]
fn empty_container_finds_nothing() {
    let mut m: FnMap<usize, String, _> = FnMap::new(ident);
    assert_eq!(m.get(&0), None);
    assert_eq!(m.get(&17), None);
    assert!(m.get_mut(&0).is_none());
    assert_eq!(table_len(&m), 0);
    assert!(m.iter().next().is_none());
    assert_eq!(m.iter().size_hint(), (0, Some(0)));
    assert!(m.into_iter().next().is_none());
}

#[test]
fn first_insert_seeds_one_slot() {
    let mut m = FnMap::new(ident);
    assert_eq!(m.insert(41, "a"), Ok(()));
    assert_eq!(table_len(&m), 1);
    assert_eq!(m.get(&41), Some(&"a"));
}

#[test]
fn identity_scenario_three_keys() {
    let mut m = FnMap::new(ident);
    assert_eq!(m.insert(0, "zero"), Ok(()));
    assert_eq!(table_len(&m), 1);
    assert_eq!(m.insert(1, "one"), Ok(()));
    assert_eq!(table_len(&m), 2);
    assert_eq!(m.get(&0), Some(&"zero"));
    assert_eq!(m.get(&1), Some(&"one"));
    assert_eq!(m.insert(2, "two"), Ok(()));
    let len = table_len(&m);
    assert_eq!(len, 4);
    assert_eq!(m.get(&0), Some(&"zero"));
    assert_eq!(m.get(&1), Some(&"one"));
    assert_eq!(m.get(&2), Some(&"two"));
    assert_ne!(0 % len, 1 % len);
    assert_ne!(0 % len, 2 % len);
    assert_ne!(1 % len, 2 % len);
}

#[test]
fn round_trip_after_each_insert() {
    let keys: [usize; 9] = [5, 12, 7, 130, 64, 3, 1000, 31, 18];
    let mut m = FnMap::new(ident);
    for n in 0..keys.len() {
        assert_eq!(m.insert(keys[n], keys[n] * 10), Ok(()));
        for j in 0..=n {
            assert_eq!(m.get(&keys[j]), Some(&(keys[j] * 10)));
        }
    }
}

#[test]
fn round_trip_latest_value_wins() {
    let mut m = FnMap::new(ident);
    assert_eq!(m.insert(4, 1), Ok(()));
    assert_eq!(m.insert(9, 2), Ok(()));
    assert_eq!(m.insert(4, 3), Ok(()));
    assert_eq!(m.insert(6, 4), Ok(()));
    assert_eq!(m.get(&4), Some(&3));
    assert_eq!(m.get(&9), Some(&2));
    assert_eq!(m.get(&6), Some(&4));
}

#[test]
fn same_key_twice_updates_in_place() {
    let mut m = FnMap::new(ident);
    assert_eq!(m.insert(0, "a"), Ok(()));
    assert_eq!(m.insert(1, "b"), Ok(()));
    assert_eq!(m.insert(6, "c"), Ok(()));
    let len = table_len(&m);
    let count = pairs(&m).len();
    assert_eq!(count, 3);
    assert_eq!(m.insert(6, "d"), Ok(()));
    assert_eq!(m.get(&6), Some(&"d"));
    assert_eq!(table_len(&m), len);
    assert_eq!(pairs(&m).len(), count);
    let sixes: Vec<(usize, &str)> = pairs(&m).into_iter().filter(|p| p.0 == 6).collect();
    assert_eq!(sixes, vec![(6, "d")]);
}

#[test]
fn equal_index_replaces_key_and_value() {
    let mut m = FnMap::new(last_digit);
    assert_eq!(m.insert(3, "three"), Ok(()));
    assert_eq!(m.insert(13, "thirteen"), Ok(()));
    assert_eq!(table_len(&m), 1);
    assert_eq!(pairs(&m), vec![(13, "thirteen")]);
    assert_eq!(m.get(&3), Some(&"thirteen"));
    assert_eq!(m.get(&13), Some(&"thirteen"));
}

#[test]
fn colliding_keys_keep_their_own_values() {
    let mut m = FnMap::new(ident);
    assert_eq!(m.insert(0, "zero"), Ok(()));
    assert_eq!(m.insert(1, "one"), Ok(()));
    assert_eq!(table_len(&m), 2);
    // 1 and 3 both reduce to position 1 in a table of two slots.
    assert_eq!(m.insert(3, "three"), Ok(()));
    assert_eq!(table_len(&m), 4);
    assert_eq!(m.get(&1), Some(&"one"));
    assert_eq!(m.get(&3), Some(&"three"));
    assert_eq!(m.get(&0), Some(&"zero"));
}

#[test]
fn collision_doubles_until_indices_part() {
    let mut m = FnMap::new(ident);
    assert_eq!(m.insert(0, 'a'), Ok(()));
    // 0 and 8 share a position at lengths 1, 2, 4 and 8.
    assert_eq!(m.insert(8, 'b'), Ok(()));
    assert_eq!(table_len(&m), 16);
    assert_eq!(m.get(&0), Some(&'a'));
    assert_eq!(m.get(&8), Some(&'b'));
    assert_eq!(pairs(&m), vec![(0, 'a'), (8, 'b')]);
}

#[test]
fn entries_sit_at_their_reduced_positions() {
    let keys: [usize; 7] = [21, 4, 9, 14, 35, 2, 16];
    let mut m = FnMap::new(ident);
    for k in keys {
        assert_eq!(m.insert(k, ()), Ok(()));
        let len = table_len(&m);
        let walked = pairs(&m);
        // Slot order is the order of the reduced positions.
        for w in walked.windows(2) {
            assert!(w[0].0 % len < w[1].0 % len);
        }
    }
}

#[test]
fn table_length_never_shrinks_and_doubles() {
    let keys: [usize; 8] = [1, 2, 3, 4, 5, 6, 7, 16];
    let mut m = FnMap::new(ident);
    let mut before = 0;
    for k in keys {
        assert_eq!(m.insert(k, k), Ok(()));
        let len = table_len(&m);
        assert!(len >= before);
        assert!(len.is_power_of_two());
        before = len;
    }
}

#[test]
fn lookup_of_absent_key_in_empty_slot_is_none() {
    let mut m = FnMap::new(ident);
    assert_eq!(m.insert(0, 10), Ok(()));
    assert_eq!(m.insert(1, 11), Ok(()));
    assert_eq!(m.insert(2, 12), Ok(()));
    assert_eq!(table_len(&m), 4);
    assert_eq!(m.get(&3), None);
    assert_eq!(m.get(&7), None);
    assert!(m.get_mut(&3).is_none());
}

#[test]
fn lookup_goes_by_reduced_position_alone() {
    let mut m = FnMap::new(ident);
    assert_eq!(m.insert(0, 10), Ok(()));
    assert_eq!(m.insert(1, 11), Ok(()));
    // 5 was never inserted, but reduces to the slot of 1.
    assert_eq!(m.get(&5), Some(&11));
}

#[test]
fn get_mut_writes_through() {
    let mut m = FnMap::new(ident);
    assert_eq!(m.insert(2, 20), Ok(()));
    assert_eq!(m.insert(5, 50), Ok(()));
    if let Some(v) = m.get_mut(&5) {
        *v += 1;
    }
    assert_eq!(m.get(&5), Some(&51));
    assert_eq!(m.get(&2), Some(&20));
}

#[test]
fn index_returns_the_stored_value() {
    let mut m = FnMap::new(ident);
    assert_eq!(m.insert(2, 20), Ok(()));
    assert_eq!(m.insert(5, 50), Ok(()));
    assert_eq!(*m.index(2), 20);
    *m.index_mut(5) = 55;
    assert_eq!(*m.index(5), 55);
}

#[test]
fn key_index_runs_the_index_function() {
    let m: FnMap<u64, (), _> = FnMap::new(last_digit);
    assert_eq!(m.key_index(&1234), 4);
    assert_eq!(m.key_index(&10), 0);
}

#[test]
fn insert_refused_when_limit_is_reached() {
    let mut m = FnMap::with_max_slots(ident, 8);
    assert_eq!(m.insert(0, "zero"), Ok(()));
    assert_eq!(m.insert(3, "three"), Ok(()));
    assert_eq!(table_len(&m), 2);
    // 0 and 8 part only at sixteen slots.
    assert_eq!(m.insert(8, "eight"), Err(InsertError::ResizeLimitExceeded));
    assert_eq!(table_len(&m), 2);
    assert_eq!(pairs(&m), vec![(0, "zero"), (3, "three")]);
    assert_eq!(m.get(&0), Some(&"zero"));
    // An index that is already stored is still updated.
    assert_eq!(m.insert(3, "drei"), Ok(()));
    assert_eq!(m.get(&3), Some(&"drei"));
}

#[test]
fn insert_succeeds_exactly_at_the_limit() {
    let mut m = FnMap::with_max_slots(ident, 16);
    assert_eq!(m.insert(0, 'a'), Ok(()));
    assert_eq!(m.insert(8, 'b'), Ok(()));
    assert_eq!(table_len(&m), 16);
    assert_eq!(m.insert(16, 'c'), Err(InsertError::ResizeLimitExceeded));
    assert_eq!(table_len(&m), 16);
}

#[test]
fn insert_refused_when_no_slot_is_permitted() {
    let mut m = FnMap::with_max_slots(ident, 0);
    assert_eq!(m.insert(0, 1), Err(InsertError::ResizeLimitExceeded));
    assert_eq!(table_len(&m), 0);
    assert_eq!(m.get(&0), None);
}

#[test]
fn constant_index_function_is_one_entry() {
    let mut m = FnMap::new(|_k: &u32| 7usize);
    assert_eq!(m.insert(1, "a"), Ok(()));
    assert_eq!(m.insert(2, "b"), Ok(()));
    assert_eq!(m.insert(3, "c"), Ok(()));
    assert_eq!(table_len(&m), 1);
    assert_eq!(pairs(&m), vec![(3, "c")]);
}

#[test]
fn huge_indices_cannot_be_parted_within_the_default_limit() {
    let mut m = FnMap::new(ident);
    assert_eq!(m.insert(0, ()), Ok(()));
    assert_eq!(m.insert(DEFAULT_MAX_SLOTS, ()), Err(InsertError::ResizeLimitExceeded));
    assert_eq!(table_len(&m), 1);
    assert_eq!(m.insert(DEFAULT_MAX_SLOTS / 2, ()), Ok(()));
    assert_eq!(table_len(&m), DEFAULT_MAX_SLOTS);
}

#[test]
fn default_limit_value() {
    assert_eq!(DEFAULT_MAX_SLOTS, 1_048_576);
}
