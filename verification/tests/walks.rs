use fn_map::FnMap;

fn ident(k: &usize) -> usize {
    *k
}

fn filled(keys: &[usize]) -> FnMap<usize, String, fn(&usize) -> usize> {
    let mut m: FnMap<usize, String, fn(&usize) -> usize> = FnMap::new(ident);
    for k in keys {
        assert_eq!(m.insert(*k, format!("v{}", k)), Ok(()));
    }
    m
}

#[test]
fn walk_hands_out_exactly_what_get_retrieves() {
    let keys: [usize; 8] = [11, 3, 40, 7, 22, 3, 18, 40];
    let m = filled(&keys);
    let mut seen: Vec<usize> = Vec::new();
    let mut it = m.iter();
    while let Some((k, v)) = it.next() {
        assert_eq!(m.get(k), Some(v));
        assert!(!seen.contains(k));
        seen.push(*k);
    }
    for k in keys {
        assert!(seen.contains(&k));
    }
    assert_eq!(seen.len(), 6);
}

#[test]
fn walk_follows_slot_order_not_insertion_order() {
    let m = filled(&[5, 2, 7, 0]);
    // Four slots: 0, 5, 2 and 7 reduce to 0, 1, 2 and 3.
    assert_eq!(m.iter().size_hint(), (0, Some(4)));
    let mut order: Vec<usize> = Vec::new();
    let mut it = m.iter();
    while let Some((k, _)) = it.next() {
        order.push(*k);
    }
    assert_eq!(order, vec![0, 5, 2, 7]);
}

#[test]
fn walk_is_restartable() {
    let m = filled(&[1, 2]);
    let mut first = m.iter();
    assert_eq!(first.next(), Some((&2, &"v2".to_string())));
    let mut second = m.iter();
    assert_eq!(second.next(), Some((&2, &"v2".to_string())));
    assert_eq!(second.next(), Some((&1, &"v1".to_string())));
    assert_eq!(second.next(), None);
    assert_eq!(second.next(), None);
    assert_eq!(first.next(), Some((&1, &"v1".to_string())));
}

#[test]
fn size_hint_counts_the_slots_not_yet_seen() {
    let m = filled(&[0, 1, 6]);
    let mut it = m.iter();
    assert_eq!(it.size_hint(), (0, Some(4)));
    assert_eq!(it.next(), Some((&0, &"v0".to_string())));
    assert_eq!(it.size_hint(), (0, Some(3)));
    assert_eq!(it.next(), Some((&1, &"v1".to_string())));
    assert_eq!(it.size_hint(), (0, Some(2)));
    assert_eq!(it.next(), Some((&6, &"v6".to_string())));
    assert_eq!(it.size_hint(), (0, Some(1)));
    assert_eq!(it.next(), None);
    assert_eq!(it.size_hint(), (0, Some(0)));
}

#[test]
fn consuming_walk_hands_out_owned_pairs() {
    let m = filled(&[9, 4, 2]);
    let mut it = m.into_iter();
    assert_eq!(it.size_hint(), (0, Some(4)));
    let mut out: Vec<(usize, String)> = Vec::new();
    while let Some(pair) = it.next() {
        out.push(pair);
    }
    assert_eq!(
        out,
        vec![(4, "v4".to_string()), (9, "v9".to_string()), (2, "v2".to_string())]
    );
    assert_eq!(it.next(), None);
    assert_eq!(it.size_hint(), (0, Some(0)));
}

#[test]
fn consuming_walk_matches_borrowing_walk() {
    let m = filled(&[13, 0, 27, 6, 100]);
    let mut borrowed: Vec<(usize, String)> = Vec::new();
    let mut it = m.iter();
    while let Some((k, v)) = it.next() {
        borrowed.push((*k, v.clone()));
    }
    let mut owned: Vec<(usize, String)> = Vec::new();
    let mut it = m.into_iter();
    while let Some(pair) = it.next() {
        owned.push(pair);
    }
    assert_eq!(borrowed, owned);
    assert_eq!(owned.len(), 5);
}
