use pouch::{BuildError, ColumnEntry, FixedVec, UnsortedColumnMap};

#[test]
fn insert_get_and_replace() {
    let mut m: UnsortedColumnMap<Vec<i32>, Vec<&str>> = UnsortedColumnMap::new();
    assert_eq!(m.try_insert(1, "a"), Ok(None));
    assert_eq!(m.try_insert(2, "b"), Ok(None));
    assert_eq!(m.get(&1), Some(&"a"));
    assert_eq!(m.get(&9), None);
    assert_eq!(m.try_insert(1, "A"), Ok(Some("a")));
    assert_eq!(m.get(&1), Some(&"A"));
    assert_eq!(m.len(), 2);
    assert!(m.contains_key(&1));
    assert!(!m.contains_key(&9));
}

#[test]
fn remove_swaps_and_keeps_columns_aligned() {
    let mut m: UnsortedColumnMap<Vec<i32>, Vec<&str>> = UnsortedColumnMap::new();
    m.try_extend(vec![(1, "a"), (2, "b"), (3, "c")]).unwrap();
    assert_eq!(m.remove(&1), Some("a"));
    assert_eq!(m.keys(), &[3, 2]);
    assert_eq!(m.values(), &["c", "b"]);
    assert_eq!(m.get(&3), Some(&"c"));
    assert_eq!(m.get(&2), Some(&"b"));
    assert_eq!(m.get(&1), None);
    assert_eq!(m.remove(&1), None);
}

#[test]
fn try_from_iter_rejects_duplicate_key() {
    let err = UnsortedColumnMap::<Vec<i32>, Vec<&str>>::try_from_iter(vec![(1, "a"), (2, "b"), (1, "z")])
        .expect_err("duplicate key 1");
    match err {
        BuildError::DuplicateKey(entry) => assert_eq!(entry, (1, "z")),
        BuildError::Capacity(_) | BuildError::Unsorted(_) => {
            panic!("expected a duplicate-key error")
        }
    }
}

#[test]
fn column_map_extend_is_last_wins() {
    let mut m: UnsortedColumnMap<Vec<i32>, Vec<&str>> = UnsortedColumnMap::new();
    m.extend(vec![(1, "a"), (2, "b")]);
    m.extend(vec![(2, "B"), (3, "c")]); // key 2 overridden
    assert_eq!(m.len(), 3);
    assert_eq!(m.get(&2), Some(&"B"));
    assert_eq!(m.get(&3), Some(&"c"));
}

#[test]
fn column_map_entry_or_insert_inserts_then_updates_in_one_lookup() {
    let mut counts: UnsortedColumnMap<Vec<&str>, Vec<u32>> = UnsortedColumnMap::new();
    for w in ["a", "b", "a", "c", "a", "b"] {
        *counts.entry(w).or_insert(0) += 1;
    }
    assert_eq!(counts.get(&"a"), Some(&3));
    assert_eq!(counts.get(&"b"), Some(&2));
    assert_eq!(counts.get(&"c"), Some(&1));
    assert_eq!(counts.keys(), &["a", "b", "c"]);
    assert_eq!(counts.values(), &[3, 2, 1]);
}

#[test]
fn column_map_entry_and_modify_then_or_insert() {
    let mut m: UnsortedColumnMap<Vec<i32>, Vec<i32>> = UnsortedColumnMap::new();
    m.entry(1).and_modify(|v: &mut i32| *v += 100).or_insert(10);
    assert_eq!(m.get(&1), Some(&10));
    m.entry(1).and_modify(|v: &mut i32| *v += 100).or_insert(10);
    assert_eq!(m.get(&1), Some(&110));
}

#[test]
fn entry_occupied_insert_and_remove_swaps_columns() {
    let mut m: UnsortedColumnMap<Vec<i32>, Vec<&str>> = UnsortedColumnMap::new();
    m.try_extend(vec![(1, "a"), (2, "b"), (3, "c")]).unwrap();
    match m.entry(1) {
        ColumnEntry::Occupied(mut e) => {
            assert_eq!(e.key(), &1);
            assert_eq!(e.insert("A"), "a"); // replace returns the old value
            assert_eq!(e.remove(), "A"); // then swap-remove it
        }
        ColumnEntry::Vacant(_) => panic!("key 1 is present"),
    }
    assert_eq!(m.keys(), &[3, 2]);
    assert_eq!(m.values(), &["c", "b"]);
}

#[test]
fn column_map_entry_vacant_into_key_inserts_nothing() {
    let mut m: UnsortedColumnMap<Vec<i32>, Vec<&str>> = UnsortedColumnMap::new();
    match m.entry(7) {
        ColumnEntry::Vacant(e) => {
            assert_eq!(e.key(), &7);
            assert_eq!(e.into_key(), 7); // take the key back without inserting
        }
        ColumnEntry::Occupied(_) => panic!("the map is empty"),
    }
    assert!(m.is_empty());
}

#[test]
fn column_map_get_mut_and_clear() {
    let mut m: UnsortedColumnMap<Vec<i32>, Vec<i32>> = UnsortedColumnMap::new();
    m.try_extend(vec![(1, 10), (2, 20)]).unwrap();
    *m.get_mut(&2).unwrap() += 5;
    assert_eq!(m.get(&2), Some(&25));
    assert_eq!(m.get_mut(&9), None);
    m.clear();
    assert!(m.is_empty());
    assert_eq!(m.keys(), &[] as &[i32]);
    assert_eq!(m.values(), &[] as &[i32]);
    assert_eq!(m.try_insert(7, 70), Ok(None)); // both columns usable again
    assert_eq!(m.keys(), &[7]);
}

#[test]
fn column_map_clone_is_independent() {
    let mut a: UnsortedColumnMap<Vec<i32>, Vec<&str>> = UnsortedColumnMap::new();
    a.try_extend(vec![(1, "a"), (2, "b")]).unwrap();
    let b = a.clone();
    a.try_insert(3, "c").unwrap();
    assert_eq!(b.len(), 2); // clone unaffected by the later insert
    assert_eq!(b.get(&1), Some(&"a"));
    assert_eq!(b.get(&2), Some(&"b"));
    assert_eq!(b.get(&3), None);
}

#[test]
fn column_map_capacity_reports_fixed_bound() {
    let m: UnsortedColumnMap<FixedVec<u8, 4>, FixedVec<u8, 4>> = UnsortedColumnMap::new();
    assert_eq!(m.capacity(), Some(4));
}

#[test]
fn column_map_entry_or_try_insert_respects_capacity() {
    let mut m: UnsortedColumnMap<FixedVec<u8, 2>, FixedVec<u8, 2>> = UnsortedColumnMap::new();
    m.try_extend(vec![(1, 10), (2, 20)]).unwrap();

    // Occupied update in place succeeds even at capacity.
    *m.entry(1).or_try_insert(0).expect("update consumes no capacity") = 11;
    assert_eq!(m.get(&1), Some(&11));

    // A genuinely new key at the bound is rejected, handing back `(key, value)`;
    // nothing is half-inserted (both columns stay length 2).
    let err = m.entry(3).or_try_insert(30).expect_err("columns are full");
    assert_eq!(err.into_inner(), (3, 30));
    assert_eq!(m.len(), 2);
}

#[test]
fn column_map_try_insert_overflow_hands_back_the_pair() {
    let mut m: UnsortedColumnMap<FixedVec<u8, 2>, FixedVec<u8, 2>> = UnsortedColumnMap::new();
    m.try_insert(1, 10).unwrap();
    m.try_insert(2, 20).unwrap();
    let err = m.try_insert(3, 30).expect_err("at cap 2");
    assert_eq!(err.into_inner(), (3, 30));
    assert_eq!(m.len(), 2);
    // A replacement at the bound still succeeds (consumes no capacity).
    assert_eq!(m.try_insert(2, 99), Ok(Some(20)));
}

#[test]
fn column_map_capacity_is_min_of_the_two_columns() {
    // Bounded keys (cap 2), unbounded values: the map is bounded at 2.
    let mut m: UnsortedColumnMap<FixedVec<u8, 2>, Vec<u16>> = UnsortedColumnMap::new();
    assert_eq!(m.capacity(), Some(2));
    m.try_insert(1, 10).unwrap();
    m.try_insert(2, 20).unwrap();
    let err = m.try_insert(3, 30).expect_err("key column is full at 2");
    assert_eq!(err.into_inner(), (3, 30));
    assert_eq!(m.len(), 2);
}

#[test]
fn column_map_values_mut_and_retain_edit_values_in_place() {
    let mut m: UnsortedColumnMap<Vec<i32>, Vec<i32>> =
        UnsortedColumnMap::try_from_iter(vec![(3, 30), (1, 10), (2, 20)]).unwrap();
    let mut values = m.values_mut();
    assert_eq!(values.len(), 3);
    while let Some(v) = values.next() {
        *v += 1;
    }
    assert_eq!(m.values(), &[31, 11, 21]);
    assert_eq!(m.keys(), &[3, 1, 2]);
    m.retain(|k: &i32, v: &mut i32| {
        *v *= 2;
        *k != 1
    });
    assert_eq!(m.keys(), &[3, 2]);
    assert_eq!(m.values(), &[62, 42]);
}
