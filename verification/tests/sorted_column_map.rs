use pouch::{Bound, BuildError, ColumnEntry, FixedVec, SortedColumnMap};

#[test]
fn insert_keeps_order_get_and_replace() {
    let mut m: SortedColumnMap<Vec<i32>, Vec<&str>> = SortedColumnMap::new();
    assert_eq!(m.try_insert(2, "b"), Ok(None));
    assert_eq!(m.try_insert(1, "a"), Ok(None));
    assert_eq!(m.keys(), &[1, 2]);
    assert_eq!(m.values(), &["a", "b"]);
    assert_eq!(m.get(&1), Some(&"a"));
    assert_eq!(m.get(&9), None);
    assert_eq!(m.try_insert(1, "A"), Ok(Some("a")));
    assert_eq!(m.get(&1), Some(&"A"));
    assert_eq!(m.len(), 2);
    assert!(m.contains_key(&1));
    assert!(!m.contains_key(&9));
}

#[test]
fn remove_shifts_and_keeps_columns_aligned() {
    let mut m: SortedColumnMap<Vec<i32>, Vec<&str>> = SortedColumnMap::new();
    m.try_extend(vec![(3, "c"), (1, "a"), (2, "b")]).unwrap();
    assert_eq!(m.keys(), &[1, 2, 3]); // sorted regardless of insertion order
    assert_eq!(m.values(), &["a", "b", "c"]);
    assert_eq!(m.remove(&1), Some("a"));
    assert_eq!(m.keys(), &[2, 3]);
    assert_eq!(m.values(), &["b", "c"]);
    assert_eq!(m.get(&3), Some(&"c"));
    assert_eq!(m.get(&1), None);
    assert_eq!(m.remove(&1), None);
}

#[test]
fn try_from_iter_sorts_and_rejects_duplicate_key() {
    let m: SortedColumnMap<Vec<i32>, Vec<&str>> =
        SortedColumnMap::try_from_iter(vec![(3, "c"), (1, "a"), (2, "b")]).unwrap();
    assert_eq!(m.keys(), &[1, 2, 3]);
    assert_eq!(m.get(&2), Some(&"b"));
    let err = SortedColumnMap::<Vec<i32>, Vec<&str>>::try_from_iter(vec![(1, "a"), (2, "b"), (1, "z")])
        .expect_err("duplicate key 1");
    match err {
        BuildError::DuplicateKey(entry) => assert_eq!(entry, (1, "z")),
        BuildError::Capacity(_) | BuildError::Unsorted(_) => {
            panic!("expected a duplicate-key error")
        }
    }
}

#[test]
fn try_from_sorted_iter_rejects_unsorted_and_dup() {
    let m: SortedColumnMap<Vec<i32>, Vec<&str>> =
        SortedColumnMap::try_from_sorted_iter(vec![(1, "a"), (2, "b"), (5, "e")]).unwrap();
    assert_eq!(m.get(&5), Some(&"e"));
    let err = SortedColumnMap::<Vec<i32>, Vec<&str>>::try_from_sorted_iter(vec![(1, "a"), (3, "c"), (2, "b")])
        .expect_err("key 2 after key 3 is descending");
    match err {
        BuildError::Unsorted(entry) => assert_eq!(entry, (2, "b")),
        BuildError::Capacity(_) | BuildError::DuplicateKey(_) => {
            panic!("expected an unsorted error")
        }
    }
    let err2 = SortedColumnMap::<Vec<i32>, Vec<&str>>::try_from_sorted_iter(vec![(1, "a"), (1, "z"), (2, "b")])
        .expect_err("duplicate key 1");
    assert_eq!(err2.into_inner(), (1, "z"));
}

#[test]
fn sorted_column_map_extend_is_last_wins() {
    let mut m: SortedColumnMap<Vec<i32>, Vec<&str>> = SortedColumnMap::new();
    m.extend(vec![(1, "a"), (2, "b")]);
    m.extend(vec![(2, "B"), (3, "c")]); // key 2 overridden
    assert_eq!(m.len(), 3);
    assert_eq!(m.keys(), &[1, 2, 3]);
    assert_eq!(m.get(&2), Some(&"B"));
    assert_eq!(m.get(&3), Some(&"c"));
}

#[test]
fn sorted_column_map_entry_or_insert_inserts_then_updates_in_one_lookup() {
    let mut counts: SortedColumnMap<Vec<&str>, Vec<u32>> = SortedColumnMap::new();
    for w in ["b", "a", "b", "c", "a", "b"] {
        *counts.entry(w).or_insert(0) += 1;
    }
    assert_eq!(counts.get(&"a"), Some(&2));
    assert_eq!(counts.get(&"b"), Some(&3));
    assert_eq!(counts.get(&"c"), Some(&1));
    assert_eq!(counts.keys(), &["a", "b", "c"]);
    assert_eq!(counts.values(), &[2, 3, 1]);
}

#[test]
fn sorted_column_map_entry_and_modify_then_or_insert() {
    let mut m: SortedColumnMap<Vec<i32>, Vec<i32>> = SortedColumnMap::new();
    m.entry(1).and_modify(|v: &mut i32| *v += 100).or_insert(10);
    assert_eq!(m.get(&1), Some(&10));
    m.entry(1).and_modify(|v: &mut i32| *v += 100).or_insert(10);
    assert_eq!(m.get(&1), Some(&110));
}

#[test]
fn sorted_column_map_entry_occupied_insert_and_remove_keeps_order() {
    let mut m: SortedColumnMap<Vec<i32>, Vec<&str>> =
        SortedColumnMap::try_from_iter(vec![(1, "a"), (2, "b"), (3, "c")]).unwrap();
    match m.entry(2) {
        ColumnEntry::Occupied(mut e) => {
            assert_eq!(e.key(), &2);
            assert_eq!(e.insert("B"), "b"); // replace returns the old value
            assert_eq!(e.remove(), "B"); // then remove it
        }
        ColumnEntry::Vacant(_) => panic!("key 2 is present"),
    }
    assert_eq!(m.keys(), &[1, 3]);
    assert_eq!(m.values(), &["a", "c"]);
}

#[test]
fn sorted_column_map_entry_vacant_into_key_inserts_nothing() {
    let mut m: SortedColumnMap<Vec<i32>, Vec<&str>> = SortedColumnMap::new();
    match m.entry(7) {
        ColumnEntry::Vacant(e) => {
            assert_eq!(e.key(), &7);
            assert_eq!(e.into_key(), 7); // take the key back without inserting
        }
        ColumnEntry::Occupied(_) => panic!("the map is empty"),
    }
    assert!(m.is_empty());
}

#[test]
fn try_insert_monotonic_fast_path() {
    let mut m: SortedColumnMap<Vec<u32>, Vec<u32>> = SortedColumnMap::new();
    for k in 0..100u32 {
        assert_eq!(m.try_insert(k, k), Ok(None)); // every insert hits the tail append
    }
    assert!(m.keys().iter().copied().eq(0..100)); // sorted, unique
    assert_eq!(m.try_insert(99, 999), Ok(Some(99))); // equal-to-max key → replace, not append
    assert_eq!(m.len(), 100);
    assert_eq!(m.get(&99), Some(&999));
    assert_eq!(m.try_insert(200, 200), Ok(None)); // strictly-greater → fast-path append
    assert_eq!(m.try_insert(150, 150), Ok(None)); // mid-range → binary-search path
    assert!(m.keys().iter().copied().eq((0..100).chain([150, 200])));
    assert_eq!(m.get(&150), Some(&150));
    assert_eq!(m.values().len(), m.keys().len()); // columns stay length-locked
}

#[test]
fn sorted_column_map_get_mut_and_clear() {
    let mut m: SortedColumnMap<Vec<i32>, Vec<i32>> = SortedColumnMap::try_from_iter(vec![(2, 20), (1, 10)]).unwrap();
    *m.get_mut(&1).unwrap() += 5;
    assert_eq!(m.get(&1), Some(&15));
    assert_eq!(m.get_mut(&9), None);
    m.clear();
    assert!(m.is_empty());
    assert_eq!(m.keys(), &[] as &[i32]);
    assert_eq!(m.values(), &[] as &[i32]);
    m.try_insert(3, 30).unwrap(); // both columns usable again
    assert_eq!(m.keys(), &[3]);
}

#[test]
fn clone_and_eq() {
    let a: SortedColumnMap<Vec<i32>, Vec<&str>> = SortedColumnMap::try_from_iter(vec![(1, "a"), (2, "b")]).unwrap();
    let mut b = a.clone();
    assert_eq!(a, b); // PartialEq compares both columns
    b.try_insert(3, "c").unwrap();
    assert_ne!(a, b); // the clone is independent
    let c: SortedColumnMap<Vec<i32>, Vec<&str>> = SortedColumnMap::try_from_iter(vec![(2, "b"), (1, "a")]).unwrap();
    assert_eq!(a, c);
    let d: SortedColumnMap<Vec<i32>, Vec<&str>> = SortedColumnMap::try_from_iter(vec![(1, "a"), (2, "B")]).unwrap();
    assert_ne!(a, d);
}

#[test]
fn iter_is_key_ordered_and_first_last() {
    let m: SortedColumnMap<Vec<i32>, Vec<&str>> =
        SortedColumnMap::try_from_iter(vec![(3, "c"), (1, "a"), (2, "b")]).unwrap();
    let mut collected: Vec<(i32, &str)> = Vec::new();
    let mut it = m.iter();
    while let Some((&k, &v)) = it.next() {
        collected.push((k, v));
    }
    assert_eq!(collected, &[(1, "a"), (2, "b"), (3, "c")]);
    assert_eq!(m.first_key_value(), Some((&1, &"a")));
    assert_eq!(m.last_key_value(), Some((&3, &"c")));
    let (ks, vs) = m.into_stores();
    let owned: Vec<(i32, &str)> = ks.into_iter().zip(vs).collect();
    assert_eq!(owned, &[(1, "a"), (2, "b"), (3, "c")]);

    let empty: SortedColumnMap<Vec<i32>, Vec<&str>> = SortedColumnMap::new();
    assert_eq!(empty.first_key_value(), None);
    assert_eq!(empty.last_key_value(), None);
}

#[test]
fn iter_mut_and_values_mut_update_in_place() {
    let mut m: SortedColumnMap<Vec<i32>, Vec<i32>> =
        SortedColumnMap::try_from_iter(vec![(3, 30), (1, 10), (2, 20)]).unwrap();
    let mut entries = m.iter_mut();
    while let Some((k, v)) = entries.next() {
        *v += *k; // keys read-only, values mutable
    }
    assert_eq!(m.values(), &[11, 22, 33]); // ascending key order preserved
    let mut values = m.values_mut();
    while let Some(v) = values.next() {
        *v *= 2;
    }
    assert_eq!(m.values(), &[22, 44, 66]);
    assert_eq!(m.keys(), &[1, 2, 3]);
}

#[test]
fn retain_preserves_key_order_and_alignment() {
    let mut m: SortedColumnMap<Vec<i32>, Vec<i32>> =
        SortedColumnMap::try_from_iter(vec![(1, 10), (2, 20), (3, 30), (4, 40)]).unwrap();
    m.retain(|k: &i32, v: &mut i32| {
        *v += 1;
        k % 2 == 0
    });
    assert_eq!(m.keys(), &[2, 4]); // still sorted, columns aligned
    assert_eq!(m.values(), &[21, 41]);
    assert_eq!(m.get(&2), Some(&21));
    assert_eq!(m.get(&3), None);
}

#[test]
fn range_returns_aligned_subslices() {
    let m: SortedColumnMap<Vec<i32>, Vec<&str>> =
        SortedColumnMap::try_from_iter(vec![(1, "a"), (2, "b"), (3, "c"), (4, "d")]).unwrap();
    let (ks, vs) = m.range(Bound::Included(&2), Bound::Excluded(&4));
    assert_eq!(ks, &[2, 3]);
    assert_eq!(vs, &["b", "c"]);
    let (ks, vs) = m.range(Bound::Included(&3), Bound::Unbounded);
    assert_eq!(ks, &[3, 4]);
    assert_eq!(vs, &["c", "d"]);
    let (ks, vs) = m.range(Bound::Included(&9), Bound::Unbounded);
    assert!(ks.is_empty() && vs.is_empty());
}

#[test]
fn range_takes_borrowed_unsized_bounds() {
    let m: SortedColumnMap<Vec<String>, Vec<u32>> = SortedColumnMap::try_from_iter(vec![
        ("a".to_string(), 1),
        ("b".to_string(), 2),
        ("c".to_string(), 3),
    ])
    .unwrap();
    let b = "b".to_string();
    let (ks, vs) = m.range(Bound::Included(&b), Bound::Unbounded);
    assert_eq!(ks, &["b".to_string(), "c".to_string()]);
    assert_eq!(vs, &[2, 3]);
}

#[test]
fn sorted_column_map_capacity_reports_fixed_bound() {
    let m: SortedColumnMap<FixedVec<u8, 4>, FixedVec<u8, 4>> = SortedColumnMap::new();
    assert_eq!(m.capacity(), Some(4));
}

#[test]
fn sorted_column_map_try_insert_overflow_hands_back_the_pair() {
    let mut m: SortedColumnMap<FixedVec<u8, 2>, FixedVec<u8, 2>> = SortedColumnMap::new();
    m.try_insert(2, 20).unwrap();
    m.try_insert(3, 30).unwrap();
    let err = m.try_insert(1, 10).expect_err("at cap 2");
    assert_eq!(err.into_inner(), (1, 10));
    assert_eq!(m.len(), 2);
    assert_eq!(m.keys(), &[2, 3]);
    // A replacement at the bound still succeeds (consumes no capacity).
    assert_eq!(m.try_insert(2, 99), Ok(Some(20)));
}

#[test]
fn sorted_column_map_entry_or_try_insert_respects_capacity() {
    let mut m: SortedColumnMap<FixedVec<u8, 2>, FixedVec<u8, 2>> = SortedColumnMap::new();
    m.try_extend(vec![(2, 20), (3, 30)]).unwrap();

    *m.entry(2).or_try_insert(0).expect("update consumes no capacity") = 21;
    assert_eq!(m.get(&2), Some(&21));

    let err = m.entry(1).or_try_insert(10).expect_err("columns are full");
    assert_eq!(err.into_inner(), (1, 10));
    assert_eq!(m.len(), 2);
    assert_eq!(m.keys(), &[2, 3]);
}

#[test]
fn sorted_column_map_from_sorted_iter_dup_beats_capacity() {
    let err = SortedColumnMap::<FixedVec<u8, 2>, FixedVec<u8, 2>>::try_from_sorted_iter(vec![(1, 1), (1, 2)])
        .expect_err("duplicate key 1");
    assert_eq!(err.into_inner(), (1, 2));
}

#[test]
fn sorted_column_map_capacity_is_min_of_the_two_columns() {
    let mut m: SortedColumnMap<FixedVec<u8, 2>, Vec<u16>> = SortedColumnMap::new();
    assert_eq!(m.capacity(), Some(2));
    m.try_insert(1, 10).unwrap();
    m.try_insert(2, 20).unwrap();
    let err = m.try_insert(3, 30).expect_err("key column is full at 2");
    assert_eq!(err.into_inner(), (3, 30));
    assert_eq!(m.len(), 2);
}

#[test]
fn rebuilding_from_the_entries_gives_back_both_columns() {
    let m: SortedColumnMap<Vec<u8>, Vec<u16>> =
        SortedColumnMap::try_from_iter(vec![(9, 90), (2, 20), (5, 50)]).unwrap();
    let entries: Vec<(u8, u16)> = m.keys().iter().copied().zip(m.values().iter().copied()).collect();
    let m2: SortedColumnMap<Vec<u8>, Vec<u16>> = SortedColumnMap::try_from_iter(entries).unwrap();
    assert_eq!(m2.keys(), m.keys());
    assert_eq!(m2.values(), m.values());
    assert_eq!(m2.values(), &[20, 50, 90]);
}
