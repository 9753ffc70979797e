use pouch::{Bound, BuildError, Entry, FixedVec, SortedMap, UnsortedMap};

#[test]
fn sorted_try_from_iter_unique_keys() {
    let m: SortedMap<Vec<(i32, &str)>> = SortedMap::try_from_iter(vec![(3, "c"), (1, "a"), (2, "b")]).unwrap();
    assert_eq!(m.len(), 3);
    assert_eq!(m.get(&1), Some(&"a"));
    assert_eq!(m.get(&2), Some(&"b"));
    assert_eq!(m.get(&3), Some(&"c"));
}

#[test]
fn sorted_try_from_iter_rejects_duplicate_key() {
    let err = SortedMap::<Vec<(i32, &str)>>::try_from_iter(vec![(1, "a"), (2, "b"), (1, "z")])
        .expect_err("duplicate key 1");
    match err {
        BuildError::DuplicateKey(entry) => assert_eq!(entry.0, 1),
        BuildError::Capacity(_) | BuildError::Unsorted(_) => {
            panic!("expected a duplicate-key error")
        }
    }
}

#[test]
fn sorted_from_sorted_iter_rejects_dup_before_capacity() {
    let m: SortedMap<Vec<(i32, &str)>> = SortedMap::try_from_sorted_iter(vec![(1, "a"), (2, "b"), (5, "e")]).unwrap();
    assert_eq!(m.get(&5), Some(&"e"));

    // Sorted input detects the dup before appending, so the *second* entry is
    // handed back deterministically.
    let err = SortedMap::<Vec<(i32, &str)>>::try_from_sorted_iter(vec![(1, "a"), (1, "z"), (2, "b")])
        .expect_err("duplicate key 1");
    assert_eq!(err.into_inner(), (1, "z"));
}

#[test]
fn map_iter_is_double_ended_exact_and_fused() {
    let m: SortedMap<Vec<(i32, &str)>> = SortedMap::try_from_iter(vec![(1, "a"), (2, "b"), (3, "c")]).unwrap();
    let mut it = m.iter();
    assert_eq!(it.len(), 3);
    assert_eq!(it.next(), Some((&1, &"a")));
    assert_eq!(it.next_back(), Some((&3, &"c")));
    assert_eq!(it.len(), 1);
    assert_eq!(it.next(), Some((&2, &"b")));
    assert_eq!(it.next(), None);
    assert_eq!(it.next(), None); // fused
    let mut joined = String::new();
    let mut it = m.iter();
    while let Some((k, v)) = it.next() {
        joined.push_str(&format!("{k}{v}"));
    }
    assert_eq!(joined, "1a2b3c");
}

#[test]
fn map_lookups_take_borrowed_forms() {
    let mut m: SortedMap<Vec<(String, u32)>> =
        SortedMap::try_from_iter(vec![("a".to_string(), 1), ("b".to_string(), 2)]).unwrap();
    assert_eq!(m.get(&"a".to_string()), Some(&1));
    assert!(m.contains_key(&"b".to_string()));
    assert!(!m.contains_key(&"z".to_string()));
    *m.get_mut(&"a".to_string()).unwrap() += 10;
    assert_eq!(m.get(&"a".to_string()), Some(&11));
    let b = "b".to_string();
    assert_eq!(m.range(Bound::Included(&b), Bound::Unbounded), &[("b".to_string(), 2)]);
    assert_eq!(m.remove(&"a".to_string()), Some(11));
    assert_eq!(m.get(&"a".to_string()), None);

    let mut u: UnsortedMap<Vec<(String, u32)>> = UnsortedMap::try_from_iter(vec![("x".to_string(), 9)]).unwrap();
    assert_eq!(u.get(&"x".to_string()), Some(&9));
    assert!(u.contains_key(&"x".to_string()));
    *u.get_mut(&"x".to_string()).unwrap() = 10;
    assert_eq!(u.remove(&"x".to_string()), Some(10));
    assert_eq!(u.get(&"x".to_string()), None);
}

#[test]
fn maps_contains_key() {
    let sm: SortedMap<Vec<(i32, &str)>> = SortedMap::try_from_iter(vec![(2, "b"), (1, "a")]).unwrap();
    assert!(sm.contains_key(&1));
    assert!(!sm.contains_key(&3));

    let mut um: UnsortedMap<Vec<(i32, &str)>> = UnsortedMap::new();
    um.try_insert(5, "e").unwrap();
    assert!(um.contains_key(&5));
    assert!(!um.contains_key(&6));
}

#[test]
fn sorted_remove_returns_value_and_keeps_order() {
    let mut m: SortedMap<Vec<(i32, &str)>> = SortedMap::try_from_iter(vec![(3, "c"), (1, "a"), (2, "b")]).unwrap();
    assert_eq!(m.remove(&2), Some("b"));
    assert_eq!(m.remove(&2), None); // already gone
    assert_eq!(m.len(), 2);
    assert_eq!(m.get(&1), Some(&"a"));
    assert_eq!(m.get(&3), Some(&"c"));
}

#[test]
fn sorted_try_insert_monotonic_fast_path() {
    let mut m: SortedMap<Vec<(u32, u32)>> = SortedMap::new();
    for k in 0..100u32 {
        assert_eq!(m.insert(k, k), None); // every insert hits the tail append
    }
    assert!(m.keys().into_iter().copied().eq(0..100)); // sorted, unique
    assert_eq!(m.insert(99, 999), Some(99)); // equal-to-max key → replace, not append
    assert_eq!(m.len(), 100);
    assert_eq!(m.get(&99), Some(&999));
    m.insert(200, 200); // strictly-greater → fast-path append
    m.insert(150, 150); // mid-range → binary-search path
    assert!(m.keys().into_iter().copied().eq((0..100).chain([150, 200])));
    assert_eq!(m.get(&150), Some(&150));
}

#[test]
fn sorted_as_slice_is_key_ordered() {
    let m: SortedMap<Vec<(i32, &str)>> = SortedMap::try_from_iter(vec![(3, "c"), (1, "a"), (2, "b")]).unwrap();
    assert_eq!(m.as_slice(), &[(1, "a"), (2, "b"), (3, "c")]);
    let keys: Vec<i32> = m.as_slice().iter().map(|(k, _)| *k).collect();
    assert_eq!(keys, &[1, 2, 3]);
}

#[test]
fn unsorted_as_slice_enumerates_entries() {
    let mut m: UnsortedMap<Vec<(i32, &str)>> = UnsortedMap::new();
    m.try_insert(1, "a").unwrap();
    m.try_insert(2, "b").unwrap();
    m.try_insert(3, "c").unwrap();
    assert_eq!(m.as_slice(), &[(1, "a"), (2, "b"), (3, "c")]);
    assert_eq!(m.remove(&1), Some("a")); // last entry swaps into slot 0
    assert_eq!(m.as_slice(), &[(3, "c"), (2, "b")]);
}

#[test]
fn map_extend_is_last_wins() {
    let mut m: SortedMap<Vec<(i32, &str)>> = SortedMap::new();
    m.extend(vec![(1, "a"), (2, "b")]);
    m.extend(vec![(2, "B"), (3, "c")]); // key 2 overridden
    assert_eq!(m.len(), 3);
    assert_eq!(m.get(&2), Some(&"B"));
    assert_eq!(m.get(&3), Some(&"c"));
}

#[test]
fn unsorted_try_from_iter_rejects_duplicate_key() {
    let err = UnsortedMap::<Vec<(i32, &str)>>::try_from_iter(vec![(1, "a"), (2, "b"), (1, "z")])
        .expect_err("duplicate key 1");
    assert_eq!(err.into_inner(), (1, "z"));
}

#[test]
fn sorted_try_from_sorted_iter_rejects_unsorted_keys() {
    let err = SortedMap::<Vec<(i32, &str)>>::try_from_sorted_iter(vec![(1, "a"), (3, "c"), (2, "b")])
        .expect_err("key 2 after key 3 is descending");
    match err {
        BuildError::Unsorted(entry) => assert_eq!(entry, (2, "b")),
        BuildError::Capacity(_) | BuildError::DuplicateKey(_) => {
            panic!("expected an unsorted error")
        }
    }
}

#[test]
fn map_entry_or_insert_inserts_then_updates_in_one_lookup() {
    let mut counts: SortedMap<Vec<(&str, u32)>> = SortedMap::new();
    for w in ["a", "b", "a", "c", "a", "b"] {
        *counts.entry(w).or_insert(0) += 1;
    }
    assert_eq!(counts.get(&"a"), Some(&3));
    assert_eq!(counts.get(&"b"), Some(&2));
    assert_eq!(counts.get(&"c"), Some(&1));
    assert_eq!(counts.as_slice(), &[("a", 3), ("b", 2), ("c", 1)]);
}

#[test]
fn map_entry_and_modify_then_or_insert() {
    let mut m: SortedMap<Vec<(i32, i32)>> = SortedMap::new();
    m.entry(1).and_modify(|v: &mut i32| *v += 100).or_insert(10);
    assert_eq!(m.get(&1), Some(&10));
    m.entry(1).and_modify(|v: &mut i32| *v += 100).or_insert(10);
    assert_eq!(m.get(&1), Some(&110));
}

#[test]
fn map_entry_occupied_insert_and_remove_keeps_order() {
    let mut m: SortedMap<Vec<(i32, &str)>> = SortedMap::try_from_iter(vec![(1, "a"), (2, "b"), (3, "c")]).unwrap();
    match m.entry(2) {
        Entry::Occupied(mut e) => {
            assert_eq!(e.key(), &2);
            assert_eq!(e.insert("B"), "b"); // replace returns the old value
            assert_eq!(e.remove(), "B"); // then remove it
        }
        Entry::Vacant(_) => panic!("key 2 is present"),
    }
    assert_eq!(m.as_slice(), &[(1, "a"), (3, "c")]);
}

#[test]
fn map_entry_vacant_into_key_inserts_nothing() {
    let mut m: SortedMap<Vec<(i32, &str)>> = SortedMap::new();
    match m.entry(7) {
        Entry::Vacant(e) => {
            assert_eq!(e.key(), &7);
            assert_eq!(e.into_key(), 7); // take the key back without inserting
        }
        Entry::Occupied(_) => panic!("the map is empty"),
    }
    assert!(m.is_empty());
}

#[test]
fn unsorted_entry_occupied_removes_by_swap() {
    let mut m: UnsortedMap<Vec<(i32, &str)>> = UnsortedMap::new();
    for (k, v) in [(1, "a"), (2, "b"), (3, "c")] {
        m.try_insert(k, v).unwrap();
    }
    match m.entry(1) {
        Entry::Occupied(e) => assert_eq!(e.remove(), "a"),
        Entry::Vacant(_) => panic!("key 1 is present"),
    }
    assert_eq!(m.as_slice(), &[(3, "c"), (2, "b")]);
    // A vacant entry appends.
    *m.entry(9).or_insert("z") = "Z";
    assert_eq!(m.get(&9), Some(&"Z"));
}

#[test]
fn insert_is_infallible_on_unbounded_stores() {
    let mut m: SortedMap<Vec<(i32, &str)>> = SortedMap::new();
    assert_eq!(m.insert(2, "b"), None);
    assert_eq!(m.insert(1, "a"), None);
    assert_eq!(m.insert(2, "B"), Some("b")); // replace hands back the old value
    assert_eq!(m.as_slice(), &[(1, "a"), (2, "B")]);

    let mut um: UnsortedMap<Vec<(i32, &str)>> = UnsortedMap::new();
    assert_eq!(um.insert(1, "a"), None);
    assert_eq!(um.insert(1, "A"), Some("a"));
    assert_eq!(um.get(&1), Some(&"A"));
}

#[test]
fn from_sorted_iter_builds_in_order() {
    let m = SortedMap::<Vec<(i32, &str)>>::from_sorted_iter(vec![(1, "a"), (2, "b")]);
    assert_eq!(m.as_slice(), &[(1, "a"), (2, "b")]);
}

#[test]
fn iteration_accessors_walk_entries() {
    let m: SortedMap<Vec<(i32, i32)>> = SortedMap::try_from_iter(vec![(2, 20), (1, 10), (3, 30)]).unwrap();
    let mut it = m.iter();
    assert_eq!(it.next(), Some((&1, &10)));
    assert_eq!(it.next(), Some((&2, &20)));
    assert_eq!(it.next(), Some((&3, &30)));
    assert_eq!(it.next(), None);
    assert!(m.iter().next_back() == Some((&3, &30))); // double-ended
    assert_eq!(m.keys(), vec![&1, &2, &3]);
    assert_eq!(m.values(), vec![&10, &20, &30]);
    assert_eq!(m.first_key_value(), Some((&1, &10)));
    assert_eq!(m.last_key_value(), Some((&3, &30)));
    // by-value consumption yields owned entries.
    let owned: Vec<(i32, i32)> = m.into_store();
    assert_eq!(owned, &[(1, 10), (2, 20), (3, 30)]);

    let um: UnsortedMap<Vec<(i32, i32)>> = UnsortedMap::try_from_iter(vec![(1, 10), (2, 20)]).unwrap();
    assert_eq!(um.iter().len(), 2);
    assert_eq!(um.keys().len(), 2);
}

#[test]
fn values_mut_and_iter_mut_update_in_place() {
    let mut m: SortedMap<Vec<(i32, i32)>> = SortedMap::try_from_iter(vec![(1, 10), (2, 20)]).unwrap();
    let mut values = m.values_mut();
    while let Some(v) = values.next() {
        *v += 1;
    }
    assert_eq!(m.as_slice(), &[(1, 11), (2, 21)]);
    let mut entries = m.iter_mut();
    while let Some((k, v)) = entries.next() {
        *v += *k;
    }
    assert_eq!(m.as_slice(), &[(1, 12), (2, 23)]);
}

#[test]
fn retain_filters_and_can_mutate_kept_values() {
    let mut m: SortedMap<Vec<(i32, i32)>> =
        SortedMap::try_from_iter(vec![(1, 10), (2, 20), (3, 30), (4, 40)]).unwrap();
    m.retain(|k: &i32, v: &mut i32| {
        *v += 1; // mutate every visited value, keep even keys only
        k % 2 == 0
    });
    assert_eq!(m.as_slice(), &[(2, 21), (4, 41)]); // key order preserved

    let mut um: UnsortedMap<Vec<(i32, i32)>> = UnsortedMap::try_from_iter(vec![(1, 10), (2, 20), (3, 30)]).unwrap();
    um.retain(|k: &i32, _: &mut i32| *k != 2);
    assert_eq!(um.len(), 2);
    assert!(!um.contains_key(&2));
}

#[test]
fn range_returns_key_bounded_subslice() {
    let m: SortedMap<Vec<(i32, &str)>> =
        SortedMap::try_from_iter(vec![(1, "a"), (3, "c"), (5, "e"), (7, "g")]).unwrap();
    assert_eq!(m.range(Bound::Included(&3), Bound::Excluded(&7)), &[(3, "c"), (5, "e")]);
    assert_eq!(m.range(Bound::Unbounded, Bound::Included(&3)), &[(1, "a"), (3, "c")]);
    assert_eq!(m.range(Bound::Included(&4), Bound::Unbounded), &[(5, "e"), (7, "g")]);
    assert_eq!(m.range(Bound::Unbounded, Bound::Unbounded), m.as_slice());
}

#[test]
fn get_mut_updates_in_place() {
    let mut sm: SortedMap<Vec<(i32, i32)>> = SortedMap::try_from_iter(vec![(1, 10), (2, 20)]).unwrap();
    *sm.get_mut(&1).unwrap() += 5;
    assert_eq!(sm.get(&1), Some(&15));
    assert_eq!(sm.get_mut(&9), None);

    let mut um: UnsortedMap<Vec<(i32, i32)>> = UnsortedMap::new();
    um.try_insert(1, 10).unwrap();
    *um.get_mut(&1).unwrap() = 99;
    assert_eq!(um.get(&1), Some(&99));
    assert_eq!(um.get_mut(&9), None);
}

#[test]
fn clear_empties_both_map_flavors() {
    let mut sm: SortedMap<Vec<(i32, &str)>> = SortedMap::try_from_iter(vec![(1, "a"), (2, "b")]).unwrap();
    sm.clear();
    assert!(sm.is_empty());
    assert_eq!(sm.get(&1), None);
    assert_eq!(sm.try_insert(3, "c"), Ok(None)); // usable again
    assert_eq!(sm.as_slice(), &[(3, "c")]);

    let mut um: UnsortedMap<Vec<(i32, &str)>> = UnsortedMap::new();
    um.try_insert(1, "a").unwrap();
    um.clear();
    assert!(um.is_empty());
    assert_eq!(um.get(&1), None);
}

#[test]
fn clone_and_eq_for_sorted_map() {
    let a: SortedMap<Vec<(i32, &str)>> = SortedMap::try_from_iter(vec![(1, "a"), (2, "b")]).unwrap();
    let mut b = a.clone();
    assert_eq!(a, b); // PartialEq compares keys *and* values
    b.try_insert(3, "c").unwrap();
    assert_ne!(a, b); // the clone is independent
    assert_eq!(a.len(), 2);
    let c: SortedMap<Vec<(i32, &str)>> = SortedMap::try_from_iter(vec![(2, "b"), (1, "a")]).unwrap();
    assert_eq!(a, c);
    let d: SortedMap<Vec<(i32, &str)>> = SortedMap::try_from_iter(vec![(1, "a"), (2, "B")]).unwrap();
    assert_ne!(a, d);
}

#[test]
fn clone_for_unsorted_map_is_independent() {
    let mut a: UnsortedMap<Vec<(i32, &str)>> = UnsortedMap::new();
    a.try_insert(1, "a").unwrap();
    let b = a.clone();
    a.try_insert(2, "b").unwrap();
    assert_eq!(b.len(), 1); // clone unaffected
    assert_eq!(b.get(&1), Some(&"a"));
}

#[test]
fn try_from_iter_capacity_overflow() {
    let err = SortedMap::<FixedVec<(u8, u8), 2>>::try_from_iter(vec![(1, 1), (2, 2), (3, 3)])
        .expect_err("third entry overflows cap 2");
    match err {
        BuildError::Capacity(entry) => assert_eq!(entry, (3, 3)),
        BuildError::DuplicateKey(_) | BuildError::Unsorted(_) => {
            panic!("expected a capacity error")
        }
    }
}

#[test]
fn map_capacity_reports_fixed_bound() {
    let m: SortedMap<FixedVec<(u8, u8), 4>> = SortedMap::new();
    assert_eq!(m.capacity(), Some(4));
}

#[test]
fn map_entry_or_try_insert_respects_capacity() {
    let mut m: SortedMap<FixedVec<(u8, u8), 2>> = SortedMap::try_from_sorted_iter(vec![(1, 10), (2, 20)]).unwrap();

    // Occupied update in place succeeds even at capacity.
    *m.entry(1).or_try_insert(0).expect("update consumes no capacity") = 11;
    assert_eq!(m.get(&1), Some(&11));

    // A genuinely new key at the bound is rejected, handing back `(key, value)`.
    let err = m.entry(3).or_try_insert(30).expect_err("store is full");
    assert_eq!(err.into_inner(), (3, 30));
    assert_eq!(m.len(), 2);
}

#[test]
fn map_from_sorted_iter_dup_beats_capacity() {
    let err = SortedMap::<FixedVec<(u8, u8), 2>>::try_from_sorted_iter(vec![(1, 1), (1, 2)])
        .expect_err("duplicate key 1");
    assert_eq!(err.into_inner(), (1, 2));
}
