use pouch::store::{Store, StoreMut};
use pouch::{
    chunked_position, combined_capacity, compare, Bag, BuildError, CapacityError, Capped, ColumnEntry, Entry,
    FixedVec, Order, ScratchVec, SortedColumnMap, SortedMap, SortedSet, Spill, UnsortedColumnMap, UnsortedMap,
    UnsortedSet,
};

#[test]
fn sorted_sets_with_the_same_elements_store_the_same_sequence() {
    let a: SortedSet<Vec<u32>> = SortedSet::try_from_iter(vec![9, 2, 7, 2, 4]).unwrap();
    let b: SortedSet<Vec<u32>> = SortedSet::try_from_iter(vec![4, 7, 9, 2]).unwrap();
    let mut c: SortedSet<Vec<u32>> = SortedSet::new();
    for x in [7, 4, 9, 2] {
        c.insert(x);
    }
    assert_eq!(a.as_slice(), &[2, 4, 7, 9]);
    assert_eq!(a, b);
    assert_eq!(a, c);
}

#[test]
fn sorted_maps_with_the_same_bindings_store_the_same_entries() {
    let a: SortedMap<Vec<(u8, char)>> = SortedMap::try_from_iter(vec![(3, 'c'), (1, 'a'), (2, 'b')]).unwrap();
    let mut b: SortedMap<Vec<(u8, char)>> = SortedMap::new();
    b.insert(2, 'x');
    b.insert(1, 'a');
    b.insert(3, 'c');
    b.insert(2, 'b');
    assert_eq!(a.as_slice(), b.as_slice());
    assert_eq!(a, b);
}

#[test]
fn remove_undoes_insert_on_a_sorted_set() {
    let mut s: SortedSet<Vec<i64>> = SortedSet::try_from_iter(vec![10, -3, 42]).unwrap();
    let before = s.as_slice().to_vec();
    assert_eq!(s.try_insert(5), Ok(true));
    assert_eq!(s.as_slice(), &[-3, 5, 10, 42]);
    assert!(s.remove(&5));
    assert_eq!(s.as_slice(), before.as_slice());
}

#[test]
fn get_after_insert_and_remove_after_fresh_insert() {
    let mut m: SortedMap<Vec<(u16, u16)>> = SortedMap::try_from_iter(vec![(5, 50), (1, 10)]).unwrap();
    let before = m.as_slice().to_vec();
    assert_eq!(m.insert(3, 30), None);
    assert_eq!(m.get(&3), Some(&30));
    assert_eq!(m.get(&5), Some(&50)); // other keys answer as before
    assert_eq!(m.remove(&3), Some(30));
    assert_eq!(m.as_slice(), before.as_slice());

    let mut u: UnsortedMap<Vec<(u16, u16)>> = UnsortedMap::new();
    u.insert(4, 40);
    assert_eq!(u.get(&4), Some(&40));
    assert_eq!(u.insert(4, 44), Some(40));
    assert_eq!(u.get(&4), Some(&44));
}

#[test]
fn bulk_insert_is_last_wins_for_every_map() {
    let items = vec![(1, 'a'), (2, 'b'), (1, 'c'), (3, 'd'), (2, 'e')];
    let mut s: SortedMap<Vec<(i32, char)>> = SortedMap::new();
    s.try_extend(items.clone()).unwrap();
    assert_eq!(s.as_slice(), &[(1, 'c'), (2, 'e'), (3, 'd')]);
    let mut u: UnsortedMap<Vec<(i32, char)>> = UnsortedMap::new();
    u.try_extend(items.clone()).unwrap();
    assert_eq!(u.as_slice(), &[(1, 'c'), (2, 'e'), (3, 'd')]);
    let mut c: UnsortedColumnMap<Vec<i32>, Vec<char>> = UnsortedColumnMap::new();
    c.try_extend(items.clone()).unwrap();
    assert_eq!(c.values(), &['c', 'e', 'd']);
    let mut sc: SortedColumnMap<Vec<i32>, Vec<char>> = SortedColumnMap::new();
    sc.try_extend(items).unwrap();
    assert_eq!(sc.keys(), &[1, 2, 3]);
    assert_eq!(sc.values(), &['c', 'e', 'd']);
}

#[test]
fn pop_undoes_push() {
    let mut bag: Bag<Vec<u8>> = Bag::try_from_iter(vec![4, 4, 1]).unwrap();
    bag.push(9);
    assert_eq!(bag.pop(), Some(9));
    assert_eq!(bag.as_slice(), &[4, 4, 1]);
}

#[test]
fn set_algebra_is_the_set_operations() {
    let a: SortedSet<Vec<u8>> = SortedSet::try_from_iter(vec![1, 3, 5, 7, 9, 11]).unwrap();
    let b: SortedSet<Vec<u8>> = SortedSet::try_from_iter(vec![3, 4, 5, 6, 11, 12]).unwrap();
    assert_eq!(a.union(&b).to_vec(), vec![&1, &3, &4, &5, &6, &7, &9, &11, &12]);
    assert_eq!(a.intersection(&b).to_vec(), vec![&3, &5, &11]);
    assert_eq!(a.difference(&b).to_vec(), vec![&1, &7, &9]);
    assert_eq!(a.symmetric_difference(&b).to_vec(), vec![&1, &4, &6, &7, &9, &12]);
    let mut it = a.intersection(&b);
    assert_eq!(it.next(), Some(&3));
    assert_eq!(it.next(), Some(&5));
    assert_eq!(it.next(), Some(&11));
    assert_eq!(it.next(), None);
}

#[test]
fn capacity_error_and_build_error_hand_back_the_element() {
    let e = CapacityError::new(7u8);
    assert_eq!(e.message(), "store is at logical capacity");
    assert_eq!(e.into_inner(), 7);
    let b: BuildError<u8> = BuildError::from(CapacityError::new(3u8));
    assert_eq!(b, BuildError::Capacity(3));
    assert_eq!(b.message(), "store is at logical capacity");
    assert_eq!(BuildError::DuplicateKey(1u8).message(), "duplicate key in bulk build");
    assert_eq!(BuildError::Unsorted(1u8).message(), "input was not in ascending order");
    assert_eq!(BuildError::Unsorted(4u8).into_inner(), 4);
    assert_eq!(BuildError::DuplicateKey(5u8).into_inner(), 5);
}

#[test]
fn every_builder_reports_each_error_variant() {
    // Capacity: the first item past the bound is handed back.
    let err = SortedSet::<FixedVec<u8, 2>>::try_from_sorted_iter(vec![1, 2, 3]).unwrap_err();
    assert_eq!(err, BuildError::Capacity(3));
    let err = UnsortedSet::<FixedVec<u8, 2>>::try_from_iter(vec![1, 2, 2, 3]).unwrap_err();
    assert_eq!(err.into_inner(), 3);
    let err = UnsortedMap::<FixedVec<(u8, u8), 1>>::try_from_iter(vec![(1, 1), (2, 2)]).unwrap_err();
    assert_eq!(err, BuildError::Capacity((2, 2)));
    let err = UnsortedColumnMap::<FixedVec<u8, 1>, Vec<u8>>::try_from_iter(vec![(1, 1), (2, 2)]).unwrap_err();
    assert_eq!(err, BuildError::Capacity((2, 2)));
    let err = SortedColumnMap::<Vec<u8>, FixedVec<u8, 1>>::try_from_iter(vec![(2, 2), (1, 1)]).unwrap_err();
    assert_eq!(err, BuildError::Capacity((1, 1)));
    let err = SortedMap::<FixedVec<(u8, u8), 1>>::try_from_sorted_iter(vec![(1, 1), (2, 2)]).unwrap_err();
    assert_eq!(err, BuildError::Capacity((2, 2)));
    let err = SortedColumnMap::<FixedVec<u8, 1>, FixedVec<u8, 1>>::try_from_sorted_iter(vec![(1, 1), (2, 2)]).unwrap_err();
    assert_eq!(err, BuildError::Capacity((2, 2)));
    // Duplicate keys.
    let err = SortedMap::<Vec<(u8, u8)>>::try_from_sorted_iter(vec![(1, 1), (1, 2)]).unwrap_err();
    assert_eq!(err, BuildError::DuplicateKey((1, 2)));
    let err = UnsortedColumnMap::<Vec<u8>, Vec<u8>>::try_from_iter(vec![(4, 1), (4, 2)]).unwrap_err();
    assert_eq!(err, BuildError::DuplicateKey((4, 2)));
    // Unsorted input.
    let err = SortedColumnMap::<Vec<u8>, Vec<u8>>::try_from_sorted_iter(vec![(2, 1), (1, 2)]).unwrap_err();
    assert_eq!(err, BuildError::Unsorted((1, 2)));
    // Success exactly when the input fits and is well formed.
    let ok = SortedMap::<FixedVec<(u8, u8), 2>>::try_from_iter(vec![(2, 2), (1, 1)]).unwrap();
    assert_eq!(ok.as_slice(), &[(1, 1), (2, 2)]);
}

#[test]
fn duplicate_inserts_never_fail_even_when_full() {
    let mut s: UnsortedSet<FixedVec<u8, 1>> = UnsortedSet::new();
    assert_eq!(s.try_insert(1), Ok(true));
    assert_eq!(s.try_insert(1), Ok(false));
    assert_eq!(s.try_insert(2), Err(CapacityError::new(2)));
    let mut m: UnsortedMap<FixedVec<(u8, u8), 1>> = UnsortedMap::new();
    assert_eq!(m.try_insert(1, 1), Ok(None));
    assert_eq!(m.try_insert(1, 5), Ok(Some(1)));
    assert_eq!(m.try_insert(2, 2), Err(CapacityError::new((2, 2))));
    let mut bag: Bag<Capped<Vec<u8>>> = Bag::from_store(Capped::with_capacity(1));
    assert_eq!(bag.try_push(1), Ok(()));
    assert_eq!(bag.try_push(1), Err(CapacityError::new(1)));
}

#[test]
fn combined_capacity_is_the_tighter_bound() {
    assert_eq!(combined_capacity(Some(3), Some(5)), Some(3));
    assert_eq!(combined_capacity(Some(8), Some(2)), Some(2));
    assert_eq!(combined_capacity(None, Some(4)), Some(4));
    assert_eq!(combined_capacity(Some(6), None), Some(6));
    assert_eq!(combined_capacity(None, None), None);
}

#[test]
fn chunked_position_finds_the_first_match_in_any_chunk() {
    let keys: Vec<u32> = (0..20).map(|x| x % 13).collect();
    assert_eq!(chunked_position(&keys, &5), Some(5));
    assert_eq!(chunked_position(&keys, &2), Some(2));
    assert_eq!(chunked_position(&keys, &12), Some(12));
    assert_eq!(chunked_position(&keys, &19), None);
    assert_eq!(chunked_position(&keys[..3], &7), None);
    let bag: Bag<Vec<u32>> = Bag::try_from_iter(keys).unwrap();
    assert!(bag.contains(&6) && !bag.contains(&40));
}

#[test]
fn compare_is_the_three_way_order() {
    assert_eq!(compare(&1, &2), Order::Less);
    assert_eq!(compare(&2, &2), Order::Equal);
    assert_eq!(compare(&"b", &"a"), Order::Greater);
}

#[test]
fn entry_handles_reach_the_slot() {
    let mut m: SortedMap<Vec<(u8, Vec<u8>)>> = SortedMap::new();
    m.entry(2).or_default().push(7);
    m.entry(2).or_default().push(8);
    m.entry(1).or_insert_with(|| vec![1]);
    assert_eq!(m.as_slice(), &[(1, vec![1]), (2, vec![7, 8])]);
    match m.entry(2) {
        Entry::Occupied(mut e) => {
            assert_eq!(e.get(), &vec![7, 8]);
            e.get_mut().push(9);
            let v = e.into_mut();
            v.push(10);
        }
        Entry::Vacant(_) => panic!("key 2 is present"),
    }
    assert_eq!(m.get(&2), Some(&vec![7, 8, 9, 10]));
    match m.entry(0) {
        Entry::Vacant(e) => {
            e.insert(vec![0]);
        }
        Entry::Occupied(_) => panic!("key 0 is absent"),
    }
    match m.entry(1) {
        Entry::Occupied(e) => assert_eq!(e.remove_entry(), (1, vec![1])),
        Entry::Vacant(_) => panic!("key 1 is present"),
    }
    assert_eq!(m.as_slice(), &[(0, vec![0]), (2, vec![7, 8, 9, 10])]);
    assert_eq!(*m.entry(5).or_try_insert_with(|| vec![5]).unwrap(), vec![5]);

    let mut c: UnsortedColumnMap<Vec<u8>, Vec<u32>> = UnsortedColumnMap::new();
    *c.entry(3).or_default() += 2;
    *c.entry(3).or_insert_with(|| 100) += 1;
    match c.entry(3) {
        ColumnEntry::Occupied(e) => assert_eq!(e.remove_entry(), (3, 3)),
        ColumnEntry::Vacant(_) => panic!("key 3 is present"),
    }
    assert!(c.is_empty());
}

#[test]
fn store_adapters_report_their_parts() {
    let c: Capped<Vec<u8>> = Capped::from_store(vec![1, 2], 4);
    assert_eq!(c.cap(), 4);
    assert_eq!(c.max_capacity(), Some(4));
    assert_eq!(c.into_inner(), vec![1, 2]);

    let mut buf = [0u16; 3];
    let mut s: Spill<FixedVec<u16, 1>, ScratchVec<u16>> = Spill::with_spill(ScratchVec::new(&mut buf));
    assert_eq!(s.max_capacity(), Some(3));
    s.try_insert_at(0, 5).unwrap();
    s.try_insert_at(0, 4).unwrap();
    assert!(s.is_spilled());
    assert_eq!(s.as_slice(), &[4, 5]);
    assert_eq!(s.tiers().0.as_slice(), &[] as &[u16]);
}

#[test]
fn column_map_iterators_walk_aligned_pairs() {
    let m: UnsortedColumnMap<Vec<u8>, Vec<char>> = UnsortedColumnMap::try_from_iter(vec![(2, 'b'), (1, 'a')]).unwrap();
    let mut it = m.iter();
    assert_eq!(it.len(), 2);
    assert_eq!(it.next_back(), Some((&1, &'a')));
    assert_eq!(it.next(), Some((&2, &'b')));
    assert_eq!(it.next(), None);
    let (ks, vs) = m.stores();
    assert_eq!(ks.as_slice(), &[2, 1]);
    assert_eq!(vs.as_slice(), &['b', 'a']);
}
