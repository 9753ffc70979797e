use pouch::{BuildError, Bound, FixedVec, SliceSet, SortedSet, UnsortedSet};
use std::collections::BTreeSet;

#[test]
fn try_from_iter_sorts_and_dedups() {
    let set: SortedSet<Vec<i32>> = SortedSet::try_from_iter(vec![3, 1, 2, 3, 1, 4]).unwrap();
    assert_eq!(set.as_slice(), &[1, 2, 3, 4]);
}

#[test]
fn collect_into_sorted_set() {
    let set: SortedSet<Vec<i32>> = SortedSet::try_from_iter(vec![5, 5, 2, 8, 2]).unwrap();
    assert_eq!(set.as_slice(), &[2, 5, 8]);
}

#[test]
fn from_sorted_iter_drops_adjacent_runs() {
    let set: SortedSet<Vec<i32>> = SortedSet::try_from_sorted_iter(vec![1, 1, 2, 3, 3, 3, 5]).unwrap();
    assert_eq!(set.as_slice(), &[1, 2, 3, 5]);
    // infallible twin, available because Vec is Unbounded.
    let set2 = SortedSet::<Vec<i32>>::from_sorted_iter(vec![1, 2, 2, 4]);
    assert_eq!(set2.as_slice(), &[1, 2, 4]);
}

#[test]
fn extend_merges_and_stays_sorted() {
    let mut set: SortedSet<Vec<i32>> = SortedSet::from_sorted_iter(vec![2, 4, 6]);
    set.extend(vec![5, 1, 4]); // 4 is already present
    assert_eq!(set.as_slice(), &[1, 2, 4, 5, 6]);
}

#[test]
fn try_extend_keeps_order_across_calls() {
    let mut set: SortedSet<Vec<i32>> = SortedSet::new();
    set.try_extend(vec![3, 1, 2]).unwrap();
    set.try_extend(vec![0, 2, 5]).unwrap(); // 2 is a duplicate
    assert_eq!(set.as_slice(), &[0, 1, 2, 3, 5]);
}

#[test]
fn unsorted_collect_dedups() {
    let set: UnsortedSet<Vec<i32>> = UnsortedSet::try_from_iter(vec![1, 2, 1, 3, 2]).unwrap();
    assert_eq!(set.len(), 3);
    for x in [1, 2, 3] {
        assert!(set.contains(&x));
    }
}

#[test]
fn try_from_sorted_iter_rejects_unsorted() {
    let err = SortedSet::<Vec<i32>>::try_from_sorted_iter(vec![1, 3, 2]).expect_err("3 then 2 is descending");
    match err {
        BuildError::Unsorted(x) => assert_eq!(x, 2),
        BuildError::Capacity(_) | BuildError::DuplicateKey(_) => {
            panic!("expected an unsorted error")
        }
    }
}

#[test]
fn iter_and_into_iter_yield_sorted_elements() {
    let set: SortedSet<Vec<i32>> = SortedSet::try_from_iter(vec![3, 1, 2]).unwrap();
    assert!(set.iter().eq(&[1, 2, 3]));
    let doubled: Vec<i32> = set.iter().map(|x| x * 2).collect();
    assert_eq!(doubled, &[2, 4, 6]);
    // by-value: consuming the set yields owned elements, still ascending.
    let owned: Vec<i32> = set.into_store();
    assert_eq!(owned, &[1, 2, 3]);

    let unsorted: UnsortedSet<Vec<i32>> = UnsortedSet::try_from_iter(vec![3, 1, 2]).unwrap();
    assert_eq!(unsorted.iter().count(), 3);
    let mut owned: Vec<i32> = unsorted.into_store();
    owned.sort_unstable();
    assert_eq!(owned, &[1, 2, 3]);
}

#[test]
fn first_last_and_range() {
    let set: SortedSet<Vec<i32>> = SortedSet::from_sorted_iter(vec![1, 3, 5, 7, 9]);
    assert_eq!(set.first(), Some(&1));
    assert_eq!(set.last(), Some(&9));
    assert_eq!(set.range(Bound::Included(&3), Bound::Excluded(&7)), &[3, 5]);
    assert_eq!(set.range(Bound::Included(&3), Bound::Included(&7)), &[3, 5, 7]);
    assert_eq!(set.range(Bound::Unbounded, Bound::Excluded(&4)), &[1, 3]);
    assert_eq!(set.range(Bound::Included(&4), Bound::Unbounded), &[5, 7, 9]);
    assert_eq!(set.range(Bound::Unbounded, Bound::Unbounded), &[1, 3, 5, 7, 9]);
    assert_eq!(set.range(Bound::Included(&4), Bound::Excluded(&4)), &[] as &[i32]);

    let empty: SortedSet<Vec<i32>> = SortedSet::new();
    assert_eq!(empty.first(), None);
    assert_eq!(empty.range(Bound::Unbounded, Bound::Unbounded), &[] as &[i32]);
}

#[test]
fn set_algebra_merges_ascending() {
    let a: SortedSet<Vec<u32>> = SortedSet::try_from_iter(vec![1, 2, 3, 5]).unwrap();
    let b: SortedSet<Vec<u32>> = SortedSet::try_from_iter(vec![2, 3, 4]).unwrap();
    assert_eq!(a.union(&b).to_vec(), vec![&1, &2, &3, &4, &5]);
    assert_eq!(a.intersection(&b).to_vec(), vec![&2, &3]);
    assert_eq!(a.difference(&b).to_vec(), vec![&1, &5]);
    assert_eq!(b.difference(&a).to_vec(), vec![&4]); // difference is directional
    assert_eq!(a.symmetric_difference(&b).to_vec(), vec![&1, &4, &5]);

    // The merged elements build straight back into a set.
    let merged: Vec<u32> = a.union(&b).to_vec().into_iter().copied().collect();
    let u: SortedSet<Vec<u32>> = SortedSet::try_from_iter(merged).unwrap();
    assert_eq!(u.as_slice(), &[1, 2, 3, 4, 5]);

    // Cross-store: the other set only contributes a sorted slice, so a
    // heap set can union with a read-only static-table SliceSet.
    static TABLE: [u32; 2] = [4, 6];
    let table: SliceSet<u32> = SortedSet::from_store(&TABLE[..]);
    assert_eq!(a.union(&table).to_vec(), vec![&1, &2, &3, &4, &5, &6]);

    // Empty edges.
    let empty: SortedSet<Vec<u32>> = SortedSet::new();
    assert!(empty.union(&a).to_vec().into_iter().eq(a.iter()));
    assert_eq!(empty.intersection(&a).to_vec().len(), 0);
    assert!(empty.difference(&a).next().is_none());
    assert!(a.symmetric_difference(&empty).to_vec().into_iter().eq(a.iter()));
}

#[test]
fn subset_superset_disjoint() {
    let small: SortedSet<Vec<u32>> = SortedSet::try_from_iter(vec![2, 40]).unwrap();
    // 64 elements: the ≥16× size gap exercises the binary-search path.
    let big: SortedSet<Vec<u32>> = SortedSet::try_from_iter((0..64).map(|x| x * 2).collect()).unwrap();
    assert!(small.is_subset(&big));
    assert!(big.is_superset(&small));
    assert!(!big.is_subset(&small));
    assert!(!small.is_disjoint(&big));
    let odd: SortedSet<Vec<u32>> = SortedSet::try_from_iter(vec![1, 3, 41]).unwrap();
    assert!(small.is_disjoint(&odd) && odd.is_disjoint(&big));

    // Similar sizes take the linear merge path.
    let cover: SortedSet<Vec<u32>> = SortedSet::try_from_iter(vec![2, 4, 40]).unwrap();
    assert!(small.is_subset(&cover));
    assert!(!cover.is_subset(&small)); // longer than `small`
    let empty: SortedSet<Vec<u32>> = SortedSet::new();
    assert!(empty.is_subset(&small) && small.is_superset(&empty));
    assert!(empty.is_disjoint(&empty));

    // The unsorted flavor gets the Eq-only scan predicates.
    let ua: UnsortedSet<Vec<u32>> = UnsortedSet::try_from_iter(vec![3, 1]).unwrap();
    let ub: UnsortedSet<Vec<u32>> = UnsortedSet::try_from_iter(vec![1, 2, 3]).unwrap();
    assert!(ua.is_subset(&ub));
    assert!(ub.is_superset(&ua));
    assert!(!ua.is_disjoint(&ub));
    let uc: UnsortedSet<Vec<u32>> = UnsortedSet::try_from_iter(vec![9]).unwrap();
    assert!(ua.is_disjoint(&uc));
}

#[test]
fn sorted_set_orders_and_nests() {
    let a: SortedSet<Vec<i32>> = SortedSet::try_from_iter(vec![1, 2]).unwrap();
    let b: SortedSet<Vec<i32>> = SortedSet::try_from_iter(vec![1, 3]).unwrap();
    let prefix: SortedSet<Vec<i32>> = SortedSet::try_from_iter(vec![1]).unwrap();
    assert!(a < b); // element-lexicographic, like BTreeSet
    assert!(prefix < a); // a strict prefix sorts first

    let mut nested: BTreeSet<SortedSet<Vec<i32>>> = BTreeSet::new();
    nested.insert(a.clone());
    nested.insert(b);
    nested.insert(a.clone()); // equal inner set — deduped by the outer set
    assert_eq!(nested.len(), 2);
    assert!(nested.contains(&a));
    assert_eq!(nested.iter().next(), Some(&a)); // smallest first
}

#[test]
fn store_access_and_reserve() {
    let mut set: SortedSet<Vec<i32>> = SortedSet::new();
    assert_eq!(set.store().capacity(), 0); // Vec's own capacity: allocated
    set.reserve(100);
    assert!(set.store().capacity() >= 100); // one allocation, up front
    let before = set.store().capacity();
    set.extend(vec![3, 1, 2]);
    assert_eq!(set.store().capacity(), before); // burst caused no growth

    // into_store hands back the sorted, deduplicated Vec; from_store
    // round-trips it.
    let v: Vec<i32> = set.into_store();
    assert_eq!(v, &[1, 2, 3]);
    let set2: SortedSet<Vec<i32>> = SortedSet::from_store(v);
    assert!(set2.contains(&2));
}

#[test]
fn set_lookups_take_borrowed_forms() {
    let mut set: SortedSet<Vec<String>> =
        SortedSet::try_from_iter(["b", "a", "c"].iter().map(|s| s.to_string()).collect()).unwrap();
    assert!(set.contains(&"b".to_string()));
    assert!(!set.contains(&"z".to_string()));
    let a = "a".to_string();
    let c = "c".to_string();
    assert_eq!(
        set.range(Bound::Included(&a), Bound::Excluded(&c)),
        &["a".to_string(), "b".to_string()]
    );
    assert!(set.remove(&"a".to_string()));
    assert!(!set.contains(&"a".to_string()));

    let mut unsorted: UnsortedSet<Vec<String>> =
        UnsortedSet::try_from_iter(["x", "y"].iter().map(|s| s.to_string()).collect()).unwrap();
    assert!(unsorted.contains(&"x".to_string()));
    assert!(!unsorted.contains(&"z".to_string()));
    assert!(unsorted.remove(&"x".to_string()));
    assert!(!unsorted.contains(&"x".to_string()));
}

#[test]
fn retain_keeps_matching_elements_in_order() {
    let mut set: SortedSet<Vec<i32>> = SortedSet::try_from_iter((1..=6).collect()).unwrap();
    set.retain(|x: &i32| x % 2 == 0);
    assert_eq!(set.as_slice(), &[2, 4, 6]); // still sorted
    set.retain(|_: &i32| false);
    assert!(set.is_empty());

    let mut unsorted: UnsortedSet<Vec<i32>> = UnsortedSet::try_from_iter((1..=6).collect()).unwrap();
    unsorted.retain(|x: &i32| x % 2 == 1);
    assert_eq!(unsorted.len(), 3);
    assert!(unsorted.contains(&1) && unsorted.contains(&3) && unsorted.contains(&5));
}

#[test]
fn clear_empties_both_set_flavors() {
    let mut sorted: SortedSet<Vec<i32>> = SortedSet::from_sorted_iter(vec![1, 2, 3]);
    sorted.clear();
    assert!(sorted.is_empty());
    assert_eq!(sorted.as_slice(), &[] as &[i32]);
    assert!(sorted.insert(5)); // usable again after clear
    assert_eq!(sorted.as_slice(), &[5]);

    let mut unsorted: UnsortedSet<Vec<i32>> = UnsortedSet::try_from_iter(vec![1, 2, 3]).unwrap();
    unsorted.clear();
    assert!(unsorted.is_empty());
    assert!(unsorted.insert(9));
    assert_eq!(unsorted.len(), 1);
}

#[test]
fn clone_and_eq_for_sorted_set() {
    let a: SortedSet<Vec<i32>> = SortedSet::from_sorted_iter(vec![1, 2, 3]);
    let mut b = a.clone();
    assert_eq!(a, b); // PartialEq: same contents
    b.insert(4);
    assert_ne!(a, b); // the clone is independent of the original
    assert_eq!(a.as_slice(), &[1, 2, 3]);
    // Built in a different order, still equal — the stored order is canonical.
    let c: SortedSet<Vec<i32>> = SortedSet::try_from_iter(vec![3, 1, 2, 1]).unwrap();
    assert_eq!(a, c);
}

#[test]
fn clone_for_unsorted_set_is_independent() {
    let mut a: UnsortedSet<Vec<i32>> = UnsortedSet::try_from_iter(vec![1, 2, 3]).unwrap();
    let b = a.clone();
    a.insert(4);
    assert_eq!(b.len(), 3); // clone unaffected by the later insert
    assert!(b.contains(&1) && b.contains(&2) && b.contains(&3));
}

#[test]
fn try_from_iter_into_fixed_cap() {
    // Four raw items (within cap) dedup down to three after the sort pass.
    let set: SortedSet<FixedVec<u8, 4>> = SortedSet::try_from_iter(vec![3, 1, 2, 3]).expect("raw count fits the cap");
    assert_eq!(set.as_slice(), &[1, 2, 3]);
}

#[test]
fn try_from_iter_overflows_before_dedup() {
    // Items are appended raw, so the run of 3s overflows cap 3 even though the
    // deduplicated result {1, 2, 3} would fit exactly.
    let err = SortedSet::<FixedVec<u8, 3>>::try_from_iter(vec![1, 2, 3, 3, 3]).expect_err("raw append exceeds the bound");
    assert_eq!(err.into_inner(), 3);
}

#[test]
fn try_from_sorted_iter_dedups_within_cap() {
    let set: SortedSet<FixedVec<u8, 5>> = SortedSet::try_from_sorted_iter(vec![1, 1, 2, 4, 4]).expect("fits");
    assert_eq!(set.as_slice(), &[1, 2, 4]);
}

#[test]
fn algebra_size_hints_bound_the_remaining_elements() {
    let a: SortedSet<Vec<u32>> = SortedSet::try_from_iter(vec![1, 3, 5]).unwrap();
    let b: SortedSet<Vec<u32>> = SortedSet::try_from_iter(vec![3, 4]).unwrap();
    let mut u = a.union(&b);
    assert_eq!(u.size_hint(), (3, Some(5)));
    assert_eq!(u.next(), Some(&1));
    assert_eq!(u.size_hint(), (2, Some(4)));
    assert_eq!(a.intersection(&b).size_hint(), (0, Some(2)));
    assert_eq!(a.difference(&b).size_hint(), (1, Some(3)));
    assert_eq!(b.difference(&a).size_hint(), (0, Some(2)));
    assert_eq!(a.symmetric_difference(&b).size_hint(), (1, Some(5)));
    assert_eq!(a.union(&b).to_vec().len(), 4);
}

#[test]
fn unsorted_set_keeps_first_occurrence_order_and_swap_removes() {
    let mut s: UnsortedSet<Vec<u32>> = UnsortedSet::try_from_iter(vec![3, 1, 3, 2, 1]).unwrap();
    assert_eq!(s.as_slice(), &[3, 1, 2]);
    s.try_extend(vec![5, 1, 4]).unwrap();
    assert_eq!(s.as_slice(), &[3, 1, 2, 5, 4]);
    assert!(s.remove(&1));
    assert_eq!(s.as_slice(), &[3, 4, 2, 5]); // the last element fills the hole
}
