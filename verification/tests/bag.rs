use pouch::{Bag, FixedVec};

#[test]
fn push_keeps_insertion_order_and_duplicates() {
    let mut bag: Bag<Vec<i32>> = Bag::new();
    bag.push(2);
    bag.push(1);
    bag.push(2); // duplicates are kept — no membership discipline
    assert_eq!(bag.as_slice(), &[2, 1, 2]);
    assert_eq!(bag.len(), 3);
    assert!(bag.contains(&1));
    assert!(!bag.contains(&9));
}

#[test]
fn collect_and_extend_append_everything() {
    let mut bag: Bag<Vec<i32>> = Bag::try_from_iter(vec![1, 1, 2]).unwrap();
    bag.try_extend(vec![3, 1]).unwrap();
    assert_eq!(bag.as_slice(), &[1, 1, 2, 3, 1]);
}

#[test]
fn pop_and_removes() {
    let mut bag: Bag<Vec<i32>> = Bag::try_from_iter(vec![10, 20, 30, 40]).unwrap();
    assert_eq!(bag.pop(), Some(40));
    // swap_remove pulls the last element into the hole (order not preserved).
    assert_eq!(bag.swap_remove(0), 10);
    assert_eq!(bag.as_slice(), &[30, 20]);
    // remove shifts the tail down (order preserved).
    assert_eq!(bag.remove(0), 30);
    assert_eq!(bag.as_slice(), &[20]);
    assert_eq!(bag.pop(), Some(20));
    assert_eq!(bag.pop(), None);
}

#[test]
fn get_mut_edits_in_place() {
    let mut bag: Bag<Vec<i32>> = Bag::try_from_iter(vec![1, 2, 3]).unwrap();
    *bag.get_mut(1).unwrap() = 99;
    assert_eq!(bag.as_slice(), &[1, 99, 3]);
    assert!(bag.get_mut(3).is_none());
}

#[test]
fn clear_then_reuse() {
    let mut bag: Bag<Vec<i32>> = Bag::try_from_iter(vec![1, 2, 3]).unwrap();
    bag.clear();
    assert!(bag.is_empty());
    bag.push(7);
    assert_eq!(bag.as_slice(), &[7]);
}

#[test]
fn iteration_and_retain() {
    let mut bag: Bag<Vec<i32>> = Bag::try_from_iter(vec![1, 2, 2, 3]).unwrap();
    assert!(bag.iter().eq(&[1, 2, 2, 3]));
    assert!(bag.iter().count() == 4);
    let mut it = bag.iter_mut();
    assert_eq!(it.len(), 4);
    while let Some(x) = it.next() {
        *x *= 10;
    }
    assert_eq!(bag.as_slice(), &[10, 20, 20, 30]);
    // retain's `&mut` predicate can edit the kept elements as it filters.
    bag.retain(|x: &mut i32| {
        *x += 1;
        *x > 15
    });
    assert_eq!(bag.as_slice(), &[21, 21, 31]);
    let owned: Vec<i32> = bag.into_store();
    assert_eq!(owned, &[21, 21, 31]);
}

#[test]
fn bag_clone_is_independent() {
    let mut a: Bag<Vec<i32>> = Bag::try_from_iter(vec![1, 2, 3]).unwrap();
    let b = a.clone();
    a.push(4);
    assert_eq!(b.as_slice(), &[1, 2, 3]); // clone unaffected by the later push
}

#[test]
fn eq_is_order_sensitive_like_vec() {
    let a: Bag<Vec<i32>> = Bag::try_from_iter(vec![1, 2, 3]).unwrap();
    let b: Bag<Vec<i32>> = Bag::try_from_iter(vec![1, 2, 3]).unwrap();
    assert_eq!(a, b); // same elements, same order
    // A `swap_remove` leaves a different order, so a different sequence...
    let mut c: Bag<Vec<i32>> = Bag::try_from_iter(vec![1, 2, 3]).unwrap();
    c.swap_remove(0); // -> [3, 2]
    assert_eq!(c.as_slice(), &[3, 2]);
    // ...equal to a bag built in that order, unequal to the same multiset
    // in another order (a bag is a sequence, not an order-free multiset).
    assert_eq!(c, Bag::try_from_iter(vec![3, 2]).unwrap());
    assert_ne!(c, Bag::<Vec<i32>>::try_from_iter(vec![2, 3]).unwrap());
}

#[test]
fn try_push_overflows_at_capacity() {
    let mut bag: Bag<FixedVec<u8, 2>> = Bag::new();
    bag.try_push(1).expect("within cap");
    bag.try_push(2).expect("within cap");
    // A bag keeps duplicates, so the only rejection is a genuine capacity hit.
    let err = bag.try_push(3).expect_err("third push exceeds cap 2");
    assert_eq!(err.into_inner(), 3);
    assert_eq!(bag.as_slice(), &[1, 2]);
}

#[test]
fn try_from_iter_overflows_on_raw_count() {
    // No dedup, so even all-equal input overflows on its raw length.
    let err = Bag::<FixedVec<u8, 3>>::try_from_iter(vec![5, 5, 5, 5]).expect_err("four items exceed cap 3");
    assert_eq!(err.into_inner(), 5);
}

#[test]
fn bag_get_and_capacity_report_the_store() {
    let bag: Bag<FixedVec<u8, 3>> = Bag::try_from_iter(vec![7, 8]).unwrap();
    assert_eq!(bag.get(0), Some(&7));
    assert_eq!(bag.get(2), None);
    assert_eq!(bag.max_capacity(), Some(3));
    let unbounded: Bag<Vec<u8>> = Bag::new();
    assert_eq!(unbounded.max_capacity(), None);
}
