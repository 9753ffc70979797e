use pouch::store::{Store, StoreMut, StoreNew};
use pouch::{Capped, FixedVec, ScratchVec, SortedMap, SortedSet, Spill};

fn fixed_from_slice<const N: usize>(items: &[u8]) -> FixedVec<u8, N> {
    let mut v: FixedVec<u8, N> = StoreNew::new();
    for &x in items {
        v.try_insert_at(v.len(), x).expect("within capacity");
    }
    v
}

fn scratch_from_slice<'a>(buf: &'a mut [u8], items: &[u8]) -> ScratchVec<'a, u8> {
    let mut v = ScratchVec::new(buf);
    for &x in items {
        v.try_insert_at(v.len(), x).expect("within capacity");
    }
    v
}

#[test]
fn swap_remove_at_swaps_in_the_last_element() {
    let mut v: FixedVec<u8, 4> = StoreNew::new();
    for x in [1, 2, 3, 4] {
        v.try_insert_at(v.len(), x).expect("within capacity");
    }
    // Removing a non-last index swaps the *last* element into the hole.
    assert_eq!(v.swap_remove_at(1), 2);
    assert_eq!(v.as_slice(), &[1, 4, 3]);
    // Removing the last index degenerates to a plain tail pop.
    assert_eq!(v.swap_remove_at(2), 3);
    assert_eq!(v.as_slice(), &[1, 4]);
}

#[test]
fn heapless_try_insert_at_shifts_into_position() {
    let mut v: FixedVec<u8, 5> = StoreNew::new();
    v.try_insert_at(0, 20).expect("room"); // [20]
    v.try_insert_at(0, 10).expect("room"); // front:  [10, 20]
    v.try_insert_at(2, 30).expect("room"); // end:    [10, 20, 30]
    v.try_insert_at(1, 15).expect("room"); // middle: [10, 15, 20, 30]
    assert_eq!(v.as_slice(), &[10, 15, 20, 30]);
}

#[test]
fn heapless_remove_at_shifts_tail_down() {
    let mut v: FixedVec<u8, 5> = fixed_from_slice(&[10, 15, 20, 30]);
    assert_eq!(v.remove_at(1), 15); // middle
    assert_eq!(v.as_slice(), &[10, 20, 30]);
    assert_eq!(v.remove_at(0), 10); // front
    assert_eq!(v.as_slice(), &[20, 30]);
    assert_eq!(v.remove_at(1), 30); // last
    assert_eq!(v.as_slice(), &[20]);
}

#[test]
fn heapless_try_insert_at_overflow_hands_back_the_value() {
    let mut v: FixedVec<u8, 2> = fixed_from_slice(&[1, 2]);
    let err = v.try_insert_at(0, 9).expect_err("store is full");
    assert_eq!(err.into_inner(), 9);
    assert_eq!(v.as_slice(), &[1, 2]); // unchanged on overflow
}

#[test]
fn read_only_slice_reports_len_and_full_capacity() {
    let xs: &[u32] = &[10, 20, 30];
    assert_eq!(Store::as_slice(&xs), &[10, 20, 30]);
    assert_eq!(xs.len(), 3);
    assert!(!xs.is_empty());
    // A borrowed slice is permanently full: cap == len.
    assert_eq!(Store::max_capacity(&xs), Some(3));

    let empty: &[u32] = &[];
    assert!(empty.is_empty());
    assert_eq!(Store::max_capacity(&empty), Some(0));
}

#[test]
fn read_only_array_ref_reports_const_capacity() {
    let xs: &[u32; 3] = &[10, 20, 30];
    assert_eq!(Store::as_slice(&xs), &[10, 20, 30]);
    assert_eq!(Store::max_capacity(&xs), Some(3));
}

#[test]
fn backs_a_read_only_sorted_set() {
    // `&ARR` (array ref) and `&ARR[..]` (slice) both back the set.
    let from_array = SortedSet::from_store(&[1u32, 2, 3]);
    assert!(from_array.contains(&2));
    assert!(!from_array.contains(&4));
    assert_eq!(from_array.capacity(), Some(3)); // permanently full

    let from_slice = SortedSet::from_store(&[1u32, 2, 3][..]);
    assert!(from_slice.contains(&2));
}

#[test]
fn backs_a_read_only_sorted_map() {
    let map = SortedMap::from_store(&[(1u8, "a"), (2, "b")]);
    assert_eq!(map.get(&2), Some(&"b"));
    assert_eq!(map.get(&3), None);
    assert!(map.contains_key(&1));
}

#[test]
fn capacity_over_unbounded_inner_is_our_cap() {
    let c: Capped<Vec<u8>> = Capped::with_capacity(3);
    assert_eq!(c.max_capacity(), Some(3));
}

#[test]
fn capacity_is_min_of_our_cap_and_inner_bound() {
    // our cap is the tighter bound
    let tight: Capped<FixedVec<u8, 5>> = Capped::with_capacity(3);
    assert_eq!(tight.max_capacity(), Some(3));
    // the inner backend's own bound is the tighter one
    let loose: Capped<FixedVec<u8, 2>> = Capped::with_capacity(5);
    assert_eq!(loose.max_capacity(), Some(2));
}

#[test]
fn try_insert_at_errors_at_cap_and_preserves_value() {
    let mut c: Capped<Vec<u8>> = Capped::with_capacity(2);
    c.try_insert_at(0, 1).expect("room");
    c.try_insert_at(1, 2).expect("room");
    let err = c.try_insert_at(2, 9).expect_err("at cap");
    assert_eq!(err.into_inner(), 9);
    assert_eq!(c.len(), 2); // rejected element did not land
}

#[test]
fn capacity_is_the_buffer_length() {
    let mut buf = [0u8; 4];
    let v = ScratchVec::new(&mut buf);
    assert_eq!(v.max_capacity(), Some(4));
    assert!(v.is_empty());
}

#[test]
fn scratch_try_insert_at_shifts_into_position() {
    let mut buf = [0u8; 5];
    let mut v = ScratchVec::new(&mut buf);
    v.try_insert_at(0, 20).expect("room"); // [20]
    v.try_insert_at(0, 10).expect("room"); // front:  [10, 20]
    v.try_insert_at(2, 30).expect("room"); // end:    [10, 20, 30]
    v.try_insert_at(1, 15).expect("room"); // middle: [10, 15, 20, 30]
    assert_eq!(v.as_slice(), &[10, 15, 20, 30]);
}

#[test]
fn scratch_remove_at_shifts_tail_down() {
    let mut buf = [0u8; 5];
    let mut v = scratch_from_slice(&mut buf, &[10, 15, 20, 30]);
    assert_eq!(v.remove_at(1), 15); // middle
    assert_eq!(v.as_slice(), &[10, 20, 30]);
    assert_eq!(v.remove_at(0), 10); // front
    assert_eq!(v.as_slice(), &[20, 30]);
    assert_eq!(v.remove_at(1), 30); // last
    assert_eq!(v.as_slice(), &[20]);
}

#[test]
fn scratch_try_insert_at_overflow_hands_back_the_value() {
    let mut buf = [0u8; 2];
    let mut v = scratch_from_slice(&mut buf, &[1, 2]);
    let err = v.try_insert_at(0, 9).expect_err("buffer is full");
    assert_eq!(err.into_inner(), 9);
    assert_eq!(v.as_slice(), &[1, 2]); // unchanged on overflow
}

#[derive(Debug, Default)]
struct Noisy<'c>(Option<&'c std::cell::Cell<u32>>);

impl Drop for Noisy<'_> {
    fn drop(&mut self) {
        if let Some(c) = self.0 {
            c.set(c.get() + 1);
        }
    }
}

#[test]
fn clear_drops_live_elements_and_resets_len() {
    let drops = std::cell::Cell::new(0);
    let mut buf: [Noisy; 4] = Default::default();
    let mut v = ScratchVec::new(&mut buf);
    v.try_insert_at(0, Noisy(Some(&drops))).expect("room");
    v.try_insert_at(1, Noisy(Some(&drops))).expect("room");
    v.clear();
    assert_eq!(drops.get(), 2); // the two live elements were dropped
    assert!(v.is_empty());
}

#[test]
fn spills_from_inline_to_spill_preserving_order() {
    let mut small = [0u8; 2]; // inline tier: holds 2
    let mut big = [0u8; 8]; // spill tier: holds 8
    let mut s = Spill::from_tiers(ScratchVec::new(&mut small), ScratchVec::new(&mut big));

    // Effective capacity is the spill tier's bound, before and after spilling.
    assert_eq!(s.max_capacity(), Some(8));

    // Fill the inline tier.
    s.try_insert_at(s.len(), 1).expect("room");
    s.try_insert_at(s.len(), 2).expect("room");
    assert!(!s.is_spilled());
    assert_eq!(s.as_slice(), &[1, 2]);

    // One more triggers migration; order is preserved across the move.
    s.try_insert_at(s.len(), 3).expect("room");
    assert!(s.is_spilled());
    assert_eq!(s.as_slice(), &[1, 2, 3]);

    // Keep growing in the spill tier, including a non-tail insert.
    s.try_insert_at(0, 0).expect("room"); // [0, 1, 2, 3]
    s.try_insert_at(s.len(), 4).expect("room"); // [0, 1, 2, 3, 4]
    assert_eq!(s.as_slice(), &[0, 1, 2, 3, 4]);
}

#[test]
fn remove_and_clear_work_across_the_boundary() {
    let mut small = [0u8; 2];
    let mut big = [0u8; 8];
    let mut s = Spill::from_tiers(ScratchVec::new(&mut small), ScratchVec::new(&mut big));
    for x in [1, 2, 3, 4] {
        s.try_insert_at(s.len(), x).expect("room");
    }
    assert!(s.is_spilled());
    assert_eq!(s.remove_at(1), 2); // remove from the spill tier
    assert_eq!(s.as_slice(), &[1, 3, 4]);

    s.clear();
    assert!(s.is_empty());
    assert!(!s.is_spilled()); // clear resets to the inline tier
    s.try_insert_at(s.len(), 9).expect("room");
    assert!(!s.is_spilled()); // and the inline tier is live again
    assert_eq!(s.as_slice(), &[9]);
}

#[test]
fn eq_and_ord_ignore_spill_state() {
    let mut spilled: Spill<FixedVec<u32, 2>, Vec<u32>> = StoreNew::new();
    for x in [1, 2, 3] {
        spilled.try_insert_at(spilled.len(), x).expect("unbounded via Vec");
    }
    // Shrink back under the inline bound; the store stays spilled.
    spilled.remove_at(2);
    assert!(spilled.is_spilled());
    assert_eq!(spilled.as_slice(), &[1, 2]);

    let mut inline: Spill<FixedVec<u32, 2>, Vec<u32>> = StoreNew::new();
    inline.try_insert_at(inline.len(), 1).expect("room");
    inline.try_insert_at(inline.len(), 2).expect("room");
    assert!(!inline.is_spilled());

    assert!(spilled.eq(&inline)); // same contents, different tiers
    assert_eq!(spilled.cmp(&inline), core::cmp::Ordering::Equal);
    inline.try_insert_at(inline.len(), 3).expect("room"); // now [1, 2, 3]
    assert_eq!(spilled.cmp(&inline), core::cmp::Ordering::Less); // slice-lexicographic, tier-blind
}

#[test]
fn reserve_pre_arms_the_spill_tier() {
    let mut s: Spill<FixedVec<u32, 4>, Vec<u32>> = StoreNew::new();
    s.try_insert_at(s.len(), 1).expect("room");

    // Projected length fits inline: nothing reserved anywhere.
    s.reserve(2);
    assert_eq!(s.tiers().1.capacity(), 0);

    // Projected length (1 + 10) overflows the inline 4: the spill tier is
    // reserved for the whole projected population up front...
    s.reserve(10);
    assert!(!s.is_spilled()); // ...without spilling yet
    assert!(s.tiers().1.capacity() >= 11);
    let armed = s.tiers().1.capacity();

    // ...so the migration and the growth burst reallocate nothing.
    for x in 2..=11 {
        s.try_insert_at(s.len(), x).expect("unbounded via Vec");
    }
    assert!(s.is_spilled());
    assert_eq!(s.tiers().1.capacity(), armed);

    // Once spilled, reserve forwards to the spill tier directly.
    s.reserve(1000);
    assert!(s.tiers().1.capacity() >= 1011);
}

#[test]
fn arrayvec_spilling_to_scratch_backs_a_sorted_set() {
    let mut scratch = [0u32; 16];
    let mut set: SortedSet<Spill<FixedVec<u32, 4>, ScratchVec<u32>>> =
        SortedSet::from_store(Spill::with_spill(ScratchVec::new(&mut scratch)));
    for x in [5, 3, 8, 1, 9, 2, 7] {
        set.try_insert(x).expect("within scratch capacity");
    }
    assert_eq!(set.as_slice(), &[1, 2, 3, 5, 7, 8, 9]);
    assert_eq!(set.capacity(), Some(16));
}

#[test]
fn spill_flag_follows_overflow_removal_and_clear() {
    let mut s: Spill<FixedVec<u32, 2>, Vec<u32>> = StoreNew::new();
    assert!(!s.is_spilled());
    s.try_insert_at(0, 1).expect("room");
    s.try_insert_at(1, 2).expect("room");
    assert!(!s.is_spilled());
    s.try_insert_at(2, 3).expect("unbounded via Vec");
    assert!(s.is_spilled());
    assert_eq!(s.as_slice(), &[1, 2, 3]);
    s.remove_at(0);
    s.swap_remove_at(0);
    assert!(s.is_spilled());
    assert_eq!(s.as_slice(), &[3]);
    s.clear();
    assert!(!s.is_spilled());
    assert_eq!(s.as_slice(), &[] as &[u32]);
}
