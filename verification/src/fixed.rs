//! [`FixedVec`]: a store with the fixed logical capacity `N`, kept in a heap
//! `Vec` (`FixedVec<T, N>` holds at most `N` elements, and an insert beyond
//! that hands the element back).

use vstd::prelude::*;
use crate::error::CapacityError;
use crate::store::{Store, StoreMut, StoreNew};

verus! {

/// A store that holds at most `N` elements.
#[derive(Clone, Debug, PartialEq, Eq, Hash)]
pub struct FixedVec<T, const N: usize> {
    items: Vec<T>,
}

impl<T, const N: usize> FixedVec<T, N> {
    /// An empty store.
    pub fn new() -> (v: Self)
        ensures
            v.well_formed(),
            v.elems() == Seq::<T>::empty(),
    {
        FixedVec { items: Vec::new() }
    }
}

impl<T, const N: usize> Store for FixedVec<T, N> {
    type Elem = T;

    closed spec fn elems(&self) -> Seq<T> {
        self.items@
    }

    open spec fn bound(&self) -> Option<usize> {
        Some(N)
    }

    closed spec fn well_formed(&self) -> bool {
        self.items@.len() <= N
    }

    proof fn lemma_within_bound(&self) {
    }

    fn as_slice(&self) -> (s: &[T]) {
        self.items.as_slice()
    }

    fn max_capacity(&self) -> (c: Option<usize>) {
        Some(N)
    }
}

impl<T, const N: usize> StoreMut for FixedVec<T, N> {
    fn try_insert_at(&mut self, i: usize, value: T) -> (r: Result<(), CapacityError<T>>) {
        if self.items.len() >= N {
            return Err(CapacityError(value));
        }
        self.items.insert(i, value);
        Ok(())
    }

    fn remove_at(&mut self, i: usize) -> (r: T) {
        self.items.remove(i)
    }

    fn as_mut_slice(&mut self) -> (s: &mut [T]) {
        self.items.as_mut_slice()
    }

    fn clear(&mut self) {
        self.items.clear()
    }
}

impl<T, const N: usize> StoreNew for FixedVec<T, N> {
    open spec fn initial_bound() -> Option<usize> {
        Some(N)
    }

    fn new() -> (s: Self) {
        FixedVec { items: Vec::new() }
    }
}

} // verus!
