//! The store contract on std's containers: `Vec<T>` (growable, unbounded) and
//! the read-only borrowed slice and array backends, which are permanently full.

use vstd::prelude::*;
use crate::error::CapacityError;
use crate::store::{Store, StoreMut, StoreNew, Unbounded};

verus! {

impl<T> Store for Vec<T> {
    type Elem = T;

    open spec fn elems(&self) -> Seq<T> {
        self@
    }

    open spec fn bound(&self) -> Option<usize> {
        None
    }

    open spec fn well_formed(&self) -> bool {
        true
    }

    proof fn lemma_within_bound(&self) {
    }

    fn as_slice(&self) -> (s: &[T]) {
        self.as_slice()
    }

    fn max_capacity(&self) -> (c: Option<usize>) {
        None
    }
}

impl<T> StoreMut for Vec<T> {
    fn try_insert_at(&mut self, i: usize, value: T) -> (r: Result<(), CapacityError<T>>) {
        self.insert(i, value);
        Ok(())
    }

    fn remove_at(&mut self, i: usize) -> (r: T) {
        self.remove(i)
    }

    fn as_mut_slice(&mut self) -> (s: &mut [T]) {
        self.as_mut_slice()
    }

    fn clear(&mut self) {
        self.clear()
    }

    fn reserve(&mut self, additional: usize) {
        self.reserve(additional)
    }
}

impl<T> StoreNew for Vec<T> {
    open spec fn initial_bound() -> Option<usize> {
        None
    }

    fn new() -> (s: Self) {
        Vec::new()
    }
}

impl<T> Unbounded for Vec<T> {
    proof fn lemma_unbounded(&self) {
    }
}

/// A borrowed slice is read-only and can never grow: it is permanently at
/// capacity, holding exactly its elements.
impl<'a, T> Store for &'a [T] {
    type Elem = T;

    open spec fn elems(&self) -> Seq<T> {
        (**self)@
    }

    open spec fn bound(&self) -> Option<usize> {
        Some((**self)@.len() as usize)
    }

    open spec fn well_formed(&self) -> bool {
        true
    }

    proof fn lemma_within_bound(&self) {
        broadcast use vstd::slice::axiom_spec_len;
        assert((**self).len() == (**self)@.len());
    }

    fn as_slice(&self) -> (s: &[T]) {
        *self
    }

    fn max_capacity(&self) -> (c: Option<usize>) {
        Some(self.len())
    }
}

/// An array reference is the same read-only backend, statically full at `N`.
impl<'a, T, const N: usize> Store for &'a [T; N] {
    type Elem = T;

    open spec fn elems(&self) -> Seq<T> {
        (**self)@
    }

    open spec fn bound(&self) -> Option<usize> {
        Some(N)
    }

    open spec fn well_formed(&self) -> bool {
        true
    }

    proof fn lemma_within_bound(&self) {
        broadcast use vstd::array::array_len_matches_n;
        assert((**self)@.len() == N);
    }

    fn as_slice(&self) -> (s: &[T]) {
        (**self).as_slice()
    }

    fn max_capacity(&self) -> (c: Option<usize>) {
        Some(N)
    }
}

} // verus!
