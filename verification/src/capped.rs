//! [`Capped`]: a runtime logical-capacity bound layered over any store.

use vstd::prelude::*;
use crate::error::CapacityError;
use crate::store::{Store, StoreMut, StoreNew};

verus! {

/// The tighter of an inner store's bound and a runtime cap.
pub open spec fn min_bound(inner: Option<usize>, cap: usize) -> Option<usize> {
    match inner {
        Some(c) => Some(if c < cap { c } else { cap }),
        None => Some(cap),
    }
}

/// Adds a runtime logical-capacity bound to any backing store, turning its
/// otherwise infallible inserts into recoverable [`CapacityError`]s.
#[derive(Debug)]
pub struct Capped<S> {
    inner: S,
    cap: usize,
}

impl<S> Capped<S> {
    /// The wrapped store.
    pub closed spec fn inner_store(&self) -> S {
        self.inner
    }

    /// The runtime cap.
    pub closed spec fn cap_spec(&self) -> usize {
        self.cap
    }

    /// Wraps `inner` with a runtime cap; its current length must not exceed `cap`.
    pub fn from_store(inner: S, cap: usize) -> (c: Self)
        where
            S: Store,
        requires
            inner.well_formed(),
            inner.elems().len() <= cap,
        ensures
            c.inner_store() == inner,
            c.cap_spec() == cap,
            c.well_formed(),
            c.elems() == inner.elems(),
            c.bound() == min_bound(inner.bound(), cap),
    {
        Capped { inner, cap }
    }

    /// The runtime cap.
    pub fn cap(&self) -> (c: usize)
        ensures
            c == self.cap_spec(),
    {
        self.cap
    }

    /// Unwraps the inner store.
    pub fn into_inner(self) -> (s: S)
        ensures
            s == self.inner_store(),
    {
        self.inner
    }
}

impl<S: StoreNew> Capped<S> {
    /// An empty store with the runtime cap `cap`.
    pub fn with_capacity(cap: usize) -> (c: Self)
        ensures
            c.well_formed(),
            c.cap_spec() == cap,
            c.elems() == Seq::<S::Elem>::empty(),
            c.inner_store().bound() == S::initial_bound(),
            c.bound() == min_bound(S::initial_bound(), cap),
    {
        Capped { inner: S::new(), cap }
    }
}

impl<S: Store> Store for Capped<S> {
    type Elem = S::Elem;

    open spec fn elems(&self) -> Seq<S::Elem> {
        self.inner_store().elems()
    }

    open spec fn bound(&self) -> Option<usize> {
        min_bound(self.inner_store().bound(), self.cap_spec())
    }

    closed spec fn well_formed(&self) -> bool {
        &&& self.inner.well_formed()
        &&& self.inner.elems().len() <= self.cap
    }

    proof fn lemma_within_bound(&self) {
        self.inner.lemma_within_bound();
    }

    fn as_slice(&self) -> (s: &[S::Elem]) {
        self.inner.as_slice()
    }

    fn max_capacity(&self) -> (c: Option<usize>) {
        match self.inner.max_capacity() {
            Some(c) => Some(if c < self.cap { c } else { self.cap }),
            None => Some(self.cap),
        }
    }
}

impl<S: StoreMut> StoreMut for Capped<S> {
    fn try_insert_at(&mut self, i: usize, value: S::Elem) -> (r: Result<(), CapacityError<S::Elem>>) {
        if self.inner.len() >= self.cap {
            return Err(CapacityError(value));
        }
        self.inner.try_insert_at(i, value)
    }

    fn remove_at(&mut self, i: usize) -> (r: S::Elem) {
        self.inner.remove_at(i)
    }

    fn as_mut_slice(&mut self) -> (s: &mut [S::Elem]) {
        self.inner.as_mut_slice()
    }

    fn clear(&mut self) {
        self.inner.clear()
    }

    fn reserve(&mut self, additional: usize) {
        let room = self.cap - self.inner.len();
        self.inner.reserve(if additional < room { additional } else { room })
    }
}

} // verus!
