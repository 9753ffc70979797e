//! Bag — a sequence facade over any [`Store`]: duplicates allowed, insertion
//! order kept, and no invariant beyond the store's own. Wrapping a composed
//! store (`Capped`, `Spill`, `ScratchVec`) in a `Bag` gives it a `Vec`-shaped
//! API.
//!
//! A bag is modelled by its store's sequence of elements (`@`).

use vstd::prelude::*;
use crate::error::CapacityError;
use crate::order::{chunked_contains, exact_eq};
use crate::store::{
    append_all, filter_kept, push, retain_mut_in, swap_removed, SliceIterMut, Store, StoreMut, StoreNew,
    Unbounded,
};

verus! {

/// A sequence of values with duplicates allowed and no ordering or uniqueness
/// invariant.
#[derive(Clone, Debug, PartialEq, Eq)]
pub struct Bag<S> {
    store: S,
}

impl<S: Store> View for Bag<S> {
    type V = Seq<S::Elem>;

    /// The elements in insertion order.
    closed spec fn view(&self) -> Seq<S::Elem> {
        self.store.elems()
    }
}

impl<S: Store> Bag<S> {
    /// The backing store is well formed (a bag adds no invariant of its own).
    pub closed spec fn inv(&self) -> bool {
        self.store.well_formed()
    }

    /// The backing store.
    pub closed spec fn store_spec(&self) -> S {
        self.store
    }

    /// The logical capacity.
    pub closed spec fn bound(&self) -> Option<usize> {
        self.store.bound()
    }

    /// The view, the invariant and the bound, in terms of the backing store.
    pub proof fn lemma_store(&self)
        ensures
            self@ == self.store_spec().elems(),
            self.inv() == self.store_spec().well_formed(),
            self.bound() == self.store_spec().bound(),
    {
    }

    /// A well-formed bag never holds more elements than its bound.
    pub proof fn lemma_within_bound(&self)
        requires
            self.inv(),
        ensures
            self.bound() is Some ==> self@.len() <= self.bound().unwrap(),
    {
        self.store.lemma_within_bound();
    }
}

impl<S: StoreNew> Bag<S> {
    /// Creates an empty bag.
    pub fn new() -> (b: Self)
        ensures
            b.inv(),
            b@ == Seq::<S::Elem>::empty(),
            b.bound() == S::initial_bound(),
    {
        Bag { store: S::new() }
    }
}

impl<S: StoreNew> Default for Bag<S> {
    fn default() -> (b: Self)
        ensures
            b.inv(),
            b@ == Seq::<S::Elem>::empty(),
    {
        Self::new()
    }
}

impl<S: Store> Bag<S> {
    /// Wraps a store as a bag; every store is a valid bag.
    pub fn from_store(store: S) -> (b: Self)
        ensures
            b@ == store.elems(),
            b.store_spec() == store,
            b.bound() == store.bound(),
            b.inv() == store.well_formed(),
    {
        Bag { store }
    }

    /// Borrows the backing store.
    pub fn store(&self) -> (s: &S)
        ensures
            *s == self.store_spec(),
            s.elems() == self@,
    {
        &self.store
    }

    /// Consumes the bag and hands back its store, elements in insertion order.
    pub fn into_store(self) -> (s: S)
        ensures
            s == self.store_spec(),
            s.elems() == self@,
    {
        self.store
    }

    /// The number of elements.
    pub fn len(&self) -> (n: usize)
        requires
            self.inv(),
        ensures
            n == self@.len(),
    {
        self.store.len()
    }

    /// Whether the bag is empty.
    pub fn is_empty(&self) -> (b: bool)
        requires
            self.inv(),
        ensures
            b == (self@.len() == 0),
    {
        self.store.is_empty()
    }

    /// The logical capacity, or `None` if unbounded.
    pub fn max_capacity(&self) -> (c: Option<usize>)
        requires
            self.inv(),
        ensures
            c == self.bound(),
    {
        self.store.max_capacity()
    }

    /// The elements as a slice, in insertion order.
    pub fn as_slice(&self) -> (s: &[S::Elem])
        requires
            self.inv(),
        ensures
            s@ == self@,
    {
        self.store.as_slice()
    }

    /// Iterates the elements in insertion order.
    pub fn iter(&self) -> (it: core::slice::Iter<'_, S::Elem>)
        requires
            self.inv(),
        ensures
            vstd::std_specs::slice::into_iter_elts(it) == self@,
    {
        broadcast use vstd::std_specs::slice::axiom_spec_slice_iter;
        self.store.as_slice().iter()
    }

    /// The element at `i`, or `None` if out of bounds.
    pub fn get(&self, i: usize) -> (r: Option<&S::Elem>)
        requires
            self.inv(),
        ensures
            i < self@.len() ==> r == Some(&self@[i as int]),
            i >= self@.len() ==> r is None,
    {
        let s = self.store.as_slice();
        if i < s.len() {
            Some(&s[i])
        } else {
            None
        }
    }

    /// Whether any element equals `value` (a linear scan).
    pub fn contains(&self, value: &S::Elem) -> (b: bool)
        where
            S::Elem: Eq,
        requires
            self.inv(),
            exact_eq::<S::Elem>(),
        ensures
            b == self@.contains(*value),
    {
        chunked_contains(self.store.as_slice(), value)
    }
}

impl<S: StoreMut> Bag<S> {
    /// The elements as a mutable slice; any in-place edit keeps the bag valid.
    pub fn as_mut_slice(&mut self) -> (s: &mut [S::Elem])
        requires
            old(self).inv(),
        ensures
            s@ == old(self)@,
            final(s)@.len() == s@.len() ==> {
                &&& final(self).inv()
                &&& final(self)@ == final(s)@
                &&& final(self).bound() == old(self).bound()
            },
    {
        self.store.as_mut_slice()
    }

    /// Iterates the elements mutably, in insertion order; the bag keeps
    /// whatever values the iteration leaves.
    pub fn iter_mut<'a>(&'a mut self) -> (it: SliceIterMut<'a, S::Elem>)
        requires
            old(self).inv(),
        ensures
            it.remaining() == old(self)@,
            final(it.rest)@.len() == old(self)@.len() ==> {
                &&& final(self).inv()
                &&& final(self)@ == final(it.rest)@
                &&& final(self).bound() == old(self).bound()
            },
    {
        let s = self.store.as_mut_slice();
        SliceIterMut { rest: s }
    }

    /// Keeps only the elements for which `f` returns `true`, preserving order;
    /// `f` may edit each element it is shown. Each element is shown once, in
    /// order: the `i`th call of `f` takes the `i`th element, leaves it as
    /// `vals[i]` and answers `keep[i]`.
    pub fn retain<F: FnMut(&mut S::Elem) -> bool>(&mut self, f: F)
        requires
            old(self).inv(),
            forall|r: &mut S::Elem| call_requires(f, (r,)),
        ensures
            final(self).inv(),
            final(self).bound() == old(self).bound(),
            exists|vals: Seq<S::Elem>, keep: Seq<bool>, refs: Seq<&mut S::Elem>|
                #![trigger filter_kept(vals, keep), refs.len()]
            {
                &&& vals.len() == old(self)@.len()
                &&& keep.len() == old(self)@.len()
                &&& refs.len() == old(self)@.len()
                &&& forall|i: int| #![trigger refs[i]] 0 <= i < keep.len() ==> {
                    &&& *refs[i] == old(self)@[i]
                    &&& *final(refs[i]) == vals[i]
                    &&& call_ensures(f, (refs[i],), keep[i])
                }
                &&& final(self)@ == filter_kept(vals, keep)
            },
    {
        retain_mut_in(&mut self.store, f);
    }

    /// A mutable reference to the element at `i`, or `None` if out of bounds.
    pub fn get_mut(&mut self, i: usize) -> (r: Option<&mut S::Elem>)
        requires
            old(self).inv(),
        ensures
            i >= old(self)@.len() ==> r is None && *final(self) == *old(self),
            i < old(self)@.len() ==> {
                &&& r is Some
                &&& *r.unwrap() == old(self)@[i as int]
                &&& final(self).inv()
                &&& final(self).bound() == old(self).bound()
                &&& final(self)@ == old(self)@.update(i as int, *final(r.unwrap()))
            },
    {
        if i < self.store.len() {
            let s = self.store.as_mut_slice();
            Some(&mut s[i])
        } else {
            None
        }
    }

    /// Removes every element.
    pub fn clear(&mut self)
        requires
            old(self).inv(),
        ensures
            final(self).inv(),
            final(self)@ == Seq::<S::Elem>::empty(),
            final(self).bound() == old(self).bound(),
    {
        self.store.clear();
    }

    /// Pre-allocates room for `additional` more elements; the bag is unchanged.
    pub fn reserve(&mut self, additional: usize)
        requires
            old(self).inv(),
        ensures
            final(self).inv(),
            final(self)@ == old(self)@,
            final(self).bound() == old(self).bound(),
    {
        self.store.reserve(additional);
    }

    /// Appends `value` at the tail. Fails, handing `value` back, only when a
    /// bounded store is full.
    pub fn try_push(&mut self, value: S::Elem) -> (r: Result<(), CapacityError<S::Elem>>)
        requires
            old(self).inv(),
        ensures
            final(self).inv(),
            final(self).bound() == old(self).bound(),
            match r {
                Ok(_) => final(self)@ == old(self)@.push(value),
                Err(e) => {
                    &&& e.rejected() == value
                    &&& final(self)@ == old(self)@
                    &&& old(self).bound() == Some(old(self)@.len() as usize)
                },
            },
            r is Err <==> old(self).bound() == Some(old(self)@.len() as usize),
    {
        proof {
            self.store.lemma_within_bound();
        }
        let r = push(&mut self.store, value);
        proof {
            self.store.lemma_within_bound();
        }
        r
    }

    /// Removes and returns the last element, or `None` if empty.
    pub fn pop(&mut self) -> (r: Option<S::Elem>)
        requires
            old(self).inv(),
        ensures
            final(self).inv(),
            final(self).bound() == old(self).bound(),
            old(self)@.len() == 0 ==> r is None && final(self)@ == old(self)@,
            old(self)@.len() > 0 ==> r == Some(old(self)@.last()) && final(self)@ == old(self)@.drop_last(),
    {
        let len = self.store.len();
        if len > 0 {
            let x = self.store.remove_at(len - 1);
            assert(old(self)@.remove(len - 1) =~= old(self)@.drop_last());
            Some(x)
        } else {
            None
        }
    }

    /// Removes and returns the element at `i` by moving the last element into
    /// its place; order is not preserved.
    pub fn swap_remove(&mut self, i: usize) -> (r: S::Elem)
        requires
            old(self).inv(),
            i < old(self)@.len(),
        ensures
            final(self).inv(),
            final(self).bound() == old(self).bound(),
            r == old(self)@[i as int],
            final(self)@ == swap_removed(old(self)@, i as int),
    {
        self.store.swap_remove_at(i)
    }

    /// Removes and returns the element at `i`, shifting the tail down.
    pub fn remove(&mut self, i: usize) -> (r: S::Elem)
        requires
            old(self).inv(),
            i < old(self)@.len(),
        ensures
            final(self).inv(),
            final(self).bound() == old(self).bound(),
            r == old(self)@[i as int],
            final(self)@ == old(self)@.remove(i as int),
    {
        self.store.remove_at(i)
    }

    /// Appends every item at the tail, in order. On a capacity failure the
    /// items appended so far are kept and the rejected item is returned.
    pub fn try_extend(&mut self, items: Vec<S::Elem>) -> (r: Result<(), CapacityError<S::Elem>>)
        requires
            old(self).inv(),
        ensures
            final(self).inv(),
            final(self).bound() == old(self).bound(),
            match r {
                Ok(_) => final(self)@ == old(self)@ + items@,
                Err(e) => exists|k: int| {
                    &&& 0 <= k < items@.len()
                    &&& e.rejected() == items@[k]
                    &&& final(self)@ == old(self)@ + items@.take(k)
                    &&& final(self).bound() == Some(final(self)@.len() as usize)
                },
            },
    {
        let r = append_all(&mut self.store, items);
        proof {
            self.store.lemma_within_bound();
        }
        r
    }
}

impl<S: StoreMut + StoreNew> Bag<S> {
    /// Builds a bag holding `items` in order. Fails only when the store's
    /// bound is smaller than the number of items; the error carries the first
    /// item that did not fit.
    pub fn try_from_iter(items: Vec<S::Elem>) -> (r: Result<Self, CapacityError<S::Elem>>)
        ensures
            match r {
                Ok(bag) => {
                    &&& bag.inv()
                    &&& bag@ == items@
                    &&& bag.bound() == S::initial_bound()
                },
                Err(e) => {
                    &&& S::initial_bound() is Some
                    &&& items@.len() > S::initial_bound().unwrap()
                    &&& e.rejected() == items@[S::initial_bound().unwrap() as int]
                },
            },
            r is Ok <==> (S::initial_bound() is None || items@.len() <= S::initial_bound().unwrap()),
    {
        let mut store = S::new();
        let ghost all = items@;
        match append_all(&mut store, items) {
            Ok(()) => {
                proof {
                    store.lemma_within_bound();
                }
                assert(Seq::<S::Elem>::empty() + all =~= all);
                Ok(Bag { store })
            },
            Err(e) => {
                proof {
                    store.lemma_within_bound();
                    let k = choose|k: int| {
                        &&& 0 <= k < all.len()
                        &&& e.rejected() == all[k]
                        &&& store.elems() == Seq::<S::Elem>::empty() + all.take(k)
                        &&& store.bound() is Some
                        &&& store.elems().len() >= store.bound().unwrap()
                    };
                    assert(store.elems().len() == k);
                }
                Err(e)
            },
        }
    }
}

impl<S: StoreMut + Unbounded> Bag<S> {
    /// Appends `value`; infallible on an unbounded store.
    pub fn push(&mut self, value: S::Elem)
        requires
            old(self).inv(),
        ensures
            final(self).inv(),
            final(self).bound() == old(self).bound(),
            final(self)@ == old(self)@.push(value),
    {
        proof {
            self.store.lemma_unbounded();
        }
        let _ = self.try_push(value);
    }
}

} // verus!
