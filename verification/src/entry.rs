//! The entry API of [`SortedMap`](crate::SortedMap) and
//! [`UnsortedMap`](crate::UnsortedMap): one key lookup for a
//! read-modify-write. `map.entry(key)` resolves the slot once and hands back an
//! [`Entry`] that borrows the map's store.
//!
//! An entry is specified over the store it borrows: its current elements
//! (`store.elems()`) and, through `final(..)`, what the store holds once the
//! borrow ends. The map's `entry` ties that final store back to the map.

use vstd::prelude::*;
use crate::error::CapacityError;
use crate::order::keys_of;
use crate::store::{swap_removed, Store, StoreMut, Unbounded};

verus! {

/// How an occupied entry is removed: shifting the tail (keeps key order) or
/// moving the last entry into the gap (constant time, order not kept).
#[derive(Clone, Copy, PartialEq, Eq, Structural, Debug)]
pub enum Kind {
    Sorted,
    Unsorted,
}

/// A view into one slot of a map: the key is present (`Occupied`) or absent
/// (`Vacant`, with the slot it would take).
pub enum Entry<'a, S, K> {
    Occupied(OccupiedEntry<'a, S>),
    Vacant(VacantEntry<'a, S, K>),
}

/// An entry for a key that is in the map: the borrowed store and the index of
/// the key's slot.
pub struct OccupiedEntry<'a, S> {
    pub store: &'a mut S,
    pub index: usize,
    pub kind: Kind,
}

/// An entry for a key that is not in the map: the borrowed store, the index
/// the key would take, and the key itself.
pub struct VacantEntry<'a, S, K> {
    pub store: &'a mut S,
    pub index: usize,
    pub key: K,
}

impl<'a, S: Store> OccupiedEntry<'a, S> {
    /// The borrowed store's elements as they stand.
    pub open spec fn entries(&self) -> Seq<S::Elem> {
        self.store.elems()
    }

    /// The borrowed store's bound.
    pub open spec fn store_bound(&self) -> Option<usize> {
        self.store.bound()
    }

    /// The entry points at an existing slot of a well-formed store.
    pub open spec fn wf(&self) -> bool {
        &&& self.store.well_formed()
        &&& self.index < self.entries().len()
    }
}

impl<'a, S: Store, K> VacantEntry<'a, S, K> {
    /// The borrowed store's elements as they stand.
    pub open spec fn entries(&self) -> Seq<S::Elem> {
        self.store.elems()
    }

    /// The borrowed store's bound.
    pub open spec fn store_bound(&self) -> Option<usize> {
        self.store.bound()
    }

    /// The borrowed store as it stands.
    pub open spec fn store_now(&self) -> S {
        *self.store
    }

    /// The entry points at a valid insertion index of a well-formed store.
    pub open spec fn wf(&self) -> bool {
        &&& self.store.well_formed()
        &&& self.index <= self.entries().len()
    }
}

impl<'a, S: Store, K> Entry<'a, S, K> {
    /// The entry is well formed, whichever variant it is.
    pub open spec fn wf(&self) -> bool {
        match self {
            Entry::Occupied(e) => e.wf(),
            Entry::Vacant(e) => e.wf(),
        }
    }
}

impl<'a, K: 'a, V: 'a, S: StoreMut<Elem = (K, V)>> OccupiedEntry<'a, S> {
    /// The key in this slot.
    pub fn key(&self) -> (r: &K)
        requires
            self.wf(),
        ensures
            *r == self.entries()[self.index as int].0,
    {
        &self.store.as_slice()[self.index].0
    }

    /// The value in this slot.
    pub fn get(&self) -> (r: &V)
        requires
            self.wf(),
        ensures
            *r == self.entries()[self.index as int].1,
    {
        &self.store.as_slice()[self.index].1
    }

    /// A mutable reference to the value, borrowing the entry. Only the value
    /// in this slot can change.
    pub fn get_mut(&mut self) -> (r: &mut V)
        requires
            old(self).wf(),
        ensures
            *r == old(self).entries()[old(self).index as int].1,
            final(self).wf(),
            final(self).index == old(self).index,
            final(self).kind == old(self).kind,
            final(self).store_bound() == old(self).store_bound(),
            final(self).entries() == old(self).entries().update(
                old(self).index as int,
                (old(self).entries()[old(self).index as int].0, *final(r)),
            ),
            *final(final(self).store) == *final(old(self).store),
    {
        let s = self.store.as_mut_slice();
        &mut s[self.index].1
    }

    /// A mutable reference to the value for the map's whole borrow, consuming
    /// the entry.
    pub fn into_mut(self) -> (r: &'a mut V)
        requires
            self.wf(),
        ensures
            *r == self.entries()[self.index as int].1,
            final(self.store).well_formed(),
            final(self.store).bound() == self.store_bound(),
            final(self.store).elems() == self.entries().update(
                self.index as int,
                (self.entries()[self.index as int].0, *final(r)),
            ),
    {
        let s = self.store.as_mut_slice();
        &mut s[self.index].1
    }

    /// Replaces the value, returning the old one; consumes no capacity.
    pub fn insert(&mut self, value: V) -> (r: V)
        requires
            old(self).wf(),
        ensures
            r == old(self).entries()[old(self).index as int].1,
            final(self).wf(),
            final(self).index == old(self).index,
            final(self).kind == old(self).kind,
            final(self).store_bound() == old(self).store_bound(),
            final(self).entries() == old(self).entries().update(
                old(self).index as int,
                (old(self).entries()[old(self).index as int].0, value),
            ),
            *final(final(self).store) == *final(old(self).store),
    {
        let slot = self.get_mut();
        let mut v = value;
        core::mem::swap(slot, &mut v);
        v
    }

    /// Removes the entry, returning its value.
    pub fn remove(self) -> (r: V)
        requires
            self.wf(),
        ensures
            r == self.entries()[self.index as int].1,
            final(self.store).well_formed(),
            final(self.store).bound() == self.store_bound(),
            self.kind == Kind::Sorted ==> final(self.store).elems() == self.entries().remove(self.index as int),
            self.kind == Kind::Unsorted ==> final(self.store).elems() == swap_removed(self.entries(), self.index as int),
    {
        self.remove_entry().1
    }

    /// Removes the entry, returning its key and value: an order-keeping shift
    /// for a sorted map, a swap with the last entry for an unsorted one.
    pub fn remove_entry(self) -> (r: (K, V))
        requires
            self.wf(),
        ensures
            r == self.entries()[self.index as int],
            final(self.store).well_formed(),
            final(self.store).bound() == self.store_bound(),
            self.kind == Kind::Sorted ==> final(self.store).elems() == self.entries().remove(self.index as int),
            self.kind == Kind::Unsorted ==> final(self.store).elems() == swap_removed(self.entries(), self.index as int),
    {
        match self.kind {
            Kind::Sorted => self.store.remove_at(self.index),
            Kind::Unsorted => self.store.swap_remove_at(self.index),
        }
    }
}

impl<'a, K: 'a, V: 'a, S: StoreMut<Elem = (K, V)>> VacantEntry<'a, S, K> {
    /// The key that would be inserted.
    pub fn key(&self) -> (r: &K)
        ensures
            *r == self.key,
    {
        &self.key
    }

    /// Takes the key back without inserting; the store is untouched.
    pub fn into_key(self) -> (r: K)
        ensures
            r == self.key,
            *final(self.store) == self.store_now(),
    {
        self.key
    }

    /// Inserts `value` for the key at the entry's index and returns a mutable
    /// reference to it. `Err` hands `(key, value)` back when the store is full.
    pub fn try_insert(self, value: V) -> (r: Result<&'a mut V, CapacityError<(K, V)>>)
        requires
            self.wf(),
        ensures
            final(self.store).well_formed(),
            final(self.store).bound() == self.store_bound(),
            match r {
                Ok(v) => {
                    &&& *v == value
                    &&& final(self.store).elems() == self.entries().insert(self.index as int, (self.key, *final(v)))
                },
                Err(e) => {
                    &&& e.rejected() == (self.key, value)
                    &&& final(self.store).elems() == self.entries()
                    &&& self.store_bound() == Some(self.entries().len() as usize)
                },
            },
            r is Err <==> self.store_bound() == Some(self.entries().len() as usize),
    {
        let VacantEntry { store, index, key } = self;
        proof {
            store.lemma_within_bound();
        }
        match store.try_insert_at(index, (key, value)) {
            Ok(()) => {
                proof {
                    store.lemma_within_bound();
                }
                let s = store.as_mut_slice();
                Ok(&mut s[index].1)
            },
            Err(e) => Err(e),
        }
    }
}

impl<'a, K: 'a, V: 'a, S: StoreMut<Elem = (K, V)> + Unbounded> VacantEntry<'a, S, K> {
    /// Inserts `value` for the key and returns a mutable reference to it;
    /// infallible on an unbounded store.
    #[verifier::loop_isolation(false)]
    pub fn insert(self, value: V) -> (r: &'a mut V)
        requires
            self.wf(),
        ensures
            *r == value,
            final(self.store).well_formed(),
            final(self.store).bound() == self.store_bound(),
            final(self.store).elems() == self.entries().insert(self.index as int, (self.key, *final(r))),
    {
        proof {
            self.store.lemma_unbounded();
        }
        match self.try_insert(value) {
            Ok(v) => v,
            Err(_) => {
                assert(false);
                loop
                    decreases 0nat,
                {
                }
            },
        }
    }
}

impl<'a, K: 'a, V: 'a, S: StoreMut<Elem = (K, V)>> Entry<'a, S, K> {
    /// The key this entry resolves, present or not.
    pub fn key(&self) -> (r: &K)
        requires
            self.wf(),
        ensures
            match self {
                Entry::Occupied(e) => *r == e.entries()[e.index as int].0,
                Entry::Vacant(e) => *r == e.key,
            },
    {
        match self {
            Entry::Occupied(e) => e.key(),
            Entry::Vacant(e) => &e.key,
        }
    }

    /// Runs `f` on the value if the key is present, then returns the entry; a
    /// vacant entry comes back untouched.
    pub fn and_modify<F: FnOnce(&mut V)>(self, f: F) -> (r: Self)
        requires
            self.wf(),
            forall|v: &mut V| call_requires(f, (v,)),
        ensures
            r.wf(),
            match self {
                Entry::Vacant(_) => r == self,
                Entry::Occupied(e) => {
                    &&& r matches Entry::Occupied(e2)
                    &&& e2.index == e.index
                    &&& e2.kind == e.kind
                    &&& e2.store_bound() == e.store_bound()
                    &&& e2.entries().len() == e.entries().len()
                    &&& e2.entries()[e.index as int].0 == e.entries()[e.index as int].0
                    &&& forall|j: int| 0 <= j < e.entries().len() && j != e.index ==> #[trigger] e2.entries()[j] == e.entries()[j]
                    &&& exists|m: &mut V| {
                        &&& *m == e.entries()[e.index as int].1
                        &&& *final(m) == e2.entries()[e.index as int].1
                        &&& call_ensures(f, (m,), ())
                    }
                    &&& *final(e2.store) == *final(e.store)
                },
            },
    {
        match self {
            Entry::Occupied(mut e) => {
                let v = e.get_mut();
                f(v);
                Entry::Occupied(e)
            },
            Entry::Vacant(e) => Entry::Vacant(e),
        }
    }

    /// The value for the key, inserting `default` if the key is absent. `Err`
    /// hands `(key, default)` back when the key is absent and the store full.
    pub fn or_try_insert(self, default: V) -> (r: Result<&'a mut V, CapacityError<(K, V)>>)
        requires
            self.wf(),
        ensures
            match self {
                Entry::Occupied(e) => {
                    &&& r matches Ok(v)
                    &&& *v == e.entries()[e.index as int].1
                    &&& final(e.store).well_formed()
                    &&& final(e.store).bound() == e.store_bound()
                    &&& final(e.store).elems() == e.entries().update(e.index as int, (e.entries()[e.index as int].0, *final(v)))
                },
                Entry::Vacant(e) => {
                    &&& final(e.store).well_formed()
                    &&& final(e.store).bound() == e.store_bound()
                    &&& match r {
                        Ok(v) => {
                            &&& *v == default
                            &&& final(e.store).elems() == e.entries().insert(e.index as int, (e.key, *final(v)))
                        },
                        Err(err) => {
                            &&& err.rejected() == (e.key, default)
                            &&& final(e.store).elems() == e.entries()
                            &&& e.store_bound() == Some(e.entries().len() as usize)
                        },
                    }
                },
            },
    {
        match self {
            Entry::Occupied(e) => Ok(e.into_mut()),
            Entry::Vacant(e) => e.try_insert(default),
        }
    }

    /// Like [`or_try_insert`](Self::or_try_insert), computing the default with
    /// `f` only when the key is absent.
    pub fn or_try_insert_with<F: FnOnce() -> V>(self, f: F) -> (r: Result<&'a mut V, CapacityError<(K, V)>>)
        requires
            self.wf(),
            call_requires(f, ()),
        ensures
            match self {
                Entry::Occupied(e) => {
                    &&& r matches Ok(v)
                    &&& *v == e.entries()[e.index as int].1
                    &&& final(e.store).well_formed()
                    &&& final(e.store).bound() == e.store_bound()
                    &&& final(e.store).elems() == e.entries().update(e.index as int, (e.entries()[e.index as int].0, *final(v)))
                },
                Entry::Vacant(e) => {
                    &&& final(e.store).well_formed()
                    &&& final(e.store).bound() == e.store_bound()
                    &&& match r {
                        Ok(v) => {
                            &&& call_ensures(f, (), *v)
                            &&& final(e.store).elems() == e.entries().insert(e.index as int, (e.key, *final(v)))
                        },
                        Err(err) => {
                            &&& call_ensures(f, (), err.rejected().1)
                            &&& err.rejected().0 == e.key
                            &&& final(e.store).elems() == e.entries()
                            &&& e.store_bound() == Some(e.entries().len() as usize)
                        },
                    }
                },
            },
    {
        match self {
            Entry::Occupied(e) => Ok(e.into_mut()),
            Entry::Vacant(e) => {
                let d = f();
                e.try_insert(d)
            },
        }
    }
}

impl<'a, K: 'a, V: 'a, S: StoreMut<Elem = (K, V)> + Unbounded> Entry<'a, S, K> {
    /// The value for the key, inserting `default` if the key is absent;
    /// infallible on an unbounded store.
    #[verifier::loop_isolation(false)]
    pub fn or_insert(self, default: V) -> (r: &'a mut V)
        requires
            self.wf(),
        ensures
            match self {
                Entry::Occupied(e) => {
                    &&& *r == e.entries()[e.index as int].1
                    &&& final(e.store).well_formed()
                    &&& final(e.store).elems() == e.entries().update(e.index as int, (e.entries()[e.index as int].0, *final(r)))
                },
                Entry::Vacant(e) => {
                    &&& *r == default
                    &&& final(e.store).well_formed()
                    &&& final(e.store).elems() == e.entries().insert(e.index as int, (e.key, *final(r)))
                },
            },
    {
        proof {
            match &self {
                Entry::Occupied(e) => {},
                Entry::Vacant(e) => {
                    e.store.lemma_unbounded();
                },
            }
        }
        match self.or_try_insert(default) {
            Ok(v) => v,
            Err(_) => {
                assert(false);
                loop
                    decreases 0nat,
                {
                }
            },
        }
    }

    /// The value for the key, inserting `f()` if the key is absent (computed
    /// only then); infallible on an unbounded store.
    #[verifier::loop_isolation(false)]
    pub fn or_insert_with<F: FnOnce() -> V>(self, f: F) -> (r: &'a mut V)
        requires
            self.wf(),
            call_requires(f, ()),
        ensures
            match self {
                Entry::Occupied(e) => {
                    &&& *r == e.entries()[e.index as int].1
                    &&& final(e.store).well_formed()
                    &&& final(e.store).elems() == e.entries().update(e.index as int, (e.entries()[e.index as int].0, *final(r)))
                },
                Entry::Vacant(e) => {
                    &&& call_ensures(f, (), *r)
                    &&& final(e.store).well_formed()
                    &&& final(e.store).elems() == e.entries().insert(e.index as int, (e.key, *final(r)))
                },
            },
    {
        proof {
            match &self {
                Entry::Occupied(e) => {},
                Entry::Vacant(e) => {
                    e.store.lemma_unbounded();
                },
            }
        }
        match self.or_try_insert_with(f) {
            Ok(v) => v,
            Err(_) => {
                assert(false);
                loop
                    decreases 0nat,
                {
                }
            },
        }
    }

    /// The value for the key, inserting `V::default()` if the key is absent;
    /// infallible on an unbounded store.
    pub fn or_default(self) -> (r: &'a mut V)
        where
            V: Default,
        requires
            self.wf(),
        ensures
            match self {
                Entry::Occupied(e) => {
                    &&& *r == e.entries()[e.index as int].1
                    &&& final(e.store).well_formed()
                    &&& final(e.store).elems() == e.entries().update(e.index as int, (e.entries()[e.index as int].0, *final(r)))
                },
                Entry::Vacant(e) => {
                    &&& final(e.store).well_formed()
                    &&& final(e.store).elems() == e.entries().insert(e.index as int, (e.key, *final(r)))
                },
            },
    {
        match self {
            Entry::Occupied(e) => e.into_mut(),
            Entry::Vacant(e) => e.insert(V::default()),
        }
    }
}

} // verus!
