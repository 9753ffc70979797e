//! The entry API of the column maps: one key lookup for a
//! read-modify-write, over the two borrowed columns.
//!
//! An entry is specified over the columns it borrows: their current elements
//! and, through `final(..)`, what they hold once the borrow ends. Every edit
//! keeps the two columns aligned.

use vstd::prelude::*;
use crate::columns::{combined_bound, insert_pair_at};
use crate::entry::Kind;
use crate::error::CapacityError;
use crate::store::{swap_removed, Store, StoreMut, Unbounded};

verus! {

/// A view into one slot of a column map: the key is present (`Occupied`) or
/// absent (`Vacant`, with the slot it would take).
pub enum ColumnEntry<'a, SK, SV, K> {
    Occupied(OccupiedColumnEntry<'a, SK, SV>),
    Vacant(VacantColumnEntry<'a, SK, SV, K>),
}

/// An entry for a key that is in the map: the borrowed columns and the index
/// of the key's slot.
pub struct OccupiedColumnEntry<'a, SK, SV> {
    pub keys: &'a mut SK,
    pub values: &'a mut SV,
    pub index: usize,
    pub kind: Kind,
}

/// An entry for a key that is not in the map: the borrowed columns, the
/// index the key would take, and the key itself.
pub struct VacantColumnEntry<'a, SK, SV, K> {
    pub keys: &'a mut SK,
    pub values: &'a mut SV,
    pub index: usize,
    pub key: K,
}

impl<'a, SK: Store, SV: Store> OccupiedColumnEntry<'a, SK, SV> {
    /// The key store's bound.
    pub open spec fn keys_bound(&self) -> Option<usize> {
        self.keys.bound()
    }

    /// The value store's bound.
    pub open spec fn values_bound(&self) -> Option<usize> {
        self.values.bound()
    }

    /// The key column as it stands.
    pub open spec fn key_column(&self) -> Seq<SK::Elem> {
        self.keys.elems()
    }

    /// The value column as it stands.
    pub open spec fn value_column(&self) -> Seq<SV::Elem> {
        self.values.elems()
    }

    /// The key store as it stands.
    pub open spec fn keys_now(&self) -> SK {
        *self.keys
    }

    /// The entry points at an existing slot of two aligned, well-formed
    /// columns.
    pub open spec fn wf(&self) -> bool {
        &&& self.keys.well_formed()
        &&& self.values.well_formed()
        &&& self.keys.elems().len() == self.values.elems().len()
        &&& self.index < self.keys.elems().len()
    }
}

impl<'a, SK: Store, SV: Store, K> VacantColumnEntry<'a, SK, SV, K> {
    /// The key store's bound.
    pub open spec fn keys_bound(&self) -> Option<usize> {
        self.keys.bound()
    }

    /// The value store's bound.
    pub open spec fn values_bound(&self) -> Option<usize> {
        self.values.bound()
    }

    /// The key column as it stands.
    pub open spec fn key_column(&self) -> Seq<SK::Elem> {
        self.keys.elems()
    }

    /// The value column as it stands.
    pub open spec fn value_column(&self) -> Seq<SV::Elem> {
        self.values.elems()
    }

    /// The capacity of the two columns together.
    pub open spec fn capacity(&self) -> Option<usize> {
        combined_bound(self.keys_bound(), self.values_bound())
    }

    /// The key store as it stands.
    pub open spec fn keys_now(&self) -> SK {
        *self.keys
    }

    /// The value store as it stands.
    pub open spec fn values_now(&self) -> SV {
        *self.values
    }

    /// The entry points at a valid insertion index of two aligned,
    /// well-formed columns.
    pub open spec fn wf(&self) -> bool {
        &&& self.keys.well_formed()
        &&& self.values.well_formed()
        &&& self.keys.elems().len() == self.values.elems().len()
        &&& self.index <= self.keys.elems().len()
    }
}

impl<'a, SK: Store, SV: Store, K> ColumnEntry<'a, SK, SV, K> {
    /// The entry is well formed, whichever variant it is.
    pub open spec fn wf(&self) -> bool {
        match self {
            ColumnEntry::Occupied(e) => e.wf(),
            ColumnEntry::Vacant(e) => e.wf(),
        }
    }
}

impl<'a, K: 'a, V: 'a, SK: StoreMut<Elem = K>, SV: StoreMut<Elem = V>> OccupiedColumnEntry<'a, SK, SV> {
    /// The key in this slot.
    pub fn key(&self) -> (r: &K)
        requires
            self.wf(),
        ensures
            *r == self.key_column()[self.index as int],
    {
        &self.keys.as_slice()[self.index]
    }

    /// The value in this slot.
    pub fn get(&self) -> (r: &V)
        requires
            self.wf(),
        ensures
            *r == self.value_column()[self.index as int],
    {
        &self.values.as_slice()[self.index]
    }

    /// A mutable reference to the value, borrowing the entry. Only the value
    /// in this slot can change.
    pub fn get_mut(&mut self) -> (r: &mut V)
        requires
            old(self).wf(),
        ensures
            *r == old(self).value_column()[old(self).index as int],
            final(self).wf(),
            final(self).index == old(self).index,
            final(self).kind == old(self).kind,
            final(self).keys_bound() == old(self).keys_bound(),
            final(self).values_bound() == old(self).values_bound(),
            final(self).key_column() == old(self).key_column(),
            final(self).value_column() == old(self).value_column().update(old(self).index as int, *final(r)),
            *final(final(self).keys) == *final(old(self).keys),
            *final(final(self).values) == *final(old(self).values),
    {
        let s = self.values.as_mut_slice();
        &mut s[self.index]
    }

    /// A mutable reference to the value for the map's whole borrow, consuming
    /// the entry; the key column is left as it is.
    pub fn into_mut(self) -> (r: &'a mut V)
        requires
            self.wf(),
        ensures
            *r == self.value_column()[self.index as int],
            *final(self.keys) == self.keys_now(),
            final(self.values).well_formed(),
            final(self.values).bound() == self.values_bound(),
            final(self.values).elems() == self.value_column().update(self.index as int, *final(r)),
    {
        let s = self.values.as_mut_slice();
        &mut s[self.index]
    }

    /// Replaces the value, returning the old one; consumes no capacity.
    pub fn insert(&mut self, value: V) -> (r: V)
        requires
            old(self).wf(),
        ensures
            r == old(self).value_column()[old(self).index as int],
            final(self).wf(),
            final(self).index == old(self).index,
            final(self).kind == old(self).kind,
            final(self).keys_bound() == old(self).keys_bound(),
            final(self).values_bound() == old(self).values_bound(),
            final(self).key_column() == old(self).key_column(),
            final(self).value_column() == old(self).value_column().update(old(self).index as int, value),
            *final(final(self).keys) == *final(old(self).keys),
            *final(final(self).values) == *final(old(self).values),
    {
        let slot = self.get_mut();
        let mut v = value;
        core::mem::swap(slot, &mut v);
        v
    }

    /// Removes the entry, returning its value.
    pub fn remove(self) -> (r: V)
        requires
            self.wf(),
        ensures
            r == self.value_column()[self.index as int],
            final(self.keys).well_formed(),
            final(self.values).well_formed(),
            final(self.keys).bound() == self.keys_bound(),
            final(self.values).bound() == self.values_bound(),
            self.kind == Kind::Sorted ==> {
                &&& final(self.keys).elems() == self.key_column().remove(self.index as int)
                &&& final(self.values).elems() == self.value_column().remove(self.index as int)
            },
            self.kind == Kind::Unsorted ==> {
                &&& final(self.keys).elems() == swap_removed(self.key_column(), self.index as int)
                &&& final(self.values).elems() == swap_removed(self.value_column(), self.index as int)
            },
    {
        self.remove_entry().1
    }

    /// Removes the entry from both columns, returning its key and value: an
    /// order-keeping shift for a sorted map, a swap with the last pair for an
    /// unsorted one.
    pub fn remove_entry(self) -> (r: (K, V))
        requires
            self.wf(),
        ensures
            r == (self.key_column()[self.index as int], self.value_column()[self.index as int]),
            final(self.keys).well_formed(),
            final(self.values).well_formed(),
            final(self.keys).bound() == self.keys_bound(),
            final(self.values).bound() == self.values_bound(),
            self.kind == Kind::Sorted ==> {
                &&& final(self.keys).elems() == self.key_column().remove(self.index as int)
                &&& final(self.values).elems() == self.value_column().remove(self.index as int)
            },
            self.kind == Kind::Unsorted ==> {
                &&& final(self.keys).elems() == swap_removed(self.key_column(), self.index as int)
                &&& final(self.values).elems() == swap_removed(self.value_column(), self.index as int)
            },
    {
        match self.kind {
            Kind::Sorted => {
                let k = self.keys.remove_at(self.index);
                let v = self.values.remove_at(self.index);
                (k, v)
            },
            Kind::Unsorted => {
                let k = self.keys.swap_remove_at(self.index);
                let v = self.values.swap_remove_at(self.index);
                (k, v)
            },
        }
    }
}

impl<'a, K: 'a, V: 'a, SK: StoreMut<Elem = K>, SV: StoreMut<Elem = V>> VacantColumnEntry<'a, SK, SV, K> {
    /// The key that would be inserted.
    pub fn key(&self) -> (r: &K)
        ensures
            *r == self.key,
    {
        &self.key
    }

    /// Takes the key back without inserting; both columns are untouched.
    pub fn into_key(self) -> (r: K)
        ensures
            r == self.key,
            *final(self.keys) == self.keys_now(),
            *final(self.values) == self.values_now(),
    {
        self.key
    }

    /// Inserts the key and `value` at the entry's index of both columns and
    /// returns a mutable reference to the value. `Err` hands `(key, value)`
    /// back when the columns are full.
    pub fn try_insert(self, value: V) -> (r: Result<&'a mut V, CapacityError<(K, V)>>)
        requires
            self.wf(),
        ensures
            final(self.keys).well_formed(),
            final(self.values).well_formed(),
            final(self.keys).bound() == self.keys_bound(),
            final(self.values).bound() == self.values_bound(),
            match r {
                Ok(v) => {
                    &&& *v == value
                    &&& final(self.keys).elems() == self.key_column().insert(self.index as int, self.key)
                    &&& final(self.values).elems() == self.value_column().insert(self.index as int, *final(v))
                },
                Err(e) => {
                    &&& e.rejected() == (self.key, value)
                    &&& final(self.keys).elems() == self.key_column()
                    &&& final(self.values).elems() == self.value_column()
                    &&& self.capacity() == Some(self.key_column().len() as usize)
                },
            },
            r is Err <==> self.capacity() == Some(self.key_column().len() as usize),
    {
        let VacantColumnEntry { keys, values, index, key } = self;
        match insert_pair_at(keys, values, index, key, value) {
            Ok(()) => {
                proof {
                    keys.lemma_within_bound();
                    values.lemma_within_bound();
                }
                let s = values.as_mut_slice();
                Ok(&mut s[index])
            },
            Err(e) => Err(e),
        }
    }
}

impl<'a, K: 'a, V: 'a, SK: StoreMut<Elem = K> + Unbounded, SV: StoreMut<Elem = V> + Unbounded> VacantColumnEntry<'a, SK, SV, K> {
    /// Inserts the key and `value` and returns a mutable reference to the
    /// value; infallible on unbounded columns.
    #[verifier::loop_isolation(false)]
    pub fn insert(self, value: V) -> (r: &'a mut V)
        requires
            self.wf(),
        ensures
            *r == value,
            final(self.keys).well_formed(),
            final(self.values).well_formed(),
            final(self.keys).elems() == self.key_column().insert(self.index as int, self.key),
            final(self.values).elems() == self.value_column().insert(self.index as int, *final(r)),
    {
        proof {
            self.keys.lemma_unbounded();
            self.values.lemma_unbounded();
        }
        match self.try_insert(value) {
            Ok(v) => v,
            Err(_) => {
                assert(false);
                loop
                    decreases 0nat,
                {
                }
            },
        }
    }
}

impl<'a, K: 'a, V: 'a, SK: StoreMut<Elem = K>, SV: StoreMut<Elem = V>> ColumnEntry<'a, SK, SV, K> {
    /// The key this entry resolves, present or not.
    pub fn key(&self) -> (r: &K)
        requires
            self.wf(),
        ensures
            match self {
                ColumnEntry::Occupied(e) => *r == e.key_column()[e.index as int],
                ColumnEntry::Vacant(e) => *r == e.key,
            },
    {
        match self {
            ColumnEntry::Occupied(e) => e.key(),
            ColumnEntry::Vacant(e) => &e.key,
        }
    }

    /// Runs `f` on the value if the key is present, then returns the entry; a
    /// vacant entry comes back untouched.
    pub fn and_modify<F: FnOnce(&mut V)>(self, f: F) -> (r: Self)
        requires
            self.wf(),
            forall|v: &mut V| call_requires(f, (v,)),
        ensures
            r.wf(),
            match self {
                ColumnEntry::Vacant(_) => r == self,
                ColumnEntry::Occupied(e) => {
                    &&& r matches ColumnEntry::Occupied(e2)
                    &&& e2.index == e.index
                    &&& e2.kind == e.kind
                    &&& e2.keys_bound() == e.keys_bound()
                    &&& e2.values_bound() == e.values_bound()
                    &&& e2.key_column() == e.key_column()
                    &&& e2.value_column().len() == e.value_column().len()
                    &&& forall|j: int| 0 <= j < e.value_column().len() && j != e.index ==> #[trigger] e2.value_column()[j] == e.value_column()[j]
                    &&& exists|m: &mut V| {
                        &&& *m == e.value_column()[e.index as int]
                        &&& *final(m) == e2.value_column()[e.index as int]
                        &&& call_ensures(f, (m,), ())
                    }
                    &&& *final(e2.keys) == *final(e.keys)
                    &&& *final(e2.values) == *final(e.values)
                },
            },
    {
        match self {
            ColumnEntry::Occupied(mut e) => {
                let v = e.get_mut();
                f(v);
                ColumnEntry::Occupied(e)
            },
            ColumnEntry::Vacant(e) => ColumnEntry::Vacant(e),
        }
    }

    /// The value for the key, inserting `default` if the key is absent. `Err`
    /// hands `(key, default)` back when the key is absent and the columns full.
    pub fn or_try_insert(self, default: V) -> (r: Result<&'a mut V, CapacityError<(K, V)>>)
        requires
            self.wf(),
        ensures
            match self {
                ColumnEntry::Occupied(e) => {
                    &&& r matches Ok(v)
                    &&& *v == e.value_column()[e.index as int]
                    &&& *final(e.keys) == e.keys_now()
                    &&& final(e.values).well_formed()
                    &&& final(e.values).bound() == e.values_bound()
                    &&& final(e.values).elems() == e.value_column().update(e.index as int, *final(v))
                },
                ColumnEntry::Vacant(e) => {
                    &&& final(e.keys).well_formed()
                    &&& final(e.values).well_formed()
                    &&& final(e.keys).bound() == e.keys_bound()
                    &&& final(e.values).bound() == e.values_bound()
                    &&& match r {
                        Ok(v) => {
                            &&& *v == default
                            &&& final(e.keys).elems() == e.key_column().insert(e.index as int, e.key)
                            &&& final(e.values).elems() == e.value_column().insert(e.index as int, *final(v))
                        },
                        Err(err) => {
                            &&& err.rejected() == (e.key, default)
                            &&& final(e.keys).elems() == e.key_column()
                            &&& final(e.values).elems() == e.value_column()
                            &&& e.capacity() == Some(e.key_column().len() as usize)
                        },
                    }
                },
            },
    {
        match self {
            ColumnEntry::Occupied(e) => Ok(e.into_mut()),
            ColumnEntry::Vacant(e) => e.try_insert(default),
        }
    }

    /// Like [`or_try_insert`](Self::or_try_insert), computing the default with
    /// `f` only when the key is absent.
    pub fn or_try_insert_with<F: FnOnce() -> V>(self, f: F) -> (r: Result<&'a mut V, CapacityError<(K, V)>>)
        requires
            self.wf(),
            call_requires(f, ()),
        ensures
            match self {
                ColumnEntry::Occupied(e) => {
                    &&& r matches Ok(v)
                    &&& *v == e.value_column()[e.index as int]
                    &&& *final(e.keys) == e.keys_now()
                    &&& final(e.values).well_formed()
                    &&& final(e.values).bound() == e.values_bound()
                    &&& final(e.values).elems() == e.value_column().update(e.index as int, *final(v))
                },
                ColumnEntry::Vacant(e) => {
                    &&& final(e.keys).well_formed()
                    &&& final(e.values).well_formed()
                    &&& final(e.keys).bound() == e.keys_bound()
                    &&& final(e.values).bound() == e.values_bound()
                    &&& match r {
                        Ok(v) => {
                            &&& call_ensures(f, (), *v)
                            &&& final(e.keys).elems() == e.key_column().insert(e.index as int, e.key)
                            &&& final(e.values).elems() == e.value_column().insert(e.index as int, *final(v))
                        },
                        Err(err) => {
                            &&& call_ensures(f, (), err.rejected().1)
                            &&& err.rejected().0 == e.key
                            &&& final(e.keys).elems() == e.key_column()
                            &&& final(e.values).elems() == e.value_column()
                            &&& e.capacity() == Some(e.key_column().len() as usize)
                        },
                    }
                },
            },
    {
        match self {
            ColumnEntry::Occupied(e) => Ok(e.into_mut()),
            ColumnEntry::Vacant(e) => {
                let d = f();
                e.try_insert(d)
            },
        }
    }
}

impl<'a, K: 'a, V: 'a, SK: StoreMut<Elem = K> + Unbounded, SV: StoreMut<Elem = V> + Unbounded> ColumnEntry<'a, SK, SV, K> {
    /// The value for the key, inserting `default` if the key is absent;
    /// infallible on unbounded columns.
    #[verifier::loop_isolation(false)]
    pub fn or_insert(self, default: V) -> (r: &'a mut V)
        requires
            self.wf(),
        ensures
            match self {
                ColumnEntry::Occupied(e) => {
                    &&& *r == e.value_column()[e.index as int]
                    &&& *final(e.keys) == e.keys_now()
                    &&& final(e.values).well_formed()
                    &&& final(e.values).elems() == e.value_column().update(e.index as int, *final(r))
                },
                ColumnEntry::Vacant(e) => {
                    &&& *r == default
                    &&& final(e.keys).well_formed()
                    &&& final(e.values).well_formed()
                    &&& final(e.keys).elems() == e.key_column().insert(e.index as int, e.key)
                    &&& final(e.values).elems() == e.value_column().insert(e.index as int, *final(r))
                },
            },
    {
        proof {
            match &self {
                ColumnEntry::Occupied(e) => {},
                ColumnEntry::Vacant(e) => {
                    e.keys.lemma_unbounded();
                    e.values.lemma_unbounded();
                },
            }
        }
        match self.or_try_insert(default) {
            Ok(v) => v,
            Err(_) => {
                assert(false);
                loop
                    decreases 0nat,
                {
                }
            },
        }
    }

    /// The value for the key, inserting `f()` if the key is absent (computed
    /// only then); infallible on unbounded columns.
    #[verifier::loop_isolation(false)]
    pub fn or_insert_with<F: FnOnce() -> V>(self, f: F) -> (r: &'a mut V)
        requires
            self.wf(),
            call_requires(f, ()),
        ensures
            match self {
                ColumnEntry::Occupied(e) => {
                    &&& *r == e.value_column()[e.index as int]
                    &&& *final(e.keys) == e.keys_now()
                    &&& final(e.values).well_formed()
                    &&& final(e.values).elems() == e.value_column().update(e.index as int, *final(r))
                },
                ColumnEntry::Vacant(e) => {
                    &&& call_ensures(f, (), *r)
                    &&& final(e.keys).well_formed()
                    &&& final(e.values).well_formed()
                    &&& final(e.keys).elems() == e.key_column().insert(e.index as int, e.key)
                    &&& final(e.values).elems() == e.value_column().insert(e.index as int, *final(r))
                },
            },
    {
        proof {
            match &self {
                ColumnEntry::Occupied(e) => {},
                ColumnEntry::Vacant(e) => {
                    e.keys.lemma_unbounded();
                    e.values.lemma_unbounded();
                },
            }
        }
        match self.or_try_insert_with(f) {
            Ok(v) => v,
            Err(_) => {
                assert(false);
                loop
                    decreases 0nat,
                {
                }
            },
        }
    }

    /// The value for the key, inserting `V::default()` if the key is absent;
    /// infallible on unbounded columns.
    pub fn or_default(self) -> (r: &'a mut V)
        where
            V: Default,
        requires
            self.wf(),
        ensures
            match self {
                ColumnEntry::Occupied(e) => {
                    &&& *r == e.value_column()[e.index as int]
                    &&& *final(e.keys) == e.keys_now()
                    &&& final(e.values).well_formed()
                    &&& final(e.values).elems() == e.value_column().update(e.index as int, *final(r))
                },
                ColumnEntry::Vacant(e) => {
                    &&& final(e.keys).well_formed()
                    &&& final(e.values).well_formed()
                    &&& final(e.keys).elems() == e.key_column().insert(e.index as int, e.key)
                    &&& final(e.values).elems() == e.value_column().insert(e.index as int, *final(r))
                },
            },
    {
        match self {
            ColumnEntry::Occupied(e) => e.into_mut(),
            ColumnEntry::Vacant(e) => e.insert(V::default()),
        }
    }
}

} // verus!
