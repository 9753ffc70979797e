//! [`UnsortedColumnMap`]: a map that keeps its keys and values in two
//! parallel stores, searched by a chunked linear scan of the key column.
//! Insert appends to both columns; delete swap-removes from both.
//!
//! The map is modelled by the entries its aligned columns stand for (`@`) and
//! by the finite map they represent (`map()`).

use vstd::prelude::*;
use crate::column_entry::{ColumnEntry, OccupiedColumnEntry, VacantColumnEntry};
use crate::columns::{
    combined_bound, combined_capacity, insert_pair_at, lemma_zip_edits, lemma_zip_keys,
    retain_columns, chunked_position, zip_columns, ColumnIter, ColumnIterMut,
};
use crate::entries::{
    entries_map, keys_unique, upsert_all, lemma_entries_map_at, lemma_entries_map_dom,
    lemma_entries_map_push, lemma_entries_map_set_value, lemma_entries_map_swap_remove,
    lemma_filter_kept_keys, lemma_filter_kept_unique, lemma_with_values_keys, with_values,
};
use crate::entry::Kind;
use crate::error::{BuildError, CapacityError};
use crate::map::insert_all;
use crate::order::{chunked_contains, exact_eq, keys_of};
use crate::store::{filter_kept, SliceIterMut, swap_removed, Store, StoreMut, StoreNew, Unbounded};

verus! {

/// What a key-column scan miss means: the key is bound nowhere.
pub(crate) proof fn lemma_column_absent<K, V>(ks: Seq<K>, vs: Seq<V>, key: K)
    requires
        ks.len() == vs.len(),
        forall|j: int| 0 <= j < ks.len() ==> #[trigger] ks[j] != key,
    ensures
        !entries_map(zip_columns(ks, vs)).dom().contains(key),
        !ks.contains(key),
{
    let z = zip_columns(ks, vs);
    lemma_entries_map_dom(z, key);
    if exists|j: int| 0 <= j < z.len() && z[j].0 == key {
        let j = choose|j: int| 0 <= j < z.len() && z[j].0 == key;
        assert(ks[j] == key);
    }
}

/// A map over a key column and a value column; no key repeats.
#[derive(Clone, Debug)]
pub struct UnsortedColumnMap<SK, SV> {
    keys: SK,
    values: SV,
}

impl<SK: Store, SV: Store> UnsortedColumnMap<SK, SV> {
    /// The key column.
    pub closed spec fn key_column(&self) -> Seq<SK::Elem> {
        self.keys.elems()
    }

    /// The value column.
    pub closed spec fn value_column(&self) -> Seq<SV::Elem> {
        self.values.elems()
    }

    /// The key store.
    pub closed spec fn key_store(&self) -> SK {
        self.keys
    }

    /// The value store.
    pub closed spec fn value_store(&self) -> SV {
        self.values
    }

    /// Both stores are well formed and the columns are aligned.
    pub closed spec fn inv(&self) -> bool {
        &&& self.keys.well_formed()
        &&& self.values.well_formed()
        &&& self.keys.elems().len() == self.values.elems().len()
    }

    /// The capacity of the two columns together.
    pub closed spec fn bound(&self) -> Option<usize> {
        combined_bound(self.keys.bound(), self.values.bound())
    }

    /// The columns, the invariant and the bound, in terms of the two stores:
    /// the invariant holds exactly when both stores are well formed and the
    /// columns have equal length.
    pub proof fn lemma_columns(&self)
        ensures
            self.key_column() == self.key_store().elems(),
            self.value_column() == self.value_store().elems(),
            self.inv() == (self.key_store().well_formed() && self.value_store().well_formed()
                && self.key_column().len() == self.value_column().len()),
            self.bound() == combined_bound(self.key_store().bound(), self.value_store().bound()),
    {
    }

    /// The aligned columns are never longer than their combined capacity.
    pub proof fn lemma_within_bound(&self)
        requires
            self.inv(),
        ensures
            self.bound() is Some ==> self@.len() <= self.bound().unwrap(),
    {
        self.keys.lemma_within_bound();
        self.values.lemma_within_bound();
    }
}

impl<SK: Store, SV: Store> View for UnsortedColumnMap<SK, SV> {
    type V = Seq<(SK::Elem, SV::Elem)>;

    /// The entries the two columns stand for, in stored order.
    open spec fn view(&self) -> Seq<(SK::Elem, SV::Elem)> {
        zip_columns(self.key_column(), self.value_column())
    }
}

impl<K, V, SK: Store<Elem = K>, SV: Store<Elem = V>> UnsortedColumnMap<SK, SV> {
    /// The finite map the columns stand for.
    pub open spec fn map(&self) -> Map<K, V> {
        entries_map(self@)
    }

    /// The map invariant: aligned, well-formed columns with no repeated key.
    pub open spec fn wf(&self) -> bool {
        &&& self.inv()
        &&& self.key_column().no_duplicates()
    }

    /// The entries of a well-formed map carry the key column as their keys,
    /// so no key repeats among them.
    pub proof fn lemma_entries(&self)
        requires
            self.wf(),
        ensures
            keys_of(self@) == self.key_column(),
            keys_unique(self@),
    {
        lemma_zip_keys(self.key_column(), self.value_column());
    }
}

impl<SK: StoreNew, SV: StoreNew> UnsortedColumnMap<SK, SV> {
    /// Creates an empty map.
    pub fn new() -> (m: Self)
        ensures
            m.inv(),
            m.key_column() == Seq::<SK::Elem>::empty(),
            m.value_column() == Seq::<SV::Elem>::empty(),
            m.bound() == combined_bound(SK::initial_bound(), SV::initial_bound()),
    {
        UnsortedColumnMap { keys: SK::new(), values: SV::new() }
    }
}

impl<SK: StoreNew, SV: StoreNew> Default for UnsortedColumnMap<SK, SV> {
    fn default() -> (m: Self)
        ensures
            m.inv(),
            m.key_column() == Seq::<SK::Elem>::empty(),
            m.value_column() == Seq::<SV::Elem>::empty(),
    {
        Self::new()
    }
}

impl<SK: Store, SV: Store> UnsortedColumnMap<SK, SV> {
    /// The number of entries.
    pub fn len(&self) -> (n: usize)
        requires
            self.inv(),
        ensures
            n == self@.len(),
    {
        self.keys.len()
    }

    /// Whether the map is empty.
    pub fn is_empty(&self) -> (b: bool)
        requires
            self.inv(),
        ensures
            b == (self@.len() == 0),
    {
        self.keys.is_empty()
    }

    /// The capacity of the two columns together: the smaller of their bounds,
    /// or `None` if both are unbounded.
    pub fn capacity(&self) -> (c: Option<usize>)
        requires
            self.inv(),
        ensures
            c == self.bound(),
    {
        combined_capacity(self.keys.max_capacity(), self.values.max_capacity())
    }

    /// The key column as a slice.
    pub fn keys(&self) -> (s: &[SK::Elem])
        requires
            self.inv(),
        ensures
            s@ == self.key_column(),
            s@.len() == self.value_column().len(),
    {
        self.keys.as_slice()
    }

    /// The value column as a slice, aligned with the keys.
    pub fn values(&self) -> (s: &[SV::Elem])
        requires
            self.inv(),
        ensures
            s@ == self.value_column(),
            s@.len() == self.key_column().len(),
    {
        self.values.as_slice()
    }

    /// Borrows the two backing stores.
    pub fn stores(&self) -> (r: (&SK, &SV))
        ensures
            *r.0 == self.key_store(),
            *r.1 == self.value_store(),
            r.0.elems() == self.key_column(),
            r.1.elems() == self.value_column(),
    {
        (&self.keys, &self.values)
    }

    /// Consumes the map and hands back its two stores.
    pub fn into_stores(self) -> (r: (SK, SV))
        ensures
            r.0 == self.key_store(),
            r.1 == self.value_store(),
            r.0.elems() == self.key_column(),
            r.1.elems() == self.value_column(),
    {
        (self.keys, self.values)
    }
}

impl<SK: StoreMut, SV: StoreMut> UnsortedColumnMap<SK, SV> {
    /// Removes every entry from both columns.
    pub fn clear(&mut self)
        requires
            old(self).inv(),
        ensures
            final(self).inv(),
            final(self).key_column() == Seq::<SK::Elem>::empty(),
            final(self).value_column() == Seq::<SV::Elem>::empty(),
            final(self).bound() == old(self).bound(),
    {
        self.keys.clear();
        self.values.clear();
    }

    /// Pre-allocates room for `additional` more entries in both columns; the
    /// map is unchanged.
    pub fn reserve(&mut self, additional: usize)
        requires
            old(self).inv(),
        ensures
            final(self).inv(),
            final(self).key_column() == old(self).key_column(),
            final(self).value_column() == old(self).value_column(),
            final(self).bound() == old(self).bound(),
    {
        self.keys.reserve(additional);
        self.values.reserve(additional);
    }
}

impl<K, V, SK: Store<Elem = K>, SV: Store<Elem = V>> UnsortedColumnMap<SK, SV> {
    /// Iterates the entries as `(&K, &V)` pairs, in stored order.
    pub fn iter<'a>(&'a self) -> (it: ColumnIter<'a, K, V>)
        where
            K: 'a,
            V: 'a,
        requires
            self.inv(),
        ensures
            it.wf(),
            it.remaining() == self@,
    {
        ColumnIter::new(self.keys.as_slice(), self.values.as_slice())
    }
}

impl<K, V, SK: StoreMut<Elem = K>, SV: StoreMut<Elem = V>> UnsortedColumnMap<SK, SV> {
    /// Iterates the entries as `(&K, &mut V)` pairs, in stored order; the key
    /// column is untouched and the map keeps whatever values the iteration
    /// leaves.
    pub fn iter_mut<'a>(&'a mut self) -> (it: ColumnIterMut<'a, K, V>)
        where
            K: 'a,
            V: 'a,
        requires
            old(self).wf(),
        ensures
            it.keys@.len() == it.rest@.len(),
            it.remaining() == old(self)@,
            final(it.rest)@.len() == old(self)@.len() ==> {
                &&& final(self).wf()
                &&& final(self).key_column() == old(self).key_column()
                &&& final(self).value_column() == final(it.rest)@
                &&& final(self).bound() == old(self).bound()
            },
    {
        let ks = self.keys.as_slice();
        let vs = self.values.as_mut_slice();
        ColumnIterMut { keys: ks, rest: vs }
    }

    /// Iterates the values mutably, in stored order; the key column is
    /// untouched and the map keeps whatever values the iteration leaves.
    pub fn values_mut<'a>(&'a mut self) -> (it: SliceIterMut<'a, V>)
        where
            V: 'a,
        requires
            old(self).wf(),
        ensures
            it.remaining() == old(self).value_column(),
            final(it.rest)@.len() == old(self).value_column().len() ==> {
                &&& final(self).wf()
                &&& final(self).key_column() == old(self).key_column()
                &&& final(self).value_column() == final(it.rest)@
                &&& final(self).bound() == old(self).bound()
            },
    {
        let vs = self.values.as_mut_slice();
        SliceIterMut { rest: vs }
    }

    /// Keeps only the entries for which `f` returns `true`, in stored order
    /// and with the columns aligned; `f` sees each key and may edit its value.
    pub fn retain<F: FnMut(&K, &mut V) -> bool>(&mut self, f: F)
        requires
            old(self).wf(),
            forall|k: &K, v: &mut V| call_requires(f, (k, v)),
        ensures
            final(self).wf(),
            final(self).bound() == old(self).bound(),
            exists|vals: Seq<V>, keep: Seq<bool>, refs: Seq<&mut V>|
                #![trigger filter_kept(with_values(old(self)@, vals), keep), refs.len()]
            {
                &&& vals.len() == old(self)@.len()
                &&& keep.len() == old(self)@.len()
                &&& refs.len() == old(self)@.len()
                &&& forall|i: int| #![trigger refs[i]] 0 <= i < keep.len() ==> {
                    &&& *refs[i] == old(self)@[i].1
                    &&& *final(refs[i]) == vals[i]
                    &&& call_ensures(f, (&old(self)@[i].0, refs[i]), keep[i])
                }
                &&& final(self)@ == filter_kept(with_values(old(self)@, vals), keep)
            },
    {
        let ghost s0 = self@;
        let ghost ks0 = self.key_column();
        let ghost vs0 = self.value_column();
        retain_columns(&mut self.keys, &mut self.values, f);
        proof {
            let (vals, keep, refs) = choose|vals: Seq<V>, keep: Seq<bool>, refs: Seq<&mut V>|
                #![trigger with_values(zip_columns(ks0, vs0), vals), keep.len(), refs.len()]
            {
                &&& vals.len() == ks0.len()
                &&& keep.len() == ks0.len()
                &&& refs.len() == ks0.len()
                &&& forall|i: int| #![trigger refs[i]] 0 <= i < keep.len() ==> {
                    &&& *refs[i] == vs0[i]
                    &&& *final(refs[i]) == vals[i]
                    &&& call_ensures(f, (&ks0[i], refs[i]), keep[i])
                }
                &&& zip_columns(self.key_column(), self.value_column()) == filter_kept(with_values(zip_columns(ks0, vs0), vals), keep)
            };
            assert forall|i: int| #![trigger refs[i]] 0 <= i < keep.len() implies {
                &&& *refs[i] == s0[i].1
                &&& *final(refs[i]) == vals[i]
                &&& call_ensures(f, (&s0[i].0, refs[i]), keep[i])
            } by {
                assert(s0[i] == (ks0[i], vs0[i]));
            }
            lemma_zip_keys(ks0, vs0);
            lemma_zip_keys(self.key_column(), self.value_column());
            lemma_filter_kept_keys(with_values(s0, vals), keep);
            lemma_with_values_keys(s0, vals);
            lemma_filter_kept_unique(ks0, keep);
        }
    }
}

impl<K: Eq, V, SK: Store<Elem = K>, SV: Store<Elem = V>> UnsortedColumnMap<SK, SV> {
    /// Wraps two aligned columns whose keys do not repeat. No scan is
    /// performed.
    pub fn from_store(keys: SK, values: SV) -> (m: Self)
        requires
            keys.well_formed(),
            values.well_formed(),
            keys.elems().len() == values.elems().len(),
            keys.elems().no_duplicates(),
        ensures
            m.wf(),
            m.key_store() == keys,
            m.value_store() == values,
    {
        UnsortedColumnMap { keys, values }
    }

    /// The value bound to `key`, or `None` if absent.
    pub fn get<'a>(&'a self, key: &K) -> (r: Option<&'a V>)
        where
            V: 'a,
        requires
            self.wf(),
            exact_eq::<K>(),
        ensures
            r is Some <==> self.map().dom().contains(*key),
            r matches Some(v) ==> *v == self.map()[*key],
    {
        proof {
            lemma_zip_keys(self.key_column(), self.value_column());
        }
        match chunked_position(self.keys.as_slice(), key) {
            Some(i) => {
                proof {
                    lemma_entries_map_at(self@, i as int);
                }
                Some(&self.values.as_slice()[i])
            },
            None => {
                proof {
                    lemma_column_absent(self.key_column(), self.value_column(), *key);
                }
                None
            },
        }
    }

    /// Whether `key` is bound (a chunked scan of the key column).
    pub fn contains_key(&self, key: &K) -> (b: bool)
        requires
            self.wf(),
            exact_eq::<K>(),
        ensures
            b == self.map().dom().contains(*key),
    {
        proof {
            lemma_zip_keys(self.key_column(), self.value_column());
            lemma_entries_map_dom(self@, *key);
            if self.key_column().contains(*key) {
                let j = choose|j: int| 0 <= j < self.key_column().len() && self.key_column()[j] == *key;
                assert(self@[j].0 == *key);
            }
            if exists|j: int| 0 <= j < self@.len() && self@[j].0 == *key {
                let j = choose|j: int| 0 <= j < self@.len() && self@[j].0 == *key;
                assert(self.key_column()[j] == *key);
            }
        }
        chunked_contains(self.keys.as_slice(), key)
    }
}

impl<K: Eq, V, SK: StoreMut<Elem = K>, SV: StoreMut<Elem = V>> UnsortedColumnMap<SK, SV> {
    /// A mutable reference to the value bound to `key`, or `None` if absent.
    pub fn get_mut<'a>(&'a mut self, key: &K) -> (r: Option<&'a mut V>)
        where
            V: 'a,
        requires
            old(self).wf(),
            exact_eq::<K>(),
        ensures
            r is Some <==> old(self).map().dom().contains(*key),
            r is None ==> *final(self) == *old(self),
            r is Some ==> {
                &&& *r.unwrap() == old(self).map()[*key]
                &&& final(self).wf()
                &&& final(self).bound() == old(self).bound()
                &&& final(self).map() == old(self).map().insert(*key, *final(r.unwrap()))
                &&& final(self).key_column() == old(self).key_column()
            },
    {
        let ghost ks0 = self.key_column();
        let ghost vs0 = self.value_column();
        let ghost s0 = self@;
        proof {
            lemma_zip_keys(ks0, vs0);
            lemma_zip_edits(ks0, vs0);
        }
        match chunked_position(self.keys.as_slice(), key) {
            Some(i) => {
                proof {
                    lemma_entries_map_at(s0, i as int);
                }
                let vs = self.values.as_mut_slice();
                let v = &mut vs[i];
                proof {
                    lemma_entries_map_set_value(s0, i as int, *final(v));
                    assert(zip_columns(ks0, vs0.update(i as int, *final(v))) == s0.update(i as int, (ks0[i as int], *final(v))));
                }
                Some(v)
            },
            None => {
                proof {
                    lemma_column_absent(ks0, vs0, *key);
                }
                None
            },
        }
    }

    /// Inserts or replaces. A replacement overwrites the value in place and
    /// consumes no capacity; a new key is appended to both columns. `Err` hands
    /// `(key, value)` back when the key is new and the columns are full.
    pub fn try_insert(&mut self, key: K, value: V) -> (r: Result<Option<V>, CapacityError<(K, V)>>)
        requires
            old(self).wf(),
            exact_eq::<K>(),
        ensures
            final(self).wf(),
            final(self).bound() == old(self).bound(),
            match r {
                Ok(Some(prev)) => {
                    &&& old(self).map().dom().contains(key)
                    &&& prev == old(self).map()[key]
                    &&& final(self).map() == old(self).map().insert(key, value)
                    &&& final(self).key_column() == old(self).key_column()
                    &&& final(self)@ == old(self)@.update(keys_of(old(self)@).index_of(key), (key, value))
                },
                Ok(None) => {
                    &&& !old(self).map().dom().contains(key)
                    &&& final(self).map() == old(self).map().insert(key, value)
                    &&& final(self)@ == old(self)@.push((key, value))
                },
                Err(e) => {
                    &&& e.rejected() == (key, value)
                    &&& !old(self).map().dom().contains(key)
                    &&& final(self)@ == old(self)@
                    &&& old(self).bound() == Some(old(self)@.len() as usize)
                },
            },
            r is Err <==> (!old(self).map().dom().contains(key) && old(self).bound() == Some(old(self)@.len() as usize)),
    {
        let ghost ks0 = self.key_column();
        let ghost vs0 = self.value_column();
        let ghost s0 = self@;
        let ghost k0 = key;
        let ghost v0 = value;
        proof {
            lemma_zip_keys(ks0, vs0);
            lemma_zip_edits(ks0, vs0);
        }
        match chunked_position(self.keys.as_slice(), &key) {
            Some(i) => {
                proof {
                    lemma_entries_map_at(s0, i as int);
                    lemma_entries_map_set_value(s0, i as int, v0);
                    let ks = keys_of(s0);
                    assert(ks[i as int] == k0);
                    let j = ks.index_of(k0);
                    assert(0 <= j < ks.len() && ks[j] == k0);
                    assert(j == i);
                }
                let vs = self.values.as_mut_slice();
                let mut v = value;
                core::mem::swap(&mut vs[i], &mut v);
                assert(vs@ =~= vs0.update(i as int, v0));
                assert(zip_columns(ks0, vs0.update(i as int, v0)) =~= s0.update(i as int, (k0, v0)));
                Ok(Some(v))
            },
            None => {
                proof {
                    lemma_column_absent(ks0, vs0, k0);
                    lemma_entries_map_push(s0, k0, v0);
                    assert(ks0.insert(ks0.len() as int, k0) =~= ks0.push(k0));
                    assert(vs0.insert(vs0.len() as int, v0) =~= vs0.push(v0));
                    assert(!keys_of(s0).contains(k0));
                }
                let n = self.keys.len();
                match insert_pair_at(&mut self.keys, &mut self.values, n, key, value) {
                    Ok(()) => {
                        proof {
                            self.lemma_within_bound();
                            lemma_zip_keys(ks0.push(k0), vs0.push(v0));
                        }
                        Ok(None)
                    },
                    Err(e) => Err(e),
                }
            },
        }
    }

    /// Removes the entry for `key` from both columns by moving the last pair
    /// into its slot, returning its value; order is not preserved.
    pub fn remove(&mut self, key: &K) -> (r: Option<V>)
        requires
            old(self).wf(),
            exact_eq::<K>(),
        ensures
            final(self).wf(),
            final(self).bound() == old(self).bound(),
            r is Some <==> old(self).map().dom().contains(*key),
            r matches Some(v) ==> v == old(self).map()[*key],
            final(self).map() == old(self).map().remove(*key),
            r is None ==> final(self)@ == old(self)@,
            r is Some ==> exists|i: int| {
                &&& 0 <= i < old(self)@.len()
                &&& old(self)@[i].0 == *key
                &&& final(self)@ == swap_removed(old(self)@, i)
            },
    {
        let ghost ks0 = self.key_column();
        let ghost vs0 = self.value_column();
        let ghost s0 = self@;
        proof {
            lemma_zip_keys(ks0, vs0);
            lemma_zip_edits(ks0, vs0);
        }
        match chunked_position(self.keys.as_slice(), key) {
            Some(i) => {
                proof {
                    lemma_entries_map_at(s0, i as int);
                    lemma_entries_map_swap_remove(s0, i as int);
                }
                self.keys.swap_remove_at(i);
                let v = self.values.swap_remove_at(i);
                proof {
                    lemma_zip_keys(swap_removed(ks0, i as int), swap_removed(vs0, i as int));
                }
                Some(v)
            },
            None => {
                proof {
                    lemma_column_absent(ks0, vs0, *key);
                    assert(entries_map(s0).remove(*key) =~= entries_map(s0));
                }
                None
            },
        }
    }

    /// Resolves `key`'s slot once and returns an entry for an
    /// insert-or-update: `Occupied` at the key's index (removal swaps), or
    /// `Vacant` at the end of the columns. Once the entry is done with the
    /// columns, the map holds whatever the entry left there.
    pub fn entry<'a>(&'a mut self, key: K) -> (r: ColumnEntry<'a, SK, SV, K>)
        where
            K: 'a,
            V: 'a,
        requires
            old(self).wf(),
            exact_eq::<K>(),
        ensures
            r.wf(),
            match r {
                ColumnEntry::Occupied(e) => {
                    &&& old(self).map().dom().contains(key)
                    &&& e.kind == Kind::Unsorted
                    &&& e.key_column() == old(self).key_column()
                    &&& e.value_column() == old(self).value_column()
                    &&& e.key_column()[e.index as int] == key
                    &&& final(self).key_store() == *final(e.keys)
                    &&& final(self).value_store() == *final(e.values)
                },
                ColumnEntry::Vacant(e) => {
                    &&& !old(self).map().dom().contains(key)
                    &&& !old(self).key_column().contains(key)
                    &&& e.key == key
                    &&& e.key_column() == old(self).key_column()
                    &&& e.value_column() == old(self).value_column()
                    &&& e.index == old(self)@.len()
                    &&& final(self).key_store() == *final(e.keys)
                    &&& final(self).value_store() == *final(e.values)
                },
            },
    {
        let ghost ks0 = self.key_column();
        let ghost vs0 = self.value_column();
        proof {
            lemma_zip_keys(ks0, vs0);
        }
        match chunked_position(self.keys.as_slice(), &key) {
            Some(index) => {
                proof {
                    lemma_entries_map_at(self@, index as int);
                }
                ColumnEntry::Occupied(OccupiedColumnEntry {
                    keys: &mut self.keys,
                    values: &mut self.values,
                    index,
                    kind: Kind::Unsorted,
                })
            },
            None => {
                proof {
                    lemma_column_absent(ks0, vs0, key);
                }
                let index = self.keys.len();
                ColumnEntry::Vacant(VacantColumnEntry { keys: &mut self.keys, values: &mut self.values, index, key })
            },
        }
    }

    /// Inserts every entry in turn, later entries replacing earlier values for
    /// the same key. On a capacity failure the entries inserted so far are kept
    /// and the rejected entry is returned.
    pub fn try_extend(&mut self, items: Vec<(K, V)>) -> (r: Result<(), CapacityError<(K, V)>>)
        requires
            old(self).wf(),
            exact_eq::<K>(),
        ensures
            final(self).wf(),
            final(self).bound() == old(self).bound(),
            match r {
                Ok(_) => {
                    &&& final(self).map() == insert_all(old(self).map(), items@)
                    &&& final(self)@ == upsert_all(old(self)@, items@)
                },
                Err(e) => exists|k: int| {
                    &&& 0 <= k < items@.len()
                    &&& e.rejected() == items@[k]
                    &&& final(self).map() == insert_all(old(self).map(), items@.take(k))
                    &&& final(self)@ == upsert_all(old(self)@, items@.take(k))
                    &&& !final(self).map().dom().contains(items@[k].0)
                    &&& final(self).bound() == Some(final(self)@.len() as usize)
                },
            },
    {
        let ghost m0 = self.map();
        let ghost s0 = self@;
        let ghost all = items@;
        let n = items.len();
        let mut k: usize = 0;
        for item in it: items.into_iter()
            invariant
                all.len() == n,
                self.wf(),
                exact_eq::<K>(),
                self.bound() == old(self).bound(),
                m0 == old(self).map(),
                it.seq() == all,
                k == it.index(),
                k <= all.len(),
                self.map() == insert_all(m0, all.take(k as int)),
                s0 == old(self)@,
                self@ == upsert_all(s0, all.take(k as int)),
        {
            assert(item == all[k as int]);
            let (key, value) = item;
            match self.try_insert(key, value) {
                Ok(_) => {
                    assert(all.take(k + 1).drop_last() =~= all.take(k as int));
                    assert(all.take(k + 1).last() == all[k as int]);
                },
                Err(e) => {
                    assert(0 <= k < all.len() && e.rejected() == all[k as int]);
                    return Err(e);
                },
            }
            k = k + 1;
        }
        assert(all.take(k as int) =~= all);
        Ok(())
    }
}

impl<K: Eq, V, SK: StoreMut<Elem = K> + StoreNew, SV: StoreMut<Elem = V> + StoreNew> UnsortedColumnMap<SK, SV> {
    /// Builds from entries, requiring every key to be unique: each key is
    /// checked against those kept so far, so a repeated key is rejected (the
    /// later entry handed back) before anything is appended.
    pub fn try_from_iter(items: Vec<(K, V)>) -> (r: Result<Self, BuildError<(K, V)>>)
        requires
            exact_eq::<K>(),
        ensures
            match r {
                Ok(m) => {
                    &&& m.wf()
                    &&& m@ == items@
                    &&& m.bound() == combined_bound(SK::initial_bound(), SV::initial_bound())
                },
                Err(e) => exists|k: int| {
                    &&& 0 <= k < items@.len()
                    &&& keys_unique(items@.take(k))
                    &&& (combined_bound(SK::initial_bound(), SV::initial_bound()) is None
                        || k <= combined_bound(SK::initial_bound(), SV::initial_bound()).unwrap())
                    &&& match e {
                        BuildError::DuplicateKey(x) => x == items@[k] && keys_of(items@.take(k)).contains(items@[k].0),
                        BuildError::Capacity(x) => {
                            &&& x == items@[k]
                            &&& !keys_of(items@.take(k)).contains(items@[k].0)
                            &&& combined_bound(SK::initial_bound(), SV::initial_bound()) == Some(k as usize)
                        },
                        BuildError::Unsorted(_) => false,
                    }
                },
            },
            r is Ok <==> (keys_unique(items@) && (combined_bound(SK::initial_bound(), SV::initial_bound()) is None
                || items@.len() <= combined_bound(SK::initial_bound(), SV::initial_bound()).unwrap())),
    {
        let mut map = Self::new();
        let ghost all = items@;
        let n = items.len();
        let mut k: usize = 0;
        for entry in it: items.into_iter()
            invariant
                exact_eq::<K>(),
                all.len() == n,
                all == items@,
                it.seq() == all,
                k == it.index(),
                k <= all.len(),
                map.wf(),
                map.bound() == combined_bound(SK::initial_bound(), SV::initial_bound()),
                map@ == all.take(k as int),
                keys_unique(all.take(k as int)),
        {
            proof {
                map.lemma_within_bound();
                lemma_zip_keys(map.key_column(), map.value_column());
            }
            assert(entry == all[k as int]);
            let ghost e0 = entry;
            let ghost prefix = all.take(k as int);
            let (key, value) = entry;
            match chunked_position(map.keys.as_slice(), &key) {
                Some(i) => {
                    proof {
                        assert(keys_of(prefix)[i as int] == e0.0);
                        assert(keys_of(prefix).contains(e0.0));
                        assert(!keys_unique(all)) by {
                            assert(keys_of(all)[i as int] == keys_of(all)[k as int]);
                        }
                    }
                    return Err(BuildError::DuplicateKey((key, value)));
                },
                None => {
                    proof {
                        lemma_column_absent(map.key_column(), map.value_column(), e0.0);
                    }
                },
            }
            match map.try_insert(key, value) {
                Ok(_) => {
                    proof {
                        assert(all.take(k + 1) =~= prefix.push(e0));
                        lemma_entries_map_push(prefix, e0.0, e0.1);
                    }
                },
                Err(e) => {
                    return Err(BuildError::Capacity(e.into_inner()));
                },
            }
            k = k + 1;
        }
        assert(all.take(k as int) =~= all);
        proof {
            map.lemma_within_bound();
        }
        Ok(map)
    }
}

impl<K: Eq, V, SK: StoreMut<Elem = K> + Unbounded, SV: StoreMut<Elem = V> + Unbounded> UnsortedColumnMap<SK, SV> {
    /// Inserts or replaces, returning the previous value; infallible on
    /// unbounded columns.
    pub fn insert(&mut self, key: K, value: V) -> (r: Option<V>)
        requires
            old(self).wf(),
            exact_eq::<K>(),
        ensures
            final(self).wf(),
            final(self).bound() == old(self).bound(),
            r is Some <==> old(self).map().dom().contains(key),
            r matches Some(prev) ==> prev == old(self).map()[key],
            final(self).map() == old(self).map().insert(key, value),
    {
        proof {
            self.keys.lemma_unbounded();
            self.values.lemma_unbounded();
        }
        match self.try_insert(key, value) {
            Ok(prev) => prev,
            Err(_) => None,
        }
    }

    /// Inserts every entry in turn, later entries replacing earlier values;
    /// infallible on unbounded columns.
    pub fn extend(&mut self, items: Vec<(K, V)>)
        requires
            old(self).wf(),
            exact_eq::<K>(),
        ensures
            final(self).wf(),
            final(self).map() == insert_all(old(self).map(), items@),
    {
        proof {
            self.keys.lemma_unbounded();
            self.values.lemma_unbounded();
        }
        let _ = self.try_extend(items);
    }
}

} // verus!
