//! [`SortedColumnMap`]: a map that keeps its keys strictly ascending in one
//! store and the aligned values in another; lookup is a binary search of the
//! key column. Inserts and removals shift both columns alike.
//!
//! The map is modelled by the entries its aligned columns stand for (`@`) and
//! by the finite map they represent (`map()`).

use vstd::prelude::*;
use crate::column_entry::{ColumnEntry, OccupiedColumnEntry, VacantColumnEntry};
use crate::column_map::lemma_column_absent;
use crate::columns::{
    combined_bound, combined_capacity, insert_pair_at, lemma_zip_edits, lemma_zip_keys,
    retain_columns, zip_columns, ColumnIter, ColumnIterMut,
};
use crate::entries::{
    entries_map, keys_unique, lemma_entries_map_at, lemma_entries_map_insert,
    lemma_entries_map_push, lemma_entries_map_remove, lemma_entries_map_set_value,
    lemma_filter_kept_keys, lemma_filter_kept_sorted, lemma_sorted_keys_unique,
    lemma_with_values_keys, with_values,
};
use crate::entry::Kind;
use crate::error::{BuildError, CapacityError};
use crate::map::insert_all;
use crate::order::{
    admits_end, admits_start, range_ordered, compare, end_index, is_less, keys_of, lemma_insert_sorted,
    lemma_remove_sorted, lemma_total_order, order_of, search_sorted, start_index,
    keys_strictly_sorted, strictly_sorted, total_order, Bound, Order,
};
use crate::store::{filter_kept, SliceIterMut, Store, StoreMut, StoreNew, Unbounded};

verus! {

/// What a binary search of the key column missed: the key is bound nowhere.
proof fn lemma_sorted_column_absent<K: Ord, V>(ks: Seq<K>, vs: Seq<V>, key: K, i: int)
    requires
        total_order::<K>(),
        ks.len() == vs.len(),
        0 <= i <= ks.len(),
        forall|k: int| 0 <= k < i ==> is_less(#[trigger] ks[k], key),
        forall|k: int| i <= k < ks.len() ==> is_less(key, #[trigger] ks[k]),
    ensures
        !entries_map(zip_columns(ks, vs)).dom().contains(key),
        !ks.contains(key),
{
    lemma_total_order::<K>();
    assert forall|j: int| 0 <= j < ks.len() implies #[trigger] ks[j] != key by {
        assert(order_of(key, key) == Order::Equal);
        if j < i {
            assert(is_less(ks[j], key));
        } else {
            assert(is_less(key, ks[j]));
        }
    }
    lemma_column_absent(ks, vs, key);
}

/// A map over a strictly ascending key column and an aligned value column.
#[derive(Clone, Debug, PartialEq, Eq, PartialOrd, Ord, Hash)]
pub struct SortedColumnMap<SK, SV> {
    keys: SK,
    values: SV,
}

impl<SK: Store, SV: Store> SortedColumnMap<SK, SV> {
    /// The key column.
    pub closed spec fn key_column(&self) -> Seq<SK::Elem> {
        self.keys.elems()
    }

    /// The value column.
    pub closed spec fn value_column(&self) -> Seq<SV::Elem> {
        self.values.elems()
    }

    /// The key store.
    pub closed spec fn key_store(&self) -> SK {
        self.keys
    }

    /// The value store.
    pub closed spec fn value_store(&self) -> SV {
        self.values
    }

    /// Both stores are well formed and the columns are aligned.
    pub closed spec fn inv(&self) -> bool {
        &&& self.keys.well_formed()
        &&& self.values.well_formed()
        &&& self.keys.elems().len() == self.values.elems().len()
    }

    /// The capacity of the two columns together.
    pub closed spec fn bound(&self) -> Option<usize> {
        combined_bound(self.keys.bound(), self.values.bound())
    }

    /// The columns, the invariant and the bound, in terms of the two stores:
    /// the invariant holds exactly when both stores are well formed and the
    /// columns have equal length.
    pub proof fn lemma_columns(&self)
        ensures
            self.key_column() == self.key_store().elems(),
            self.value_column() == self.value_store().elems(),
            self.inv() == (self.key_store().well_formed() && self.value_store().well_formed()
                && self.key_column().len() == self.value_column().len()),
            self.bound() == combined_bound(self.key_store().bound(), self.value_store().bound()),
    {
    }

    /// The aligned columns are never longer than their combined capacity.
    pub proof fn lemma_within_bound(&self)
        requires
            self.inv(),
        ensures
            self.bound() is Some ==> self@.len() <= self.bound().unwrap(),
    {
        self.keys.lemma_within_bound();
        self.values.lemma_within_bound();
    }
}

impl<SK: Store, SV: Store> View for SortedColumnMap<SK, SV> {
    type V = Seq<(SK::Elem, SV::Elem)>;

    /// The entries the two columns stand for, in key order.
    open spec fn view(&self) -> Seq<(SK::Elem, SV::Elem)> {
        zip_columns(self.key_column(), self.value_column())
    }
}

impl<K, V, SK: Store<Elem = K>, SV: Store<Elem = V>> SortedColumnMap<SK, SV> {
    /// The finite map the columns stand for.
    pub open spec fn map(&self) -> Map<K, V> {
        entries_map(self@)
    }
}

impl<K: Ord, V, SK: Store<Elem = K>, SV: Store<Elem = V>> SortedColumnMap<SK, SV> {
    /// The map invariant: aligned, well-formed columns with the keys in
    /// strictly ascending order.
    pub open spec fn wf(&self) -> bool {
        &&& self.inv()
        &&& strictly_sorted(self.key_column())
    }

    /// The entries of a well-formed map carry the key column as their keys,
    /// in strictly ascending order, so no key repeats.
    pub proof fn lemma_entries(&self)
        requires
            self.wf(),
            total_order::<K>(),
        ensures
            keys_of(self@) == self.key_column(),
            keys_strictly_sorted(self@),
            keys_unique(self@),
    {
        lemma_zip_keys(self.key_column(), self.value_column());
        lemma_sorted_keys_unique(self@);
    }
}

impl<SK: StoreNew, SV: StoreNew> SortedColumnMap<SK, SV> {
    /// Creates an empty map.
    pub fn new() -> (m: Self)
        ensures
            m.inv(),
            m.key_column() == Seq::<SK::Elem>::empty(),
            m.value_column() == Seq::<SV::Elem>::empty(),
            m.bound() == combined_bound(SK::initial_bound(), SV::initial_bound()),
    {
        SortedColumnMap { keys: SK::new(), values: SV::new() }
    }
}

impl<SK: StoreNew, SV: StoreNew> Default for SortedColumnMap<SK, SV> {
    fn default() -> (m: Self)
        ensures
            m.inv(),
            m.key_column() == Seq::<SK::Elem>::empty(),
            m.value_column() == Seq::<SV::Elem>::empty(),
    {
        Self::new()
    }
}

impl<SK: Store, SV: Store> SortedColumnMap<SK, SV> {
    /// The number of entries.
    pub fn len(&self) -> (n: usize)
        requires
            self.inv(),
        ensures
            n == self@.len(),
    {
        self.keys.len()
    }

    /// Whether the map is empty.
    pub fn is_empty(&self) -> (b: bool)
        requires
            self.inv(),
        ensures
            b == (self@.len() == 0),
    {
        self.keys.is_empty()
    }

    /// The capacity of the two columns together: the smaller of their bounds,
    /// or `None` if both are unbounded.
    pub fn capacity(&self) -> (c: Option<usize>)
        requires
            self.inv(),
        ensures
            c == self.bound(),
    {
        combined_capacity(self.keys.max_capacity(), self.values.max_capacity())
    }

    /// The key column as a slice.
    pub fn keys(&self) -> (s: &[SK::Elem])
        requires
            self.inv(),
        ensures
            s@ == self.key_column(),
            s@.len() == self.value_column().len(),
    {
        self.keys.as_slice()
    }

    /// The value column as a slice, aligned with the keys.
    pub fn values(&self) -> (s: &[SV::Elem])
        requires
            self.inv(),
        ensures
            s@ == self.value_column(),
            s@.len() == self.key_column().len(),
    {
        self.values.as_slice()
    }

    /// Borrows the two backing stores.
    pub fn stores(&self) -> (r: (&SK, &SV))
        ensures
            *r.0 == self.key_store(),
            *r.1 == self.value_store(),
            r.0.elems() == self.key_column(),
            r.1.elems() == self.value_column(),
    {
        (&self.keys, &self.values)
    }

    /// Consumes the map and hands back its two stores.
    pub fn into_stores(self) -> (r: (SK, SV))
        ensures
            r.0 == self.key_store(),
            r.1 == self.value_store(),
            r.0.elems() == self.key_column(),
            r.1.elems() == self.value_column(),
    {
        (self.keys, self.values)
    }
}

impl<SK: StoreMut, SV: StoreMut> SortedColumnMap<SK, SV> {
    /// Removes every entry from both columns.
    pub fn clear(&mut self)
        requires
            old(self).inv(),
        ensures
            final(self).inv(),
            final(self).key_column() == Seq::<SK::Elem>::empty(),
            final(self).value_column() == Seq::<SV::Elem>::empty(),
            final(self).bound() == old(self).bound(),
    {
        self.keys.clear();
        self.values.clear();
    }

    /// Pre-allocates room for `additional` more entries in both columns; the
    /// map is unchanged.
    pub fn reserve(&mut self, additional: usize)
        requires
            old(self).inv(),
        ensures
            final(self).inv(),
            final(self).key_column() == old(self).key_column(),
            final(self).value_column() == old(self).value_column(),
            final(self).bound() == old(self).bound(),
    {
        self.keys.reserve(additional);
        self.values.reserve(additional);
    }
}

impl<K, V, SK: Store<Elem = K>, SV: Store<Elem = V>> SortedColumnMap<SK, SV> {
    /// Iterates the entries as `(&K, &V)` pairs, in key order.
    pub fn iter<'a>(&'a self) -> (it: ColumnIter<'a, K, V>)
        where
            K: 'a,
            V: 'a,
        requires
            self.inv(),
        ensures
            it.wf(),
            it.remaining() == self@,
    {
        ColumnIter::new(self.keys.as_slice(), self.values.as_slice())
    }

    /// The entry with the smallest key, or `None` if empty.
    pub fn first_key_value<'a>(&'a self) -> (r: Option<(&'a K, &'a V)>)
        where
            K: 'a,
            V: 'a,
        requires
            self.inv(),
        ensures
            r is None <==> self@.len() == 0,
            r matches Some((k, v)) ==> *k == self@[0].0 && *v == self@[0].1,
    {
        let ks = self.keys.as_slice();
        let vs = self.values.as_slice();
        if ks.len() == 0 {
            None
        } else {
            Some((&ks[0], &vs[0]))
        }
    }

    /// The entry with the largest key, or `None` if empty.
    pub fn last_key_value<'a>(&'a self) -> (r: Option<(&'a K, &'a V)>)
        where
            K: 'a,
            V: 'a,
        requires
            self.inv(),
        ensures
            r is None <==> self@.len() == 0,
            r matches Some((k, v)) ==> *k == self@.last().0 && *v == self@.last().1,
    {
        let ks = self.keys.as_slice();
        let vs = self.values.as_slice();
        let n = ks.len();
        if n == 0 {
            None
        } else {
            Some((&ks[n - 1], &vs[n - 1]))
        }
    }
}

impl<K: Ord, V, SK: StoreMut<Elem = K>, SV: StoreMut<Elem = V>> SortedColumnMap<SK, SV> {
    /// Iterates the entries as `(&K, &mut V)` pairs, in key order; the key
    /// column is untouched and the map keeps whatever values the iteration
    /// leaves.
    pub fn iter_mut<'a>(&'a mut self) -> (it: ColumnIterMut<'a, K, V>)
        where
            K: 'a,
            V: 'a,
        requires
            old(self).wf(),
        ensures
            it.keys@.len() == it.rest@.len(),
            it.remaining() == old(self)@,
            final(it.rest)@.len() == old(self)@.len() ==> {
                &&& final(self).wf()
                &&& final(self).key_column() == old(self).key_column()
                &&& final(self).value_column() == final(it.rest)@
                &&& final(self).bound() == old(self).bound()
            },
    {
        let ks = self.keys.as_slice();
        let vs = self.values.as_mut_slice();
        ColumnIterMut { keys: ks, rest: vs }
    }

    /// Iterates the values mutably, in key order; the key column is
    /// untouched and the map keeps whatever values the iteration leaves.
    pub fn values_mut<'a>(&'a mut self) -> (it: SliceIterMut<'a, V>)
        where
            V: 'a,
        requires
            old(self).wf(),
        ensures
            it.remaining() == old(self).value_column(),
            final(it.rest)@.len() == old(self).value_column().len() ==> {
                &&& final(self).wf()
                &&& final(self).key_column() == old(self).key_column()
                &&& final(self).value_column() == final(it.rest)@
                &&& final(self).bound() == old(self).bound()
            },
    {
        let vs = self.values.as_mut_slice();
        SliceIterMut { rest: vs }
    }

    /// Keeps only the entries for which `f` returns `true`, in key order
    /// and with the columns aligned; `f` sees each key and may edit its value.
    pub fn retain<F: FnMut(&K, &mut V) -> bool>(&mut self, f: F)
        requires
            old(self).wf(),
            total_order::<K>(),
            forall|k: &K, v: &mut V| call_requires(f, (k, v)),
        ensures
            final(self).wf(),
            final(self).bound() == old(self).bound(),
            exists|vals: Seq<V>, keep: Seq<bool>, refs: Seq<&mut V>|
                #![trigger filter_kept(with_values(old(self)@, vals), keep), refs.len()]
            {
                &&& vals.len() == old(self)@.len()
                &&& keep.len() == old(self)@.len()
                &&& refs.len() == old(self)@.len()
                &&& forall|i: int| #![trigger refs[i]] 0 <= i < keep.len() ==> {
                    &&& *refs[i] == old(self)@[i].1
                    &&& *final(refs[i]) == vals[i]
                    &&& call_ensures(f, (&old(self)@[i].0, refs[i]), keep[i])
                }
                &&& final(self)@ == filter_kept(with_values(old(self)@, vals), keep)
            },
    {
        let ghost s0 = self@;
        let ghost ks0 = self.key_column();
        let ghost vs0 = self.value_column();
        retain_columns(&mut self.keys, &mut self.values, f);
        proof {
            let (vals, keep, refs) = choose|vals: Seq<V>, keep: Seq<bool>, refs: Seq<&mut V>|
                #![trigger with_values(zip_columns(ks0, vs0), vals), keep.len(), refs.len()]
            {
                &&& vals.len() == ks0.len()
                &&& keep.len() == ks0.len()
                &&& refs.len() == ks0.len()
                &&& forall|i: int| #![trigger refs[i]] 0 <= i < keep.len() ==> {
                    &&& *refs[i] == vs0[i]
                    &&& *final(refs[i]) == vals[i]
                    &&& call_ensures(f, (&ks0[i], refs[i]), keep[i])
                }
                &&& zip_columns(self.key_column(), self.value_column()) == filter_kept(with_values(zip_columns(ks0, vs0), vals), keep)
            };
            assert forall|i: int| #![trigger refs[i]] 0 <= i < keep.len() implies {
                &&& *refs[i] == s0[i].1
                &&& *final(refs[i]) == vals[i]
                &&& call_ensures(f, (&s0[i].0, refs[i]), keep[i])
            } by {
                assert(s0[i] == (ks0[i], vs0[i]));
            }
            lemma_zip_keys(ks0, vs0);
            lemma_zip_keys(self.key_column(), self.value_column());
            lemma_filter_kept_keys(with_values(s0, vals), keep);
            lemma_with_values_keys(s0, vals);
            lemma_filter_kept_sorted(ks0, keep);
        }
    }
}

impl<K: Ord, V, SK: Store<Elem = K>, SV: Store<Elem = V>> SortedColumnMap<SK, SV> {
    /// Wraps two aligned columns whose keys are already strictly ascending.
    /// No sort is performed.
    pub fn from_store(keys: SK, values: SV) -> (m: Self)
        requires
            keys.well_formed(),
            values.well_formed(),
            keys.elems().len() == values.elems().len(),
            strictly_sorted(keys.elems()),
        ensures
            m.wf(),
            m.key_store() == keys,
            m.value_store() == values,
    {
        SortedColumnMap { keys, values }
    }

    /// The value bound to `key`, or `None` if absent.
    pub fn get<'a>(&'a self, key: &K) -> (r: Option<&'a V>)
        where
            V: 'a,
        requires
            self.wf(),
            total_order::<K>(),
        ensures
            r is Some <==> self.map().dom().contains(*key),
            r matches Some(v) ==> *v == self.map()[*key],
    {
        proof {
            lemma_zip_keys(self.key_column(), self.value_column());
            lemma_sorted_keys_unique(self@);
        }
        match search_sorted(self.keys.as_slice(), key) {
            Ok(i) => {
                proof {
                    lemma_entries_map_at(self@, i as int);
                }
                Some(&self.values.as_slice()[i])
            },
            Err(i) => {
                proof {
                    lemma_sorted_column_absent(self.key_column(), self.value_column(), *key, i as int);
                }
                None
            },
        }
    }

    /// Whether `key` is bound.
    pub fn contains_key(&self, key: &K) -> (b: bool)
        requires
            self.wf(),
            total_order::<K>(),
        ensures
            b == self.map().dom().contains(*key),
    {
        proof {
            lemma_zip_keys(self.key_column(), self.value_column());
            lemma_sorted_keys_unique(self@);
        }
        match search_sorted(self.keys.as_slice(), key) {
            Ok(i) => {
                proof {
                    lemma_entries_map_at(self@, i as int);
                }
                true
            },
            Err(i) => {
                proof {
                    lemma_sorted_column_absent(self.key_column(), self.value_column(), *key, i as int);
                }
                false
            },
        }
    }

    /// The keys within `start..end` and their aligned values, as two
    /// subslices of the columns. The range must not be inverted: no key may
    /// lie before the start and after the end at once.
    pub fn range<'a>(&'a self, start: Bound<&K>, end: Bound<&K>) -> (r: (&'a [K], &'a [V]))
        where
            K: 'a,
            V: 'a,
        requires
            self.wf(),
            total_order::<K>(),
            range_ordered(start, end),
            forall|k: int| 0 <= k < self@.len() ==> admits_start(start, #[trigger] self.key_column()[k]) || admits_end(end, self.key_column()[k]),
        ensures
            exists|i: int, j: int| {
                &&& 0 <= i <= j <= self@.len()
                &&& r.0@ == self.key_column().subrange(i, j)
                &&& r.1@ == self.value_column().subrange(i, j)
                &&& forall|k: int| 0 <= k < self@.len() ==> ((i <= k < j) <==> (admits_start(start, #[trigger] self.key_column()[k]) && admits_end(end, self.key_column()[k])))
            },
    {
        let ks = self.keys.as_slice();
        let vs = self.values.as_slice();
        let i = start_index(ks, start);
        let j = end_index(ks, end);
        if i > j {
            assert(!admits_start(start, ks@[j as int]) && !admits_end(end, ks@[j as int]));
        }
        let (khead, _) = ks.split_at(j);
        let (_, kmid) = khead.split_at(i);
        let (vhead, _) = vs.split_at(j);
        let (_, vmid) = vhead.split_at(i);
        assert(kmid@ =~= self.key_column().subrange(i as int, j as int));
        assert(vmid@ =~= self.value_column().subrange(i as int, j as int));
        (kmid, vmid)
    }
}

impl<K: Ord, V, SK: StoreMut<Elem = K>, SV: StoreMut<Elem = V>> SortedColumnMap<SK, SV> {
    /// A mutable reference to the value bound to `key`, or `None` if absent.
    pub fn get_mut<'a>(&'a mut self, key: &K) -> (r: Option<&'a mut V>)
        where
            V: 'a,
        requires
            old(self).wf(),
            total_order::<K>(),
        ensures
            r is Some <==> old(self).map().dom().contains(*key),
            r is None ==> *final(self) == *old(self),
            r is Some ==> {
                &&& *r.unwrap() == old(self).map()[*key]
                &&& final(self).wf()
                &&& final(self).bound() == old(self).bound()
                &&& final(self).map() == old(self).map().insert(*key, *final(r.unwrap()))
                &&& final(self).key_column() == old(self).key_column()
            },
    {
        let ghost ks0 = self.key_column();
        let ghost vs0 = self.value_column();
        let ghost s0 = self@;
        proof {
            lemma_zip_keys(ks0, vs0);
            lemma_zip_edits(ks0, vs0);
            lemma_sorted_keys_unique(s0);
        }
        match search_sorted(self.keys.as_slice(), key) {
            Ok(i) => {
                proof {
                    lemma_entries_map_at(s0, i as int);
                }
                let vs = self.values.as_mut_slice();
                let v = &mut vs[i];
                proof {
                    lemma_entries_map_set_value(s0, i as int, *final(v));
                    assert(zip_columns(ks0, vs0.update(i as int, *final(v))) == s0.update(i as int, (ks0[i as int], *final(v))));
                }
                Some(v)
            },
            Err(i) => {
                proof {
                    lemma_sorted_column_absent(ks0, vs0, *key, i as int);
                }
                None
            },
        }
    }

    /// Inserts or replaces. A replacement overwrites the value in place and
    /// consumes no capacity; a new key is inserted into both columns at its
    /// sorted position. `Err` hands `(key, value)` back when the key is new and
    /// the columns are full.
    pub fn try_insert(&mut self, key: K, value: V) -> (r: Result<Option<V>, CapacityError<(K, V)>>)
        requires
            old(self).wf(),
            total_order::<K>(),
        ensures
            final(self).wf(),
            final(self).bound() == old(self).bound(),
            match r {
                Ok(Some(prev)) => {
                    &&& old(self).map().dom().contains(key)
                    &&& prev == old(self).map()[key]
                    &&& final(self).map() == old(self).map().insert(key, value)
                    &&& final(self).key_column() == old(self).key_column()
                },
                Ok(None) => {
                    &&& !old(self).map().dom().contains(key)
                    &&& final(self).map() == old(self).map().insert(key, value)
                    &&& final(self)@.len() == old(self)@.len() + 1
                },
                Err(e) => {
                    &&& e.rejected() == (key, value)
                    &&& !old(self).map().dom().contains(key)
                    &&& final(self)@ == old(self)@
                    &&& old(self).bound() == Some(old(self)@.len() as usize)
                },
            },
            r is Err <==> (!old(self).map().dom().contains(key) && old(self).bound() == Some(old(self)@.len() as usize)),
    {
        let ghost ks0 = self.key_column();
        let ghost vs0 = self.value_column();
        let ghost s0 = self@;
        let ghost k0 = key;
        let ghost v0 = value;
        proof {
            lemma_total_order::<K>();
            lemma_zip_keys(ks0, vs0);
            lemma_zip_edits(ks0, vs0);
            lemma_sorted_keys_unique(s0);
        }
        let n = self.keys.len();
        let append = if n == 0 {
            true
        } else {
            let o = compare(&key, &self.keys.as_slice()[n - 1]);
            proof {
                if o == Order::Greater {
                    assert(is_less(ks0[n - 1], k0));
                }
            }
            o == Order::Greater
        };
        let found = if append {
            proof {
                assert forall|j: int| 0 <= j < n implies is_less(#[trigger] ks0[j], k0) by {
                    if j < n - 1 {
                        assert(is_less(ks0[j], ks0[n - 1]));
                    }
                }
            }
            Err(n)
        } else {
            search_sorted(self.keys.as_slice(), &key)
        };
        match found {
            Ok(i) => {
                proof {
                    lemma_entries_map_at(s0, i as int);
                    lemma_entries_map_set_value(s0, i as int, v0);
                }
                let vs = self.values.as_mut_slice();
                let mut v = value;
                core::mem::swap(&mut vs[i], &mut v);
                assert(vs@ =~= vs0.update(i as int, v0));
                Ok(Some(v))
            },
            Err(i) => {
                proof {
                    lemma_sorted_column_absent(ks0, vs0, k0, i as int);
                    assert(!keys_of(s0).contains(k0));
                    lemma_entries_map_insert(s0, i as int, k0, v0);
                    lemma_insert_sorted(ks0, i as int, k0);
                }
                match insert_pair_at(&mut self.keys, &mut self.values, i, key, value) {
                    Ok(()) => {
                        proof {
                            self.lemma_within_bound();
                            lemma_zip_keys(ks0.insert(i as int, k0), vs0.insert(i as int, v0));
                        }
                        Ok(None)
                    },
                    Err(e) => Err(e),
                }
            },
        }
    }

    /// Removes the entry for `key` from both columns, returning its value;
    /// key order is kept.
    pub fn remove(&mut self, key: &K) -> (r: Option<V>)
        requires
            old(self).wf(),
            total_order::<K>(),
        ensures
            final(self).wf(),
            final(self).bound() == old(self).bound(),
            r is Some <==> old(self).map().dom().contains(*key),
            r matches Some(v) ==> v == old(self).map()[*key],
            final(self).map() == old(self).map().remove(*key),
            r is None ==> {
                &&& final(self).key_column() == old(self).key_column()
                &&& final(self).value_column() == old(self).value_column()
            },
            r is Some ==> exists|i: int| {
                &&& 0 <= i < old(self).key_column().len()
                &&& old(self).key_column()[i] == *key
                &&& final(self).key_column() == old(self).key_column().remove(i)
                &&& final(self).value_column() == old(self).value_column().remove(i)
            },
    {
        let ghost ks0 = self.key_column();
        let ghost vs0 = self.value_column();
        let ghost s0 = self@;
        proof {
            lemma_zip_keys(ks0, vs0);
            lemma_zip_edits(ks0, vs0);
            lemma_sorted_keys_unique(s0);
        }
        match search_sorted(self.keys.as_slice(), key) {
            Ok(i) => {
                proof {
                    lemma_entries_map_at(s0, i as int);
                    lemma_entries_map_remove(s0, i as int);
                    lemma_remove_sorted(ks0, i as int);
                }
                self.keys.remove_at(i);
                let v = self.values.remove_at(i);
                proof {
                    lemma_zip_keys(ks0.remove(i as int), vs0.remove(i as int));
                }
                Some(v)
            },
            Err(i) => {
                proof {
                    lemma_sorted_column_absent(ks0, vs0, *key, i as int);
                    assert(entries_map(s0).remove(*key) =~= entries_map(s0));
                }
                None
            },
        }
    }

    /// Resolves `key`'s slot once and returns an entry for an
    /// insert-or-update: `Occupied` at the key's index, or `Vacant` at the
    /// index that keeps the keys sorted. Once the entry is done with the
    /// columns, the map holds whatever the entry left there.
    pub fn entry<'a>(&'a mut self, key: K) -> (r: ColumnEntry<'a, SK, SV, K>)
        where
            K: 'a,
            V: 'a,
        requires
            old(self).wf(),
            total_order::<K>(),
        ensures
            r.wf(),
            match r {
                ColumnEntry::Occupied(e) => {
                    &&& old(self).map().dom().contains(key)
                    &&& e.kind == Kind::Sorted
                    &&& e.key_column() == old(self).key_column()
                    &&& e.value_column() == old(self).value_column()
                    &&& e.key_column()[e.index as int] == key
                    &&& final(self).key_store() == *final(e.keys)
                    &&& final(self).value_store() == *final(e.values)
                },
                ColumnEntry::Vacant(e) => {
                    &&& !old(self).map().dom().contains(key)
                    &&& e.key == key
                    &&& e.key_column() == old(self).key_column()
                    &&& e.value_column() == old(self).value_column()
                    &&& forall|j: int| 0 <= j < e.index ==> is_less(#[trigger] old(self).key_column()[j], key)
                    &&& forall|j: int| e.index <= j < old(self)@.len() ==> is_less(key, #[trigger] old(self).key_column()[j])
                    &&& final(self).key_store() == *final(e.keys)
                    &&& final(self).value_store() == *final(e.values)
                },
            },
    {
        let ghost ks0 = self.key_column();
        let ghost vs0 = self.value_column();
        proof {
            lemma_zip_keys(ks0, vs0);
            lemma_sorted_keys_unique(self@);
        }
        match search_sorted(self.keys.as_slice(), &key) {
            Ok(index) => {
                proof {
                    lemma_entries_map_at(self@, index as int);
                }
                ColumnEntry::Occupied(OccupiedColumnEntry {
                    keys: &mut self.keys,
                    values: &mut self.values,
                    index,
                    kind: Kind::Sorted,
                })
            },
            Err(index) => {
                proof {
                    lemma_sorted_column_absent(ks0, vs0, key, index as int);
                }
                ColumnEntry::Vacant(VacantColumnEntry { keys: &mut self.keys, values: &mut self.values, index, key })
            },
        }
    }

    /// Inserts every entry in turn, later entries replacing earlier values for
    /// the same key. On a capacity failure the entries inserted so far are kept
    /// and the rejected entry is returned.
    pub fn try_extend(&mut self, items: Vec<(K, V)>) -> (r: Result<(), CapacityError<(K, V)>>)
        requires
            old(self).wf(),
            total_order::<K>(),
        ensures
            final(self).wf(),
            final(self).bound() == old(self).bound(),
            match r {
                Ok(_) => final(self).map() == insert_all(old(self).map(), items@),
                Err(e) => exists|k: int| {
                    &&& 0 <= k < items@.len()
                    &&& e.rejected() == items@[k]
                    &&& final(self).map() == insert_all(old(self).map(), items@.take(k))
                    &&& !final(self).map().dom().contains(items@[k].0)
                    &&& final(self).bound() == Some(final(self)@.len() as usize)
                },
            },
    {
        let ghost m0 = self.map();
        let ghost all = items@;
        let n = items.len();
        let mut k: usize = 0;
        for item in it: items.into_iter()
            invariant
                all.len() == n,
                self.wf(),
                total_order::<K>(),
                self.bound() == old(self).bound(),
                m0 == old(self).map(),
                it.seq() == all,
                k == it.index(),
                k <= all.len(),
                self.map() == insert_all(m0, all.take(k as int)),
        {
            assert(item == all[k as int]);
            let (key, value) = item;
            match self.try_insert(key, value) {
                Ok(_) => {
                    assert(all.take(k + 1).drop_last() =~= all.take(k as int));
                },
                Err(e) => {
                    assert(0 <= k < all.len() && e.rejected() == all[k as int]);
                    return Err(e);
                },
            }
            k = k + 1;
        }
        assert(all.take(k as int) =~= all);
        Ok(())
    }
}

impl<K: Ord, V, SK: StoreMut<Elem = K> + StoreNew, SV: StoreMut<Elem = V> + StoreNew> SortedColumnMap<SK, SV> {
    /// Builds from entries in any order, requiring every key to be unique:
    /// each entry is searched for and inserted at its sorted position, so a
    /// repeated key is rejected (the later entry handed back) before it takes
    /// a slot.
    pub fn try_from_iter(items: Vec<(K, V)>) -> (r: Result<Self, BuildError<(K, V)>>)
        requires
            total_order::<K>(),
        ensures
            match r {
                Ok(m) => {
                    &&& m.wf()
                    &&& keys_unique(items@)
                    &&& m.map() == entries_map(items@)
                    &&& m@.len() == items@.len()
                    &&& m.bound() == combined_bound(SK::initial_bound(), SV::initial_bound())
                },
                Err(e) => exists|k: int| {
                    &&& 0 <= k < items@.len()
                    &&& keys_unique(items@.take(k))
                    &&& (combined_bound(SK::initial_bound(), SV::initial_bound()) is None
                        || k <= combined_bound(SK::initial_bound(), SV::initial_bound()).unwrap())
                    &&& match e {
                        BuildError::DuplicateKey(x) => x == items@[k] && keys_of(items@.take(k)).contains(items@[k].0),
                        BuildError::Capacity(x) => {
                            &&& x == items@[k]
                            &&& !keys_of(items@.take(k)).contains(items@[k].0)
                            &&& combined_bound(SK::initial_bound(), SV::initial_bound()) == Some(k as usize)
                        },
                        BuildError::Unsorted(_) => false,
                    }
                },
            },
            r is Ok <==> (keys_unique(items@) && (combined_bound(SK::initial_bound(), SV::initial_bound()) is None
                || items@.len() <= combined_bound(SK::initial_bound(), SV::initial_bound()).unwrap())),
    {
        let mut map = Self::new();
        let ghost all = items@;
        let n = items.len();
        map.reserve(n);
        let mut k: usize = 0;
        for entry in it: items.into_iter()
            invariant
                total_order::<K>(),
                all.len() == n,
                all == items@,
                it.seq() == all,
                k == it.index(),
                k <= all.len(),
                map.wf(),
                map.bound() == combined_bound(SK::initial_bound(), SV::initial_bound()),
                map@.len() == k,
                map.map() == entries_map(all.take(k as int)),
                keys_unique(all.take(k as int)),
        {
            proof {
                map.lemma_within_bound();
                lemma_zip_keys(map.key_column(), map.value_column());
                lemma_sorted_keys_unique(map@);
            }
            assert(entry == all[k as int]);
            let ghost e0 = entry;
            let ghost prefix = all.take(k as int);
            let (key, value) = entry;
            match search_sorted(map.keys.as_slice(), &key) {
                Ok(i) => {
                    proof {
                        lemma_entries_map_at(map@, i as int);
                        assert(entries_map(prefix).dom().contains(e0.0));
                        crate::entries::lemma_entries_map_dom(prefix, e0.0);
                        let j = choose|j: int| 0 <= j < prefix.len() && prefix[j].0 == e0.0;
                        assert(keys_of(prefix)[j] == e0.0);
                        assert(!keys_unique(all)) by {
                            assert(keys_of(all)[j] == keys_of(all)[k as int]);
                        }
                    }
                    return Err(BuildError::DuplicateKey((key, value)));
                },
                Err(i) => {
                    proof {
                        lemma_sorted_column_absent(map.key_column(), map.value_column(), e0.0, i as int);
                        crate::entries::lemma_entries_map_dom(prefix, e0.0);
                        if keys_of(prefix).contains(e0.0) {
                            let j = choose|j: int| 0 <= j < keys_of(prefix).len() && keys_of(prefix)[j] == e0.0;
                            assert(prefix[j].0 == e0.0);
                        }
                    }
                },
            }
            match map.try_insert(key, value) {
                Ok(_) => {
                    proof {
                        assert(all.take(k + 1) =~= prefix.push(e0));
                        lemma_entries_map_push(prefix, e0.0, e0.1);
                    }
                },
                Err(e) => {
                    return Err(BuildError::Capacity(e.into_inner()));
                },
            }
            k = k + 1;
        }
        assert(all.take(k as int) =~= all);
        proof {
            map.lemma_within_bound();
        }
        Ok(map)
    }

    /// Builds from entries already in strictly ascending key order, checking
    /// each key against its predecessor before appending it: a smaller key is
    /// `Unsorted`, an equal one `DuplicateKey`, and full columns `Capacity`,
    /// each carrying the offending entry.
    pub fn try_from_sorted_iter(items: Vec<(K, V)>) -> (r: Result<Self, BuildError<(K, V)>>)
        requires
            total_order::<K>(),
        ensures
            match r {
                Ok(m) => {
                    &&& m.wf()
                    &&& m@ == items@
                    &&& m.bound() == combined_bound(SK::initial_bound(), SV::initial_bound())
                },
                Err(e) => exists|k: int| {
                    &&& 0 <= k < items@.len()
                    &&& strictly_sorted(keys_of(items@.take(k)))
                    &&& (combined_bound(SK::initial_bound(), SV::initial_bound()) is None
                        || k <= combined_bound(SK::initial_bound(), SV::initial_bound()).unwrap())
                    &&& match e {
                        BuildError::Unsorted(x) => x == items@[k] && k > 0 && is_less(items@[k].0, items@[k - 1].0),
                        BuildError::DuplicateKey(x) => x == items@[k] && k > 0 && items@[k].0 == items@[k - 1].0,
                        BuildError::Capacity(x) => {
                            &&& x == items@[k]
                            &&& (k == 0 || is_less(items@[k - 1].0, items@[k].0))
                            &&& combined_bound(SK::initial_bound(), SV::initial_bound()) == Some(k as usize)
                        },
                    }
                },
            },
            r is Ok <==> (strictly_sorted(keys_of(items@)) && (combined_bound(SK::initial_bound(), SV::initial_bound()) is None
                || items@.len() <= combined_bound(SK::initial_bound(), SV::initial_bound()).unwrap())),
    {
        let mut map = Self::new();
        let ghost all = items@;
        let n = items.len();
        map.reserve(n);
        let mut k: usize = 0;
        for entry in it: items.into_iter()
            invariant
                total_order::<K>(),
                all.len() == n,
                all == items@,
                it.seq() == all,
                k == it.index(),
                k <= all.len(),
                map.wf(),
                map.bound() == combined_bound(SK::initial_bound(), SV::initial_bound()),
                map@ == all.take(k as int),
        {
            proof {
                lemma_total_order::<K>();
                map.lemma_within_bound();
                lemma_zip_keys(map.key_column(), map.value_column());
                lemma_zip_edits(map.key_column(), map.value_column());
            }
            assert(entry == all[k as int]);
            if k > 0 {
                let o = compare(&entry.0, &map.keys.as_slice()[k - 1]);
                assert(map.key_column()[k - 1] == all[k - 1].0) by {
                    assert(map@[k - 1] == all[k - 1]);
                }
                match o {
                    Order::Less => {
                        assert(!strictly_sorted(keys_of(all))) by {
                            assert(keys_of(all)[k - 1] == all[k - 1].0 && keys_of(all)[k as int] == all[k as int].0);
                            assert(order_of(all[k as int].0, all[k - 1].0) == Order::Less);
                            if strictly_sorted(keys_of(all)) {
                                assert(is_less(keys_of(all)[k - 1], keys_of(all)[k as int]));
                            }
                        }
                        return Err(BuildError::Unsorted(entry));
                    },
                    Order::Equal => {
                        assert(!strictly_sorted(keys_of(all))) by {
                            assert(keys_of(all)[k - 1] == all[k - 1].0 && keys_of(all)[k as int] == all[k as int].0);
                            assert(order_of(all[k - 1].0, all[k - 1].0) == Order::Equal);
                            if strictly_sorted(keys_of(all)) {
                                assert(is_less(keys_of(all)[k - 1], keys_of(all)[k as int]));
                            }
                        }
                        return Err(BuildError::DuplicateKey(entry));
                    },
                    Order::Greater => {
                        assert(is_less(all[k - 1].0, all[k as int].0));
                    },
                }
            }
            let ghost e0 = entry;
            let ghost ks0 = map.key_column();
            let ghost vs0 = map.value_column();
            let (key, value) = entry;
            match insert_pair_at(&mut map.keys, &mut map.values, k, key, value) {
                Ok(()) => {
                    proof {
                        assert(ks0.insert(k as int, e0.0) =~= ks0.push(e0.0));
                        assert(vs0.insert(k as int, e0.1) =~= vs0.push(e0.1));
                        assert(all.take(k + 1) =~= all.take(k as int).push(e0));
                        lemma_zip_keys(ks0, vs0);
                        let ks = ks0.push(e0.0);
                        assert forall|a: int, b: int| 0 <= a < b < ks.len() implies #[trigger] is_less(ks[a], ks[b]) by {
                            if b == k {
                                if a < k - 1 {
                                    assert(is_less(ks0[a], ks0[k - 1]));
                                }
                                assert(ks0[k - 1] == all[k - 1].0) by {
                                    assert(zip_columns(ks0, vs0)[k - 1] == all[k - 1]);
                                }
                            } else {
                                assert(ks[a] == ks0[a] && ks[b] == ks0[b]);
                            }
                        }
                    }
                },
                Err(e) => {
                    proof {
                        lemma_zip_keys(ks0, vs0);
                        assert(keys_of(all.take(k as int)) == ks0);
                    }
                    return Err(BuildError::Capacity(e.into_inner()));
                },
            }
            k = k + 1;
        }
        assert(all.take(k as int) =~= all);
        proof {
            map.lemma_within_bound();
            lemma_zip_keys(map.key_column(), map.value_column());
        }
        Ok(map)
    }
}

impl<K: Ord, V, SK: StoreMut<Elem = K> + Unbounded, SV: StoreMut<Elem = V> + Unbounded> SortedColumnMap<SK, SV> {
    /// Inserts or replaces, returning the previous value; infallible on
    /// unbounded columns.
    pub fn insert(&mut self, key: K, value: V) -> (r: Option<V>)
        requires
            old(self).wf(),
            total_order::<K>(),
        ensures
            final(self).wf(),
            final(self).bound() == old(self).bound(),
            r is Some <==> old(self).map().dom().contains(key),
            r matches Some(prev) ==> prev == old(self).map()[key],
            final(self).map() == old(self).map().insert(key, value),
    {
        proof {
            self.keys.lemma_unbounded();
            self.values.lemma_unbounded();
        }
        match self.try_insert(key, value) {
            Ok(prev) => prev,
            Err(_) => None,
        }
    }

    /// Inserts every entry in turn, later entries replacing earlier values;
    /// infallible on unbounded columns.
    pub fn extend(&mut self, items: Vec<(K, V)>)
        requires
            old(self).wf(),
            total_order::<K>(),
        ensures
            final(self).wf(),
            final(self).map() == insert_all(old(self).map(), items@),
    {
        proof {
            self.keys.lemma_unbounded();
            self.values.lemma_unbounded();
        }
        let _ = self.try_extend(items);
    }
}

} // verus!
