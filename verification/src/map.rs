//! Map collections — the ordering axis for `Elem = (K, V)`.
//!
//! [`SortedMap`] keeps its entries in strictly ascending key order (binary
//! search lookup); [`UnsortedMap`] appends and swap-removes and needs only key
//! equality. Both are modelled by their entry sequence (`@`) and by the finite
//! map it stands for (`map()`).

use vstd::prelude::*;
use crate::entries::{
    entries_map, keys_unique, upsert_all, lemma_entries_map_at, lemma_entries_map_dom,
    lemma_entries_map_insert, lemma_entries_map_push, lemma_entries_map_remove,
    lemma_entries_map_set_value, lemma_entries_map_swap_remove, lemma_filter_kept_keys,
    lemma_filter_kept_sorted, lemma_filter_kept_unique, lemma_perm_entries,
    lemma_sorted_keys_unique, lemma_with_values_keys, lemma_count_two, retain_entries_in,
    with_values,
};
use crate::entry::{Entry, Kind, OccupiedEntry, VacantEntry};
use crate::error::{BuildError, CapacityError};
use crate::order::{
    admits_end, admits_start, range_ordered, ascending, compare, equal, exact_eq, is_less, key_end_index,
    key_start_index, keys_of, keys_strictly_sorted, lemma_insert_sorted, lemma_remove_sorted,
    lemma_total_order, lemma_total_order_exact_eq, order_of, search_keys, sort_entries_by_key,
    strictly_sorted, total_order, Bound, Order,
};
use crate::store::{
    append_all, filter_kept, push, split_first_mut, swap_removed, Store, StoreMut, StoreNew,
    Unbounded,
};

verus! {

broadcast use vstd::seq_lib::group_to_multiset_ensures;

/// Iterator over a map's entries as `(&K, &V)` pairs, from either end.
#[derive(Clone, Debug)]
pub struct MapIter<'a, K, V> {
    entries: &'a [(K, V)],
    front: usize,
    back: usize,
}

impl<'a, K, V> MapIter<'a, K, V> {
    /// The iterator's cursors lie within its slice.
    pub closed spec fn wf(&self) -> bool {
        self.front <= self.back <= self.entries@.len()
    }

    /// The entries not yet yielded, front to back.
    pub closed spec fn remaining(&self) -> Seq<(K, V)> {
        self.entries@.subrange(self.front as int, self.back as int)
    }

    fn new(entries: &'a [(K, V)]) -> (it: Self)
        ensures
            it.wf(),
            it.remaining() == entries@,
    {
        let it = MapIter { entries, front: 0, back: entries.len() };
        assert(it.remaining() =~= entries@);
        it
    }

    /// Yields the next entry from the front.
    pub fn next(&mut self) -> (r: Option<(&'a K, &'a V)>)
        requires
            old(self).wf(),
        ensures
            final(self).wf(),
            old(self).remaining().len() == 0 ==> r is None && final(self).remaining() == old(self).remaining(),
            old(self).remaining().len() > 0 ==> {
                &&& r matches Some((k, v))
                &&& *k == old(self).remaining()[0].0
                &&& *v == old(self).remaining()[0].1
                &&& final(self).remaining() == old(self).remaining().drop_first()
            },
    {
        if self.front < self.back {
            let e = &self.entries[self.front];
            self.front = self.front + 1;
            assert(self.remaining() =~= old(self).remaining().drop_first());
            Some((&e.0, &e.1))
        } else {
            None
        }
    }

    /// Yields the next entry from the back.
    pub fn next_back(&mut self) -> (r: Option<(&'a K, &'a V)>)
        requires
            old(self).wf(),
        ensures
            final(self).wf(),
            old(self).remaining().len() == 0 ==> r is None && final(self).remaining() == old(self).remaining(),
            old(self).remaining().len() > 0 ==> {
                &&& r matches Some((k, v))
                &&& *k == old(self).remaining().last().0
                &&& *v == old(self).remaining().last().1
                &&& final(self).remaining() == old(self).remaining().drop_last()
            },
    {
        if self.front < self.back {
            self.back = self.back - 1;
            let e = &self.entries[self.back];
            assert(self.remaining() =~= old(self).remaining().drop_last());
            Some((&e.0, &e.1))
        } else {
            None
        }
    }

    /// The number of entries not yet yielded.
    pub fn len(&self) -> (n: usize)
        requires
            self.wf(),
        ensures
            n == self.remaining().len(),
    {
        self.back - self.front
    }
}

/// Iterator over a map's entries as `(&K, &mut V)` pairs: the keys are
/// shared, only the values can be edited.
pub struct MapIterMut<'a, K, V> {
    pub rest: &'a mut [(K, V)],
}

impl<'a, K, V> MapIterMut<'a, K, V> {
    /// The entries not yet yielded, as they stand.
    pub open spec fn remaining(&self) -> Seq<(K, V)> {
        self.rest@
    }

    /// Yields the next entry. Whatever is later written through the value
    /// reference becomes that entry's final value; its key never changes.
    pub fn next(&mut self) -> (r: Option<(&'a K, &'a mut V)>)
        ensures
            old(self).remaining().len() == 0 ==> r is None && final(old(self).rest)@ == old(self).rest@,
            old(self).remaining().len() > 0 ==> {
                &&& r matches Some((k, v))
                &&& *k == old(self).remaining()[0].0
                &&& *v == old(self).remaining()[0].1
                &&& final(self).remaining() == old(self).remaining().drop_first()
                &&& final(old(self).rest)@ == seq![(*k, *final(v))] + final(final(self).rest)@
            },
    {
        let mut rest: &'a mut [(K, V)] = &mut [];
        core::mem::swap(&mut rest, &mut self.rest);
        match split_first_mut(rest) {
            None => None,
            Some((head, tail)) => {
                self.rest = tail;
                let (k, v) = head;
                let k: &'a K = k;
                Some((k, v))
            },
        }
    }
}

/// Iterator over a map's values as `&mut V`, in stored order.
pub struct ValuesMut<'a, K, V> {
    pub rest: &'a mut [(K, V)],
}

impl<'a, K, V> ValuesMut<'a, K, V> {
    /// The entries whose values are not yet yielded, as they stand.
    pub open spec fn remaining(&self) -> Seq<(K, V)> {
        self.rest@
    }

    /// Yields the next value. Whatever is later written through it becomes
    /// that entry's final value; its key never changes.
    pub fn next(&mut self) -> (r: Option<&'a mut V>)
        ensures
            old(self).remaining().len() == 0 ==> r is None && final(old(self).rest)@ == old(self).rest@,
            old(self).remaining().len() > 0 ==> {
                &&& r matches Some(v)
                &&& *v == old(self).remaining()[0].1
                &&& final(self).remaining() == old(self).remaining().drop_first()
                &&& final(old(self).rest)@ == seq![(old(self).remaining()[0].0, *final(v))] + final(final(self).rest)@
            },
    {
        let mut rest: &'a mut [(K, V)] = &mut [];
        core::mem::swap(&mut rest, &mut self.rest);
        match split_first_mut(rest) {
            None => None,
            Some((head, tail)) => {
                self.rest = tail;
                Some(&mut head.1)
            },
        }
    }
}

/// The keys of `s`, borrowed, in order.
fn keys_vec<'a, K, V>(s: &'a [(K, V)]) -> (r: Vec<&'a K>)
    ensures
        r@.len() == s@.len(),
        forall|i: int| 0 <= i < s@.len() ==> *#[trigger] r@[i] == s@[i].0,
{
    let mut r: Vec<&'a K> = Vec::new();
    let mut i: usize = 0;
    while i < s.len()
        invariant
            i <= s@.len(),
            r@.len() == i,
            forall|j: int| 0 <= j < i ==> *#[trigger] r@[j] == s@[j].0,
        decreases s@.len() - i,
    {
        r.push(&s[i].0);
        i = i + 1;
    }
    r
}

/// The values of `s`, borrowed, in order.
fn values_vec<'a, K, V>(s: &'a [(K, V)]) -> (r: Vec<&'a V>)
    ensures
        r@.len() == s@.len(),
        forall|i: int| 0 <= i < s@.len() ==> *#[trigger] r@[i] == s@[i].1,
{
    let mut r: Vec<&'a V> = Vec::new();
    let mut i: usize = 0;
    while i < s.len()
        invariant
            i <= s@.len(),
            r@.len() == i,
            forall|j: int| 0 <= j < i ==> *#[trigger] r@[j] == s@[j].1,
        decreases s@.len() - i,
    {
        r.push(&s[i].1);
        i = i + 1;
    }
    r
}

/// The map after inserting each entry of `items` in turn, later entries
/// overriding earlier ones.
pub open spec fn insert_all<K, V>(m: Map<K, V>, items: Seq<(K, V)>) -> Map<K, V>
    decreases items.len(),
{
    if items.len() == 0 {
        m
    } else {
        insert_all(m, items.drop_last()).insert(items.last().0, items.last().1)
    }
}

/// What a binary search hit: the entry at `i` is the map's binding for its key.
proof fn lemma_sorted_found<K: Ord, V>(s: Seq<(K, V)>, i: int)
    requires
        total_order::<K>(),
        keys_strictly_sorted(s),
        0 <= i < s.len(),
    ensures
        keys_unique(s),
        entries_map(s).dom().contains(s[i].0),
        entries_map(s)[s[i].0] == s[i].1,
{
    lemma_sorted_keys_unique(s);
    lemma_entries_map_at(s, i);
}

/// What a binary search miss means: the key is in no entry.
proof fn lemma_sorted_absent<K: Ord, V>(s: Seq<(K, V)>, key: K, i: int)
    requires
        total_order::<K>(),
        0 <= i <= s.len(),
        forall|k: int| 0 <= k < i ==> is_less(#[trigger] s[k].0, key),
        forall|k: int| i <= k < s.len() ==> is_less(key, #[trigger] s[k].0),
    ensures
        !entries_map(s).dom().contains(key),
        !keys_of(s).contains(key),
{
    lemma_total_order::<K>();
    lemma_entries_map_dom(s, key);
    if exists|j: int| 0 <= j < s.len() && s[j].0 == key {
        let j = choose|j: int| 0 <= j < s.len() && s[j].0 == key;
        assert(order_of(key, key) == Order::Equal);
        if j < i {
            assert(is_less(s[j].0, key));
        } else {
            assert(is_less(key, s[j].0));
        }
    }
    if keys_of(s).contains(key) {
        let j = choose|j: int| 0 <= j < keys_of(s).len() && keys_of(s)[j] == key;
        assert(s[j].0 == key);
    }
}

/// Inserting at the binary search's insertion point keeps the keys sorted and
/// adds exactly the new key.
pub(crate) proof fn lemma_sorted_insert_entry<K: Ord, V>(s: Seq<(K, V)>, i: int, k: K, v: V)
    requires
        total_order::<K>(),
        keys_strictly_sorted(s),
        0 <= i <= s.len(),
        forall|j: int| 0 <= j < i ==> is_less(#[trigger] s[j].0, k),
        forall|j: int| i <= j < s.len() ==> is_less(k, #[trigger] s[j].0),
    ensures
        !entries_map(s).dom().contains(k),
        keys_strictly_sorted(s.insert(i, (k, v))),
        entries_map(s.insert(i, (k, v))) == entries_map(s).insert(k, v),
        s.insert(i, (k, v)).len() == s.len() + 1,
{
    lemma_sorted_absent(s, k, i);
    lemma_sorted_keys_unique(s);
    lemma_entries_map_insert(s, i, k, v);
    let ks = keys_of(s);
    assert forall|j: int| 0 <= j < i implies is_less(#[trigger] ks[j], k) by {
        assert(ks[j] == s[j].0);
    }
    assert forall|j: int| i <= j < ks.len() implies is_less(k, #[trigger] ks[j]) by {
        assert(ks[j] == s[j].0);
    }
    lemma_insert_sorted(ks, i, k);
}

/// Removing an entry keeps the keys sorted and drops exactly its key.
pub(crate) proof fn lemma_sorted_remove_entry<K: Ord, V>(s: Seq<(K, V)>, i: int)
    requires
        total_order::<K>(),
        keys_strictly_sorted(s),
        0 <= i < s.len(),
    ensures
        keys_strictly_sorted(s.remove(i)),
        entries_map(s.remove(i)) == entries_map(s).remove(s[i].0),
{
    lemma_sorted_keys_unique(s);
    lemma_entries_map_remove(s, i);
    lemma_remove_sorted(keys_of(s), i);
}

/// A map kept sorted by key in its backing store.
#[derive(Clone, Debug, PartialEq, Eq, PartialOrd, Ord, Hash)]
pub struct SortedMap<S> {
    store: S,
}

impl<S: Store> View for SortedMap<S> {
    type V = Seq<S::Elem>;

    /// The entries in stored (ascending key) order.
    closed spec fn view(&self) -> Seq<S::Elem> {
        self.store.elems()
    }
}

impl<S: Store> SortedMap<S> {
    /// The backing store is well formed.
    pub closed spec fn inv(&self) -> bool {
        self.store.well_formed()
    }

    /// The backing store.
    pub closed spec fn store_spec(&self) -> S {
        self.store
    }

    /// The logical capacity.
    pub closed spec fn bound(&self) -> Option<usize> {
        self.store.bound()
    }

    /// The view, the invariant and the bound, in terms of the backing store.
    pub proof fn lemma_store(&self)
        ensures
            self@ == self.store_spec().elems(),
            self.inv() == self.store_spec().well_formed(),
            self.bound() == self.store_spec().bound(),
    {
    }

    /// A well-formed store never holds more elements than its bound.
    pub proof fn lemma_within_bound(&self)
        requires
            self.inv(),
        ensures
            self.bound() is Some ==> self@.len() <= self.bound().unwrap(),
    {
        self.store.lemma_within_bound();
    }
}

impl<K, V, S> SortedMap<S> where S: Store<Elem = (K, V)> {
    /// The finite map the entries stand for.
    pub open spec fn map(&self) -> Map<K, V> {
        entries_map(self@)
    }
}

impl<K: Ord, V, S> SortedMap<S> where S: Store<Elem = (K, V)> {
    /// The map invariant: a well-formed store in strictly ascending key order.
    pub open spec fn wf(&self) -> bool {
        &&& self.inv()
        &&& keys_strictly_sorted(self@)
    }
}

impl<S: StoreNew> SortedMap<S> {
    /// Creates an empty map.
    pub fn new() -> (m: Self)
        ensures
            m.inv(),
            m@ == Seq::<S::Elem>::empty(),
            m.bound() == S::initial_bound(),
    {
        SortedMap { store: S::new() }
    }
}

impl<S: StoreNew> Default for SortedMap<S> {
    fn default() -> (m: Self)
        ensures
            m.inv(),
            m@ == Seq::<S::Elem>::empty(),
    {
        Self::new()
    }
}

impl<S: Store> SortedMap<S> {
    /// The number of entries.
    pub fn len(&self) -> (n: usize)
        requires
            self.inv(),
        ensures
            n == self@.len(),
    {
        self.store.len()
    }

    /// Whether the map is empty.
    pub fn is_empty(&self) -> (b: bool)
        requires
            self.inv(),
        ensures
            b == (self@.len() == 0),
    {
        self.store.is_empty()
    }

    /// The logical capacity, or `None` if unbounded.
    pub fn capacity(&self) -> (c: Option<usize>)
        requires
            self.inv(),
        ensures
            c == self.bound(),
    {
        self.store.max_capacity()
    }

    /// The entries as a slice, in ascending key order.
    pub fn as_slice(&self) -> (s: &[S::Elem])
        requires
            self.inv(),
        ensures
            s@ == self@,
    {
        self.store.as_slice()
    }

    /// Borrows the backing store.
    pub fn store(&self) -> (s: &S)
        ensures
            *s == self.store_spec(),
            s.elems() == self@,
    {
        &self.store
    }

    /// Consumes the map and hands back its store, entries still in key order.
    pub fn into_store(self) -> (s: S)
        ensures
            s == self.store_spec(),
            s.elems() == self@,
    {
        self.store
    }
}

impl<S: StoreMut> SortedMap<S> {
    /// Removes every entry.
    pub fn clear(&mut self)
        requires
            old(self).inv(),
        ensures
            final(self).inv(),
            final(self)@ == Seq::<S::Elem>::empty(),
            final(self).bound() == old(self).bound(),
    {
        self.store.clear();
    }

    /// Pre-allocates room for `additional` more entries; the map is unchanged.
    pub fn reserve(&mut self, additional: usize)
        requires
            old(self).inv(),
        ensures
            final(self).inv(),
            final(self)@ == old(self)@,
            final(self).bound() == old(self).bound(),
    {
        self.store.reserve(additional);
    }
}

impl<K, V, S> SortedMap<S> where S: Store<Elem = (K, V)> {
    /// Iterates the entries as `(&K, &V)` pairs, in ascending key order.
    pub fn iter<'a>(&'a self) -> (it: MapIter<'a, K, V>)
        where
            K: 'a,
            V: 'a,
        requires
            self.inv(),
        ensures
            it.wf(),
            it.remaining() == self@,
    {
        MapIter::new(self.store.as_slice())
    }

    /// The keys, in ascending order.
    pub fn keys<'a>(&'a self) -> (r: Vec<&'a K>)
        where
            K: 'a,
            V: 'a,
        requires
            self.inv(),
        ensures
            r@.len() == self@.len(),
            forall|i: int| 0 <= i < self@.len() ==> *#[trigger] r@[i] == self@[i].0,
    {
        keys_vec(self.store.as_slice())
    }

    /// The values, in ascending order of their keys.
    pub fn values<'a>(&'a self) -> (r: Vec<&'a V>)
        where
            K: 'a,
            V: 'a,
        requires
            self.inv(),
        ensures
            r@.len() == self@.len(),
            forall|i: int| 0 <= i < self@.len() ==> *#[trigger] r@[i] == self@[i].1,
    {
        values_vec(self.store.as_slice())
    }

    /// The entry with the smallest key, or `None` if empty.
    pub fn first_key_value<'a>(&'a self) -> (r: Option<(&'a K, &'a V)>)
        where
            K: 'a,
            V: 'a,
        requires
            self.inv(),
        ensures
            r is None <==> self@.len() == 0,
            r matches Some((k, v)) ==> *k == self@[0].0 && *v == self@[0].1,
    {
        match self.store.as_slice().first() {
            Some(e) => Some((&e.0, &e.1)),
            None => None,
        }
    }

    /// The entry with the largest key, or `None` if empty.
    pub fn last_key_value<'a>(&'a self) -> (r: Option<(&'a K, &'a V)>)
        where
            K: 'a,
            V: 'a,
        requires
            self.inv(),
        ensures
            r is None <==> self@.len() == 0,
            r matches Some((k, v)) ==> *k == self@.last().0 && *v == self@.last().1,
    {
        match self.store.as_slice().last() {
            Some(e) => Some((&e.0, &e.1)),
            None => None,
        }
    }
}

impl<K: Ord, V, S> SortedMap<S> where S: StoreMut<Elem = (K, V)> {
    /// Iterates the entries as `(&K, &mut V)` pairs, in stored order. The map
    /// ends up holding what the iteration left in the store; as long as the
    /// keys are as they were (the iterator shares them, never hands them out
    /// mutably), the map stays well formed.
    pub fn iter_mut<'a>(&'a mut self) -> (it: MapIterMut<'a, K, V>)
        where
            K: 'a,
            V: 'a,
        requires
            old(self).wf(),
        ensures
            it.remaining() == old(self)@,
            keys_of(final(it.rest)@) == keys_of(old(self)@) ==> {
                &&& final(self).wf()
                &&& final(self)@ == final(it.rest)@
                &&& final(self).bound() == old(self).bound()
            },
    {
        let s = self.store.as_mut_slice();
        proof {
            assert(keys_of(final(s)@).len() == final(s)@.len());
            assert(keys_of(s@).len() == s@.len());
        }
        MapIterMut { rest: s }
    }

    /// Iterates the values mutably, in stored order; the keys are untouched.
    pub fn values_mut<'a>(&'a mut self) -> (it: ValuesMut<'a, K, V>)
        where
            K: 'a,
            V: 'a,
        requires
            old(self).wf(),
        ensures
            it.remaining() == old(self)@,
            keys_of(final(it.rest)@) == keys_of(old(self)@) ==> {
                &&& final(self).wf()
                &&& final(self)@ == final(it.rest)@
                &&& final(self).bound() == old(self).bound()
            },
    {
        let s = self.store.as_mut_slice();
        proof {
            assert(keys_of(final(s)@).len() == final(s)@.len());
            assert(keys_of(s@).len() == s@.len());
        }
        ValuesMut { rest: s }
    }

    /// Keeps only the entries for which `f` returns `true`, in key order; `f`
    /// sees each key and may edit its value. Each entry is visited once, in
    /// order.
    pub fn retain<F: FnMut(&K, &mut V) -> bool>(&mut self, f: F)
        requires
            old(self).wf(),
            total_order::<K>(),
            forall|k: &K, v: &mut V| call_requires(f, (k, v)),
        ensures
            final(self).wf(),
            final(self).bound() == old(self).bound(),
            exists|vals: Seq<V>, keep: Seq<bool>, refs: Seq<&mut V>|
                #![trigger filter_kept(with_values(old(self)@, vals), keep), refs.len()]
            {
                &&& vals.len() == old(self)@.len()
                &&& keep.len() == old(self)@.len()
                &&& refs.len() == old(self)@.len()
                &&& forall|i: int| #![trigger refs[i]] 0 <= i < keep.len() ==> {
                    &&& *refs[i] == old(self)@[i].1
                    &&& *final(refs[i]) == vals[i]
                    &&& call_ensures(f, (&old(self)@[i].0, refs[i]), keep[i])
                }
                &&& final(self)@ == filter_kept(with_values(old(self)@, vals), keep)
            },
    {
        let ghost s0 = self@;
        retain_entries_in(&mut self.store, f);
        proof {
            let (vals, keep, refs) = choose|vals: Seq<V>, keep: Seq<bool>, refs: Seq<&mut V>|
                #![trigger filter_kept(with_values(s0, vals), keep), refs.len()]
            {
                &&& vals.len() == s0.len()
                &&& keep.len() == s0.len()
                &&& refs.len() == s0.len()
                &&& forall|i: int| #![trigger refs[i]] 0 <= i < keep.len() ==> {
                    &&& *refs[i] == s0[i].1
                    &&& *final(refs[i]) == vals[i]
                    &&& call_ensures(f, (&s0[i].0, refs[i]), keep[i])
                }
                &&& self@ == filter_kept(with_values(s0, vals), keep)
            };
            lemma_filter_kept_keys(with_values(s0, vals), keep);
            lemma_with_values_keys(s0, vals);
            lemma_filter_kept_sorted(keys_of(s0), keep);
        }
    }
}

impl<K: Ord, V, S> SortedMap<S> where S: Store<Elem = (K, V)> {
    /// Wraps a store whose entries are already in strictly ascending key
    /// order. No sort is performed.
    pub fn from_store(store: S) -> (m: Self)
        requires
            store.well_formed(),
            keys_strictly_sorted(store.elems()),
        ensures
            m.wf(),
            m@ == store.elems(),
            m.store_spec() == store,
            m.bound() == store.bound(),
    {
        SortedMap { store }
    }

    /// The value bound to `key`, or `None` if absent.
    pub fn get<'a>(&'a self, key: &K) -> (r: Option<&'a V>)
        where
            K: 'a,
            V: 'a,
        requires
            self.wf(),
            total_order::<K>(),
        ensures
            r is Some <==> self.map().dom().contains(*key),
            r matches Some(v) ==> *v == self.map()[*key],
    {
        let s = self.store.as_slice();
        match search_keys(s, key) {
            Ok(i) => {
                proof {
                    lemma_sorted_found(self@, i as int);
                }
                Some(&s[i].1)
            },
            Err(i) => {
                proof {
                    lemma_sorted_absent(self@, *key, i as int);
                }
                None
            },
        }
    }

    /// Whether `key` is bound.
    pub fn contains_key(&self, key: &K) -> (b: bool)
        requires
            self.wf(),
            total_order::<K>(),
        ensures
            b == self.map().dom().contains(*key),
    {
        match search_keys(self.store.as_slice(), key) {
            Ok(i) => {
                proof {
                    lemma_sorted_found(self@, i as int);
                }
                true
            },
            Err(i) => {
                proof {
                    lemma_sorted_absent(self@, *key, i as int);
                }
                false
            },
        }
    }

    /// The entries whose keys lie within `start..end`, as a subslice of the
    /// sorted store. The range must not be inverted: no key may lie before the
    /// start and after the end at once.
    pub fn range<'a>(&'a self, start: Bound<&K>, end: Bound<&K>) -> (r: &'a [(K, V)])
        where
            K: 'a,
            V: 'a,
        requires
            self.wf(),
            total_order::<K>(),
            range_ordered(start, end),
            forall|k: int| 0 <= k < self@.len() ==> admits_start(start, #[trigger] self@[k].0) || admits_end(end, self@[k].0),
        ensures
            exists|i: int, j: int| {
                &&& 0 <= i <= j <= self@.len()
                &&& r@ == self@.subrange(i, j)
                &&& forall|k: int| 0 <= k < self@.len() ==> ((i <= k < j) <==> (admits_start(start, #[trigger] self@[k].0) && admits_end(end, self@[k].0)))
            },
    {
        let s = self.store.as_slice();
        let i = key_start_index(s, start);
        let j = key_end_index(s, end);
        if i > j {
            assert(!admits_start(start, s@[j as int].0) && !admits_end(end, s@[j as int].0));
        }
        let (head, _) = s.split_at(j);
        let (_, mid) = head.split_at(i);
        assert(mid@ =~= self@.subrange(i as int, j as int));
        mid
    }
}

impl<K: Ord, V, S> SortedMap<S> where S: StoreMut<Elem = (K, V)> {
    /// A mutable reference to the value bound to `key`, or `None` if absent.
    pub fn get_mut<'a>(&'a mut self, key: &K) -> (r: Option<&'a mut V>)
        where
            K: 'a,
            V: 'a,
        requires
            old(self).wf(),
            total_order::<K>(),
        ensures
            r is Some <==> old(self).map().dom().contains(*key),
            r is None ==> *final(self) == *old(self),
            r is Some ==> {
                &&& *r.unwrap() == old(self).map()[*key]
                &&& final(self).wf()
                &&& final(self).bound() == old(self).bound()
                &&& final(self).map() == old(self).map().insert(*key, *final(r.unwrap()))
                &&& keys_of(final(self)@) == keys_of(old(self)@)
            },
    {
        let ghost s0 = self@;
        match search_keys(self.store.as_slice(), key) {
            Ok(i) => {
                proof {
                    lemma_sorted_found(s0, i as int);
                }
                let s = self.store.as_mut_slice();
                let e = &mut s[i];
                let v = &mut e.1;
                proof {
                    lemma_entries_map_set_value(s0, i as int, *final(v));
                }
                Some(v)
            },
            Err(i) => {
                proof {
                    lemma_sorted_absent(s0, *key, i as int);
                }
                None
            },
        }
    }

    /// Inserts or replaces. `Ok(Some(old))` when `key` was bound (its value is
    /// replaced, no capacity consumed); `Ok(None)` when it is new; `Err` hands
    /// `(key, value)` back when the key is new and the store is full.
    pub fn try_insert(&mut self, key: K, value: V) -> (r: Result<Option<V>, CapacityError<(K, V)>>)
        requires
            old(self).wf(),
            total_order::<K>(),
        ensures
            final(self).wf(),
            final(self).bound() == old(self).bound(),
            match r {
                Ok(Some(prev)) => {
                    &&& old(self).map().dom().contains(key)
                    &&& prev == old(self).map()[key]
                    &&& final(self).map() == old(self).map().insert(key, value)
                    &&& final(self)@.len() == old(self)@.len()
                },
                Ok(None) => {
                    &&& !old(self).map().dom().contains(key)
                    &&& final(self).map() == old(self).map().insert(key, value)
                    &&& final(self)@.len() == old(self)@.len() + 1
                },
                Err(e) => {
                    &&& e.rejected() == (key, value)
                    &&& !old(self).map().dom().contains(key)
                    &&& final(self)@ == old(self)@
                    &&& old(self).bound() == Some(old(self)@.len() as usize)
                },
            },
            r is Err <==> (!old(self).map().dom().contains(key) && old(self).bound() == Some(old(self)@.len() as usize)),
    {
        let ghost s0 = self@;
        let ghost k0 = key;
        let ghost v0 = value;
        proof {
            lemma_total_order::<K>();
            self.store.lemma_within_bound();
        }
        let n = self.store.len();
        let append = if n == 0 {
            true
        } else {
            let o = compare(&key, &self.store.as_slice()[n - 1].0);
            proof {
                if o == Order::Greater {
                    assert(is_less(s0[n - 1].0, k0));
                }
            }
            o == Order::Greater
        };
        if append {
            proof {
                assert forall|j: int| 0 <= j < n implies is_less(#[trigger] s0[j].0, k0) by {
                    if j < n - 1 {
                        assert(keys_of(s0)[j] == s0[j].0 && keys_of(s0)[n - 1] == s0[n - 1].0);
                        assert(is_less(s0[j].0, s0[n - 1].0));
                    }
                }
                lemma_sorted_insert_entry(s0, n as int, k0, v0);
                assert(s0.insert(n as int, (k0, v0)) =~= s0.push((k0, v0)));
            }
            return match push(&mut self.store, (key, value)) {
                Ok(()) => {
                    proof {
                        self.store.lemma_within_bound();
                    }
                    Ok(None)
                },
                Err(e) => Err(e),
            };
        }
        match search_keys(self.store.as_slice(), &key) {
            Ok(i) => {
                proof {
                    lemma_sorted_found(s0, i as int);
                    lemma_entries_map_set_value(s0, i as int, v0);
                    assert(s0.update(i as int, (s0[i as int].0, v0)).len() == s0.len());
                }
                let s = self.store.as_mut_slice();
                let mut v = value;
                core::mem::swap(&mut s[i].1, &mut v);
                assert(s@ =~= s0.update(i as int, (s0[i as int].0, v0)));
                Ok(Some(v))
            },
            Err(i) => {
                proof {
                    lemma_sorted_insert_entry(s0, i as int, k0, v0);
                }
                match self.store.try_insert_at(i, (key, value)) {
                    Ok(()) => {
                        proof {
                            self.store.lemma_within_bound();
                        }
                        Ok(None)
                    },
                    Err(e) => Err(e),
                }
            },
        }
    }

    /// Removes the entry for `key`, returning its value; key order is kept.
    pub fn remove(&mut self, key: &K) -> (r: Option<V>)
        requires
            old(self).wf(),
            total_order::<K>(),
        ensures
            final(self).wf(),
            final(self).bound() == old(self).bound(),
            r is Some <==> old(self).map().dom().contains(*key),
            r matches Some(v) ==> v == old(self).map()[*key],
            final(self).map() == old(self).map().remove(*key),
    {
        let ghost s0 = self@;
        match search_keys(self.store.as_slice(), key) {
            Ok(i) => {
                proof {
                    lemma_sorted_found(s0, i as int);
                    lemma_sorted_remove_entry(s0, i as int);
                }
                let e = self.store.remove_at(i);
                Some(e.1)
            },
            Err(i) => {
                proof {
                    lemma_sorted_absent(s0, *key, i as int);
                    assert(entries_map(s0).remove(*key) =~= entries_map(s0));
                }
                None
            },
        }
    }

    /// Resolves `key`'s slot once and returns an entry for an
    /// insert-or-update: `Occupied` at the key's index, or `Vacant` at the
    /// index that keeps the keys sorted. Once the entry is done with the
    /// store, the map holds whatever the entry left there.
    pub fn entry<'a>(&'a mut self, key: K) -> (r: Entry<'a, S, K>)
        where
            K: 'a,
            V: 'a,
        requires
            old(self).wf(),
            total_order::<K>(),
        ensures
            r.wf(),
            match r {
                Entry::Occupied(e) => {
                    &&& old(self).map().dom().contains(key)
                    &&& e.kind == Kind::Sorted
                    &&& e.entries() == old(self)@
                    &&& e.entries()[e.index as int].0 == key
                    &&& e.store_bound() == old(self).bound()
                    &&& final(self).store_spec() == *final(e.store)
                },
                Entry::Vacant(e) => {
                    &&& !old(self).map().dom().contains(key)
                    &&& e.key == key
                    &&& e.entries() == old(self)@
                    &&& e.store_bound() == old(self).bound()
                    &&& forall|j: int| 0 <= j < e.index ==> is_less(#[trigger] old(self)@[j].0, key)
                    &&& forall|j: int| e.index <= j < old(self)@.len() ==> is_less(key, #[trigger] old(self)@[j].0)
                    &&& final(self).store_spec() == *final(e.store)
                },
            },
    {
        let ghost s0 = self@;
        match search_keys(self.store.as_slice(), &key) {
            Ok(index) => {
                proof {
                    lemma_sorted_found(s0, index as int);
                }
                Entry::Occupied(OccupiedEntry { store: &mut self.store, index, kind: Kind::Sorted })
            },
            Err(index) => {
                proof {
                    lemma_sorted_absent(s0, key, index as int);
                }
                Entry::Vacant(VacantEntry { store: &mut self.store, index, key })
            },
        }
    }

    /// Inserts every entry in turn, later entries replacing earlier values for
    /// the same key. On a capacity failure the entries inserted so far are kept
    /// and the rejected entry is returned.
    pub fn try_extend(&mut self, items: Vec<(K, V)>) -> (r: Result<(), CapacityError<(K, V)>>)
        requires
            old(self).wf(),
            total_order::<K>(),
        ensures
            final(self).wf(),
            final(self).bound() == old(self).bound(),
            match r {
                Ok(_) => final(self).map() == insert_all(old(self).map(), items@),
                Err(e) => exists|k: int| {
                    &&& 0 <= k < items@.len()
                    &&& e.rejected() == items@[k]
                    &&& final(self).map() == insert_all(old(self).map(), items@.take(k))
                    &&& !final(self).map().dom().contains(items@[k].0)
                    &&& final(self).bound() == Some(final(self)@.len() as usize)
                },
            },
    {
        let ghost m0 = self.map();
        let ghost all = items@;
        let n = items.len();
        let mut k: usize = 0;
        for item in it: items.into_iter()
            invariant
                all.len() == n,
                self.wf(),
                total_order::<K>(),
                self.bound() == old(self).bound(),
                m0 == old(self).map(),
                it.seq() == all,
                k == it.index(),
                k <= all.len(),
                self.map() == insert_all(m0, all.take(k as int)),
        {
            assert(item == all[k as int]);
            let (key, value) = item;
            match self.try_insert(key, value) {
                Ok(_) => {
                    assert(all.take(k + 1).drop_last() =~= all.take(k as int));
                },
                Err(e) => {
                    assert(0 <= k < all.len() && e.rejected() == all[k as int]);
                    return Err(e);
                },
            }
            k = k + 1;
        }
        assert(all.take(k as int) =~= all);
        Ok(())
    }
}

impl<K: Ord, V, S> SortedMap<S> where S: StoreMut<Elem = (K, V)> + StoreNew {
    /// Builds from entries in any order, requiring every key to be unique:
    /// append all, sort by key, then reject a repeated key. Entries are
    /// appended before the duplicate check, so a bounded store can overflow
    /// first.
    pub fn try_from_iter(items: Vec<(K, V)>) -> (r: Result<Self, BuildError<(K, V)>>)
        requires
            total_order::<K>(),
        ensures
            match r {
                Ok(m) => {
                    &&& m.wf()
                    &&& keys_unique(items@)
                    &&& m.map() == entries_map(items@)
                    &&& m@.to_multiset() == items@.to_multiset()
                    &&& m.bound() == S::initial_bound()
                },
                Err(BuildError::Capacity(e)) => {
                    &&& S::initial_bound() is Some
                    &&& items@.len() > S::initial_bound().unwrap()
                    &&& e == items@[S::initial_bound().unwrap() as int]
                },
                Err(BuildError::DuplicateKey(e)) => {
                    &&& S::initial_bound() is None || items@.len() <= S::initial_bound().unwrap()
                    &&& items@.to_multiset().count(e) > 0
                    &&& exists|p: int, q: int| 0 <= p < q < items@.len() && items@[p].0 == e.0 && items@[q].0 == e.0
                },
                Err(BuildError::Unsorted(_)) => false,
            },
            r is Ok <==> (keys_unique(items@) && (S::initial_bound() is None || items@.len() <= S::initial_bound().unwrap())),
    {
        let mut store = S::new();
        let ghost all = items@;
        match append_all(&mut store, items) {
            Ok(()) => {},
            Err(e) => {
                proof {
                    store.lemma_within_bound();
                    let k = choose|k: int| {
                        &&& 0 <= k < all.len()
                        &&& e.rejected() == all[k]
                        &&& store.elems() == Seq::<(K, V)>::empty() + all.take(k)
                        &&& store.bound() is Some
                        &&& store.elems().len() >= store.bound().unwrap()
                    };
                    assert(store.elems().len() == k);
                }
                return Err(BuildError::Capacity(e.into_inner()));
            },
        }
        proof {
            store.lemma_within_bound();
            assert(Seq::<(K, V)>::empty() + all =~= all);
        }
        let s = store.as_mut_slice();
        sort_entries_by_key(s);
        let ghost sorted = s@;
        proof {
            assert(sorted.to_multiset().len() == all.to_multiset().len());
            assert(sorted.len() == all.len());
        }
        let n = store.len();
        let mut i: usize = 1;
        while i < n
            invariant
                total_order::<K>(),
                store.well_formed(),
                store.bound() == S::initial_bound(),
                store.elems() == sorted,
                sorted.len() == n,
                sorted.to_multiset() == all.to_multiset(),
                all == items@,
                S::initial_bound() is None || all.len() <= S::initial_bound().unwrap(),
                ascending(keys_of(sorted)),
                1 <= i,
                n == 0 || i <= n,
                n > 0 ==> strictly_sorted(keys_of(sorted).subrange(0, i as int)),
            decreases n - i,
        {
            proof {
                lemma_total_order::<K>();
                lemma_total_order_exact_eq::<K>();
            }
            let s = store.as_slice();
            if equal(&s[i - 1].0, &s[i].0) {
                proof {
                    let a = sorted[i - 1];
                    let b = sorted[i as int];
                    if a == b {
                        lemma_count_two(sorted, b);
                        lemma_count_two(all, b);
                        let (p, q) = choose|p: int, q: int|
                            0 <= p < all.len() && 0 <= q < all.len() && p != q && all[p] == b && all[q] == b;
                        if p < q {
                            assert(0 <= p < q < all.len() && all[p].0 == b.0 && all[q].0 == b.0);
                        } else {
                            assert(0 <= q < p < all.len() && all[q].0 == b.0 && all[p].0 == b.0);
                        }
                    } else {
                        assert(sorted.to_multiset().count(a) > 0 && sorted.to_multiset().count(b) > 0);
                        assert(all.to_multiset().count(a) > 0 && all.to_multiset().count(b) > 0);
                        assert(all.contains(a) && all.contains(b));
                        let p = choose|p: int| 0 <= p < all.len() && all[p] == a;
                        let q = choose|q: int| 0 <= q < all.len() && all[q] == b;
                        if q < p {
                            assert(0 <= q < p < all.len() && all[q].0 == b.0 && all[p].0 == b.0);
                        } else {
                            assert(0 <= p < q < all.len() && all[p].0 == b.0 && all[q].0 == b.0);
                        }
                    }
                    assert(sorted.to_multiset().count(b) > 0);
                    assert(!keys_unique(all)) by {
                        let (p, q) = choose|p: int, q: int| 0 <= p < q < all.len() && all[p].0 == b.0 && all[q].0 == b.0;
                        assert(keys_of(all)[p] == keys_of(all)[q]);
                    }
                }
                let e = store.remove_at(i);
                return Err(BuildError::DuplicateKey(e));
            }
            proof {
                let ks = keys_of(sorted);
                assert(ks[i - 1] != ks[i as int]);
                assert(!is_less(ks[i as int], ks[i - 1]));
                assert(is_less(ks[i - 1], ks[i as int]));
                assert forall|a: int, b: int| 0 <= a < b < i + 1 implies #[trigger] is_less(ks.subrange(0, i + 1)[a], ks.subrange(0, i + 1)[b]) by {
                    if b == i {
                        if a < i - 1 {
                            assert(is_less(ks.subrange(0, i as int)[a], ks.subrange(0, i as int)[i - 1]));
                        }
                    } else {
                        assert(is_less(ks.subrange(0, i as int)[a], ks.subrange(0, i as int)[b]));
                    }
                }
            }
            i = i + 1;
        }
        proof {
            if n > 0 {
                assert(keys_of(sorted).subrange(0, n as int) =~= keys_of(sorted));
            }
            lemma_sorted_keys_unique(sorted);
            lemma_perm_entries(sorted, all);
            lemma_perm_entries(all, sorted);
        }
        Ok(SortedMap { store })
    }

    /// Builds from entries already in strictly ascending key order, checking
    /// each key against its predecessor before appending it: a smaller key is
    /// `Unsorted`, an equal one `DuplicateKey`, and a store that fills
    /// `Capacity`, each carrying the offending entry.
    pub fn try_from_sorted_iter(items: Vec<(K, V)>) -> (r: Result<Self, BuildError<(K, V)>>)
        requires
            total_order::<K>(),
        ensures
            match r {
                Ok(m) => {
                    &&& m.wf()
                    &&& m@ == items@
                    &&& m.bound() == S::initial_bound()
                },
                Err(e) => exists|k: int| {
                    &&& 0 <= k < items@.len()
                    &&& keys_strictly_sorted(items@.take(k))
                    &&& (S::initial_bound() is None || k <= S::initial_bound().unwrap())
                    &&& match e {
                        BuildError::Unsorted(x) => x == items@[k] && k > 0 && is_less(items@[k].0, items@[k - 1].0),
                        BuildError::DuplicateKey(x) => x == items@[k] && k > 0 && items@[k].0 == items@[k - 1].0,
                        BuildError::Capacity(x) => {
                            &&& x == items@[k]
                            &&& (k == 0 || is_less(items@[k - 1].0, items@[k].0))
                            &&& S::initial_bound() == Some(k as usize)
                        },
                    }
                },
            },
            r is Ok <==> (keys_strictly_sorted(items@) && (S::initial_bound() is None || items@.len() <= S::initial_bound().unwrap())),
    {
        let mut store = S::new();
        let ghost all = items@;
        let n = items.len();
        store.reserve(n);
        let mut k: usize = 0;
        for entry in it: items.into_iter()
            invariant
                total_order::<K>(),
                all.len() == n,
                all == items@,
                it.seq() == all,
                k == it.index(),
                k <= all.len(),
                store.well_formed(),
                store.bound() == S::initial_bound(),
                store.elems() == all.take(k as int),
                keys_strictly_sorted(all.take(k as int)),
        {
            proof {
                lemma_total_order::<K>();
                store.lemma_within_bound();
            }
            assert(entry == all[k as int]);
            if k > 0 {
                let o = compare(&entry.0, &store.as_slice()[k - 1].0);
                assert(store.elems()[k - 1] == all[k - 1]);
                match o {
                    Order::Less => {
                        assert(!keys_strictly_sorted(all)) by {
                            assert(keys_of(all)[k - 1] == all[k - 1].0 && keys_of(all)[k as int] == all[k as int].0);
                            assert(order_of(all[k as int].0, all[k - 1].0) == Order::Less);
                            if keys_strictly_sorted(all) {
                                assert(is_less(keys_of(all)[k - 1], keys_of(all)[k as int]));
                            }
                        }
                        return Err(BuildError::Unsorted(entry));
                    },
                    Order::Equal => {
                        assert(!keys_strictly_sorted(all)) by {
                            assert(keys_of(all)[k - 1] == all[k - 1].0 && keys_of(all)[k as int] == all[k as int].0);
                            assert(order_of(all[k - 1].0, all[k - 1].0) == Order::Equal);
                            if keys_strictly_sorted(all) {
                                assert(is_less(keys_of(all)[k - 1], keys_of(all)[k as int]));
                            }
                        }
                        return Err(BuildError::DuplicateKey(entry));
                    },
                    Order::Greater => {
                        assert(is_less(all[k - 1].0, all[k as int].0));
                    },
                }
            }
            let ghost e0 = entry;
            match push(&mut store, entry) {
                Ok(()) => {
                    proof {
                        assert(all.take(k + 1) =~= all.take(k as int).push(e0));
                        let ks = keys_of(all.take(k + 1));
                        let kp = keys_of(all.take(k as int));
                        assert forall|a: int, b: int| 0 <= a < b < ks.len() implies #[trigger] is_less(ks[a], ks[b]) by {
                            if b == k {
                                if a < k - 1 {
                                    assert(kp[a] == ks[a] && kp[k - 1] == ks[k - 1]);
                                    assert(is_less(kp[a], kp[k - 1]));
                                }
                            } else {
                                assert(kp[a] == ks[a] && kp[b] == ks[b]);
                            }
                        }
                    }
                },
                Err(e) => {
                    proof {
                        assert(k == store.bound().unwrap());
                    }
                    return Err(BuildError::Capacity(e.into_inner()));
                },
            }
            k = k + 1;
        }
        assert(all.take(k as int) =~= all);
        proof {
            store.lemma_within_bound();
        }
        Ok(SortedMap { store })
    }
}

impl<K: Ord, V, S> SortedMap<S> where S: StoreMut<Elem = (K, V)> + Unbounded {
    /// Inserts or replaces, returning the previous value; infallible on an
    /// unbounded store.
    pub fn insert(&mut self, key: K, value: V) -> (r: Option<V>)
        requires
            old(self).wf(),
            total_order::<K>(),
        ensures
            final(self).wf(),
            final(self).bound() == old(self).bound(),
            r is Some <==> old(self).map().dom().contains(key),
            r matches Some(prev) ==> prev == old(self).map()[key],
            final(self).map() == old(self).map().insert(key, value),
    {
        proof {
            self.store.lemma_unbounded();
        }
        match self.try_insert(key, value) {
            Ok(prev) => prev,
            Err(_) => None,
        }
    }

    /// Inserts every entry in turn, later entries replacing earlier values;
    /// infallible on an unbounded store.
    pub fn extend(&mut self, items: Vec<(K, V)>)
        requires
            old(self).wf(),
            total_order::<K>(),
        ensures
            final(self).wf(),
            final(self).map() == insert_all(old(self).map(), items@),
    {
        proof {
            self.store.lemma_unbounded();
        }
        let _ = self.try_extend(items);
    }
}

impl<K: Ord, V, S> SortedMap<S> where S: StoreMut<Elem = (K, V)> + StoreNew + Unbounded {
    /// Builds from entries already in strictly ascending key order; infallible
    /// on an unbounded store.
    pub fn from_sorted_iter(items: Vec<(K, V)>) -> (m: Self)
        requires
            total_order::<K>(),
            keys_strictly_sorted(items@),
        ensures
            m.wf(),
            m@ == items@,
    {
        let empty = S::new();
        proof {
            empty.lemma_unbounded();
        }
        match Self::try_from_sorted_iter(items) {
            Ok(m) => m,
            Err(_) => SortedMap { store: empty },
        }
    }
}

/// The index of the entry whose key equals `key`, scanning from the front.
fn key_position<K: PartialEq, V>(s: &[(K, V)], key: &K) -> (r: Option<usize>)
    requires
        exact_eq::<K>(),
    ensures
        match r {
            Some(i) => i < s@.len() && s@[i as int].0 == *key,
            None => forall|j: int| 0 <= j < s@.len() ==> #[trigger] s@[j].0 != *key,
        },
{
    let mut i: usize = 0;
    while i < s.len()
        invariant
            exact_eq::<K>(),
            i <= s@.len(),
            forall|j: int| 0 <= j < i ==> #[trigger] s@[j].0 != *key,
        decreases s@.len() - i,
    {
        if equal(&s[i].0, key) {
            return Some(i);
        }
        i = i + 1;
    }
    None
}

/// What a scan miss means: the key is in no entry.
proof fn lemma_scan_absent<K, V>(s: Seq<(K, V)>, key: K)
    requires
        forall|j: int| 0 <= j < s.len() ==> #[trigger] s[j].0 != key,
    ensures
        !entries_map(s).dom().contains(key),
        !keys_of(s).contains(key),
{
    lemma_entries_map_dom(s, key);
    if keys_of(s).contains(key) {
        let j = choose|j: int| 0 <= j < keys_of(s).len() && keys_of(s)[j] == key;
        assert(s[j].0 == key);
    }
}

/// A map with no key order: lookup is a linear scan, insert appends, delete
/// swap-removes. Needs only key equality.
#[derive(Clone, Debug)]
pub struct UnsortedMap<S> {
    store: S,
}

impl<S: Store> View for UnsortedMap<S> {
    type V = Seq<S::Elem>;

    /// The entries in stored order.
    closed spec fn view(&self) -> Seq<S::Elem> {
        self.store.elems()
    }
}

impl<S: Store> UnsortedMap<S> {
    /// The backing store is well formed.
    pub closed spec fn inv(&self) -> bool {
        self.store.well_formed()
    }

    /// The backing store.
    pub closed spec fn store_spec(&self) -> S {
        self.store
    }

    /// The logical capacity.
    pub closed spec fn bound(&self) -> Option<usize> {
        self.store.bound()
    }

    /// The view, the invariant and the bound, in terms of the backing store.
    pub proof fn lemma_store(&self)
        ensures
            self@ == self.store_spec().elems(),
            self.inv() == self.store_spec().well_formed(),
            self.bound() == self.store_spec().bound(),
    {
    }

    /// A well-formed store never holds more elements than its bound.
    pub proof fn lemma_within_bound(&self)
        requires
            self.inv(),
        ensures
            self.bound() is Some ==> self@.len() <= self.bound().unwrap(),
    {
        self.store.lemma_within_bound();
    }
}

impl<K, V, S> UnsortedMap<S> where S: Store<Elem = (K, V)> {
    /// The finite map the entries stand for.
    pub open spec fn map(&self) -> Map<K, V> {
        entries_map(self@)
    }

    /// The map invariant: a well-formed store in which no key repeats.
    pub open spec fn wf(&self) -> bool {
        &&& self.inv()
        &&& keys_unique(self@)
    }
}

impl<S: StoreNew> UnsortedMap<S> {
    /// Creates an empty map.
    pub fn new() -> (m: Self)
        ensures
            m.inv(),
            m@ == Seq::<S::Elem>::empty(),
            m.bound() == S::initial_bound(),
    {
        UnsortedMap { store: S::new() }
    }
}

impl<S: StoreNew> Default for UnsortedMap<S> {
    fn default() -> (m: Self)
        ensures
            m.inv(),
            m@ == Seq::<S::Elem>::empty(),
    {
        Self::new()
    }
}

impl<S: Store> UnsortedMap<S> {
    /// The number of entries.
    pub fn len(&self) -> (n: usize)
        requires
            self.inv(),
        ensures
            n == self@.len(),
    {
        self.store.len()
    }

    /// Whether the map is empty.
    pub fn is_empty(&self) -> (b: bool)
        requires
            self.inv(),
        ensures
            b == (self@.len() == 0),
    {
        self.store.is_empty()
    }

    /// The logical capacity, or `None` if unbounded.
    pub fn capacity(&self) -> (c: Option<usize>)
        requires
            self.inv(),
        ensures
            c == self.bound(),
    {
        self.store.max_capacity()
    }

    /// The entries as a slice, in stored order.
    pub fn as_slice(&self) -> (s: &[S::Elem])
        requires
            self.inv(),
        ensures
            s@ == self@,
    {
        self.store.as_slice()
    }

    /// Borrows the backing store.
    pub fn store(&self) -> (s: &S)
        ensures
            *s == self.store_spec(),
            s.elems() == self@,
    {
        &self.store
    }

    /// Consumes the map and hands back its store.
    pub fn into_store(self) -> (s: S)
        ensures
            s == self.store_spec(),
            s.elems() == self@,
    {
        self.store
    }
}

impl<S: StoreMut> UnsortedMap<S> {
    /// Removes every entry.
    pub fn clear(&mut self)
        requires
            old(self).inv(),
        ensures
            final(self).inv(),
            final(self)@ == Seq::<S::Elem>::empty(),
            final(self).bound() == old(self).bound(),
    {
        self.store.clear();
    }

    /// Pre-allocates room for `additional` more entries; the map is unchanged.
    pub fn reserve(&mut self, additional: usize)
        requires
            old(self).inv(),
        ensures
            final(self).inv(),
            final(self)@ == old(self)@,
            final(self).bound() == old(self).bound(),
    {
        self.store.reserve(additional);
    }
}

impl<K, V, S> UnsortedMap<S> where S: Store<Elem = (K, V)> {
    /// Iterates the entries as `(&K, &V)` pairs, in stored order.
    pub fn iter<'a>(&'a self) -> (it: MapIter<'a, K, V>)
        where
            K: 'a,
            V: 'a,
        requires
            self.inv(),
        ensures
            it.wf(),
            it.remaining() == self@,
    {
        MapIter::new(self.store.as_slice())
    }

    /// The keys, in stored order.
    pub fn keys<'a>(&'a self) -> (r: Vec<&'a K>)
        where
            K: 'a,
            V: 'a,
        requires
            self.inv(),
        ensures
            r@.len() == self@.len(),
            forall|i: int| 0 <= i < self@.len() ==> *#[trigger] r@[i] == self@[i].0,
    {
        keys_vec(self.store.as_slice())
    }

    /// The values, in stored order.
    pub fn values<'a>(&'a self) -> (r: Vec<&'a V>)
        where
            K: 'a,
            V: 'a,
        requires
            self.inv(),
        ensures
            r@.len() == self@.len(),
            forall|i: int| 0 <= i < self@.len() ==> *#[trigger] r@[i] == self@[i].1,
    {
        values_vec(self.store.as_slice())
    }
}

impl<K, V, S> UnsortedMap<S> where S: StoreMut<Elem = (K, V)> {
    /// Iterates the entries as `(&K, &mut V)` pairs, in stored order. The map
    /// ends up holding what the iteration left in the store; as long as the
    /// keys are as they were (the iterator shares them, never hands them out
    /// mutably), the map stays well formed.
    pub fn iter_mut<'a>(&'a mut self) -> (it: MapIterMut<'a, K, V>)
        where
            K: 'a,
            V: 'a,
        requires
            old(self).wf(),
        ensures
            it.remaining() == old(self)@,
            keys_of(final(it.rest)@) == keys_of(old(self)@) ==> {
                &&& final(self).wf()
                &&& final(self)@ == final(it.rest)@
                &&& final(self).bound() == old(self).bound()
            },
    {
        let s = self.store.as_mut_slice();
        proof {
            assert(keys_of(final(s)@).len() == final(s)@.len());
            assert(keys_of(s@).len() == s@.len());
        }
        MapIterMut { rest: s }
    }

    /// Iterates the values mutably, in stored order; the keys are untouched.
    pub fn values_mut<'a>(&'a mut self) -> (it: ValuesMut<'a, K, V>)
        where
            K: 'a,
            V: 'a,
        requires
            old(self).wf(),
        ensures
            it.remaining() == old(self)@,
            keys_of(final(it.rest)@) == keys_of(old(self)@) ==> {
                &&& final(self).wf()
                &&& final(self)@ == final(it.rest)@
                &&& final(self).bound() == old(self).bound()
            },
    {
        let s = self.store.as_mut_slice();
        proof {
            assert(keys_of(final(s)@).len() == final(s)@.len());
            assert(keys_of(s@).len() == s@.len());
        }
        ValuesMut { rest: s }
    }

    /// Keeps only the entries for which `f` returns `true`, in stored order;
    /// `f` sees each key and may edit its value. Each entry is visited once.
    pub fn retain<F: FnMut(&K, &mut V) -> bool>(&mut self, f: F)
        requires
            old(self).wf(),
            forall|k: &K, v: &mut V| call_requires(f, (k, v)),
        ensures
            final(self).wf(),
            final(self).bound() == old(self).bound(),
            exists|vals: Seq<V>, keep: Seq<bool>, refs: Seq<&mut V>|
                #![trigger filter_kept(with_values(old(self)@, vals), keep), refs.len()]
            {
                &&& vals.len() == old(self)@.len()
                &&& keep.len() == old(self)@.len()
                &&& refs.len() == old(self)@.len()
                &&& forall|i: int| #![trigger refs[i]] 0 <= i < keep.len() ==> {
                    &&& *refs[i] == old(self)@[i].1
                    &&& *final(refs[i]) == vals[i]
                    &&& call_ensures(f, (&old(self)@[i].0, refs[i]), keep[i])
                }
                &&& final(self)@ == filter_kept(with_values(old(self)@, vals), keep)
            },
    {
        let ghost s0 = self@;
        retain_entries_in(&mut self.store, f);
        proof {
            let (vals, keep, refs) = choose|vals: Seq<V>, keep: Seq<bool>, refs: Seq<&mut V>|
                #![trigger filter_kept(with_values(s0, vals), keep), refs.len()]
            {
                &&& vals.len() == s0.len()
                &&& keep.len() == s0.len()
                &&& refs.len() == s0.len()
                &&& forall|i: int| #![trigger refs[i]] 0 <= i < keep.len() ==> {
                    &&& *refs[i] == s0[i].1
                    &&& *final(refs[i]) == vals[i]
                    &&& call_ensures(f, (&s0[i].0, refs[i]), keep[i])
                }
                &&& self@ == filter_kept(with_values(s0, vals), keep)
            };
            lemma_filter_kept_keys(with_values(s0, vals), keep);
            lemma_with_values_keys(s0, vals);
            lemma_filter_kept_unique(keys_of(s0), keep);
        }
    }
}

impl<K: Eq, V, S> UnsortedMap<S> where S: Store<Elem = (K, V)> {
    /// Wraps a store in which no key repeats. No scan is performed.
    pub fn from_store(store: S) -> (m: Self)
        requires
            store.well_formed(),
            keys_unique(store.elems()),
        ensures
            m.wf(),
            m@ == store.elems(),
            m.store_spec() == store,
            m.bound() == store.bound(),
    {
        UnsortedMap { store }
    }

    /// The value bound to `key`, or `None` if absent.
    pub fn get<'a>(&'a self, key: &K) -> (r: Option<&'a V>)
        where
            K: 'a,
            V: 'a,
        requires
            self.wf(),
            exact_eq::<K>(),
        ensures
            r is Some <==> self.map().dom().contains(*key),
            r matches Some(v) ==> *v == self.map()[*key],
    {
        let s = self.store.as_slice();
        match key_position(s, key) {
            Some(i) => {
                proof {
                    lemma_entries_map_at(self@, i as int);
                }
                Some(&s[i].1)
            },
            None => {
                proof {
                    lemma_scan_absent(self@, *key);
                }
                None
            },
        }
    }

    /// Whether `key` is bound.
    pub fn contains_key(&self, key: &K) -> (b: bool)
        requires
            self.wf(),
            exact_eq::<K>(),
        ensures
            b == self.map().dom().contains(*key),
    {
        match key_position(self.store.as_slice(), key) {
            Some(i) => {
                proof {
                    lemma_entries_map_at(self@, i as int);
                }
                true
            },
            None => {
                proof {
                    lemma_scan_absent(self@, *key);
                }
                false
            },
        }
    }
}

impl<K: Eq, V, S> UnsortedMap<S> where S: StoreMut<Elem = (K, V)> {
    /// A mutable reference to the value bound to `key`, or `None` if absent.
    pub fn get_mut<'a>(&'a mut self, key: &K) -> (r: Option<&'a mut V>)
        where
            K: 'a,
            V: 'a,
        requires
            old(self).wf(),
            exact_eq::<K>(),
        ensures
            r is Some <==> old(self).map().dom().contains(*key),
            r is None ==> *final(self) == *old(self),
            r is Some ==> {
                &&& *r.unwrap() == old(self).map()[*key]
                &&& final(self).wf()
                &&& final(self).bound() == old(self).bound()
                &&& final(self).map() == old(self).map().insert(*key, *final(r.unwrap()))
                &&& keys_of(final(self)@) == keys_of(old(self)@)
            },
    {
        let ghost s0 = self@;
        match key_position(self.store.as_slice(), key) {
            Some(i) => {
                proof {
                    lemma_entries_map_at(s0, i as int);
                }
                let s = self.store.as_mut_slice();
                let e = &mut s[i];
                let v = &mut e.1;
                proof {
                    lemma_entries_map_set_value(s0, i as int, *final(v));
                }
                Some(v)
            },
            None => {
                proof {
                    lemma_scan_absent(s0, *key);
                }
                None
            },
        }
    }

    /// Inserts or replaces. A replacement keeps the entry's slot and consumes
    /// no capacity; a new key is appended. `Err` hands `(key, value)` back when
    /// the key is new and the store is full.
    pub fn try_insert(&mut self, key: K, value: V) -> (r: Result<Option<V>, CapacityError<(K, V)>>)
        requires
            old(self).wf(),
            exact_eq::<K>(),
        ensures
            final(self).wf(),
            final(self).bound() == old(self).bound(),
            match r {
                Ok(Some(prev)) => {
                    &&& old(self).map().dom().contains(key)
                    &&& prev == old(self).map()[key]
                    &&& final(self).map() == old(self).map().insert(key, value)
                    &&& keys_of(final(self)@) == keys_of(old(self)@)
                    &&& final(self)@ == old(self)@.update(keys_of(old(self)@).index_of(key), (key, value))
                },
                Ok(None) => {
                    &&& !old(self).map().dom().contains(key)
                    &&& final(self).map() == old(self).map().insert(key, value)
                    &&& final(self)@ == old(self)@.push((key, value))
                },
                Err(e) => {
                    &&& e.rejected() == (key, value)
                    &&& !old(self).map().dom().contains(key)
                    &&& final(self)@ == old(self)@
                    &&& old(self).bound() == Some(old(self)@.len() as usize)
                },
            },
            r is Err <==> (!old(self).map().dom().contains(key) && old(self).bound() == Some(old(self)@.len() as usize)),
    {
        let ghost s0 = self@;
        let ghost k0 = key;
        let ghost v0 = value;
        proof {
            self.store.lemma_within_bound();
        }
        match key_position(self.store.as_slice(), &key) {
            Some(i) => {
                proof {
                    lemma_entries_map_at(s0, i as int);
                    lemma_entries_map_set_value(s0, i as int, v0);
                    let ks = keys_of(s0);
                    assert(ks[i as int] == k0);
                    let j = ks.index_of(k0);
                    assert(0 <= j < ks.len() && ks[j] == k0);
                    assert(j == i);
                }
                let s = self.store.as_mut_slice();
                let mut v = value;
                core::mem::swap(&mut s[i].1, &mut v);
                assert(s@ =~= s0.update(i as int, (s0[i as int].0, v0)));
                Ok(Some(v))
            },
            None => {
                proof {
                    lemma_scan_absent(s0, k0);
                    lemma_entries_map_push(s0, k0, v0);
                }
                match push(&mut self.store, (key, value)) {
                    Ok(()) => {
                        proof {
                            self.store.lemma_within_bound();
                        }
                        Ok(None)
                    },
                    Err(e) => Err(e),
                }
            },
        }
    }

    /// Removes the entry for `key` by moving the last entry into its slot,
    /// returning its value; order is not preserved.
    pub fn remove(&mut self, key: &K) -> (r: Option<V>)
        requires
            old(self).wf(),
            exact_eq::<K>(),
        ensures
            final(self).wf(),
            final(self).bound() == old(self).bound(),
            r is Some <==> old(self).map().dom().contains(*key),
            r matches Some(v) ==> v == old(self).map()[*key],
            final(self).map() == old(self).map().remove(*key),
            r is None ==> final(self)@ == old(self)@,
            r is Some ==> exists|i: int| {
                &&& 0 <= i < old(self)@.len()
                &&& old(self)@[i].0 == *key
                &&& final(self)@ == swap_removed(old(self)@, i)
            },
    {
        let ghost s0 = self@;
        match key_position(self.store.as_slice(), key) {
            Some(i) => {
                proof {
                    lemma_entries_map_at(s0, i as int);
                    lemma_entries_map_swap_remove(s0, i as int);
                }
                let e = self.store.swap_remove_at(i);
                Some(e.1)
            },
            None => {
                proof {
                    lemma_scan_absent(s0, *key);
                    assert(entries_map(s0).remove(*key) =~= entries_map(s0));
                }
                None
            },
        }
    }

    /// Resolves `key`'s slot once and returns an entry for an
    /// insert-or-update: `Occupied` at the key's index (removal swaps), or
    /// `Vacant` at the end of the store. Once the entry is done with the store,
    /// the map holds whatever the entry left there.
    pub fn entry<'a>(&'a mut self, key: K) -> (r: Entry<'a, S, K>)
        where
            K: 'a,
            V: 'a,
        requires
            old(self).wf(),
            exact_eq::<K>(),
        ensures
            r.wf(),
            match r {
                Entry::Occupied(e) => {
                    &&& old(self).map().dom().contains(key)
                    &&& e.kind == Kind::Unsorted
                    &&& e.entries() == old(self)@
                    &&& e.entries()[e.index as int].0 == key
                    &&& e.store_bound() == old(self).bound()
                    &&& final(self).store_spec() == *final(e.store)
                },
                Entry::Vacant(e) => {
                    &&& !old(self).map().dom().contains(key)
                    &&& !keys_of(old(self)@).contains(key)
                    &&& e.key == key
                    &&& e.entries() == old(self)@
                    &&& e.index == old(self)@.len()
                    &&& e.store_bound() == old(self).bound()
                    &&& final(self).store_spec() == *final(e.store)
                },
            },
    {
        let ghost s0 = self@;
        match key_position(self.store.as_slice(), &key) {
            Some(index) => {
                proof {
                    lemma_entries_map_at(s0, index as int);
                }
                Entry::Occupied(OccupiedEntry { store: &mut self.store, index, kind: Kind::Unsorted })
            },
            None => {
                proof {
                    lemma_scan_absent(s0, key);
                }
                let index = self.store.len();
                Entry::Vacant(VacantEntry { store: &mut self.store, index, key })
            },
        }
    }

    /// Inserts every entry in turn, later entries replacing earlier values for
    /// the same key. On a capacity failure the entries inserted so far are kept
    /// and the rejected entry is returned.
    pub fn try_extend(&mut self, items: Vec<(K, V)>) -> (r: Result<(), CapacityError<(K, V)>>)
        requires
            old(self).wf(),
            exact_eq::<K>(),
        ensures
            final(self).wf(),
            final(self).bound() == old(self).bound(),
            match r {
                Ok(_) => {
                    &&& final(self).map() == insert_all(old(self).map(), items@)
                    &&& final(self)@ == upsert_all(old(self)@, items@)
                },
                Err(e) => exists|k: int| {
                    &&& 0 <= k < items@.len()
                    &&& e.rejected() == items@[k]
                    &&& final(self).map() == insert_all(old(self).map(), items@.take(k))
                    &&& final(self)@ == upsert_all(old(self)@, items@.take(k))
                    &&& !final(self).map().dom().contains(items@[k].0)
                    &&& final(self).bound() == Some(final(self)@.len() as usize)
                },
            },
    {
        let ghost m0 = self.map();
        let ghost s0 = self@;
        let ghost all = items@;
        let n = items.len();
        let mut k: usize = 0;
        for item in it: items.into_iter()
            invariant
                all.len() == n,
                self.wf(),
                exact_eq::<K>(),
                self.bound() == old(self).bound(),
                m0 == old(self).map(),
                it.seq() == all,
                k == it.index(),
                k <= all.len(),
                self.map() == insert_all(m0, all.take(k as int)),
                s0 == old(self)@,
                self@ == upsert_all(s0, all.take(k as int)),
        {
            assert(item == all[k as int]);
            let (key, value) = item;
            match self.try_insert(key, value) {
                Ok(_) => {
                    assert(all.take(k + 1).drop_last() =~= all.take(k as int));
                    assert(all.take(k + 1).last() == all[k as int]);
                },
                Err(e) => {
                    assert(0 <= k < all.len() && e.rejected() == all[k as int]);
                    return Err(e);
                },
            }
            k = k + 1;
        }
        assert(all.take(k as int) =~= all);
        Ok(())
    }
}

impl<K: Eq, V, S> UnsortedMap<S> where S: StoreMut<Elem = (K, V)> + StoreNew {
    /// Builds from entries, requiring every key to be unique: each entry is
    /// checked against those kept so far, so a repeated key is rejected (the
    /// later entry handed back) before it is appended.
    pub fn try_from_iter(items: Vec<(K, V)>) -> (r: Result<Self, BuildError<(K, V)>>)
        requires
            exact_eq::<K>(),
        ensures
            match r {
                Ok(m) => {
                    &&& m.wf()
                    &&& m@ == items@
                    &&& m.bound() == S::initial_bound()
                },
                Err(e) => exists|k: int| {
                    &&& 0 <= k < items@.len()
                    &&& keys_unique(items@.take(k))
                    &&& (S::initial_bound() is None || k <= S::initial_bound().unwrap())
                    &&& match e {
                        BuildError::DuplicateKey(x) => x == items@[k] && keys_of(items@.take(k)).contains(items@[k].0),
                        BuildError::Capacity(x) => {
                            &&& x == items@[k]
                            &&& !keys_of(items@.take(k)).contains(items@[k].0)
                            &&& S::initial_bound() == Some(k as usize)
                        },
                        BuildError::Unsorted(_) => false,
                    }
                },
            },
            r is Ok <==> (keys_unique(items@) && (S::initial_bound() is None || items@.len() <= S::initial_bound().unwrap())),
    {
        let mut store = S::new();
        let ghost all = items@;
        let n = items.len();
        let mut k: usize = 0;
        for entry in it: items.into_iter()
            invariant
                exact_eq::<K>(),
                all.len() == n,
                all == items@,
                it.seq() == all,
                k == it.index(),
                k <= all.len(),
                store.well_formed(),
                store.bound() == S::initial_bound(),
                store.elems() == all.take(k as int),
                keys_unique(all.take(k as int)),
        {
            proof {
                store.lemma_within_bound();
            }
            assert(entry == all[k as int]);
            let ghost e0 = entry;
            let ghost prefix = all.take(k as int);
            match key_position(store.as_slice(), &entry.0) {
                Some(i) => {
                    proof {
                        assert(keys_of(prefix)[i as int] == e0.0);
                        assert(!keys_unique(all)) by {
                            assert(keys_of(all)[i as int] == keys_of(all)[k as int]);
                        }
                    }
                    return Err(BuildError::DuplicateKey(entry));
                },
                None => {
                    proof {
                        lemma_scan_absent(prefix, e0.0);
                    }
                },
            }
            match push(&mut store, entry) {
                Ok(()) => {
                    proof {
                        assert(all.take(k + 1) =~= prefix.push(e0));
                        lemma_entries_map_push(prefix, e0.0, e0.1);
                    }
                },
                Err(e) => {
                    proof {
                        assert(k == store.bound().unwrap());
                    }
                    return Err(BuildError::Capacity(e.into_inner()));
                },
            }
            k = k + 1;
        }
        assert(all.take(k as int) =~= all);
        proof {
            store.lemma_within_bound();
        }
        Ok(UnsortedMap { store })
    }
}

impl<K: Eq, V, S> UnsortedMap<S> where S: StoreMut<Elem = (K, V)> + Unbounded {
    /// Inserts or replaces, returning the previous value; infallible on an
    /// unbounded store.
    pub fn insert(&mut self, key: K, value: V) -> (r: Option<V>)
        requires
            old(self).wf(),
            exact_eq::<K>(),
        ensures
            final(self).wf(),
            final(self).bound() == old(self).bound(),
            r is Some <==> old(self).map().dom().contains(key),
            r matches Some(prev) ==> prev == old(self).map()[key],
            final(self).map() == old(self).map().insert(key, value),
    {
        proof {
            self.store.lemma_unbounded();
        }
        match self.try_insert(key, value) {
            Ok(prev) => prev,
            Err(_) => None,
        }
    }

    /// Inserts every entry in turn, later entries replacing earlier values;
    /// infallible on an unbounded store.
    pub fn extend(&mut self, items: Vec<(K, V)>)
        requires
            old(self).wf(),
            exact_eq::<K>(),
        ensures
            final(self).wf(),
            final(self).map() == insert_all(old(self).map(), items@),
    {
        proof {
            self.store.lemma_unbounded();
        }
        let _ = self.try_extend(items);
    }
}

} // verus!
