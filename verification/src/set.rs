//! Set collections — the ordering axis for `Elem = T`.
//!
//! [`SortedSet`] keeps its store strictly ascending (binary-search lookup);
//! [`UnsortedSet`] appends and swap-removes and needs only equality.
//!
//! Both are modelled by the sequence of their store's elements (`@`), whose
//! `to_set()` is the mathematical set they represent.

use vstd::prelude::*;
use crate::error::{BuildError, CapacityError};
use crate::algebra::{
    is_disjoint, is_subset, lemma_merge_difference, lemma_merge_intersection,
    lemma_merge_symmetric, lemma_merge_union, Difference, Intersection, SymmetricDifference,
    Union,
};
use crate::order::{
    admits_end, admits_start, range_ordered, end_index, start_index, Bound,
    ascending, compare, lemma_insert_sorted, lemma_remove_sorted, lemma_total_order, order_of,
    is_less, search_sorted, strictly_sorted, total_order, Order, chunked_contains, equal,
    exact_eq,
};
use crate::entries::{lemma_filter_kept_sorted, lemma_filter_kept_unique};
use crate::store::{
    append_all, filter_kept, push, retain_in, slice_swap, truncate_to, Store, StoreMut,
    StoreNew, Unbounded, lemma_push_unique, lemma_swap_removed, swap_removed,
};

verus! {

broadcast use vstd::seq_lib::group_to_multiset_ensures;

/// Sorts a slice ascending by `Ord` (`<[T]>::sort_unstable`): the result is a
/// permutation of the input in ascending order.
#[verifier::external_body]
fn sort_slice<T: Ord>(s: &mut [T])
    requires
        total_order::<T>(),
    ensures
        final(s)@.to_multiset() == old(s)@.to_multiset(),
        ascending(final(s)@),
{
    s.sort_unstable()
}

/// Sorts the store's elements and drops duplicates: afterwards the store is
/// strictly ascending and holds the same set of elements.
pub(crate) fn sort_dedup<S: StoreMut>(store: &mut S)
    where
        S::Elem: Ord,
    requires
        old(store).well_formed(),
        total_order::<S::Elem>(),
    ensures
        final(store).well_formed(),
        final(store).bound() == old(store).bound(),
        strictly_sorted(final(store).elems()),
        final(store).elems().to_set() == old(store).elems().to_set(),
{
    let ghost orig = store.elems();
    let s = store.as_mut_slice();
    sort_slice(s);
    let ghost sorted = s@;
    proof {
        lemma_total_order::<S::Elem>();
        assert(sorted.to_multiset().len() == orig.to_multiset().len());
        assert(sorted.len() == orig.len());
        assert(sorted.to_set() =~= orig.to_set()) by {
            assert forall|x: S::Elem| sorted.contains(x) <==> orig.contains(x) by {
                assert(sorted.to_multiset().count(x) == orig.to_multiset().count(x));
            }
        }
    }
    let n = store.len();
    if n == 0 {
        assert(store.elems() =~= Seq::<S::Elem>::empty());
        return;
    }
    let mut write: usize = 0;
    let mut read: usize = 1;
    while read < n
        invariant
            total_order::<S::Elem>(),
            store.well_formed(),
            store.bound() == old(store).bound(),
            store.elems().len() == n,
            sorted.len() == n,
            ascending(sorted),
            0 <= write < read <= n,
            strictly_sorted(store.elems().subrange(0, write + 1)),
            store.elems().subrange(0, write + 1).to_set() == sorted.subrange(0, read as int).to_set(),
            store.elems()[write as int] == sorted[read - 1],
            store.elems().subrange(read as int, n as int) == sorted.subrange(read as int, n as int),
        decreases n - read,
    {
        proof {
            lemma_total_order::<S::Elem>();
        }
        let ghost before = store.elems();
        assert(before[read as int] == sorted[read as int]) by {
            assert(before.subrange(read as int, n as int)[0] == before[read as int]);
        }
        let o = compare(&store.as_slice()[read], &store.as_slice()[write]);
        let ghost x = sorted[read as int];
        let ghost prefix_old = before.subrange(0, write + 1);
        if o != Order::Equal {
            proof {
                assert(!is_less(sorted[read as int], sorted[read - 1]));
                assert(o == order_of(x, before[write as int]));
                if o == Order::Less {
                    assert(is_less(x, before[write as int]));
                    assert(false);
                }
                assert(o == Order::Greater);
                assert(is_less(before[write as int], x));
            }
            write = write + 1;
            if write != read {
                let s = store.as_mut_slice();
                slice_swap(s, write, read);
            }
            proof {
                let now = store.elems();
                assert(now.subrange(0, write + 1) =~= prefix_old.push(x));
                assert forall|a: int, b: int| 0 <= a < b < write + 1 implies #[trigger] is_less(now.subrange(0, write + 1)[a], now.subrange(0, write + 1)[b]) by {
                    if b == write {
                        if a < write - 1 {
                            assert(is_less(prefix_old[a], prefix_old[write - 1]));
                        }
                    } else {
                        assert(is_less(prefix_old[a], prefix_old[b]));
                    }
                }
                assert(sorted.subrange(0, read + 1) =~= sorted.subrange(0, read as int).push(x));
                prefix_old.lemma_push_to_set_commute(x);
                sorted.subrange(0, read as int).lemma_push_to_set_commute(x);
                assert(now.subrange(read + 1, n as int) =~= sorted.subrange(read + 1, n as int)) by {
                    assert forall|k: int| read + 1 <= k < n implies now[k] == sorted[k] by {
                        assert(before.subrange(read as int, n as int)[k - read] == before[k]);
                    }
                }
            }
        } else {
            proof {
                assert(o == order_of(x, before[write as int]));
                assert(x == before[write as int]);
                assert(sorted.subrange(0, read + 1) =~= sorted.subrange(0, read as int).push(x));
                assert(sorted.subrange(0, read as int).contains(x)) by {
                    assert(sorted.subrange(0, read as int)[read - 1] == x);
                }
                assert(sorted.subrange(0, read as int).push(x).to_set() =~= sorted.subrange(0, read as int).to_set());
                assert(before.subrange(read + 1, n as int) =~= sorted.subrange(read + 1, n as int)) by {
                    assert forall|k: int| read + 1 <= k < n implies before[k] == sorted[k] by {
                        assert(before.subrange(read as int, n as int)[k - read] == before[k]);
                    }
                }
            }
        }
        read = read + 1;
    }
    truncate_to(store, write + 1);
    assert(sorted.subrange(0, n as int) =~= sorted);
}

/// A set kept sorted in its backing store; lookup is a binary search.
#[derive(Clone, Debug, PartialEq, Eq, PartialOrd, Ord, Hash)]
pub struct SortedSet<S> {
    store: S,
}

impl<S: Store> View for SortedSet<S> {
    type V = Seq<S::Elem>;

    /// The elements in stored (ascending) order.
    closed spec fn view(&self) -> Seq<S::Elem> {
        self.store.elems()
    }
}

impl<S: Store> SortedSet<S> {
    /// The backing store is well formed.
    pub closed spec fn inv(&self) -> bool {
        self.store.well_formed()
    }

    /// The backing store.
    pub closed spec fn store_spec(&self) -> S {
        self.store
    }

    /// The logical capacity.
    pub closed spec fn bound(&self) -> Option<usize> {
        self.store.bound()
    }

    /// The view, the invariant and the bound, in terms of the backing store.
    pub proof fn lemma_store(&self)
        ensures
            self@ == self.store_spec().elems(),
            self.inv() == self.store_spec().well_formed(),
            self.bound() == self.store_spec().bound(),
    {
    }

    /// A well-formed store never holds more elements than its bound.
    pub proof fn lemma_within_bound(&self)
        requires
            self.inv(),
        ensures
            self.bound() is Some ==> self@.len() <= self.bound().unwrap(),
    {
        self.store.lemma_within_bound();
    }
}

impl<S: Store> SortedSet<S> where S::Elem: Ord {
    /// The set invariant: a well-formed store in strictly ascending order.
    pub open spec fn wf(&self) -> bool {
        &&& self.inv()
        &&& strictly_sorted(self@)
    }

    /// Keeping some of a well-formed set's elements, in their order, gives a
    /// well-formed set: what [`retain`](Self::retain) leaves is one.
    pub proof fn lemma_kept_is_wf(before: &Self, after: &Self, keep: Seq<bool>)
        requires
            total_order::<S::Elem>(),
            before.wf(),
            after.inv(),
            after@ == filter_kept(before@, keep),
        ensures
            after.wf(),
    {
        lemma_filter_kept_sorted(before@, keep);
    }
}

impl<S: StoreNew> SortedSet<S> {
    /// Creates an empty set.
    pub fn new() -> (s: Self)
        ensures
            s.inv(),
            s@ == Seq::<S::Elem>::empty(),
            s.bound() == S::initial_bound(),
    {
        SortedSet { store: S::new() }
    }
}

impl<S: StoreNew> Default for SortedSet<S> {
    fn default() -> (s: Self)
        ensures
            s.inv(),
            s@ == Seq::<S::Elem>::empty(),
    {
        Self::new()
    }
}

impl<S: Store> SortedSet<S> {
    /// Wraps a store whose elements are already strictly ascending (sorted and
    /// free of duplicates). No sort is performed.
    pub fn from_store(store: S) -> (s: Self)
        where
            S::Elem: Ord,
        requires
            store.well_formed(),
            strictly_sorted(store.elems()),
        ensures
            s.wf(),
            s@ == store.elems(),
            s.store_spec() == store,
            s.bound() == store.bound(),
    {
        SortedSet { store }
    }

    /// Borrows the backing store.
    pub fn store(&self) -> (s: &S)
        ensures
            *s == self.store_spec(),
            s.elems() == self@,
    {
        &self.store
    }

    /// Consumes the set and hands back its store, elements still ascending.
    pub fn into_store(self) -> (s: S)
        ensures
            s == self.store_spec(),
            s.elems() == self@,
    {
        self.store
    }

    /// The number of elements.
    pub fn len(&self) -> (n: usize)
        requires
            self.inv(),
        ensures
            n == self@.len(),
    {
        self.store.len()
    }

    /// Whether the set is empty.
    pub fn is_empty(&self) -> (b: bool)
        requires
            self.inv(),
        ensures
            b == (self@.len() == 0),
    {
        self.store.is_empty()
    }

    /// The logical capacity, or `None` if unbounded.
    pub fn capacity(&self) -> (c: Option<usize>)
        requires
            self.inv(),
        ensures
            c == self.bound(),
    {
        self.store.max_capacity()
    }

    /// The elements as a slice, in ascending order.
    pub fn as_slice(&self) -> (s: &[S::Elem])
        requires
            self.inv(),
        ensures
            s@ == self@,
    {
        self.store.as_slice()
    }

    /// Iterates the elements in ascending order.
    pub fn iter(&self) -> (it: core::slice::Iter<'_, S::Elem>)
        requires
            self.inv(),
        ensures
            vstd::std_specs::slice::into_iter_elts(it) == self@,
    {
        broadcast use vstd::std_specs::slice::axiom_spec_slice_iter;
        self.store.as_slice().iter()
    }

    /// The smallest element, or `None` if empty.
    pub fn first(&self) -> (r: Option<&S::Elem>)
        requires
            self.inv(),
        ensures
            r is None <==> self@.len() == 0,
            r matches Some(x) ==> *x == self@[0],
    {
        self.store.as_slice().first()
    }

    /// The largest element, or `None` if empty.
    pub fn last(&self) -> (r: Option<&S::Elem>)
        requires
            self.inv(),
        ensures
            r is None <==> self@.len() == 0,
            r matches Some(x) ==> *x == self@.last(),
    {
        self.store.as_slice().last()
    }

    /// Whether `value` is in the set.
    pub fn contains(&self, value: &S::Elem) -> (b: bool)
        where
            S::Elem: Ord,
        requires
            self.wf(),
            total_order::<S::Elem>(),
        ensures
            b == self@.contains(*value),
    {
        let r = search_sorted(self.store.as_slice(), value);
        proof {
            if r is Err {
                if self@.contains(*value) {
                    let k = choose|k: int| 0 <= k < self@.len() && self@[k] == *value;
                    lemma_total_order::<S::Elem>();
                    assert(order_of(*value, *value) == Order::Equal);
                }
            }
        }
        r.is_ok()
    }
}

impl<S: Store> SortedSet<S> where S::Elem: Ord {
    /// The elements within the range `start..end`, as a subslice of the sorted
    /// store. The range must not be inverted: no element may lie before the
    /// start and after the end at once.
    pub fn range(&self, start: Bound<&S::Elem>, end: Bound<&S::Elem>) -> (r: &[S::Elem])
        requires
            self.wf(),
            total_order::<S::Elem>(),
            range_ordered(start, end),
            forall|k: int| 0 <= k < self@.len() ==> admits_start(start, #[trigger] self@[k]) || admits_end(end, self@[k]),
        ensures
            exists|i: int, j: int| {
                &&& 0 <= i <= j <= self@.len()
                &&& r@ == self@.subrange(i, j)
                &&& forall|k: int| 0 <= k < self@.len() ==> ((i <= k < j) <==> (admits_start(start, #[trigger] self@[k]) && admits_end(end, self@[k])))
            },
    {
        let s = self.store.as_slice();
        let i = start_index(s, start);
        let j = end_index(s, end);
        if i > j {
            assert(!admits_start(start, s@[j as int]) && !admits_end(end, s@[j as int]));
        }
        let (head, _) = s.split_at(j);
        let (_, mid) = head.split_at(i);
        assert(mid@ =~= self@.subrange(i as int, j as int));
        mid
    }

    /// Whether every element of `self` is in `other`.
    pub fn is_subset<S2: Store<Elem = S::Elem>>(&self, other: &SortedSet<S2>) -> (b: bool)
        requires
            self.wf(),
            other.wf(),
            total_order::<S::Elem>(),
        ensures
            b == self@.to_set().subset_of(other@.to_set()),
    {
        is_subset(self.store.as_slice(), other.store.as_slice())
    }

    /// Whether every element of `other` is in `self`.
    pub fn is_superset<S2: Store<Elem = S::Elem>>(&self, other: &SortedSet<S2>) -> (b: bool)
        requires
            self.wf(),
            other.wf(),
            total_order::<S::Elem>(),
        ensures
            b == other@.to_set().subset_of(self@.to_set()),
    {
        other.is_subset(self)
    }

    /// Whether `self` and `other` share no element.
    pub fn is_disjoint<S2: Store<Elem = S::Elem>>(&self, other: &SortedSet<S2>) -> (b: bool)
        requires
            self.wf(),
            other.wf(),
            total_order::<S::Elem>(),
        ensures
            b == self@.to_set().disjoint(other@.to_set()),
    {
        is_disjoint(self.store.as_slice(), other.store.as_slice())
    }

    /// Iterates the elements in `self`, `other`, or both, ascending, each once.
    pub fn union<'a, S2: Store<Elem = S::Elem>>(&'a self, other: &'a SortedSet<S2>) -> (it: Union<'a, S::Elem>)
        requires
            self.wf(),
            other.wf(),
            total_order::<S::Elem>(),
        ensures
            it.wf(),
            it.left() == self@,
            it.right() == other@,
            strictly_sorted(it.remaining()),
            it.remaining().to_set() == self@.to_set() + other@.to_set(),
    {
        proof {
            lemma_merge_union(self@, other@);
        }
        Union::new(self.store.as_slice(), other.store.as_slice())
    }

    /// Iterates the elements in both `self` and `other`, ascending.
    pub fn intersection<'a, S2: Store<Elem = S::Elem>>(&'a self, other: &'a SortedSet<S2>) -> (it: Intersection<'a, S::Elem>)
        requires
            self.wf(),
            other.wf(),
            total_order::<S::Elem>(),
        ensures
            it.wf(),
            it.left() == self@,
            it.right() == other@,
            strictly_sorted(it.remaining()),
            it.remaining().to_set() == self@.to_set().intersect(other@.to_set()),
    {
        proof {
            lemma_merge_intersection(self@, other@);
        }
        Intersection::new(self.store.as_slice(), other.store.as_slice())
    }

    /// Iterates the elements in `self` but not `other`, ascending.
    pub fn difference<'a, S2: Store<Elem = S::Elem>>(&'a self, other: &'a SortedSet<S2>) -> (it: Difference<'a, S::Elem>)
        requires
            self.wf(),
            other.wf(),
            total_order::<S::Elem>(),
        ensures
            it.wf(),
            it.left() == self@,
            it.right() == other@,
            strictly_sorted(it.remaining()),
            it.remaining().to_set() == self@.to_set().difference(other@.to_set()),
    {
        proof {
            lemma_merge_difference(self@, other@);
        }
        Difference::new(self.store.as_slice(), other.store.as_slice())
    }

    /// Iterates the elements in exactly one of `self` and `other`, ascending.
    pub fn symmetric_difference<'a, S2: Store<Elem = S::Elem>>(&'a self, other: &'a SortedSet<S2>) -> (it: SymmetricDifference<'a, S::Elem>)
        requires
            self.wf(),
            other.wf(),
            total_order::<S::Elem>(),
        ensures
            it.wf(),
            it.left() == self@,
            it.right() == other@,
            strictly_sorted(it.remaining()),
            it.remaining().to_set() == self@.to_set().difference(other@.to_set()) + other@.to_set().difference(self@.to_set()),
    {
        proof {
            lemma_merge_symmetric(self@, other@);
        }
        SymmetricDifference::new(self.store.as_slice(), other.store.as_slice())
    }
}

impl<S: StoreMut> SortedSet<S> {
    /// Removes every element.
    pub fn clear(&mut self)
        requires
            old(self).inv(),
        ensures
            final(self).inv(),
            final(self)@ == Seq::<S::Elem>::empty(),
            final(self).bound() == old(self).bound(),
    {
        self.store.clear();
    }

    /// Pre-allocates room for `additional` more elements; the set is unchanged.
    pub fn reserve(&mut self, additional: usize)
        requires
            old(self).inv(),
        ensures
            final(self).inv(),
            final(self)@ == old(self)@,
            final(self).bound() == old(self).bound(),
    {
        self.store.reserve(additional);
    }

    /// Keeps only the elements for which `f` returns `true`, preserving order.
    /// Each element is shown to `f` once, in ascending order.
    pub fn retain<F: FnMut(&S::Elem) -> bool>(&mut self, f: F)
        requires
            old(self).inv(),
            forall|x: &S::Elem| call_requires(f, (x,)),
        ensures
            final(self).inv(),
            final(self).bound() == old(self).bound(),
            exists|keep: Seq<bool>| {
                &&& keep.len() == old(self)@.len()
                &&& forall|i: int| 0 <= i < keep.len() ==> call_ensures(f, (&old(self)@[i],), #[trigger] keep[i])
                &&& final(self)@ == filter_kept(old(self)@, keep)
            },
    {
        retain_in(&mut self.store, f);
    }
}

impl<S: StoreMut> SortedSet<S> where S::Elem: Ord {
    /// Inserts `value` in order. `Ok(true)` if newly added, `Ok(false)` if it
    /// was already present (a duplicate consumes no capacity and never errors);
    /// `Err` hands `value` back when it is new and the store is full.
    pub fn try_insert(&mut self, value: S::Elem) -> (r: Result<bool, CapacityError<S::Elem>>)
        requires
            old(self).wf(),
            total_order::<S::Elem>(),
        ensures
            final(self).wf(),
            final(self).bound() == old(self).bound(),
            match r {
                Ok(true) => {
                    &&& !old(self)@.contains(value)
                    &&& final(self)@.to_set() == old(self)@.to_set().insert(value)
                    &&& final(self)@.len() == old(self)@.len() + 1
                },
                Ok(false) => old(self)@.contains(value) && final(self)@ == old(self)@,
                Err(e) => {
                    &&& e.rejected() == value
                    &&& !old(self)@.contains(value)
                    &&& final(self)@ == old(self)@
                    &&& old(self).bound() == Some(old(self)@.len() as usize)
                },
            },
            r is Err <==> (!old(self)@.contains(value) && old(self).bound() == Some(old(self)@.len() as usize)),
    {
        let ghost s0 = self@;
        match search_sorted(self.store.as_slice(), &value) {
            Ok(_) => Ok(false),
            Err(i) => {
                proof {
                    lemma_total_order::<S::Elem>();
                    assert(!s0.contains(value)) by {
                        if s0.contains(value) {
                            let k = choose|k: int| 0 <= k < s0.len() && s0[k] == value;
                            assert(order_of(value, value) == Order::Equal);
                        }
                    }
                    self.store.lemma_within_bound();
                }
                match self.store.try_insert_at(i, value) {
                    Ok(()) => {
                        proof {
                            lemma_insert_sorted(s0, i as int, value);
                            self.store.lemma_within_bound();
                        }
                        Ok(true)
                    },
                    Err(e) => Err(e),
                }
            },
        }
    }

    /// Removes `value`, returning whether it was present; order preserved.
    pub fn remove(&mut self, value: &S::Elem) -> (b: bool)
        requires
            old(self).wf(),
            total_order::<S::Elem>(),
        ensures
            final(self).wf(),
            final(self).bound() == old(self).bound(),
            b == old(self)@.contains(*value),
            final(self)@.to_set() == old(self)@.to_set().remove(*value),
    {
        let ghost s0 = self@;
        match search_sorted(self.store.as_slice(), value) {
            Ok(i) => {
                self.store.remove_at(i);
                proof {
                    lemma_remove_sorted(s0, i as int);
                }
                true
            },
            Err(_) => {
                proof {
                    lemma_total_order::<S::Elem>();
                    assert(!s0.contains(*value)) by {
                        if s0.contains(*value) {
                            let k = choose|k: int| 0 <= k < s0.len() && s0[k] == *value;
                            assert(order_of(*value, *value) == Order::Equal);
                        }
                    }
                    assert(s0.to_set().remove(*value) =~= s0.to_set());
                }
                false
            },
        }
    }

    /// Inserts every item, one at a time; duplicates never consume capacity.
    /// On a capacity failure the items inserted so far are kept and the
    /// rejected item is returned.
    pub fn try_extend(&mut self, items: Vec<S::Elem>) -> (r: Result<(), CapacityError<S::Elem>>)
        requires
            old(self).wf(),
            total_order::<S::Elem>(),
        ensures
            final(self).wf(),
            final(self).bound() == old(self).bound(),
            match r {
                Ok(_) => final(self)@.to_set() == old(self)@.to_set() + items@.to_set(),
                Err(e) => exists|k: int| {
                    &&& 0 <= k < items@.len()
                    &&& e.rejected() == items@[k]
                    &&& final(self)@.to_set() == old(self)@.to_set() + items@.take(k).to_set()
                    &&& !final(self)@.contains(items@[k])
                    &&& final(self).bound() == Some(final(self)@.len() as usize)
                },
            },
    {
        let ghost s0 = self@;
        let ghost all = items@;
        let n = items.len();
        let mut k: usize = 0;
        for value in it: items.into_iter()
            invariant
                all.len() == n,
                self.wf(),
                total_order::<S::Elem>(),
                self.bound() == old(self).bound(),
                s0 == old(self)@,
                it.seq() == all,
                k == it.index(),
                k <= all.len(),
                self@.to_set() == s0.to_set() + all.take(k as int).to_set(),
        {
            assert(value == all[k as int]);
            let ghost before = self@;
            match self.try_insert(value) {
                Ok(_) => {
                    proof {
                        assert(all.take(k + 1) =~= all.take(k as int).push(value));
                        all.take(k as int).lemma_push_to_set_commute(value);
                        assert(self@.to_set() =~= before.to_set().insert(value)) by {
                            if before.contains(value) {
                                assert(before.to_set().insert(value) =~= before.to_set());
                            }
                        }
                        assert(self@.to_set() =~= s0.to_set() + all.take(k + 1).to_set());
                    }
                },
                Err(e) => {
                    assert(0 <= k < all.len() && e.rejected() == all[k as int]);
                    return Err(e);
                },
            }
            k = k + 1;
        }
        assert(all.take(k as int) =~= all);
        Ok(())
    }
}

impl<S: StoreMut + StoreNew> SortedSet<S> where S::Elem: Ord {
    /// Builds from arbitrary items: append every item, then sort and drop
    /// duplicates once. Items are appended before the dedup pass, so on a
    /// bounded store a duplicate-heavy input can overflow even when the
    /// deduplicated set would fit.
    pub fn try_from_iter(items: Vec<S::Elem>) -> (r: Result<Self, CapacityError<S::Elem>>)
        requires
            total_order::<S::Elem>(),
        ensures
            match r {
                Ok(set) => {
                    &&& set.wf()
                    &&& set@.to_set() == items@.to_set()
                    &&& set.bound() == S::initial_bound()
                    &&& (S::initial_bound() matches Some(b) ==> items@.len() <= b)
                },
                Err(e) => {
                    &&& S::initial_bound() is Some
                    &&& items@.len() > S::initial_bound().unwrap()
                    &&& e.rejected() == items@[S::initial_bound().unwrap() as int]
                },
            },
    {
        let mut store = S::new();
        match append_all(&mut store, items) {
            Ok(()) => {},
            Err(e) => {
                proof {
                    store.lemma_within_bound();
                }
                return Err(e);
            },
        }
        proof {
            store.lemma_within_bound();
        }
        sort_dedup(&mut store);
        assert(Seq::<S::Elem>::empty() + items@ =~= items@);
        Ok(SortedSet { store })
    }

    /// Builds from items already in ascending order: no sort, an append per
    /// distinct item (equal neighbours are dropped). An item smaller than its
    /// predecessor is rejected as [`BuildError::Unsorted`]; a bounded store
    /// that fills yields [`BuildError::Capacity`].
    pub fn try_from_sorted_iter(items: Vec<S::Elem>) -> (r: Result<Self, BuildError<S::Elem>>)
        requires
            total_order::<S::Elem>(),
        ensures
            match r {
                Ok(set) => {
                    &&& set.wf()
                    &&& ascending(items@)
                    &&& set@.to_set() == items@.to_set()
                    &&& set.bound() == S::initial_bound()
                },
                Err(BuildError::Unsorted(x)) => exists|k: int| {
                    &&& 0 < k < items@.len()
                    &&& x == items@[k]
                    &&& is_less(items@[k], items@[k - 1])
                    &&& ascending(items@.take(k))
                },
                Err(BuildError::Capacity(x)) => exists|k: int| {
                    &&& 0 <= k < items@.len()
                    &&& x == items@[k]
                    &&& ascending(items@.take(k + 1))
                    &&& !items@.take(k).contains(x)
                    &&& S::initial_bound() == Some(unique_count(items@.take(k)) as usize)
                },
                Err(BuildError::DuplicateKey(_)) => false,
            },
    {
        let mut store = S::new();
        let ghost all = items@;
        let total = items.len();
        let mut k: usize = 0;
        assert(all.take(0).to_set() =~= Set::<S::Elem>::empty());
        for value in it: items.into_iter()
            invariant
                all.len() == total,
                total_order::<S::Elem>(),
                store.well_formed(),
                store.bound() == S::initial_bound(),
                it.seq() == all,
                k == it.index(),
                k <= all.len(),
                ascending(all.take(k as int)),
                strictly_sorted(store.elems()),
                store.elems().to_set() == all.take(k as int).to_set(),
                store.elems().len() == unique_count(all.take(k as int)),
                k > 0 ==> store.elems().len() > 0 && store.elems().last() == all[k - 1],
                k == 0 ==> store.elems().len() == 0,
        {
            proof {
                lemma_total_order::<S::Elem>();
            }
            assert(value == all[k as int]);
            let n = store.len();
            let ghost before = store.elems();
            let mut duplicate = false;
            if n > 0 {
                let o = compare(&value, &store.as_slice()[n - 1]);
                match o {
                    Order::Less => {
                        assert(o == order_of(value, before[n - 1]));
                        assert(is_less(all[k as int], all[k - 1]));
                        return Err(BuildError::Unsorted(value));
                    },
                    Order::Equal => {
                        assert(o == order_of(value, before[n - 1]));
                        duplicate = true;
                    },
                    Order::Greater => {
                        assert(o == order_of(value, before[n - 1]));
                        assert(is_less(before[n - 1], value));
                    },
                }
            }
            proof {
                lemma_ascending_push(all.take(k as int), value);
                assert(all.take(k + 1) =~= all.take(k as int).push(value));
                lemma_unique_count_push(all.take(k as int), value);
            }
            if !duplicate {
                proof {
                    assert(!all.take(k as int).contains(value)) by {
                        if all.take(k as int).contains(value) {
                            assert(before.to_set().contains(value));
                            let j = choose|j: int| 0 <= j < before.len() && before[j] == value;
                            if j < n - 1 {
                                assert(is_less(before[j], before[n - 1]));
                            }
                        }
                    }
                }
                match push(&mut store, value) {
                    Ok(()) => {
                        proof {
                            assert forall|a: int, b: int| 0 <= a < b < store.elems().len() implies #[trigger] is_less(store.elems()[a], store.elems()[b]) by {
                                if b == n {
                                    assert(is_less(before[n - 1], value));
                                    if a < n - 1 {
                                        assert(is_less(before[a], before[n - 1]));
                                    }
                                } else {
                                    assert(is_less(before[a], before[b]));
                                }
                            }
                            before.lemma_push_to_set_commute(value);
                            all.take(k as int).lemma_push_to_set_commute(value);
                        }
                    },
                    Err(e) => {
                        proof {
                            store.lemma_within_bound();
                        }
                        assert(0 <= k < all.len() && value == all[k as int]);
                        return Err(BuildError::Capacity(e.into_inner()));
                    },
                }
            } else {
                proof {
                    assert(value == before[n - 1]);
                    assert(all.take(k as int).contains(value)) by {
                        assert(before.to_set().contains(value));
                    }
                    assert(all.take(k as int).push(value).to_set() =~= all.take(k as int).to_set());
                }
            }
            k = k + 1;
        }
        assert(all.take(k as int) =~= all);
        Ok(SortedSet { store })
    }
}

impl<S: StoreMut + Unbounded> SortedSet<S> where S::Elem: Ord {
    /// Inserts `value`, returning whether it was newly added; infallible on an
    /// unbounded store.
    pub fn insert(&mut self, value: S::Elem) -> (b: bool)
        requires
            old(self).wf(),
            total_order::<S::Elem>(),
        ensures
            final(self).wf(),
            b == !old(self)@.contains(value),
            final(self)@.to_set() == old(self)@.to_set().insert(value),
    {
        proof {
            self.store.lemma_unbounded();
        }
        let ghost s0 = self@;
        match self.try_insert(value) {
            Ok(b) => {
                proof {
                    if !b {
                        assert(s0.to_set().insert(value) =~= s0.to_set());
                    }
                }
                b
            },
            Err(_) => false,
        }
    }

    /// Appends every item, then sorts and drops duplicates once.
    pub fn extend(&mut self, items: Vec<S::Elem>)
        requires
            old(self).wf(),
            total_order::<S::Elem>(),
        ensures
            final(self).wf(),
            final(self)@.to_set() == old(self)@.to_set() + items@.to_set(),
    {
        proof {
            self.store.lemma_unbounded();
        }
        let ghost s0 = self@;
        let ghost all = items@;
        match append_all(&mut self.store, items) {
            Ok(()) => {},
            Err(_) => {},
        }
        proof {
            vstd::seq_lib::seq_to_set_distributes_over_add(s0, all);
        }
        sort_dedup(&mut self.store);
    }
}

impl<S: StoreMut + StoreNew + Unbounded> SortedSet<S> where S::Elem: Ord {
    /// Builds from items in ascending order (duplicates allowed, and dropped).
    /// The items must be in ascending order.
    pub fn from_sorted_iter(items: Vec<S::Elem>) -> (set: Self)
        requires
            total_order::<S::Elem>(),
            ascending(items@),
        ensures
            set.wf(),
            set@.to_set() == items@.to_set(),
    {
        let ghost all = items@;
        let fresh = S::new();
        proof {
            fresh.lemma_unbounded();
        }
        match Self::try_from_sorted_iter(items) {
            Ok(set) => set,
            Err(e) => {
                proof {
                    assert(false) by {
                        match e {
                            BuildError::Unsorted(x) => {
                                let k = choose|k: int| {
                                    &&& 0 < k < all.len()
                                    &&& x == all[k]
                                    &&& is_less(all[k], all[k - 1])
                                    &&& ascending(all.take(k))
                                };
                                assert(!is_less(all[k], all[k - 1]));
                            },
                            BuildError::Capacity(_) => {},
                            BuildError::DuplicateKey(_) => {},
                        }
                    }
                }
                Self::new()
            },
        }
    }
}

/// A set with no ordering: membership is a linear scan, insert appends,
/// delete swap-removes. Needs only equality of its elements.
#[derive(Clone, Debug)]
pub struct UnsortedSet<S> {
    store: S,
}

impl<S: Store> View for UnsortedSet<S> {
    type V = Seq<S::Elem>;

    /// The elements in stored order.
    closed spec fn view(&self) -> Seq<S::Elem> {
        self.store.elems()
    }
}

impl<S: Store> UnsortedSet<S> {
    /// The backing store is well formed.
    pub closed spec fn inv(&self) -> bool {
        self.store.well_formed()
    }

    /// The backing store.
    pub closed spec fn store_spec(&self) -> S {
        self.store
    }

    /// The logical capacity.
    pub closed spec fn bound(&self) -> Option<usize> {
        self.store.bound()
    }

    /// The view, the invariant and the bound, in terms of the backing store.
    pub proof fn lemma_store(&self)
        ensures
            self@ == self.store_spec().elems(),
            self.inv() == self.store_spec().well_formed(),
            self.bound() == self.store_spec().bound(),
    {
    }

    /// A well-formed store never holds more elements than its bound.
    pub proof fn lemma_within_bound(&self)
        requires
            self.inv(),
        ensures
            self.bound() is Some ==> self@.len() <= self.bound().unwrap(),
    {
        self.store.lemma_within_bound();
    }

    /// The set invariant: a well-formed store free of duplicates.
    pub open spec fn wf(&self) -> bool {
        &&& self.inv()
        &&& self@.no_duplicates()
    }
}

impl<S: StoreNew> UnsortedSet<S> {
    /// Creates an empty set.
    pub fn new() -> (s: Self)
        ensures
            s.wf(),
            s@ == Seq::<S::Elem>::empty(),
            s.bound() == S::initial_bound(),
    {
        UnsortedSet { store: S::new() }
    }
}

impl<S: StoreNew> Default for UnsortedSet<S> {
    fn default() -> (s: Self)
        ensures
            s.wf(),
            s@ == Seq::<S::Elem>::empty(),
    {
        Self::new()
    }
}

impl<S: Store> UnsortedSet<S> {
    /// Wraps a store whose elements are free of duplicates. No scan is performed.
    pub fn from_store(store: S) -> (s: Self)
        requires
            store.well_formed(),
            store.elems().no_duplicates(),
        ensures
            s.wf(),
            s@ == store.elems(),
            s.store_spec() == store,
            s.bound() == store.bound(),
    {
        UnsortedSet { store }
    }

    /// Borrows the backing store.
    pub fn store(&self) -> (s: &S)
        ensures
            *s == self.store_spec(),
            s.elems() == self@,
    {
        &self.store
    }

    /// Consumes the set and hands back its store.
    pub fn into_store(self) -> (s: S)
        ensures
            s == self.store_spec(),
            s.elems() == self@,
    {
        self.store
    }

    /// The number of elements.
    pub fn len(&self) -> (n: usize)
        requires
            self.inv(),
        ensures
            n == self@.len(),
    {
        self.store.len()
    }

    /// Whether the set is empty.
    pub fn is_empty(&self) -> (b: bool)
        requires
            self.inv(),
        ensures
            b == (self@.len() == 0),
    {
        self.store.is_empty()
    }

    /// The logical capacity, or `None` if unbounded.
    pub fn capacity(&self) -> (c: Option<usize>)
        requires
            self.inv(),
        ensures
            c == self.bound(),
    {
        self.store.max_capacity()
    }

    /// The elements as a slice, in stored order.
    pub fn as_slice(&self) -> (s: &[S::Elem])
        requires
            self.inv(),
        ensures
            s@ == self@,
    {
        self.store.as_slice()
    }

    /// Iterates the elements in stored order.
    pub fn iter(&self) -> (it: core::slice::Iter<'_, S::Elem>)
        requires
            self.inv(),
        ensures
            vstd::std_specs::slice::into_iter_elts(it) == self@,
    {
        broadcast use vstd::std_specs::slice::axiom_spec_slice_iter;
        self.store.as_slice().iter()
    }

    /// Whether `value` is in the set (a linear scan).
    pub fn contains(&self, value: &S::Elem) -> (b: bool)
        where
            S::Elem: Eq,
        requires
            self.inv(),
            exact_eq::<S::Elem>(),
        ensures
            b == self@.contains(*value),
    {
        chunked_contains(self.store.as_slice(), value)
    }

    /// Whether every element of `self` is in `other`: a membership scan per
    /// element, after a length check.
    pub fn is_subset<S2: Store<Elem = S::Elem>>(&self, other: &UnsortedSet<S2>) -> (b: bool)
        where
            S::Elem: Eq,
        requires
            self.wf(),
            other.wf(),
            exact_eq::<S::Elem>(),
        ensures
            b == self@.to_set().subset_of(other@.to_set()),
    {
        if self.len() > other.len() {
            proof {
                self@.unique_seq_to_set();
                other@.unique_seq_to_set();
                broadcast use vstd::seq_lib::seq_to_set_is_finite;
                if self@.to_set().subset_of(other@.to_set()) {
                    vstd::set_lib::lemma_len_subset(self@.to_set(), other@.to_set());
                }
            }
            return false;
        }
        let s = self.store.as_slice();
        let n = s.len();
        let mut i: usize = 0;
        while i < n
            invariant
                exact_eq::<S::Elem>(),
                other.inv(),
                s@ == self@,
                n == s@.len(),
                i <= n,
                forall|k: int| 0 <= k < i ==> other@.contains(#[trigger] s@[k]),
            decreases n - i,
        {
            if !other.contains(&s[i]) {
                assert(self@.to_set().contains(s@[i as int]));
                return false;
            }
            i = i + 1;
        }
        assert(self@.to_set().subset_of(other@.to_set())) by {
            assert forall|x: S::Elem| self@.to_set().contains(x) implies other@.to_set().contains(x) by {
                let k = choose|k: int| 0 <= k < self@.len() && self@[k] == x;
                assert(other@.contains(s@[k]));
            }
        }
        true
    }

    /// Whether every element of `other` is in `self`.
    pub fn is_superset<S2: Store<Elem = S::Elem>>(&self, other: &UnsortedSet<S2>) -> (b: bool)
        where
            S::Elem: Eq,
        requires
            self.wf(),
            other.wf(),
            exact_eq::<S::Elem>(),
        ensures
            b == other@.to_set().subset_of(self@.to_set()),
    {
        other.is_subset(self)
    }

    /// Whether `self` and `other` share no element, scanning with the smaller
    /// set on the outside.
    pub fn is_disjoint<S2: Store<Elem = S::Elem>>(&self, other: &UnsortedSet<S2>) -> (b: bool)
        where
            S::Elem: Eq,
        requires
            self.inv(),
            other.inv(),
            exact_eq::<S::Elem>(),
        ensures
            b == self@.to_set().disjoint(other@.to_set()),
    {
        if self.len() <= other.len() {
            let r = no_common(self.store.as_slice(), other.store.as_slice());
            r
        } else {
            let r = no_common(other.store.as_slice(), self.store.as_slice());
            assert(other@.to_set().disjoint(self@.to_set()) == self@.to_set().disjoint(other@.to_set()));
            r
        }
    }
}

/// Whether no element of `outer` occurs in `inner`.
fn no_common<T: PartialEq>(outer: &[T], inner: &[T]) -> (r: bool)
    requires
        exact_eq::<T>(),
    ensures
        r == outer@.to_set().disjoint(inner@.to_set()),
{
    let n = outer.len();
    let mut i: usize = 0;
    while i < n
        invariant
            exact_eq::<T>(),
            n == outer@.len(),
            i <= n,
            forall|k: int| 0 <= k < i ==> !inner@.contains(#[trigger] outer@[k]),
        decreases n - i,
    {
        if chunked_contains(inner, &outer[i]) {
            assert(outer@.to_set().contains(outer@[i as int]));
            assert(inner@.to_set().contains(outer@[i as int]));
            return false;
        }
        i = i + 1;
    }
    assert forall|x: T| !(outer@.to_set().contains(x) && inner@.to_set().contains(x)) by {
        if outer@.contains(x) {
            let k = choose|k: int| 0 <= k < outer@.len() && outer@[k] == x;
            assert(!inner@.contains(outer@[k]));
        }
    }
    true
}

/// The index of the first element of `s` equal to `x`.
fn position_of<T: PartialEq>(s: &[T], x: &T) -> (r: Option<usize>)
    requires
        exact_eq::<T>(),
    ensures
        match r {
            Some(i) => i < s@.len() && s@[i as int] == *x && forall|k: int| 0 <= k < i ==> s@[k] != *x,
            None => !s@.contains(*x),
        },
{
    let n = s.len();
    let mut i: usize = 0;
    while i < n
        invariant
            exact_eq::<T>(),
            n == s@.len(),
            i <= n,
            forall|k: int| 0 <= k < i ==> s@[k] != *x,
        decreases n - i,
    {
        if equal(&s[i], x) {
            return Some(i);
        }
        i = i + 1;
    }
    None
}

impl<S: StoreMut> UnsortedSet<S> {
    /// Removes every element.
    pub fn clear(&mut self)
        requires
            old(self).inv(),
        ensures
            final(self).wf(),
            final(self)@ == Seq::<S::Elem>::empty(),
            final(self).bound() == old(self).bound(),
    {
        self.store.clear();
    }

    /// Pre-allocates room for `additional` more elements; the set is unchanged.
    pub fn reserve(&mut self, additional: usize)
        requires
            old(self).inv(),
        ensures
            final(self).inv(),
            final(self)@ == old(self)@,
            final(self).bound() == old(self).bound(),
    {
        self.store.reserve(additional);
    }

    /// Keeps only the elements for which `f` returns `true`. Each element is
    /// shown to `f` once, in stored order.
    pub fn retain<F: FnMut(&S::Elem) -> bool>(&mut self, f: F)
        requires
            old(self).inv(),
            forall|x: &S::Elem| call_requires(f, (x,)),
        ensures
            final(self).inv(),
            old(self).wf() ==> final(self).wf(),
            final(self).bound() == old(self).bound(),
            exists|keep: Seq<bool>| {
                &&& keep.len() == old(self)@.len()
                &&& forall|i: int| 0 <= i < keep.len() ==> call_ensures(f, (&old(self)@[i],), #[trigger] keep[i])
                &&& final(self)@ == filter_kept(old(self)@, keep)
            },
    {
        let ghost s0 = self@;
        retain_in(&mut self.store, f);
        proof {
            if s0.no_duplicates() {
                let keep = choose|keep: Seq<bool>| {
                    &&& keep.len() == s0.len()
                    &&& forall|i: int| 0 <= i < keep.len() ==> call_ensures(f, (&s0[i],), #[trigger] keep[i])
                    &&& self@ == filter_kept(s0, keep)
                };
                lemma_filter_kept_unique(s0, keep);
            }
        }
    }
}

/// `s` after appending each item of `items` in turn, skipping any already
/// present: the new distinct items, in first-occurrence order.
pub open spec fn append_new<T>(s: Seq<T>, items: Seq<T>) -> Seq<T>
    decreases items.len(),
{
    if items.len() == 0 {
        s
    } else {
        let before = append_new(s, items.drop_last());
        if before.contains(items.last()) {
            before
        } else {
            before.push(items.last())
        }
    }
}

impl<S: StoreMut> UnsortedSet<S> where S::Elem: Eq {
    /// Appends `value` unless present. `Ok(true)` if newly added, `Ok(false)`
    /// if already present (no capacity consumed); `Err` hands `value` back when
    /// it is new and the store is full.
    pub fn try_insert(&mut self, value: S::Elem) -> (r: Result<bool, CapacityError<S::Elem>>)
        requires
            old(self).wf(),
            exact_eq::<S::Elem>(),
        ensures
            final(self).wf(),
            final(self).bound() == old(self).bound(),
            match r {
                Ok(true) => {
                    &&& !old(self)@.contains(value)
                    &&& final(self)@ == old(self)@.push(value)
                },
                Ok(false) => old(self)@.contains(value) && final(self)@ == old(self)@,
                Err(e) => {
                    &&& e.rejected() == value
                    &&& !old(self)@.contains(value)
                    &&& final(self)@ == old(self)@
                    &&& old(self).bound() == Some(old(self)@.len() as usize)
                },
            },
            r is Err <==> (!old(self)@.contains(value) && old(self).bound() == Some(old(self)@.len() as usize)),
    {
        if chunked_contains(self.store.as_slice(), &value) {
            return Ok(false);
        }
        proof {
            lemma_push_unique(self@, value);
            self.store.lemma_within_bound();
        }
        match push(&mut self.store, value) {
            Ok(()) => {
                proof {
                    self.store.lemma_within_bound();
                }
                Ok(true)
            },
            Err(e) => Err(e),
        }
    }

    /// Removes `value` by moving the last element into its slot; returns
    /// whether it was present. Order is not preserved.
    pub fn remove(&mut self, value: &S::Elem) -> (b: bool)
        requires
            old(self).wf(),
            exact_eq::<S::Elem>(),
        ensures
            final(self).wf(),
            final(self).bound() == old(self).bound(),
            b == old(self)@.contains(*value),
            final(self)@.to_set() == old(self)@.to_set().remove(*value),
            b ==> final(self)@.len() == old(self)@.len() - 1,
            b ==> exists|i: int| {
                &&& 0 <= i < old(self)@.len()
                &&& old(self)@[i] == *value
                &&& final(self)@ == swap_removed(old(self)@, i)
            },
            !b ==> final(self)@ == old(self)@,
    {
        match position_of(self.store.as_slice(), value) {
            Some(i) => {
                proof {
                    lemma_swap_removed(self@, i as int);
                }
                self.store.swap_remove_at(i);
                true
            },
            None => {
                assert(self@.to_set().remove(*value) =~= self@.to_set());
                false
            },
        }
    }

    /// Inserts every item, skipping duplicates. On a capacity failure the items
    /// inserted so far are kept and the rejected item is returned.
    pub fn try_extend(&mut self, items: Vec<S::Elem>) -> (r: Result<(), CapacityError<S::Elem>>)
        requires
            old(self).wf(),
            exact_eq::<S::Elem>(),
        ensures
            final(self).wf(),
            final(self).bound() == old(self).bound(),
            match r {
                Ok(_) => {
                    &&& final(self)@ == append_new(old(self)@, items@)
                    &&& final(self)@.to_set() == old(self)@.to_set() + items@.to_set()
                },
                Err(e) => exists|k: int| {
                    &&& 0 <= k < items@.len()
                    &&& e.rejected() == items@[k]
                    &&& final(self)@ == append_new(old(self)@, items@.take(k))
                    &&& final(self)@.to_set() == old(self)@.to_set() + items@.take(k).to_set()
                    &&& !final(self)@.contains(items@[k])
                    &&& final(self).bound() == Some(final(self)@.len() as usize)
                },
            },
    {
        let ghost s0 = self@;
        let ghost all = items@;
        let n = items.len();
        let mut k: usize = 0;
        for value in it: items.into_iter()
            invariant
                all.len() == n,
                self.wf(),
                exact_eq::<S::Elem>(),
                self.bound() == old(self).bound(),
                s0 == old(self)@,
                it.seq() == all,
                k == it.index(),
                k <= all.len(),
                self@.to_set() == s0.to_set() + all.take(k as int).to_set(),
                self@ == append_new(s0, all.take(k as int)),
        {
            assert(value == all[k as int]);
            let ghost before = self@;
            match self.try_insert(value) {
                Ok(b) => {
                    proof {
                        assert(all.take(k + 1) =~= all.take(k as int).push(value));
                        assert(all.take(k + 1).drop_last() =~= all.take(k as int));
                        all.take(k as int).lemma_push_to_set_commute(value);
                        if b {
                            before.lemma_push_to_set_commute(value);
                        } else {
                            assert(before.to_set().insert(value) =~= before.to_set());
                        }
                        assert(self@.to_set() =~= s0.to_set() + all.take(k + 1).to_set());
                    }
                },
                Err(e) => {
                    assert(0 <= k < all.len() && e.rejected() == all[k as int]);
                    return Err(e);
                },
            }
            k = k + 1;
        }
        assert(all.take(k as int) =~= all);
        Ok(())
    }
}

impl<S: StoreMut + StoreNew> UnsortedSet<S> where S::Elem: Eq {
    /// Builds from items, skipping duplicates.
    pub fn try_from_iter(items: Vec<S::Elem>) -> (r: Result<Self, CapacityError<S::Elem>>)
        requires
            exact_eq::<S::Elem>(),
        ensures
            match r {
                Ok(set) => {
                    &&& set.wf()
                    &&& set@ == append_new(Seq::empty(), items@)
                    &&& set@.to_set() == items@.to_set()
                    &&& set.bound() == S::initial_bound()
                },
                Err(e) => exists|k: int| {
                    &&& 0 <= k < items@.len()
                    &&& e.rejected() == items@[k]
                    &&& !items@.take(k).contains(items@[k])
                    &&& S::initial_bound() == Some(unique_count(items@.take(k)) as usize)
                },
            },
    {
        let mut set = Self::new();
        let ghost all = items@;
        match set.try_extend(items) {
            Ok(()) => {
                assert(Seq::<S::Elem>::empty().to_set() + all.to_set() =~= all.to_set());
                Ok(set)
            },
            Err(e) => {
                proof {
                    let k = choose|k: int| {
                        &&& 0 <= k < all.len()
                        &&& e.rejected() == all[k]
                        &&& set@.to_set() == Seq::<S::Elem>::empty().to_set() + all.take(k).to_set()
                        &&& !set@.contains(all[k])
                        &&& set.bound() == Some(set@.len() as usize)
                    };
                    assert(set@.to_set() =~= all.take(k).to_set());
                    set@.unique_seq_to_set();
                    assert(!all.take(k).contains(all[k])) by {
                        if all.take(k).contains(all[k]) {
                            assert(set@.to_set().contains(all[k]));
                        }
                    }
                }
                Err(e)
            },
        }
    }
}

impl<S: StoreMut + Unbounded> UnsortedSet<S> where S::Elem: Eq {
    /// Inserts `value`, returning whether it was newly added; infallible on an
    /// unbounded store.
    pub fn insert(&mut self, value: S::Elem) -> (b: bool)
        requires
            old(self).wf(),
            exact_eq::<S::Elem>(),
        ensures
            final(self).wf(),
            b == !old(self)@.contains(value),
            b ==> final(self)@ == old(self)@.push(value),
            !b ==> final(self)@ == old(self)@,
    {
        proof {
            self.store.lemma_unbounded();
        }
        match self.try_insert(value) {
            Ok(b) => b,
            Err(_) => false,
        }
    }
}

/// The number of distinct elements of a sequence.
pub open spec fn unique_count<T>(s: Seq<T>) -> nat {
    s.to_set().len()
}

proof fn lemma_unique_count_push<T>(s: Seq<T>, x: T)
    ensures
        unique_count(s.push(x)) == if s.contains(x) { unique_count(s) } else { unique_count(s) + 1 },
{
    broadcast use vstd::seq_lib::seq_to_set_is_finite;
    s.lemma_push_to_set_commute(x);
}

proof fn lemma_ascending_push<T: Ord>(s: Seq<T>, x: T)
    requires
        total_order::<T>(),
        ascending(s),
        s.len() > 0 ==> !is_less(x, s.last()),
    ensures
        ascending(s.push(x)),
{
    lemma_total_order::<T>();
    let t = s.push(x);
    assert forall|i: int, j: int| 0 <= i < j < t.len() implies !#[trigger] is_less(t[j], t[i]) by {
        if j == s.len() {
            if i < s.len() - 1 {
                assert(!is_less(s[s.len() - 1], s[i]));
                if is_less(x, s[i]) {
                    if order_of(s[i], s.last()) == Order::Equal {
                    } else {
                        assert(is_less(s[i], s.last()));
                    }
                }
            }
        } else {
            assert(t[i] == s[i] && t[j] == s[j]);
        }
    }
}

} // verus!
