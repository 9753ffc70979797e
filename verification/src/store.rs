//! The store contract — where elements live and how the logical capacity is
//! bounded. `Store` gives read access to a contiguous sequence of elements,
//! `StoreMut` the index-based mutation primitives, `StoreNew` an empty store,
//! and `Unbounded` marks the stores that never refuse an insert.
//!
//! Every method is specified over `elems()`, the store's sequence of logical
//! elements, and `bound()`, its logical capacity (`None` = unbounded).

use vstd::prelude::*;
use crate::error::CapacityError;

verus! {

/// Read access to a contiguous backing store of `Elem`.
pub trait Store {
    /// The element type held by the store — `T` for a set, `(K, V)` for a map.
    type Elem;

    /// The logical elements, in stored order.
    spec fn elems(&self) -> Seq<Self::Elem>;

    /// The logical capacity: the most elements the store can ever hold, or
    /// `None` if unbounded.
    spec fn bound(&self) -> Option<usize>;

    /// The store's internal invariant.
    spec fn well_formed(&self) -> bool;

    /// A well-formed store never holds more elements than its bound.
    proof fn lemma_within_bound(&self)
        requires
            self.well_formed(),
        ensures
            self.bound() is Some ==> self.elems().len() <= self.bound().unwrap(),
    ;

    /// Returns every logical element as one contiguous slice, in stored order.
    fn as_slice(&self) -> (s: &[Self::Elem])
        requires
            self.well_formed(),
        ensures
            s@ == self.elems(),
    ;

    /// Returns the number of logical elements.
    fn len(&self) -> (n: usize)
        requires
            self.well_formed(),
        ensures
            n == self.elems().len(),
    {
        self.as_slice().len()
    }

    /// Returns `true` if the store holds no elements.
    fn is_empty(&self) -> (b: bool)
        requires
            self.well_formed(),
        ensures
            b == (self.elems().len() == 0),
    {
        self.as_slice().len() == 0
    }

    /// Returns the logical capacity, or `None` if unbounded.
    fn max_capacity(&self) -> (c: Option<usize>)
        requires
            self.well_formed(),
        ensures
            c == self.bound(),
    ;
}

/// Index-based mutation primitives; the collections build their ordering
/// discipline on top of these.
pub trait StoreMut: Store {
    /// Inserts `value` at index `i`, shifting the tail right. Fails only when the
    /// store is at its logical capacity, handing `value` back unchanged.
    fn try_insert_at(&mut self, i: usize, value: Self::Elem) -> (r: Result<(), CapacityError<Self::Elem>>)
        requires
            old(self).well_formed(),
            i <= old(self).elems().len(),
        ensures
            final(self).well_formed(),
            final(self).bound() == old(self).bound(),
            match r {
                Ok(_) => final(self).elems() == old(self).elems().insert(i as int, value),
                Err(e) => {
                    &&& e.rejected() == value
                    &&& final(self).elems() == old(self).elems()
                    &&& old(self).bound() is Some
                    &&& old(self).elems().len() >= old(self).bound().unwrap()
                },
            },
    ;

    /// Removes and returns the element at index `i`, shifting the tail left.
    fn remove_at(&mut self, i: usize) -> (r: Self::Elem)
        requires
            old(self).well_formed(),
            i < old(self).elems().len(),
        ensures
            final(self).well_formed(),
            final(self).bound() == old(self).bound(),
            r == old(self).elems()[i as int],
            final(self).elems() == old(self).elems().remove(i as int),
    ;

    /// Removes the element at index `i` by moving the last element into its
    /// place; order is not preserved.
    fn swap_remove_at(&mut self, i: usize) -> (r: Self::Elem)
        requires
            old(self).well_formed(),
            i < old(self).elems().len(),
        ensures
            final(self).well_formed(),
            final(self).bound() == old(self).bound(),
            r == old(self).elems()[i as int],
            final(self).elems() == swap_removed(old(self).elems(), i as int),
    {
        let last = self.len() - 1;
        let s = self.as_mut_slice();
        slice_swap(s, i, last);
        self.remove_at(last)
    }

    /// Returns a mutable slice of the elements, for in-place updates that keep
    /// the length.
    fn as_mut_slice(&mut self) -> (s: &mut [Self::Elem])
        requires
            old(self).well_formed(),
        ensures
            s@ == old(self).elems(),
            final(s)@.len() == s@.len() ==> {
                &&& final(self).well_formed()
                &&& final(self).elems() == final(s)@
                &&& final(self).bound() == old(self).bound()
            },
    ;

    /// Removes every element.
    fn clear(&mut self)
        requires
            old(self).well_formed(),
        ensures
            final(self).well_formed(),
            final(self).bound() == old(self).bound(),
            final(self).elems() == Seq::<Self::Elem>::empty(),
    ;

    /// Pre-allocates room for `additional` more elements; never changes the
    /// elements or the bound.
    fn reserve(&mut self, additional: usize)
        requires
            old(self).well_formed(),
        ensures
            final(self).well_formed(),
            final(self).bound() == old(self).bound(),
            final(self).elems() == old(self).elems(),
    {
    }
}

/// Constructs an empty store.
pub trait StoreNew: Store + Sized {
    /// The bound of a freshly created store.
    spec fn initial_bound() -> Option<usize>;

    /// Creates a new, empty store.
    fn new() -> (s: Self)
        ensures
            s.well_formed(),
            s.elems() == Seq::<Self::Elem>::empty(),
            s.bound() == Self::initial_bound(),
    ;
}

/// A store that never reports a logical-capacity failure.
pub trait Unbounded: Store {
    /// An unbounded store has no bound.
    proof fn lemma_unbounded(&self)
        ensures
            self.bound() is None,
    ;
}

/// `s` after removing index `i` by moving the last element into its place.
pub open spec fn swap_removed<T>(s: Seq<T>, i: int) -> Seq<T> {
    if i == s.len() - 1 {
        s.drop_last()
    } else {
        s.update(i, s.last()).drop_last()
    }
}

/// Removing by swap keeps a duplicate-free sequence duplicate-free, and
/// removes exactly that element from its set.
pub proof fn lemma_swap_removed<T>(s: Seq<T>, i: int)
    requires
        s.no_duplicates(),
        0 <= i < s.len(),
    ensures
        swap_removed(s, i).no_duplicates(),
        swap_removed(s, i).to_set() == s.to_set().remove(s[i]),
        swap_removed(s, i).len() == s.len() - 1,
{
    let t = swap_removed(s, i);
    let last = s.len() - 1;
    assert(forall|k: int| 0 <= k < t.len() ==> #[trigger] t[k] == if k == i { s[last] } else { s[k] });
    assert forall|a: int, b: int| 0 <= a < t.len() && 0 <= b < t.len() && a != b implies t[a] != t[b] by {
        let a0 = if a == i { last } else { a };
        let b0 = if b == i { last } else { b };
        assert(t[a] == s[a0] && t[b] == s[b0]);
    }
    assert(t.to_set() =~= s.to_set().remove(s[i])) by {
        assert forall|y: T| t.contains(y) <==> (s.contains(y) && y != s[i]) by {
            if t.contains(y) {
                let k = choose|k: int| 0 <= k < t.len() && t[k] == y;
                let k0 = if k == i { last } else { k };
                assert(s[k0] == y);
            }
            if s.contains(y) && y != s[i] {
                let k = choose|k: int| 0 <= k < s.len() && s[k] == y;
                if k == last {
                    assert(t[i] == y);
                } else {
                    assert(t[k] == y);
                }
            }
        }
    }
}

/// Appending an absent element keeps a duplicate-free sequence duplicate-free.
pub proof fn lemma_push_unique<T>(s: Seq<T>, x: T)
    requires
        s.no_duplicates(),
        !s.contains(x),
    ensures
        s.push(x).no_duplicates(),
        s.push(x).to_set() == s.to_set().insert(x),
{
    let t = s.push(x);
    assert forall|a: int, b: int| 0 <= a < t.len() && 0 <= b < t.len() && a != b implies t[a] != t[b] by {
        if a == s.len() {
            assert(t[b] == s[b]);
        } else if b == s.len() {
            assert(t[a] == s[a]);
        } else {
            assert(t[a] == s[a] && t[b] == s[b]);
        }
    }
    s.lemma_push_to_set_commute(x);
}

/// Swaps two elements of a slice: split it between them and exchange the
/// first element of the right part with the lower-indexed one.
pub(crate) fn slice_swap<T>(s: &mut [T], i: usize, j: usize)
    requires
        i < old(s)@.len(),
        j < old(s)@.len(),
    ensures
        final(s)@ == old(s)@.update(i as int, old(s)@[j as int]).update(j as int, old(s)@[i as int]),
{
    if i == j {
        assert(s@.update(i as int, s@[j as int]).update(j as int, s@[i as int]) =~= s@);
        return;
    }
    let ghost s0 = s@;
    let lo: usize = if i < j { i } else { j };
    let hi: usize = if i < j { j } else { i };
    let (left, right) = s.split_at_mut(hi);
    let ghost l0 = left@;
    let ghost r0 = right@;
    let a = &mut left[lo];
    let b = &mut right[0];
    core::mem::swap(a, b);
    assert(final(left)@ =~= l0.update(lo as int, r0[0]));
    assert(final(right)@ =~= r0.update(0, l0[lo as int]));
    assert(final(left)@ + final(right)@ =~= s0.update(i as int, s0[j as int]).update(j as int, s0[i as int]));
}

/// Iterator over a slice's elements as `&mut T`, front to back.
pub struct SliceIterMut<'a, T> {
    pub rest: &'a mut [T],
}

impl<'a, T> SliceIterMut<'a, T> {
    /// The elements not yet yielded, as they stand.
    pub open spec fn remaining(&self) -> Seq<T> {
        self.rest@
    }

    /// Yields the next element. Whatever is later written through it becomes
    /// that element's final value.
    pub fn next(&mut self) -> (r: Option<&'a mut T>)
        ensures
            old(self).remaining().len() == 0 ==> {
                &&& r is None
                &&& final(old(self).rest)@ == old(self).rest@
            },
            old(self).remaining().len() > 0 ==> {
                &&& r matches Some(v)
                &&& *v == old(self).remaining()[0]
                &&& final(self).remaining() == old(self).remaining().drop_first()
                &&& final(old(self).rest)@ == seq![*final(v)] + final(final(self).rest)@
            },
    {
        let mut rest: &'a mut [T] = &mut [];
        core::mem::swap(&mut rest, &mut self.rest);
        match split_first_mut(rest) {
            None => None,
            Some((head, tail)) => {
                self.rest = tail;
                Some(head)
            },
        }
    }

    /// How many elements are left.
    pub fn len(&self) -> (n: usize)
        ensures
            n == self.remaining().len(),
    {
        self.rest.len()
    }
}

/// Splits a mutable slice into its first element and the rest; `None`
/// exactly when the slice is empty.
pub(crate) fn split_first_mut<'a, T>(s: &'a mut [T]) -> (r: Option<(&'a mut T, &'a mut [T])>)
    ensures
        old(s)@.len() == 0 <==> r is None,
        r is None ==> final(s)@ == old(s)@,
        r matches Some((h, t)) ==> {
            &&& *h == old(s)@[0]
            &&& t@ == old(s)@.drop_first()
            &&& final(s)@ == seq![*final(h)] + final(t)@
        },
{
    if s.len() == 0 {
        return None;
    }
    let (head, tail) = s.split_at_mut(1);
    match head.first_mut() {
        Some(h) => {
            assert(tail@ =~= old(s)@.drop_first());
            Some((h, tail))
        },
        None => {
            assert(false);
            None
        },
    }
}

/// Appends `value` at the tail; fails only at the logical capacity.
pub(crate) fn push<S: StoreMut>(store: &mut S, value: S::Elem) -> (r: Result<(), CapacityError<S::Elem>>)
    requires
        old(store).well_formed(),
    ensures
        final(store).well_formed(),
        final(store).bound() == old(store).bound(),
        match r {
            Ok(_) => final(store).elems() == old(store).elems().push(value),
            Err(e) => {
                &&& e.rejected() == value
                &&& final(store).elems() == old(store).elems()
                &&& old(store).bound() is Some
                &&& old(store).elems().len() >= old(store).bound().unwrap()
            },
        },
{
    let i = store.len();
    let r = store.try_insert_at(i, value);
    proof {
        if r is Ok {
            assert(old(store).elems().insert(i as int, value) =~= old(store).elems().push(value));
        }
    }
    r
}

/// Appends every item at the tail, in order. Stops at the first capacity
/// failure, returning the rejected item; the items appended so far are kept.
pub(crate) fn append_all<S: StoreMut>(store: &mut S, items: Vec<S::Elem>) -> (r: Result<(), CapacityError<S::Elem>>)
    requires
        old(store).well_formed(),
    ensures
        final(store).well_formed(),
        final(store).bound() == old(store).bound(),
        match r {
            Ok(_) => final(store).elems() == old(store).elems() + items@,
            Err(e) => exists|k: int| {
                &&& 0 <= k < items@.len()
                &&& e.rejected() == items@[k]
                &&& final(store).elems() == old(store).elems() + items@.take(k)
                &&& final(store).bound() is Some
                &&& final(store).elems().len() >= final(store).bound().unwrap()
            },
        },
{
    let ghost start = store.elems();
    let ghost all = items@;
    let n = items.len();
    store.reserve(n);
    let mut k: usize = 0;
    for value in it: items.into_iter()
        invariant
            store.well_formed(),
            store.bound() == old(store).bound(),
            it.seq() == all,
            k == it.index(),
            k <= all.len(),
            all.len() == n,
            start == old(store).elems(),
            store.elems() == start + all.take(k as int),
    {
        assert(value == all[k as int]);
        match push(store, value) {
            Ok(()) => {
                assert(all.take(k as int).push(all[k as int]) =~= all.take(k + 1));
            },
            Err(e) => {
                assert(e.rejected() == all[k as int]);
                assert(0 <= k < all.len() && store.elems() == old(store).elems() + all.take(k as int));
                return Err(e);
            },
        }
        k = k + 1;
    }
    assert(all.take(k as int) =~= all);
    Ok(())
}

/// The elements of `vals` whose `keep` flag is set, in order.
pub open spec fn filter_kept<T>(vals: Seq<T>, keep: Seq<bool>) -> Seq<T>
    decreases vals.len(),
{
    if vals.len() == 0 {
        Seq::empty()
    } else if keep[vals.len() - 1] {
        filter_kept(vals.drop_last(), keep).push(vals.last())
    } else {
        filter_kept(vals.drop_last(), keep)
    }
}

pub(crate) proof fn lemma_filter_kept_step<T>(vals: Seq<T>, keep: Seq<bool>, v: T, b: bool)
    requires
        vals.len() == keep.len(),
    ensures
        filter_kept(vals.push(v), keep.push(b)) == if b {
            filter_kept(vals, keep).push(v)
        } else {
            filter_kept(vals, keep)
        },
        filter_kept(vals, keep).len() <= vals.len(),
    decreases vals.len(),
{
    assert(vals.push(v).drop_last() =~= vals);
    lemma_filter_kept_prefix(vals, keep, keep.push(b));
    lemma_filter_kept_len(vals, keep);
}

proof fn lemma_filter_kept_prefix<T>(vals: Seq<T>, keep: Seq<bool>, keep2: Seq<bool>)
    requires
        keep.len() >= vals.len(),
        keep2.len() >= vals.len(),
        forall|i: int| 0 <= i < vals.len() ==> keep[i] == keep2[i],
    ensures
        filter_kept(vals, keep) == filter_kept(vals, keep2),
    decreases vals.len(),
{
    if vals.len() > 0 {
        lemma_filter_kept_prefix(vals.drop_last(), keep, keep2);
    }
}

proof fn lemma_filter_kept_len<T>(vals: Seq<T>, keep: Seq<bool>)
    ensures
        filter_kept(vals, keep).len() <= vals.len(),
    decreases vals.len(),
{
    if vals.len() > 0 {
        lemma_filter_kept_len(vals.drop_last(), keep);
    }
}

/// Calls `f` on the element at index `i`, which it may edit.
fn visit_mut<T, F: FnMut(&mut T) -> bool>(s: &mut [T], i: usize, f: &mut F) -> (b: bool)
    requires
        i < old(s)@.len(),
        forall|r: &mut T| call_requires(*old(f), (r,)),
    ensures
        final(s)@.len() == old(s)@.len(),
        forall|j: int| 0 <= j < old(s)@.len() && j != i ==> final(s)@[j] == old(s)@[j],
        *final(f) == *old(f),
        exists|r: &mut T| *r == old(s)@[i as int] && *final(r) == final(s)@[i as int] && call_ensures(*old(f), (r,), b),
{
    let r = &mut s[i];
    f(r)
}

/// Keeps only the elements for which `f` returns `true`, preserving their
/// order. Each element is shown to `f` once, in order.
pub(crate) fn retain_in<S: StoreMut, F: FnMut(&S::Elem) -> bool>(store: &mut S, f: F)
    requires
        old(store).well_formed(),
        forall|x: &S::Elem| call_requires(f, (x,)),
    ensures
        final(store).well_formed(),
        final(store).bound() == old(store).bound(),
        exists|keep: Seq<bool>| {
            &&& keep.len() == old(store).elems().len()
            &&& forall|i: int| 0 <= i < keep.len() ==> call_ensures(f, (&old(store).elems()[i],), #[trigger] keep[i])
            &&& final(store).elems() == filter_kept(old(store).elems(), keep)
        },
{
    let ghost f0 = f;
    let mut f = f;
    let ghost start = store.elems();
    let ghost mut keep: Seq<bool> = Seq::empty();
    let n = store.len();
    let mut write: usize = 0;
    let mut read: usize = 0;
    while read < n
        invariant
            store.well_formed(),
            store.bound() == old(store).bound(),
            start == old(store).elems(),
            n == start.len(),
            store.elems().len() == n,
            write <= read <= n,
            keep.len() == read,
            f == f0,
            forall|x: &S::Elem| call_requires(f0, (x,)),
            forall|i: int| 0 <= i < read ==> call_ensures(f0, (&start[i],), #[trigger] keep[i]),
            store.elems().subrange(0, write as int) == filter_kept(start.subrange(0, read as int), keep),
            store.elems().subrange(read as int, n as int) == start.subrange(read as int, n as int),
        decreases n - read,
    {
        let ghost before = store.elems();
        let ghost keep0 = keep;
        assert(before[read as int] == start[read as int]) by {
            assert(before.subrange(read as int, n as int)[0] == before[read as int]);
        }
        let b = f(&store.as_slice()[read]);
        proof {
            lemma_filter_kept_step(start.subrange(0, read as int), keep, start[read as int], b);
            assert(start.subrange(0, read as int).push(start[read as int]) =~= start.subrange(0, read + 1));
            keep = keep.push(b);
        }
        if b {
            if write != read {
                let s = store.as_mut_slice();
                slice_swap(s, write, read);
            }
            write = write + 1;
        }
        read = read + 1;
        assert(store.elems().subrange(read as int, n as int) =~= start.subrange(read as int, n as int)) by {
            assert forall|k: int| read <= k < n implies store.elems()[k] == start[k] by {
                assert(before.subrange((read - 1) as int, n as int)[k - (read - 1)] == before[k]);
            }
        }
        assert(store.elems().subrange(0, write as int) =~= filter_kept(start.subrange(0, read as int), keep));
        assert forall|i: int| 0 <= i < read implies call_ensures(f0, (&start[i],), #[trigger] keep[i]) by {
            if i < read - 1 {
                assert(keep[i] == keep0[i]);
            }
        }
    }
    truncate_to(store, write);
    assert(start.subrange(0, n as int) =~= start);
}

/// Keeps only the elements for which `f` returns `true`, preserving their
/// order; `f` may edit the elements it visits. Each element is visited once,
/// in order.
pub(crate) fn retain_mut_in<S: StoreMut, F: FnMut(&mut S::Elem) -> bool>(store: &mut S, f: F)
    requires
        old(store).well_formed(),
        forall|r: &mut S::Elem| call_requires(f, (r,)),
    ensures
        final(store).well_formed(),
        final(store).bound() == old(store).bound(),
        exists|vals: Seq<S::Elem>, keep: Seq<bool>, refs: Seq<&mut S::Elem>|
            #![trigger filter_kept(vals, keep), refs.len()]
        {
            &&& vals.len() == old(store).elems().len()
            &&& keep.len() == old(store).elems().len()
            &&& refs.len() == old(store).elems().len()
            &&& forall|i: int| #![trigger refs[i]] 0 <= i < keep.len() ==> {
                &&& *refs[i] == old(store).elems()[i]
                &&& *final(refs[i]) == vals[i]
                &&& call_ensures(f, (refs[i],), keep[i])
            }
            &&& final(store).elems() == filter_kept(vals, keep)
        },
{
    let ghost f0 = f;
    let mut f = f;
    let ghost start = store.elems();
    let ghost mut vals: Seq<S::Elem> = Seq::empty();
    let ghost mut keep: Seq<bool> = Seq::empty();
    let n = store.len();
    let mut write: usize = 0;
    let mut read: usize = 0;
    assert(Seq::<&mut S::Elem>::empty().len() == 0);
    while read < n
        invariant
            store.well_formed(),
            store.bound() == old(store).bound(),
            start == old(store).elems(),
            n == start.len(),
            store.elems().len() == n,
            write <= read <= n,
            vals.len() == read,
            keep.len() == read,
            forall|r: &mut S::Elem| call_requires(f, (r,)),
            f == f0,
            exists|refs: Seq<&mut S::Elem>| #![trigger refs.len()] {
                &&& refs.len() == read
                &&& forall|i: int| #![trigger refs[i]] 0 <= i < read ==> {
                    &&& *refs[i] == start[i]
                    &&& *final(refs[i]) == vals[i]
                    &&& call_ensures(f0, (refs[i],), keep[i])
                }
            },
            store.elems().subrange(0, write as int) == filter_kept(vals, keep),
            store.elems().subrange(read as int, n as int) == start.subrange(read as int, n as int),
        decreases n - read,
    {
        let ghost before = store.elems();
        let ghost keep0 = keep;
        let ghost vals0 = vals;
        let ghost read0: int = read as int;
        assert(before[read as int] == start[read as int]) by {
            assert(before.subrange(read as int, n as int)[0] == before[read as int]);
        }
        let s = store.as_mut_slice();
        let b = visit_mut(s, read, &mut f);
        let ghost v = s@[read as int];
        let ghost mid = s@;
        proof {
            lemma_filter_kept_step(vals, keep, v, b);
            vals = vals.push(v);
            keep = keep.push(b);
        }
        if b {
            if write != read {
                slice_swap(s, write, read);
            }
            write = write + 1;
        }
        read = read + 1;
        assert(s@.subrange(0, write as int) =~= filter_kept(vals, keep));
        assert(s@.subrange(read as int, n as int) =~= start.subrange(read as int, n as int)) by {
            assert forall|k: int| read <= k < n implies s@[k] == start[k] by {
                assert(mid[k] == before[k]);
                assert(before.subrange((read - 1) as int, n as int)[k - (read - 1)] == before[k]);
            }
        }
        proof {
            let prev = choose|refs: Seq<&mut S::Elem>| {
                &&& refs.len() == read0
                &&& forall|i: int| #![trigger refs[i]] 0 <= i < read0 ==> {
                    &&& *refs[i] == start[i]
                    &&& *final(refs[i]) == vals0[i]
                    &&& call_ensures(f0, (refs[i],), keep0[i])
                }
            };
            let r = choose|r: &mut S::Elem| *r == start[read0] && *final(r) == v && call_ensures(f0, (r,), b);
            let next = prev.push(r);
            assert forall|i: int| #![trigger next[i]] 0 <= i < read implies {
                &&& *next[i] == start[i]
                &&& *final(next[i]) == vals[i]
                &&& call_ensures(f0, (next[i],), keep[i])
            } by {
                if i < read - 1 {
                    assert(keep[i] == keep0[i]);
                    assert(vals[i] == vals0[i]);
                    assert(next[i] == prev[i]);
                }
            }
            assert(next.len() == read);
        }
    }
    truncate_to(store, write);
}

/// Pops elements off the tail until `len` remain.
pub(crate) fn truncate_to<S: StoreMut>(store: &mut S, len: usize)
    requires
        old(store).well_formed(),
        len <= old(store).elems().len(),
    ensures
        final(store).well_formed(),
        final(store).bound() == old(store).bound(),
        final(store).elems() == old(store).elems().subrange(0, len as int),
{
    while store.len() > len
        invariant
            store.well_formed(),
            store.bound() == old(store).bound(),
            len <= store.elems().len(),
            store.elems().subrange(0, len as int) == old(store).elems().subrange(0, len as int),
        decreases store.elems().len(),
    {
        let ghost before = store.elems();
        let last = store.len() - 1;
        store.remove_at(last);
        assert(store.elems().subrange(0, len as int) =~= before.subrange(0, len as int));
    }
    assert(store.elems() =~= store.elems().subrange(0, len as int));
}

} // verus!
