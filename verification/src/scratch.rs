//! [`ScratchVec`]: a fixed-capacity store over a borrowed `&mut [T]` — fully
//! allocation-free, capacity = the buffer's length. A vacated slot is refilled
//! with `T::default()`, so every slot always holds a valid `T`.

use vstd::prelude::*;
use crate::error::CapacityError;
use crate::store::{slice_swap, Store, StoreMut};

verus! {

/// A fixed-capacity store backed by a borrowed `&'a mut [T]`; the live
/// elements are the buffer's first `len` slots.
pub struct ScratchVec<'a, T> {
    buf: &'a mut [T],
    len: usize,
}

impl<'a, T> ScratchVec<'a, T> {
    /// The whole buffer, live elements and junk alike.
    pub closed spec fn buffer(&self) -> Seq<T> {
        (*self.buf)@
    }

    /// Wraps `buf` as empty scratch storage; its current contents are junk.
    pub fn new(buf: &'a mut [T]) -> (v: Self)
        ensures
            v.well_formed(),
            v.elems() == Seq::<T>::empty(),
            v.bound() == Some(old(buf)@.len() as usize),
    {
        ScratchVec { buf, len: 0 }
    }
}

/// Swapping the inserted element with its left neighbour moves the insertion
/// point one slot left.
proof fn lemma_shift_inserted_left<T>(before: Seq<T>, after: Seq<T>, live: Seq<T>, x: T, j: int, n: int)
    requires
        0 < j <= n,
        live.len() == n,
        n < before.len(),
        before.subrange(0, n + 1) == live.insert(j, x),
        after == before.update(j - 1, before[j]).update(j, before[j - 1]),
    ensures
        after.subrange(0, n + 1) == live.insert(j - 1, x),
{
    live.insert_ensures(j, x);
    live.insert_ensures(j - 1, x);
    assert forall|k: int| 0 <= k < n + 1 implies after[k] == live.insert(j - 1, x)[k] by {
        assert(before.subrange(0, n + 1)[k] == before[k]);
        assert(before.subrange(0, n + 1)[j - 1] == before[j - 1]);
        assert(before.subrange(0, n + 1)[j] == before[j]);
    }
    assert(after.subrange(0, n + 1) =~= live.insert(j - 1, x));
}

/// Swapping the displaced element with its right neighbour moves it one slot
/// right.
proof fn lemma_shift_inserted_right<T>(before: Seq<T>, after: Seq<T>, rest: Seq<T>, x: T, j: int, n: int)
    requires
        0 <= j,
        j + 1 < n,
        rest.len() == n - 1,
        n <= before.len(),
        before.subrange(0, n) == rest.insert(j, x),
        after == before.update(j, before[j + 1]).update(j + 1, before[j]),
    ensures
        after.subrange(0, n) == rest.insert(j + 1, x),
{
    rest.insert_ensures(j, x);
    rest.insert_ensures(j + 1, x);
    assert forall|k: int| 0 <= k < n implies after[k] == rest.insert(j + 1, x)[k] by {
        assert(before.subrange(0, n)[k] == before[k]);
        assert(before.subrange(0, n)[j] == before[j]);
        assert(before.subrange(0, n)[j + 1] == before[j + 1]);
    }
    assert(after.subrange(0, n) =~= rest.insert(j + 1, x));
}

impl<'a, T> Store for ScratchVec<'a, T> {
    type Elem = T;

    closed spec fn elems(&self) -> Seq<T> {
        (*self.buf)@.subrange(0, self.len as int)
    }

    closed spec fn bound(&self) -> Option<usize> {
        Some((*self.buf)@.len() as usize)
    }

    closed spec fn well_formed(&self) -> bool {
        self.len <= (*self.buf)@.len()
    }

    proof fn lemma_within_bound(&self) {
        broadcast use vstd::slice::axiom_spec_len;
        assert((*self.buf).len() == (*self.buf)@.len());
    }

    fn as_slice(&self) -> (s: &[T]) {
        let (live, _) = self.buf.split_at(self.len);
        live
    }

    fn max_capacity(&self) -> (c: Option<usize>) {
        Some(self.buf.len())
    }
}

impl<'a, T: Default> StoreMut for ScratchVec<'a, T> {
    fn try_insert_at(&mut self, i: usize, value: T) -> (r: Result<(), CapacityError<T>>) {
        if self.len >= self.buf.len() {
            return Err(CapacityError(value));
        }
        let ghost live = self.elems();
        let n = self.len;
        let mut v = value;
        core::mem::swap(&mut self.buf[n], &mut v);
        let mut j = n;
        while j > i
            invariant
                i <= j <= n,
                n < (*self.buf)@.len(),
                self.len == n,
                live.len() == n,
                (*self.buf)@.len() == (*old(self).buf)@.len(),
                (*self.buf)@.subrange(0, n as int + 1) == live.insert(j as int, value),
            decreases j,
        {
            let ghost before = (*self.buf)@;
            slice_swap(self.buf, j - 1, j);
            proof {
                lemma_shift_inserted_left(before, (*self.buf)@, live, value, j as int, n as int);
            }
            j = j - 1;
        }
        self.len = n + 1;
        Ok(())
    }

    fn remove_at(&mut self, i: usize) -> (r: T) {
        let ghost live = self.elems();
        let n = self.len;
        let mut j = i;
        while j + 1 < n
            invariant
                i <= j < n,
                n <= (*self.buf)@.len(),
                self.len == n,
                live.len() == n,
                (*self.buf)@.len() == (*old(self).buf)@.len(),
                (*self.buf)@.subrange(0, n as int) == live.remove(i as int).insert(j as int, live[i as int]),
            decreases n - j,
        {
            let ghost before = (*self.buf)@;
            slice_swap(self.buf, j, j + 1);
            proof {
                lemma_shift_inserted_right(before, (*self.buf)@, live.remove(i as int), live[i as int], j as int, n as int);
            }
            j = j + 1;
        }
        proof {
            live.remove_ensures(i as int);
            live.remove(i as int).insert_ensures(j as int, live[i as int]);
        }
        let ghost full = (*self.buf)@;
        assert(full.subrange(0, n as int)[n - 1] == full[n - 1]);
        let mut out = T::default();
        core::mem::swap(&mut self.buf[n - 1], &mut out);
        self.len = n - 1;
        assert(self.elems() =~= live.remove(i as int)) by {
            assert forall|k: int| 0 <= k < n - 1 implies self.elems()[k] == live.remove(i as int)[k] by {
                assert(full.subrange(0, n as int)[k] == full[k]);
            }
        }
        out
    }

    fn as_mut_slice(&mut self) -> (s: &mut [T]) {
        let (live, _) = self.buf.split_at_mut(self.len);
        live
    }

    fn clear(&mut self) {
        let n = self.len;
        let mut k: usize = 0;
        while k < n
            invariant
                k <= n,
                n <= (*self.buf)@.len(),
                (*self.buf)@.len() == (*old(self).buf)@.len(),
            decreases n - k,
        {
            let mut junk = T::default();
            core::mem::swap(&mut self.buf[k], &mut junk);
            k = k + 1;
        }
        self.len = 0;
        assert(self.elems() =~= Seq::<T>::empty());
    }
}

} // verus!
