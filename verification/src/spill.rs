//! [`Spill<A, B>`]: a two-tier store — elements live in `A` until it fills, then
//! all of them migrate to `B` and stay there. The elements live in exactly one
//! tier at a time, so they stay contiguous, and the logical capacity is `B`'s.

use vstd::prelude::*;
use crate::error::CapacityError;
use crate::order::{compare_slices, exact_eq, lex_order, slices_equal, total_order, Order};
use crate::store::{push, slice_swap, Store, StoreMut, StoreNew, Unbounded};
use core::cmp::Ordering;

verus! {

/// Two-tier store: `inline` until it fills, then everything migrates to
/// `spill` and stays there until [`clear`](StoreMut::clear).
#[derive(Clone, Debug)]
pub struct Spill<A, B> {
    inline: A,
    spill: B,
    spilled: bool,
}

/// Reverses a slice in place.
fn reverse_in_place<T>(s: &mut [T])
    ensures
        final(s)@ == old(s)@.reverse(),
{
    let n = s.len();
    let ghost orig = s@;
    let mut lo: usize = 0;
    while lo < n / 2
        invariant
            n == orig.len(),
            s@.len() == n,
            lo <= n / 2,
            forall|k: int| 0 <= k < lo ==> #[trigger] s@[k] == orig[n - 1 - k],
            forall|k: int| 0 <= k < lo ==> s@[n - 1 - k] == #[trigger] orig[k],
            forall|k: int| lo <= k < n - lo ==> s@[k] == orig[k],
        decreases n / 2 - lo,
    {
        let hi = n - 1 - lo;
        slice_swap(s, lo, hi);
        lo = lo + 1;
    }
    assert(s@ =~= orig.reverse());
}

impl<A, B> Spill<A, B> {
    /// Whether the elements live in the spill tier.
    pub closed spec fn spilled_spec(&self) -> bool {
        self.spilled
    }

    /// The inline tier.
    pub closed spec fn inline_tier(&self) -> A {
        self.inline
    }

    /// The spill tier.
    pub closed spec fn spill_tier(&self) -> B {
        self.spill
    }

    /// Borrows the two tiers, for backend-specific introspection (allocated
    /// capacity and the like).
    pub fn tiers(&self) -> (r: (&A, &B))
        ensures
            *r.0 == self.inline_tier(),
            *r.1 == self.spill_tier(),
    {
        (&self.inline, &self.spill)
    }

    /// Returns `true` if the store has spilled into its second tier. Once
    /// spilled it stays spilled until `clear`.
    pub fn is_spilled(&self) -> (b: bool)
        ensures
            b == self.spilled_spec(),
    {
        self.spilled
    }
}

impl<A: Store, B: Store<Elem = A::Elem>> Spill<A, B> {
    /// Builds from two empty tiers.
    pub fn from_tiers(inline: A, spill: B) -> (s: Self)
        requires
            inline.well_formed(),
            spill.well_formed(),
            inline.elems().len() == 0,
            spill.elems().len() == 0,
        ensures
            s.well_formed(),
            s.elems() == Seq::<A::Elem>::empty(),
            s.bound() == spill.bound(),
            !s.spilled_spec(),
    {
        Spill { inline, spill, spilled: false }
    }
}

impl<A: Store, B: Store<Elem = A::Elem>> Spill<A, B> {
    /// Equality of contents: two stores are equal when they hold equal
    /// elements in the same order, whichever tier each keeps them in.
    pub fn eq(&self, other: &Self) -> (b: bool)
        where
            A::Elem: PartialEq,
        requires
            self.well_formed(),
            other.well_formed(),
            exact_eq::<A::Elem>(),
        ensures
            b == (self.elems() == other.elems()),
    {
        slices_equal(self.as_slice(), other.as_slice())
    }

    /// Lexicographic comparison of contents, whichever tier each store keeps
    /// its elements in.
    pub fn cmp(&self, other: &Self) -> (o: Ordering)
        where
            A::Elem: Ord,
        requires
            self.well_formed(),
            other.well_formed(),
            total_order::<A::Elem>(),
        ensures
            match o {
                Ordering::Less => lex_order(self.elems(), other.elems()) == Order::Less,
                Ordering::Equal => lex_order(self.elems(), other.elems()) == Order::Equal,
                Ordering::Greater => lex_order(self.elems(), other.elems()) == Order::Greater,
            },
    {
        match compare_slices(self.as_slice(), other.as_slice()) {
            Order::Less => Ordering::Less,
            Order::Equal => Ordering::Equal,
            Order::Greater => Ordering::Greater,
        }
    }
}

impl<A: StoreNew, B: Store<Elem = A::Elem>> Spill<A, B> {
    /// Builds with a fresh empty inline tier and the given empty spill tier.
    pub fn with_spill(spill: B) -> (s: Self)
        requires
            spill.well_formed(),
            spill.elems().len() == 0,
        ensures
            s.well_formed(),
            s.elems() == Seq::<A::Elem>::empty(),
            s.bound() == spill.bound(),
            !s.spilled_spec(),
    {
        Self::from_tiers(A::new(), spill)
    }
}

impl<A: StoreMut, B: StoreMut<Elem = A::Elem>> Spill<A, B> {
    /// Moves every element from `inline` to `spill`, order preserved: pop the
    /// tail into `spill` (which reverses the order), then reverse `spill` once.
    fn migrate(&mut self)
        requires
            old(self).well_formed(),
            !old(self).spilled_spec(),
        ensures
            final(self).well_formed(),
            final(self).spilled_spec(),
            final(self).elems() == old(self).elems(),
            final(self).bound() == old(self).bound(),
            final(self).inline_tier().bound() == old(self).inline_tier().bound(),
    {
        let ghost orig = self.inline.elems();
        let n = self.inline.len();
        while !self.inline.is_empty()
            invariant
                self.inline.well_formed(),
                self.spill.well_formed(),
                !self.spilled,
                self.inline.bound() == old(self).inline.bound(),
                self.spill.bound() == old(self).spill.bound(),
                n == orig.len(),
                self.inline.elems().len() <= n,
                self.inline.elems() == orig.subrange(0, self.inline.elems().len() as int),
                self.spill.elems() == orig.subrange(self.inline.elems().len() as int, n as int).reverse(),
                self.spill.bound() is Some ==> n <= self.spill.bound().unwrap(),
            decreases self.inline.elems().len(),
        {
            let last = self.inline.len() - 1;
            let ghost in0 = self.inline.elems();
            let ghost sp0 = self.spill.elems();
            assert(sp0.len() == n - last - 1);
            let value = self.inline.remove_at(last);
            assert(value == orig[last as int]);
            let r = push(&mut self.spill, value);
            match r {
                Ok(()) => {},
                Err(_) => {
                    assert(false);
                },
            }
            assert(self.inline.elems() =~= orig.subrange(0, last as int));
            assert(self.spill.elems() =~= orig.subrange(last as int, n as int).reverse()) by {
                assert forall|k: int| 0 <= k < n - last implies self.spill.elems()[k] == orig.subrange(last as int, n as int).reverse()[k] by {
                    if k < n - last - 1 {
                        assert(sp0[k] == orig.subrange(last + 1, n as int).reverse()[k]);
                    }
                }
            }
        }
        let s = self.spill.as_mut_slice();
        reverse_in_place(s);
        assert(orig.subrange(0, n as int).reverse().reverse() =~= orig);
        self.spilled = true;
    }
}

impl<A: Store, B: Store<Elem = A::Elem>> Store for Spill<A, B> {
    type Elem = A::Elem;

    open spec fn elems(&self) -> Seq<A::Elem> {
        if self.spilled_spec() {
            self.spill_tier().elems()
        } else {
            self.inline_tier().elems()
        }
    }

    open spec fn bound(&self) -> Option<usize> {
        self.spill_tier().bound()
    }

    closed spec fn well_formed(&self) -> bool {
        &&& self.inline.well_formed()
        &&& self.spill.well_formed()
        &&& self.spilled ==> self.inline.elems().len() == 0
        &&& !self.spilled ==> self.spill.elems().len() == 0
        &&& self.spill.bound() is Some ==> self.inline.elems().len() <= self.spill.bound().unwrap()
    }

    proof fn lemma_within_bound(&self) {
        self.spill.lemma_within_bound();
    }

    fn as_slice(&self) -> (s: &[A::Elem]) {
        if self.spilled {
            self.spill.as_slice()
        } else {
            self.inline.as_slice()
        }
    }

    fn max_capacity(&self) -> (c: Option<usize>) {
        self.spill.max_capacity()
    }
}

impl<A: StoreMut, B: StoreMut<Elem = A::Elem>> StoreMut for Spill<A, B> {
    /// Inserts into the live tier. When the inline tier is full, every element
    /// migrates to the spill tier first. Elements are only ever kept inline
    /// while the spill tier could take them all, so a migration never fails.
    /// The store spills exactly when an insert succeeds on a full inline
    /// tier, and once spilled it stays spilled.
    fn try_insert_at(&mut self, i: usize, value: A::Elem) -> (r: Result<(), CapacityError<A::Elem>>)
        ensures
            final(self).spilled_spec() == (old(self).spilled_spec() || (r is Ok
                && old(self).inline_tier().bound() == Some(old(self).elems().len() as usize))),
            final(self).inline_tier().bound() == old(self).inline_tier().bound(),
    {
        if self.spilled {
            return self.spill.try_insert_at(i, value);
        }
        proof {
            self.inline.lemma_within_bound();
        }
        match self.spill.max_capacity() {
            Some(c) => {
                if self.inline.len() >= c {
                    return Err(CapacityError(value));
                }
            },
            None => {},
        }
        match self.inline.try_insert_at(i, value) {
            Ok(()) => {
                proof {
                    self.inline.lemma_within_bound();
                }
                Ok(())
            },
            Err(e) => {
                let value = e.into_inner();
                self.migrate();
                proof {
                    self.spill.lemma_within_bound();
                }
                let r = self.spill.try_insert_at(i, value);
                proof {
                    if r is Ok {
                        self.spill.lemma_within_bound();
                    }
                }
                r
            },
        }
    }

    /// Removal never changes which tier the elements live in.
    fn remove_at(&mut self, i: usize) -> (r: A::Elem)
        ensures
            final(self).spilled_spec() == old(self).spilled_spec(),
            final(self).inline_tier().bound() == old(self).inline_tier().bound(),
    {
        if self.spilled {
            self.spill.remove_at(i)
        } else {
            self.inline.remove_at(i)
        }
    }

    /// Removal by swap, in the live tier; never changes which tier the
    /// elements live in.
    fn swap_remove_at(&mut self, i: usize) -> (r: A::Elem)
        ensures
            final(self).spilled_spec() == old(self).spilled_spec(),
            final(self).inline_tier().bound() == old(self).inline_tier().bound(),
    {
        if self.spilled {
            self.spill.swap_remove_at(i)
        } else {
            self.inline.swap_remove_at(i)
        }
    }

    fn as_mut_slice(&mut self) -> (s: &mut [A::Elem]) {
        if self.spilled {
            self.spill.as_mut_slice()
        } else {
            self.inline.as_mut_slice()
        }
    }

    /// Clearing returns the elements to the inline tier.
    fn clear(&mut self)
        ensures
            !final(self).spilled_spec(),
            final(self).inline_tier().bound() == old(self).inline_tier().bound(),
    {
        self.inline.clear();
        self.spill.clear();
        self.spilled = false;
    }

    /// Pre-arms the tier the elements will live in: once spilled, the spill
    /// tier; before that, the spill tier for the whole projected population if
    /// it would overflow the inline tier, else the inline tier.
    fn reserve(&mut self, additional: usize)
        ensures
            final(self).spilled_spec() == old(self).spilled_spec(),
            final(self).inline_tier().bound() == old(self).inline_tier().bound(),
    {
        if self.spilled {
            self.spill.reserve(additional);
        } else {
            match self.inline.max_capacity() {
                Some(cap) => {
                    let projected = self.inline.len().saturating_add(additional);
                    if projected > cap {
                        self.spill.reserve(projected);
                    }
                },
                None => {
                    self.inline.reserve(additional);
                },
            }
        }
    }
}

impl<A: StoreNew, B: StoreNew<Elem = A::Elem>> StoreNew for Spill<A, B> {
    open spec fn initial_bound() -> Option<usize> {
        B::initial_bound()
    }

    fn new() -> (s: Self)
        ensures
            !s.spilled_spec(),
            s.inline_tier().bound() == A::initial_bound(),
    {
        Spill { inline: A::new(), spill: B::new(), spilled: false }
    }
}

impl<A: Store, B: Store<Elem = A::Elem> + Unbounded> Unbounded for Spill<A, B> {
    proof fn lemma_unbounded(&self) {
        self.spill.lemma_unbounded();
    }
}

} // verus!
