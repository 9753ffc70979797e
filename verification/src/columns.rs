//! Shared machinery of the column maps, which keep keys and values in two
//! parallel stores: the pairing of the two columns into entries, the combined
//! capacity, the chunked key scan, aligned insertion and removal, retention,
//! and iteration.
//!
//! A column map is modelled by `zip_columns(keys, values)`, the entry sequence
//! the two columns stand for, so the entry-sequence lemmas of the row maps
//! carry over.

use vstd::prelude::*;
use crate::entries::{with_values};
use crate::error::CapacityError;
use crate::order::{equal, exact_eq, keys_of};
use crate::store::{
    filter_kept, lemma_filter_kept_step, slice_swap, split_first_mut, swap_removed, truncate_to,
    Store, StoreMut,
};

verus! {

/// The entries two aligned columns stand for.
pub open spec fn zip_columns<K, V>(ks: Seq<K>, vs: Seq<V>) -> Seq<(K, V)> {
    Seq::new(ks.len(), |i: int| (ks[i], vs[i]))
}

/// The tighter of two optional bounds.
pub open spec fn combined_bound(a: Option<usize>, b: Option<usize>) -> Option<usize> {
    match (a, b) {
        (Some(x), Some(y)) => Some(if x < y { x } else { y }),
        (Some(x), None) => Some(x),
        (None, Some(y)) => Some(y),
        (None, None) => None,
    }
}

/// The capacity of a pair of columns: the smaller of their bounds.
pub fn combined_capacity(a: Option<usize>, b: Option<usize>) -> (r: Option<usize>)
    ensures
        r == combined_bound(a, b),
{
    match (a, b) {
        (Some(x), Some(y)) => Some(if x < y { x } else { y }),
        (Some(x), None) => Some(x),
        (None, Some(y)) => Some(y),
        (None, None) => None,
    }
}

/// Pairing aligned columns: the keys of the pairs are the key column.
pub proof fn lemma_zip_keys<K, V>(ks: Seq<K>, vs: Seq<V>)
    requires
        ks.len() == vs.len(),
    ensures
        keys_of(zip_columns(ks, vs)) == ks,
        zip_columns(ks, vs).len() == ks.len(),
{
    assert(keys_of(zip_columns(ks, vs)) =~= ks);
}

/// Edits applied to both columns alike are the same edit of the pairs.
pub proof fn lemma_zip_edits<K, V>(ks: Seq<K>, vs: Seq<V>)
    requires
        ks.len() == vs.len(),
    ensures
        forall|k: K, v: V| #[trigger] zip_columns(ks.push(k), vs.push(v)) == zip_columns(ks, vs).push((k, v)),
        forall|i: int, k: K, v: V| 0 <= i <= ks.len() ==> #[trigger] zip_columns(ks.insert(i, k), vs.insert(i, v)) == zip_columns(ks, vs).insert(i, (k, v)),
        forall|i: int| 0 <= i < ks.len() ==> #[trigger] zip_columns(ks.remove(i), vs.remove(i)) == zip_columns(ks, vs).remove(i),
        forall|i: int| 0 <= i < ks.len() ==> #[trigger] zip_columns(swap_removed(ks, i), swap_removed(vs, i)) == swap_removed(zip_columns(ks, vs), i),
        forall|i: int, v: V| 0 <= i < ks.len() ==> #[trigger] zip_columns(ks, vs.update(i, v)) == zip_columns(ks, vs).update(i, (ks[i], v)),
{
    let z = zip_columns(ks, vs);
    assert forall|k: K, v: V| #[trigger] zip_columns(ks.push(k), vs.push(v)) == z.push((k, v)) by {
        assert(zip_columns(ks.push(k), vs.push(v)) =~= z.push((k, v)));
    }
    assert forall|i: int, k: K, v: V| 0 <= i <= ks.len() implies #[trigger] zip_columns(ks.insert(i, k), vs.insert(i, v)) == z.insert(i, (k, v)) by {
        assert(zip_columns(ks.insert(i, k), vs.insert(i, v)) =~= z.insert(i, (k, v)));
    }
    assert forall|i: int| 0 <= i < ks.len() implies #[trigger] zip_columns(ks.remove(i), vs.remove(i)) == z.remove(i) by {
        assert(zip_columns(ks.remove(i), vs.remove(i)) =~= z.remove(i));
    }
    assert forall|i: int| 0 <= i < ks.len() implies #[trigger] zip_columns(swap_removed(ks, i), swap_removed(vs, i)) == swap_removed(z, i) by {
        assert(zip_columns(swap_removed(ks, i), swap_removed(vs, i)) =~= swap_removed(z, i));
    }
    assert forall|i: int, v: V| 0 <= i < ks.len() implies #[trigger] zip_columns(ks, vs.update(i, v)) == z.update(i, (ks[i], v)) by {
        assert(zip_columns(ks, vs.update(i, v)) =~= z.update(i, (ks[i], v)));
    }
}

/// The index of the first key equal to `needle`. Scans fixed-size chunks of
/// eight with a full OR-fold per chunk, locating the hit inside the chunk that
/// reports one, then scans the sub-chunk tail.
pub fn chunked_position<K: PartialEq>(keys: &[K], needle: &K) -> (r: Option<usize>)
    requires
        exact_eq::<K>(),
    ensures
        match r {
            Some(i) => {
                &&& i < keys@.len()
                &&& keys@[i as int] == *needle
                &&& forall|j: int| 0 <= j < i ==> #[trigger] keys@[j] != *needle
            },
            None => forall|j: int| 0 <= j < keys@.len() ==> #[trigger] keys@[j] != *needle,
        },
{
    let n = keys.len();
    let full = n - n % 8;
    let mut base: usize = 0;
    while base < full
        invariant
            exact_eq::<K>(),
            n == keys@.len(),
            full <= n,
            full % 8 == 0,
            base % 8 == 0,
            base <= full,
            forall|j: int| 0 <= j < base ==> #[trigger] keys@[j] != *needle,
        decreases full - base,
    {
        let mut hit = false;
        let mut lane: usize = 0;
        while lane < 8
            invariant
                exact_eq::<K>(),
                n == keys@.len(),
                base + 8 <= full <= n,
                lane <= 8,
                hit == exists|j: int| base <= j < base + lane && keys@[j] == *needle,
            decreases 8 - lane,
        {
            let eq = equal(&keys[base + lane], needle);
            hit = hit || eq;
            lane = lane + 1;
        }
        if hit {
            let mut k = base;
            while k < base + 8
                invariant
                    exact_eq::<K>(),
                    n == keys@.len(),
                    base + 8 <= n,
                    base <= k <= base + 8,
                    exists|j: int| k <= j < base + 8 && keys@[j] == *needle,
                    forall|j: int| 0 <= j < k ==> #[trigger] keys@[j] != *needle,
                decreases base + 8 - k,
            {
                if equal(&keys[k], needle) {
                    return Some(k);
                }
                k = k + 1;
            }
            return None;
        }
        base = base + 8;
    }
    let mut k = full;
    while k < n
        invariant
            exact_eq::<K>(),
            n == keys@.len(),
            full <= k <= n,
            forall|j: int| 0 <= j < k ==> #[trigger] keys@[j] != *needle,
        decreases n - k,
    {
        if equal(&keys[k], needle) {
            return Some(k);
        }
        k = k + 1;
    }
    None
}

/// Inserts `(key, value)` at index `i` of both columns, after checking the
/// combined capacity; neither column changes when the pair is refused.
pub(crate) fn insert_pair_at<K, V, SK: StoreMut<Elem = K>, SV: StoreMut<Elem = V>>(
    keys: &mut SK,
    values: &mut SV,
    i: usize,
    key: K,
    value: V,
) -> (r: Result<(), CapacityError<(K, V)>>)
    requires
        old(keys).well_formed(),
        old(values).well_formed(),
        old(keys).elems().len() == old(values).elems().len(),
        i <= old(keys).elems().len(),
    ensures
        final(keys).well_formed(),
        final(values).well_formed(),
        final(keys).bound() == old(keys).bound(),
        final(values).bound() == old(values).bound(),
        match r {
            Ok(_) => {
                &&& final(keys).elems() == old(keys).elems().insert(i as int, key)
                &&& final(values).elems() == old(values).elems().insert(i as int, value)
            },
            Err(e) => {
                &&& e.rejected() == (key, value)
                &&& final(keys).elems() == old(keys).elems()
                &&& final(values).elems() == old(values).elems()
                &&& combined_bound(old(keys).bound(), old(values).bound()) == Some(old(keys).elems().len() as usize)
            },
        },
{
    proof {
        keys.lemma_within_bound();
        values.lemma_within_bound();
    }
    let cap = combined_capacity(keys.max_capacity(), values.max_capacity());
    if let Some(c) = cap {
        if keys.len() >= c {
            return Err(CapacityError((key, value)));
        }
    }
    match keys.try_insert_at(i, key) {
        Ok(()) => {},
        Err(e) => {
            return Err(CapacityError((e.into_inner(), value)));
        },
    }
    match values.try_insert_at(i, value) {
        Ok(()) => Ok(()),
        Err(e) => {
            assert(false);
            Err(CapacityError((keys.remove_at(i), e.into_inner())))
        },
    }
}

/// Calls `f` on the key and value at `i`; `f` may edit the value.
fn visit_column<K, V, F: FnMut(&K, &mut V) -> bool>(ks: &[K], vs: &mut [V], i: usize, f: &mut F) -> (b: bool)
    requires
        i < ks@.len(),
        ks@.len() == old(vs)@.len(),
        forall|k: &K, v: &mut V| call_requires(*old(f), (k, v)),
    ensures
        final(vs)@.len() == old(vs)@.len(),
        forall|j: int| 0 <= j < old(vs)@.len() && j != i ==> final(vs)@[j] == old(vs)@[j],
        *final(f) == *old(f),
        exists|r: &mut V| {
            &&& *r == old(vs)@[i as int]
            &&& *final(r) == final(vs)@[i as int]
            &&& call_ensures(*old(f), (&ks@[i as int], r), b)
        },
{
    f(&ks[i], &mut vs[i])
}

/// Keeps only the pairs for which `f` returns `true`, preserving their order
/// and their alignment; `f` sees each key and may edit its value. Keys are
/// never changed.
pub(crate) fn retain_columns<K, V, SK: StoreMut<Elem = K>, SV: StoreMut<Elem = V>, F: FnMut(&K, &mut V) -> bool>(
    keys: &mut SK,
    values: &mut SV,
    f: F,
)
    requires
        old(keys).well_formed(),
        old(values).well_formed(),
        old(keys).elems().len() == old(values).elems().len(),
        forall|k: &K, v: &mut V| call_requires(f, (k, v)),
    ensures
        final(keys).well_formed(),
        final(values).well_formed(),
        final(keys).bound() == old(keys).bound(),
        final(values).bound() == old(values).bound(),
        final(keys).elems().len() == final(values).elems().len(),
        exists|vals: Seq<V>, keep: Seq<bool>, refs: Seq<&mut V>|
            #![trigger with_values(zip_columns(old(keys).elems(), old(values).elems()), vals), keep.len(), refs.len()]
        {
            &&& vals.len() == old(keys).elems().len()
            &&& keep.len() == old(keys).elems().len()
            &&& refs.len() == old(keys).elems().len()
            &&& forall|i: int| #![trigger refs[i]] 0 <= i < keep.len() ==> {
                &&& *refs[i] == old(values).elems()[i]
                &&& *final(refs[i]) == vals[i]
                &&& call_ensures(f, (&old(keys).elems()[i], refs[i]), keep[i])
            }
            &&& zip_columns(final(keys).elems(), final(values).elems()) == filter_kept(
                with_values(zip_columns(old(keys).elems(), old(values).elems()), vals),
                keep,
            )
        },
{
    let ghost f0 = f;
    let mut f = f;
    let ghost ks0 = keys.elems();
    let ghost vs0 = values.elems();
    let ghost start = zip_columns(ks0, vs0);
    let ghost mut vals: Seq<V> = Seq::empty();
    let ghost mut keep: Seq<bool> = Seq::empty();
    let n = keys.len();
    let mut write: usize = 0;
    let mut read: usize = 0;
    assert(Seq::<&mut V>::empty().len() == 0);
    while read < n
        invariant
            keys.well_formed(),
            values.well_formed(),
            keys.bound() == old(keys).bound(),
            values.bound() == old(values).bound(),
            ks0 == old(keys).elems(),
            vs0 == old(values).elems(),
            start == zip_columns(ks0, vs0),
            n == ks0.len(),
            n == vs0.len(),
            keys.elems().len() == n,
            values.elems().len() == n,
            write <= read <= n,
            vals.len() == read,
            keep.len() == read,
            forall|k: &K, v: &mut V| call_requires(f, (k, v)),
            f == f0,
            exists|refs: Seq<&mut V>| #![trigger refs.len()] {
                &&& refs.len() == read
                &&& forall|i: int| #![trigger refs[i]] 0 <= i < read ==> {
                    &&& *refs[i] == vs0[i]
                    &&& *final(refs[i]) == vals[i]
                    &&& call_ensures(f0, (&ks0[i], refs[i]), keep[i])
                }
            },
            zip_columns(keys.elems(), values.elems()).subrange(0, write as int) == filter_kept(with_values(start.subrange(0, read as int), vals), keep),
            keys.elems().subrange(read as int, n as int) == ks0.subrange(read as int, n as int),
            values.elems().subrange(read as int, n as int) == vs0.subrange(read as int, n as int),
        decreases n - read,
    {
        let ghost kb = keys.elems();
        let ghost vb = values.elems();
        assert(kb[read as int] == ks0[read as int]) by {
            assert(kb.subrange(read as int, n as int)[0] == kb[read as int]);
        }
        assert(vb[read as int] == vs0[read as int]) by {
            assert(vb.subrange(read as int, n as int)[0] == vb[read as int]);
        }
        let ghost keep0 = keep;
        let ghost vals0 = vals;
        let ghost read0: int = read as int;
        let vs = values.as_mut_slice();
        let b = visit_column(keys.as_slice(), vs, read, &mut f);
        let ghost v = vs@[read as int];
        proof {
            let w0 = with_values(start.subrange(0, read as int), vals);
            lemma_filter_kept_step(w0, keep, (ks0[read as int], v), b);
            assert(w0.push((ks0[read as int], v)) =~= with_values(start.subrange(0, read + 1), vals.push(v)));
            vals = vals.push(v);
            keep = keep.push(b);
        }
        if b {
            if write != read {
                slice_swap(vs, write, read);
                let ks = keys.as_mut_slice();
                slice_swap(ks, write, read);
            }
            write = write + 1;
        }
        read = read + 1;
        proof {
            let z = zip_columns(keys.elems(), values.elems());
            assert(z.subrange(0, write as int) =~= filter_kept(with_values(start.subrange(0, read as int), vals), keep));
            assert(keys.elems().subrange(read as int, n as int) =~= ks0.subrange(read as int, n as int)) by {
                assert forall|k: int| read <= k < n implies keys.elems()[k] == ks0[k] by {
                    assert(kb.subrange((read - 1) as int, n as int)[k - (read - 1)] == kb[k]);
                }
            }
            assert(values.elems().subrange(read as int, n as int) =~= vs0.subrange(read as int, n as int)) by {
                assert forall|k: int| read <= k < n implies values.elems()[k] == vs0[k] by {
                    assert(vb.subrange((read - 1) as int, n as int)[k - (read - 1)] == vb[k]);
                }
            }
            let prev = choose|refs: Seq<&mut V>| #![trigger refs.len()] {
                &&& refs.len() == read0
                &&& forall|i: int| #![trigger refs[i]] 0 <= i < read0 ==> {
                    &&& *refs[i] == vs0[i]
                    &&& *final(refs[i]) == vals0[i]
                    &&& call_ensures(f0, (&ks0[i], refs[i]), keep0[i])
                }
            };
            let r = choose|r: &mut V| {
                &&& *r == vs0[read0]
                &&& *final(r) == v
                &&& call_ensures(f0, (&ks0[read0], r), b)
            };
            let next = prev.push(r);
            assert forall|i: int| #![trigger next[i]] 0 <= i < read implies {
                &&& *next[i] == vs0[i]
                &&& *final(next[i]) == vals[i]
                &&& call_ensures(f0, (&ks0[i], next[i]), keep[i])
            } by {
                if i < read0 {
                    assert(keep[i] == keep0[i]);
                    assert(vals[i] == vals0[i]);
                    assert(next[i] == prev[i]);
                }
            }
            assert(next.len() == read);
        }
    }
    let ghost kf = keys.elems();
    let ghost vf = values.elems();
    truncate_to(keys, write);
    truncate_to(values, write);
    proof {
        assert(start.subrange(0, n as int) =~= start);
        assert(zip_columns(keys.elems(), values.elems()) =~= zip_columns(kf, vf).subrange(0, write as int));
    }
}

/// Iterator over a column map's pairs as `(&K, &V)`, from either end.
#[derive(Clone, Debug)]
pub struct ColumnIter<'a, K, V> {
    keys: &'a [K],
    values: &'a [V],
    front: usize,
    back: usize,
}

impl<'a, K, V> ColumnIter<'a, K, V> {
    /// The iterator's cursors lie within its aligned columns.
    pub closed spec fn wf(&self) -> bool {
        &&& self.keys@.len() == self.values@.len()
        &&& self.front <= self.back <= self.keys@.len()
    }

    /// The pairs not yet yielded, front to back.
    pub closed spec fn remaining(&self) -> Seq<(K, V)> {
        zip_columns(self.keys@, self.values@).subrange(self.front as int, self.back as int)
    }

    pub(crate) fn new(keys: &'a [K], values: &'a [V]) -> (it: Self)
        requires
            keys@.len() == values@.len(),
        ensures
            it.wf(),
            it.remaining() == zip_columns(keys@, values@),
    {
        let it = ColumnIter { keys, values, front: 0, back: keys.len() };
        assert(it.remaining() =~= zip_columns(keys@, values@));
        it
    }

    /// Yields the next pair from the front.
    pub fn next(&mut self) -> (r: Option<(&'a K, &'a V)>)
        requires
            old(self).wf(),
        ensures
            final(self).wf(),
            old(self).remaining().len() == 0 ==> r is None && final(self).remaining() == old(self).remaining(),
            old(self).remaining().len() > 0 ==> {
                &&& r matches Some((k, v))
                &&& *k == old(self).remaining()[0].0
                &&& *v == old(self).remaining()[0].1
                &&& final(self).remaining() == old(self).remaining().drop_first()
            },
    {
        if self.front < self.back {
            let i = self.front;
            self.front = self.front + 1;
            assert(self.remaining() =~= old(self).remaining().drop_first());
            Some((&self.keys[i], &self.values[i]))
        } else {
            None
        }
    }

    /// Yields the next pair from the back.
    pub fn next_back(&mut self) -> (r: Option<(&'a K, &'a V)>)
        requires
            old(self).wf(),
        ensures
            final(self).wf(),
            old(self).remaining().len() == 0 ==> r is None && final(self).remaining() == old(self).remaining(),
            old(self).remaining().len() > 0 ==> {
                &&& r matches Some((k, v))
                &&& *k == old(self).remaining().last().0
                &&& *v == old(self).remaining().last().1
                &&& final(self).remaining() == old(self).remaining().drop_last()
            },
    {
        if self.front < self.back {
            self.back = self.back - 1;
            let i = self.back;
            assert(self.remaining() =~= old(self).remaining().drop_last());
            Some((&self.keys[i], &self.values[i]))
        } else {
            None
        }
    }

    /// The number of pairs not yet yielded.
    pub fn len(&self) -> (n: usize)
        requires
            self.wf(),
        ensures
            n == self.remaining().len(),
    {
        self.back - self.front
    }
}

/// Iterator over a column map's pairs as `(&K, &mut V)`: the key column is
/// shared, only values can be edited.
pub struct ColumnIterMut<'a, K, V> {
    pub keys: &'a [K],
    pub rest: &'a mut [V],
}

impl<'a, K, V> ColumnIterMut<'a, K, V> {
    /// The pairs not yet yielded, as they stand.
    pub open spec fn remaining(&self) -> Seq<(K, V)> {
        zip_columns(self.keys@, self.rest@)
    }

    /// Yields the next pair. Whatever is later written through the value
    /// reference becomes that value's final state.
    pub fn next(&mut self) -> (r: Option<(&'a K, &'a mut V)>)
        requires
            old(self).keys@.len() == old(self).rest@.len(),
        ensures
            final(self).keys@.len() == final(self).rest@.len(),
            old(self).rest@.len() == 0 ==> r is None && final(old(self).rest)@ == old(self).rest@,
            old(self).rest@.len() > 0 ==> {
                &&& r matches Some((k, v))
                &&& *k == old(self).keys@[0]
                &&& *v == old(self).rest@[0]
                &&& final(self).keys@ == old(self).keys@.drop_first()
                &&& final(self).rest@ == old(self).rest@.drop_first()
                &&& final(old(self).rest)@ == seq![*final(v)] + final(final(self).rest)@
            },
    {
        let mut rest: &'a mut [V] = &mut [];
        core::mem::swap(&mut rest, &mut self.rest);
        match split_first_mut(rest) {
            None => None,
            Some((head, tail)) => {
                self.rest = tail;
                let (k1, ks) = self.keys.split_at(1);
                self.keys = ks;
                assert(ks@ =~= old(self).keys@.drop_first());
                Some((&k1[0], head))
            },
        }
    }
}

} // verus!
