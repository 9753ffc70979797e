//! The element order the sorted collections rely on, stated over `Ord::cmp`.
//!
//! A type's `Ord` is trusted to be a total order consistent with equality
//! (`total_order`); from that, `order_of` is the three-way comparison in spec
//! code and `compare` the executable one.

use vstd::laws_cmp::*;
use vstd::laws_eq::*;
use vstd::prelude::*;
use vstd::std_specs::cmp::{OrdSpec, PartialOrdSpec};
use core::cmp::Ordering;

verus! {

/// The outcome of a three-way comparison.
#[derive(Clone, Copy, PartialEq, Eq, Structural, Debug)]
pub enum Order {
    Less,
    Equal,
    Greater,
}

/// One end of a range query over a sorted collection, as in `core::ops::Bound`.
#[derive(Clone, Copy, PartialEq, Eq, Debug)]
pub enum Bound<T> {
    Included(T),
    Excluded(T),
    Unbounded,
}

/// `T`'s `Ord` is a total order whose `Equal` is equality itself.
pub open spec fn total_order<T: Ord>() -> bool {
    &&& obeys_cmp::<T>()
    &&& obeys_concrete_eq::<T>()
}

/// The three-way comparison of `a` with `b`.
pub open spec fn order_of<T: Ord>(a: T, b: T) -> Order {
    match a.cmp_spec(&b) {
        Ordering::Less => Order::Less,
        Ordering::Equal => Order::Equal,
        Ordering::Greater => Order::Greater,
    }
}

/// `a` sorts strictly before `b`.
pub open spec fn is_less<T: Ord>(a: T, b: T) -> bool {
    order_of(a, b) == Order::Less
}

/// Every element sorts strictly before every later one: ascending, no duplicates.
pub open spec fn strictly_sorted<T: Ord>(s: Seq<T>) -> bool {
    forall|i: int, j: int| 0 <= i < j < s.len() ==> #[trigger] is_less(s[i], s[j])
}

/// Every element sorts no later than every later one: ascending, duplicates allowed.
pub open spec fn ascending<T: Ord>(s: Seq<T>) -> bool {
    forall|i: int, j: int| 0 <= i < j < s.len() ==> !#[trigger] is_less(s[j], s[i])
}

/// The keys of a sequence of entries.
pub open spec fn keys_of<K, V>(s: Seq<(K, V)>) -> Seq<K> {
    s.map_values(|e: (K, V)| e.0)
}

/// The entries are in strictly ascending key order (so no key repeats).
pub open spec fn keys_strictly_sorted<K: Ord, V>(s: Seq<(K, V)>) -> bool {
    strictly_sorted(keys_of(s))
}

/// The total-order laws that `total_order` grants.
pub proof fn lemma_total_order<T: Ord>()
    requires
        total_order::<T>(),
    ensures
        forall|a: T, b: T| #[trigger] order_of(a, b) == Order::Equal <==> a == b,
        forall|a: T, b: T| #[trigger] order_of(a, b) == Order::Less <==> order_of(b, a) == Order::Greater,
        forall|a: T, b: T, c: T| #[trigger] is_less(a, b) && #[trigger] is_less(b, c) ==> is_less(a, c),
{
    reveal(obeys_cmp_partial_ord);
    reveal(obeys_cmp_ord);
    reveal(obeys_partial_cmp_spec_properties);
    reveal(obeys_eq_spec_properties);
    reveal(obeys_concrete_eq);
    assert forall|a: T, b: T| #[trigger] order_of(a, b) == Order::Equal <==> a == b by {
        assert(a.partial_cmp_spec(&b) == Some(a.cmp_spec(&b)));
    }
    assert forall|a: T, b: T| #[trigger] order_of(a, b) == Order::Less <==> order_of(b, a) == Order::Greater by {
        assert(a.partial_cmp_spec(&b) == Some(a.cmp_spec(&b)));
        assert(b.partial_cmp_spec(&a) == Some(b.cmp_spec(&a)));
    }
    assert forall|a: T, b: T, c: T| #[trigger] is_less(a, b) && #[trigger] is_less(b, c) implies is_less(a, c) by {
        assert(a.partial_cmp_spec(&b) == Some(a.cmp_spec(&b)));
        assert(b.partial_cmp_spec(&c) == Some(b.cmp_spec(&c)));
        assert(a.partial_cmp_spec(&c) == Some(a.cmp_spec(&c)));
    }
}

/// Compares `a` with `b` through their `Ord`.
pub fn compare<T: Ord>(a: &T, b: &T) -> (o: Order)
    requires
        total_order::<T>(),
    ensures
        o == order_of(*a, *b),
{
    proof {
        reveal(obeys_cmp_ord);
    }
    match a.cmp(b) {
        Ordering::Less => Order::Less,
        Ordering::Equal => Order::Equal,
        Ordering::Greater => Order::Greater,
    }
}

/// Lexicographic three-way comparison of two sequences, the order slices
/// compare in: the first unequal pair of elements decides, and a proper prefix
/// sorts first.
pub open spec fn lex_order<T: Ord>(a: Seq<T>, b: Seq<T>) -> Order
    decreases a.len(),
{
    if a.len() == 0 {
        if b.len() == 0 {
            Order::Equal
        } else {
            Order::Less
        }
    } else if b.len() == 0 {
        Order::Greater
    } else {
        match order_of(a[0], b[0]) {
            Order::Equal => lex_order(a.drop_first(), b.drop_first()),
            o => o,
        }
    }
}

/// Compares two slices lexicographically through their elements' `Ord`.
pub fn compare_slices<T: Ord>(a: &[T], b: &[T]) -> (o: Order)
    requires
        total_order::<T>(),
    ensures
        o == lex_order(a@, b@),
{
    let n: usize = if a.len() < b.len() { a.len() } else { b.len() };
    let mut i: usize = 0;
    assert(a@.skip(0) =~= a@);
    assert(b@.skip(0) =~= b@);
    while i < n
        invariant
            total_order::<T>(),
            n <= a@.len(),
            n <= b@.len(),
            n == a@.len() || n == b@.len(),
            i <= n,
            lex_order(a@, b@) == lex_order(a@.skip(i as int), b@.skip(i as int)),
        decreases n - i,
    {
        let o = compare(&a[i], &b[i]);
        proof {
            assert(a@.skip(i as int)[0] == a@[i as int]);
            assert(b@.skip(i as int)[0] == b@[i as int]);
        }
        match o {
            Order::Equal => {
                proof {
                    assert(a@.skip(i as int).drop_first() =~= a@.skip(i + 1));
                    assert(b@.skip(i as int).drop_first() =~= b@.skip(i + 1));
                }
                i = i + 1;
            },
            _ => {
                return o;
            },
        }
    }
    if a.len() < b.len() {
        Order::Less
    } else if b.len() < a.len() {
        Order::Greater
    } else {
        Order::Equal
    }
}

/// Whether two slices hold equal elements in the same order, through their
/// elements' `==`.
pub fn slices_equal<T: PartialEq>(a: &[T], b: &[T]) -> (r: bool)
    requires
        exact_eq::<T>(),
    ensures
        r == (a@ == b@),
{
    if a.len() != b.len() {
        return false;
    }
    let mut i: usize = 0;
    while i < a.len()
        invariant
            exact_eq::<T>(),
            a@.len() == b@.len(),
            i <= a@.len(),
            forall|k: int| 0 <= k < i ==> a@[k] == b@[k],
        decreases a@.len() - i,
    {
        if !equal(&a[i], &b[i]) {
            return false;
        }
        i = i + 1;
    }
    assert(a@ =~= b@);
    true
}

/// Binary search of a strictly sorted slice: `Ok(i)` is the index of the
/// element equal to `x`; `Err(i)` is the insertion point that keeps the slice
/// sorted (everything before it is smaller than `x`, everything from it on is
/// larger).
pub(crate) fn search_sorted<T: Ord>(s: &[T], x: &T) -> (r: Result<usize, usize>)
    requires
        total_order::<T>(),
        strictly_sorted(s@),
    ensures
        match r {
            Ok(i) => i < s@.len() && s@[i as int] == *x,
            Err(i) => {
                &&& i <= s@.len()
                &&& forall|k: int| 0 <= k < i ==> is_less(#[trigger] s@[k], *x)
                &&& forall|k: int| i <= k < s@.len() ==> is_less(*x, #[trigger] s@[k])
            },
        },
{
    proof {
        lemma_total_order::<T>();
    }
    let mut lo: usize = 0;
    let mut hi: usize = s.len();
    while lo < hi
        invariant
            lo <= hi <= s@.len(),
            total_order::<T>(),
            strictly_sorted(s@),
            forall|k: int| 0 <= k < lo ==> is_less(#[trigger] s@[k], *x),
            forall|k: int| hi <= k < s@.len() ==> is_less(*x, #[trigger] s@[k]),
        decreases hi - lo,
    {
        proof {
            lemma_total_order::<T>();
        }
        let mid = lo + (hi - lo) / 2;
        let o = compare(&s[mid], x);
        match o {
            Order::Less => {
                assert(o == order_of(s@[mid as int], *x));
                assert(is_less(s@[mid as int], *x));
                assert forall|k: int| 0 <= k <= mid implies is_less(#[trigger] s@[k], *x) by {
                    if k < mid {
                        assert(is_less(s@[k], s@[mid as int]));
                    }
                }
                lo = mid + 1;
            },
            Order::Equal => {
                assert(o == Order::Equal);
                return Ok(mid);
            },
            Order::Greater => {
                assert forall|k: int| mid <= k < s@.len() implies is_less(*x, #[trigger] s@[k]) by {
                    assert(o == order_of(s@[mid as int], *x));
                    assert(is_less(*x, s@[mid as int]));
                    if k > mid {
                        assert(is_less(s@[mid as int], s@[k]));
                    }
                }
                hi = mid;
            },
        }
    }
    Err(lo)
}

/// Binary search of a slice of entries in strictly ascending key order, by key.
pub(crate) fn search_keys<K: Ord, V>(s: &[(K, V)], key: &K) -> (r: Result<usize, usize>)
    requires
        total_order::<K>(),
        keys_strictly_sorted(s@),
    ensures
        match r {
            Ok(i) => i < s@.len() && s@[i as int].0 == *key,
            Err(i) => {
                &&& i <= s@.len()
                &&& forall|k: int| 0 <= k < i ==> is_less(#[trigger] s@[k].0, *key)
                &&& forall|k: int| i <= k < s@.len() ==> is_less(*key, #[trigger] s@[k].0)
            },
        },
{
    proof {
        lemma_total_order::<K>();
    }
    let mut lo: usize = 0;
    let mut hi: usize = s.len();
    while lo < hi
        invariant
            lo <= hi <= s@.len(),
            total_order::<K>(),
            keys_strictly_sorted(s@),
            forall|k: int| 0 <= k < lo ==> is_less(#[trigger] s@[k].0, *key),
            forall|k: int| hi <= k < s@.len() ==> is_less(*key, #[trigger] s@[k].0),
        decreases hi - lo,
    {
        proof {
            lemma_total_order::<K>();
        }
        let mid = lo + (hi - lo) / 2;
        let o = compare(&s[mid].0, key);
        match o {
            Order::Less => {
                assert(o == order_of(s@[mid as int].0, *key));
                assert(is_less(s@[mid as int].0, *key));
                assert forall|k: int| 0 <= k <= mid implies is_less(#[trigger] s@[k].0, *key) by {
                    if k < mid {
                        assert(keys_of(s@)[k] == s@[k].0);
                        assert(keys_of(s@)[mid as int] == s@[mid as int].0);
                        assert(is_less(keys_of(s@)[k], keys_of(s@)[mid as int]));
                    }
                }
                lo = mid + 1;
            },
            Order::Equal => {
                assert(o == Order::Equal);
                return Ok(mid);
            },
            Order::Greater => {
                assert forall|k: int| mid <= k < s@.len() implies is_less(*key, #[trigger] s@[k].0) by {
                    assert(o == order_of(s@[mid as int].0, *key));
                    assert(is_less(*key, s@[mid as int].0));
                    if k > mid {
                        assert(keys_of(s@)[k] == s@[k].0);
                        assert(keys_of(s@)[mid as int] == s@[mid as int].0);
                        assert(is_less(keys_of(s@)[mid as int], keys_of(s@)[k]));
                    }
                }
                hi = mid;
            },
        }
    }
    Err(lo)
}

/// Inserting at the insertion point keeps a sequence strictly sorted.
pub proof fn lemma_insert_sorted<T: Ord>(s: Seq<T>, i: int, x: T)
    requires
        total_order::<T>(),
        strictly_sorted(s),
        0 <= i <= s.len(),
        forall|k: int| 0 <= k < i ==> is_less(#[trigger] s[k], x),
        forall|k: int| i <= k < s.len() ==> is_less(x, #[trigger] s[k]),
    ensures
        strictly_sorted(s.insert(i, x)),
        s.insert(i, x).to_set() == s.to_set().insert(x),
{
    lemma_total_order::<T>();
    s.insert_ensures(i, x);
    let t = s.insert(i, x);
    assert forall|a: int, b: int| 0 <= a < b < t.len() implies #[trigger] is_less(t[a], t[b]) by {
        if b < i {
        } else if b == i {
        } else if a < i {
            assert(t[b] == s[b - 1]);
            assert(is_less(x, s[b - 1]));
        } else if a == i {
            assert(t[b] == s[b - 1]);
        } else {
            assert(t[a] == s[a - 1]);
            assert(t[b] == s[b - 1]);
        }
    }
    assert(t.to_set() =~= s.to_set().insert(x)) by {
        assert forall|y: T| t.contains(y) <==> (s.contains(y) || y == x) by {
            if t.contains(y) {
                let k = choose|k: int| 0 <= k < t.len() && t[k] == y;
                if k < i {
                    assert(s[k] == y);
                } else if k > i {
                    assert(s[k - 1] == y);
                }
            }
            if s.contains(y) {
                let k = choose|k: int| 0 <= k < s.len() && s[k] == y;
                if k < i {
                    assert(t[k] == y);
                } else {
                    assert(t[k + 1] == y);
                }
            }
            if y == x {
                assert(t[i] == x);
            }
        }
    }
}

/// Removing an element keeps a sequence strictly sorted, and removes exactly
/// that element from its set.
pub proof fn lemma_remove_sorted<T: Ord>(s: Seq<T>, i: int)
    requires
        total_order::<T>(),
        strictly_sorted(s),
        0 <= i < s.len(),
    ensures
        strictly_sorted(s.remove(i)),
        s.remove(i).to_set() == s.to_set().remove(s[i]),
{
    lemma_total_order::<T>();
    s.remove_ensures(i);
    let t = s.remove(i);
    assert forall|a: int, b: int| 0 <= a < b < t.len() implies #[trigger] is_less(t[a], t[b]) by {
        let a0 = if a < i { a } else { a + 1 };
        let b0 = if b < i { b } else { b + 1 };
        assert(t[a] == s[a0]);
        assert(t[b] == s[b0]);
        assert(is_less(s[a0], s[b0]));
    }
    assert(t.to_set() =~= s.to_set().remove(s[i])) by {
        assert forall|y: T| t.contains(y) <==> (s.contains(y) && y != s[i]) by {
            if t.contains(y) {
                let k = choose|k: int| 0 <= k < t.len() && t[k] == y;
                let k0 = if k < i { k } else { k + 1 };
                assert(s[k0] == y);
                if k0 < i {
                    assert(is_less(s[k0], s[i]));
                } else {
                    assert(is_less(s[i], s[k0]));
                }
            }
            if s.contains(y) && y != s[i] {
                let k = choose|k: int| 0 <= k < s.len() && s[k] == y;
                if k < i {
                    assert(t[k] == y);
                } else {
                    assert(t[k - 1] == y);
                }
            }
        }
    }
}

/// The range's start is not greater than its end (an unbounded side is
/// never out of order).
pub open spec fn range_ordered<T: Ord>(start: Bound<&T>, end: Bound<&T>) -> bool {
    match (start, end) {
        (Bound::Included(a), Bound::Included(b)) => !is_less(*b, *a),
        (Bound::Included(a), Bound::Excluded(b)) => !is_less(*b, *a),
        (Bound::Excluded(a), Bound::Included(b)) => !is_less(*b, *a),
        (Bound::Excluded(a), Bound::Excluded(b)) => !is_less(*b, *a),
        _ => true,
    }
}

/// `x` lies on the admitted side of the range's start bound.
pub open spec fn admits_start<T: Ord>(start: Bound<&T>, x: T) -> bool {
    match start {
        Bound::Included(q) => !is_less(x, *q),
        Bound::Excluded(q) => is_less(*q, x),
        Bound::Unbounded => true,
    }
}

/// `x` lies on the admitted side of the range's end bound.
pub open spec fn admits_end<T: Ord>(end: Bound<&T>, x: T) -> bool {
    match end {
        Bound::Included(q) => !is_less(*q, x),
        Bound::Excluded(q) => is_less(x, *q),
        Bound::Unbounded => true,
    }
}

/// The index where the range starts in a strictly sorted slice: everything
/// before it is excluded by the start bound, everything from it on admitted.
pub(crate) fn start_index<T: Ord>(s: &[T], start: Bound<&T>) -> (i: usize)
    requires
        total_order::<T>(),
        strictly_sorted(s@),
    ensures
        i <= s@.len(),
        forall|k: int| 0 <= k < i ==> !admits_start(start, #[trigger] s@[k]),
        forall|k: int| i <= k < s@.len() ==> admits_start(start, #[trigger] s@[k]),
{
    proof {
        lemma_total_order::<T>();
    }
    match start {
        Bound::Unbounded => 0,
        Bound::Included(q) => match search_sorted(s, q) {
            Ok(i) => {
                assert forall|k: int| 0 <= k < i implies !admits_start(start, #[trigger] s@[k]) by {
                    assert(is_less(s@[k], s@[i as int]));
                }
                assert forall|k: int| i <= k < s@.len() implies admits_start(start, #[trigger] s@[k]) by {
                    if k > i {
                        assert(is_less(s@[i as int], s@[k]));
                    } else {
                        assert(order_of(*q, *q) == Order::Equal);
                    }
                }
                i
            },
            Err(i) => i,
        },
        Bound::Excluded(q) => match search_sorted(s, q) {
            Ok(i) => {
                assert forall|k: int| 0 <= k < i + 1 implies !admits_start(start, #[trigger] s@[k]) by {
                    if k < i {
                        assert(is_less(s@[k], s@[i as int]));
                    } else {
                        assert(order_of(*q, *q) == Order::Equal);
                    }
                }
                assert forall|k: int| i + 1 <= k < s@.len() implies admits_start(start, #[trigger] s@[k]) by {
                    assert(is_less(s@[i as int], s@[k]));
                }
                assert(i < s.len()) by {
                    broadcast use vstd::slice::axiom_spec_len;
                }
                i + 1
            },
            Err(i) => i,
        },
    }
}

/// The index where the range ends in a strictly sorted slice: everything
/// before it is admitted by the end bound, everything from it on excluded.
pub(crate) fn end_index<T: Ord>(s: &[T], end: Bound<&T>) -> (i: usize)
    requires
        total_order::<T>(),
        strictly_sorted(s@),
    ensures
        i <= s@.len(),
        forall|k: int| 0 <= k < i ==> admits_end(end, #[trigger] s@[k]),
        forall|k: int| i <= k < s@.len() ==> !admits_end(end, #[trigger] s@[k]),
{
    proof {
        lemma_total_order::<T>();
    }
    match end {
        Bound::Unbounded => s.len(),
        Bound::Included(q) => match search_sorted(s, q) {
            Ok(i) => {
                assert forall|k: int| 0 <= k < i + 1 implies admits_end(end, #[trigger] s@[k]) by {
                    if k < i {
                        assert(is_less(s@[k], s@[i as int]));
                    } else {
                        assert(order_of(*q, *q) == Order::Equal);
                    }
                }
                assert forall|k: int| i + 1 <= k < s@.len() implies !admits_end(end, #[trigger] s@[k]) by {
                    assert(is_less(s@[i as int], s@[k]));
                }
                assert(i < s.len()) by {
                    broadcast use vstd::slice::axiom_spec_len;
                }
                i + 1
            },
            Err(i) => i,
        },
        Bound::Excluded(q) => match search_sorted(s, q) {
            Ok(i) => {
                assert forall|k: int| 0 <= k < i implies admits_end(end, #[trigger] s@[k]) by {
                    assert(is_less(s@[k], s@[i as int]));
                }
                assert forall|k: int| i <= k < s@.len() implies !admits_end(end, #[trigger] s@[k]) by {
                    if k > i {
                        assert(is_less(s@[i as int], s@[k]));
                    } else {
                        assert(order_of(*q, *q) == Order::Equal);
                    }
                }
                i
            },
            Err(i) => i,
        },
    }
}

/// The index where a key range starts in entries sorted by key: every entry
/// before it is excluded by the start bound, every entry from it on admitted.
pub(crate) fn key_start_index<K: Ord, V>(s: &[(K, V)], start: Bound<&K>) -> (i: usize)
    requires
        total_order::<K>(),
        keys_strictly_sorted(s@),
    ensures
        i <= s@.len(),
        forall|k: int| 0 <= k < i ==> !admits_start(start, #[trigger] s@[k].0),
        forall|k: int| i <= k < s@.len() ==> admits_start(start, #[trigger] s@[k].0),
{
    proof {
        lemma_total_order::<K>();
    }
    match start {
        Bound::Unbounded => 0,
        Bound::Included(q) => match search_keys(s, q) {
            Ok(i) => {
                assert forall|k: int| 0 <= k < i implies !admits_start(start, #[trigger] s@[k].0) by {
                    assert(keys_of(s@)[k] == s@[k].0 && keys_of(s@)[i as int] == s@[i as int].0);
                    assert(is_less(s@[k].0, s@[i as int].0));
                }
                assert forall|k: int| i <= k < s@.len() implies admits_start(start, #[trigger] s@[k].0) by {
                    if k > i {
                        assert(keys_of(s@)[k] == s@[k].0 && keys_of(s@)[i as int] == s@[i as int].0);
                        assert(is_less(s@[i as int].0, s@[k].0));
                    } else {
                        assert(order_of(*q, *q) == Order::Equal);
                    }
                }
                i
            },
            Err(i) => i,
        },
        Bound::Excluded(q) => match search_keys(s, q) {
            Ok(i) => {
                assert forall|k: int| 0 <= k < i + 1 implies !admits_start(start, #[trigger] s@[k].0) by {
                    if k < i {
                        assert(keys_of(s@)[k] == s@[k].0 && keys_of(s@)[i as int] == s@[i as int].0);
                        assert(is_less(s@[k].0, s@[i as int].0));
                    } else {
                        assert(order_of(*q, *q) == Order::Equal);
                    }
                }
                assert forall|k: int| i + 1 <= k < s@.len() implies admits_start(start, #[trigger] s@[k].0) by {
                    assert(keys_of(s@)[k] == s@[k].0 && keys_of(s@)[i as int] == s@[i as int].0);
                    assert(is_less(s@[i as int].0, s@[k].0));
                }
                assert(i < s.len()) by {
                    broadcast use vstd::slice::axiom_spec_len;
                }
                i + 1
            },
            Err(i) => i,
        },
    }
}

/// The index where a key range ends in entries sorted by key: every entry
/// before it is admitted by the end bound, every entry from it on excluded.
pub(crate) fn key_end_index<K: Ord, V>(s: &[(K, V)], end: Bound<&K>) -> (i: usize)
    requires
        total_order::<K>(),
        keys_strictly_sorted(s@),
    ensures
        i <= s@.len(),
        forall|k: int| 0 <= k < i ==> admits_end(end, #[trigger] s@[k].0),
        forall|k: int| i <= k < s@.len() ==> !admits_end(end, #[trigger] s@[k].0),
{
    proof {
        lemma_total_order::<K>();
    }
    match end {
        Bound::Unbounded => s.len(),
        Bound::Included(q) => match search_keys(s, q) {
            Ok(i) => {
                assert forall|k: int| 0 <= k < i + 1 implies admits_end(end, #[trigger] s@[k].0) by {
                    if k < i {
                        assert(keys_of(s@)[k] == s@[k].0 && keys_of(s@)[i as int] == s@[i as int].0);
                        assert(is_less(s@[k].0, s@[i as int].0));
                    } else {
                        assert(order_of(*q, *q) == Order::Equal);
                    }
                }
                assert forall|k: int| i + 1 <= k < s@.len() implies !admits_end(end, #[trigger] s@[k].0) by {
                    assert(keys_of(s@)[k] == s@[k].0 && keys_of(s@)[i as int] == s@[i as int].0);
                    assert(is_less(s@[i as int].0, s@[k].0));
                }
                assert(i < s.len()) by {
                    broadcast use vstd::slice::axiom_spec_len;
                }
                i + 1
            },
            Err(i) => i,
        },
        Bound::Excluded(q) => match search_keys(s, q) {
            Ok(i) => {
                assert forall|k: int| 0 <= k < i implies admits_end(end, #[trigger] s@[k].0) by {
                    assert(keys_of(s@)[k] == s@[k].0 && keys_of(s@)[i as int] == s@[i as int].0);
                    assert(is_less(s@[k].0, s@[i as int].0));
                }
                assert forall|k: int| i <= k < s@.len() implies !admits_end(end, #[trigger] s@[k].0) by {
                    if k > i {
                        assert(keys_of(s@)[k] == s@[k].0 && keys_of(s@)[i as int] == s@[i as int].0);
                        assert(is_less(s@[i as int].0, s@[k].0));
                    } else {
                        assert(order_of(*q, *q) == Order::Equal);
                    }
                }
                i
            },
            Err(i) => i,
        },
    }
}

/// Orders two entries by their keys: the keys' own `cmp`, wherever `K`'s
/// `Ord` follows its specification.
fn entry_key_cmp<K: Ord, V>(a: &(K, V), b: &(K, V)) -> (o: Ordering)
    ensures
        K::obeys_cmp_spec() ==> o == a.0.cmp_spec(&b.0),
{
    a.0.cmp(&b.0)
}

/// Sorts entries by key (`<[T]>::sort_unstable_by` comparing keys): the
/// result is a permutation of the input with keys in ascending order.
#[verifier::external_body]
pub(crate) fn sort_entries_by_key<K: Ord, V>(s: &mut [(K, V)])
    requires
        total_order::<K>(),
    ensures
        final(s)@.to_multiset() == old(s)@.to_multiset(),
        ascending(keys_of(final(s)@)),
{
    s.sort_unstable_by(|a, b| entry_key_cmp(a, b))
}

/// `T`'s `==` is equality itself.
pub open spec fn exact_eq<T: PartialEq>() -> bool {
    obeys_concrete_eq::<T>()
}

/// Compares `a` with `b` through their `PartialEq`.
pub fn equal<T: PartialEq>(a: &T, b: &T) -> (r: bool)
    requires
        exact_eq::<T>(),
    ensures
        r == (*a == *b),
{
    proof {
        reveal(obeys_concrete_eq);
    }
    a == b
}

/// A total order's equality is exact.
pub proof fn lemma_total_order_exact_eq<T: Ord>()
    requires
        total_order::<T>(),
    ensures
        exact_eq::<T>(),
{
}

/// Whether any element of `haystack` equals `needle`. Scans fixed-size chunks
/// of eight with a full OR-fold per chunk (no early exit within a chunk), then
/// the sub-chunk tail with an early exit.
pub(crate) fn chunked_contains<T: PartialEq>(haystack: &[T], needle: &T) -> (r: bool)
    requires
        exact_eq::<T>(),
    ensures
        r == haystack@.contains(*needle),
{
    let n = haystack.len();
    let full = n - n % 8;
    let mut base: usize = 0;
    while base < full
        invariant
            exact_eq::<T>(),
            n == haystack@.len(),
            full <= n,
            full % 8 == 0,
            base % 8 == 0,
            base <= full,
            forall|k: int| 0 <= k < base ==> haystack@[k] != *needle,
        decreases full - base,
    {
        let mut hit = false;
        let mut lane: usize = 0;
        while lane < 8
            invariant
                exact_eq::<T>(),
                n == haystack@.len(),
                base + 8 <= full <= n,
                lane <= 8,
                hit == exists|k: int| base <= k < base + lane && haystack@[k] == *needle,
            decreases 8 - lane,
        {
            let eq = equal(&haystack[base + lane], needle);
            hit = hit || eq;
            lane = lane + 1;
        }
        if hit {
            return true;
        }
        base = base + 8;
    }
    let mut k = full;
    while k < n
        invariant
            exact_eq::<T>(),
            n == haystack@.len(),
            full <= k <= n,
            forall|j: int| 0 <= j < k ==> haystack@[j] != *needle,
        decreases n - k,
    {
        if equal(&haystack[k], needle) {
            return true;
        }
        k = k + 1;
    }
    false
}

} // verus!
