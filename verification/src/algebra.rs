//! Merge-based set algebra over two strictly ascending slices: the subset and
//! disjointness predicates, and the union / intersection / difference /
//! symmetric-difference iterators behind the sorted set's algebra methods.
//!
//! Each iterator's output is specified as a merge over the two slices, and a
//! lemma proves what that merge is: the strictly ascending sequence of exactly
//! the elements the set operation selects.

use vstd::prelude::*;
use crate::order::{compare, is_less, lemma_total_order, order_of, search_sorted, strictly_sorted, total_order, Order};

verus! {

/// `x` sorts strictly before every element of `s`.
pub open spec fn below_all<T: Ord>(x: T, s: Seq<T>) -> bool {
    forall|k: int| 0 <= k < s.len() ==> is_less(x, #[trigger] s[k])
}

/// The union of two strictly ascending sequences, merged.
pub open spec fn merge_union<T: Ord>(a: Seq<T>, b: Seq<T>) -> Seq<T>
    decreases a.len() + b.len(),
{
    if a.len() == 0 {
        b
    } else if b.len() == 0 {
        a
    } else {
        match order_of(a[0], b[0]) {
            Order::Less => seq![a[0]] + merge_union(a.drop_first(), b),
            Order::Greater => seq![b[0]] + merge_union(a, b.drop_first()),
            Order::Equal => seq![a[0]] + merge_union(a.drop_first(), b.drop_first()),
        }
    }
}

/// The intersection of two strictly ascending sequences, merged.
pub open spec fn merge_intersection<T: Ord>(a: Seq<T>, b: Seq<T>) -> Seq<T>
    decreases a.len() + b.len(),
{
    if a.len() == 0 || b.len() == 0 {
        Seq::empty()
    } else {
        match order_of(a[0], b[0]) {
            Order::Less => merge_intersection(a.drop_first(), b),
            Order::Greater => merge_intersection(a, b.drop_first()),
            Order::Equal => seq![a[0]] + merge_intersection(a.drop_first(), b.drop_first()),
        }
    }
}

/// The elements of `a` not in `b`, merged.
pub open spec fn merge_difference<T: Ord>(a: Seq<T>, b: Seq<T>) -> Seq<T>
    decreases a.len() + b.len(),
{
    if a.len() == 0 {
        Seq::empty()
    } else if b.len() == 0 {
        a
    } else {
        match order_of(a[0], b[0]) {
            Order::Less => seq![a[0]] + merge_difference(a.drop_first(), b),
            Order::Greater => merge_difference(a, b.drop_first()),
            Order::Equal => merge_difference(a.drop_first(), b.drop_first()),
        }
    }
}

/// The elements in exactly one of `a` and `b`, merged.
pub open spec fn merge_symmetric<T: Ord>(a: Seq<T>, b: Seq<T>) -> Seq<T>
    decreases a.len() + b.len(),
{
    if a.len() == 0 {
        b
    } else if b.len() == 0 {
        a
    } else {
        match order_of(a[0], b[0]) {
            Order::Less => seq![a[0]] + merge_symmetric(a.drop_first(), b),
            Order::Greater => seq![b[0]] + merge_symmetric(a, b.drop_first()),
            Order::Equal => merge_symmetric(a.drop_first(), b.drop_first()),
        }
    }
}

/// A merged union holds at least the longer input and at most both.
pub proof fn lemma_union_len<T: Ord>(a: Seq<T>, b: Seq<T>)
    ensures
        a.len() <= merge_union(a, b).len(),
        b.len() <= merge_union(a, b).len(),
        merge_union(a, b).len() <= a.len() + b.len(),
    decreases a.len() + b.len(),
{
    if a.len() > 0 && b.len() > 0 {
        match order_of(a[0], b[0]) {
            Order::Less => lemma_union_len(a.drop_first(), b),
            Order::Greater => lemma_union_len(a, b.drop_first()),
            Order::Equal => lemma_union_len(a.drop_first(), b.drop_first()),
        }
    }
}

/// A merged intersection is no longer than either input.
pub proof fn lemma_intersection_len<T: Ord>(a: Seq<T>, b: Seq<T>)
    ensures
        merge_intersection(a, b).len() <= a.len(),
        merge_intersection(a, b).len() <= b.len(),
    decreases a.len() + b.len(),
{
    if a.len() > 0 && b.len() > 0 {
        match order_of(a[0], b[0]) {
            Order::Less => lemma_intersection_len(a.drop_first(), b),
            Order::Greater => lemma_intersection_len(a, b.drop_first()),
            Order::Equal => lemma_intersection_len(a.drop_first(), b.drop_first()),
        }
    }
}

/// A merged difference keeps at most all of `a`, and loses at most one
/// element of `a` per element of `b`.
pub proof fn lemma_difference_len<T: Ord>(a: Seq<T>, b: Seq<T>)
    ensures
        a.len() - b.len() <= merge_difference(a, b).len(),
        merge_difference(a, b).len() <= a.len(),
    decreases a.len() + b.len(),
{
    if a.len() > 0 && b.len() > 0 {
        match order_of(a[0], b[0]) {
            Order::Less => lemma_difference_len(a.drop_first(), b),
            Order::Greater => lemma_difference_len(a, b.drop_first()),
            Order::Equal => lemma_difference_len(a.drop_first(), b.drop_first()),
        }
    }
}

/// A merged symmetric difference holds at least the length gap of the inputs
/// and at most both.
pub proof fn lemma_symmetric_len<T: Ord>(a: Seq<T>, b: Seq<T>)
    ensures
        a.len() - b.len() <= merge_symmetric(a, b).len(),
        b.len() - a.len() <= merge_symmetric(a, b).len(),
        merge_symmetric(a, b).len() <= a.len() + b.len(),
    decreases a.len() + b.len(),
{
    if a.len() > 0 && b.len() > 0 {
        match order_of(a[0], b[0]) {
            Order::Less => lemma_symmetric_len(a.drop_first(), b),
            Order::Greater => lemma_symmetric_len(a, b.drop_first()),
            Order::Equal => lemma_symmetric_len(a.drop_first(), b.drop_first()),
        }
    }
}

proof fn lemma_sorted_tail<T: Ord>(s: Seq<T>)
    requires
        strictly_sorted(s),
        s.len() > 0,
    ensures
        strictly_sorted(s.drop_first()),
        below_all(s[0], s.drop_first()),
{
    assert forall|i: int, j: int| 0 <= i < j < s.drop_first().len() implies #[trigger] is_less(s.drop_first()[i], s.drop_first()[j]) by {
        assert(is_less(s[i + 1], s[j + 1]));
    }
    assert forall|k: int| 0 <= k < s.drop_first().len() implies is_less(s[0], #[trigger] s.drop_first()[k]) by {
        assert(is_less(s[0], s[k + 1]));
    }
}

proof fn lemma_prepend_sorted<T: Ord>(x: T, s: Seq<T>)
    requires
        strictly_sorted(s),
        below_all(x, s),
    ensures
        strictly_sorted(seq![x] + s),
        (seq![x] + s).to_set() == s.to_set().insert(x),
{
    let t = seq![x] + s;
    assert forall|i: int, j: int| 0 <= i < j < t.len() implies #[trigger] is_less(t[i], t[j]) by {
        if i == 0 {
            assert(t[j] == s[j - 1]);
        } else {
            assert(t[i] == s[i - 1] && t[j] == s[j - 1]);
        }
    }
    assert(t.to_set() =~= s.to_set().insert(x)) by {
        assert forall|y: T| t.contains(y) <==> (s.contains(y) || y == x) by {
            if t.contains(y) {
                let k = choose|k: int| 0 <= k < t.len() && t[k] == y;
                if k > 0 {
                    assert(s[k - 1] == y);
                }
            }
            if s.contains(y) {
                let k = choose|k: int| 0 <= k < s.len() && s[k] == y;
                assert(t[k + 1] == y);
            }
            if y == x {
                assert(t[0] == x);
            }
        }
    }
}

proof fn lemma_drop_first_set<T>(s: Seq<T>)
    requires
        s.len() > 0,
    ensures
        s.to_set() == s.drop_first().to_set().insert(s[0]),
{
    assert(s =~= seq![s[0]] + s.drop_first());
    assert(s.to_set() =~= s.drop_first().to_set().insert(s[0])) by {
        assert forall|y: T| s.contains(y) <==> (s.drop_first().contains(y) || y == s[0]) by {
            if s.contains(y) {
                let k = choose|k: int| 0 <= k < s.len() && s[k] == y;
                if k > 0 {
                    assert(s.drop_first()[k - 1] == y);
                }
            }
            if s.drop_first().contains(y) {
                let k = choose|k: int| 0 <= k < s.drop_first().len() && s.drop_first()[k] == y;
                assert(s[k + 1] == y);
            }
        }
    }
}

/// In a strictly ascending sequence, the first element is not in the tail.
proof fn lemma_head_not_in_tail<T: Ord>(s: Seq<T>)
    requires
        total_order::<T>(),
        strictly_sorted(s),
        s.len() > 0,
    ensures
        !s.drop_first().contains(s[0]),
{
    lemma_total_order::<T>();
    lemma_sorted_tail(s);
    if s.drop_first().contains(s[0]) {
        let k = choose|k: int| 0 <= k < s.drop_first().len() && s.drop_first()[k] == s[0];
        assert(is_less(s[0], s.drop_first()[k]));
        assert(order_of(s[0], s[0]) == Order::Equal);
    }
}

/// The merged union is strictly ascending and holds exactly the elements of
/// either input.
pub proof fn lemma_merge_union<T: Ord>(a: Seq<T>, b: Seq<T>)
    requires
        total_order::<T>(),
        strictly_sorted(a),
        strictly_sorted(b),
    ensures
        strictly_sorted(merge_union(a, b)),
        merge_union(a, b).to_set() == a.to_set() + b.to_set(),
    decreases a.len() + b.len(),
{
    lemma_total_order::<T>();
    if a.len() == 0 {
        assert(a.to_set() + b.to_set() =~= b.to_set());
    } else if b.len() == 0 {
        assert(a.to_set() + b.to_set() =~= a.to_set());
    } else {
        lemma_sorted_tail(a);
        lemma_sorted_tail(b);
        lemma_drop_first_set(a);
        lemma_drop_first_set(b);
        match order_of(a[0], b[0]) {
            Order::Less => {
                let rest = merge_union(a.drop_first(), b);
                lemma_merge_union(a.drop_first(), b);
                assert(below_all(a[0], rest)) by {
                    assert forall|k: int| 0 <= k < rest.len() implies is_less(a[0], #[trigger] rest[k]) by {
                        assert(rest.to_set().contains(rest[k]));
                        if a.drop_first().contains(rest[k]) {
                            let m = choose|m: int| 0 <= m < a.drop_first().len() && a.drop_first()[m] == rest[k];
                            assert(is_less(a[0], a.drop_first()[m]));
                        } else {
                            assert(b.to_set().contains(rest[k]));
                            let m = choose|m: int| 0 <= m < b.len() && b[m] == rest[k];
                            if m > 0 {
                                assert(is_less(b[0], b[m]));
                                assert(is_less(a[0], b[0]));
                                assert(is_less(a[0], b[m]));
                            } else {
                                assert(is_less(a[0], b[0]));
                            }
                        }
                    }
                }
                lemma_prepend_sorted(a[0], rest);
                assert(merge_union(a, b).to_set() =~= a.to_set() + b.to_set());
            },
            Order::Greater => {
                let rest = merge_union(a, b.drop_first());
                lemma_merge_union(a, b.drop_first());
                assert(is_less(b[0], a[0]));
                assert(below_all(b[0], rest)) by {
                    assert forall|k: int| 0 <= k < rest.len() implies is_less(b[0], #[trigger] rest[k]) by {
                        assert(rest.to_set().contains(rest[k]));
                        if b.drop_first().contains(rest[k]) {
                            let m = choose|m: int| 0 <= m < b.drop_first().len() && b.drop_first()[m] == rest[k];
                            assert(is_less(b[0], b.drop_first()[m]));
                        } else {
                            assert(a.to_set().contains(rest[k]));
                            let m = choose|m: int| 0 <= m < a.len() && a[m] == rest[k];
                            if m > 0 {
                                assert(is_less(a[0], a[m]));
                                assert(is_less(b[0], a[m]));
                            }
                        }
                    }
                }
                lemma_prepend_sorted(b[0], rest);
                assert(merge_union(a, b).to_set() =~= a.to_set() + b.to_set());
            },
            Order::Equal => {
                let rest = merge_union(a.drop_first(), b.drop_first());
                lemma_merge_union(a.drop_first(), b.drop_first());
                assert(a[0] == b[0]);
                assert(below_all(a[0], rest)) by {
                    assert forall|k: int| 0 <= k < rest.len() implies is_less(a[0], #[trigger] rest[k]) by {
                        assert(rest.to_set().contains(rest[k]));
                        if a.drop_first().contains(rest[k]) {
                            let m = choose|m: int| 0 <= m < a.drop_first().len() && a.drop_first()[m] == rest[k];
                            assert(is_less(a[0], a.drop_first()[m]));
                        } else {
                            assert(b.drop_first().to_set().contains(rest[k]));
                            let m = choose|m: int| 0 <= m < b.drop_first().len() && b.drop_first()[m] == rest[k];
                            assert(is_less(b[0], b.drop_first()[m]));
                        }
                    }
                }
                lemma_prepend_sorted(a[0], rest);
                assert(merge_union(a, b).to_set() =~= a.to_set() + b.to_set());
            },
        }
    }
}

/// The merged intersection is strictly ascending and holds exactly the
/// elements of both inputs.
pub proof fn lemma_merge_intersection<T: Ord>(a: Seq<T>, b: Seq<T>)
    requires
        total_order::<T>(),
        strictly_sorted(a),
        strictly_sorted(b),
    ensures
        strictly_sorted(merge_intersection(a, b)),
        merge_intersection(a, b).to_set() == a.to_set().intersect(b.to_set()),
    decreases a.len() + b.len(),
{
    lemma_total_order::<T>();
    if a.len() == 0 || b.len() == 0 {
        assert(a.to_set().intersect(b.to_set()) =~= Set::<T>::empty());
        assert(merge_intersection(a, b).to_set() =~= Set::<T>::empty());
    } else {
        lemma_sorted_tail(a);
        lemma_sorted_tail(b);
        lemma_drop_first_set(a);
        lemma_drop_first_set(b);
        lemma_head_not_in_tail(a);
        lemma_head_not_in_tail(b);
        match order_of(a[0], b[0]) {
            Order::Less => {
                lemma_merge_intersection(a.drop_first(), b);
                assert(!b.contains(a[0])) by {
                    if b.contains(a[0]) {
                        let m = choose|m: int| 0 <= m < b.len() && b[m] == a[0];
                        if m > 0 {
                            assert(is_less(b[0], b[m]));
                        }
                    }
                }
                assert(a.to_set().intersect(b.to_set()) =~= a.drop_first().to_set().intersect(b.to_set()));
            },
            Order::Greater => {
                lemma_merge_intersection(a, b.drop_first());
                assert(!a.contains(b[0])) by {
                    if a.contains(b[0]) {
                        let m = choose|m: int| 0 <= m < a.len() && a[m] == b[0];
                        assert(is_less(b[0], a[0]));
                        if m > 0 {
                            assert(is_less(a[0], a[m]));
                        }
                    }
                }
                assert(a.to_set().intersect(b.to_set()) =~= a.to_set().intersect(b.drop_first().to_set()));
            },
            Order::Equal => {
                let rest = merge_intersection(a.drop_first(), b.drop_first());
                lemma_merge_intersection(a.drop_first(), b.drop_first());
                assert(below_all(a[0], rest)) by {
                    assert forall|k: int| 0 <= k < rest.len() implies is_less(a[0], #[trigger] rest[k]) by {
                        assert(rest.to_set().contains(rest[k]));
                        let m = choose|m: int| 0 <= m < a.drop_first().len() && a.drop_first()[m] == rest[k];
                    }
                }
                lemma_prepend_sorted(a[0], rest);
                assert(a.to_set().intersect(b.to_set()) =~= a.drop_first().to_set().intersect(b.drop_first().to_set()).insert(a[0]));
            },
        }
    }
}

/// The merged difference is strictly ascending and holds exactly the elements
/// of `a` that are not in `b`.
pub proof fn lemma_merge_difference<T: Ord>(a: Seq<T>, b: Seq<T>)
    requires
        total_order::<T>(),
        strictly_sorted(a),
        strictly_sorted(b),
    ensures
        strictly_sorted(merge_difference(a, b)),
        merge_difference(a, b).to_set() == a.to_set().difference(b.to_set()),
    decreases a.len() + b.len(),
{
    lemma_total_order::<T>();
    if a.len() == 0 {
        assert(a.to_set().difference(b.to_set()) =~= Set::<T>::empty());
        assert(merge_difference(a, b).to_set() =~= Set::<T>::empty());
    } else if b.len() == 0 {
        assert(a.to_set().difference(b.to_set()) =~= a.to_set());
    } else {
        lemma_sorted_tail(a);
        lemma_sorted_tail(b);
        lemma_drop_first_set(a);
        lemma_drop_first_set(b);
        lemma_head_not_in_tail(a);
        lemma_head_not_in_tail(b);
        match order_of(a[0], b[0]) {
            Order::Less => {
                let rest = merge_difference(a.drop_first(), b);
                lemma_merge_difference(a.drop_first(), b);
                assert(!b.contains(a[0])) by {
                    if b.contains(a[0]) {
                        let m = choose|m: int| 0 <= m < b.len() && b[m] == a[0];
                        if m > 0 {
                            assert(is_less(b[0], b[m]));
                        }
                    }
                }
                assert(below_all(a[0], rest)) by {
                    assert forall|k: int| 0 <= k < rest.len() implies is_less(a[0], #[trigger] rest[k]) by {
                        assert(rest.to_set().contains(rest[k]));
                        let m = choose|m: int| 0 <= m < a.drop_first().len() && a.drop_first()[m] == rest[k];
                    }
                }
                lemma_prepend_sorted(a[0], rest);
                assert(a.to_set().difference(b.to_set()) =~= a.drop_first().to_set().difference(b.to_set()).insert(a[0]));
            },
            Order::Greater => {
                lemma_merge_difference(a, b.drop_first());
                assert(!a.contains(b[0])) by {
                    if a.contains(b[0]) {
                        let m = choose|m: int| 0 <= m < a.len() && a[m] == b[0];
                        assert(is_less(b[0], a[0]));
                        if m > 0 {
                            assert(is_less(a[0], a[m]));
                        }
                    }
                }
                assert(a.to_set().difference(b.to_set()) =~= a.to_set().difference(b.drop_first().to_set()));
            },
            Order::Equal => {
                lemma_merge_difference(a.drop_first(), b.drop_first());
                assert(a.to_set().difference(b.to_set()) =~= a.drop_first().to_set().difference(b.drop_first().to_set()));
            },
        }
    }
}

/// The merged symmetric difference is strictly ascending and holds exactly
/// the elements in one input but not the other.
pub proof fn lemma_merge_symmetric<T: Ord>(a: Seq<T>, b: Seq<T>)
    requires
        total_order::<T>(),
        strictly_sorted(a),
        strictly_sorted(b),
    ensures
        strictly_sorted(merge_symmetric(a, b)),
        merge_symmetric(a, b).to_set() == a.to_set().difference(b.to_set()) + b.to_set().difference(a.to_set()),
    decreases a.len() + b.len(),
{
    lemma_total_order::<T>();
    if a.len() == 0 {
        assert(a.to_set().difference(b.to_set()) + b.to_set().difference(a.to_set()) =~= b.to_set());
    } else if b.len() == 0 {
        assert(a.to_set().difference(b.to_set()) + b.to_set().difference(a.to_set()) =~= a.to_set());
    } else {
        lemma_sorted_tail(a);
        lemma_sorted_tail(b);
        lemma_drop_first_set(a);
        lemma_drop_first_set(b);
        lemma_head_not_in_tail(a);
        lemma_head_not_in_tail(b);
        let sym = |x: Set<T>, y: Set<T>| x.difference(y) + y.difference(x);
        match order_of(a[0], b[0]) {
            Order::Less => {
                let rest = merge_symmetric(a.drop_first(), b);
                lemma_merge_symmetric(a.drop_first(), b);
                assert(!b.contains(a[0])) by {
                    if b.contains(a[0]) {
                        let m = choose|m: int| 0 <= m < b.len() && b[m] == a[0];
                        if m > 0 {
                            assert(is_less(b[0], b[m]));
                        }
                    }
                }
                assert(below_all(a[0], rest)) by {
                    assert forall|k: int| 0 <= k < rest.len() implies is_less(a[0], #[trigger] rest[k]) by {
                        assert(rest.to_set().contains(rest[k]));
                        if a.drop_first().contains(rest[k]) {
                            let m = choose|m: int| 0 <= m < a.drop_first().len() && a.drop_first()[m] == rest[k];
                            assert(is_less(a[0], a.drop_first()[m]));
                        } else {
                            assert(b.to_set().contains(rest[k]));
                            assert(b.contains(rest[k]));
                            let m = choose|m: int| 0 <= m < b.len() && b[m] == rest[k];
                            if m > 0 {
                                assert(is_less(b[0], b[m]));
                                assert(is_less(a[0], b[0]));
                                assert(is_less(a[0], b[m]));
                            } else {
                                assert(is_less(a[0], b[0]));
                            }
                        }
                    }
                }
                lemma_prepend_sorted(a[0], rest);
                assert(sym(a.to_set(), b.to_set()) =~= sym(a.drop_first().to_set(), b.to_set()).insert(a[0]));
            },
            Order::Greater => {
                let rest = merge_symmetric(a, b.drop_first());
                lemma_merge_symmetric(a, b.drop_first());
                assert(is_less(b[0], a[0]));
                assert(!a.contains(b[0])) by {
                    if a.contains(b[0]) {
                        let m = choose|m: int| 0 <= m < a.len() && a[m] == b[0];
                        if m > 0 {
                            assert(is_less(a[0], a[m]));
                        }
                    }
                }
                assert(below_all(b[0], rest)) by {
                    assert forall|k: int| 0 <= k < rest.len() implies is_less(b[0], #[trigger] rest[k]) by {
                        assert(rest.to_set().contains(rest[k]));
                        if b.drop_first().contains(rest[k]) {
                            let m = choose|m: int| 0 <= m < b.drop_first().len() && b.drop_first()[m] == rest[k];
                        } else {
                            assert(a.to_set().contains(rest[k]));
                            assert(a.contains(rest[k]));
                            let m = choose|m: int| 0 <= m < a.len() && a[m] == rest[k];
                            if m > 0 {
                                assert(is_less(a[0], a[m]));
                            }
                        }
                    }
                }
                lemma_prepend_sorted(b[0], rest);
                assert(sym(a.to_set(), b.to_set()) =~= sym(a.to_set(), b.drop_first().to_set()).insert(b[0]));
            },
            Order::Equal => {
                lemma_merge_symmetric(a.drop_first(), b.drop_first());
                assert(sym(a.to_set(), b.to_set()) =~= sym(a.drop_first().to_set(), b.drop_first().to_set()));
            },
        }
    }
}

/// A strictly ascending sequence has as many distinct elements as entries.
pub proof fn lemma_sorted_card<T: Ord>(s: Seq<T>)
    requires
        total_order::<T>(),
        strictly_sorted(s),
    ensures
        s.to_set().len() == s.len(),
        s.no_duplicates(),
{
    lemma_total_order::<T>();
    assert forall|i: int, j: int| 0 <= i < s.len() && 0 <= j < s.len() && i != j implies s[i] != s[j] by {
        if i < j {
            assert(is_less(s[i], s[j]));
        } else {
            assert(is_less(s[j], s[i]));
        }
    }
    s.unique_seq_to_set();
}

/// The element at `i` is smaller than every later element, so it is in `s`
/// only at `i`: nothing smaller than `s[lo]` after `lo` ... (helper for
/// membership arguments over a sorted sequence).
proof fn lemma_not_in_sorted<T: Ord>(s: Seq<T>, x: T, j: int)
    requires
        total_order::<T>(),
        strictly_sorted(s),
        0 <= j <= s.len(),
        forall|m: int| 0 <= m < j ==> is_less(#[trigger] s[m], x),
        j < s.len() ==> is_less(x, s[j]),
    ensures
        !s.contains(x),
{
    lemma_total_order::<T>();
    if s.contains(x) {
        let m = choose|m: int| 0 <= m < s.len() && s[m] == x;
        if m < j {
            assert(is_less(s[m], x));
            assert(order_of(x, x) == Order::Equal);
        } else {
            if m > j {
                assert(is_less(s[j], s[m]));
            }
            assert(order_of(x, x) == Order::Equal);
        }
    }
}

/// Whether every element of sorted `a` is in sorted `b`: a linear merge walk,
/// or per-element binary searches when `a` is at least 16 times smaller.
pub(crate) fn is_subset<T: Ord>(a: &[T], b: &[T]) -> (r: bool)
    requires
        total_order::<T>(),
        strictly_sorted(a@),
        strictly_sorted(b@),
    ensures
        r == a@.to_set().subset_of(b@.to_set()),
{
    proof {
        lemma_total_order::<T>();
    }
    if a.len() > b.len() {
        proof {
            lemma_sorted_card(a@);
            lemma_sorted_card(b@);
            broadcast use vstd::seq_lib::seq_to_set_is_finite;
            if a@.to_set().subset_of(b@.to_set()) {
                vstd::set_lib::lemma_len_subset(a@.to_set(), b@.to_set());
            }
        }
        return false;
    }
    let much_smaller = match a.len().checked_mul(16) {
        Some(p) => p <= b.len(),
        None => b.len() == usize::MAX,
    };
    if much_smaller {
        let mut lo: usize = 0;
        let mut i: usize = 0;
        while i < a.len()
            invariant
                total_order::<T>(),
                strictly_sorted(a@),
                strictly_sorted(b@),
                i <= a@.len(),
                lo <= b@.len(),
                forall|k: int| 0 <= k < i ==> b@.contains(#[trigger] a@[k]),
                forall|m: int, k: int| 0 <= m < lo && i <= k < a@.len() ==> is_less(#[trigger] b@[m], #[trigger] a@[k]),
            decreases a@.len() - i,
        {
            proof {
                lemma_total_order::<T>();
            }
            let (_, rest) = b.split_at(lo);
            assert(strictly_sorted(rest@)) by {
                assert forall|p: int, q: int| 0 <= p < q < rest@.len() implies #[trigger] is_less(rest@[p], rest@[q]) by {
                    assert(is_less(b@[lo + p], b@[lo + q]));
                }
            }
            match search_sorted(rest, &a[i]) {
                Ok(idx) => {
                    assert(rest@.len() == b@.len() - lo);
                    assert(lo + idx + 1 <= b.len());
                    assert(b@[lo + idx] == a@[i as int]);
                    assert forall|m: int, k: int| 0 <= m < lo + idx + 1 && i + 1 <= k < a@.len() implies is_less(#[trigger] b@[m], #[trigger] a@[k]) by {
                        assert(is_less(a@[i as int], a@[k]));
                        if m >= lo {
                            assert(rest@[m - lo] == b@[m]);
                            if m < lo + idx {
                                assert(is_less(b@[m], a@[i as int]));
                            }
                        } else {
                            assert(is_less(b@[m], a@[i as int]));
                        }
                    }
                    lo = lo + idx + 1;
                },
                Err(idx) => {
                    proof {
                        assert forall|m: int| 0 <= m < lo + idx implies is_less(#[trigger] b@[m], a@[i as int]) by {
                            if m >= lo {
                                assert(rest@[m - lo] == b@[m]);
                            }
                        }
                        if lo + idx < b@.len() {
                            assert(rest@[idx as int] == b@[lo + idx]);
                        }
                        lemma_not_in_sorted(b@, a@[i as int], lo + idx);
                        assert(a@.to_set().contains(a@[i as int]));
                    }
                    return false;
                },
            }
            i = i + 1;
        }
        assert(a@.to_set().subset_of(b@.to_set()));
        return true;
    }
    let mut i: usize = 0;
    let mut j: usize = 0;
    while i < a.len()
        invariant
            total_order::<T>(),
            strictly_sorted(a@),
            strictly_sorted(b@),
            i <= a@.len(),
            j <= b@.len(),
            forall|k: int| 0 <= k < i ==> b@.contains(#[trigger] a@[k]),
            forall|m: int, k: int| 0 <= m < j && i <= k < a@.len() ==> is_less(#[trigger] b@[m], #[trigger] a@[k]),
        decreases (a@.len() - i) + (b@.len() - j),
    {
        proof {
            lemma_total_order::<T>();
        }
        if j == b.len() {
            proof {
                lemma_not_in_sorted(b@, a@[i as int], j as int);
                assert(a@.to_set().contains(a@[i as int]));
            }
            return false;
        }
        let o = compare(&b[j], &a[i]);
        match o {
            Order::Less => {
                assert(is_less(b@[j as int], a@[i as int]));
                assert forall|m: int, k: int| 0 <= m < j + 1 && i <= k < a@.len() implies is_less(#[trigger] b@[m], #[trigger] a@[k]) by {
                    if m == j && k > i {
                        assert(is_less(a@[i as int], a@[k]));
                    }
                }
                j = j + 1;
            },
            Order::Equal => {
                assert(b@[j as int] == a@[i as int]);
                assert forall|m: int, k: int| 0 <= m < j + 1 && i + 1 <= k < a@.len() implies is_less(#[trigger] b@[m], #[trigger] a@[k]) by {
                    assert(is_less(a@[i as int], a@[k]));
                }
                i = i + 1;
                j = j + 1;
            },
            Order::Greater => {
                proof {
                    assert(is_less(a@[i as int], b@[j as int]));
                    lemma_not_in_sorted(b@, a@[i as int], j as int);
                    assert(a@.to_set().contains(a@[i as int]));
                }
                return false;
            },
        }
    }
    true
}

/// Whether sorted `a` and sorted `b` share no element: iterates the smaller
/// side, by binary search when it is at least 16 times smaller, else by a
/// linear merge walk.
pub(crate) fn is_disjoint<T: Ord>(a: &[T], b: &[T]) -> (r: bool)
    requires
        total_order::<T>(),
        strictly_sorted(a@),
        strictly_sorted(b@),
    ensures
        r == a@.to_set().disjoint(b@.to_set()),
{
    if a.len() > b.len() {
        let r = disjoint_walk(b, a);
        assert(b@.to_set().disjoint(a@.to_set()) == a@.to_set().disjoint(b@.to_set()));
        r
    } else {
        disjoint_walk(a, b)
    }
}

/// The disjointness walk with `a` the smaller side.
fn disjoint_walk<T: Ord>(a: &[T], b: &[T]) -> (r: bool)
    requires
        total_order::<T>(),
        strictly_sorted(a@),
        strictly_sorted(b@),
    ensures
        r == a@.to_set().disjoint(b@.to_set()),
{
    proof {
        lemma_total_order::<T>();
    }
    let much_smaller = match a.len().checked_mul(16) {
        Some(p) => p <= b.len(),
        None => b.len() == usize::MAX,
    };
    if much_smaller {
        let mut lo: usize = 0;
        let mut i: usize = 0;
        while i < a.len()
            invariant
                total_order::<T>(),
                strictly_sorted(a@),
                strictly_sorted(b@),
                i <= a@.len(),
                lo <= b@.len(),
                forall|k: int| 0 <= k < i ==> !b@.contains(#[trigger] a@[k]),
                forall|m: int, k: int| 0 <= m < lo && i <= k < a@.len() ==> is_less(#[trigger] b@[m], #[trigger] a@[k]),
            decreases a@.len() - i,
        {
            proof {
                lemma_total_order::<T>();
            }
            let (_, rest) = b.split_at(lo);
            assert(strictly_sorted(rest@)) by {
                assert forall|p: int, q: int| 0 <= p < q < rest@.len() implies #[trigger] is_less(rest@[p], rest@[q]) by {
                    assert(is_less(b@[lo + p], b@[lo + q]));
                }
            }
            match search_sorted(rest, &a[i]) {
                Ok(idx) => {
                    proof {
                        assert(b@[lo + idx] == a@[i as int]);
                        assert(a@.to_set().contains(a@[i as int]));
                        assert(b@.to_set().contains(a@[i as int]));
                    }
                    return false;
                },
                Err(idx) => {
                    assert(rest@.len() == b@.len() - lo);
                    proof {
                        assert forall|m: int| 0 <= m < lo + idx implies is_less(#[trigger] b@[m], a@[i as int]) by {
                            if m >= lo {
                                assert(rest@[m - lo] == b@[m]);
                            }
                        }
                        if lo + idx < b@.len() {
                            assert(rest@[idx as int] == b@[lo + idx]);
                        }
                        lemma_not_in_sorted(b@, a@[i as int], lo + idx);
                    }
                    assert forall|m: int, k: int| 0 <= m < lo + idx && i + 1 <= k < a@.len() implies is_less(#[trigger] b@[m], #[trigger] a@[k]) by {
                        assert(is_less(a@[i as int], a@[k]));
                        if m >= lo {
                            assert(rest@[m - lo] == b@[m]);
                        }
                        assert(is_less(b@[m], a@[i as int]));
                    }
                    assert(lo + idx <= b.len());
                    lo = lo + idx;
                },
            }
            i = i + 1;
        }
        proof {
            assert forall|x: T| !(a@.to_set().contains(x) && b@.to_set().contains(x)) by {
                if a@.contains(x) {
                    let k = choose|k: int| 0 <= k < a@.len() && a@[k] == x;
                    assert(!b@.contains(a@[k]));
                }
            }
        }
        return true;
    }
    let mut i: usize = 0;
    let mut j: usize = 0;
    while i < a.len() && j < b.len()
        invariant
            total_order::<T>(),
            strictly_sorted(a@),
            strictly_sorted(b@),
            i <= a@.len(),
            j <= b@.len(),
            forall|k: int| 0 <= k < i ==> !b@.contains(#[trigger] a@[k]),
            forall|m: int| 0 <= m < j ==> !a@.contains(#[trigger] b@[m]),
        decreases (a@.len() - i) + (b@.len() - j),
    {
        proof {
            lemma_total_order::<T>();
        }
        let o = compare(&a[i], &b[j]);
        match o {
            Order::Less => {
                proof {
                    assert(is_less(a@[i as int], b@[j as int]));
                    if b@.contains(a@[i as int]) {
                        let m = choose|m: int| 0 <= m < b@.len() && b@[m] == a@[i as int];
                        if m < j {
                            assert(!a@.contains(b@[m]));
                            assert(a@[i as int] == b@[m]);
                        } else {
                            if m > j {
                                assert(is_less(b@[j as int], b@[m]));
                            }
                            assert(order_of(a@[i as int], a@[i as int]) == Order::Equal);
                        }
                    }
                }
                i = i + 1;
            },
            Order::Greater => {
                proof {
                    assert(is_less(b@[j as int], a@[i as int]));
                    if a@.contains(b@[j as int]) {
                        let m = choose|m: int| 0 <= m < a@.len() && a@[m] == b@[j as int];
                        if m < i {
                            assert(!b@.contains(a@[m]));
                            assert(b@[j as int] == a@[m]);
                        } else {
                            if m > i {
                                assert(is_less(a@[i as int], a@[m]));
                            }
                            assert(order_of(b@[j as int], b@[j as int]) == Order::Equal);
                        }
                    }
                }
                j = j + 1;
            },
            Order::Equal => {
                proof {
                    assert(a@[i as int] == b@[j as int]);
                    assert(a@.to_set().contains(a@[i as int]));
                    assert(b@.to_set().contains(b@[j as int]));
                }
                return false;
            },
        }
    }
    proof {
        assert forall|x: T| !(a@.to_set().contains(x) && b@.to_set().contains(x)) by {
            if a@.contains(x) && b@.contains(x) {
                let k = choose|k: int| 0 <= k < a@.len() && a@[k] == x;
                let m = choose|m: int| 0 <= m < b@.len() && b@[m] == x;
                if i == a@.len() {
                    assert(!b@.contains(a@[k]));
                } else {
                    assert(!a@.contains(b@[m]));
                }
            }
        }
    }
    true
}

/// The slice without its first element.
fn tail<'a, T>(s: &'a [T]) -> (t: &'a [T])
    requires
        s@.len() > 0,
    ensures
        t@ == s@.drop_first(),
{
    let (_, t) = s.split_at(1);
    t
}

/// Ascending iterator over the elements in `a`, `b`, or both — see
/// [`SortedSet::union`](crate::SortedSet::union).
#[derive(Clone, Debug)]
pub struct Union<'a, T> {
    a: &'a [T],
    b: &'a [T],
}

impl<'a, T: Ord> Union<'a, T> {
    /// Both remaining inputs are strictly ascending.
    pub closed spec fn wf(&self) -> bool {
        &&& total_order::<T>()
        &&& strictly_sorted(self.a@)
        &&& strictly_sorted(self.b@)
    }

    /// The elements still to be yielded, in order.
    pub closed spec fn remaining(&self) -> Seq<T> {
        merge_union(self.a@, self.b@)
    }

    /// The part of the left input not yet consumed.
    pub closed spec fn left(&self) -> Seq<T> {
        self.a@
    }

    /// The part of the right input not yet consumed.
    pub closed spec fn right(&self) -> Seq<T> {
        self.b@
    }

    pub(crate) fn new(a: &'a [T], b: &'a [T]) -> (it: Self)
        requires
            total_order::<T>(),
            strictly_sorted(a@),
            strictly_sorted(b@),
        ensures
            it.left() == a@,
            it.right() == b@,
            it.wf(),
            it.remaining() == merge_union(a@, b@),
    {
        Union { a, b }
    }

    /// Yields the next element, or `None` once every element has been yielded.
    pub fn next(&mut self) -> (r: Option<&'a T>)
        requires
            old(self).wf(),
        ensures
            final(self).wf(),
            old(self).remaining().len() == 0 ==> r is None && final(self).remaining() == old(self).remaining(),
            old(self).remaining().len() > 0 ==> {
                &&& r is Some
                &&& *r.unwrap() == old(self).remaining()[0]
                &&& final(self).remaining() == old(self).remaining().drop_first()
            },
    {
        proof {
            lemma_total_order::<T>();
        }
        let a = self.a;
        let b = self.b;
        if a.len() == 0 {
            if b.len() == 0 {
                return None;
            }
            proof { lemma_sorted_tail(b@); }
            self.b = tail(b);
            return Some(&b[0]);
        }
        if b.len() == 0 {
            proof { lemma_sorted_tail(a@); }
            self.a = tail(a);
            return Some(&a[0]);
        }
        proof {
            lemma_sorted_tail(a@);
            lemma_sorted_tail(b@);
        }
        let o = compare(&a[0], &b[0]);
        match o {
            Order::Less => {
                self.a = tail(a);
                Some(&a[0])
            },
            Order::Greater => {
                self.b = tail(b);
                Some(&b[0])
            },
            Order::Equal => {
                self.a = tail(a);
                self.b = tail(b);
                Some(&a[0])
            },
        }
    }

    /// Bounds on how many elements remain: at least the longer remaining
    /// input, at most both (`None` when that sum overflows `usize`).
    pub fn size_hint(&self) -> (r: (usize, Option<usize>))
        ensures
            r.0 == (if self.left().len() >= self.right().len() { self.left().len() } else { self.right().len() }),
            r.1 == (if self.left().len() + self.right().len() <= usize::MAX {
                Some((self.left().len() + self.right().len()) as usize)
            } else {
                None::<usize>
            }),
            r.0 <= self.remaining().len(),
            r.1 matches Some(u) ==> self.remaining().len() <= u,
    {
        proof {
            lemma_union_len(self.a@, self.b@);
        }
        let lo = if self.a.len() >= self.b.len() { self.a.len() } else { self.b.len() };
        (lo, self.a.len().checked_add(self.b.len()))
    }

    /// Collects the remaining elements, in order.
    pub fn to_vec(self) -> (v: Vec<&'a T>)
        requires
            self.wf(),
        ensures
            v@.len() == self.remaining().len(),
            forall|i: int| 0 <= i < v@.len() ==> *v@[i] == self.remaining()[i],
    {
        let ghost all = self.remaining();
        let mut it = self;
        let mut v: Vec<&'a T> = Vec::new();
        loop
            invariant
                it.wf(),
                all == self.remaining(),
                all.len() == v@.len() + it.remaining().len(),
                forall|i: int| 0 <= i < v@.len() ==> *v@[i] == all[i],
                forall|i: int| 0 <= i < it.remaining().len() ==> it.remaining()[i] == all[v@.len() + i],
            decreases it.remaining().len(),
        {
            let ghost before = it.remaining();
            match it.next() {
                Some(x) => {
                    v.push(x);
                },
                None => {
                    return v;
                },
            }
        }
    }
}

/// Ascending iterator over the elements in both `a` and `b` — see
/// [`SortedSet::intersection`](crate::SortedSet::intersection).
#[derive(Clone, Debug)]
pub struct Intersection<'a, T> {
    a: &'a [T],
    b: &'a [T],
}

impl<'a, T: Ord> Intersection<'a, T> {
    /// Both remaining inputs are strictly ascending.
    pub closed spec fn wf(&self) -> bool {
        &&& total_order::<T>()
        &&& strictly_sorted(self.a@)
        &&& strictly_sorted(self.b@)
    }

    /// The elements still to be yielded, in order.
    pub closed spec fn remaining(&self) -> Seq<T> {
        merge_intersection(self.a@, self.b@)
    }

    /// The part of the left input not yet consumed.
    pub closed spec fn left(&self) -> Seq<T> {
        self.a@
    }

    /// The part of the right input not yet consumed.
    pub closed spec fn right(&self) -> Seq<T> {
        self.b@
    }

    pub(crate) fn new(a: &'a [T], b: &'a [T]) -> (it: Self)
        requires
            total_order::<T>(),
            strictly_sorted(a@),
            strictly_sorted(b@),
        ensures
            it.left() == a@,
            it.right() == b@,
            it.wf(),
            it.remaining() == merge_intersection(a@, b@),
    {
        Intersection { a, b }
    }

    /// Yields the next element, or `None` once every element has been yielded.
    pub fn next(&mut self) -> (r: Option<&'a T>)
        requires
            old(self).wf(),
        ensures
            final(self).wf(),
            old(self).remaining().len() == 0 ==> r is None && final(self).remaining() == old(self).remaining(),
            old(self).remaining().len() > 0 ==> {
                &&& r is Some
                &&& *r.unwrap() == old(self).remaining()[0]
                &&& final(self).remaining() == old(self).remaining().drop_first()
            },
    {
        proof {
            lemma_total_order::<T>();
        }
        loop
            invariant
                self.wf(),
                self.remaining() == old(self).remaining(),
            decreases self.a@.len() + self.b@.len(),
        {
            let a = self.a;
            let b = self.b;
            if a.len() == 0 || b.len() == 0 {
                return None;
            }
            proof {
                lemma_sorted_tail(a@);
                lemma_sorted_tail(b@);
            }
            let o = compare(&a[0], &b[0]);
            match o {
                Order::Less => {
                    self.a = tail(a);
                },
                Order::Greater => {
                    self.b = tail(b);
                },
                Order::Equal => {
                    self.a = tail(a);
                    self.b = tail(b);
                    return Some(&a[0]);
                },
            }
        }
    }

    /// Bounds on how many elements remain: none at least, at most the shorter
    /// remaining input.
    pub fn size_hint(&self) -> (r: (usize, Option<usize>))
        ensures
            r.0 == 0,
            r.1 == Some((if self.left().len() <= self.right().len() { self.left().len() } else { self.right().len() }) as usize),
            r.1 matches Some(u) ==> self.remaining().len() <= u,
    {
        proof {
            lemma_intersection_len(self.a@, self.b@);
        }
        let hi = if self.a.len() <= self.b.len() { self.a.len() } else { self.b.len() };
        (0, Some(hi))
    }

    /// Collects the remaining elements, in order.
    pub fn to_vec(self) -> (v: Vec<&'a T>)
        requires
            self.wf(),
        ensures
            v@.len() == self.remaining().len(),
            forall|i: int| 0 <= i < v@.len() ==> *v@[i] == self.remaining()[i],
    {
        let ghost all = self.remaining();
        let mut it = self;
        let mut v: Vec<&'a T> = Vec::new();
        loop
            invariant
                it.wf(),
                all == self.remaining(),
                all.len() == v@.len() + it.remaining().len(),
                forall|i: int| 0 <= i < v@.len() ==> *v@[i] == all[i],
                forall|i: int| 0 <= i < it.remaining().len() ==> it.remaining()[i] == all[v@.len() + i],
            decreases it.remaining().len(),
        {
            let ghost before = it.remaining();
            match it.next() {
                Some(x) => {
                    v.push(x);
                },
                None => {
                    return v;
                },
            }
        }
    }
}

/// Ascending iterator over the elements in `a` but not `b` — see
/// [`SortedSet::difference`](crate::SortedSet::difference).
#[derive(Clone, Debug)]
pub struct Difference<'a, T> {
    a: &'a [T],
    b: &'a [T],
}

impl<'a, T: Ord> Difference<'a, T> {
    /// Both remaining inputs are strictly ascending.
    pub closed spec fn wf(&self) -> bool {
        &&& total_order::<T>()
        &&& strictly_sorted(self.a@)
        &&& strictly_sorted(self.b@)
    }

    /// The elements still to be yielded, in order.
    pub closed spec fn remaining(&self) -> Seq<T> {
        merge_difference(self.a@, self.b@)
    }

    /// The part of the left input not yet consumed.
    pub closed spec fn left(&self) -> Seq<T> {
        self.a@
    }

    /// The part of the right input not yet consumed.
    pub closed spec fn right(&self) -> Seq<T> {
        self.b@
    }

    pub(crate) fn new(a: &'a [T], b: &'a [T]) -> (it: Self)
        requires
            total_order::<T>(),
            strictly_sorted(a@),
            strictly_sorted(b@),
        ensures
            it.left() == a@,
            it.right() == b@,
            it.wf(),
            it.remaining() == merge_difference(a@, b@),
    {
        Difference { a, b }
    }

    /// Yields the next element, or `None` once every element has been yielded.
    pub fn next(&mut self) -> (r: Option<&'a T>)
        requires
            old(self).wf(),
        ensures
            final(self).wf(),
            old(self).remaining().len() == 0 ==> r is None && final(self).remaining() == old(self).remaining(),
            old(self).remaining().len() > 0 ==> {
                &&& r is Some
                &&& *r.unwrap() == old(self).remaining()[0]
                &&& final(self).remaining() == old(self).remaining().drop_first()
            },
    {
        proof {
            lemma_total_order::<T>();
        }
        loop
            invariant
                self.wf(),
                self.remaining() == old(self).remaining(),
            decreases self.a@.len() + self.b@.len(),
        {
            let a = self.a;
            let b = self.b;
            if a.len() == 0 {
                return None;
            }
            proof {
                lemma_sorted_tail(a@);
            }
            if b.len() == 0 {
                self.a = tail(a);
                return Some(&a[0]);
            }
            proof {
                lemma_sorted_tail(b@);
            }
            let o = compare(&a[0], &b[0]);
            match o {
                Order::Less => {
                    self.a = tail(a);
                    return Some(&a[0]);
                },
                Order::Greater => {
                    self.b = tail(b);
                },
                Order::Equal => {
                    self.a = tail(a);
                    self.b = tail(b);
                },
            }
        }
    }

    /// Bounds on how many elements remain: at least the left input's excess
    /// over the right (each right element cancels at most one), at most the
    /// whole remaining left input.
    pub fn size_hint(&self) -> (r: (usize, Option<usize>))
        ensures
            r.0 == (if self.left().len() >= self.right().len() { self.left().len() - self.right().len() } else { 0 }),
            r.1 == Some(self.left().len() as usize),
            r.0 <= self.remaining().len(),
            r.1 matches Some(u) ==> self.remaining().len() <= u,
    {
        proof {
            lemma_difference_len(self.a@, self.b@);
        }
        let lo = if self.a.len() >= self.b.len() { self.a.len() - self.b.len() } else { 0 };
        (lo, Some(self.a.len()))
    }

    /// Collects the remaining elements, in order.
    pub fn to_vec(self) -> (v: Vec<&'a T>)
        requires
            self.wf(),
        ensures
            v@.len() == self.remaining().len(),
            forall|i: int| 0 <= i < v@.len() ==> *v@[i] == self.remaining()[i],
    {
        let ghost all = self.remaining();
        let mut it = self;
        let mut v: Vec<&'a T> = Vec::new();
        loop
            invariant
                it.wf(),
                all == self.remaining(),
                all.len() == v@.len() + it.remaining().len(),
                forall|i: int| 0 <= i < v@.len() ==> *v@[i] == all[i],
                forall|i: int| 0 <= i < it.remaining().len() ==> it.remaining()[i] == all[v@.len() + i],
            decreases it.remaining().len(),
        {
            let ghost before = it.remaining();
            match it.next() {
                Some(x) => {
                    v.push(x);
                },
                None => {
                    return v;
                },
            }
        }
    }
}

/// Ascending iterator over the elements in exactly one of `a` and `b` — see
/// [`SortedSet::symmetric_difference`](crate::SortedSet::symmetric_difference).
#[derive(Clone, Debug)]
pub struct SymmetricDifference<'a, T> {
    a: &'a [T],
    b: &'a [T],
}

impl<'a, T: Ord> SymmetricDifference<'a, T> {
    /// Both remaining inputs are strictly ascending.
    pub closed spec fn wf(&self) -> bool {
        &&& total_order::<T>()
        &&& strictly_sorted(self.a@)
        &&& strictly_sorted(self.b@)
    }

    /// The elements still to be yielded, in order.
    pub closed spec fn remaining(&self) -> Seq<T> {
        merge_symmetric(self.a@, self.b@)
    }

    /// The part of the left input not yet consumed.
    pub closed spec fn left(&self) -> Seq<T> {
        self.a@
    }

    /// The part of the right input not yet consumed.
    pub closed spec fn right(&self) -> Seq<T> {
        self.b@
    }

    pub(crate) fn new(a: &'a [T], b: &'a [T]) -> (it: Self)
        requires
            total_order::<T>(),
            strictly_sorted(a@),
            strictly_sorted(b@),
        ensures
            it.left() == a@,
            it.right() == b@,
            it.wf(),
            it.remaining() == merge_symmetric(a@, b@),
    {
        SymmetricDifference { a, b }
    }

    /// Yields the next element, or `None` once every element has been yielded.
    pub fn next(&mut self) -> (r: Option<&'a T>)
        requires
            old(self).wf(),
        ensures
            final(self).wf(),
            old(self).remaining().len() == 0 ==> r is None && final(self).remaining() == old(self).remaining(),
            old(self).remaining().len() > 0 ==> {
                &&& r is Some
                &&& *r.unwrap() == old(self).remaining()[0]
                &&& final(self).remaining() == old(self).remaining().drop_first()
            },
    {
        proof {
            lemma_total_order::<T>();
        }
        loop
            invariant
                self.wf(),
                self.remaining() == old(self).remaining(),
            decreases self.a@.len() + self.b@.len(),
        {
            let a = self.a;
            let b = self.b;
            if a.len() == 0 {
                if b.len() == 0 {
                    return None;
                }
                proof { lemma_sorted_tail(b@); }
                self.b = tail(b);
                return Some(&b[0]);
            }
            if b.len() == 0 {
                proof { lemma_sorted_tail(a@); }
                self.a = tail(a);
                return Some(&a[0]);
            }
            proof {
                lemma_sorted_tail(a@);
                lemma_sorted_tail(b@);
            }
            let o = compare(&a[0], &b[0]);
            match o {
                Order::Less => {
                    self.a = tail(a);
                    return Some(&a[0]);
                },
                Order::Greater => {
                    self.b = tail(b);
                    return Some(&b[0]);
                },
                Order::Equal => {
                    self.a = tail(a);
                    self.b = tail(b);
                },
            }
        }
    }

    /// Bounds on how many elements remain: at least the length gap of the
    /// remaining inputs (shared elements cancel pairwise), at most both
    /// (`None` when that sum overflows `usize`).
    pub fn size_hint(&self) -> (r: (usize, Option<usize>))
        ensures
            r.0 == (if self.left().len() >= self.right().len() {
                self.left().len() - self.right().len()
            } else {
                self.right().len() - self.left().len()
            }),
            r.1 == (if self.left().len() + self.right().len() <= usize::MAX {
                Some((self.left().len() + self.right().len()) as usize)
            } else {
                None::<usize>
            }),
            r.0 <= self.remaining().len(),
            r.1 matches Some(u) ==> self.remaining().len() <= u,
    {
        proof {
            lemma_symmetric_len(self.a@, self.b@);
        }
        let lo = if self.a.len() >= self.b.len() { self.a.len() - self.b.len() } else { self.b.len() - self.a.len() };
        (lo, self.a.len().checked_add(self.b.len()))
    }

    /// Collects the remaining elements, in order.
    pub fn to_vec(self) -> (v: Vec<&'a T>)
        requires
            self.wf(),
        ensures
            v@.len() == self.remaining().len(),
            forall|i: int| 0 <= i < v@.len() ==> *v@[i] == self.remaining()[i],
    {
        let ghost all = self.remaining();
        let mut it = self;
        let mut v: Vec<&'a T> = Vec::new();
        loop
            invariant
                it.wf(),
                all == self.remaining(),
                all.len() == v@.len() + it.remaining().len(),
                forall|i: int| 0 <= i < v@.len() ==> *v@[i] == all[i],
                forall|i: int| 0 <= i < it.remaining().len() ==> it.remaining()[i] == all[v@.len() + i],
            decreases it.remaining().len(),
        {
            let ghost before = it.remaining();
            match it.next() {
                Some(x) => {
                    v.push(x);
                },
                None => {
                    return v;
                },
            }
        }
    }
}

} // verus!
