//! Properties of the collections that span several operations, stated over the
//! same models the operations' contracts use: a sorted store's sequence of
//! elements (`strictly_sorted`, `to_set`), a map's entry sequence and the map it
//! stands for (`entries_map`), and a bulk insert's outcome (`insert_all`).

use vstd::prelude::*;
use crate::entries::{
    entries_map, keys_unique, lemma_entries_map_at, lemma_entries_map_dom, lemma_entries_map_push,
    lemma_entries_map_set_value, lemma_entries_map_swap_remove, lemma_sorted_keys_unique,
};
use crate::map::{insert_all, lemma_sorted_insert_entry, lemma_sorted_remove_entry};
use crate::store::swap_removed;
use crate::order::{
    admits_end, admits_start, is_less, keys_of, keys_strictly_sorted, lemma_total_order, lex_order,
    order_of, strictly_sorted, total_order, Bound, Order,
};
use crate::algebra::lemma_sorted_card;
use crate::columns::{lemma_zip_keys, zip_columns};
use crate::column_map::UnsortedColumnMap;
use crate::sorted_column_map::SortedColumnMap;
use crate::store::Store;

verus! {

/// A strictly ascending sequence is determined by its set of elements: two
/// sorted stores holding the same elements are the same sequence. This is why
/// a sorted collection's structural `==`, `<` and `Hash` are its set's.
pub proof fn law_sorted_sequence_is_canonical<T: Ord>(a: Seq<T>, b: Seq<T>)
    requires
        total_order::<T>(),
        strictly_sorted(a),
        strictly_sorted(b),
        a.to_set() == b.to_set(),
    ensures
        a == b,
    decreases a.len(),
{
    lemma_total_order::<T>();
    lemma_sorted_card(a);
    lemma_sorted_card(b);
    if a.len() == 0 {
        assert(b.len() == 0);
        assert(a =~= b);
    } else {
        assert(b.len() == a.len());
        assert(a.to_set().contains(a[0]));
        assert(b.to_set().contains(b[0]));
        assert(b.contains(a[0]));
        assert(a.contains(b[0]));
        let i = choose|i: int| 0 <= i < b.len() && b[i] == a[0];
        let j = choose|j: int| 0 <= j < a.len() && a[j] == b[0];
        if i > 0 {
            assert(is_less(b[0], b[i]));
            if j > 0 {
                assert(is_less(a[0], a[j]));
            }
            assert(false);
        }
        let ta = a.drop_first();
        let tb = b.drop_first();
        assert forall|p: int, q: int| 0 <= p < q < ta.len() implies #[trigger] is_less(ta[p], ta[q]) by {
            assert(is_less(a[p + 1], a[q + 1]));
        }
        assert forall|p: int, q: int| 0 <= p < q < tb.len() implies #[trigger] is_less(tb[p], tb[q]) by {
            assert(is_less(b[p + 1], b[q + 1]));
        }
        assert(ta.to_set() =~= tb.to_set()) by {
            assert forall|x: T| ta.contains(x) <==> tb.contains(x) by {
                if ta.contains(x) {
                    let p = choose|p: int| 0 <= p < ta.len() && ta[p] == x;
                    assert(a[p + 1] == x);
                    assert(a.contains(x));
                    assert(a.to_set().contains(x));
                    assert(b.contains(x));
                    let q = choose|q: int| 0 <= q < b.len() && b[q] == x;
                    if q == 0 {
                        assert(is_less(a[0], a[p + 1]));
                        assert(order_of(x, x) == Order::Equal);
                    } else {
                        assert(tb[q - 1] == x);
                    }
                }
                if tb.contains(x) {
                    let p = choose|p: int| 0 <= p < tb.len() && tb[p] == x;
                    assert(b[p + 1] == x);
                    assert(b.contains(x));
                    assert(b.to_set().contains(x));
                    assert(a.contains(x));
                    let q = choose|q: int| 0 <= q < a.len() && a[q] == x;
                    if q == 0 {
                        assert(is_less(b[0], b[p + 1]));
                        assert(order_of(x, x) == Order::Equal);
                    } else {
                        assert(ta[q - 1] == x);
                    }
                }
            }
        }
        law_sorted_sequence_is_canonical(ta, tb);
        assert(a =~= seq![a[0]] + ta);
        assert(b =~= seq![b[0]] + tb);
    }
}

/// Entries in strictly ascending key order are determined by the map they
/// stand for: two sorted maps binding the same keys to the same values hold
/// the same entry sequence, whatever order they were built in.
pub proof fn law_sorted_entries_are_canonical<K: Ord, V>(a: Seq<(K, V)>, b: Seq<(K, V)>)
    requires
        total_order::<K>(),
        keys_strictly_sorted(a),
        keys_strictly_sorted(b),
        entries_map(a) == entries_map(b),
    ensures
        a == b,
{
    lemma_sorted_keys_unique(a);
    lemma_sorted_keys_unique(b);
    let ka = keys_of(a);
    let kb = keys_of(b);
    assert(ka.to_set() =~= kb.to_set()) by {
        assert forall|k: K| ka.contains(k) <==> kb.contains(k) by {
            lemma_entries_map_dom(a, k);
            lemma_entries_map_dom(b, k);
            if ka.contains(k) {
                let i = choose|i: int| 0 <= i < ka.len() && ka[i] == k;
                assert(a[i].0 == k);
                let j = choose|j: int| 0 <= j < b.len() && b[j].0 == k;
                assert(kb[j] == k);
            }
            if kb.contains(k) {
                let i = choose|i: int| 0 <= i < kb.len() && kb[i] == k;
                assert(b[i].0 == k);
                let j = choose|j: int| 0 <= j < a.len() && a[j].0 == k;
                assert(ka[j] == k);
            }
        }
    }
    law_sorted_sequence_is_canonical(ka, kb);
    assert(a.len() == b.len());
    assert forall|i: int| 0 <= i < a.len() implies a[i] == b[i] by {
        assert(ka[i] == kb[i]);
        lemma_entries_map_at(a, i);
        lemma_entries_map_at(b, i);
    }
    assert(a =~= b);
}

/// Removing an element that was just inserted into a sorted set gives back
/// the original stored sequence.
pub proof fn law_sorted_remove_undoes_insert<T: Ord>(s: Seq<T>, inserted: Seq<T>, removed: Seq<T>, x: T)
    requires
        total_order::<T>(),
        strictly_sorted(s),
        !s.contains(x),
        strictly_sorted(inserted),
        inserted.to_set() == s.to_set().insert(x),
        strictly_sorted(removed),
        removed.to_set() == inserted.to_set().remove(x),
    ensures
        removed == s,
{
    assert(removed.to_set() =~= s.to_set());
    law_sorted_sequence_is_canonical(removed, s);
}

/// Inserting a fresh key and then removing it gives back the original map;
/// looking a key up right after binding it answers the bound value, and every
/// other key answers as before.
pub proof fn law_map_insert_then_get_or_remove<K, V>(m: Map<K, V>, k: K, v: V)
    ensures
        m.insert(k, v).dom().contains(k),
        m.insert(k, v)[k] == v,
        forall|j: K| j != k ==> (#[trigger] m.insert(k, v).dom().contains(j) <==> m.dom().contains(j)),
        forall|j: K| j != k && m.dom().contains(j) ==> #[trigger] m.insert(k, v)[j] == m[j],
        !m.dom().contains(k) ==> m.insert(k, v).remove(k) == m,
{
    if !m.dom().contains(k) {
        assert(m.insert(k, v).remove(k) =~= m);
    }
}

/// A bulk insert is last-wins: each key of `items` ends up bound to the value
/// of its last occurrence, and every other key keeps its binding in `m`.
pub proof fn law_insert_all_last_wins<K, V>(m: Map<K, V>, items: Seq<(K, V)>)
    ensures
        forall|i: int| 0 <= i < items.len() && (forall|j: int| i < j < items.len() ==> items[j].0 != items[i].0) ==> {
            &&& insert_all(m, items).dom().contains(#[trigger] items[i].0)
            &&& insert_all(m, items)[items[i].0] == items[i].1
        },
        forall|k: K| !keys_of(items).contains(k) ==> {
            &&& (#[trigger] insert_all(m, items).dom().contains(k) <==> m.dom().contains(k))
            &&& m.dom().contains(k) ==> insert_all(m, items)[k] == m[k]
        },
    decreases items.len(),
{
    if items.len() > 0 {
        let p = items.drop_last();
        let last = items.last();
        law_insert_all_last_wins(m, p);
        assert forall|i: int| 0 <= i < items.len() && (forall|j: int| i < j < items.len() ==> items[j].0 != items[i].0) implies {
            &&& insert_all(m, items).dom().contains(#[trigger] items[i].0)
            &&& insert_all(m, items)[items[i].0] == items[i].1
        } by {
            if i < items.len() - 1 {
                assert(p[i] == items[i]);
                assert(items[items.len() - 1].0 != items[i].0);
                assert forall|j: int| i < j < p.len() implies p[j].0 != p[i].0 by {
                    assert(p[j] == items[j]);
                }
            }
        }
        assert forall|k: K| !keys_of(items).contains(k) implies {
            &&& (#[trigger] insert_all(m, items).dom().contains(k) <==> m.dom().contains(k))
            &&& m.dom().contains(k) ==> insert_all(m, items)[k] == m[k]
        } by {
            assert(keys_of(items)[items.len() - 1] == last.0);
            assert(last.0 != k);
            if keys_of(p).contains(k) {
                let j = choose|j: int| 0 <= j < keys_of(p).len() && keys_of(p)[j] == k;
                assert(keys_of(items)[j] == k);
            }
            assert(insert_all(m, items) == insert_all(m, p).insert(last.0, last.1));
            assert(insert_all(m, p).dom().contains(k) <==> m.dom().contains(k));
        }
    }
}

/// Popping right after pushing hands back the pushed value and restores the
/// bag's sequence.
pub proof fn law_pop_undoes_push<T>(s: Seq<T>, x: T)
    ensures
        s.push(x).len() > 0,
        s.push(x).last() == x,
        s.push(x).drop_last() == s,
{
    assert(s.push(x).drop_last() =~= s);
}

/// Filling a vacant entry of a sorted map, at the slot its `entry` reported,
/// keeps the keys strictly ascending and binds exactly the new key.
pub proof fn law_sorted_vacant_entry_insert<K: Ord, V>(s: Seq<(K, V)>, i: int, k: K, v: V)
    requires
        total_order::<K>(),
        keys_strictly_sorted(s),
        0 <= i <= s.len(),
        forall|j: int| 0 <= j < i ==> is_less(#[trigger] s[j].0, k),
        forall|j: int| i <= j < s.len() ==> is_less(k, #[trigger] s[j].0),
    ensures
        keys_strictly_sorted(s.insert(i, (k, v))),
        entries_map(s.insert(i, (k, v))) == entries_map(s).insert(k, v),
{
    lemma_sorted_insert_entry(s, i, k, v);
}

/// Filling a vacant entry of an unsorted map appends the pair, keeps the keys
/// distinct and binds exactly the new key.
pub proof fn law_unsorted_vacant_entry_insert<K, V>(s: Seq<(K, V)>, k: K, v: V)
    requires
        keys_unique(s),
        !keys_of(s).contains(k),
    ensures
        keys_unique(s.push((k, v))),
        entries_map(s.push((k, v))) == entries_map(s).insert(k, v),
{
    lemma_entries_map_push(s, k, v);
}

/// Writing through an occupied entry changes only that entry's value: the
/// keys stay as they were, and only that key is rebound.
pub proof fn law_occupied_entry_update<K, V>(s: Seq<(K, V)>, i: int, v: V)
    requires
        keys_unique(s),
        0 <= i < s.len(),
    ensures
        keys_of(s.update(i, (s[i].0, v))) == keys_of(s),
        entries_map(s.update(i, (s[i].0, v))) == entries_map(s).insert(s[i].0, v),
{
    lemma_entries_map_set_value(s, i, v);
}

/// Removing an occupied entry drops exactly its key: by a shift on a sorted
/// map, which keeps the keys ascending, or by a swap on an unsorted one, which
/// keeps them distinct.
pub proof fn law_occupied_entry_remove<K: Ord, V>(s: Seq<(K, V)>, i: int)
    requires
        keys_unique(s),
        0 <= i < s.len(),
    ensures
        total_order::<K>() && keys_strictly_sorted(s) ==> {
            &&& keys_strictly_sorted(s.remove(i))
            &&& entries_map(s.remove(i)) == entries_map(s).remove(s[i].0)
        },
        keys_unique(swap_removed(s, i)),
        entries_map(swap_removed(s, i)) == entries_map(s).remove(s[i].0),
{
    if total_order::<K>() && keys_strictly_sorted(s) {
        lemma_sorted_remove_entry(s, i);
    }
    lemma_entries_map_swap_remove(s, i);
}

/// Aligned columns are determined by the entries they stand for: equal entry
/// sequences mean equal key columns and equal value columns.
pub proof fn law_columns_from_entries<K, V>(ks1: Seq<K>, vs1: Seq<V>, ks2: Seq<K>, vs2: Seq<V>)
    requires
        ks1.len() == vs1.len(),
        ks2.len() == vs2.len(),
        zip_columns(ks1, vs1) == zip_columns(ks2, vs2),
    ensures
        ks1 == ks2,
        vs1 == vs2,
{
    lemma_zip_keys(ks1, vs1);
    lemma_zip_keys(ks2, vs2);
    assert forall|i: int| 0 <= i < vs1.len() implies vs1[i] == vs2[i] by {
        assert(zip_columns(ks1, vs1)[i] == zip_columns(ks2, vs2)[i]);
    }
    assert(vs1 =~= vs2);
}

/// Two unsorted column maps holding the same entries in the same order have
/// identical key and value columns.
pub proof fn law_unsorted_columns_from_entries<K, V, SK: Store<Elem = K>, SV: Store<Elem = V>>(
    a: UnsortedColumnMap<SK, SV>,
    b: UnsortedColumnMap<SK, SV>,
)
    requires
        a.inv(),
        b.inv(),
        a@ == b@,
    ensures
        a.key_column() == b.key_column(),
        a.value_column() == b.value_column(),
{
    a.lemma_columns();
    b.lemma_columns();
    law_columns_from_entries(a.key_column(), a.value_column(), b.key_column(), b.value_column());
}

/// Two sorted column maps standing for the same map have identical key and
/// value columns, however each was built: a serialized map rebuilt from its
/// entries comes back column for column.
pub proof fn law_sorted_columns_from_map<K: Ord, V, SK: Store<Elem = K>, SV: Store<Elem = V>>(
    a: SortedColumnMap<SK, SV>,
    b: SortedColumnMap<SK, SV>,
)
    requires
        total_order::<K>(),
        a.wf(),
        b.wf(),
        a.map() == b.map(),
    ensures
        a@ == b@,
        a.key_column() == b.key_column(),
        a.value_column() == b.value_column(),
{
    a.lemma_columns();
    b.lemma_columns();
    lemma_zip_keys(a.key_column(), a.value_column());
    lemma_zip_keys(b.key_column(), b.value_column());
    law_sorted_entries_are_canonical(a@, b@);
    law_columns_from_entries(a.key_column(), a.value_column(), b.key_column(), b.value_column());
}

/// A range's bounds mean what `core::ops::Bound` means: an `Included` start
/// admits its own key and everything above it, an `Excluded` start only what
/// lies strictly above it; an `Included` end admits its own key and
/// everything below it, an `Excluded` end only what lies strictly below it;
/// an `Unbounded` side admits everything.
pub proof fn law_range_bounds<T: Ord>(q: T, x: T)
    requires
        total_order::<T>(),
    ensures
        admits_start(Bound::Included(&q), x) <==> (x == q || is_less(q, x)),
        admits_start(Bound::Excluded(&q), x) <==> is_less(q, x),
        !admits_start(Bound::Excluded(&q), q),
        admits_end(Bound::Included(&q), x) <==> (x == q || is_less(x, q)),
        admits_end(Bound::Excluded(&q), x) <==> is_less(x, q),
        !admits_end(Bound::Excluded(&q), q),
        admits_start(Bound::Unbounded, x),
        admits_end(Bound::Unbounded, x),
{
    lemma_total_order::<T>();
    assert(order_of(q, q) == Order::Equal);
    assert(order_of(x, q) == Order::Less || order_of(x, q) == Order::Equal || order_of(x, q) == Order::Greater);
    assert(order_of(q, x) == Order::Less || order_of(q, x) == Order::Equal || order_of(q, x) == Order::Greater);
}

/// What a range query answers with an `Excluded` start: given the slice
/// `s[i..j]` that a sorted collection's `range` returns, every element of it
/// lies strictly above the start key, so the key itself is never returned;
/// and every element of `s` strictly above the key and admitted by the end
/// bound is returned.
pub proof fn law_range_excluded_start<T: Ord>(s: Seq<T>, q: T, end: Bound<&T>, i: int, j: int)
    requires
        total_order::<T>(),
        0 <= i <= j <= s.len(),
        forall|k: int| 0 <= k < s.len() ==> ((i <= k < j) <==> (admits_start(Bound::Excluded(&q), #[trigger] s[k]) && admits_end(end, s[k]))),
    ensures
        forall|k: int| 0 <= k < s.subrange(i, j).len() ==> is_less(q, #[trigger] s.subrange(i, j)[k]),
        !s.subrange(i, j).contains(q),
        forall|k: int| 0 <= k < s.len() && is_less(q, s[k]) && admits_end(end, s[k]) ==> s.subrange(i, j).contains(#[trigger] s[k]),
{
    lemma_total_order::<T>();
    assert forall|k: int| 0 <= k < s.subrange(i, j).len() implies is_less(q, #[trigger] s.subrange(i, j)[k]) by {
        law_range_bounds(q, s[i + k]);
    }
    if s.subrange(i, j).contains(q) {
        let k = choose|k: int| 0 <= k < s.subrange(i, j).len() && s.subrange(i, j)[k] == q;
        assert(order_of(q, q) == Order::Equal);
    }
    assert forall|k: int| 0 <= k < s.len() && is_less(q, s[k]) && admits_end(end, s[k]) implies s.subrange(i, j).contains(#[trigger] s[k]) by {
        law_range_bounds(q, s[k]);
        assert(s.subrange(i, j)[k - i] == s[k]);
    }
}

/// Sequences compare lexicographically: the first position where they differ
/// decides, whatever their lengths.
pub proof fn law_lex_first_difference<T: Ord>(a: Seq<T>, b: Seq<T>, i: int)
    requires
        total_order::<T>(),
        0 <= i < a.len(),
        i < b.len(),
        a.subrange(0, i) == b.subrange(0, i),
        order_of(a[i], b[i]) != Order::Equal,
    ensures
        lex_order(a, b) == order_of(a[i], b[i]),
    decreases i,
{
    lemma_total_order::<T>();
    if i > 0 {
        assert(a[0] == a.subrange(0, i)[0]);
        assert(b[0] == b.subrange(0, i)[0]);
        assert(order_of(a[0], b[0]) == Order::Equal);
        assert(a.drop_first().subrange(0, i - 1) =~= a.subrange(0, i).drop_first());
        assert(b.drop_first().subrange(0, i - 1) =~= b.subrange(0, i).drop_first());
        law_lex_first_difference(a.drop_first(), b.drop_first(), i - 1);
    }
}

/// A proper prefix sorts before the sequence it starts, and the sequence
/// after its proper prefix.
pub proof fn law_lex_proper_prefix<T: Ord>(a: Seq<T>, b: Seq<T>)
    requires
        total_order::<T>(),
        a.len() < b.len(),
        a == b.subrange(0, a.len() as int),
    ensures
        lex_order(a, b) == Order::Less,
        lex_order(b, a) == Order::Greater,
    decreases a.len(),
{
    lemma_total_order::<T>();
    if a.len() > 0 {
        assert(a[0] == b[0]);
        assert(order_of(a[0], b[0]) == Order::Equal);
        assert(a.drop_first() =~= b.drop_first().subrange(0, a.len() - 1));
        law_lex_proper_prefix(a.drop_first(), b.drop_first());
    }
}

/// Two sequences compare equal exactly when they are the same sequence.
pub proof fn law_lex_equal<T: Ord>(a: Seq<T>, b: Seq<T>)
    requires
        total_order::<T>(),
    ensures
        lex_order(a, b) == Order::Equal <==> a == b,
    decreases a.len(),
{
    lemma_total_order::<T>();
    if a.len() > 0 && b.len() > 0 {
        law_lex_equal(a.drop_first(), b.drop_first());
        if order_of(a[0], b[0]) == Order::Equal {
            if a.drop_first() == b.drop_first() {
                assert(a =~= seq![a[0]] + a.drop_first());
                assert(b =~= seq![b[0]] + b.drop_first());
            }
        }
        if a == b {
            assert(order_of(a[0], a[0]) == Order::Equal);
        }
    } else if a.len() == 0 && b.len() == 0 {
        assert(a =~= b);
    }
}

} // verus!
