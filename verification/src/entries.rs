//! The mathematical model of a map's store: a sequence of `(key, value)`
//! entries with distinct keys stands for the finite map `entries_map`. The
//! lemmas here say what each store edit does to that map.

use vstd::prelude::*;
use crate::order::{
    is_less, keys_of, keys_strictly_sorted, lemma_total_order, order_of, strictly_sorted,
    total_order, Order,
};
use crate::store::{
    filter_kept, lemma_filter_kept_step, lemma_swap_removed, slice_swap, swap_removed,
    truncate_to, StoreMut,
};

verus! {

/// No key occurs twice among the entries.
pub open spec fn keys_unique<K, V>(s: Seq<(K, V)>) -> bool {
    keys_of(s).no_duplicates()
}

/// The map a sequence of entries with distinct keys represents: each key maps
/// to the value stored beside it.
pub open spec fn entries_map<K, V>(s: Seq<(K, V)>) -> Map<K, V> {
    Map::new(|k: K| keys_of(s).contains(k), |k: K| s[keys_of(s).index_of(k)].1)
}

/// The entries of `s` with their values replaced, in order, by `vals`.
pub open spec fn with_values<K, V>(s: Seq<(K, V)>, vals: Seq<V>) -> Seq<(K, V)> {
    Seq::new(s.len(), |i: int| (s[i].0, vals[i]))
}

/// `s` after upserting each entry of `items` in turn: a key already present
/// has its value replaced in its slot, a new key is appended.
pub open spec fn upsert_all<K, V>(s: Seq<(K, V)>, items: Seq<(K, V)>) -> Seq<(K, V)>
    decreases items.len(),
{
    if items.len() == 0 {
        s
    } else {
        let before = upsert_all(s, items.drop_last());
        let k = items.last().0;
        if keys_of(before).contains(k) {
            before.update(keys_of(before).index_of(k), items.last())
        } else {
            before.push(items.last())
        }
    }
}

/// The entry at `i` is what the map holds for its key.
pub proof fn lemma_entries_map_at<K, V>(s: Seq<(K, V)>, i: int)
    requires
        keys_unique(s),
        0 <= i < s.len(),
    ensures
        entries_map(s).dom().contains(s[i].0),
        entries_map(s)[s[i].0] == s[i].1,
{
    let ks = keys_of(s);
    assert(ks[i] == s[i].0);
    assert(ks.contains(s[i].0));
    let j = ks.index_of(s[i].0);
    assert(0 <= j < ks.len() && ks[j] == s[i].0);
    assert(j == i);
}

/// A key is in the map exactly when some entry carries it.
pub proof fn lemma_entries_map_dom<K, V>(s: Seq<(K, V)>, k: K)
    ensures
        entries_map(s).dom().contains(k) <==> exists|i: int| 0 <= i < s.len() && s[i].0 == k,
{
    let ks = keys_of(s);
    if exists|i: int| 0 <= i < s.len() && s[i].0 == k {
        let i = choose|i: int| 0 <= i < s.len() && s[i].0 == k;
        assert(ks[i] == k);
    }
    if ks.contains(k) {
        let i = choose|i: int| 0 <= i < ks.len() && ks[i] == k;
        assert(s[i].0 == k);
    }
}

/// Strictly ascending keys are distinct.
pub proof fn lemma_sorted_keys_unique<K: Ord, V>(s: Seq<(K, V)>)
    requires
        total_order::<K>(),
        keys_strictly_sorted(s),
    ensures
        keys_unique(s),
{
    lemma_total_order::<K>();
    let ks = keys_of(s);
    assert forall|a: int, b: int| 0 <= a < ks.len() && 0 <= b < ks.len() && a != b implies ks[a] != ks[b] by {
        if a < b {
            assert(is_less(ks[a], ks[b]));
        } else {
            assert(is_less(ks[b], ks[a]));
        }
        assert(order_of(ks[a], ks[a]) == Order::Equal);
    }
}

/// Inserting an entry for an absent key anywhere adds exactly that key.
pub proof fn lemma_entries_map_insert<K, V>(s: Seq<(K, V)>, i: int, k: K, v: V)
    requires
        keys_unique(s),
        !keys_of(s).contains(k),
        0 <= i <= s.len(),
    ensures
        keys_of(s.insert(i, (k, v))) == keys_of(s).insert(i, k),
        keys_unique(s.insert(i, (k, v))),
        entries_map(s.insert(i, (k, v))) == entries_map(s).insert(k, v),
{
    let t = s.insert(i, (k, v));
    let ks = keys_of(s);
    let kt = keys_of(t);
    assert(kt =~= ks.insert(i, k));
    assert forall|a: int, b: int| 0 <= a < kt.len() && 0 <= b < kt.len() && a != b implies kt[a] != kt[b] by {
        let a0 = if a < i { a } else { a - 1 };
        let b0 = if b < i { b } else { b - 1 };
        if a != i && b != i {
            assert(kt[a] == ks[a0] && kt[b] == ks[b0]);
        } else if a == i {
            assert(kt[b] == ks[b0]);
        } else {
            assert(kt[a] == ks[a0]);
        }
    }
    assert(entries_map(t) =~= entries_map(s).insert(k, v)) by {
        assert forall|x: K| entries_map(t).dom().contains(x) <==> entries_map(s).insert(k, v).dom().contains(x) by {
            lemma_entries_map_dom(t, x);
            lemma_entries_map_dom(s, x);
            if exists|j: int| 0 <= j < t.len() && t[j].0 == x {
                let j = choose|j: int| 0 <= j < t.len() && t[j].0 == x;
                if j < i {
                    assert(s[j].0 == x);
                } else if j > i {
                    assert(s[j - 1].0 == x);
                }
            }
            if exists|j: int| 0 <= j < s.len() && s[j].0 == x {
                let j = choose|j: int| 0 <= j < s.len() && s[j].0 == x;
                if j < i {
                    assert(t[j].0 == x);
                } else {
                    assert(t[j + 1].0 == x);
                }
            }
            assert(t[i].0 == k);
        }
        assert forall|x: K| #[trigger] entries_map(t).dom().contains(x) implies entries_map(t)[x] == entries_map(s).insert(k, v)[x] by {
            lemma_entries_map_dom(t, x);
            let j = choose|j: int| 0 <= j < t.len() && t[j].0 == x;
            lemma_entries_map_at(t, j);
            if j < i {
                lemma_entries_map_at(s, j);
                assert(ks[j] == x);
            } else if j > i {
                lemma_entries_map_at(s, j - 1);
                assert(ks[j - 1] == x);
            }
        }
    }
}

/// Appending an entry for an absent key adds exactly that key.
pub proof fn lemma_entries_map_push<K, V>(s: Seq<(K, V)>, k: K, v: V)
    requires
        keys_unique(s),
        !keys_of(s).contains(k),
    ensures
        keys_of(s.push((k, v))) == keys_of(s).push(k),
        keys_unique(s.push((k, v))),
        entries_map(s.push((k, v))) == entries_map(s).insert(k, v),
{
    lemma_entries_map_insert(s, s.len() as int, k, v);
    assert(s.insert(s.len() as int, (k, v)) =~= s.push((k, v)));
    assert(keys_of(s).insert(s.len() as int, k) =~= keys_of(s).push(k));
}

/// Overwriting the value of the entry at `i` rebinds its key.
pub proof fn lemma_entries_map_set_value<K, V>(s: Seq<(K, V)>, i: int, v: V)
    requires
        keys_unique(s),
        0 <= i < s.len(),
    ensures
        keys_of(s.update(i, (s[i].0, v))) == keys_of(s),
        keys_unique(s.update(i, (s[i].0, v))),
        entries_map(s.update(i, (s[i].0, v))) == entries_map(s).insert(s[i].0, v),
{
    let t = s.update(i, (s[i].0, v));
    assert(keys_of(t) =~= keys_of(s));
    assert(entries_map(t) =~= entries_map(s).insert(s[i].0, v)) by {
        assert forall|x: K| entries_map(t).dom().contains(x) <==> entries_map(s).insert(s[i].0, v).dom().contains(x) by {
            lemma_entries_map_dom(t, x);
            lemma_entries_map_dom(s, x);
            if exists|j: int| 0 <= j < t.len() && t[j].0 == x {
                let j = choose|j: int| 0 <= j < t.len() && t[j].0 == x;
                assert(s[j].0 == x);
            }
            if exists|j: int| 0 <= j < s.len() && s[j].0 == x {
                let j = choose|j: int| 0 <= j < s.len() && s[j].0 == x;
                assert(t[j].0 == x);
            }
        }
        assert forall|x: K| #[trigger] entries_map(t).dom().contains(x) implies entries_map(t)[x] == entries_map(s).insert(s[i].0, v)[x] by {
            lemma_entries_map_dom(t, x);
            let j = choose|j: int| 0 <= j < t.len() && t[j].0 == x;
            lemma_entries_map_at(t, j);
            if j != i {
                lemma_entries_map_at(s, j);
                assert(keys_of(s)[j] == x && keys_of(s)[i] == s[i].0);
            }
        }
    }
}

/// Removing the entry at `i` drops exactly its key.
pub proof fn lemma_entries_map_remove<K, V>(s: Seq<(K, V)>, i: int)
    requires
        keys_unique(s),
        0 <= i < s.len(),
    ensures
        keys_of(s.remove(i)) == keys_of(s).remove(i),
        keys_unique(s.remove(i)),
        entries_map(s.remove(i)) == entries_map(s).remove(s[i].0),
{
    let t = s.remove(i);
    let ks = keys_of(s);
    let kt = keys_of(t);
    assert(kt =~= ks.remove(i));
    assert forall|a: int, b: int| 0 <= a < kt.len() && 0 <= b < kt.len() && a != b implies kt[a] != kt[b] by {
        let a0 = if a < i { a } else { a + 1 };
        let b0 = if b < i { b } else { b + 1 };
        assert(kt[a] == ks[a0] && kt[b] == ks[b0]);
    }
    assert(entries_map(t) =~= entries_map(s).remove(s[i].0)) by {
        assert forall|x: K| entries_map(t).dom().contains(x) <==> entries_map(s).remove(s[i].0).dom().contains(x) by {
            lemma_entries_map_dom(t, x);
            lemma_entries_map_dom(s, x);
            if exists|j: int| 0 <= j < t.len() && t[j].0 == x {
                let j = choose|j: int| 0 <= j < t.len() && t[j].0 == x;
                let j0 = if j < i { j } else { j + 1 };
                assert(s[j0].0 == x);
                assert(ks[j0] == x && ks[i] == s[i].0);
            }
            if x != s[i].0 && exists|j: int| 0 <= j < s.len() && s[j].0 == x {
                let j = choose|j: int| 0 <= j < s.len() && s[j].0 == x;
                if j < i {
                    assert(t[j].0 == x);
                } else {
                    assert(t[j - 1].0 == x);
                }
            }
        }
        assert forall|x: K| #[trigger] entries_map(t).dom().contains(x) implies entries_map(t)[x] == entries_map(s).remove(s[i].0)[x] by {
            lemma_entries_map_dom(t, x);
            let j = choose|j: int| 0 <= j < t.len() && t[j].0 == x;
            lemma_entries_map_at(t, j);
            let j0 = if j < i { j } else { j + 1 };
            lemma_entries_map_at(s, j0);
        }
    }
}

/// Removing the entry at `i` by moving the last entry into its place drops
/// exactly its key.
pub proof fn lemma_entries_map_swap_remove<K, V>(s: Seq<(K, V)>, i: int)
    requires
        keys_unique(s),
        0 <= i < s.len(),
    ensures
        keys_of(swap_removed(s, i)) == swap_removed(keys_of(s), i),
        keys_unique(swap_removed(s, i)),
        entries_map(swap_removed(s, i)) == entries_map(s).remove(s[i].0),
{
    let t = swap_removed(s, i);
    let ks = keys_of(s);
    let last = s.len() - 1;
    assert(keys_of(t) =~= swap_removed(ks, i));
    lemma_swap_removed(ks, i);
    assert(forall|k: int| 0 <= k < t.len() ==> #[trigger] t[k] == if k == i { s[last] } else { s[k] });
    assert(entries_map(t) =~= entries_map(s).remove(s[i].0)) by {
        assert forall|x: K| entries_map(t).dom().contains(x) <==> entries_map(s).remove(s[i].0).dom().contains(x) by {
            lemma_entries_map_dom(t, x);
            lemma_entries_map_dom(s, x);
            assert(keys_of(t).to_set() == ks.to_set().remove(ks[i]));
            if exists|j: int| 0 <= j < t.len() && t[j].0 == x {
                let j = choose|j: int| 0 <= j < t.len() && t[j].0 == x;
                assert(keys_of(t)[j] == x);
                assert(keys_of(t).to_set().contains(x));
            }
            if x != s[i].0 && exists|j: int| 0 <= j < s.len() && s[j].0 == x {
                let j = choose|j: int| 0 <= j < s.len() && s[j].0 == x;
                assert(ks[j] == x);
                assert(ks.to_set().contains(x));
                assert(keys_of(t).to_set().contains(x));
                let m = choose|m: int| 0 <= m < keys_of(t).len() && keys_of(t)[m] == x;
                assert(t[m].0 == x);
            }
        }
        assert forall|x: K| #[trigger] entries_map(t).dom().contains(x) implies entries_map(t)[x] == entries_map(s).remove(s[i].0)[x] by {
            lemma_entries_map_dom(t, x);
            let j = choose|j: int| 0 <= j < t.len() && t[j].0 == x;
            lemma_entries_map_at(t, j);
            let j0 = if j == i { last } else { j };
            lemma_entries_map_at(s, j0);
        }
    }
}

/// Replacing the values keeps the keys.
pub proof fn lemma_with_values_keys<K, V>(s: Seq<(K, V)>, vals: Seq<V>)
    ensures
        keys_of(with_values(s, vals)) == keys_of(s),
{
    assert(keys_of(with_values(s, vals)) =~= keys_of(s));
}

/// Filtering commutes with taking the keys.
pub proof fn lemma_filter_kept_keys<K, V>(s: Seq<(K, V)>, keep: Seq<bool>)
    ensures
        keys_of(filter_kept(s, keep)) == filter_kept(keys_of(s), keep),
    decreases s.len(),
{
    if s.len() > 0 {
        lemma_filter_kept_keys(s.drop_last(), keep);
        assert(keys_of(s).drop_last() =~= keys_of(s.drop_last()));
        if keep[s.len() - 1] {
            assert(keys_of(filter_kept(s.drop_last(), keep).push(s.last())) =~= keys_of(filter_kept(s.drop_last(), keep)).push(s.last().0));
        }
    } else {
        assert(keys_of(s) =~= Seq::<K>::empty());
        assert(keys_of(Seq::<(K, V)>::empty()) =~= Seq::<K>::empty());
    }
}

/// Filtering only drops elements.
pub proof fn lemma_filter_kept_contains<T>(s: Seq<T>, keep: Seq<bool>, x: T)
    requires
        filter_kept(s, keep).contains(x),
    ensures
        s.contains(x),
    decreases s.len(),
{
    if s.len() > 0 {
        let f = filter_kept(s.drop_last(), keep);
        if keep[s.len() - 1] && x == s.last() {
            assert(s[s.len() - 1] == x);
        } else {
            if keep[s.len() - 1] {
                let j = choose|j: int| 0 <= j < f.push(s.last()).len() && f.push(s.last())[j] == x;
                assert(f[j] == x);
            }
            lemma_filter_kept_contains(s.drop_last(), keep, x);
            let j = choose|j: int| 0 <= j < s.drop_last().len() && s.drop_last()[j] == x;
            assert(s[j] == x);
        }
    }
}

/// Filtering keeps a duplicate-free sequence duplicate-free.
pub proof fn lemma_filter_kept_unique<T>(s: Seq<T>, keep: Seq<bool>)
    requires
        s.no_duplicates(),
    ensures
        filter_kept(s, keep).no_duplicates(),
    decreases s.len(),
{
    if s.len() > 0 {
        let p = s.drop_last();
        assert forall|a: int, b: int| 0 <= a < p.len() && 0 <= b < p.len() && a != b implies p[a] != p[b] by {
            assert(p[a] == s[a] && p[b] == s[b]);
        }
        lemma_filter_kept_unique(p, keep);
        if keep[s.len() - 1] {
            let f = filter_kept(p, keep);
            assert(!f.contains(s.last())) by {
                if f.contains(s.last()) {
                    lemma_filter_kept_contains(p, keep, s.last());
                    let j = choose|j: int| 0 <= j < p.len() && p[j] == s.last();
                    assert(s[j] == s[s.len() - 1]);
                }
            }
            let g = f.push(s.last());
            assert forall|a: int, b: int| 0 <= a < g.len() && 0 <= b < g.len() && a != b implies g[a] != g[b] by {
                if a == f.len() {
                    assert(f[b] == g[b]);
                    assert(f.contains(g[b]));
                } else if b == f.len() {
                    assert(f[a] == g[a]);
                    assert(f.contains(g[a]));
                } else {
                    assert(g[a] == f[a] && g[b] == f[b]);
                }
            }
        }
    }
}

/// Filtering keeps a strictly sorted sequence strictly sorted.
pub proof fn lemma_filter_kept_sorted<T: Ord>(s: Seq<T>, keep: Seq<bool>)
    requires
        total_order::<T>(),
        strictly_sorted(s),
    ensures
        strictly_sorted(filter_kept(s, keep)),
    decreases s.len(),
{
    if s.len() > 0 {
        let p = s.drop_last();
        assert forall|a: int, b: int| 0 <= a < b < p.len() implies #[trigger] is_less(p[a], p[b]) by {
            assert(p[a] == s[a] && p[b] == s[b]);
        }
        lemma_filter_kept_sorted(p, keep);
        if keep[s.len() - 1] {
            let f = filter_kept(p, keep);
            let g = f.push(s.last());
            assert forall|a: int, b: int| 0 <= a < b < g.len() implies #[trigger] is_less(g[a], g[b]) by {
                if b == f.len() {
                    assert(f.contains(f[a]));
                    lemma_filter_kept_contains(p, keep, f[a]);
                    let j = choose|j: int| 0 <= j < p.len() && p[j] == f[a];
                    assert(is_less(s[j], s[s.len() - 1]));
                } else {
                    assert(g[a] == f[a] && g[b] == f[b]);
                }
            }
        }
    }
}

/// An element occurs at least twice exactly when two distinct positions hold it.
pub proof fn lemma_count_two<T>(s: Seq<T>, x: T)
    ensures
        s.to_multiset().count(x) >= 2 <==> exists|i: int, j: int|
            0 <= i < s.len() && 0 <= j < s.len() && i != j && s[i] == x && s[j] == x,
{
    broadcast use vstd::seq_lib::group_to_multiset_ensures;
    if s.to_multiset().count(x) >= 2 {
        let p = choose|p: int| 0 <= p < s.len() && s[p] == x;
        assert(s.remove(p).to_multiset() =~= s.to_multiset().remove(x));
        assert(s.remove(p).to_multiset().count(x) >= 1);
        assert(s.remove(p).contains(x));
        let q = choose|q: int| 0 <= q < s.remove(p).len() && s.remove(p)[q] == x;
        if q < p {
            assert(s[q] == x);
        } else {
            assert(s[q + 1] == x);
        }
    }
    if exists|i: int, j: int| 0 <= i < s.len() && 0 <= j < s.len() && i != j && s[i] == x && s[j] == x {
        let (i, j) = choose|i: int, j: int| 0 <= i < s.len() && 0 <= j < s.len() && i != j && s[i] == x && s[j] == x;
        assert(s.remove(j).to_multiset() =~= s.to_multiset().remove(x));
        let i0 = if i < j { i } else { i - 1 };
        assert(s.remove(j)[i0] == x);
        assert(s.remove(j).contains(x));
        assert(s.remove(j).to_multiset().count(x) > 0);
        assert(s.to_multiset().count(x) > 0);
        assert(s.to_multiset().count(x) == s.remove(j).to_multiset().count(x) + 1);
    }
}

/// A rearrangement of entries with distinct keys has distinct keys and stands
/// for the same map.
pub proof fn lemma_perm_entries<K, V>(a: Seq<(K, V)>, b: Seq<(K, V)>)
    requires
        a.to_multiset() == b.to_multiset(),
        keys_unique(a),
    ensures
        keys_unique(b),
        entries_map(b) == entries_map(a),
{
    broadcast use vstd::seq_lib::group_to_multiset_ensures;
    let kb = keys_of(b);
    assert forall|p: int, q: int| 0 <= p < kb.len() && 0 <= q < kb.len() && p != q implies kb[p] != kb[q] by {
        if b[p].0 == b[q].0 {
            if b[p] == b[q] {
                lemma_count_two(b, b[p]);
                lemma_count_two(a, b[p]);
                let (i, j) = choose|i: int, j: int|
                    0 <= i < a.len() && 0 <= j < a.len() && i != j && a[i] == b[p] && a[j] == b[p];
                assert(keys_of(a)[i] == keys_of(a)[j]);
            } else {
                assert(b.contains(b[p]) && b.contains(b[q]));
                assert(b.to_multiset().count(b[p]) > 0 && b.to_multiset().count(b[q]) > 0);
                assert(a.to_multiset().count(b[p]) > 0 && a.to_multiset().count(b[q]) > 0);
                assert(a.contains(b[p]) && a.contains(b[q]));
                let i = choose|i: int| 0 <= i < a.len() && a[i] == b[p];
                let j = choose|j: int| 0 <= j < a.len() && a[j] == b[q];
                assert(keys_of(a)[i] == keys_of(a)[j]);
            }
        }
    }
    assert(entries_map(b) =~= entries_map(a)) by {
        assert forall|x: K| entries_map(b).dom().contains(x) <==> entries_map(a).dom().contains(x) by {
            lemma_entries_map_dom(a, x);
            lemma_entries_map_dom(b, x);
            if exists|j: int| 0 <= j < b.len() && b[j].0 == x {
                let j = choose|j: int| 0 <= j < b.len() && b[j].0 == x;
                assert(b.contains(b[j]));
                assert(b.to_multiset().count(b[j]) > 0);
                assert(a.to_multiset().count(b[j]) > 0);
                let i = choose|i: int| 0 <= i < a.len() && a[i] == b[j];
                assert(a[i].0 == x);
            }
            if exists|j: int| 0 <= j < a.len() && a[j].0 == x {
                let j = choose|j: int| 0 <= j < a.len() && a[j].0 == x;
                assert(a.contains(a[j]));
                assert(a.to_multiset().count(a[j]) > 0);
                assert(b.to_multiset().count(a[j]) > 0);
                let i = choose|i: int| 0 <= i < b.len() && b[i] == a[j];
                assert(b[i].0 == x);
            }
        }
        assert forall|x: K| #[trigger] entries_map(b).dom().contains(x) implies entries_map(b)[x] == entries_map(a)[x] by {
            lemma_entries_map_dom(b, x);
            let j = choose|j: int| 0 <= j < b.len() && b[j].0 == x;
            assert(b.contains(b[j]));
            assert(b.to_multiset().count(b[j]) > 0);
            assert(a.to_multiset().count(b[j]) > 0);
            let i = choose|i: int| 0 <= i < a.len() && a[i] == b[j];
            lemma_entries_map_at(a, i);
            lemma_entries_map_at(b, j);
        }
    }
}

/// Calls `f` on the key and value of the entry at `i`; `f` may edit the value.
fn visit_entry<K, V, F: FnMut(&K, &mut V) -> bool>(s: &mut [(K, V)], i: usize, f: &mut F) -> (b: bool)
    requires
        i < old(s)@.len(),
        forall|k: &K, v: &mut V| call_requires(*old(f), (k, v)),
    ensures
        final(s)@.len() == old(s)@.len(),
        final(s)@[i as int].0 == old(s)@[i as int].0,
        forall|j: int| 0 <= j < old(s)@.len() && j != i ==> final(s)@[j] == old(s)@[j],
        *final(f) == *old(f),
        exists|r: &mut V| {
            &&& *r == old(s)@[i as int].1
            &&& *final(r) == final(s)@[i as int].1
            &&& call_ensures(*old(f), (&old(s)@[i as int].0, r), b)
        },
{
    let e = &mut s[i];
    f(&e.0, &mut e.1)
}

/// Keeps only the entries for which `f` returns `true`, preserving their order;
/// `f` sees each key and may edit its value. Keys are never changed.
pub(crate) fn retain_entries_in<K, V, S: StoreMut<Elem = (K, V)>, F: FnMut(&K, &mut V) -> bool>(store: &mut S, f: F)
    requires
        old(store).well_formed(),
        forall|k: &K, v: &mut V| call_requires(f, (k, v)),
    ensures
        final(store).well_formed(),
        final(store).bound() == old(store).bound(),
        exists|vals: Seq<V>, keep: Seq<bool>, refs: Seq<&mut V>|
            #![trigger filter_kept(with_values(old(store).elems(), vals), keep), refs.len()]
        {
            &&& vals.len() == old(store).elems().len()
            &&& keep.len() == old(store).elems().len()
            &&& refs.len() == old(store).elems().len()
            &&& forall|i: int| #![trigger refs[i]] 0 <= i < keep.len() ==> {
                &&& *refs[i] == old(store).elems()[i].1
                &&& *final(refs[i]) == vals[i]
                &&& call_ensures(f, (&old(store).elems()[i].0, refs[i]), keep[i])
            }
            &&& final(store).elems() == filter_kept(with_values(old(store).elems(), vals), keep)
        },
{
    let ghost f0 = f;
    let mut f = f;
    let ghost start = store.elems();
    let ghost mut vals: Seq<V> = Seq::empty();
    let ghost mut keep: Seq<bool> = Seq::empty();
    let n = store.len();
    let mut write: usize = 0;
    let mut read: usize = 0;
    assert(Seq::<&mut V>::empty().len() == 0);
    while read < n
        invariant
            store.well_formed(),
            store.bound() == old(store).bound(),
            start == old(store).elems(),
            n == start.len(),
            store.elems().len() == n,
            write <= read <= n,
            vals.len() == read,
            keep.len() == read,
            forall|k: &K, v: &mut V| call_requires(f, (k, v)),
            f == f0,
            exists|refs: Seq<&mut V>| #![trigger refs.len()] {
                &&& refs.len() == read
                &&& forall|i: int| #![trigger refs[i]] 0 <= i < read ==> {
                    &&& *refs[i] == start[i].1
                    &&& *final(refs[i]) == vals[i]
                    &&& call_ensures(f0, (&start[i].0, refs[i]), keep[i])
                }
            },
            store.elems().subrange(0, write as int) == filter_kept(with_values(start.subrange(0, read as int), vals), keep),
            store.elems().subrange(read as int, n as int) == start.subrange(read as int, n as int),
        decreases n - read,
    {
        let ghost before = store.elems();
        assert(before[read as int] == start[read as int]) by {
            assert(before.subrange(read as int, n as int)[0] == before[read as int]);
        }
        let s = store.as_mut_slice();
        let ghost keep0 = keep;
        let ghost vals0 = vals;
        let ghost read0: int = read as int;
        let b = visit_entry(s, read, &mut f);
        let ghost v = s@[read as int].1;
        proof {
            let w0 = with_values(start.subrange(0, read as int), vals);
            lemma_filter_kept_step(w0, keep, (start[read as int].0, v), b);
            assert(w0.push((start[read as int].0, v)) =~= with_values(start.subrange(0, read + 1), vals.push(v)));
            vals = vals.push(v);
            keep = keep.push(b);
        }
        if b {
            if write != read {
                slice_swap(s, write, read);
            }
            write = write + 1;
        }
        read = read + 1;
        assert(s@.subrange(0, write as int) =~= filter_kept(with_values(start.subrange(0, read as int), vals), keep));
        assert(s@.subrange(read as int, n as int) =~= start.subrange(read as int, n as int)) by {
            assert forall|k: int| read <= k < n implies s@[k] == start[k] by {
                assert(before.subrange((read - 1) as int, n as int)[k - (read - 1)] == before[k]);
            }
        }
        proof {
            let prev = choose|refs: Seq<&mut V>| #![trigger refs.len()] {
                &&& refs.len() == read0
                &&& forall|i: int| #![trigger refs[i]] 0 <= i < read0 ==> {
                    &&& *refs[i] == start[i].1
                    &&& *final(refs[i]) == vals0[i]
                    &&& call_ensures(f0, (&start[i].0, refs[i]), keep0[i])
                }
            };
            let r = choose|r: &mut V| {
                &&& *r == start[read0].1
                &&& *final(r) == v
                &&& call_ensures(f0, (&start[read0].0, r), b)
            };
            let next = prev.push(r);
            assert forall|i: int| #![trigger next[i]] 0 <= i < read implies {
                &&& *next[i] == start[i].1
                &&& *final(next[i]) == vals[i]
                &&& call_ensures(f0, (&start[i].0, next[i]), keep[i])
            } by {
                if i < read0 {
                    assert(keep[i] == keep0[i]);
                    assert(vals[i] == vals0[i]);
                    assert(next[i] == prev[i]);
                }
            }
            assert(next.len() == read);
        }
    }
    truncate_to(store, write);
    assert(start.subrange(0, n as int) =~= start);
}

} // verus!
