//! Laws of the tree as a map, over the views that the operations' contracts
//! speak of.
use vstd::prelude::*;
use crate::order::{key_lt, key_laws, lemma_key_laws};
use crate::model::{sorted_entries, entries_map, lookup, has_key, lemma_map_dom, lemma_map_len, lemma_map_value};
use crate::tree::TernaryBTree;

verus! {

/// After `insert(k, v)`, searching `k` finds `v` and searching any other key
/// finds what it found before.
pub proof fn law_search_after_insert<K: Ord + Clone, V>(t: TernaryBTree<K, V>, k: K, v: V, j: K)
    ensures
        lookup(t@.insert(k, v), j) == if j == k {
            Some(v)
        } else {
            lookup(t@, j)
        },
{
}

/// After `delete(k)`, searching `k` finds nothing and searching any other key
/// finds what it found before.
pub proof fn law_search_after_delete<K: Ord + Clone, V>(t: TernaryBTree<K, V>, k: K, j: K)
    ensures
        lookup(t@.remove(k), j) == if j == k {
            None
        } else {
            lookup(t@, j)
        },
{
}

/// Inserting a new key adds one to `len`; inserting a key that is there
/// already leaves `len` unchanged.
pub proof fn law_len_after_insert<K: Ord + Clone, V>(t: TernaryBTree<K, V>, k: K, v: V)
    ensures
        t@.insert(k, v).len() == t@.len() + if t@.contains_key(k) {
            0int
        } else {
            1int
        },
{
    t.lemma_view_finite();
    if t@.contains_key(k) {
        assert(t@.insert(k, v).dom() =~= t@.dom());
    }
}

/// Deleting a key that is there takes one from `len`; deleting one that is
/// not leaves `len` unchanged.
pub proof fn law_len_after_delete<K: Ord + Clone, V>(t: TernaryBTree<K, V>, k: K)
    ensures
        t@.remove(k).len() == t@.len() - if t@.contains_key(k) {
            1int
        } else {
            0int
        },
{
    t.lemma_view_finite();
    if !t@.contains_key(k) {
        assert(t@.remove(k).dom() =~= t@.dom());
    }
}

/// Deleting a key just inserted into a tree that did not hold it gives back
/// the tree's map.
pub proof fn law_delete_undoes_insert<K: Ord + Clone, V>(t: TernaryBTree<K, V>, k: K, v: V)
    requires
        !t@.contains_key(k),
    ensures
        t@.insert(k, v).remove(k) == t@,
{
    assert(t@.insert(k, v).remove(k) =~= t@);
}

/// Inserting twice under one key keeps only the second value.
pub proof fn law_insert_overwrites<K: Ord + Clone, V>(t: TernaryBTree<K, V>, k: K, v1: V, v2: V)
    ensures
        t@.insert(k, v1).insert(k, v2) == t@.insert(k, v2),
{
    assert(t@.insert(k, v1).insert(k, v2) =~= t@.insert(k, v2));
}

/// A listing in strictly ascending key order is fixed by the map it stands
/// for: `iter` and `range` have exactly one possible result.
pub proof fn law_listing_determined<K: Ord + Clone, V>(s1: Seq<(K, V)>, s2: Seq<(K, V)>)
    requires
        key_laws::<K>(),
        sorted_entries(s1),
        sorted_entries(s2),
        entries_map(s1) == entries_map(s2),
    ensures
        s1 == s2,
    decreases s1.len(),
{
    lemma_key_laws::<K>();
    lemma_map_len(s1);
    lemma_map_len(s2);
    if s1.len() > 0 {
        let n = s1.len() - 1;
        let l1 = s1[n];
        let l2 = s2[n];
        lemma_map_dom(s1);
        lemma_map_dom(s2);
        lemma_map_value(s1, n);
        lemma_map_value(s2, n);
        assert(has_key(s2, l1.0));
        assert(has_key(s1, l2.0));
        let a = choose|i: int| 0 <= i < s2.len() && #[trigger] s2[i].0 == l1.0;
        let b = choose|i: int| 0 <= i < s1.len() && #[trigger] s1[i].0 == l2.0;
        if l1.0 != l2.0 {
            assert(a < n);
            assert(b < n);
            assert(key_lt(s2[a].0, s2[n].0));
            assert(key_lt(s1[b].0, s1[n].0));
        }
        assert(l1 == l2);
        let d1 = s1.drop_last();
        let d2 = s2.drop_last();
        assert(sorted_entries(d1)) by {
            assert forall|x: int, y: int| 0 <= x < y < d1.len() implies key_lt(d1[x].0, d1[y].0) by {
                assert(d1[x] == s1[x] && d1[y] == s1[y]);
            }
        }
        assert(sorted_entries(d2)) by {
            assert forall|x: int, y: int| 0 <= x < y < d2.len() implies key_lt(d2[x].0, d2[y].0) by {
                assert(d2[x] == s2[x] && d2[y] == s2[y]);
            }
        }
        lemma_map_dom(d1);
        lemma_map_dom(d2);
        assert(!entries_map(d1).dom().contains(l1.0)) by {
            if has_key(d1, l1.0) {
                let i = choose|i: int| 0 <= i < d1.len() && #[trigger] d1[i].0 == l1.0;
                assert(key_lt(s1[i].0, s1[n].0));
            }
        }
        assert(!entries_map(d2).dom().contains(l2.0)) by {
            if has_key(d2, l2.0) {
                let i = choose|i: int| 0 <= i < d2.len() && #[trigger] d2[i].0 == l2.0;
                assert(key_lt(s2[i].0, s2[n].0));
            }
        }
        assert(entries_map(d1) =~= entries_map(s1).remove(l1.0));
        assert(entries_map(d2) =~= entries_map(s2).remove(l2.0));
        law_listing_determined(d1, d2);
        assert(s1 =~= d1.push(l1));
        assert(s2 =~= d2.push(l2));
    } else {
        assert(s1 =~= s2);
    }
}

} // verus!
