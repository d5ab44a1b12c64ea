//! The mathematical model of the tree's contents: a sequence of key-value
//! entries in ascending key order, and the map that it stands for.
use vstd::prelude::*;
use crate::order::{key_lt, key_le, key_laws, lemma_key_laws};

verus! {

/// `k` lies in the half-open interval `[lo, hi)`; a missing bound is no bound.
pub open spec fn in_range<K: Ord>(k: K, lo: Option<K>, hi: Option<K>) -> bool {
    &&& (lo matches Some(l) ==> key_le(l, k))
    &&& (hi matches Some(h) ==> key_lt(k, h))
}

/// `k` lies strictly between `lo` and `hi`; a missing bound is no bound.
pub open spec fn strictly_in<K: Ord>(k: K, lo: Option<K>, hi: Option<K>) -> bool {
    &&& (lo matches Some(l) ==> key_lt(l, k))
    &&& (hi matches Some(h) ==> key_lt(k, h))
}

/// Keys in strictly ascending order.
pub open spec fn sorted_keys<K: Ord>(ks: Seq<K>) -> bool {
    forall|i: int, j: int| 0 <= i < j < ks.len() ==> key_lt(ks[i], ks[j])
}

/// Entries in strictly ascending key order (so no key occurs twice).
pub open spec fn sorted_entries<K: Ord, V>(s: Seq<(K, V)>) -> bool {
    forall|i: int, j: int| 0 <= i < j < s.len() ==> key_lt(s[i].0, s[j].0)
}

/// Every key of `s` lies in `[lo, hi)`.
pub open spec fn entries_in_range<K: Ord, V>(s: Seq<(K, V)>, lo: Option<K>, hi: Option<K>) -> bool {
    forall|i: int| 0 <= i < s.len() ==> in_range(#[trigger] s[i].0, lo, hi)
}

/// Some entry of `s` has the key `k`.
pub open spec fn has_key<K, V>(s: Seq<(K, V)>, k: K) -> bool {
    exists|i: int| 0 <= i < s.len() && #[trigger] s[i].0 == k
}

/// The map that a sequence of entries stands for (a later entry wins).
pub open spec fn entries_map<K, V>(s: Seq<(K, V)>) -> Map<K, V>
    decreases s.len(),
{
    if s.len() == 0 {
        Map::empty()
    } else {
        entries_map(s.drop_last()).insert(s.last().0, s.last().1)
    }
}

/// What a map answers for a key.
pub open spec fn lookup<K, V>(m: Map<K, V>, k: K) -> Option<V> {
    if m.contains_key(k) {
        Some(m[k])
    } else {
        None
    }
}

/// `s` with `(k, v)` put in its place by key: an entry with key `k` is replaced,
/// otherwise the entry is inserted before the first greater key.
pub open spec fn insert_entry<K: Ord, V>(s: Seq<(K, V)>, k: K, v: V) -> Seq<(K, V)>
    decreases s.len(),
{
    if s.len() == 0 {
        seq![(k, v)]
    } else if s.last().0 == k {
        s.drop_last().push((k, v))
    } else if key_lt(s.last().0, k) {
        s.push((k, v))
    } else {
        insert_entry(s.drop_last(), k, v).push(s.last())
    }
}

/// Keeps the entries whose key is not `k`.
pub open spec fn other_key<K, V>(k: K) -> spec_fn((K, V)) -> bool {
    |e: (K, V)| e.0 != k
}

/// `s` without the entry of key `k`.
pub open spec fn remove_entry<K, V>(s: Seq<(K, V)>, k: K) -> Seq<(K, V)> {
    s.filter(other_key(k))
}

/// Keeps the entries whose key lies in `[lo, hi]`.
pub open spec fn key_between<K: Ord, V>(lo: K, hi: K) -> spec_fn((K, V)) -> bool {
    |e: (K, V)| key_le(lo, e.0) && key_le(e.0, hi)
}

/// The entries of `s` whose key lies in `[lo, hi]`, in their order.
pub open spec fn entries_between<K: Ord, V>(s: Seq<(K, V)>, lo: K, hi: K) -> Seq<(K, V)> {
    s.filter(key_between(lo, hi))
}

/// The keys in `[lo, hi]`.
pub open spec fn keys_between<K: Ord>(lo: K, hi: K) -> Set<K> {
    Set::new(|k: K| key_le(lo, k) && key_le(k, hi))
}

/// The values behind a sequence of pairs of references.
pub open spec fn deref_pairs<'a, K, V>(s: Seq<(&'a K, &'a V)>) -> Seq<(K, V)> {
    s.map_values(|p: (&'a K, &'a V)| (*p.0, *p.1))
}

// ---------------------------------------------------------------- order facts

pub proof fn lemma_lt_le<K: Ord + Clone>(a: K, b: K, c: K)
    requires
        key_laws::<K>(),
        key_lt(a, b),
        key_le(b, c),
    ensures
        key_lt(a, c),
{
    lemma_key_laws::<K>();
}

// ------------------------------------------------------------- sorted sequences

/// Two sorted runs on either side of a bound make a sorted run.
pub proof fn lemma_sorted_concat<K: Ord + Clone, V>(a: Seq<(K, V)>, b: Seq<(K, V)>, m: K)
    requires
        key_laws::<K>(),
        sorted_entries(a),
        sorted_entries(b),
        entries_in_range(a, None, Some(m)),
        entries_in_range(b, Some(m), None),
    ensures
        sorted_entries(a + b),
{
    lemma_key_laws::<K>();
    assert forall|i: int, j: int| 0 <= i < j < (a + b).len() implies key_lt(
        (a + b)[i].0,
        (a + b)[j].0,
    ) by {
        if i < a.len() && j >= a.len() {
            assert(in_range(a[i].0, None, Some(m)));
            assert(in_range(b[j - a.len()].0, Some(m), None));
            lemma_lt_le(a[i].0, m, b[j - a.len()].0);
        }
    }
}

/// Bounds carry over to a concatenation.
pub proof fn lemma_range_concat<K: Ord, V>(
    a: Seq<(K, V)>,
    b: Seq<(K, V)>,
    lo: Option<K>,
    hi: Option<K>,
)
    requires
        entries_in_range(a, lo, hi),
        entries_in_range(b, lo, hi),
    ensures
        entries_in_range(a + b, lo, hi),
{
    assert forall|i: int| 0 <= i < (a + b).len() implies in_range(#[trigger] (a + b)[i].0, lo, hi) by {
        if i < a.len() {
            assert((a + b)[i] == a[i]);
        } else {
            assert((a + b)[i] == b[i - a.len()]);
        }
    }
}

/// A key found in a concatenation is found in one of its parts.
pub proof fn lemma_has_key_concat<K, V>(a: Seq<(K, V)>, b: Seq<(K, V)>, k: K)
    ensures
        has_key(a + b, k) <==> has_key(a, k) || has_key(b, k),
{
    if has_key(a + b, k) {
        let i = choose|i: int| 0 <= i < (a + b).len() && #[trigger] (a + b)[i].0 == k;
        if i < a.len() {
            assert(a[i].0 == k);
        } else {
            assert(b[i - a.len()].0 == k);
        }
    }
    if has_key(a, k) {
        let i = choose|i: int| 0 <= i < a.len() && #[trigger] a[i].0 == k;
        assert((a + b)[i].0 == k);
    }
    if has_key(b, k) {
        let i = choose|i: int| 0 <= i < b.len() && #[trigger] b[i].0 == k;
        assert((a + b)[a.len() + i].0 == k);
    }
}

/// A key out of range is not in the sequence.
pub proof fn lemma_out_of_range_absent<K: Ord + Clone, V>(
    s: Seq<(K, V)>,
    k: K,
    lo: Option<K>,
    hi: Option<K>,
)
    requires
        key_laws::<K>(),
        entries_in_range(s, lo, hi),
        !in_range(k, lo, hi),
    ensures
        !has_key(s, k),
{
    if has_key(s, k) {
        let i = choose|i: int| 0 <= i < s.len() && #[trigger] s[i].0 == k;
        assert(in_range(s[i].0, lo, hi));
    }
}

// ------------------------------------------------------------------ insertion

/// Every entry of an insertion is the new entry or an old one; on a sorted
/// sequence the length grows by one exactly when the key is new.
pub proof fn lemma_insert_entry_members<K: Ord + Clone, V>(s: Seq<(K, V)>, k: K, v: V)
    requires
        key_laws::<K>(),
    ensures
        forall|i: int|
            0 <= i < insert_entry(s, k, v).len() ==> #[trigger] insert_entry(s, k, v)[i] == (k, v)
                || s.contains(insert_entry(s, k, v)[i]),
        insert_entry(s, k, v).contains((k, v)),
        has_key(insert_entry(s, k, v), k),
        sorted_entries(s) ==> insert_entry(s, k, v).len() == s.len() + if has_key(s, k) {
            0int
        } else {
            1int
        },
    decreases s.len(),
{
    let r = insert_entry(s, k, v);
    if s.len() == 0 {
        assert(r[0] == (k, v));
    } else if s.last().0 == k {
        assert(r[r.len() - 1] == (k, v));
        assert forall|i: int| 0 <= i < r.len() implies #[trigger] r[i] == (k, v) || s.contains(
            r[i],
        ) by {
            if i < r.len() - 1 {
                assert(r[i] == s[i]);
            }
        }
        assert(s[s.len() - 1].0 == k);
    } else if key_lt(s.last().0, k) {
        assert(r[r.len() - 1] == (k, v));
        assert forall|i: int| 0 <= i < r.len() implies #[trigger] r[i] == (k, v) || s.contains(
            r[i],
        ) by {
            if i < r.len() - 1 {
                assert(r[i] == s[i]);
            }
        }
        if sorted_entries(s) && has_key(s, k) {
            let i = choose|i: int| 0 <= i < s.len() && #[trigger] s[i].0 == k;
            assert(i < s.len() - 1);
            assert(key_lt(s[i].0, s[s.len() - 1].0));
            lemma_key_laws::<K>();
        }
    } else {
        let d = s.drop_last();
        let rd = insert_entry(d, k, v);
        lemma_insert_entry_members(d, k, v);
        assert(r == rd.push(s.last()));
        assert forall|i: int| 0 <= i < r.len() implies #[trigger] r[i] == (k, v) || s.contains(
            r[i],
        ) by {
            if i < r.len() - 1 {
                assert(r[i] == rd[i]);
                if rd[i] != (k, v) {
                    let j = choose|j: int| 0 <= j < d.len() && d[j] == rd[i];
                    assert(s[j] == d[j]);
                }
            } else {
                assert(s[s.len() - 1] == s.last());
            }
        }
        let j = choose|j: int| 0 <= j < rd.len() && rd[j] == (k, v);
        assert(r[j] == (k, v));
        if sorted_entries(s) {
            assert(sorted_entries(d)) by {
                assert forall|a: int, b: int| 0 <= a < b < d.len() implies key_lt(d[a].0, d[b].0) by {
                    assert(d[a] == s[a] && d[b] == s[b]);
                }
            }
            if has_key(s, k) {
                let i = choose|i: int| 0 <= i < s.len() && #[trigger] s[i].0 == k;
                assert(i < s.len() - 1);
                assert(d[i].0 == k);
            }
            if has_key(d, k) {
                let i = choose|i: int| 0 <= i < d.len() && #[trigger] d[i].0 == k;
                assert(s[i].0 == k);
            }
        }
    }
    let j = choose|j: int| 0 <= j < r.len() && r[j] == (k, v);
    assert(r[j].0 == k);
}

/// Insertion keeps a sequence sorted.
pub proof fn lemma_insert_entry_sorted<K: Ord + Clone, V>(s: Seq<(K, V)>, k: K, v: V)
    requires
        key_laws::<K>(),
        sorted_entries(s),
    ensures
        sorted_entries(insert_entry(s, k, v)),
    decreases s.len(),
{
    lemma_key_laws::<K>();
    let r = insert_entry(s, k, v);
    if s.len() == 0 {
    } else if s.last().0 == k {
        assert forall|i: int, j: int| 0 <= i < j < r.len() implies key_lt(r[i].0, r[j].0) by {
            assert(r[i] == s[i]);
            if j < r.len() - 1 {
                assert(r[j] == s[j]);
            } else {
                assert(r[j].0 == s[s.len() - 1].0);
            }
        }
    } else if key_lt(s.last().0, k) {
        assert forall|i: int, j: int| 0 <= i < j < r.len() implies key_lt(r[i].0, r[j].0) by {
            assert(r[i] == s[i]);
            if j < r.len() - 1 {
                assert(r[j] == s[j]);
            } else {
                if i < s.len() - 1 {
                    assert(key_lt(s[i].0, s[s.len() - 1].0));
                }
            }
        }
    } else {
        let d = s.drop_last();
        let l = s.last();
        assert(sorted_entries(d)) by {
            assert forall|a: int, b: int| 0 <= a < b < d.len() implies key_lt(d[a].0, d[b].0) by {
                assert(d[a] == s[a] && d[b] == s[b]);
            }
        }
        lemma_insert_entry_sorted(d, k, v);
        lemma_insert_entry_members(d, k, v);
        let rd = insert_entry(d, k, v);
        assert(key_lt(k, l.0));
        assert forall|i: int, j: int| 0 <= i < j < r.len() implies key_lt(r[i].0, r[j].0) by {
            assert(r[i] == rd[i]);
            if j < r.len() - 1 {
                assert(r[j] == rd[j]);
            } else {
                assert(r[j] == l);
                if rd[i] != (k, v) {
                    let x = choose|x: int| 0 <= x < d.len() && d[x] == rd[i];
                    assert(d[x] == s[x]);
                    assert(key_lt(s[x].0, s[s.len() - 1].0));
                }
            }
        }
    }
}

/// Insertion of a key within bounds keeps a sequence within them.
pub proof fn lemma_insert_entry_range<K: Ord + Clone, V>(
    s: Seq<(K, V)>,
    k: K,
    v: V,
    lo: Option<K>,
    hi: Option<K>,
)
    requires
        key_laws::<K>(),
        entries_in_range(s, lo, hi),
        in_range(k, lo, hi),
    ensures
        entries_in_range(insert_entry(s, k, v), lo, hi),
{
    lemma_insert_entry_members(s, k, v);
    let r = insert_entry(s, k, v);
    assert forall|i: int| 0 <= i < r.len() implies in_range(#[trigger] r[i].0, lo, hi) by {
        if r[i] != (k, v) {
            let x = choose|x: int| 0 <= x < s.len() && s[x] == r[i];
            assert(in_range(s[x].0, lo, hi));
        }
    }
}

/// Insertion into the middle run of three, when the key lies between the
/// outer runs, leaves the outer runs alone.
pub proof fn lemma_insert_entry_frame<K: Ord + Clone, V>(
    p: Seq<(K, V)>,
    m: Seq<(K, V)>,
    q: Seq<(K, V)>,
    k: K,
    v: V,
)
    requires
        key_laws::<K>(),
        entries_in_range(p, None, Some(k)),
        entries_in_range(q, Some(k), None),
        !has_key(q, k),
    ensures
        insert_entry(p + m + q, k, v) == p + insert_entry(m, k, v) + q,
{
    lemma_insert_entry_suffix(p + m, q, k, v);
    lemma_insert_entry_prefix(p, m, k, v);
}

/// Entries all before the key are untouched by an insertion.
pub proof fn lemma_insert_entry_prefix<K: Ord + Clone, V>(a: Seq<(K, V)>, t: Seq<(K, V)>, k: K, v: V)
    requires
        key_laws::<K>(),
        entries_in_range(a, None, Some(k)),
    ensures
        insert_entry(a + t, k, v) == a + insert_entry(t, k, v),
    decreases t.len(),
{
    lemma_key_laws::<K>();
    if t.len() == 0 {
        assert(a + t == a);
        if a.len() > 0 {
            assert(in_range(a[a.len() - 1].0, None, Some(k)));
        }
        assert(insert_entry(a, k, v) == a + seq![(k, v)]);
    } else {
        assert((a + t).drop_last() == a + t.drop_last());
        assert((a + t).last() == t.last());
        lemma_insert_entry_prefix(a, t.drop_last(), k, v);
        if t.last().0 == k {
        } else if key_lt(t.last().0, k) {
        } else {
            assert(insert_entry(a + t, k, v) == (a + insert_entry(t.drop_last(), k, v)).push(
                t.last(),
            ));
        }
    }
}

/// Entries all after the key are untouched by an insertion.
pub proof fn lemma_insert_entry_suffix<K: Ord + Clone, V>(t: Seq<(K, V)>, c: Seq<(K, V)>, k: K, v: V)
    requires
        key_laws::<K>(),
        entries_in_range(c, Some(k), None),
        !has_key(c, k),
    ensures
        insert_entry(t + c, k, v) == insert_entry(t, k, v) + c,
    decreases c.len(),
{
    lemma_key_laws::<K>();
    if c.len() == 0 {
        assert(t + c == t);
        assert(insert_entry(t, k, v) + c == insert_entry(t, k, v));
    } else {
        let l = c.last();
        assert(c[c.len() - 1] == l);
        assert(in_range(c[c.len() - 1].0, Some(k), None));
        assert(l.0 != k);
        assert(!key_lt(l.0, k));
        assert((t + c).drop_last() == t + c.drop_last());
        assert((t + c).last() == l);
        assert forall|i: int| 0 <= i < c.drop_last().len() implies in_range(
            #[trigger] c.drop_last()[i].0,
            Some(k),
            None,
        ) by {
            assert(c.drop_last()[i] == c[i]);
        }
        if has_key(c.drop_last(), k) {
            let i = choose|i: int| 0 <= i < c.drop_last().len() && #[trigger] c.drop_last()[i].0 == k;
            assert(c[i].0 == k);
        }
        lemma_insert_entry_suffix(t, c.drop_last(), k, v);
        assert(insert_entry(t + c, k, v) == (insert_entry(t, k, v) + c.drop_last()).push(l));
        assert((insert_entry(t, k, v) + c.drop_last()).push(l) == insert_entry(t, k, v) + c);
    }
}

/// Insertion before the first entry whose key is greater than `k`.
proof fn lemma_insert_entry_before<K: Ord + Clone, V>(s: Seq<(K, V)>, pos: int, k: K, v: V)
    requires
        key_laws::<K>(),
        sorted_entries(s),
        0 <= pos <= s.len(),
        forall|i: int| 0 <= i < pos ==> key_lt(#[trigger] s[i].0, k),
        pos < s.len() ==> key_lt(k, s[pos].0),
    ensures
        insert_entry(s, k, v) == s.insert(pos, (k, v)),
        !has_key(s, k),
{
    let a = s.take(pos);
    let t = s.skip(pos);
    assert(s == a + t);
    assert forall|i: int| 0 <= i < a.len() implies in_range(#[trigger] a[i].0, None, Some(k)) by {
        assert(a[i] == s[i]);
    }
    lemma_insert_entry_prefix(a, t, k, v);
    assert forall|i: int| 0 <= i < t.len() implies in_range(#[trigger] t[i].0, Some(k), None) by {
        assert(t[i] == s[pos + i]);
        if i > 0 {
            assert(key_lt(s[pos].0, s[pos + i].0));
            lemma_key_laws::<K>();
        }
    }
    if has_key(t, k) {
        let i = choose|i: int| 0 <= i < t.len() && #[trigger] t[i].0 == k;
        assert(in_range(t[i].0, Some(k), None));
        lemma_key_laws::<K>();
    }
    lemma_insert_entry_suffix(Seq::<(K, V)>::empty(), t, k, v);
    assert(Seq::<(K, V)>::empty() + t == t);
    assert(insert_entry(Seq::<(K, V)>::empty(), k, v) == seq![(k, v)]);
    assert(insert_entry(s, k, v) =~= s.insert(pos, (k, v)));
    if has_key(s, k) {
        let i = choose|i: int| 0 <= i < s.len() && #[trigger] s[i].0 == k;
        lemma_key_laws::<K>();
        if i < pos {
            assert(key_lt(s[i].0, k));
        } else if i > pos {
            assert(key_lt(s[pos].0, s[i].0));
        }
    }
}

/// Insertion of a key that the sorted sequence holds at `pos` replaces that entry.
proof fn lemma_insert_entry_replace<K: Ord + Clone, V>(s: Seq<(K, V)>, pos: int, k: K, v: V)
    requires
        key_laws::<K>(),
        sorted_entries(s),
        0 <= pos < s.len(),
        s[pos].0 == k,
    ensures
        insert_entry(s, k, v) == s.update(pos, (k, v)),
{
    let a = s.take(pos);
    let t = s.skip(pos);
    assert(s == a + t);
    assert forall|i: int| 0 <= i < a.len() implies in_range(#[trigger] a[i].0, None, Some(k)) by {
        assert(a[i] == s[i]);
    }
    lemma_insert_entry_prefix(a, t, k, v);
    let rest = t.drop_first();
    assert(t == seq![t[0]] + rest);
    assert(rest.len() == s.len() - pos - 1);
    assert forall|i: int| 0 <= i < rest.len() implies in_range(#[trigger] rest[i].0, Some(k), None) by {
        assert(rest[i] == s[pos + 1 + i]);
    }
    assert(rest.len() == s.len() - pos - 1);
    if has_key(rest, k) {
        let i = choose|i: int| 0 <= i < rest.len() && #[trigger] rest[i].0 == k;
        assert(rest[i] == s[pos + 1 + i]);
        assert(key_lt(s[pos].0, s[pos + 1 + i].0));
        lemma_key_laws::<K>();
        assert(key_lt(k, k));
    }
    lemma_insert_entry_suffix(seq![t[0]], rest, k, v);
    assert(insert_entry(seq![t[0]], k, v) == seq![(k, v)]);
    assert(insert_entry(s, k, v) =~= s.update(pos, (k, v)));
}

/// Insertion into a sorted sequence at the position of the first key that is
/// not smaller than `k`.
pub proof fn lemma_insert_entry_at<K: Ord + Clone, V>(s: Seq<(K, V)>, pos: int, k: K, v: V)
    requires
        key_laws::<K>(),
        sorted_entries(s),
        0 <= pos <= s.len(),
        forall|i: int| 0 <= i < pos ==> key_lt(#[trigger] s[i].0, k),
        pos < s.len() ==> !key_lt(s[pos].0, k),
    ensures
        pos < s.len() && s[pos].0 == k ==> insert_entry(s, k, v) == s.update(pos, (k, v)),
        !(pos < s.len() && s[pos].0 == k) ==> insert_entry(s, k, v) == s.insert(pos, (k, v)),
        has_key(s, k) <==> (pos < s.len() && s[pos].0 == k),
{
    if pos < s.len() && s[pos].0 == k {
        lemma_insert_entry_replace(s, pos, k, v);
    } else {
        if pos < s.len() {
            lemma_key_laws::<K>();
            assert(key_lt(k, s[pos].0));
        }
        lemma_insert_entry_before(s, pos, k, v);
    }
}

// -------------------------------------------------------------------- removal

/// A filter that keeps every entry is the identity.
pub proof fn lemma_filter_keeps_all<A>(s: Seq<A>, p: spec_fn(A) -> bool)
    requires
        forall|i: int| 0 <= i < s.len() ==> p(#[trigger] s[i]),
    ensures
        s.filter(p) == s,
    decreases s.len(),
{
    reveal(Seq::filter);
    if s.len() > 0 {
        assert forall|i: int| 0 <= i < s.drop_last().len() implies p(#[trigger] s.drop_last()[i]) by {
            assert(s.drop_last()[i] == s[i]);
        }
        lemma_filter_keeps_all(s.drop_last(), p);
        assert(p(s[s.len() - 1]));
        assert(s.drop_last().push(s.last()) == s);
    }
}

/// A filter that keeps no entry gives the empty sequence.
pub proof fn lemma_filter_keeps_none<A>(s: Seq<A>, p: spec_fn(A) -> bool)
    requires
        forall|i: int| 0 <= i < s.len() ==> !p(#[trigger] s[i]),
    ensures
        s.filter(p) == Seq::<A>::empty(),
    decreases s.len(),
{
    reveal(Seq::filter);
    if s.len() > 0 {
        assert forall|i: int| 0 <= i < s.drop_last().len() implies !p(#[trigger] s.drop_last()[i]) by {
            assert(s.drop_last()[i] == s[i]);
        }
        lemma_filter_keeps_none(s.drop_last(), p);
        assert(!p(s[s.len() - 1]));
    }
}

/// Removing an absent key changes nothing.
pub proof fn lemma_remove_entry_absent<K, V>(s: Seq<(K, V)>, k: K)
    requires
        !has_key(s, k),
    ensures
        remove_entry(s, k) == s,
{
    assert forall|i: int| 0 <= i < s.len() implies (#[trigger] other_key::<K, V>(k))(s[i]) by {
        if s[i].0 == k {
            assert(has_key(s, k));
        }
    }
    lemma_filter_keeps_all(s, other_key::<K, V>(k));
}

/// Removing the key that a sorted sequence holds at `pos` drops that entry.
pub proof fn lemma_remove_entry_at<K: Ord + Clone, V>(s: Seq<(K, V)>, pos: int, k: K)
    requires
        key_laws::<K>(),
        sorted_entries(s),
        0 <= pos < s.len(),
        s[pos].0 == k,
    ensures
        remove_entry(s, k) == s.remove(pos),
{
    let a = s.take(pos);
    let b = s.skip(pos + 1);
    let m = seq![s[pos]];
    assert(s == a + m + b);
    let p = other_key::<K, V>(k);
    broadcast use Seq::filter_distributes_over_add;
    assert forall|i: int| 0 <= i < a.len() implies p(#[trigger] a[i]) by {
        assert(a[i] == s[i]);
        assert(key_lt(s[i].0, s[pos].0));
        lemma_key_laws::<K>();
    }
    assert forall|i: int| 0 <= i < b.len() implies p(#[trigger] b[i]) by {
        assert(b[i] == s[pos + 1 + i]);
        assert(key_lt(s[pos].0, s[pos + 1 + i].0));
        lemma_key_laws::<K>();
    }
    assert forall|i: int| 0 <= i < m.len() implies !p(#[trigger] m[i]) by {}
    lemma_filter_keeps_all(a, p);
    lemma_filter_keeps_all(b, p);
    lemma_filter_keeps_none(m, p);
    assert((a + m + b).filter(p) == (a + m).filter(p) + b.filter(p));
    assert((a + m).filter(p) == a.filter(p) + m.filter(p));
    assert(remove_entry(s, k) =~= s.remove(pos));
}

/// The length of a removal from a sorted sequence.
pub proof fn lemma_remove_entry_len<K: Ord + Clone, V>(s: Seq<(K, V)>, k: K)
    requires
        key_laws::<K>(),
        sorted_entries(s),
    ensures
        remove_entry(s, k).len() == s.len() - if has_key(s, k) { 1int } else { 0int },
{
    if has_key(s, k) {
        let i = choose|i: int| 0 <= i < s.len() && #[trigger] s[i].0 == k;
        lemma_remove_entry_at(s, i, k);
    } else {
        lemma_remove_entry_absent(s, k);
    }
}

// ------------------------------------------------------------------- the map

/// The keys of the map are the keys of the entries, and there are finitely many.
pub proof fn lemma_map_dom<K, V>(s: Seq<(K, V)>)
    ensures
        entries_map(s).dom().finite(),
        forall|k: K| #[trigger] entries_map(s).dom().contains(k) <==> has_key(s, k),
    decreases s.len(),
{
    if s.len() > 0 {
        let d = s.drop_last();
        lemma_map_dom(d);
        assert forall|k: K| #[trigger] entries_map(s).dom().contains(k) <==> has_key(s, k) by {
            if has_key(d, k) {
                let i = choose|i: int| 0 <= i < d.len() && #[trigger] d[i].0 == k;
                assert(s[i].0 == k);
            }
            if has_key(s, k) {
                let i = choose|i: int| 0 <= i < s.len() && #[trigger] s[i].0 == k;
                if i < s.len() - 1 {
                    assert(d[i].0 == k);
                }
            }
        }
    }
}

/// In a sorted sequence the map gives each key the value of its entry.
pub proof fn lemma_map_value<K: Ord + Clone, V>(s: Seq<(K, V)>, i: int)
    requires
        key_laws::<K>(),
        sorted_entries(s),
        0 <= i < s.len(),
    ensures
        entries_map(s).dom().contains(s[i].0),
        entries_map(s)[s[i].0] == s[i].1,
    decreases s.len(),
{
    let d = s.drop_last();
    if i < s.len() - 1 {
        assert(sorted_entries(d)) by {
            assert forall|a: int, b: int| 0 <= a < b < d.len() implies key_lt(d[a].0, d[b].0) by {
                assert(d[a] == s[a] && d[b] == s[b]);
            }
        }
        lemma_map_value(d, i);
        assert(d[i] == s[i]);
        assert(key_lt(s[i].0, s[s.len() - 1].0));
        lemma_key_laws::<K>();
    }
}

/// A sorted sequence has as many entries as its map has keys.
pub proof fn lemma_map_len<K: Ord + Clone, V>(s: Seq<(K, V)>)
    requires
        key_laws::<K>(),
        sorted_entries(s),
    ensures
        entries_map(s).dom().len() == s.len(),
    decreases s.len(),
{
    if s.len() > 0 {
        let d = s.drop_last();
        assert(sorted_entries(d)) by {
            assert forall|a: int, b: int| 0 <= a < b < d.len() implies key_lt(d[a].0, d[b].0) by {
                assert(d[a] == s[a] && d[b] == s[b]);
            }
        }
        lemma_map_len(d);
        lemma_map_dom(d);
        if has_key(d, s.last().0) {
            let i = choose|i: int| 0 <= i < d.len() && #[trigger] d[i].0 == s.last().0;
            assert(key_lt(s[i].0, s[s.len() - 1].0));
            lemma_key_laws::<K>();
        }
    }
}

/// Inserting an entry inserts into the map.
pub proof fn lemma_map_insert_entry<K: Ord, V>(s: Seq<(K, V)>, k: K, v: V)
    ensures
        entries_map(insert_entry(s, k, v)) == entries_map(s).insert(k, v),
    decreases s.len(),
{
    if s.len() == 0 {
        assert(entries_map(seq![(k, v)]) == entries_map(Seq::<(K, V)>::empty()).insert(k, v)) by {
            assert(seq![(k, v)].drop_last() == Seq::<(K, V)>::empty());
        }
    } else if s.last().0 == k {
        assert(insert_entry(s, k, v).drop_last() == s.drop_last());
        assert(entries_map(insert_entry(s, k, v)) =~= entries_map(s).insert(k, v));
    } else if key_lt(s.last().0, k) {
        assert(insert_entry(s, k, v).drop_last() == s);
    } else {
        let d = s.drop_last();
        lemma_map_insert_entry(d, k, v);
        assert(insert_entry(s, k, v).drop_last() == insert_entry(d, k, v));
        assert(entries_map(insert_entry(s, k, v)) =~= entries_map(s).insert(k, v));
    }
}

/// Removing an entry removes from the map.
pub proof fn lemma_map_remove_entry<K, V>(s: Seq<(K, V)>, k: K)
    ensures
        entries_map(remove_entry(s, k)) == entries_map(s).remove(k),
    decreases s.len(),
{
    reveal(Seq::filter);
    if s.len() == 0 {
        assert(entries_map(s).remove(k) =~= Map::<K, V>::empty());
    } else {
        let d = s.drop_last();
        lemma_map_remove_entry(d, k);
        let fd = d.filter(other_key::<K, V>(k));
        if s.last().0 != k {
            assert(remove_entry(s, k) == fd.push(s.last()));
            assert(fd.push(s.last()).drop_last() == fd);
            assert(entries_map(remove_entry(s, k)) =~= entries_map(s).remove(k));
        } else {
            assert(remove_entry(s, k) == fd);
            assert(entries_map(remove_entry(s, k)) =~= entries_map(s).remove(k));
        }
    }
}

// ------------------------------------------------------------ listing entries

/// Appending a pair of references appends the pair of values.
pub proof fn lemma_deref_push<'a, K, V>(s: Seq<(&'a K, &'a V)>, p: (&'a K, &'a V))
    ensures
        deref_pairs(s.push(p)) == deref_pairs(s).push((*p.0, *p.1)),
{
    assert(deref_pairs(s.push(p)) =~= deref_pairs(s).push((*p.0, *p.1)));
}

/// The entries between two keys, one more entry at a time.
pub proof fn lemma_between_step<K: Ord, V>(s: Seq<(K, V)>, i: int, lo: K, hi: K)
    requires
        0 <= i < s.len(),
    ensures
        entries_between(s.take(i + 1), lo, hi) == entries_between(s.take(i), lo, hi) + if key_le(
            lo,
            s[i].0,
        ) && key_le(s[i].0, hi) {
            seq![s[i]]
        } else {
            Seq::<(K, V)>::empty()
        },
{
    reveal(Seq::filter);
    let t = s.take(i + 1);
    assert(t.drop_last() == s.take(i));
    assert(t.last() == s[i]);
    if key_le(lo, s[i].0) && key_le(s[i].0, hi) {
        assert(entries_between(t, lo, hi) =~= entries_between(s.take(i), lo, hi) + seq![s[i]]);
    } else {
        assert(entries_between(t, lo, hi) =~= entries_between(s.take(i), lo, hi)
            + Seq::<(K, V)>::empty());
    }
}

/// A run wholly below `lo` or wholly above `hi` has no entries between them.
pub proof fn lemma_between_none<K: Ord + Clone, V>(
    s: Seq<(K, V)>,
    lo: K,
    hi: K,
    blo: Option<K>,
    bhi: Option<K>,
)
    requires
        key_laws::<K>(),
        entries_in_range(s, blo, bhi),
        (blo matches Some(b) && key_lt(hi, b)) || (bhi matches Some(b) && key_lt(b, lo)),
    ensures
        entries_between(s, lo, hi) == Seq::<(K, V)>::empty(),
{
    lemma_key_laws::<K>();
    assert forall|i: int| 0 <= i < s.len() implies !(#[trigger] key_between::<K, V>(lo, hi))(s[i]) by {
        assert(in_range(s[i].0, blo, bhi));
        if key_le(lo, s[i].0) && key_le(s[i].0, hi) {
            if blo is Some && key_lt(hi, blo->0) {
                assert(key_le(blo->0, s[i].0));
            } else {
                assert(key_lt(s[i].0, bhi->0));
            }
        }
    }
    lemma_filter_keeps_none(s, key_between::<K, V>(lo, hi));
}

/// A filter keeps a sequence sorted.
pub proof fn lemma_filter_sorted<K: Ord + Clone, V>(s: Seq<(K, V)>, p: spec_fn((K, V)) -> bool)
    requires
        key_laws::<K>(),
        sorted_entries(s),
    ensures
        sorted_entries(s.filter(p)),
    decreases s.len(),
{
    reveal(Seq::filter);
    if s.len() > 0 {
        let d = s.drop_last();
        let l = s.last();
        assert(sorted_entries(d)) by {
            assert forall|a: int, b: int| 0 <= a < b < d.len() implies key_lt(d[a].0, d[b].0) by {
                assert(d[a] == s[a] && d[b] == s[b]);
            }
        }
        lemma_filter_sorted(d, p);
        let fd = d.filter(p);
        if p(l) {
            assert forall|a: int, b: int| 0 <= a < b < fd.push(l).len() implies key_lt(
                fd.push(l)[a].0,
                fd.push(l)[b].0,
            ) by {
                if b == fd.len() {
                    assert(fd.contains(fd[a]));
                    d.lemma_filter_contains_rev(p, fd[a]);
                    let x = choose|x: int| 0 <= x < d.len() && d[x] == fd[a];
                    assert(d[x] == s[x]);
                    assert(key_lt(s[x].0, s[s.len() - 1].0));
                } else {
                    assert(fd.push(l)[a] == fd[a] && fd.push(l)[b] == fd[b]);
                }
            }
        }
    }
}

/// The map of the entries between two keys is the map restricted to those keys.
pub proof fn lemma_map_between<K: Ord, V>(s: Seq<(K, V)>, lo: K, hi: K)
    ensures
        entries_map(entries_between(s, lo, hi)) == entries_map(s).restrict(keys_between(lo, hi)),
    decreases s.len(),
{
    reveal(Seq::filter);
    if s.len() == 0 {
        assert(entries_map(s).restrict(keys_between(lo, hi)) =~= Map::<K, V>::empty());
    } else {
        let d = s.drop_last();
        let l = s.last();
        lemma_map_between(d, lo, hi);
        let fd = d.filter(key_between::<K, V>(lo, hi));
        if key_le(lo, l.0) && key_le(l.0, hi) {
            assert(entries_between(s, lo, hi) == fd.push(l));
            assert(fd.push(l).drop_last() == fd);
            assert(entries_map(entries_between(s, lo, hi)) =~= entries_map(s).restrict(
                keys_between(lo, hi),
            ));
        } else {
            assert(entries_between(s, lo, hi) == fd);
            assert(entries_map(entries_between(s, lo, hi)) =~= entries_map(s).restrict(
                keys_between(lo, hi),
            ));
        }
    }
}

} // verus!
