//! Facts about the entries below nodes and runs of sibling nodes.
use vstd::prelude::*;
use crate::order::{key_lt, key_le, key_laws, lemma_key_laws};
use crate::model::{
    in_range, strictly_in, has_key, insert_entry, lemma_insert_entry_frame, lemma_out_of_range_absent,
    lemma_has_key_concat, remove_entry, lemma_remove_entry_absent, sorted_keys, sorted_entries, entries_in_range, lemma_sorted_concat,
    lemma_range_concat,
};
use crate::node::{Node, child_lo, child_hi, run_inv};

verus! {

/// The entries below a concatenation of sibling runs.
pub proof fn lemma_entries_of_concat<K, V>(a: Seq<Box<Node<K, V>>>, b: Seq<Box<Node<K, V>>>)
    ensures
        Node::entries_of(a + b) == Node::entries_of(a) + Node::entries_of(b),
    decreases b.len(),
{
    if b.len() == 0 {
        assert(a + b == a);
        assert(Node::entries_of(a) + Node::entries_of(b) == Node::entries_of(a));
    } else {
        let ab = a + b;
        let bd = b.subrange(0, b.len() - 1);
        assert(ab.subrange(0, ab.len() - 1) == a + bd);
        assert(ab[ab.len() - 1] == b[b.len() - 1]);
        lemma_entries_of_concat(a, bd);
        assert(Node::entries_of(ab) == Node::entries_of(a + bd) + b[b.len() - 1].entries());
        assert(Node::entries_of(b) == Node::entries_of(bd) + b[b.len() - 1].entries());
        assert(Node::entries_of(ab) =~= Node::entries_of(a) + Node::entries_of(b));
    }
}

/// The entries below a single node.
pub proof fn lemma_entries_of_one<K, V>(x: Box<Node<K, V>>)
    ensures
        Node::entries_of(seq![x]) == x.entries(),
{
    assert(seq![x].subrange(0, 0) == Seq::<Box<Node<K, V>>>::empty());
    assert(Node::<K, V>::entries_of(Seq::empty()) == Seq::<(K, V)>::empty());
    assert(Seq::<(K, V)>::empty() + x.entries() == x.entries());
}

/// The entries below a run, split around its `j`-th node.
pub proof fn lemma_entries_of_split<K, V>(cs: Seq<Box<Node<K, V>>>, j: int)
    requires
        0 <= j < cs.len(),
    ensures
        Node::entries_of(cs) == Node::entries_of(cs.take(j)) + cs[j].entries() + Node::entries_of(
            cs.skip(j + 1),
        ),
{
    assert(cs == cs.take(j) + seq![cs[j]] + cs.skip(j + 1));
    lemma_entries_of_concat(cs.take(j) + seq![cs[j]], cs.skip(j + 1));
    lemma_entries_of_concat(cs.take(j), seq![cs[j]]);
    lemma_entries_of_one(cs[j]);
}

/// The facts that a run of children of a well-formed internal node gives about
/// its entries: in order, and within the node's bounds.
pub proof fn lemma_run_entries<K: Ord + Clone, V>(
    cs: Seq<Box<Node<K, V>>>,
    keys: Seq<K>,
    lo: Option<K>,
    hi: Option<K>,
)
    requires
        key_laws::<K>(),
        cs.len() == keys.len() + 1,
        sorted_keys(keys),
        forall|i: int| 0 <= i < keys.len() ==> strictly_in(#[trigger] keys[i], lo, hi),
        forall|i: int|
            0 <= i < cs.len() ==> sorted_entries(#[trigger] cs[i].entries()) && entries_in_range(
                cs[i].entries(),
                child_lo(keys, lo, i),
                child_hi(keys, hi, i),
            ),
    ensures
        sorted_entries(Node::entries_of(cs)),
        entries_in_range(Node::entries_of(cs), lo, hi),
    decreases cs.len(),
{
    lemma_key_laws::<K>();
    if cs.len() == 1 {
        lemma_entries_of_one(cs[0]);
        assert(cs == seq![cs[0]]);
    } else {
        let n = keys.len() - 1;
        let m = keys[n];
        let cd = cs.subrange(0, cs.len() - 1);
        let kd = keys.subrange(0, n);
        assert forall|i: int| 0 <= i < kd.len() implies strictly_in(#[trigger] kd[i], lo, Some(m)) by {
            assert(kd[i] == keys[i]);
            assert(key_lt(keys[i], keys[n]));
        }
        assert forall|i: int| 0 <= i < cd.len() implies sorted_entries(#[trigger] cd[i].entries())
            && entries_in_range(cd[i].entries(), child_lo(kd, lo, i), child_hi(kd, Some(m), i)) by {
            assert(cd[i] == cs[i]);
            assert(child_lo(kd, lo, i) == child_lo(keys, lo, i));
            assert(child_hi(kd, Some(m), i) == child_hi(keys, hi, i));
        }
        lemma_run_entries(cd, kd, lo, Some(m));
        let last = cs[cs.len() - 1].entries();
        assert(child_lo(keys, lo, cs.len() - 1) == Some(m));
        assert(child_hi(keys, hi, cs.len() - 1) == hi);
        assert(entries_in_range(last, Some(m), None));
        assert(entries_in_range(Node::entries_of(cd), None, Some(m)));
        lemma_sorted_concat(Node::entries_of(cd), last, m);
        assert(strictly_in(m, lo, hi));
        lemma_range_widen(Node::entries_of(cd), lo, Some(m), lo, hi);
        lemma_range_widen(last, Some(m), hi, lo, hi);
        lemma_range_concat(Node::entries_of(cd), last, lo, hi);
    }
}

/// Bounds can always be widened.
pub proof fn lemma_range_widen<K: Ord + Clone, V>(
    s: Seq<(K, V)>,
    lo1: Option<K>,
    hi1: Option<K>,
    lo2: Option<K>,
    hi2: Option<K>,
)
    requires
        key_laws::<K>(),
        entries_in_range(s, lo1, hi1),
        lo2 matches Some(l2) ==> (lo1 matches Some(l1) && key_le(l2, l1)),
        hi2 matches Some(h2) ==> (hi1 matches Some(h1) && key_le(h1, h2)),
    ensures
        entries_in_range(s, lo2, hi2),
{
    lemma_key_laws::<K>();
    assert forall|i: int| 0 <= i < s.len() implies in_range(#[trigger] s[i].0, lo2, hi2) by {
        assert(in_range(s[i].0, lo1, hi1));
    }
}

/// A well-formed node holds its entries in order and within its bounds.
pub proof fn lemma_inv_entries<K: Ord + Clone, V>(n: Node<K, V>, lo: Option<K>, hi: Option<K>)
    requires
        key_laws::<K>(),
        n.inv(lo, hi),
    ensures
        sorted_entries(n.entries()),
        entries_in_range(n.entries(), lo, hi),
    decreases n,
{
    match n {
        Node::Leaf { .. } => {},
        Node::Internal { keys, children } => {
            assert forall|i: int| 0 <= i < children@.len() implies sorted_entries(
                #[trigger] children@[i].entries(),
            ) && entries_in_range(
                children@[i].entries(),
                child_lo(keys@, lo, i),
                child_hi(keys@, hi, i),
            ) by {
                lemma_inv_entries(*children@[i], child_lo(keys@, lo, i), child_hi(keys@, hi, i));
            }
            lemma_run_entries(children@, keys@, lo, hi);
        },
    }
}

/// Bounds of a well-formed node can always be widened.
pub proof fn lemma_inv_widen<K: Ord + Clone, V>(
    n: Node<K, V>,
    lo1: Option<K>,
    hi1: Option<K>,
    lo2: Option<K>,
    hi2: Option<K>,
)
    requires
        key_laws::<K>(),
        n.inv(lo1, hi1),
        lo2 matches Some(l2) ==> (lo1 matches Some(l1) && key_le(l2, l1)),
        hi2 matches Some(h2) ==> (hi1 matches Some(h1) && key_le(h1, h2)),
    ensures
        n.inv(lo2, hi2),
    decreases n,
{
    lemma_key_laws::<K>();
    match n {
        Node::Leaf { entries } => {
            lemma_range_widen(entries@, lo1, hi1, lo2, hi2);
        },
        Node::Internal { keys, children } => {
            assert forall|i: int| 0 <= i < keys@.len() implies strictly_in(#[trigger] keys@[i], lo2, hi2) by {
                assert(strictly_in(keys@[i], lo1, hi1));
            }
            assert forall|i: int| 0 <= i < children@.len() implies (#[trigger] children@[i]).inv(
                child_lo(keys@, lo2, i),
                child_hi(keys@, hi2, i),
            ) by {
                lemma_inv_widen(
                    *children@[i],
                    child_lo(keys@, lo1, i),
                    child_hi(keys@, hi1, i),
                    child_lo(keys@, lo2, i),
                    child_hi(keys@, hi2, i),
                );
            }
        },
    }
}

/// Around child `j` of a well-formed run, the entries to its left lie below its
/// lower bound and the entries to its right at or above its upper bound.
pub proof fn lemma_child_frame<K: Ord + Clone, V>(
    keys: Seq<K>,
    cs: Seq<Box<Node<K, V>>>,
    lo: Option<K>,
    hi: Option<K>,
    j: int,
)
    requires
        key_laws::<K>(),
        run_inv(keys, cs, lo, hi),
        0 <= j < cs.len(),
    ensures
        Node::entries_of(cs) == Node::entries_of(cs.take(j)) + cs[j].entries() + Node::entries_of(
            cs.skip(j + 1),
        ),
        sorted_entries(Node::entries_of(cs.take(j))),
        sorted_entries(Node::entries_of(cs.skip(j + 1))),
        sorted_entries(cs[j].entries()),
        entries_in_range(cs[j].entries(), child_lo(keys, lo, j), child_hi(keys, hi, j)),
        j == 0 ==> Node::entries_of(cs.take(j)).len() == 0,
        j > 0 ==> entries_in_range(Node::entries_of(cs.take(j)), lo, Some(keys[j - 1])),
        j == keys.len() ==> Node::entries_of(cs.skip(j + 1)).len() == 0,
        j < keys.len() ==> entries_in_range(Node::entries_of(cs.skip(j + 1)), Some(keys[j]), hi),
{
    lemma_key_laws::<K>();
    lemma_entries_of_split(cs, j);
    assert forall|i: int| 0 <= i < cs.len() implies sorted_entries(#[trigger] cs[i].entries())
        && entries_in_range(cs[i].entries(), child_lo(keys, lo, i), child_hi(keys, hi, i)) by {
        lemma_inv_entries(*cs[i], child_lo(keys, lo, i), child_hi(keys, hi, i));
    }
    let pre = cs.take(j);
    let post = cs.skip(j + 1);
    if j == 0 {
        assert(pre.len() == 0);
        assert(Node::<K, V>::entries_of(pre) == Seq::<(K, V)>::empty());
    } else {
        let kp = keys.take(j - 1);
        let m = keys[j - 1];
        assert forall|i: int| 0 <= i < kp.len() implies strictly_in(#[trigger] kp[i], lo, Some(m)) by {
            assert(kp[i] == keys[i]);
            assert(key_lt(keys[i], keys[j - 1]));
        }
        assert forall|i: int| 0 <= i < pre.len() implies sorted_entries(#[trigger] pre[i].entries())
            && entries_in_range(pre[i].entries(), child_lo(kp, lo, i), child_hi(kp, Some(m), i)) by {
            assert(pre[i] == cs[i]);
            assert(child_lo(kp, lo, i) == child_lo(keys, lo, i));
            assert(child_hi(kp, Some(m), i) == child_hi(keys, hi, i));
        }
        lemma_run_entries(pre, kp, lo, Some(m));
    }
    if j == keys.len() {
        assert(post.len() == 0);
        assert(Node::<K, V>::entries_of(post) == Seq::<(K, V)>::empty());
    } else {
        let ks = keys.skip(j + 1);
        let m = keys[j];
        assert forall|i: int| 0 <= i < ks.len() implies strictly_in(#[trigger] ks[i], Some(m), hi) by {
            assert(ks[i] == keys[j + 1 + i]);
            assert(key_lt(keys[j], keys[j + 1 + i]));
        }
        assert forall|i: int| 0 <= i < post.len() implies sorted_entries(
            #[trigger] post[i].entries(),
        ) && entries_in_range(post[i].entries(), child_lo(ks, Some(m), i), child_hi(ks, hi, i)) by {
            assert(post[i] == cs[j + 1 + i]);
            assert(child_lo(ks, Some(m), i) == child_lo(keys, lo, j + 1 + i));
            assert(child_hi(ks, hi, i) == child_hi(keys, hi, j + 1 + i));
        }
        lemma_run_entries(post, ks, Some(m), hi);
    }
}

/// Replacing a child by a well-formed node of the same height and bounds keeps
/// the run well formed.
pub proof fn lemma_replace_child<K: Ord + Clone, V>(
    keys: Seq<K>,
    cs: Seq<Box<Node<K, V>>>,
    lo: Option<K>,
    hi: Option<K>,
    j: int,
    c: Box<Node<K, V>>,
)
    requires
        run_inv(keys, cs, lo, hi),
        0 <= j < cs.len(),
        c.inv(child_lo(keys, lo, j), child_hi(keys, hi, j)),
        c.height() == cs[j].height(),
    ensures
        run_inv(keys, cs.update(j, c), lo, hi),
        cs.update(j, c)[0].height() == cs[0].height(),
        Node::entries_of(cs.update(j, c)) == Node::entries_of(cs.take(j)) + c.entries()
            + Node::entries_of(cs.skip(j + 1)),
{
    let n = cs.update(j, c);
    assert(n.take(j) == cs.take(j));
    assert(n.skip(j + 1) == cs.skip(j + 1));
    lemma_entries_of_split(n, j);
    assert forall|i: int| 0 <= i < n.len() implies (#[trigger] n[i]).inv(
        child_lo(keys, lo, i),
        child_hi(keys, hi, i),
    ) && n[i].height() == n[0].height() by {
        assert(cs[i].height() == cs[0].height());
    }
}

/// Replacing a child by its two halves around a new separator keeps the run
/// well formed and its entries unchanged.
pub proof fn lemma_split_child<K: Ord + Clone, V>(
    keys: Seq<K>,
    cs: Seq<Box<Node<K, V>>>,
    lo: Option<K>,
    hi: Option<K>,
    j: int,
    l: Box<Node<K, V>>,
    m: K,
    r: Box<Node<K, V>>,
)
    requires
        key_laws::<K>(),
        run_inv(keys, cs, lo, hi),
        0 <= j < cs.len(),
        l.inv(child_lo(keys, lo, j), Some(m)),
        r.inv(Some(m), child_hi(keys, hi, j)),
        l.height() == cs[j].height(),
        r.height() == cs[j].height(),
        l.entries() + r.entries() == cs[j].entries(),
        strictly_in(m, child_lo(keys, lo, j), child_hi(keys, hi, j)),
    ensures
        run_inv(keys.insert(j, m), cs.update(j, l).insert(j + 1, r), lo, hi),
        Node::entries_of(cs.update(j, l).insert(j + 1, r)) == Node::entries_of(cs),
        cs.update(j, l).insert(j + 1, r)[0].height() == cs[0].height(),
{
    lemma_key_laws::<K>();
    let nk = keys.insert(j, m);
    let ncs = cs.update(j, l).insert(j + 1, r);
    assert(nk.len() == keys.len() + 1);
    assert(ncs.len() == cs.len() + 1);
    if j > 0 {
        assert(key_lt(keys[j - 1], m));
    }
    if j < keys.len() {
        assert(key_lt(m, keys[j]));
    }
    assert forall|a: int, b: int| 0 <= a < b < nk.len() implies key_lt(nk[a], nk[b]) by {
        if b < j {
            assert(nk[a] == keys[a] && nk[b] == keys[b]);
        } else if b == j {
            assert(nk[a] == keys[a]);
            if a < j - 1 {
                assert(key_lt(keys[a], keys[j - 1]));
            }
        } else if a == j {
            assert(nk[b] == keys[b - 1]);
            if b - 1 > j {
                assert(key_lt(keys[j], keys[b - 1]));
            }
        } else if a < j {
            assert(nk[a] == keys[a] && nk[b] == keys[b - 1]);
        } else {
            assert(nk[a] == keys[a - 1] && nk[b] == keys[b - 1]);
        }
    }
    assert forall|i: int| 0 <= i < nk.len() implies strictly_in(#[trigger] nk[i], lo, hi) by {
        if i < j {
            assert(nk[i] == keys[i]);
        } else if i == j {
            if j > 0 {
                assert(strictly_in(keys[j - 1], lo, hi));
            }
            if j < keys.len() {
                assert(strictly_in(keys[j], lo, hi));
            }
        } else {
            assert(nk[i] == keys[i - 1]);
        }
    }
    assert forall|i: int| 0 <= i < ncs.len() implies (#[trigger] ncs[i]).inv(
        child_lo(nk, lo, i),
        child_hi(nk, hi, i),
    ) && ncs[i].height() == ncs[0].height() by {
        assert(cs[0].height() == cs[j].height());
        if i < j {
            assert(ncs[i] == cs[i]);
            assert(child_lo(nk, lo, i) == child_lo(keys, lo, i));
            assert(child_hi(nk, hi, i) == child_hi(keys, hi, i));
            assert(cs[i].height() == cs[0].height());
        } else if i == j {
            assert(ncs[i] == l);
            assert(child_lo(nk, lo, i) == child_lo(keys, lo, j));
            assert(child_hi(nk, hi, i) == Some(m));
        } else if i == j + 1 {
            assert(ncs[i] == r);
            assert(child_lo(nk, lo, i) == Some(m));
            assert(child_hi(nk, hi, i) == child_hi(keys, hi, j));
        } else {
            assert(ncs[i] == cs[i - 1]);
            assert(child_lo(nk, lo, i) == child_lo(keys, lo, i - 1));
            assert(child_hi(nk, hi, i) == child_hi(keys, hi, i - 1));
            assert(cs[i - 1].height() == cs[0].height());
        }
        if j == 0 {
            assert(ncs[0] == l);
        } else {
            assert(ncs[0] == cs[0]);
        }
    }
    assert(ncs == cs.take(j) + (seq![l] + seq![r]) + cs.skip(j + 1));
    lemma_entries_of_concat(cs.take(j) + (seq![l] + seq![r]), cs.skip(j + 1));
    lemma_entries_of_concat(cs.take(j), seq![l] + seq![r]);
    lemma_entries_of_concat(seq![l], seq![r]);
    lemma_entries_of_one(l);
    lemma_entries_of_one(r);
    lemma_entries_of_split(cs, j);
    assert(Node::entries_of(ncs) =~= Node::entries_of(cs));
    if j == 0 {
        assert(ncs[0] == l);
    } else {
        assert(ncs[0] == cs[0]);
    }
}

/// Inserting into the child whose bounds hold the key inserts into the run.
pub proof fn lemma_insert_into_run<K: Ord + Clone, V>(
    keys: Seq<K>,
    cs: Seq<Box<Node<K, V>>>,
    lo: Option<K>,
    hi: Option<K>,
    j: int,
    c: Box<Node<K, V>>,
    k: K,
    v: V,
)
    requires
        key_laws::<K>(),
        run_inv(keys, cs, lo, hi),
        0 <= j < cs.len(),
        in_range(k, child_lo(keys, lo, j), child_hi(keys, hi, j)),
        c.inv(child_lo(keys, lo, j), child_hi(keys, hi, j)),
        c.height() == cs[j].height(),
        c.entries() == insert_entry(cs[j].entries(), k, v),
    ensures
        run_inv(keys, cs.update(j, c), lo, hi),
        cs.update(j, c)[0].height() == cs[0].height(),
        Node::entries_of(cs.update(j, c)) == insert_entry(Node::entries_of(cs), k, v),
        has_key(Node::entries_of(cs), k) == has_key(cs[j].entries(), k),
{
    lemma_key_laws::<K>();
    lemma_child_frame(keys, cs, lo, hi, j);
    lemma_replace_child(keys, cs, lo, hi, j, c);
    let p = Node::entries_of(cs.take(j));
    let q = Node::entries_of(cs.skip(j + 1));
    if j > 0 {
        lemma_range_widen(p, lo, Some(keys[j - 1]), None, Some(k));
    }
    if j < keys.len() {
        lemma_range_widen(q, Some(keys[j]), hi, Some(k), None);
        lemma_out_of_range_absent(q, k, Some(keys[j]), hi);
        lemma_out_of_range_absent(q, k, Some(keys[j]), hi);
    }
    if j > 0 {
        lemma_out_of_range_absent(p, k, lo, Some(keys[j - 1]));
    }
    lemma_insert_entry_frame(p, cs[j].entries(), q, k, v);
    lemma_has_key_concat(p + cs[j].entries(), q, k);
    lemma_has_key_concat(p, cs[j].entries(), k);
}

/// A run cut at separator `i` gives two well-formed runs on either side of it.
pub proof fn lemma_unjoin_run<K: Ord + Clone, V>(
    keys: Seq<K>,
    cs: Seq<Box<Node<K, V>>>,
    lo: Option<K>,
    hi: Option<K>,
    i: int,
)
    requires
        key_laws::<K>(),
        run_inv(keys, cs, lo, hi),
        0 <= i < keys.len(),
    ensures
        run_inv(keys.take(i), cs.take(i + 1), lo, Some(keys[i])),
        run_inv(keys.skip(i + 1), cs.skip(i + 1), Some(keys[i]), hi),
        cs.take(i + 1)[0].height() == cs[0].height(),
        cs.skip(i + 1)[0].height() == cs[0].height(),
        Node::entries_of(cs) == Node::entries_of(cs.take(i + 1)) + Node::entries_of(cs.skip(i + 1)),
{
    lemma_key_laws::<K>();
    let k1 = keys.take(i);
    let c1 = cs.take(i + 1);
    let k2 = keys.skip(i + 1);
    let c2 = cs.skip(i + 1);
    let m = keys[i];
    assert forall|a: int, b: int| 0 <= a < b < k1.len() implies key_lt(k1[a], k1[b]) by {
        assert(k1[a] == keys[a] && k1[b] == keys[b]);
    }
    assert forall|a: int, b: int| 0 <= a < b < k2.len() implies key_lt(k2[a], k2[b]) by {
        assert(k2[a] == keys[i + 1 + a] && k2[b] == keys[i + 1 + b]);
    }
    assert forall|a: int| 0 <= a < k1.len() implies strictly_in(#[trigger] k1[a], lo, Some(m)) by {
        assert(k1[a] == keys[a]);
        assert(key_lt(keys[a], keys[i]));
    }
    assert forall|a: int| 0 <= a < k2.len() implies strictly_in(#[trigger] k2[a], Some(m), hi) by {
        assert(k2[a] == keys[i + 1 + a]);
        assert(key_lt(keys[i], keys[i + 1 + a]));
    }
    assert forall|a: int| 0 <= a < c1.len() implies (#[trigger] c1[a]).inv(
        child_lo(k1, lo, a),
        child_hi(k1, Some(m), a),
    ) && c1[a].height() == c1[0].height() by {
        assert(c1[a] == cs[a]);
        assert(child_lo(k1, lo, a) == child_lo(keys, lo, a));
        assert(child_hi(k1, Some(m), a) == child_hi(keys, hi, a));
        assert(cs[a].height() == cs[0].height());
    }
    assert forall|a: int| 0 <= a < c2.len() implies (#[trigger] c2[a]).inv(
        child_lo(k2, Some(m), a),
        child_hi(k2, hi, a),
    ) && c2[a].height() == c2[0].height() by {
        assert(c2[a] == cs[i + 1 + a]);
        assert(c2[0] == cs[i + 1]);
        assert(child_lo(k2, Some(m), a) == child_lo(keys, lo, i + 1 + a));
        assert(child_hi(k2, hi, a) == child_hi(keys, hi, i + 1 + a));
        assert(cs[i + 1 + a].height() == cs[0].height());
        assert(cs[i + 1].height() == cs[0].height());
    }
    assert(c1[0] == cs[0]);
    assert(c2[0] == cs[i + 1]);
    assert(cs[i + 1].height() == cs[0].height());
    assert(cs == c1 + c2);
    lemma_entries_of_concat(c1, c2);
}

/// Two well-formed runs on either side of a separator join into one run.
pub proof fn lemma_join_runs<K: Ord + Clone, V>(
    k1: Seq<K>,
    c1: Seq<Box<Node<K, V>>>,
    lo: Option<K>,
    m: K,
    k2: Seq<K>,
    c2: Seq<Box<Node<K, V>>>,
    hi: Option<K>,
)
    requires
        key_laws::<K>(),
        run_inv(k1, c1, lo, Some(m)),
        run_inv(k2, c2, Some(m), hi),
        c1[0].height() == c2[0].height(),
        strictly_in(m, lo, hi),
    ensures
        run_inv(k1.push(m) + k2, c1 + c2, lo, hi),
        (c1 + c2)[0].height() == c1[0].height(),
        Node::entries_of(c1 + c2) == Node::entries_of(c1) + Node::entries_of(c2),
{
    lemma_key_laws::<K>();
    let keys = k1.push(m) + k2;
    let cs = c1 + c2;
    let n1 = k1.len();
    assert(keys.len() == k1.len() + 1 + k2.len());
    assert forall|i: int| 0 <= i < keys.len() implies strictly_in(#[trigger] keys[i], lo, hi) by {
        if i < n1 {
            assert(keys[i] == k1[i]);
            assert(strictly_in(k1[i], lo, Some(m)));
        } else if i == n1 {
            assert(keys[i] == m);
        } else {
            assert(keys[i] == k2[i - n1 - 1]);
            assert(strictly_in(k2[i - n1 - 1], Some(m), hi));
        }
    }
    assert forall|a: int, b: int| 0 <= a < b < keys.len() implies key_lt(keys[a], keys[b]) by {
        if b < n1 {
            assert(keys[a] == k1[a] && keys[b] == k1[b]);
        } else if b == n1 {
            assert(keys[a] == k1[a] && keys[b] == m);
            assert(strictly_in(k1[a], lo, Some(m)));
        } else if a > n1 {
            assert(keys[a] == k2[a - n1 - 1] && keys[b] == k2[b - n1 - 1]);
        } else if a == n1 {
            assert(keys[b] == k2[b - n1 - 1]);
            assert(strictly_in(k2[b - n1 - 1], Some(m), hi));
        } else {
            assert(keys[a] == k1[a] && keys[b] == k2[b - n1 - 1]);
            assert(strictly_in(k1[a], lo, Some(m)));
            assert(strictly_in(k2[b - n1 - 1], Some(m), hi));
        }
    }
    assert forall|i: int| 0 <= i < cs.len() implies (#[trigger] cs[i]).inv(
        child_lo(keys, lo, i),
        child_hi(keys, hi, i),
    ) && cs[i].height() == cs[0].height() by {
        assert(cs[0] == c1[0]);
        if i < c1.len() {
            assert(cs[i] == c1[i]);
            assert(child_lo(keys, lo, i) == child_lo(k1, lo, i));
            assert(child_hi(keys, hi, i) == child_hi(k1, Some(m), i));
            assert(c1[i].height() == c1[0].height());
        } else {
            let a = i - c1.len();
            assert(cs[i] == c2[a]);
            assert(child_lo(keys, lo, i) == child_lo(k2, Some(m), a));
            assert(child_hi(keys, hi, i) == child_hi(k2, hi, a));
            assert(c2[a].height() == c2[0].height());
        }
    }
    assert(cs[0] == c1[0]);
    lemma_entries_of_concat(c1, c2);
}

/// A run of a single well-formed child.
pub proof fn lemma_single_run<K: Ord, V>(c: Box<Node<K, V>>, lo: Option<K>, hi: Option<K>)
    ensures
        run_inv(Seq::<K>::empty(), seq![c], lo, hi) <==> c.inv(lo, hi),
        seq![c][0] == c,
{
    let keys = Seq::<K>::empty();
    assert(child_lo(keys, lo, 0) == lo);
    assert(child_hi(keys, hi, 0) == hi);
}

/// Replacing two neighbouring children and the separator between them.
pub proof fn lemma_rebuild_pair<K: Ord + Clone, V>(
    keys: Seq<K>,
    cs: Seq<Box<Node<K, V>>>,
    lo: Option<K>,
    hi: Option<K>,
    j: int,
    nk: K,
    l: Box<Node<K, V>>,
    r: Box<Node<K, V>>,
)
    requires
        key_laws::<K>(),
        run_inv(keys, cs, lo, hi),
        0 <= j,
        j + 1 < cs.len(),
        strictly_in(nk, child_lo(keys, lo, j), child_hi(keys, hi, j + 1)),
        l.inv(child_lo(keys, lo, j), Some(nk)),
        r.inv(Some(nk), child_hi(keys, hi, j + 1)),
        l.height() == cs[j].height(),
        r.height() == cs[j].height(),
        l.entries() + r.entries() == cs[j].entries() + cs[j + 1].entries(),
    ensures
        run_inv(keys.update(j, nk), cs.update(j, l).update(j + 1, r), lo, hi),
        cs.update(j, l).update(j + 1, r)[0].height() == cs[0].height(),
        Node::entries_of(cs.update(j, l).update(j + 1, r)) == Node::entries_of(cs),
{
    lemma_key_laws::<K>();
    let nks = keys.update(j, nk);
    let ncs = cs.update(j, l).update(j + 1, r);
    assert(cs[j].height() == cs[0].height());
    assert(cs[j + 1].height() == cs[0].height());
    if j > 0 {
        assert(strictly_in(keys[j - 1], lo, hi));
    }
    if j + 1 < keys.len() {
        assert(strictly_in(keys[j + 1], lo, hi));
    }
    assert forall|a: int, b: int| 0 <= a < b < nks.len() implies key_lt(nks[a], nks[b]) by {
        if a == j {
            if b > j + 1 {
                assert(key_lt(keys[j + 1], keys[b]));
            }
        } else if b == j {
            if a < j - 1 {
                assert(key_lt(keys[a], keys[j - 1]));
            }
        }
    }
    assert forall|i: int| 0 <= i < nks.len() implies strictly_in(#[trigger] nks[i], lo, hi) by {
        if i == j {
        } else {
            assert(nks[i] == keys[i]);
        }
    }
    assert forall|i: int| 0 <= i < ncs.len() implies (#[trigger] ncs[i]).inv(
        child_lo(nks, lo, i),
        child_hi(nks, hi, i),
    ) && ncs[i].height() == ncs[0].height() by {
        if j == 0 {
            assert(ncs[0] == l);
        } else {
            assert(ncs[0] == cs[0]);
        }
        if i == j {
            assert(child_hi(nks, hi, i) == Some(nk));
            assert(child_lo(nks, lo, i) == child_lo(keys, lo, j));
        } else if i == j + 1 {
            assert(child_lo(nks, lo, i) == Some(nk));
            assert(child_hi(nks, hi, i) == child_hi(keys, hi, j + 1));
        } else {
            assert(ncs[i] == cs[i]);
            assert(child_lo(nks, lo, i) == child_lo(keys, lo, i));
            assert(child_hi(nks, hi, i) == child_hi(keys, hi, i));
            assert(cs[i].height() == cs[0].height());
        }
    }
    if j == 0 {
        assert(ncs[0] == l);
    } else {
        assert(ncs[0] == cs[0]);
    }
    let pre = cs.take(j);
    let post = cs.skip(j + 2);
    assert(cs == pre + (seq![cs[j]] + seq![cs[j + 1]]) + post);
    assert(ncs == pre + (seq![l] + seq![r]) + post);
    lemma_entries_of_concat(pre + (seq![cs[j]] + seq![cs[j + 1]]), post);
    lemma_entries_of_concat(pre, seq![cs[j]] + seq![cs[j + 1]]);
    lemma_entries_of_concat(seq![cs[j]], seq![cs[j + 1]]);
    lemma_entries_of_concat(pre + (seq![l] + seq![r]), post);
    lemma_entries_of_concat(pre, seq![l] + seq![r]);
    lemma_entries_of_concat(seq![l], seq![r]);
    lemma_entries_of_one(l);
    lemma_entries_of_one(r);
    lemma_entries_of_one(cs[j]);
    lemma_entries_of_one(cs[j + 1]);
    assert(Node::entries_of(ncs) =~= Node::entries_of(cs));
}

/// Replacing two neighbouring children by one node that holds both, and
/// dropping the separator between them.
pub proof fn lemma_merge_pair<K: Ord + Clone, V>(
    keys: Seq<K>,
    cs: Seq<Box<Node<K, V>>>,
    lo: Option<K>,
    hi: Option<K>,
    j: int,
    m: Box<Node<K, V>>,
)
    requires
        key_laws::<K>(),
        run_inv(keys, cs, lo, hi),
        0 <= j,
        j + 1 < cs.len(),
        m.inv(child_lo(keys, lo, j), child_hi(keys, hi, j + 1)),
        m.height() == cs[j].height(),
        m.entries() == cs[j].entries() + cs[j + 1].entries(),
    ensures
        run_inv(keys.remove(j), cs.update(j, m).remove(j + 1), lo, hi),
        cs.update(j, m).remove(j + 1)[0].height() == cs[0].height(),
        Node::entries_of(cs.update(j, m).remove(j + 1)) == Node::entries_of(cs),
{
    lemma_key_laws::<K>();
    let nks = keys.remove(j);
    let ncs = cs.update(j, m).remove(j + 1);
    assert(cs[j].height() == cs[0].height());
    assert forall|a: int, b: int| 0 <= a < b < nks.len() implies key_lt(nks[a], nks[b]) by {
        if a < j {
            assert(nks[a] == keys[a]);
        } else {
            assert(nks[a] == keys[a + 1]);
        }
        if b < j {
            assert(nks[b] == keys[b]);
        } else {
            assert(nks[b] == keys[b + 1]);
        }
    }
    assert forall|i: int| 0 <= i < nks.len() implies strictly_in(#[trigger] nks[i], lo, hi) by {
        if i < j {
            assert(nks[i] == keys[i]);
        } else {
            assert(nks[i] == keys[i + 1]);
        }
    }
    assert forall|i: int| 0 <= i < ncs.len() implies (#[trigger] ncs[i]).inv(
        child_lo(nks, lo, i),
        child_hi(nks, hi, i),
    ) && ncs[i].height() == ncs[0].height() by {
        if j == 0 {
            assert(ncs[0] == m);
        } else {
            assert(ncs[0] == cs[0]);
        }
        if i < j {
            assert(ncs[i] == cs[i]);
            assert(child_lo(nks, lo, i) == child_lo(keys, lo, i));
            assert(child_hi(nks, hi, i) == child_hi(keys, hi, i));
            assert(cs[i].height() == cs[0].height());
        } else if i == j {
            assert(ncs[i] == m);
            assert(child_lo(nks, lo, i) == child_lo(keys, lo, j));
            assert(child_hi(nks, hi, i) == child_hi(keys, hi, j + 1));
        } else {
            assert(ncs[i] == cs[i + 1]);
            assert(child_lo(nks, lo, i) == child_lo(keys, lo, i + 1));
            assert(child_hi(nks, hi, i) == child_hi(keys, hi, i + 1));
            assert(cs[i + 1].height() == cs[0].height());
        }
    }
    if j == 0 {
        assert(ncs[0] == m);
    } else {
        assert(ncs[0] == cs[0]);
    }
    let pre = cs.take(j);
    let post = cs.skip(j + 2);
    assert(cs == pre + (seq![cs[j]] + seq![cs[j + 1]]) + post);
    assert(ncs == pre + seq![m] + post);
    lemma_entries_of_concat(pre + (seq![cs[j]] + seq![cs[j + 1]]), post);
    lemma_entries_of_concat(pre, seq![cs[j]] + seq![cs[j + 1]]);
    lemma_entries_of_concat(seq![cs[j]], seq![cs[j + 1]]);
    lemma_entries_of_concat(pre + seq![m], post);
    lemma_entries_of_concat(pre, seq![m]);
    lemma_entries_of_one(m);
    lemma_entries_of_one(cs[j]);
    lemma_entries_of_one(cs[j + 1]);
    assert(Node::entries_of(ncs) =~= Node::entries_of(cs));
}

/// Removing from the child that the key descends to removes from the run.
pub proof fn lemma_remove_from_run<K: Ord + Clone, V>(
    keys: Seq<K>,
    cs: Seq<Box<Node<K, V>>>,
    lo: Option<K>,
    hi: Option<K>,
    j: int,
    c: Box<Node<K, V>>,
    k: K,
)
    requires
        key_laws::<K>(),
        run_inv(keys, cs, lo, hi),
        0 <= j < cs.len(),
        j > 0 ==> key_le(keys[j - 1], k),
        j < keys.len() ==> key_lt(k, keys[j]),
        c.inv(child_lo(keys, lo, j), child_hi(keys, hi, j)),
        c.height() == cs[j].height(),
        c.entries() == remove_entry(cs[j].entries(), k),
    ensures
        run_inv(keys, cs.update(j, c), lo, hi),
        cs.update(j, c)[0].height() == cs[0].height(),
        Node::entries_of(cs.update(j, c)) == remove_entry(Node::entries_of(cs), k),
        has_key(Node::entries_of(cs), k) == has_key(cs[j].entries(), k),
{
    lemma_key_laws::<K>();
    lemma_child_frame(keys, cs, lo, hi, j);
    lemma_replace_child(keys, cs, lo, hi, j, c);
    let p = Node::entries_of(cs.take(j));
    let q = Node::entries_of(cs.skip(j + 1));
    let m = cs[j].entries();
    if j > 0 {
        lemma_out_of_range_absent(p, k, lo, Some(keys[j - 1]));
    } else {
        assert(!has_key(p, k));
    }
    if j < keys.len() {
        lemma_out_of_range_absent(q, k, Some(keys[j]), hi);
    } else {
        assert(!has_key(q, k));
    }
    lemma_remove_entry_absent(p, k);
    lemma_remove_entry_absent(q, k);
    broadcast use Seq::filter_distributes_over_add;
    assert(remove_entry(p + m + q, k) == remove_entry(p + m, k) + remove_entry(q, k));
    assert(remove_entry(p + m, k) == remove_entry(p, k) + remove_entry(m, k));
    lemma_has_key_concat(p + m, q, k);
    lemma_has_key_concat(p, m, k);
}

/// A separator may be raised to any key of the child to its right, as long as
/// that child lies at or above it.
pub proof fn lemma_refresh_separator<K: Ord + Clone, V>(
    keys: Seq<K>,
    cs: Seq<Box<Node<K, V>>>,
    lo: Option<K>,
    hi: Option<K>,
    i: int,
    s: K,
)
    requires
        key_laws::<K>(),
        run_inv(keys, cs, lo, hi),
        0 <= i < keys.len(),
        in_range(s, Some(keys[i]), child_hi(keys, hi, i + 1)),
        cs[i + 1].inv(Some(s), child_hi(keys, hi, i + 1)),
    ensures
        run_inv(keys.update(i, s), cs, lo, hi),
{
    lemma_key_laws::<K>();
    let nks = keys.update(i, s);
    assert(strictly_in(keys[i], lo, hi));
    if i + 1 < keys.len() {
        assert(strictly_in(keys[i + 1], lo, hi));
    }
    assert forall|a: int, b: int| 0 <= a < b < nks.len() implies key_lt(nks[a], nks[b]) by {
        if a == i {
            if b > i + 1 {
                assert(key_lt(keys[i + 1], keys[b]));
            }
        } else if b == i {
            assert(key_lt(keys[a], keys[i]));
        }
    }
    assert forall|a: int| 0 <= a < nks.len() implies strictly_in(#[trigger] nks[a], lo, hi) by {
        if a != i {
            assert(nks[a] == keys[a]);
        }
    }
    assert forall|a: int| 0 <= a < cs.len() implies (#[trigger] cs[a]).inv(
        child_lo(nks, lo, a),
        child_hi(nks, hi, a),
    ) && cs[a].height() == cs[0].height() by {
        if a == i {
            lemma_inv_widen(
                *cs[a],
                child_lo(keys, lo, a),
                Some(keys[i]),
                child_lo(nks, lo, a),
                Some(s),
            );
        } else if a == i + 1 {
        } else {
            assert(child_lo(nks, lo, a) == child_lo(keys, lo, a));
            assert(child_hi(nks, hi, a) == child_hi(keys, hi, a));
        }
    }
}

} // verus!
