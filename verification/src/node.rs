//! The nodes of the tree and what they hold.
use vstd::prelude::*;
use crate::order::{key_lt, key_le, key_laws, lemma_key_laws, copy_key, key_less, key_at_least, key_at_most};
use crate::model::{
    in_range, strictly_in, insert_entry, lemma_insert_entry_at, lemma_insert_entry_sorted,
    lemma_insert_entry_range, lemma_insert_entry_members, lemma_sorted_concat, lemma_range_concat,
    remove_entry, lemma_remove_entry_at, lemma_remove_entry_absent, deref_pairs, entries_between,
    lemma_deref_push, lemma_between_step, lemma_between_none, sorted_keys, sorted_entries, entries_in_range, has_key,
    lemma_out_of_range_absent,
};
use crate::node_lemmas::{
    lemma_child_frame, lemma_inv_entries, lemma_entries_of_concat,
    lemma_split_child, lemma_insert_into_run, lemma_unjoin_run, lemma_join_runs, lemma_single_run,
    lemma_rebuild_pair, lemma_merge_pair, lemma_remove_from_run, lemma_refresh_separator,
    lemma_range_widen,
};

verus! {

/// The most keys a node holds.
pub const MAX_KEYS: usize = 2;

/// The fewest keys a node other than the root is meant to hold.
pub const MIN_KEYS: usize = 1;

/// A node: a leaf holds up to two entries in key order; an internal node holds
/// up to two separator keys `k0 < k1` and one more child than keys.  Child `i`
/// holds the keys `k` with `k(i-1) <= k < k(i)`.
#[derive(Debug)]
pub enum Node<K, V> {
    Leaf { entries: Vec<(K, V)> },
    Internal { keys: Vec<K>, children: Vec<Box<Node<K, V>>> },
}

impl<K, V> Node<K, V> {
    /// Distance from this node down to its leaves.
    pub open spec fn height(self) -> nat
        decreases self,
    {
        match self {
            Node::Leaf { .. } => 0,
            Node::Internal { children, .. } => if children@.len() > 0 {
                children@[0].height() + 1
            } else {
                1
            },
        }
    }

    /// The entries below this node, leaves from left to right.
    pub open spec fn entries(self) -> Seq<(K, V)>
        decreases self, 0nat,
    {
        match self {
            Node::Leaf { entries } => entries@,
            Node::Internal { children, .. } => Self::entries_of(children@),
        }
    }

    /// The entries below a run of sibling nodes, from left to right.
    pub open spec fn entries_of(cs: Seq<Box<Node<K, V>>>) -> Seq<(K, V)>
        decreases cs, cs.len(),
    {
        if cs.len() == 0 {
            Seq::empty()
        } else {
            Self::entries_of(cs.subrange(0, cs.len() - 1)) + cs[cs.len() - 1].entries()
        }
    }

    /// The number of keys that the node holds itself.
    pub open spec fn key_count_spec(self) -> nat {
        match self {
            Node::Leaf { entries } => entries@.len(),
            Node::Internal { keys, .. } => keys@.len(),
        }
    }

    /// The first key of the leftmost leaf below this node, if it holds any.
    pub open spec fn leftmost(self) -> Option<K>
        decreases self,
    {
        match self {
            Node::Leaf { entries } => if entries@.len() == 0 {
                None
            } else {
                Some(entries@[0].0)
            },
            Node::Internal { children, .. } => if children@.len() > 0 {
                children@[0].leftmost()
            } else {
                None
            },
        }
    }

    /// The node is a leaf.
    pub open spec fn is_leaf(self) -> bool {
        self is Leaf
    }

    /// The number of children of an internal node (none for a leaf).
    pub open spec fn child_count(self) -> nat {
        match self {
            Node::Leaf { .. } => 0,
            Node::Internal { children, .. } => children@.len(),
        }
    }
}

/// The lower bound of child `i` of a node with separators `keys` and bounds `lo`.
pub open spec fn child_lo<K>(keys: Seq<K>, lo: Option<K>, i: int) -> Option<K> {
    if i == 0 {
        lo
    } else {
        Some(keys[i - 1])
    }
}

/// The upper bound of child `i` of a node with separators `keys` and bounds `hi`.
pub open spec fn child_hi<K>(keys: Seq<K>, hi: Option<K>, i: int) -> Option<K> {
    if i == keys.len() {
        hi
    } else {
        Some(keys[i])
    }
}

/// A run of children `cs` with separators `keys`, within `[lo, hi)`: one more
/// child than keys, keys ascending and in range, each child well formed within
/// its own bounds, all children of one height.
pub open spec fn run_inv<K: Ord, V>(
    keys: Seq<K>,
    cs: Seq<Box<Node<K, V>>>,
    lo: Option<K>,
    hi: Option<K>,
) -> bool {
    &&& cs.len() == keys.len() + 1
    &&& sorted_keys(keys)
    &&& forall|i: int| 0 <= i < keys.len() ==> strictly_in(#[trigger] keys[i], lo, hi)
    &&& forall|i: int|
        0 <= i < cs.len() ==> (#[trigger] cs[i]).inv(child_lo(keys, lo, i), child_hi(keys, hi, i))
    &&& forall|i: int| 0 <= i < cs.len() ==> (#[trigger] cs[i]).height() == cs[0].height()
}

impl<K: Ord, V> Node<K, V> {
    /// The node is well formed within the bounds `[lo, hi)`: a leaf holds at
    /// most `MAX_KEYS` entries, ascending and within the bounds; an internal
    /// node holds at most `MAX_KEYS` ascending separators strictly between the
    /// bounds, one more child than separators, each child well formed within
    /// the bounds its separators give it, and all children of one height.
    pub open spec fn inv(self, lo: Option<K>, hi: Option<K>) -> bool
        decreases self,
    {
        match self {
            Node::Leaf { entries } => {
                &&& entries@.len() <= MAX_KEYS
                &&& sorted_entries(entries@)
                &&& entries_in_range(entries@, lo, hi)
            },
            Node::Internal { keys, children } => {
                &&& keys@.len() <= MAX_KEYS
                &&& children@.len() == keys@.len() + 1
                &&& sorted_keys(keys@)
                &&& forall|i: int| 0 <= i < keys@.len() ==> strictly_in(#[trigger] keys@[i], lo, hi)
                &&& forall|i: int|
                    0 <= i < children@.len() ==> (#[trigger] children@[i]).inv(
                        child_lo(keys@, lo, i),
                        child_hi(keys@, hi, i),
                    )
                &&& forall|i: int|
                    0 <= i < children@.len() ==> (#[trigger] children@[i]).height()
                        == children@[0].height()
            },
        }
    }
}

impl<K: Ord + Clone, V> Node<K, V> {
    /// An empty leaf.
    pub fn new_leaf() -> (n: Self)
        ensures
            n.is_leaf(),
            n.entries() == Seq::<(K, V)>::empty(),
            forall|lo: Option<K>, hi: Option<K>| n.inv(lo, hi),
    {
        Node::Leaf { entries: Vec::new() }
    }

    /// The node holds the most keys a node may hold.
    pub fn is_full(&self) -> (r: bool)
        ensures
            r == (self.key_count_spec() >= MAX_KEYS),
    {
        match self {
            Node::Leaf { entries } => entries.len() >= MAX_KEYS,
            Node::Internal { keys, .. } => keys.len() >= MAX_KEYS,
        }
    }

    /// The number of keys that the node holds itself.
    pub fn key_count(&self) -> (r: usize)
        ensures
            r == self.key_count_spec(),
    {
        match self {
            Node::Leaf { entries } => entries.len(),
            Node::Internal { keys, .. } => keys.len(),
        }
    }

    /// The child to descend to for `key`: the number of separators not above it.
    pub fn child_index(keys: &[K], key: &K) -> (i: usize)
        requires
            key_laws::<K>(),
        ensures
            i <= keys@.len(),
            forall|j: int| 0 <= j < i ==> key_le(#[trigger] keys@[j], *key),
            i < keys@.len() ==> key_lt(*key, keys@[i as int]),
    {
        let mut i: usize = 0;
        while i < keys.len() && key_at_least(key, &keys[i])
            invariant
                key_laws::<K>(),
                i <= keys@.len(),
                forall|j: int| 0 <= j < i ==> key_le(#[trigger] keys@[j], *key),
            decreases keys@.len() - i,
        {
            proof {
                lemma_key_laws::<K>();
            }
            i += 1;
        }
        proof {
            lemma_key_laws::<K>();
        }
        i
    }

    /// The value stored under `key` below this node.
    pub fn search(&self, key: &K, Ghost(lo): Ghost<Option<K>>, Ghost(hi): Ghost<Option<K>>) -> (r:
        Option<&V>)
        requires
            key_laws::<K>(),
            self.inv(lo, hi),
        ensures
            match r {
                Some(v) => exists|i: int|
                    0 <= i < self.entries().len() && self.entries()[i] == (*key, *v),
                None => !has_key(self.entries(), *key),
            },
        decreases self,
    {
        proof {
            lemma_key_laws::<K>();
        }
        match self {
            Node::Leaf { entries } => {
                let mut i: usize = 0;
                while i < entries.len()
                    invariant
                        key_laws::<K>(),
                        self.entries() == entries@,
                        i <= entries@.len(),
                        forall|j: int| 0 <= j < i ==> (#[trigger] entries@[j]).0 != *key,
                    decreases entries@.len() - i,
                {
                    proof {
                        lemma_key_laws::<K>();
                    }
                    if entries[i].0 == *key {
                        proof {
                            assert(self.entries()[i as int] == (*key, entries@[i as int].1));
                        }
                        return Some(&entries[i].1);
                    }
                    i += 1;
                }
                None
            },
            Node::Internal { keys, children } => {
                let ci = Self::child_index(keys.as_slice(), key);
                proof {
                    let cs = children@;
                    lemma_child_frame(keys@, cs, lo, hi, ci as int);
                    let pre = Self::entries_of(cs.take(ci as int));
                    let post = Self::entries_of(cs.skip(ci + 1));
                    if ci > 0 {
                        lemma_out_of_range_absent(pre, *key, lo, Some(keys@[ci - 1]));
                    }
                    if ci < keys@.len() {
                        lemma_out_of_range_absent(post, *key, Some(keys@[ci as int]), hi);
                    }
                }
                let r = children[ci].search(
                    key,
                    Ghost(child_lo(keys@, lo, ci as int)),
                    Ghost(child_hi(keys@, hi, ci as int)),
                );
                proof {
                    let cs = children@;
                    let pre = Self::entries_of(cs.take(ci as int));
                    let mid = cs[ci as int].entries();
                    let post = Self::entries_of(cs.skip(ci + 1));
                    let all = pre + mid + post;
                    assert(self.entries() == all);
                    match r {
                        Some(v) => {
                            let i = choose|i: int| 0 <= i < mid.len() && mid[i] == (*key, *v);
                            assert(all[pre.len() + i] == mid[i]);
                        },
                        None => {
                            if has_key(all, *key) {
                                let i = choose|i: int| 0 <= i < all.len() && #[trigger] all[i].0 == *key;
                                if i < pre.len() {
                                    assert(pre[i].0 == *key);
                                } else if i < pre.len() + mid.len() {
                                    assert(mid[i - pre.len()].0 == *key);
                                } else {
                                    assert(post[i - pre.len() - mid.len()].0 == *key);
                                }
                            }
                        },
                    }
                }
                r
            },
        }
    }

    /// Splits a full node in two halves: the node keeps the lower half, the
    /// upper half is returned with the key that separates them.
    pub fn split(&mut self, Ghost(lo): Ghost<Option<K>>, Ghost(hi): Ghost<Option<K>>) -> (r: (
        K,
        Box<Node<K, V>>,
    ))
        requires
            key_laws::<K>(),
            old(self).inv(lo, hi),
            old(self).key_count_spec() >= 2,
        ensures
            strictly_in(r.0, lo, hi),
            final(self).inv(lo, Some(r.0)),
            r.1.inv(Some(r.0), hi),
            final(self).height() == old(self).height(),
            r.1.height() == old(self).height(),
            final(self).is_leaf() == old(self).is_leaf(),
            r.1.is_leaf() == old(self).is_leaf(),
            final(self).entries() + r.1.entries() == old(self).entries(),
            final(self).key_count_spec() < 2,
            r.1.key_count_spec() < 2,
            split_result(*old(self), *final(self), r.0, *r.1),
    {
        proof {
            lemma_key_laws::<K>();
        }
        match self {
            Node::Leaf { entries } => {
                let mid = entries.len() / 2;
                let right_entries = entries.split_off(mid);
                let median = copy_key(&right_entries[0].0);
                proof {
                    assert(old(self).entries() == entries@ + right_entries@);
                    assert(in_range(old(self).entries()[0].0, lo, hi));
                    assert(in_range(old(self).entries()[1].0, lo, hi));
                    assert(key_lt(old(self).entries()[0].0, old(self).entries()[1].0));
                    assert(entries@ =~= old(self).entries().take(1));
                    assert(right_entries@ =~= old(self).entries().skip(1));
                }
                (median, Box::new(Node::Leaf { entries: right_entries }))
            },
            Node::Internal { keys, children } => {
                let mid = keys.len() / 2;
                let median = copy_key(&keys[mid]);
                let right_keys = keys.split_off(mid + 1);
                keys.pop();
                let right_children = children.split_off(mid + 1);
                let ghost ok = old(self)->Internal_keys@;
                let ghost oc = old(self)->Internal_children@;
                proof {
                    assert(key_lt(ok[0], ok[1]));
                    assert(strictly_in(ok[0], lo, hi));
                    assert(strictly_in(ok[1], lo, hi));
                    assert(keys@ == seq![ok[0]]);
                    assert(right_keys@.len() == 0);
                    assert(children@ == seq![oc[0], oc[1]]);
                    assert(right_children@ == seq![oc[2]]);
                    assert(oc[0].inv(child_lo(ok, lo, 0), child_hi(ok, hi, 0)));
                    assert(oc[1].inv(child_lo(ok, lo, 1), child_hi(ok, hi, 1)));
                    assert(oc[2].inv(child_lo(ok, lo, 2), child_hi(ok, hi, 2)));
                    assert(oc[1].height() == oc[0].height());
                    assert(oc[2].height() == oc[0].height());
                    assert(oc == children@ + right_children@);
                    lemma_entries_of_concat(children@, right_children@);
                    assert(keys@ =~= ok.take(1));
                    assert(right_keys@ =~= ok.skip(2));
                    assert(children@ =~= oc.take(2));
                    assert(right_children@ =~= oc.skip(2));
                }
                (median, Box::new(Node::Internal { keys: right_keys, children: right_children }))
            },
        }
    }

    /// The smallest key below this node, found down the leftmost children.
    pub fn leftmost_key(&self, Ghost(lo): Ghost<Option<K>>, Ghost(hi): Ghost<Option<K>>) -> (r:
        Option<K>)
        requires
            key_laws::<K>(),
            self.inv(lo, hi),
        ensures
            r == self.leftmost(),
            r matches Some(k) ==> has_key(self.entries(), k) && self.inv(Some(k), hi),
        decreases self,
    {
        proof {
            lemma_key_laws::<K>();
        }
        match self {
            Node::Leaf { entries } => {
                if entries.len() == 0 {
                    None
                } else {
                    let k = copy_key(&entries[0].0);
                    proof {
                        assert(entries@[0].0 == k);
                        assert forall|i: int| 0 <= i < entries@.len() implies in_range(
                            #[trigger] entries@[i].0,
                            Some(k),
                            hi,
                        ) by {
                            assert(in_range(entries@[i].0, lo, hi));
                            if i > 0 {
                                assert(key_lt(entries@[0].0, entries@[i].0));
                            }
                        }
                    }
                    Some(k)
                }
            },
            Node::Internal { keys, children } => {
                let r = children[0].leftmost_key(
                    Ghost(child_lo(keys@, lo, 0)),
                    Ghost(child_hi(keys@, hi, 0)),
                );
                proof {
                    if r is Some {
                        let k = r->0;
                        let cs = children@;
                        lemma_child_frame(keys@, cs, lo, hi, 0);
                        let first = cs[0].entries();
                        let all = Self::entries_of(cs.take(0)) + first + Self::entries_of(cs.skip(1));
                        let i = choose|i: int| 0 <= i < first.len() && #[trigger] first[i].0 == k;
                        assert(all[i] == first[i]);
                        assert(in_range(first[i].0, child_lo(keys@, lo, 0), child_hi(keys@, hi, 0)));
                        if keys@.len() > 0 {
                            assert(key_lt(k, keys@[0]));
                        }
                        assert forall|j: int| 0 <= j < keys@.len() implies strictly_in(
                            #[trigger] keys@[j],
                            Some(k),
                            hi,
                        ) by {
                            assert(strictly_in(keys@[j], lo, hi));
                            if j > 0 {
                                assert(key_lt(keys@[0], keys@[j]));
                            }
                        }
                        assert forall|j: int| 0 <= j < cs.len() implies (#[trigger] cs[j]).inv(
                            child_lo(keys@, Some(k), j),
                            child_hi(keys@, hi, j),
                        ) by {
                            assert(cs[j].inv(child_lo(keys@, lo, j), child_hi(keys@, hi, j)));
                        }
                    }
                }
                r
            },
        }
    }

    /// Inserts `key -> value` below a node that is not full, splitting full
    /// children on the way down.  Returns whether the key is new.
    pub fn insert_non_full(
        &mut self,
        key: K,
        value: V,
        Ghost(lo): Ghost<Option<K>>,
        Ghost(hi): Ghost<Option<K>>,
    ) -> (r: bool)
        requires
            key_laws::<K>(),
            old(self).inv(lo, hi),
            old(self).key_count_spec() < 2,
            in_range(key, lo, hi),
        ensures
            final(self).inv(lo, hi),
            final(self).height() == old(self).height(),
            final(self).is_leaf() == old(self).is_leaf(),
            final(self).entries() == insert_entry(old(self).entries(), key, value),
            r == !has_key(old(self).entries(), key),
            inserted_into(*old(self), *final(self), key, value, old(self).height()),
        decreases old(self).height(),
    {
        proof {
            lemma_key_laws::<K>();
        }
        match self {
            Node::Leaf { entries } => {
                let ghost s = entries@;
                let mut pos: usize = 0;
                while pos < entries.len() && key_less(&entries[pos].0, &key)
                    invariant
                        key_laws::<K>(),
                        entries@ == s,
                        pos <= s.len(),
                        forall|j: int| 0 <= j < pos ==> key_lt(#[trigger] s[j].0, key),
                    decreases s.len() - pos,
                {
                    pos += 1;
                }
                proof {
                    lemma_insert_entry_at(s, pos as int, key, value);
                    lemma_insert_entry_sorted(s, key, value);
                    lemma_insert_entry_range(s, key, value, lo, hi);
                    lemma_insert_entry_members(s, key, value);
                }
                if pos < entries.len() && entries[pos].0 == key {
                    entries[pos].1 = value;
                    proof {
                        assert(entries@ =~= s.update(pos as int, (key, value)));
                    }
                    false
                } else {
                    entries.insert(pos, (key, value));
                    true
                }
            },
            Node::Internal { keys, children } => {
                let ghost ok = keys@;
                let ghost oc = children@;
                let ci = Self::child_index(keys.as_slice(), &key);
                proof {
                    assert(oc[ci as int].inv(child_lo(ok, lo, ci as int), child_hi(ok, hi, ci as int)));
                    if ci > 0 {
                        assert(key_le(ok[ci - 1], key));
                    }
                }
                if children[ci].is_full() {
                    let (median, right) = children[ci].split(
                        Ghost(child_lo(ok, lo, ci as int)),
                        Ghost(child_hi(ok, hi, ci as int)),
                    );
                    keys.insert(ci, median);
                    children.insert(ci + 1, right);
                    let ghost nk = keys@;
                    let ghost nc = children@;
                    proof {
                        lemma_split_child(ok, oc, lo, hi, ci as int, nc[ci as int], median, right);
                        assert(nc == oc.update(ci as int, nc[ci as int]).insert(ci + 1, right));
                    }
                    let cj = Self::child_index(keys.as_slice(), &key);
                    proof {
                        assert(cj == ci || cj == ci + 1) by {
                            if cj < ci {
                                assert(key_le(nk[ci as int], key));
                                assert(nk[ci as int] == median);
                                if ci > 0 {
                                    assert(nk[cj as int] == ok[cj as int]);
                                }
                                assert(false);
                            }
                            if cj > ci + 1 {
                                assert(key_le(nk[ci + 1], key));
                                assert(nk[ci + 1] == ok[ci as int]);
                            }
                        }
                        if cj == ci {
                            assert(key_lt(key, median));
                        } else {
                            assert(key_le(median, key));
                        }
                        assert(nc[cj as int].inv(child_lo(nk, lo, cj as int), child_hi(nk, hi, cj as int)));
                    }
                    let r = children[cj].insert_non_full(
                        key,
                        value,
                        Ghost(child_lo(nk, lo, cj as int)),
                        Ghost(child_hi(nk, hi, cj as int)),
                    );
                    proof {
                        lemma_insert_into_run(nk, nc, lo, hi, cj as int, children@[cj as int], key, value);
                        assert(children@ == nc.update(cj as int, children@[cj as int]));
                        assert(encloses(ok, key, ci as int));
                        lemma_descent_index(ok, key, ci as int);
                        assert(encloses(nk, key, cj as int));
                        lemma_descent_index(nk, key, cj as int);
                        let l = nc[ci as int];
                        let d = children@[cj as int];
                        assert(nk == ok.insert(ci as int, median));
                        assert(nc == oc.update(ci as int, l).insert(ci + 1, right));
                        assert(nc[cj as int].height() == oc[ci as int].height());
                        assert(oc[ci as int].height() + 1 == old(self).height());
                        assert(split_result(*oc[ci as int], *l, median, *right)
                            && 0 <= cj < nc.len()
                            && inserted_into(*nc[cj as int], *d, key, value, (old(self).height() - 1) as nat)
                            && sep_keys(*self) == nk
                            && child_nodes(*self) == oc.update(ci as int, l).insert(ci + 1, right).update(
                                descent_index(ok.insert(ci as int, median), key),
                                d,
                            ));
                        assert(inserted_into(*old(self), *self, key, value, old(self).height()));
                    }
                    r
                } else {
                    let r = children[ci].insert_non_full(
                        key,
                        value,
                        Ghost(child_lo(ok, lo, ci as int)),
                        Ghost(child_hi(ok, hi, ci as int)),
                    );
                    proof {
                        lemma_insert_into_run(ok, oc, lo, hi, ci as int, children@[ci as int], key, value);
                        assert(children@ == oc.update(ci as int, children@[ci as int]));
                        assert(encloses(ok, key, ci as int));
                        lemma_descent_index(ok, key, ci as int);
                        let d = children@[ci as int];
                        assert(oc[ci as int].height() + 1 == old(self).height());
                        assert(inserted_into(*oc[ci as int], *d, key, value, (old(self).height() - 1) as nat)
                            && sep_keys(*self) == ok && child_nodes(*self) == oc.update(ci as int, d));
                        assert(inserted_into(*old(self), *self, key, value, old(self).height()));
                    }
                    r
                }
            },
        }
    }

    /// Moves the last key of child `ci - 1` over to child `ci`, through the
    /// separator between them.
    #[verifier::rlimit(50)]
    pub fn rotate_right(
        keys: &mut Vec<K>,
        children: &mut Vec<Box<Node<K, V>>>,
        ci: usize,
        Ghost(lo): Ghost<Option<K>>,
        Ghost(hi): Ghost<Option<K>>,
    )
        requires
            key_laws::<K>(),
            run_inv(old(keys)@, old(children)@, lo, hi),
            0 < ci < old(children)@.len(),
            old(children)@[ci - 1].key_count_spec() > 1,
            old(children)@[ci as int].key_count_spec() == 0,
        ensures
            rotated_right(old(keys)@, old(children)@, final(keys)@, final(children)@, ci as int),
            run_inv(final(keys)@, final(children)@, lo, hi),
            final(keys)@.len() == old(keys)@.len(),
            final(children)@[0].height() == old(children)@[0].height(),
            Self::entries_of(final(children)@) == Self::entries_of(old(children)@),
    {
        proof {
            lemma_key_laws::<K>();
        }
        let ghost ok = keys@;
        let ghost oc = children@;
        let ghost j = ci - 1;
        let ghost clo = child_lo(ok, lo, j);
        let ghost chi = child_hi(ok, hi, j + 1);
        let ghost s = ok[j];
        proof {
            assert(oc[j].inv(clo, Some(s)));
            assert(oc[j + 1].inv(Some(s), chi));
            assert(oc[j].height() == oc[0].height() && oc[j + 1].height() == oc[0].height());
            assert(strictly_in(s, lo, hi));
            if j + 1 < ok.len() {
                assert(key_lt(s, ok[j + 1]));
            }
        }
        let right = children.remove(ci);
        let left = children.remove(ci - 1);
        match (*left, *right) {
            (Node::Leaf { entries: mut le }, Node::Leaf { entries: mut re }) => {
                let ghost ole = le@;
                let last = le.pop().unwrap();
                let sep = copy_key(&last.0);
                re.insert(0, last);
                keys[ci - 1] = sep;
                let nl = Box::new(Node::Leaf { entries: le });
                let nr = Box::new(Node::Leaf { entries: re });
                proof {
                    assert(ole.len() == 2);
                    assert(key_lt(ole[0].0, ole[1].0));
                    assert(in_range(ole[0].0, clo, Some(s)));
                    assert(in_range(ole[1].0, clo, Some(s)));
                    assert(le@ == seq![ole[0]]);
                    assert(re@ == seq![ole[1]]);
                    assert(nl.entries() + nr.entries() =~= oc[j].entries() + oc[j + 1].entries());
                    lemma_rebuild_pair(ok, oc, lo, hi, j, sep, nl, nr);
                }
                children.insert(ci - 1, nl);
                children.insert(ci, nr);
                proof {
                    assert(children@ =~= oc.update(j, nl).update(j + 1, nr));
                    assert(keys@ == ok.update(j, sep));
                }
            },
            (
                Node::Internal { keys: mut lk, children: mut lc },
                Node::Internal { keys: mut rk, children: mut rc },
            ) => {
                let ghost olk = lk@;
                let ghost olc = lc@;
                proof {
                    assert(olk.len() == 2);
                    assert(rk@.len() == 0);
                    lemma_unjoin_run(olk, olc, clo, Some(s), 1);
                    assert(olk.take(1) == seq![olk[0]]);
                    assert(olk.skip(2) == Seq::<K>::empty());
                    assert(olc.skip(2) == seq![olc[2]]);
                    lemma_single_run(olc[2], Some(olk[1]), Some(s));
                    assert(olc[2].height() == olc[0].height());
                    assert(strictly_in(olk[1], clo, Some(s)));
                }
                let mut bk = lk.pop().unwrap();
                let bc = lc.pop().unwrap();
                std::mem::swap(&mut keys[ci - 1], &mut bk);
                rk.insert(0, bk);
                rc.insert(0, bc);
                proof {
                    assert(lk@ == olk.take(1));
                    assert(lc@ == olc.take(2));
                    lemma_join_runs(
                        Seq::<K>::empty(),
                        seq![olc[2]],
                        Some(olk[1]),
                        s,
                        sep_keys(*oc[j + 1]),
                        child_nodes(*oc[j + 1]),
                        chi,
                    );
                }
                let nl = Box::new(Node::Internal { keys: lk, children: lc });
                let nr = Box::new(Node::Internal { keys: rk, children: rc });
                proof {
                    assert(rk@ =~= Seq::<K>::empty().push(s) + sep_keys(*oc[j + 1]));
                    assert(rc@ =~= seq![olc[2]] + child_nodes(*oc[j + 1]));
                    assert(nl.entries() + nr.entries() =~= oc[j].entries() + oc[j + 1].entries());
                    lemma_rebuild_pair(ok, oc, lo, hi, j, olk[1], nl, nr);
                }
                children.insert(ci - 1, nl);
                children.insert(ci, nr);
                proof {
                    assert(children@ =~= oc.update(j, nl).update(j + 1, nr));
                    assert(keys@ == ok.update(j, olk[1]));
                }
            },
            (l, r) => {
                proof {
                    assert(false);
                }
                children.insert(ci - 1, Box::new(l));
                children.insert(ci, Box::new(r));
            },
        }
    }

    /// Moves the first key of child `ci + 1` over to child `ci`, through the
    /// separator between them.
    #[verifier::rlimit(50)]
    pub fn rotate_left(
        keys: &mut Vec<K>,
        children: &mut Vec<Box<Node<K, V>>>,
        ci: usize,
        Ghost(lo): Ghost<Option<K>>,
        Ghost(hi): Ghost<Option<K>>,
    )
        requires
            key_laws::<K>(),
            run_inv(old(keys)@, old(children)@, lo, hi),
            ci + 1 < old(children).len(),
            old(children)@[ci + 1].key_count_spec() > 1,
            old(children)@[ci as int].key_count_spec() == 0,
        ensures
            rotated_left(old(keys)@, old(children)@, final(keys)@, final(children)@, ci as int),
            run_inv(final(keys)@, final(children)@, lo, hi),
            final(keys)@.len() == old(keys)@.len(),
            final(children)@[0].height() == old(children)@[0].height(),
            Self::entries_of(final(children)@) == Self::entries_of(old(children)@),
    {
        proof {
            lemma_key_laws::<K>();
        }
        let ghost ok = keys@;
        let ghost oc = children@;
        let ghost j = ci as int;
        let ghost clo = child_lo(ok, lo, j);
        let ghost chi = child_hi(ok, hi, j + 1);
        let ghost s = ok[j];
        proof {
            assert(oc[j].inv(clo, Some(s)));
            assert(oc[j + 1].inv(Some(s), chi));
            assert(oc[j].height() == oc[0].height() && oc[j + 1].height() == oc[0].height());
            assert(strictly_in(s, lo, hi));
            if j > 0 {
                assert(key_lt(ok[j - 1], s));
            }
            if j + 1 < ok.len() {
                assert(key_lt(s, ok[j + 1]));
            }
        }
        let right = children.remove(ci + 1);
        let left = children.remove(ci);
        match (*left, *right) {
            (Node::Leaf { entries: mut le }, Node::Leaf { entries: mut re }) => {
                let ghost ore = re@;
                let first = re.remove(0);
                let new_sep = if re.len() > 0 {
                    copy_key(&re[0].0)
                } else {
                    copy_key(&first.0)
                };
                le.push(first);
                keys[ci] = new_sep;
                let nl = Box::new(Node::Leaf { entries: le });
                let nr = Box::new(Node::Leaf { entries: re });
                proof {
                    assert(ore.len() == 2);
                    assert(key_lt(ore[0].0, ore[1].0));
                    assert(in_range(ore[0].0, Some(s), chi));
                    assert(in_range(ore[1].0, Some(s), chi));
                    assert(le@ == seq![ore[0]]);
                    assert(re@ == seq![ore[1]]);
                    assert(nl.entries() + nr.entries() =~= oc[j].entries() + oc[j + 1].entries());
                    lemma_rebuild_pair(ok, oc, lo, hi, j, new_sep, nl, nr);
                }
                children.insert(ci, nl);
                children.insert(ci + 1, nr);
                proof {
                    assert(children@ =~= oc.update(j, nl).update(j + 1, nr));
                    assert(keys@ == ok.update(j, new_sep));
                }
            },
            (
                Node::Internal { keys: mut lk, children: mut lc },
                Node::Internal { keys: mut rk, children: mut rc },
            ) => {
                let ghost ork = rk@;
                let ghost orc = rc@;
                proof {
                    assert(ork.len() == 2);
                    assert(lk@.len() == 0);
                    lemma_unjoin_run(ork, orc, Some(s), chi, 0);
                    assert(ork.take(0) == Seq::<K>::empty());
                    assert(orc.take(1) == seq![orc[0]]);
                    lemma_single_run(orc[0], Some(s), Some(ork[0]));
                    assert(strictly_in(ork[0], Some(s), chi));
                    assert(lc@.len() == 1);
                    assert(lc@ == seq![lc@[0]]);
                    lemma_single_run(lc@[0], clo, Some(s));
                    assert(lc@[0].height() == orc[0].height());
                    lemma_join_runs(
                        Seq::<K>::empty(),
                        lc@,
                        clo,
                        s,
                        Seq::<K>::empty(),
                        seq![orc[0]],
                        Some(ork[0]),
                    );
                }
                let mut bk = rk.remove(0);
                let bc = rc.remove(0);
                std::mem::swap(&mut keys[ci], &mut bk);
                let ghost olc = lc@;
                lk.push(bk);
                lc.push(bc);
                let nl = Box::new(Node::Internal { keys: lk, children: lc });
                let nr = Box::new(Node::Internal { keys: rk, children: rc });
                proof {
                    assert(rk@ == ork.skip(1));
                    assert(rc@ == orc.skip(1));
                    assert(lk@ =~= Seq::<K>::empty().push(s) + Seq::<K>::empty());
                    assert(lc@ =~= olc + seq![orc[0]]);
                    assert(nl.entries() + nr.entries() =~= oc[j].entries() + oc[j + 1].entries());
                    lemma_rebuild_pair(ok, oc, lo, hi, j, ork[0], nl, nr);
                }
                children.insert(ci, nl);
                children.insert(ci + 1, nr);
                proof {
                    assert(children@ =~= oc.update(j, nl).update(j + 1, nr));
                    assert(keys@ == ok.update(j, ork[0]));
                }
            },
            (l, r) => {
                proof {
                    assert(false);
                }
                children.insert(ci, Box::new(l));
                children.insert(ci + 1, Box::new(r));
            },
        }
    }

    /// Joins child `left_ci + 1` and the separator before it into child `left_ci`.
    #[verifier::rlimit(50)]
    pub fn merge(
        keys: &mut Vec<K>,
        children: &mut Vec<Box<Node<K, V>>>,
        left_ci: usize,
        Ghost(lo): Ghost<Option<K>>,
        Ghost(hi): Ghost<Option<K>>,
    )
        requires
            key_laws::<K>(),
            run_inv(old(keys)@, old(children)@, lo, hi),
            left_ci + 1 < old(children).len(),
            old(children)@[left_ci as int].key_count_spec() + old(children)@[left_ci
                + 1].key_count_spec() <= 1 || (old(children)@[left_ci as int].is_leaf()
                && old(children)@[left_ci as int].key_count_spec() + old(children)@[left_ci
                + 1].key_count_spec() <= MAX_KEYS),
        ensures
            merged(old(keys)@, old(children)@, final(keys)@, final(children)@, left_ci as int),
            run_inv(final(keys)@, final(children)@, lo, hi),
            final(keys)@.len() == old(keys)@.len() - 1,
            final(children)@[0].height() == old(children)@[0].height(),
            Self::entries_of(final(children)@) == Self::entries_of(old(children)@),
    {
        proof {
            lemma_key_laws::<K>();
        }
        let ghost ok = keys@;
        let ghost oc = children@;
        let ghost j = left_ci as int;
        let ghost clo = child_lo(ok, lo, j);
        let ghost chi = child_hi(ok, hi, j + 1);
        let ghost s = ok[j];
        proof {
            assert(oc[j].inv(clo, Some(s)));
            assert(oc[j + 1].inv(Some(s), chi));
            assert(oc[j].height() == oc[0].height() && oc[j + 1].height() == oc[0].height());
            assert(strictly_in(s, lo, hi));
            if j > 0 {
                assert(key_lt(ok[j - 1], s));
            }
            if j + 1 < ok.len() {
                assert(key_lt(s, ok[j + 1]));
            }
            assert(strictly_in(s, clo, chi));
        }
        let sep = keys.remove(left_ci);
        let right = children.remove(left_ci + 1);
        let left = children.remove(left_ci);
        match (*left, *right) {
            (Node::Leaf { entries: mut le }, Node::Leaf { entries: mut re }) => {
                let ghost ole = le@;
                let ghost ore = re@;
                le.append(&mut re);
                let m = Box::new(Node::Leaf { entries: le });
                proof {
                    lemma_range_widen(ole, clo, Some(s), None, Some(s));
                    lemma_range_widen(ore, Some(s), chi, Some(s), None);
                    lemma_sorted_concat(ole, ore, s);
                    lemma_range_widen(ole, clo, Some(s), clo, chi);
                    lemma_range_widen(ore, Some(s), chi, clo, chi);
                    lemma_range_concat(ole, ore, clo, chi);
                    lemma_merge_pair(ok, oc, lo, hi, j, m);
                }
                children.insert(left_ci, m);
                proof {
                    assert(children@ =~= oc.update(j, m).remove(j + 1));
                }
            },
            (
                Node::Internal { keys: mut lk, children: mut lc },
                Node::Internal { keys: mut rk, children: mut rc },
            ) => {
                let ghost olk = lk@;
                let ghost olc = lc@;
                let ghost ork = rk@;
                let ghost orc = rc@;
                proof {
                    lemma_join_runs(olk, olc, clo, s, ork, orc, chi);
                }
                lk.push(sep);
                lk.append(&mut rk);
                lc.append(&mut rc);
                let m = Box::new(Node::Internal { keys: lk, children: lc });
                proof {
                    assert(lk@ =~= olk.push(s) + ork);
                    assert(lc@ =~= olc + orc);
                    lemma_merge_pair(ok, oc, lo, hi, j, m);
                }
                children.insert(left_ci, m);
                proof {
                    assert(children@ =~= oc.update(j, m).remove(j + 1));
                }
            },
            (l, _r) => {
                proof {
                    assert(false);
                }
                children.insert(left_ci, Box::new(l));
            },
        }
    }

    /// Restores child `ci` after a removal left it without keys: borrows a key
    /// from a sibling that has one to spare, else merges it with a sibling.
    pub fn rebalance(&mut self, ci: usize, Ghost(lo): Ghost<Option<K>>, Ghost(hi): Ghost<Option<K>>)
        requires
            key_laws::<K>(),
            old(self).inv(lo, hi),
            old(self).is_leaf() || ci < old(self).child_count(),
        ensures
            rebalanced(*old(self), *final(self), ci as int),
            final(self).inv(lo, hi),
            final(self).height() == old(self).height(),
            final(self).is_leaf() == old(self).is_leaf(),
            final(self).entries() == old(self).entries(),
            final(self).key_count_spec() <= old(self).key_count_spec(),
    {
        let needs = match self {
            Node::Internal { children, .. } => children[ci].key_count() < MIN_KEYS,
            _ => return ,
        };
        if !needs {
            return ;
        }
        if let Node::Internal { keys, children } = self {
            proof {
                assert(run_inv(keys@, children@, lo, hi));
            }
            if ci > 0 && children[ci - 1].key_count() > MIN_KEYS {
                Self::rotate_right(keys, children, ci, Ghost(lo), Ghost(hi));
            } else if ci + 1 < children.len() && children[ci + 1].key_count() > MIN_KEYS {
                Self::rotate_left(keys, children, ci, Ghost(lo), Ghost(hi));
            } else if ci > 0 {
                Self::merge(keys, children, ci - 1, Ghost(lo), Ghost(hi));
            } else if ci + 1 < children.len() {
                Self::merge(keys, children, ci, Ghost(lo), Ghost(hi));
            }
        }
    }

    /// Removes `key` from below this node.  Returns whether it was there.
    #[verifier::rlimit(100)]
    pub fn delete(&mut self, key: &K, Ghost(lo): Ghost<Option<K>>, Ghost(hi): Ghost<Option<K>>) -> (r:
        bool)
        requires
            key_laws::<K>(),
            old(self).inv(lo, hi),
        ensures
            final(self).inv(lo, hi),
            final(self).height() == old(self).height(),
            final(self).is_leaf() == old(self).is_leaf(),
            final(self).entries() == remove_entry(old(self).entries(), *key),
            r == has_key(old(self).entries(), *key),
            final(self).key_count_spec() <= old(self).key_count_spec(),
            deleted_from(*old(self), *final(self), *key),
            !r ==> same_node(*old(self), *final(self)),
        decreases old(self).height(),
    {
        proof {
            lemma_key_laws::<K>();
        }
        match self {
            Node::Leaf { entries } => {
                let ghost s = entries@;
                let mut pos: usize = 0;
                while pos < entries.len() && entries[pos].0 != *key
                    invariant
                        key_laws::<K>(),
                        entries@ == s,
                        pos <= s.len(),
                        forall|j: int| 0 <= j < pos ==> (#[trigger] s[j]).0 != *key,
                    decreases s.len() - pos,
                {
                    proof {
                        lemma_key_laws::<K>();
                    }
                    pos += 1;
                }
                proof {
                    lemma_key_laws::<K>();
                }
                if pos < entries.len() {
                    entries.remove(pos);
                    proof {
                        lemma_remove_entry_at(s, pos as int, *key);
                        assert(has_key(s, *key));
                        assert forall|a: int, b: int| 0 <= a < b < entries@.len() implies key_lt(
                            entries@[a].0,
                            entries@[b].0,
                        ) by {
                            let x = if a < pos { a } else { a + 1 };
                            let y = if b < pos { b } else { b + 1 };
                            assert(entries@[a] == s[x] && entries@[b] == s[y]);
                        }
                        assert forall|a: int| 0 <= a < entries@.len() implies in_range(
                            #[trigger] entries@[a].0,
                            lo,
                            hi,
                        ) by {
                            let x = if a < pos { a } else { a + 1 };
                            assert(entries@[a] == s[x]);
                        }
                    }
                    true
                } else {
                    proof {
                        assert(!has_key(s, *key));
                        lemma_remove_entry_absent(s, *key);
                    }
                    false
                }
            },
            Node::Internal { keys, children } => {
                let ghost ok = keys@;
                let ghost oc = children@;
                proof {
                    assert(run_inv(ok, oc, lo, hi));
                    assert(old(self).entries() == Self::entries_of(oc));
                    assert(*old(self) matches Node::Internal { keys: k0, children: c0 } && k0@ == ok
                        && c0@ == oc);
                }
                let mut sep_pos: usize = 0;
                while sep_pos < keys.len() && keys[sep_pos] != *key
                    invariant
                        key_laws::<K>(),
                        keys@ == ok,
                        sep_pos <= ok.len(),
                        forall|p: int| 0 <= p < sep_pos ==> ok[p] != *key,
                    decreases ok.len() - sep_pos,
                {
                    proof {
                        lemma_key_laws::<K>();
                    }
                    sep_pos += 1;
                }
                proof {
                    lemma_key_laws::<K>();
                }
                if sep_pos < keys.len() {
                    // The key is a separator: it lives in the child to its right,
                    // whose smallest key then becomes the separator before that
                    // child is rebalanced.
                    let j = sep_pos + 1;
                    proof {
                        assert(ok[sep_pos as int] == *key);
                        if j < ok.len() {
                            assert(key_lt(ok[sep_pos as int], ok[j as int]));
                        }
                        assert(oc[j as int].inv(child_lo(ok, lo, j as int), child_hi(ok, hi, j as int)));
                        assert(oc[j as int].height() == oc[0].height());
                    }
                    let removed = children[j].delete(
                        key,
                        Ghost(child_lo(ok, lo, j as int)),
                        Ghost(child_hi(ok, hi, j as int)),
                    );
                    let ghost nc = children@;
                    proof {
                        lemma_remove_from_run(ok, oc, lo, hi, j as int, nc[j as int], *key);
                        assert(nc == oc.update(j as int, nc[j as int]));
                    }
                    proof {
                        assert(encloses(ok, *key, j as int));
                        lemma_descent_index(ok, *key, j as int);
                        assert(ok.contains(*key));
                    }
                    if removed {
                        let first = children[j].leftmost_key(
                            Ghost(child_lo(ok, lo, j as int)),
                            Ghost(child_hi(ok, hi, j as int)),
                        );
                        if let Some(s) = first {
                            proof {
                                lemma_inv_entries(*nc[j as int], child_lo(ok, lo, j as int), child_hi(ok, hi, j as int));
                                let e = nc[j as int].entries();
                                let x = choose|x: int| 0 <= x < e.len() && #[trigger] e[x].0 == s;
                                assert(in_range(e[x].0, child_lo(ok, lo, j as int), child_hi(ok, hi, j as int)));
                                lemma_refresh_separator(ok, nc, lo, hi, sep_pos as int, s);
                            }
                            keys[sep_pos] = s;
                        }
                        let ghost k2 = keys@;
                        let ghost before = *self;
                        proof {
                            assert(sep_keys(before) == k2 && child_nodes(before) == nc);
                            assert(k2 == if ok.contains(*key) && nc[j as int].leftmost() is Some {
                                ok.update(j - 1, nc[j as int].leftmost()->0)
                            } else {
                                ok
                            });
                        }
                        self.rebalance(j, Ghost(lo), Ghost(hi));
                        proof {
                            assert(rebalanced_run(k2, nc, sep_keys(*self), child_nodes(*self), j as int));
                            assert(deleted_from(*oc[j as int], *nc[j as int], *key));
                            let d = nc[j as int];
                            assert(oc.update(j as int, d) == nc);
                            assert(deleted_from(*oc[j as int], *d, *key) && rebalanced_run(
                                if ok.contains(*key) && d.leftmost() is Some {
                                    ok.update(j - 1, d.leftmost()->0)
                                } else {
                                    ok
                                },
                                oc.update(j as int, d),
                                sep_keys(*self),
                                child_nodes(*self),
                                j as int,
                            ));
                            assert(has_key(old(self).entries(), *key));
                            assert(deleted_from(*old(self), *self, *key));
                        }
                    } else {
                        proof {
                            assert(same_node(*oc[j as int], *nc[j as int]));
                            assert forall|i: int| 0 <= i < oc.len() implies same_node(
                                *#[trigger] oc[i],
                                *nc[i],
                            ) by {
                                if i != j {
                                    lemma_same_node_refl(*oc[i]);
                                }
                            }
                        }
                    }
                    removed
                } else {
                    let ci = Self::child_index(keys.as_slice(), key);
                    proof {
                        assert(oc[ci as int].inv(child_lo(ok, lo, ci as int), child_hi(ok, hi, ci as int)));
                        assert(oc[ci as int].height() == oc[0].height());
                    }
                    let removed = children[ci].delete(
                        key,
                        Ghost(child_lo(ok, lo, ci as int)),
                        Ghost(child_hi(ok, hi, ci as int)),
                    );
                    let ghost nc = children@;
                    proof {
                        lemma_remove_from_run(ok, oc, lo, hi, ci as int, nc[ci as int], *key);
                        assert(nc == oc.update(ci as int, nc[ci as int]));
                        assert(encloses(ok, *key, ci as int));
                        lemma_descent_index(ok, *key, ci as int);
                        assert(!ok.contains(*key));
                    }
                    if removed {
                        let ghost before = *self;
                        proof {
                            assert(sep_keys(before) == ok && child_nodes(before) == nc);
                        }
                        self.rebalance(ci, Ghost(lo), Ghost(hi));
                        proof {
                            assert(rebalanced_run(ok, nc, sep_keys(*self), child_nodes(*self), ci as int));
                            assert(deleted_from(*oc[ci as int], *nc[ci as int], *key));
                            let d = nc[ci as int];
                            assert(oc.update(ci as int, d) == nc);
                            assert(deleted_from(*oc[ci as int], *d, *key) && rebalanced_run(
                                if ok.contains(*key) && d.leftmost() is Some {
                                    ok.update(ci - 1, d.leftmost()->0)
                                } else {
                                    ok
                                },
                                oc.update(ci as int, d),
                                sep_keys(*self),
                                child_nodes(*self),
                                ci as int,
                            ));
                            assert(has_key(old(self).entries(), *key));
                            assert(deleted_from(*old(self), *self, *key));
                        }
                    } else {
                        proof {
                            assert(same_node(*oc[ci as int], *nc[ci as int]));
                            assert forall|i: int| 0 <= i < oc.len() implies same_node(
                                *#[trigger] oc[i],
                                *nc[i],
                            ) by {
                                if i != ci {
                                    lemma_same_node_refl(*oc[i]);
                                }
                            }
                        }
                    }
                    removed
                }
            },
        }
    }

    /// Appends the entries below this node whose key lies in `[lo, hi]`, in
    /// key order, skipping the children that cannot hold such a key.
    pub fn range<'a>(
        &'a self,
        lo: &K,
        hi: &K,
        result: &mut Vec<(&'a K, &'a V)>,
        Ghost(lower): Ghost<Option<K>>,
        Ghost(upper): Ghost<Option<K>>,
    )
        requires
            key_laws::<K>(),
            self.inv(lower, upper),
        ensures
            deref_pairs(final(result)@) == deref_pairs(old(result)@) + entries_between(
                self.entries(),
                *lo,
                *hi,
            ),
        decreases self,
    {
        match self {
            Node::Leaf { entries } => {
                let mut i: usize = 0;
                while i < entries.len()
                    invariant
                        key_laws::<K>(),
                        self.entries() == entries@,
                        i <= entries@.len(),
                        deref_pairs(result@) == deref_pairs(old(result)@) + entries_between(
                            entries@.take(i as int),
                            *lo,
                            *hi,
                        ),
                    decreases entries@.len() - i,
                {
                    let e = &entries[i];
                    proof {
                        lemma_between_step(entries@, i as int, *lo, *hi);
                    }
                    if key_at_least(&e.0, lo) && key_at_most(&e.0, hi) {
                        proof {
                            lemma_deref_push(result@, (&e.0, &e.1));
                        }
                        result.push((&e.0, &e.1));
                    }
                    i += 1;
                }
                proof {
                    assert(entries@.take(entries@.len() as int) == entries@);
                }
            },
            Node::Internal { keys, children } => {
                proof {
                    lemma_key_laws::<K>();
                }
                let mut i: usize = 0;
                while i < children.len()
                    invariant
                        key_laws::<K>(),
                        self is Internal,
                        self->Internal_keys == *keys,
                        self->Internal_children == *children,
                        self.inv(lower, upper),
                        i <= children@.len(),
                        deref_pairs(result@) == deref_pairs(old(result)@) + entries_between(
                            Self::entries_of(children@.take(i as int)),
                            *lo,
                            *hi,
                        ),
                    decreases children@.len() - i,
                {
                    let overlaps = (i == 0 || key_at_least(hi, &keys[i - 1])) && (i >= keys.len()
                        || key_at_most(lo, &keys[i]));
                    let ghost c = children@[i as int];
                    let ghost clo = child_lo(keys@, lower, i as int);
                    let ghost chi = child_hi(keys@, upper, i as int);
                    proof {
                        lemma_key_laws::<K>();
                        assert(c.inv(clo, chi));
                        let t = children@.take(i + 1);
                        assert(t.subrange(0, i as int) == children@.take(i as int));
                        assert(t[i as int] == c);
                        assert(Self::entries_of(t) == Self::entries_of(children@.take(i as int))
                            + c.entries());
                        broadcast use Seq::filter_distributes_over_add;
                        assert(entries_between(Self::entries_of(t), *lo, *hi) == entries_between(
                            Self::entries_of(children@.take(i as int)),
                            *lo,
                            *hi,
                        ) + entries_between(c.entries(), *lo, *hi));
                    }
                    if overlaps {
                        children[i].range(lo, hi, result, Ghost(clo), Ghost(chi));
                    } else {
                        proof {
                            lemma_inv_entries(*c, clo, chi);
                            lemma_between_none(c.entries(), *lo, *hi, clo, chi);
                        }
                    }
                    proof {
                        assert(deref_pairs(result@) =~= deref_pairs(old(result)@) + entries_between(
                            Self::entries_of(children@.take(i + 1)),
                            *lo,
                            *hi,
                        ));
                    }
                    i += 1;
                }
                proof {
                    assert(children@.take(children@.len() as int) == children@);
                }
            },
        }
    }

    /// Appends all entries below this node, in key order.
    pub fn collect_all<'a>(&'a self, out: &mut Vec<(&'a K, &'a V)>)
        ensures
            deref_pairs(final(out)@) == deref_pairs(old(out)@) + self.entries(),
        decreases self,
    {
        match self {
            Node::Leaf { entries } => {
                let mut i: usize = 0;
                while i < entries.len()
                    invariant
                        self.entries() == entries@,
                        i <= entries@.len(),
                        deref_pairs(out@) == deref_pairs(old(out)@) + entries@.take(i as int),
                    decreases entries@.len() - i,
                {
                    let e = &entries[i];
                    proof {
                        lemma_deref_push(out@, (&e.0, &e.1));
                        assert(entries@.take(i + 1) == entries@.take(i as int).push(entries@[i as int]));
                    }
                    out.push((&e.0, &e.1));
                    i += 1;
                }
                proof {
                    assert(entries@.take(entries@.len() as int) == entries@);
                }
            },
            Node::Internal { children, .. } => {
                let mut i: usize = 0;
                while i < children.len()
                    invariant
                        self is Internal,
                        self->Internal_children == *children,
                        i <= children@.len(),
                        deref_pairs(out@) == deref_pairs(old(out)@) + Self::entries_of(
                            children@.take(i as int),
                        ),
                    decreases children@.len() - i,
                {
                    proof {
                        let t = children@.take(i + 1);
                        assert(t.subrange(0, i as int) == children@.take(i as int));
                        assert(t[i as int] == children@[i as int]);
                    }
                    children[i].collect_all(out);
                    i += 1;
                }
                proof {
                    assert(children@.take(children@.len() as int) == children@);
                }
            },
        }
    }
}

/// The separators of an internal node (nothing for a leaf).
pub open spec fn sep_keys<K, V>(n: Node<K, V>) -> Seq<K> {
    match n {
        Node::Internal { keys, .. } => keys@,
        Node::Leaf { .. } => Seq::empty(),
    }
}

/// The children of an internal node (nothing for a leaf).
pub open spec fn child_nodes<K, V>(n: Node<K, V>) -> Seq<Box<Node<K, V>>> {
    match n {
        Node::Internal { children, .. } => children@,
        Node::Leaf { .. } => Seq::empty(),
    }
}

/// `l` and `r` are the halves of the full node `n` split around `m`: a leaf
/// keeps its first entry and hands on the second, whose key is `m`; an
/// internal node keeps its first separator and first two children, `m` is
/// its second separator, and the upper half is the remaining child alone.
pub open spec fn split_result<K, V>(n: Node<K, V>, l: Node<K, V>, m: K, r: Node<K, V>) -> bool {
    &&& l.is_leaf() == n.is_leaf()
    &&& r.is_leaf() == n.is_leaf()
    &&& n.is_leaf() ==> {
        &&& m == n.entries()[1].0
        &&& l.entries() == n.entries().take(1)
        &&& r.entries() == n.entries().skip(1)
    }
    &&& !n.is_leaf() ==> {
        &&& m == sep_keys(n)[1]
        &&& sep_keys(l) == sep_keys(n).take(1)
        &&& child_nodes(l) == child_nodes(n).take(2)
        &&& sep_keys(r) == sep_keys(n).skip(2)
        &&& child_nodes(r) == child_nodes(n).skip(2)
    }
}

/// Merging the two halves of a split back around their separator gives back
/// the node that was split.
pub proof fn law_merge_undoes_split<K, V>(
    n: Node<K, V>,
    l: Box<Node<K, V>>,
    m: K,
    r: Box<Node<K, V>>,
    nk: Seq<K>,
    nc: Seq<Box<Node<K, V>>>,
)
    requires
        n.key_count_spec() == MAX_KEYS,
        !n.is_leaf() ==> child_nodes(n).len() == sep_keys(n).len() + 1,
        split_result(n, *l, m, *r),
        merged(seq![m], seq![l, r], nk, nc, 0),
    ensures
        nk.len() == 0,
        nc.len() == 1,
        nc[0].is_leaf() == n.is_leaf(),
        n.is_leaf() ==> nc[0].entries() == n.entries(),
        !n.is_leaf() ==> sep_keys(*nc[0]) == sep_keys(n) && child_nodes(*nc[0]) == child_nodes(n),
{
    if n.is_leaf() {
        assert(n.entries().take(1) + n.entries().skip(1) =~= n.entries());
    } else {
        let k = sep_keys(n);
        assert(k.take(1).push(k[1]) + k.skip(2) =~= k);
        assert(child_nodes(n).take(2) + child_nodes(n).skip(2) =~= child_nodes(n));
    }
}

/// Children `(nk, nc)` are children `(ok, oc)` after the last key of child
/// `ci - 1` has moved up to separator `ci - 1`, and the separator it replaces
/// down into child `ci` (for leaves, the last entry moves into child `ci`
/// and its key becomes the separator).
pub open spec fn rotated_right<K, V>(
    ok: Seq<K>,
    oc: Seq<Box<Node<K, V>>>,
    nk: Seq<K>,
    nc: Seq<Box<Node<K, V>>>,
    ci: int,
) -> bool {
    let l = *oc[ci - 1];
    let r = *oc[ci];
    let nl = *nc[ci - 1];
    let nr = *nc[ci];
    &&& nc.len() == oc.len()
    &&& forall|i: int| 0 <= i < oc.len() && i != ci - 1 && i != ci ==> nc[i] == oc[i]
    &&& nl.is_leaf() == l.is_leaf()
    &&& nr.is_leaf() == r.is_leaf()
    &&& l.is_leaf() ==> {
        &&& nk == ok.update(ci - 1, l.entries().last().0)
        &&& nl.entries() == l.entries().drop_last()
        &&& nr.entries() == seq![l.entries().last()] + r.entries()
    }
    &&& !l.is_leaf() ==> {
        &&& nk == ok.update(ci - 1, sep_keys(l).last())
        &&& sep_keys(nl) == sep_keys(l).drop_last()
        &&& child_nodes(nl) == child_nodes(l).drop_last()
        &&& sep_keys(nr) == seq![ok[ci - 1]] + sep_keys(r)
        &&& child_nodes(nr) == seq![child_nodes(l).last()] + child_nodes(r)
    }
}

/// Children `(nk, nc)` are children `(ok, oc)` after the first key of child
/// `ci + 1` has moved up to separator `ci`, and the separator it replaces
/// down into child `ci` (for leaves, the first entry moves into child `ci`
/// and the next key of child `ci + 1` becomes the separator).
pub open spec fn rotated_left<K, V>(
    ok: Seq<K>,
    oc: Seq<Box<Node<K, V>>>,
    nk: Seq<K>,
    nc: Seq<Box<Node<K, V>>>,
    ci: int,
) -> bool {
    let l = *oc[ci];
    let r = *oc[ci + 1];
    let nl = *nc[ci];
    let nr = *nc[ci + 1];
    &&& nc.len() == oc.len()
    &&& forall|i: int| 0 <= i < oc.len() && i != ci && i != ci + 1 ==> nc[i] == oc[i]
    &&& nl.is_leaf() == l.is_leaf()
    &&& nr.is_leaf() == r.is_leaf()
    &&& l.is_leaf() ==> {
        &&& nk == ok.update(ci, r.entries()[1].0)
        &&& nl.entries() == l.entries().push(r.entries()[0])
        &&& nr.entries() == r.entries().drop_first()
    }
    &&& !l.is_leaf() ==> {
        &&& nk == ok.update(ci, sep_keys(r)[0])
        &&& sep_keys(nl) == sep_keys(l).push(ok[ci])
        &&& child_nodes(nl) == child_nodes(l).push(child_nodes(r)[0])
        &&& sep_keys(nr) == sep_keys(r).drop_first()
        &&& child_nodes(nr) == child_nodes(r).drop_first()
    }
}

/// Children `(nk, nc)` are children `(ok, oc)` after child `j + 1` and the
/// separator before it have been appended to child `j`.
pub open spec fn merged<K, V>(
    ok: Seq<K>,
    oc: Seq<Box<Node<K, V>>>,
    nk: Seq<K>,
    nc: Seq<Box<Node<K, V>>>,
    j: int,
) -> bool {
    let l = *oc[j];
    let r = *oc[j + 1];
    let m = *nc[j];
    &&& nk == ok.remove(j)
    &&& nc.len() == oc.len() - 1
    &&& forall|i: int| 0 <= i < j ==> nc[i] == oc[i]
    &&& forall|i: int| j < i < nc.len() ==> nc[i] == oc[i + 1]
    &&& m.is_leaf() == l.is_leaf()
    &&& l.is_leaf() ==> m.entries() == l.entries() + r.entries()
    &&& !l.is_leaf() ==> {
        &&& sep_keys(m) == sep_keys(l).push(ok[j]) + sep_keys(r)
        &&& child_nodes(m) == child_nodes(l) + child_nodes(r)
    }
}

/// Children `(nk, nc)` are children `(k, c)` after child `ci` has been
/// rebalanced: unchanged unless that child holds fewer than `MIN_KEYS` keys;
/// otherwise it takes a key from its left sibling if that one can spare it,
/// else from its right sibling if that one can, else it is merged with its
/// left sibling, else with its right one.
pub open spec fn rebalanced_run<K, V>(
    k: Seq<K>,
    c: Seq<Box<Node<K, V>>>,
    nk: Seq<K>,
    nc: Seq<Box<Node<K, V>>>,
    ci: int,
) -> bool {
    if c[ci].key_count_spec() >= MIN_KEYS {
        nk == k && nc == c
    } else if ci > 0 && c[ci - 1].key_count_spec() > MIN_KEYS {
        rotated_right(k, c, nk, nc, ci)
    } else if ci + 1 < c.len() && c[ci + 1].key_count_spec() > MIN_KEYS {
        rotated_left(k, c, nk, nc, ci)
    } else if ci > 0 {
        merged(k, c, nk, nc, ci - 1)
    } else if ci + 1 < c.len() {
        merged(k, c, nk, nc, ci)
    } else {
        nk == k && nc == c
    }
}

/// Node `new` is node `old` after child `ci` has been rebalanced; a node
/// that needs no change is left as it is.
pub open spec fn rebalanced<K, V>(old: Node<K, V>, new: Node<K, V>, ci: int) -> bool {
    match old {
        Node::Leaf { .. } => new == old,
        Node::Internal { keys, children } => {
            let c = children@;
            &&& (c[ci].key_count_spec() >= MIN_KEYS || !(ci > 0 || ci + 1 < c.len())) ==> new
                == old
            &&& new is Internal
            &&& rebalanced_run(keys@, c, sep_keys(new), child_nodes(new), ci)
        },
    }
}

/// Child `i` of a node with separators `k` encloses `key`.
pub open spec fn encloses<K: Ord>(k: Seq<K>, key: K, i: int) -> bool {
    &&& 0 <= i <= k.len()
    &&& i > 0 ==> key_le(k[i - 1], key)
    &&& i < k.len() ==> key_lt(key, k[i])
}

/// The child that `key` descends to under the separators `k`: the one whose
/// separators on either side enclose it.
pub open spec fn descent_index<K: Ord>(k: Seq<K>, key: K) -> int {
    choose|i: int| encloses(k, key, i)
}

/// Under ascending separators, a child that encloses `key` is the one it
/// descends to.
pub proof fn lemma_descent_index<K: Ord + Clone>(k: Seq<K>, key: K, i: int)
    requires
        key_laws::<K>(),
        sorted_keys(k),
        encloses(k, key, i),
    ensures
        descent_index(k, key) == i,
{
    lemma_key_laws::<K>();
    let d = descent_index(k, key);
    assert(encloses(k, key, d));
    if d < i {
        assert(key_lt(key, k[d]));
        if d < i - 1 {
            assert(key_lt(k[d], k[i - 1]));
        }
    } else if d > i {
        assert(key_le(k[d - 1], key));
        if i < d - 1 {
            assert(key_lt(k[i], k[d - 1]));
        }
    }
}

/// `a` and `b` hold the same: the same entries in a leaf, the same
/// separators and children holding the same in an internal node.
pub open spec fn same_node<K, V>(a: Node<K, V>, b: Node<K, V>) -> bool
    decreases a,
{
    match a {
        Node::Leaf { entries } => b is Leaf && b.entries() == entries@,
        Node::Internal { keys, children } => {
            &&& b is Internal
            &&& sep_keys(b) == keys@
            &&& child_nodes(b).len() == children@.len()
            &&& forall|i: int|
                0 <= i < children@.len() ==> same_node(*#[trigger] children@[i], *child_nodes(b)[i])
        },
    }
}

/// Every node holds the same as itself.
pub proof fn lemma_same_node_refl<K, V>(n: Node<K, V>)
    ensures
        same_node(n, n),
    decreases n,
{
    if let Node::Internal { keys, children } = n {
        assert forall|i: int| 0 <= i < children@.len() implies same_node(
            *#[trigger] children@[i],
            *child_nodes(n)[i],
        ) by {
            lemma_same_node_refl(*children@[i]);
        }
    }
}

/// Node `new` is node `old` after removing `key` from below it.  Nothing
/// changes when the key is absent.  A leaf drops the entry.  An internal node
/// removes it from the child the key descends to; when the key is also a
/// separator, that separator becomes the smallest key left in that child, if
/// any; then the child is rebalanced.
pub open spec fn deleted_from<K: Ord, V>(old: Node<K, V>, new: Node<K, V>, key: K) -> bool
    decreases old,
{
    if !has_key(old.entries(), key) {
        same_node(old, new)
    } else {
        match old {
            Node::Leaf { entries } => new is Leaf && new.entries() == remove_entry(entries@, key),
            Node::Internal { keys, children } => {
                let k = keys@;
                let c = children@;
                let j = descent_index(k, key);
                if 0 <= j < c.len() {
                    &&& new is Internal
                    &&& exists|d: Box<Node<K, V>>|
                        #![trigger c.update(j, d)]
                        deleted_from(*c[j], *d, key) && rebalanced_run(
                            if k.contains(key) && d.leftmost() is Some {
                                k.update(j - 1, d.leftmost()->0)
                            } else {
                                k
                            },
                            c.update(j, d),
                            sep_keys(new),
                            child_nodes(new),
                            j,
                        )
                } else {
                    false
                }
            },
        }
    }
}

/// Node `new` is node `old`, of height `h`, after inserting `key -> value`
/// below it.  A leaf puts the entry in its place.  An internal node descends
/// to the child the key falls in; a full child is first split in two, its
/// separator put between the halves, and the key then descends to the half it
/// falls in.
pub open spec fn inserted_into<K: Ord, V>(
    old: Node<K, V>,
    new: Node<K, V>,
    key: K,
    value: V,
    h: nat,
) -> bool
    decreases h,
{
    match old {
        Node::Leaf { entries } => new is Leaf && new.entries() == insert_entry(entries@, key, value),
        Node::Internal { keys, children } => {
            let k = keys@;
            let c = children@;
            let i = descent_index(k, key);
            if h == 0 || !(0 <= i < c.len()) {
                false
            } else if c[i].key_count_spec() >= MAX_KEYS {
                &&& new is Internal
                &&& exists|l: Box<Node<K, V>>, m: K, r: Box<Node<K, V>>, d: Box<Node<K, V>>|
                    #![trigger c.update(i, l).insert(i + 1, r).update(descent_index(k.insert(i, m), key), d)]
                    split_result(*c[i], *l, m, *r) && 0 <= descent_index(k.insert(i, m), key)
                        < c.update(i, l).insert(i + 1, r).len() && inserted_into(
                        *c.update(i, l).insert(i + 1, r)[descent_index(k.insert(i, m), key)],
                        *d,
                        key,
                        value,
                        (h - 1) as nat,
                    ) && sep_keys(new) == k.insert(i, m) && child_nodes(new) == c.update(
                        i,
                        l,
                    ).insert(i + 1, r).update(descent_index(k.insert(i, m), key), d)
            } else {
                &&& new is Internal
                &&& exists|d: Box<Node<K, V>>|
                    #![trigger c.update(i, d)]
                    inserted_into(*c[i], *d, key, value, (h - 1) as nat) && sep_keys(new) == k
                        && child_nodes(new) == c.update(i, d)
            }
        },
    }
}

} // verus!
