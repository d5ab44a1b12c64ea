//! The ternary B-tree map.
use vstd::prelude::*;
use crate::order::{key_laws, lemma_key_laws};
use crate::model::{
    sorted_entries, entries_map, has_key, entries_between, keys_between,
    deref_pairs, lemma_map_dom, lemma_map_value, lemma_map_len, lemma_map_insert_entry,
    lemma_map_remove_entry, lemma_insert_entry_members, lemma_remove_entry_len, lemma_filter_sorted,
    lemma_map_between,
};
use crate::node::{Node, child_lo, child_hi, run_inv};
use crate::node_lemmas::{
    lemma_inv_entries, lemma_entries_of_concat, lemma_entries_of_one, lemma_single_run,
};

verus! {

/// Ternary B-tree mapping `K -> V`.
#[derive(Debug)]
pub struct TernaryBTree<K: Ord, V> {
    root: Option<Box<Node<K, V>>>,
    len: usize,
}

impl<K: Ord, V> TernaryBTree<K, V> {
    /// The entries of the tree, in key order.
    pub closed spec fn entries(&self) -> Seq<(K, V)> {
        match self.root {
            Some(r) => r.entries(),
            None => Seq::empty(),
        }
    }

    /// The tree is well formed: every node holds at most two keys, keys
    /// ascend, each child holds the keys between its separators, all leaves
    /// lie at one depth, and `len` counts the entries.
    #[verifier::type_invariant]
    spec fn wf(&self) -> bool {
        &&& match self.root {
            Some(r) => r.inv(None, None),
            None => true,
        }
        &&& self.len == self.entries().len()
    }
}

impl<K: Ord, V> View for TernaryBTree<K, V> {
    type V = Map<K, V>;

    /// The map from keys to values that the tree holds.
    closed spec fn view(&self) -> Map<K, V> {
        entries_map(self.entries())
    }
}

impl<K: Ord + Clone, V> TernaryBTree<K, V> {
    /// The view of any tree has finitely many keys.
    pub(crate) proof fn lemma_view_finite(&self)
        ensures
            self@.dom().finite(),
    {
        lemma_map_dom(self.entries());
    }

    /// The entries are in strictly ascending key order and stand for the view.
    proof fn lemma_entries(&self)
        requires
            key_laws::<K>(),
            self.wf(),
        ensures
            sorted_entries(self.entries()),
            self@ == entries_map(self.entries()),
            self@.dom().finite(),
            self@.len() == self.entries().len(),
            forall|k: K| #[trigger] self@.contains_key(k) <==> has_key(self.entries(), k),
    {
        if let Some(r) = self.root {
            lemma_inv_entries(*r, None, None);
        }
        lemma_map_dom(self.entries());
        lemma_map_len(self.entries());
    }

    /// An empty tree.
    pub fn new() -> (t: Self)
        ensures
            t@ == Map::<K, V>::empty(),
    {
        TernaryBTree { root: None, len: 0 }
    }

    /// The number of keys in the tree.
    pub fn len(&self) -> (r: usize)
        requires
            key_laws::<K>(),
        ensures
            r == self@.len(),
    {
        proof {
            use_type_invariant(self);
            self.lemma_entries();
        }
        self.len
    }

    /// Whether the tree holds no key.
    pub fn is_empty(&self) -> (r: bool)
        requires
            key_laws::<K>(),
        ensures
            r == (self@.len() == 0),
    {
        proof {
            use_type_invariant(self);
            self.lemma_entries();
        }
        self.len == 0
    }

    /// The value stored under `key`, if any.
    pub fn search(&self, key: &K) -> (r: Option<&V>)
        requires
            key_laws::<K>(),
        ensures
            r == if self@.contains_key(*key) {
                Some(&self@[*key])
            } else {
                None
            },
    {
        proof {
            use_type_invariant(self);
            self.lemma_entries();
        }
        match &self.root {
            Some(root) => {
                let r = root.search(key, Ghost(None), Ghost(None));
                proof {
                    let e = self.entries();
                    if let Some(v) = r {
                        let i = choose|i: int| 0 <= i < e.len() && e[i] == (*key, *v);
                        lemma_map_value(e, i);
                    }
                }
                r
            },
            None => None,
        }
    }

    /// Stores `value` under `key`, replacing the value stored there before.
    /// A full root is split first, so the tree grows at the top.
    pub fn insert(&mut self, key: K, value: V)
        requires
            key_laws::<K>(),
            old(self)@.len() < usize::MAX,
        ensures
            final(self)@ == old(self)@.insert(key, value),
    {
        proof {
            lemma_key_laws::<K>();
            use_type_invariant(&*self);
            self.lemma_entries();
        }
        let ghost old_entries = self.entries();
        let mut tree = TernaryBTree::new();
        std::mem::swap(self, &mut tree);
        proof {
            use_type_invariant(&tree);
        }
        let TernaryBTree { root, len } = tree;
        match root {
            None => {
                let mut leaf = Box::new(Node::new_leaf());
                leaf.insert_non_full(key, value, Ghost(None), Ghost(None));
                proof {
                    assert(old_entries == Seq::<(K, V)>::empty());
                    lemma_insert_entry_members(old_entries, key, value);
                }
                *self = TernaryBTree { root: Some(leaf), len: len + 1 };
            },
            Some(mut root) => {
                let is_new;
                let new_root;
                if root.is_full() {
                    let (median, right) = root.split(Ghost(None), Ghost(None));
                    let mut grown = Box::new(
                        Node::Internal { keys: vec![median], children: vec![root, right] },
                    );
                    proof {
                        let cs = seq![root, right];
                        let ks = seq![median];
                        assert(child_lo(ks, None, 0) == None::<K>);
                        assert(child_hi(ks, None, 0) == Some(median));
                        assert(child_lo(ks, None, 1) == Some(median));
                        assert(child_hi(ks, None, 1) == None::<K>);
                        assert(cs[0] == root && cs[1] == right);
                        assert(run_inv(ks, cs, None, None));
                        assert(cs == seq![root] + seq![right]);
                        lemma_entries_of_concat(seq![root], seq![right]);
                        lemma_entries_of_one(root);
                        lemma_entries_of_one(right);
                        assert(grown.entries() == old_entries);
                    }
                    is_new = grown.insert_non_full(key, value, Ghost(None), Ghost(None));
                    new_root = grown;
                } else {
                    is_new = root.insert_non_full(key, value, Ghost(None), Ghost(None));
                    new_root = root;
                }
                proof {
                    lemma_insert_entry_members(old_entries, key, value);
                }
                let new_len = if is_new {
                    len + 1
                } else {
                    len
                };
                *self = TernaryBTree { root: Some(new_root), len: new_len };
            },
        }
        proof {
            lemma_map_insert_entry(old_entries, key, value);
        }
    }

    /// Removes `key` and its value.  Returns whether the key was there.
    /// A root left with a single child is replaced by that child, and a root
    /// leaf left empty is dropped.
    pub fn delete(&mut self, key: &K) -> (r: bool)
        requires
            key_laws::<K>(),
        ensures
            final(self)@ == old(self)@.remove(*key),
            r == old(self)@.contains_key(*key),
    {
        proof {
            lemma_key_laws::<K>();
            use_type_invariant(&*self);
            self.lemma_entries();
        }
        let ghost old_entries = self.entries();
        let mut tree = TernaryBTree::new();
        std::mem::swap(self, &mut tree);
        proof {
            use_type_invariant(&tree);
        }
        let TernaryBTree { root, len } = tree;
        match root {
            None => {
                proof {
                    assert(old_entries == Seq::<(K, V)>::empty());
                    assert(old(self)@ =~= old(self)@.remove(*key));
                }
                *self = TernaryBTree { root: None, len };
                false
            },
            Some(mut root) => {
                let removed = root.delete(key, Ghost(None), Ghost(None));
                proof {
                    lemma_remove_entry_len(old_entries, *key);
                    lemma_map_remove_entry(old_entries, *key);
                }
                if removed {
                    // collapse an internal root that is left with one child
                    let collapse = match &*root {
                        Node::Internal { keys, children } => keys.len() == 0 && children.len() == 1,
                        Node::Leaf { .. } => false,
                    };
                    if collapse {
                        let ghost before = *root;
                        root = match *root {
                            Node::Internal { mut children, .. } => children.remove(0),
                            other => Box::new(other),
                        };
                        proof {
                            let cs = before->Internal_children@;
                            assert(cs == seq![root]);
                            lemma_single_run(root, None, None);
                            assert(run_inv(Seq::<K>::empty(), cs, None, None));
                            lemma_entries_of_one(root);
                        }
                    }
                    let empty_leaf = match &*root {
                        Node::Leaf { entries } => entries.len() == 0,
                        Node::Internal { .. } => false,
                    };
                    if empty_leaf {
                        *self = TernaryBTree { root: None, len: len - 1 };
                    } else {
                        *self = TernaryBTree { root: Some(root), len: len - 1 };
                    }
                } else {
                    *self = TernaryBTree { root: Some(root), len };
                }
                removed
            },
        }
    }

    /// All key-value pairs with key in `[lo, hi]`, sorted ascending.
    pub fn range(&self, lo: &K, hi: &K) -> (r: Vec<(&K, &V)>)
        requires
            key_laws::<K>(),
        ensures
            sorted_entries(deref_pairs(r@)),
            entries_map(deref_pairs(r@)) == self@.restrict(keys_between(*lo, *hi)),
    {
        proof {
            use_type_invariant(self);
            self.lemma_entries();
        }
        let mut result = Vec::new();
        proof {
            assert(deref_pairs(result@) == Seq::<(K, V)>::empty());
        }
        if let Some(root) = &self.root {
            root.range(lo, hi, &mut result, Ghost(None), Ghost(None));
        }
        proof {
            assert(deref_pairs(result@) =~= entries_between(self.entries(), *lo, *hi)) by {
                if self.root is None {
                    reveal(Seq::filter);
                }
            }
            lemma_filter_sorted(self.entries(), crate::model::key_between::<K, V>(*lo, *hi));
            lemma_map_between(self.entries(), *lo, *hi);
        }
        result
    }

    /// All key-value pairs, sorted ascending by key.
    pub fn iter(&self) -> (r: Vec<(&K, &V)>)
        requires
            key_laws::<K>(),
        ensures
            sorted_entries(deref_pairs(r@)),
            entries_map(deref_pairs(r@)) == self@,
    {
        proof {
            use_type_invariant(self);
            self.lemma_entries();
        }
        let mut out = Vec::new();
        proof {
            assert(deref_pairs(out@) == Seq::<(K, V)>::empty());
        }
        if let Some(root) = &self.root {
            root.collect_all(&mut out);
        }
        proof {
            assert(deref_pairs(out@) =~= self.entries());
        }
        out
    }
}

impl<K: Ord + Clone, V> Default for TernaryBTree<K, V> {
    fn default() -> (t: Self)
        ensures
            t@ == Map::<K, V>::empty(),
    {
        Self::new()
    }
}

} // verus!
