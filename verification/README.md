# ternary_btree

A B-tree map with ternary branching, verified with Verus.  Each node holds
at most two keys; an internal node with keys `k0 < k1` has a left child
(keys below `k0`), a middle child (keys from `k0` up to `k1`) and a right
child (keys from `k1` up).  Insertion splits full nodes on the way down;
removal refills a node left without keys by borrowing from a sibling or
merging with it.

Layout of `src/`:

- `order.rs`: what the key type must provide (`key_laws`: `Ord` a strict
  total order, `==` value equality, `clone` a copy) and the comparisons used.
  `lemma_integer_keys` proves `key_laws` for the primitive integer types;
  vstd gives no such facts for `String` or `&str`, so verified callers can
  use only integer keys (unverified code may use any `Ord + Clone` key).
- `model.rs`: the mathematical model: the entries as a sequence in ascending
  key order, the map it stands for, and the sequence operations that insertion,
  removal and range queries perform, with their lemmas.
- `node.rs`: the nodes, their invariant (`Node::inv`) and the node-level
  algorithms (search, split, insertion, removal, rotation, merge, listing).
- `node_lemmas.rs`: facts about runs of sibling nodes.
- `tree.rs`: `TernaryBTree`, whose contracts speak of its view as a `Map`.
- `laws.rs`: laws that relate the operations to one another.

The tests under `tests/` run the library on concrete values.
