use vstd::prelude::*;
use vstd::laws_cmp::obeys_cmp;
use vstd::laws_eq::obeys_concrete_eq;
use vstd::std_specs::cmp::{OrdSpec, PartialEqSpec, PartialOrdSpec};
use core::cmp::Ordering;

verus! {

/// `a` comes strictly before `b` in the order of `K`.
pub open spec fn key_lt<K: Ord>(a: K, b: K) -> bool {
    a.partial_cmp_spec(&b) == Some(Ordering::Less)
}

/// What the tree needs of its key type: `Ord` a strict total order whose
/// equality is value equality, and `clone` a copy.
pub open spec fn key_laws<K: Ord + Clone>() -> bool {
    &&& obeys_cmp::<K>()
    &&& obeys_concrete_eq::<K>()
    &&& forall|a: K, b: K| #[trigger] vstd::pervasive::strictly_cloned(a, b) ==> a == b
}

/// `a` does not come after `b`.
pub open spec fn key_le<K: Ord>(a: K, b: K) -> bool {
    key_lt(a, b) || a == b
}

/// The order facts that follow from `key_laws`.
pub proof fn lemma_key_laws<K: Ord + Clone>()
    requires
        key_laws::<K>(),
    ensures
        K::obeys_eq_spec(),
        forall|a: K, b: K| #[trigger] a.eq_spec(&b) <==> a == b,
        forall|a: K, b: K| key_lt(a, b) <==> #[trigger] key_lt(b, a) == false && a != b,
        forall|a: K, b: K, c: K| #[trigger] key_lt(a, b) && #[trigger] key_lt(b, c) ==> key_lt(a, c),
{
    lemma_order_facts::<K>();
}

proof fn lemma_order_facts<K: Ord + Clone>()
    requires
        key_laws::<K>(),
    ensures
        K::obeys_eq_spec(),
        K::obeys_partial_cmp_spec(),
        forall|a: K, b: K| #[trigger] a.eq_spec(&b) <==> a == b,
        forall|a: K, b: K| #[trigger] a.partial_cmp_spec(&b) is Some,
        forall|a: K, b: K| #[trigger] a.partial_cmp_spec(&b) == Some(Ordering::Equal) <==> a == b,
        forall|a: K, b: K| key_lt(a, b) <==> #[trigger] key_lt(b, a) == false && a != b,
        forall|a: K, b: K| #[trigger] a.partial_cmp_spec(&b) == Some(Ordering::Greater) <==> key_lt(b, a),
        forall|a: K, b: K, c: K| #[trigger] key_lt(a, b) && #[trigger] key_lt(b, c) ==> key_lt(a, c),
{
    reveal(vstd::laws_cmp::obeys_partial_cmp_spec_properties);
    reveal(vstd::laws_cmp::obeys_cmp_partial_ord);
    reveal(vstd::laws_cmp::obeys_cmp_ord);
    reveal(obeys_concrete_eq);
    assert forall|a: K, b: K| #[trigger] a.partial_cmp_spec(&b) is Some by {
        assert(a.partial_cmp_spec(&b) == Some(a.cmp_spec(&b)));
    }
    assert forall|a: K, b: K| key_lt(a, b) <==> #[trigger] key_lt(b, a) == false && a != b by {
        assert(a.partial_cmp_spec(&b) == Some(a.cmp_spec(&b)));
        assert(b.partial_cmp_spec(&a) == Some(b.cmp_spec(&a)));
    }
}

/// Whether `a` comes strictly before `b`.
pub fn key_less<K: Ord + Clone>(a: &K, b: &K) -> (r: bool)
    requires
        key_laws::<K>(),
    ensures
        r == key_lt(*a, *b),
{
    proof {
        lemma_order_facts::<K>();
    }
    *a < *b
}

/// Whether `a` does not come before `b`.
pub fn key_at_least<K: Ord + Clone>(a: &K, b: &K) -> (r: bool)
    requires
        key_laws::<K>(),
    ensures
        r == key_le(*b, *a),
{
    proof {
        lemma_order_facts::<K>();
    }
    *a >= *b
}

/// Whether `a` does not come after `b`.
pub fn key_at_most<K: Ord + Clone>(a: &K, b: &K) -> (r: bool)
    requires
        key_laws::<K>(),
    ensures
        r == key_le(*a, *b),
{
    proof {
        lemma_order_facts::<K>();
    }
    *a <= *b
}

/// A copy of a key.
pub fn copy_key<K: Ord + Clone>(k: &K) -> (r: K)
    requires
        key_laws::<K>(),
    ensures
        r == *k,
{
    let r = k.clone();
    proof {
        assert(vstd::pervasive::cloned(*k, r));
    }
    r
}

/// The primitive integer types make good keys.
pub proof fn lemma_integer_keys()
    ensures
        key_laws::<u8>(),
        key_laws::<u16>(),
        key_laws::<u32>(),
        key_laws::<u64>(),
        key_laws::<u128>(),
        key_laws::<usize>(),
        key_laws::<i8>(),
        key_laws::<i16>(),
        key_laws::<i32>(),
        key_laws::<i64>(),
        key_laws::<i128>(),
        key_laws::<isize>(),
{
    broadcast use vstd::laws_cmp::group_laws_cmp;
    broadcast use vstd::laws_eq::group_laws_eq;

}

} // verus!
