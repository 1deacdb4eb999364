//! The order on keys, as the containers use it.

use std::cmp::Ordering;
use vstd::prelude::*;
use vstd::std_specs::cmp::OrdSpec;
use vstd::std_specs::cmp::PartialOrdSpec;

verus! {

/// How one key stands to another.
pub enum Relation {
    Less,
    Equal,
    Greater,
}

/// The comparison of `K` is a total order, and two keys compare as equal
/// exactly when they are the same value.
pub open spec fn total_order<K: Ord>() -> bool {
    &&& vstd::laws_cmp::obeys_cmp::<K>()
    &&& vstd::laws_eq::obeys_concrete_eq::<K>()
}

/// `a` comes strictly before `b`.
pub open spec fn lt<K: Ord>(a: K, b: K) -> bool {
    a.cmp_spec(&b) == Ordering::Less
}

/// Of two keys exactly one holds: the first is before the second, they are
/// the same, or the second is before the first.
pub proof fn lemma_trichotomy<K: Ord>(a: K, b: K)
    requires
        total_order::<K>(),
    ensures
        lt(a, b) || a == b || lt(b, a),
        !(lt(a, b) && a == b),
        !(lt(a, b) && lt(b, a)),
        !(a == b && lt(b, a)),
{
    reveal(vstd::laws_cmp::obeys_cmp_partial_ord);
    reveal(vstd::laws_cmp::obeys_cmp_ord);
    reveal(vstd::laws_cmp::obeys_partial_cmp_spec_properties);
    reveal(vstd::laws_eq::obeys_concrete_eq);
    reveal(vstd::laws_eq::obeys_eq_spec_properties);
    assert(a.partial_cmp_spec(&b) == Some(a.cmp_spec(&b)));
    assert(b.partial_cmp_spec(&a) == Some(b.cmp_spec(&a)));
}

/// `lt` is transitive.
pub proof fn lemma_lt_transitive<K: Ord>(a: K, b: K, c: K)
    requires
        total_order::<K>(),
        lt(a, b),
        lt(b, c),
    ensures
        lt(a, c),
{
    reveal(vstd::laws_cmp::obeys_cmp_partial_ord);
    reveal(vstd::laws_cmp::obeys_cmp_ord);
    reveal(vstd::laws_cmp::obeys_partial_cmp_spec_properties);
    assert(a.partial_cmp_spec(&b) == Some(a.cmp_spec(&b)));
    assert(b.partial_cmp_spec(&c) == Some(b.cmp_spec(&c)));
    assert(a.partial_cmp_spec(&c) == Some(a.cmp_spec(&c)));
}

/// A key that is not after `b` is before everything that `b` is before.
pub proof fn lemma_le_lt<K: Ord>(a: K, b: K, c: K)
    requires
        total_order::<K>(),
        !lt(b, a),
        lt(b, c),
    ensures
        lt(a, c),
{
    lemma_trichotomy(a, b);
    if lt(a, b) {
        lemma_lt_transitive(a, b, c);
    }
}

/// Three-way comparison of two keys.
pub fn compare<K: Ord>(a: &K, b: &K) -> (r: Relation)
    requires
        total_order::<K>(),
    ensures
        r is Less <==> lt(*a, *b),
        r is Equal <==> *a == *b,
        r is Greater <==> lt(*b, *a),
{
    proof {
        lemma_trichotomy(*a, *b);
        reveal(vstd::laws_cmp::obeys_cmp_ord);
        reveal(vstd::laws_cmp::obeys_cmp_partial_ord);
        reveal(vstd::laws_cmp::obeys_partial_cmp_spec_properties);
        reveal(vstd::laws_eq::obeys_concrete_eq);
        assert(a.partial_cmp_spec(b) == Some(a.cmp_spec(b)));
        assert(b.partial_cmp_spec(a) == Some(b.cmp_spec(a)));
    }
    match a.cmp(b) {
        Ordering::Less => Relation::Less,
        Ordering::Equal => Relation::Equal,
        Ordering::Greater => Relation::Greater,
    }
}

/// Whether `a` comes strictly before `b`.
pub fn is_before<K: Ord>(a: &K, b: &K) -> (r: bool)
    requires
        total_order::<K>(),
    ensures
        r == lt(*a, *b),
{
    match compare(a, b) {
        Relation::Less => true,
        _ => false,
    }
}

/// Whether `a` and `b` are the same key.
pub fn is_same<K: Ord>(a: &K, b: &K) -> (r: bool)
    requires
        total_order::<K>(),
    ensures
        r == (*a == *b),
{
    match compare(a, b) {
        Relation::Equal => true,
        _ => false,
    }
}

} // verus!
