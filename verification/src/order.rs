//! What the tree asks of its key type: a strict total order that agrees
//! with equality.

use core::cmp::Ordering;
use vstd::laws_cmp::{
    obeys_cmp, obeys_cmp_ord, obeys_cmp_partial_ord, obeys_partial_cmp_spec_properties,
};
use vstd::laws_eq::obeys_concrete_eq;
use vstd::prelude::*;
use vstd::std_specs::cmp::PartialOrdSpec;

verus! {

/// `a` comes strictly before `b` in the order of `K`.
pub open spec fn key_lt<K: Ord>(a: K, b: K) -> bool {
    a.partial_cmp_spec(&b) == Some(Ordering::Less)
}

/// The comparison operators of `K` compute a total order: any two keys
/// compare, they compare equal exactly when they are the same key, `>` is
/// `<` with the sides exchanged, and `<` is transitive.
pub open spec fn total_order<K: Ord>() -> bool {
    &&& K::obeys_partial_cmp_spec()
    &&& forall|a: K, b: K| #![trigger a.partial_cmp_spec(&b)] a.partial_cmp_spec(&b) is Some
    &&& forall|a: K, b: K|
        #![trigger a.partial_cmp_spec(&b)]
        a.partial_cmp_spec(&b) == Some(Ordering::Equal) <==> a == b
    &&& forall|a: K, b: K|
        #![trigger a.partial_cmp_spec(&b)]
        a.partial_cmp_spec(&b) == Some(Ordering::Greater) <==> key_lt(b, a)
    &&& forall|a: K, b: K, c: K|
        #![trigger key_lt(a, b), key_lt(b, c)]
        key_lt(a, b) && key_lt(b, c) ==> key_lt(a, c)
}

/// Of two keys exactly one holds: the first is smaller, they are the same
/// key, or the second is smaller.
pub proof fn lemma_trichotomy<K: Ord>(a: K, b: K)
    requires
        total_order::<K>(),
    ensures
        key_lt(a, b) || a == b || key_lt(b, a),
        !(key_lt(a, b) && a == b),
        !(key_lt(a, b) && key_lt(b, a)),
        !(a == b && key_lt(b, a)),
{
    match a.partial_cmp_spec(&b) {
        Some(Ordering::Less) => {},
        Some(Ordering::Equal) => {},
        Some(Ordering::Greater) => {},
        None => {},
    }
}

/// A key type whose comparisons keep the laws that vstd states for `Ord`,
/// and whose `==` is equality, is totally ordered in the sense above.
pub proof fn lemma_lawful_keys_are_totally_ordered<K: Ord>()
    requires
        obeys_cmp::<K>(),
        obeys_concrete_eq::<K>(),
    ensures
        total_order::<K>(),
{
    reveal(obeys_cmp_partial_ord);
    reveal(obeys_cmp_ord);
    reveal(obeys_partial_cmp_spec_properties);
    reveal(obeys_concrete_eq);
}

} // verus!
