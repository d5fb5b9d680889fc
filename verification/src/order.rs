//! The order on keys.
//!
//! Keys are compared with the `==` and `<` of their type. What the index
//! promises about searching and sortedness holds for key types on which
//! those operators form a total order; [`total_order`] states that
//! hypothesis, and the lemmas below are the only place where it is unfolded.

use core::cmp::Ordering;
use vstd::prelude::*;
use vstd::std_specs::cmp::PartialEqSpec;
use vstd::std_specs::cmp::PartialOrdSpec;

verus! {

/// `a < b` as the key type defines it.
pub open spec fn key_lt<K: PartialOrd>(a: K, b: K) -> bool {
    a.partial_cmp_spec(&b) == Some(Ordering::Less)
}

/// `a > b` as the key type defines it.
pub open spec fn key_gt<K: PartialOrd>(a: K, b: K) -> bool {
    a.partial_cmp_spec(&b) == Some(Ordering::Greater)
}

/// `a == b` as the key type defines it.
pub open spec fn key_eq<K: PartialOrd>(a: K, b: K) -> bool {
    a.eq_spec(&b)
}

/// `a <= b`: strictly before, or equal.
pub open spec fn key_le<K: PartialOrd>(a: K, b: K) -> bool {
    key_lt(a, b) || key_eq(a, b)
}

/// The comparison operators of `K` behave as their specifications say, and
/// `<=` is a total preorder of which `<`, `>` and `==` are the strict part,
/// its converse and the symmetric part.
#[verifier::opaque]
pub open spec fn total_order<K: PartialOrd>() -> bool {
    &&& K::obeys_eq_spec()
    &&& K::obeys_partial_cmp_spec()
    &&& forall|a: K, b: K| #[trigger] key_le(a, b) || key_le(b, a)
    &&& forall|a: K, b: K, c: K| #[trigger] key_le(a, b) && #[trigger] key_le(b, c) ==> key_le(a, c)
    &&& forall|a: K, b: K| #[trigger] key_lt(a, b) <==> key_le(a, b) && !key_le(b, a)
    &&& forall|a: K, b: K| #[trigger] key_eq(a, b) <==> key_le(a, b) && key_le(b, a)
    &&& forall|a: K, b: K| #[trigger] key_gt(a, b) <==> key_lt(b, a)
}

/// How `<`, `>` and `==` on two keys follow from `<=`.
pub proof fn lemma_order_facts<K: PartialOrd>(a: K, b: K)
    requires
        total_order::<K>(),
    ensures
        key_le(a, b) || key_le(b, a),
        key_lt(a, b) <==> key_le(a, b) && !key_le(b, a),
        key_eq(a, b) <==> key_le(a, b) && key_le(b, a),
        key_gt(a, b) <==> key_lt(b, a),
        key_le(a, a),
{
    reveal(total_order);
    assert(key_le(a, b) || key_le(b, a));
    assert(key_le(a, a) || key_le(a, a));
}

/// `<=` is transitive.
pub proof fn lemma_le_trans<K: PartialOrd>(a: K, b: K, c: K)
    requires
        total_order::<K>(),
        key_le(a, b),
        key_le(b, c),
    ensures
        key_le(a, c),
{
    reveal(total_order);
}

/// The unsigned and signed machine integers are totally ordered keys.
pub proof fn lemma_integers_total_order()
    ensures
        total_order::<u8>(),
        total_order::<u16>(),
        total_order::<u32>(),
        total_order::<u64>(),
        total_order::<usize>(),
        total_order::<i8>(),
        total_order::<i16>(),
        total_order::<i32>(),
        total_order::<i64>(),
        total_order::<isize>(),
{
    reveal(total_order);
}

/// `a < b`.
pub(crate) fn precedes<K: Copy + PartialOrd>(a: K, b: K) -> (r: bool)
    ensures
        total_order::<K>() ==> r == key_lt(a, b),
{
    proof {
        reveal(total_order);
    }
    a < b
}

/// `a > b`.
pub(crate) fn follows<K: Copy + PartialOrd>(a: K, b: K) -> (r: bool)
    ensures
        total_order::<K>() ==> r == key_gt(a, b),
{
    proof {
        reveal(total_order);
    }
    a > b
}

/// `a == b`.
pub(crate) fn matches_key<K: Copy + PartialOrd>(a: K, b: K) -> (r: bool)
    ensures
        total_order::<K>() ==> r == key_eq(a, b),
{
    proof {
        reveal(total_order);
    }
    a == b
}

} // verus!
