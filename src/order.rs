//! The ordering that the tree relies on: the element type's `Ord::cmp`,
//! read through the specification that vstd gives it.
use core::cmp::Ordering;
use vstd::prelude::*;
use vstd::std_specs::cmp::OrdSpec;

verus! {

/// `a` comes strictly before `b`.
pub open spec fn lt<T: Ord>(a: T, b: T) -> bool {
    a.cmp_spec(&b) == Ordering::Less
}

/// `cmp` on `T` is a total order that agrees with equality: it is
/// deterministic, equal exactly on identical values, antisymmetric and
/// transitive.
pub open spec fn total_order<T: Ord>() -> bool {
    &&& T::obeys_cmp_spec()
    &&& forall|a: T, b: T| #[trigger] a.cmp_spec(&b) == Ordering::Equal <==> a == b
    &&& forall|a: T, b: T| #[trigger] a.cmp_spec(&b) == Ordering::Greater <==> lt(b, a)
    &&& forall|a: T, b: T, c: T| #[trigger] lt(a, b) && #[trigger] lt(b, c) ==> lt(a, c)
}

/// `s` is strictly ascending.
pub open spec fn sorted<T: Ord>(s: Seq<T>) -> bool {
    forall|i: int, j: int| 0 <= i < j < s.len() ==> lt(#[trigger] s[i], #[trigger] s[j])
}

/// Two values compare in exactly one way: before, equal or after.
pub proof fn lemma_trichotomy<T: Ord>(a: T, b: T)
    requires
        total_order::<T>(),
    ensures
        lt(a, b) || a == b || lt(b, a),
        !(lt(a, b) && lt(b, a)),
        !lt(a, a),
        !lt(b, b),
{
    assert(a.cmp_spec(&b) == Ordering::Greater <==> lt(b, a));
    assert(a.cmp_spec(&a) == Ordering::Equal);
    assert(b.cmp_spec(&b) == Ordering::Equal);
}

/// The machine integers are ordered in the sense above.
pub proof fn lemma_integers_total_order()
    ensures
        total_order::<i32>(),
        total_order::<i64>(),
        total_order::<u32>(),
        total_order::<u64>(),
        total_order::<usize>(),
{
}

} // verus!
