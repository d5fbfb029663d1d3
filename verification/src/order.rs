//! The ordering vocabulary shared by every algorithm of the crate.
//!
//! Elements are compared through `PartialOrd`. The algorithms are stated
//! for element types whose comparison is a total preorder: any two values
//! are comparable, and "not after" is transitive. Values that compare equal
//! need not be identical.

use vstd::prelude::*;
use vstd::std_specs::cmp::{PartialEqSpec, PartialOrdSpec};
use core::cmp::Ordering;

verus! {

/// `a` orders strictly before `b`.
pub open spec fn lt<T: PartialOrd>(a: T, b: T) -> bool {
    a.partial_cmp_spec(&b) == Some(Ordering::Less)
}

/// `a` orders strictly after `b`.
pub open spec fn gt<T: PartialOrd>(a: T, b: T) -> bool {
    a.partial_cmp_spec(&b) == Some(Ordering::Greater)
}

/// `a` and `b` occupy the same place in the order.
pub open spec fn equiv<T: PartialOrd>(a: T, b: T) -> bool {
    a.partial_cmp_spec(&b) == Some(Ordering::Equal)
}

/// `a` does not order after `b`.
pub open spec fn le<T: PartialOrd>(a: T, b: T) -> bool {
    lt(a, b) || equiv(a, b)
}

/// `a == b` as the type's own equality has it.
pub open spec fn same<T: PartialEq>(a: T, b: T) -> bool {
    a.eq_spec(&b)
}

/// The executable operators `==` and `!=` of `T` compute `same`.
pub open spec fn decides_equality<T: PartialEq>() -> bool {
    T::obeys_eq_spec()
}

/// The items that order before `pivot`.
pub open spec fn before<T: PartialOrd>(pivot: T) -> spec_fn(T) -> bool {
    |x: T| lt(x, pivot)
}

/// The items that order after `pivot`.
pub open spec fn after<T: PartialOrd>(pivot: T) -> spec_fn(T) -> bool {
    |x: T| gt(x, pivot)
}

/// The items that order neither before nor after `pivot`.
pub open spec fn beside<T: PartialOrd>(pivot: T) -> spec_fn(T) -> bool {
    |x: T| !lt(x, pivot) && !gt(x, pivot)
}

/// The items of `s` never descend.
pub open spec fn ascending<T: PartialOrd>(s: Seq<T>) -> bool {
    forall|a: int, b: int| 0 <= a < b < s.len() ==> le(#[trigger] s[a], #[trigger] s[b])
}

/// The items of `s` never ascend.
pub open spec fn descending<T: PartialOrd>(s: Seq<T>) -> bool {
    forall|a: int, b: int| 0 <= a < b < s.len() ==> le(#[trigger] s[b], #[trigger] s[a])
}

/// The comparison of `T` is a total preorder that the executable
/// operators `<` and `>` compute faithfully.
pub open spec fn total_order<T: PartialOrd>() -> bool {
    &&& T::obeys_partial_cmp_spec()
    &&& forall|a: T, b: T| #[trigger] a.partial_cmp_spec(&b) is Some
    &&& forall|a: T, b: T| lt(a, b) <==> #[trigger] gt(b, a)
    &&& forall|a: T, b: T| equiv(a, b) <==> #[trigger] equiv(b, a)
    &&& forall|a: T, b: T, c: T| #[trigger] le(a, b) && #[trigger] le(b, c) ==> le(a, c)
}

/// Any two values of a totally preordered type stand in exactly one of
/// the three relations, and the relations mirror each other.
pub proof fn lemma_trichotomy<T: PartialOrd>(a: T, b: T)
    requires
        total_order::<T>(),
    ensures
        T::obeys_partial_cmp_spec(),
        lt(a, b) || equiv(a, b) || gt(a, b),
        !(lt(a, b) && equiv(a, b)),
        !(lt(a, b) && gt(a, b)),
        !(equiv(a, b) && gt(a, b)),
        lt(a, b) <==> gt(b, a),
        gt(a, b) <==> lt(b, a),
        equiv(a, b) <==> equiv(b, a),
        le(a, b) <==> !gt(a, b),
        le(a, b) || le(b, a),
{
    let o = a.partial_cmp_spec(&b);
    assert(o is Some);
    assert(o == Some(Ordering::Less) || o == Some(Ordering::Equal) || o == Some(
        Ordering::Greater,
    ));
    assert(gt(b, a) <==> lt(a, b));
    assert(gt(a, b) <==> lt(b, a));
    assert(equiv(b, a) <==> equiv(a, b));
}

/// Every value is equivalent to itself.
pub proof fn lemma_reflexive<T: PartialOrd>(a: T)
    requires
        total_order::<T>(),
    ensures
        equiv(a, a),
        le(a, a),
        !lt(a, a),
        !gt(a, a),
{
    lemma_trichotomy(a, a);
}

/// Transitivity of the order in all its mixed forms.
pub proof fn lemma_transitive<T: PartialOrd>(a: T, b: T, c: T)
    requires
        total_order::<T>(),
    ensures
        le(a, b) && le(b, c) ==> le(a, c),
        lt(a, b) && le(b, c) ==> lt(a, c),
        le(a, b) && lt(b, c) ==> lt(a, c),
        equiv(a, b) && equiv(b, c) ==> equiv(a, c),
{
    lemma_trichotomy(a, b);
    lemma_trichotomy(b, c);
    lemma_trichotomy(a, c);
    lemma_trichotomy(c, a);
    if le(c, b) && le(b, a) {
        assert(le(c, a));
    }
    if le(a, b) && le(b, c) {
        assert(le(a, c));
        if le(c, a) {
            assert(le(c, a) && le(a, b));
            assert(le(c, b));
            assert(le(b, c) && le(c, a));
            assert(le(b, a));
        }
    }
}

/// The unsigned 64-bit integers are totally ordered, by their magnitude.
pub proof fn lemma_u64_order()
    ensures
        total_order::<u64>(),
        forall|a: u64, b: u64| #[trigger] lt(a, b) <==> a < b,
        forall|a: u64, b: u64| #[trigger] gt(a, b) <==> a > b,
        forall|a: u64, b: u64| #[trigger] equiv(a, b) <==> a == b,
        forall|a: u64, b: u64| #[trigger] le(a, b) <==> a <= b,
{
}

} // verus!
