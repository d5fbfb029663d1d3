//! What a partition around a pivot achieves, and the steps that lead to it.
//!
//! The partition keeps three zones in the processed part of a range: the
//! references to the items that stand before the pivot, as many places as
//! there are items level with it, and the references to the items that
//! stand after it. Each new item goes to the end of its zone; the zones
//! behind it give way by moving their first reference to their far end.

use vstd::prelude::*;

verus! {

/// The items that stand before the pivot in the order `leq`.
pub open spec fn below<'a, T>(leq: spec_fn(T, T) -> bool, pivot: T) -> spec_fn(&'a T) -> bool {
    |x: &'a T| leq(*x, pivot) && !leq(pivot, *x)
}

/// The items that stand level with the pivot in the order `leq`.
pub open spec fn level<'a, T>(leq: spec_fn(T, T) -> bool, pivot: T) -> spec_fn(&'a T) -> bool {
    |x: &'a T| leq(*x, pivot) && leq(pivot, *x)
}

/// The items that stand after the pivot in the order `leq`.
pub open spec fn above<'a, T>(leq: spec_fn(T, T) -> bool, pivot: T) -> spec_fn(&'a T) -> bool {
    |x: &'a T| !leq(*x, pivot)
}

/// The range `start..end` of `before` has been partitioned around its
/// first reference, with the bounds `eqstart` and `gtstart`, into `after`.
pub open spec fn parted<T>(
    before: Seq<&T>,
    after: Seq<&T>,
    start: usize,
    end: usize,
    eqstart: usize,
    gtstart: usize,
    leq: spec_fn(T, T) -> bool,
) -> bool {
    let pivot = *before[start as int];
    let rest = before.subrange(start + 1, end as int);
    &&& after.subrange(start as int, eqstart as int).to_multiset() == rest.filter(
        below(leq, pivot),
    ).to_multiset()
    &&& after.subrange(gtstart as int, end as int).to_multiset() == rest.filter(
        above(leq, pivot),
    ).to_multiset()
    &&& gtstart - eqstart == 1 + rest.filter(level(leq, pivot)).len()
}

/// Before any item is looked at, the pivot alone is in its zone.
pub proof fn lemma_parted_start<T>(s: Seq<&T>, start: usize, t: usize, leq: spec_fn(T, T) -> bool)
    requires
        start < s.len(),
        t == start + 1,
    ensures
        parted(s, s, start, t, start, t, leq),
{
    reveal(Seq::filter);
    let rest = s.subrange(start + 1, t as int);
    assert(rest.len() == 0);
    assert(s.subrange(start as int, start as int) =~= rest);
    assert(s.subrange(t as int, t as int) =~= rest);
}

/// The step for an item that stands before the pivot: it takes the first
/// place of the level zone, and the first reference of the zone after it
/// moves to the place that the item has left.
pub proof fn lemma_parted_below<T>(
    before: Seq<&T>,
    s0: Seq<&T>,
    s1: Seq<&T>,
    start: usize,
    t: usize,
    e: usize,
    g: usize,
    leq: spec_fn(T, T) -> bool,
)
    requires
        start <= e < g <= t < before.len() <= usize::MAX,
        s0.len() == before.len(),
        s1.len() == before.len(),
        s0[t as int] == before[t as int],
        parted(before, s0, start, t, e, g, leq),
        below(leq, *before[start as int])(before[t as int]),
        s1[e as int] == s0[t as int],
        s1[t as int] == s0[g as int] || (g == t && s1[t as int] == s0[t as int]),
        forall|j: int| 0 <= j < before.len() && j != e && j != t ==> s1[j] == s0[j],
    ensures
        parted(before, s1, start, (t + 1) as usize, (e + 1) as usize, (g + 1) as usize, leq),
{
    broadcast use vstd::seq_lib::group_to_multiset_ensures;

    let pivot = *before[start as int];
    let x = before[t as int];
    let rest = before.subrange(start + 1, t as int);
    let rest1 = before.subrange(start + 1, t + 1);
    assert(rest1 =~= rest.push(x));
    rest.lemma_filter_push(x, below(leq, pivot));
    rest.lemma_filter_push(x, level(leq, pivot));
    rest.lemma_filter_push(x, above(leq, pivot));
    assert(s1.subrange(start as int, e + 1) =~= s0.subrange(start as int, e as int).push(x));
    lemma_zone_gives_way(s0, s1, g, t);
}

/// The step for an item that stands level with the pivot: the level zone
/// grows by the first place of the zone after it, whose reference moves
/// to the place of the item.
pub proof fn lemma_parted_level<T>(
    before: Seq<&T>,
    s0: Seq<&T>,
    s1: Seq<&T>,
    start: usize,
    t: usize,
    e: usize,
    g: usize,
    leq: spec_fn(T, T) -> bool,
)
    requires
        start <= e < g <= t < before.len() <= usize::MAX,
        s0.len() == before.len(),
        s1.len() == before.len(),
        s0[t as int] == before[t as int],
        parted(before, s0, start, t, e, g, leq),
        level(leq, *before[start as int])(before[t as int]),
        s1[t as int] == s0[g as int],
        forall|j: int| 0 <= j < before.len() && j != t ==> s1[j] == s0[j],
    ensures
        parted(before, s1, start, (t + 1) as usize, e, (g + 1) as usize, leq),
{
    let pivot = *before[start as int];
    let x = before[t as int];
    let rest = before.subrange(start + 1, t as int);
    let rest1 = before.subrange(start + 1, t + 1);
    assert(rest1 =~= rest.push(x));
    rest.lemma_filter_push(x, below(leq, pivot));
    rest.lemma_filter_push(x, level(leq, pivot));
    rest.lemma_filter_push(x, above(leq, pivot));
    assert(s1.subrange(start as int, e as int) =~= s0.subrange(start as int, e as int));
    lemma_zone_gives_way(s0, s1, g, t);
}

/// The step for an item that stands after the pivot: it is in its place.
pub proof fn lemma_parted_above<T>(
    before: Seq<&T>,
    s0: Seq<&T>,
    s1: Seq<&T>,
    start: usize,
    t: usize,
    e: usize,
    g: usize,
    leq: spec_fn(T, T) -> bool,
)
    requires
        start <= e < g <= t < before.len() <= usize::MAX,
        s0.len() == before.len(),
        s0[t as int] == before[t as int],
        parted(before, s0, start, t, e, g, leq),
        above(leq, *before[start as int])(before[t as int]),
        s1 == s0,
    ensures
        parted(before, s1, start, (t + 1) as usize, e, g, leq),
{
    broadcast use vstd::seq_lib::group_to_multiset_ensures;

    let pivot = *before[start as int];
    let x = before[t as int];
    let rest = before.subrange(start + 1, t as int);
    let rest1 = before.subrange(start + 1, t + 1);
    assert(rest1 =~= rest.push(x));
    rest.lemma_filter_push(x, below(leq, pivot));
    rest.lemma_filter_push(x, level(leq, pivot));
    rest.lemma_filter_push(x, above(leq, pivot));
    assert(s1.subrange(g as int, t + 1) =~= s0.subrange(g as int, t as int).push(x));
}

/// A zone that moves its first reference to the place behind its last
/// holds what it held.
proof fn lemma_zone_gives_way<T>(s0: Seq<&T>, s1: Seq<&T>, g: usize, t: usize)
    requires
        g <= t < s0.len(),
        s1.len() == s0.len(),
        s1[t as int] == s0[g as int],
        forall|j: int| g < j < t ==> s1[j] == s0[j],
    ensures
        s1.subrange(g + 1, t + 1).to_multiset() == s0.subrange(g as int, t as int).to_multiset(),
{
    broadcast use vstd::seq_lib::lemma_multiset_commutative;

    let z0 = s0.subrange(g as int, t as int);
    let z1 = s1.subrange(g + 1, t + 1);
    if g < t {
        let head = seq![s0[g as int]];
        let body = s0.subrange(g + 1, t as int);
        assert(z0 =~= head + body);
        assert(z1 =~= body + head);
        assert(z1.to_multiset() =~= z0.to_multiset());
    } else {
        assert(z1 =~= z0);
    }
}

} // verus!
