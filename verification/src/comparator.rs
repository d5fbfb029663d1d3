//! Operations in the order of a comparator that the caller supplies.
//!
//! The comparator is asked about two items and answers how the first
//! stands to the second. What an operation achieves is stated for every
//! order that the comparator decides: every relation by which all its
//! answers can be read, and which any two items satisfy one way or the
//! other, transitively.

use vstd::prelude::*;
use vstd::relations::{strongly_connected, transitive};
use core::cmp::Ordering;
use core::ops::Range;
use crate::indices::item_at;
use crate::parting::{
    lemma_parted_above, lemma_parted_below, lemma_parted_level, lemma_parted_start, parted,
};
use crate::rearrange::{
    lemma_moved_down_rearranges, lemma_moved_down_sorted, moved_down, rearranged, sorted_within,
};

verus! {

/// How `a` stands to `b` in the order `leq`.
pub open spec fn standing<T>(leq: spec_fn(T, T) -> bool, a: T, b: T) -> Ordering {
    if leq(a, b) && leq(b, a) {
        Ordering::Equal
    } else if leq(a, b) {
        Ordering::Less
    } else {
        Ordering::Greater
    }
}

/// The comparator decides the order `leq`: it gives no answer but the
/// standing of its first argument to its second, and `leq` is a total
/// preorder.
pub open spec fn decides<T, F: Fn(&T, &T) -> Ordering>(c: F, leq: spec_fn(T, T) -> bool) -> bool {
    &&& strongly_connected(leq)
    &&& transitive(leq)
    &&& forall|a: T, b: T, o: Ordering| #[trigger]
        call_ensures(c, (&a, &b), o) ==> o == standing(leq, a, b)
}

/// The comparator is ready to compare any two items.
pub open spec fn compares_all<T, F: Fn(&T, &T) -> Ordering>(c: F) -> bool {
    forall|a: T, b: T| #[trigger] call_requires(c, (&a, &b))
}

/// Sorts the items of the range in place, in the order of the comparator,
/// by insertion: each item in turn is moved down to its place among those
/// before it, which a binary search finds.
pub fn mutisort<T: Copy, F: Fn(&T, &T) -> Ordering + Copy>(s: &mut [T], rng: Range<usize>, c: F)
    requires
        rng.start <= rng.end <= old(s)@.len(),
        compares_all(c),
    ensures
        rearranged(old(s)@, final(s)@, rng.start, rng.end),
        forall|leq: spec_fn(T, T) -> bool| #[trigger]
            decides(c, leq) ==> sorted_within(final(s)@, rng.start, rng.end, leq),
{
    let start = rng.start;
    let end = rng.end;
    let len = s.len();
    if end - start < 2 {
        return;
    }
    let mut i: usize = start + 1;
    while i < end
        invariant
            start < i <= end <= len,
            len == s@.len(),
            s@.len() == old(s)@.len(),
            compares_all(c),
            rearranged(old(s)@, s@, start, end),
            forall|leq: spec_fn(T, T) -> bool| #[trigger]
                decides(c, leq) ==> sorted_within(s@, start, i, leq),
        decreases end - i,
    {
        let target = s[i];
        let ghost pre = s@;
        // Where the target belongs: before the first item that stands
        // after it.
        let mut lo: usize = start;
        let mut hi: usize = i;
        while lo < hi
            invariant
                start <= lo <= hi <= i < end <= len,
                len == s@.len(),
                s@ == pre,
                target == item_at(pre, i),
                compares_all(c),
                forall|leq: spec_fn(T, T) -> bool| #[trigger]
                    decides(c, leq) ==> sorted_within(pre, start, i, leq),
                forall|leq: spec_fn(T, T) -> bool| #[trigger]
                    decides(c, leq) ==> forall|k: int| start <= k < lo ==> leq(pre[k], target),
                forall|leq: spec_fn(T, T) -> bool| #[trigger]
                    decides(c, leq) ==> forall|k: int| hi <= k < i ==> !leq(pre[k], target),
            decreases hi - lo,
        {
            let mid: usize = lo + (hi - lo) / 2;
            let probe = s[mid];
            let o = c(&probe, &target);
            let after = match o {
                Ordering::Greater => true,
                _ => false,
            };
            proof {
                assert forall|leq: spec_fn(T, T) -> bool| #[trigger] decides(c, leq) implies (after
                    ==> forall|k: int| mid <= k < i ==> !leq(pre[k], target)) && (!after
                    ==> forall|k: int| start <= k <= mid ==> leq(pre[k], target)) by {
                    assert(o == standing(leq, probe, target));
                    assert(sorted_within(pre, start, i, leq));
                    assert(leq(probe, probe));
                    if after {
                        assert forall|k: int| mid <= k < i implies !leq(pre[k], target) by {
                            if mid < k {
                                assert(leq(pre[mid + 0], pre[k]));
                            }
                            if leq(pre[k], target) {
                                assert(leq(probe, pre[k]) && leq(pre[k], target));
                            }
                        }
                    } else {
                        assert forall|k: int| start <= k <= mid implies leq(pre[k], target) by {
                            if k < mid {
                                assert(leq(pre[k], pre[mid + 0]));
                            }
                            assert(leq(pre[k], probe) && leq(probe, target));
                        }
                    }
                }
            }
            if after {
                hi = mid;
            } else {
                lo = mid + 1;
            }
        }
        // Move the items from there on up by one, and put the target in.
        let mut k: usize = i;
        while k > lo
            invariant
                start <= lo <= k <= i < end <= len,
                len == s@.len(),
                s@.len() == pre.len(),
                forall|j: int| k < j <= i ==> s@[j] == pre[j - 1],
                forall|j: int| 0 <= j < len && !(k < j <= i) ==> s@[j] == pre[j],
            decreases k,
        {
            let x = s[k - 1];
            s[k] = x;
            k -= 1;
        }
        s[lo] = target;
        let next: usize = i + 1;
        proof {
            assert(moved_down(pre, s@, lo, i));
            lemma_moved_down_rearranges(pre, s@, lo, i, start, end);
            assert forall|leq: spec_fn(T, T) -> bool| #[trigger] decides(c, leq)
                implies sorted_within(
                s@,
                start,
                next,
                leq,
            ) by {
                assert forall|j: int| lo <= j < i implies leq(target, pre[j]) by {
                    assert(!leq(pre[j], target));
                    assert(leq(pre[j], target) || leq(target, pre[j]));
                }
                lemma_moved_down_sorted(pre, s@, start, lo, i, leq);
            }
        }
        i = next;
    }
}

/// Partitions the references of the range around the first of them, the
/// pivot, in the order of the comparator. Returns the bounds `(eqstart,
/// gtstart)`: the references before `eqstart` are those to the items that
/// stand before the pivot, the references from `gtstart` on those to the
/// items that stand after it, and between the two bounds lie as many
/// places as there are items that stand level with the pivot, itself
/// included; what these places hold is not defined.
pub fn part<T, F: Fn(&T, &T) -> Ordering + Copy>(s: &mut [&T], rng: &Range<usize>, c: F) -> (r: (
    usize,
    usize,
))
    requires
        rng.start < rng.end <= old(s)@.len(),
        compares_all(c),
    ensures
        rng.start <= r.0 < r.1 <= rng.end,
        final(s)@.len() == old(s)@.len(),
        forall|j: int|
            0 <= j < old(s)@.len() && !(rng.start <= j < rng.end) ==> final(s)@[j] == old(s)@[j],
        forall|leq: spec_fn(T, T) -> bool| #[trigger]
            decides(c, leq) ==> parted(old(s)@, final(s)@, rng.start, rng.end, r.0, r.1, leq),
{
    let start = rng.start;
    let end = rng.end;
    let len = s.len();
    let pivot = s[start];
    let mut eqstart: usize = start;
    let mut gtstart: usize = start + 1;
    let mut t: usize = start + 1;
    proof {
        assert forall|leq: spec_fn(T, T) -> bool| #[trigger] decides(c, leq) implies parted(
            old(s)@,
            s@,
            start,
            t,
            eqstart,
            gtstart,
            leq,
        ) by {
            lemma_parted_start(s@, start, t, leq);
        }
    }
    while t < end
        invariant
            start <= eqstart < gtstart <= t <= end <= len,
            len == s@.len(),
            s@.len() == old(s)@.len(),
            pivot == item_at(old(s)@, start),
            compares_all(c),
            forall|j: int|
                0 <= j < len && !(start <= j < t) ==> s@[j] == old(s)@[j],
            forall|leq: spec_fn(T, T) -> bool| #[trigger]
                decides(c, leq) ==> parted(old(s)@, s@, start, t, eqstart, gtstart, leq),
        decreases end - t,
    {
        let x = s[t];
        let o = c(x, pivot);
        let ghost s0 = s@;
        let e0 = eqstart;
        let g0 = gtstart;
        let next: usize = t + 1;
        match o {
            Ordering::Less => {
                s[eqstart] = x;
                eqstart += 1;
                let g = s[gtstart];
                s[t] = g;
                gtstart += 1;
            },
            Ordering::Equal => {
                let g = s[gtstart];
                s[t] = g;
                gtstart += 1;
            },
            Ordering::Greater => {},
        }
        proof {
            assert forall|leq: spec_fn(T, T) -> bool| #[trigger] decides(c, leq) implies parted(
                old(s)@,
                s@,
                start,
                next,
                eqstart,
                gtstart,
                leq,
            ) by {
                assert(o == standing(leq, *x, *pivot));
                assert(parted(old(s)@, s0, start, t, e0, g0, leq));
                match o {
                    Ordering::Less => {
                        lemma_parted_below(old(s)@, s0, s@, start, t, e0, g0, leq);
                    },
                    Ordering::Equal => {
                        lemma_parted_level(old(s)@, s0, s@, start, t, e0, g0, leq);
                    },
                    Ordering::Greater => {
                        lemma_parted_above(old(s)@, s0, s@, start, t, e0, g0, leq);
                    },
                }
            }
        }
        t = next;
    }
    (eqstart, gtstart)
}

} // verus!
