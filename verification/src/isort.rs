//! Small sorts of the entries of an index, by comparing the items that
//! they list: two or three entries by direct comparison and exchange, a
//! short run by insertion.

use vstd::prelude::*;
use crate::indices::{in_range, listed};
use crate::order::{
    ascending, gt, le, lemma_reflexive, lemma_transitive, lemma_trichotomy, total_order,
};
use crate::rearrange::{lemma_rearranges_twice, lemma_swapped_rearranges, rearranges, swapped};

verus! {

/// Exchanges two entries of an index.
pub fn swap_entries(idx: &mut [usize], i: usize, j: usize)
    requires
        i < old(idx)@.len(),
        j < old(idx)@.len(),
    ensures
        final(idx)@ == swapped(old(idx)@, i as int, j as int),
{
    let a = idx[i];
    let b = idx[j];
    idx[i] = b;
    idx[j] = a;
}

/// Exchanges the entries `i0` and `i1` of the index where the item of the
/// first orders after the item of the second, and says whether it did.
pub fn isorttwo<T: PartialOrd + Copy>(s: &[T], idx: &mut [usize], i0: usize, i1: usize) -> (did:
    bool)
    requires
        total_order::<T>(),
        i0 < old(idx)@.len(),
        i1 < old(idx)@.len(),
        in_range(old(idx)@, s@.len() as int),
    ensures
        did == gt(s@[old(idx)@[i0 as int] as int], s@[old(idx)@[i1 as int] as int]),
        final(idx)@ == if did {
            swapped(old(idx)@, i0 as int, i1 as int)
        } else {
            old(idx)@
        },
        le(s@[final(idx)@[i0 as int] as int], s@[final(idx)@[i1 as int] as int]),
        in_range(final(idx)@, s@.len() as int),
{
    proof {
        lemma_trichotomy(s@[idx@[i0 as int] as int], s@[idx@[i1 as int] as int]);
        lemma_trichotomy(s@[idx@[i1 as int] as int], s@[idx@[i0 as int] as int]);
    }
    if s[idx[i0]] > s[idx[i1]] {
        swap_entries(idx, i0, i1);
        true
    } else {
        false
    }
}

/// Exchanges two entries of the index where their items are out of
/// ascending order.
pub fn testswap<T: PartialOrd + Copy>(s: &[T], idx: &mut [usize], i1: usize, i2: usize)
    requires
        total_order::<T>(),
        i1 < old(idx)@.len(),
        i2 < old(idx)@.len(),
        in_range(old(idx)@, s@.len() as int),
    ensures
        final(idx)@ == if gt(s@[old(idx)@[i1 as int] as int], s@[old(idx)@[i2 as int] as int]) {
            swapped(old(idx)@, i1 as int, i2 as int)
        } else {
            old(idx)@
        },
        le(s@[final(idx)@[i1 as int] as int], s@[final(idx)@[i2 as int] as int]),
        in_range(final(idx)@, s@.len() as int),
{
    let _ = isorttwo(s, idx, i1, i2);
}

/// Puts the entries `i0`, `i1`, `i2` of the index in ascending order of
/// their items, by at most three exchanges. Where `i0` and `i2` are the
/// same position, only the first two are put in order.
pub fn isortthree<T: PartialOrd + Copy>(s: &[T], idx: &mut [usize], i0: usize, i1: usize, i2: usize)
    requires
        total_order::<T>(),
        i0 < old(idx)@.len(),
        i1 < old(idx)@.len(),
        i2 < old(idx)@.len(),
        in_range(old(idx)@, s@.len() as int),
    ensures
        final(idx)@.len() == old(idx)@.len(),
        forall|k: int|
            0 <= k < old(idx)@.len() && k != i0 && k != i1 && k != i2 ==> final(idx)@[k]
                == old(idx)@[k],
        final(idx)@.to_multiset() == old(idx)@.to_multiset(),
        le(s@[final(idx)@[i0 as int] as int], s@[final(idx)@[i1 as int] as int]),
        i0 != i2 ==> le(s@[final(idx)@[i1 as int] as int], s@[final(idx)@[i2 as int] as int]),
        in_range(final(idx)@, s@.len() as int),
{
    let ghost n = idx@.len() as int;
    let ghost a = idx@;
    let _ = isorttwo(s, idx, i0, i1);
    let ghost b = idx@;
    let second = isorttwo(s, idx, i1, i2);
    let ghost c = idx@;
    if second {
        let _ = isorttwo(s, idx, i0, i1);
    }
    proof {
        let d = idx@;
        lemma_swapped_rearranges(a, i0 as int, i1 as int, 0, n);
        lemma_swapped_rearranges(b, i1 as int, i2 as int, 0, n);
        lemma_swapped_rearranges(c, i0 as int, i1 as int, 0, n);
        assert(a.subrange(0, n) =~= a && b.subrange(0, n) =~= b && c.subrange(0, n) =~= c
            && d.subrange(0, n) =~= d);
        assert(swapped(a, i0 as int, i1 as int).subrange(0, n) =~= swapped(a, i0 as int, i1 as int));
        assert(swapped(b, i1 as int, i2 as int).subrange(0, n) =~= swapped(b, i1 as int, i2 as int));
        assert(swapped(c, i0 as int, i1 as int).subrange(0, n) =~= swapped(c, i0 as int, i1 as int));
        // The largest of the three is at `i2` after the second step.
        let x0 = s@[b[i0 as int] as int];
        let x1 = s@[b[i1 as int] as int];
        let x2 = s@[b[i2 as int] as int];
        lemma_trichotomy(x1, x2);
        lemma_trichotomy(x2, x1);
        lemma_transitive(x0, x1, x2);
        lemma_trichotomy(s@[c[i0 as int] as int], s@[c[i1 as int] as int]);
        lemma_transitive(s@[c[i0 as int] as int], s@[c[i1 as int] as int], s@[c[i2 as int] as int]);
        lemma_transitive(x2, x1, x1);
        lemma_reflexive(x1);
    }
}

/// Puts the `n` entries of the index from position `lo` in ascending order
/// of their items, by insertion.
pub fn isort_segment<T: PartialOrd + Copy>(s: &[T], idx: &mut [usize], lo: usize, n: usize)
    requires
        total_order::<T>(),
        lo + n <= old(idx)@.len(),
        in_range(old(idx)@, s@.len() as int),
    ensures
        rearranges(old(idx)@, final(idx)@, lo as int, lo + n),
        ascending(listed(s@, final(idx)@, lo as int, lo + n)),
        in_range(final(idx)@, s@.len() as int),
{
    let len = idx.len();
    let hi: usize = lo + n;
    if n < 2 {
        return;
    }
    let mut p: usize = lo + 1;
    while p < hi
        invariant
            total_order::<T>(),
            lo < p <= hi,
            hi == lo + n,
            hi <= idx@.len(),
            idx@.len() == old(idx)@.len(),
            in_range(idx@, s@.len() as int),
            rearranges(old(idx)@, idx@, lo as int, hi as int),
            forall|a: int, b: int|
                lo <= a < b < p ==> le(s@[#[trigger] idx@[a] as int], s@[#[trigger] idx@[b] as int]),
        decreases hi - p,
    {
        let mut j: usize = p;
        while j > lo && s[idx[j - 1]] > s[idx[j]]
            invariant
                total_order::<T>(),
                lo <= j <= p < hi,
                hi <= idx@.len(),
                idx@.len() == old(idx)@.len(),
                in_range(idx@, s@.len() as int),
                rearranges(old(idx)@, idx@, lo as int, hi as int),
                forall|a: int, b: int|
                    lo <= a < b <= p && a != j && b != j ==> le(
                        s@[#[trigger] idx@[a] as int],
                        s@[#[trigger] idx@[b] as int],
                    ),
                forall|b: int|
                    j < b <= p ==> le(s@[idx@[j as int] as int], s@[#[trigger] idx@[b] as int]),
            decreases j,
        {
            let ghost before = idx@;
            proof {
                lemma_trichotomy(s@[before[j - 1] as int], s@[before[j as int] as int]);
                lemma_swapped_rearranges(before, j - 1, j as int, lo as int, hi as int);
                lemma_rearranges_twice(
                    old(idx)@,
                    before,
                    swapped(before, j - 1, j as int),
                    lo as int,
                    hi as int,
                );
            }
            swap_entries(idx, j - 1, j);
            j -= 1;
            proof {
                assert forall|a: int, b: int| lo <= a < b <= p && a != j && b != j implies le(
                    s@[#[trigger] idx@[a] as int],
                    s@[#[trigger] idx@[b] as int],
                ) by {
                    if b == j + 1 {
                        assert(idx@[b] == before[j as int]);
                        assert(idx@[a] == before[a]);
                        assert(le(s@[before[a] as int], s@[before[j as int] as int]));
                    } else if a == j + 1 {
                        assert(idx@[a] == before[j as int]);
                        assert(idx@[b] == before[b]);
                        assert(le(s@[before[j as int] as int], s@[before[b] as int]));
                    } else {
                        assert(idx@[a] == before[a] && idx@[b] == before[b]);
                    }
                }
                assert forall|b: int| j < b <= p implies le(
                    s@[idx@[j as int] as int],
                    s@[#[trigger] idx@[b] as int],
                ) by {
                    if b == j + 1 {
                        assert(idx@[b] == before[j as int]);
                    } else {
                        assert(idx@[b] == before[b]);
                        assert(le(s@[before[j + 1] as int], s@[before[b] as int]));
                    }
                }
            }
        }
        proof {
            if j > lo {
                lemma_trichotomy(s@[idx@[j - 1] as int], s@[idx@[j as int] as int]);
            }
            assert forall|a: int, b: int| lo <= a < b < p + 1 implies le(
                s@[#[trigger] idx@[a] as int],
                s@[#[trigger] idx@[b] as int],
            ) by {
                if a == j {
                } else if b == j {
                    if a < j - 1 {
                        assert(le(s@[idx@[a] as int], s@[idx@[j - 1] as int]));
                        lemma_transitive(
                            s@[idx@[a] as int],
                            s@[idx@[j - 1] as int],
                            s@[idx@[j as int] as int],
                        );
                    }
                } else {
                }
            }
        }
        p += 1;
    }
    assert forall|a: int, b: int| 0 <= a < b < n implies le(
        #[trigger] listed(s@, idx@, lo as int, lo + n)[a],
        #[trigger] listed(s@, idx@, lo as int, lo + n)[b],
    ) by {
        assert(le(s@[idx@[lo + a] as int], s@[idx@[lo + b] as int]));
    }
}

} // verus!
