//! Rearrangements of a sequence in place.
//!
//! An operation that sorts or partitions in place leaves the items that it
//! found, in another order. This is stated by comparing the items before
//! and after as collections in which every item counts as often as it
//! occurs.

use vstd::prelude::*;
use crate::indices::is_permutation;

verus! {

/// A sequence with its entries at `i` and `j` exchanged.
pub open spec fn swapped<T>(idx: Seq<T>, i: int, j: int) -> Seq<T> {
    idx.update(i, idx[j]).update(j, idx[i])
}

/// `after` holds the entries of `before`, those at the positions `lo..hi`
/// in some other order and all others in place.
pub open spec fn rearranges<T>(before: Seq<T>, after: Seq<T>, lo: int, hi: int) -> bool {
    &&& after.len() == before.len()
    &&& forall|k: int| 0 <= k < before.len() && !(lo <= k < hi) ==> after[k] == before[k]
    &&& after.subrange(lo, hi).to_multiset() == before.subrange(lo, hi).to_multiset()
}

/// Rearranging part of a range rearranges the range.
pub proof fn lemma_rearranges_widen<T>(
    before: Seq<T>,
    after: Seq<T>,
    lo: int,
    hi: int,
    lo0: int,
    hi0: int,
)
    requires
        rearranges(before, after, lo, hi),
        0 <= lo0 <= lo <= hi <= hi0 <= before.len(),
    ensures
        rearranges(before, after, lo0, hi0),
{
    broadcast use vstd::seq_lib::lemma_multiset_commutative;

    let b = before.subrange(lo0, hi0);
    let a = after.subrange(lo0, hi0);
    let bl = before.subrange(lo0, lo);
    let bm = before.subrange(lo, hi);
    let br = before.subrange(hi, hi0);
    let al = after.subrange(lo0, lo);
    let am = after.subrange(lo, hi);
    let ar = after.subrange(hi, hi0);
    assert(b =~= bl + bm + br);
    assert(a =~= al + am + ar);
    assert(al =~= bl);
    assert(ar =~= br);
    assert((bl + bm + br).to_multiset() =~= bl.to_multiset().add(bm.to_multiset()).add(
        br.to_multiset(),
    ));
    assert((al + am + ar).to_multiset() =~= al.to_multiset().add(am.to_multiset()).add(
        ar.to_multiset(),
    ));
}

/// `after` holds the entries of `before`, those at the positions `lo..hi`
/// in some other order and all others in place.
pub open spec fn rearranged<T>(before: Seq<T>, after: Seq<T>, lo: usize, hi: usize) -> bool {
    rearranges(before, after, lo as int, hi as int)
}

/// The entries at the positions `lo..hi` are in the order of `leq`.
pub open spec fn sorted_within<T>(s: Seq<T>, lo: usize, hi: usize, leq: spec_fn(T, T) -> bool) -> bool {
    forall|a: int, b: int| lo <= a < b < hi ==> #[trigger] leq(s[a], s[b])
}

/// `after` is `before` with the entry at `i` taken out and put back at
/// `lo`, the entries between them moving up by one.
pub open spec fn moved_down<T>(before: Seq<T>, after: Seq<T>, lo: usize, i: usize) -> bool {
    &&& after.len() == before.len()
    &&& lo <= i < before.len()
    &&& after[lo as int] == before[i as int]
    &&& forall|j: int| lo < j <= i ==> after[j] == before[j - 1]
    &&& forall|j: int| 0 <= j < before.len() && !(lo <= j <= i) ==> after[j] == before[j]
}

/// Moving an entry of a range down within the range rearranges the range.
pub proof fn lemma_moved_down_rearranges<T>(
    before: Seq<T>,
    after: Seq<T>,
    lo: usize,
    i: usize,
    start: usize,
    end: usize,
)
    requires
        moved_down(before, after, lo, i),
        start <= lo,
        i < end <= before.len(),
    ensures
        rearranged(before, after, start, end),
{
    broadcast use vstd::seq_lib::lemma_multiset_commutative;

    let b = before.subrange(lo as int, i + 1);
    let a = after.subrange(lo as int, i + 1);
    let body = before.subrange(lo as int, i as int);
    let x = seq![before[i as int]];
    assert(b =~= body + x);
    assert(a =~= x + body);
    assert(a.to_multiset() =~= b.to_multiset());
    lemma_rearranges_widen(before, after, lo as int, i + 1, start as int, end as int);
}

/// Moving an entry down to its place in an ordered run keeps the run
/// ordered, and makes it one entry longer.
pub proof fn lemma_moved_down_sorted<T>(
    before: Seq<T>,
    after: Seq<T>,
    start: usize,
    lo: usize,
    i: usize,
    leq: spec_fn(T, T) -> bool,
)
    requires
        moved_down(before, after, lo, i),
        start <= lo,
        i < usize::MAX,
        sorted_within(before, start, i, leq),
        forall|k: int| start <= k < lo ==> leq(before[k], before[i as int]),
        forall|k: int| lo <= k < i ==> leq(before[i as int], before[k]),
    ensures
        sorted_within(after, start, (i + 1) as usize, leq),
{
    assert forall|a: int, b: int| start <= a < b < i + 1 implies #[trigger] leq(
        after[a],
        after[b],
    ) by {
        let a0 = if a < lo { a } else { a - 1 };
        let b0 = if b < lo { b } else { b - 1 };
        if a == lo {
            assert(leq(before[i as int], before[b0]));
        } else if b == lo {
            assert(leq(before[a0], before[i as int]));
        } else {
            assert(leq(before[a0], before[b0]));
        }
    }
}

/// An index that holds the same entries as before, all in place but those
/// of a range, holds the entries of the range in some other order.
pub proof fn lemma_rearranges_from_whole<T>(before: Seq<T>, after: Seq<T>, lo: int, hi: int)
    requires
        after.len() == before.len(),
        0 <= lo <= hi <= before.len(),
        forall|k: int| 0 <= k < before.len() && !(lo <= k < hi) ==> after[k] == before[k],
        after.to_multiset() == before.to_multiset(),
    ensures
        rearranges(before, after, lo, hi),
{
    broadcast use vstd::seq_lib::lemma_multiset_commutative;

    let n = before.len() as int;
    let bl = before.subrange(0, lo);
    let bm = before.subrange(lo, hi);
    let br = before.subrange(hi, n);
    let al = after.subrange(0, lo);
    let am = after.subrange(lo, hi);
    let ar = after.subrange(hi, n);
    assert(before =~= bl + bm + br);
    assert(after =~= al + am + ar);
    assert(al =~= bl);
    assert(ar =~= br);
    assert((bl + bm + br).to_multiset() =~= bl.to_multiset().add(bm.to_multiset()).add(
        br.to_multiset(),
    ));
    assert((al + am + ar).to_multiset() =~= al.to_multiset().add(am.to_multiset()).add(
        ar.to_multiset(),
    ));
    assert forall|v: T| am.to_multiset().count(v) == bm.to_multiset().count(v) by {
        assert(before.to_multiset().count(v) == bl.to_multiset().count(v) + bm.to_multiset().count(
            v,
        ) + br.to_multiset().count(v));
        assert(after.to_multiset().count(v) == al.to_multiset().count(v) + am.to_multiset().count(
            v,
        ) + ar.to_multiset().count(v));
    }
    assert(am.to_multiset() =~= bm.to_multiset());
}

/// Rearranging a rearrangement is a rearrangement.
pub proof fn lemma_rearranges_twice<T>(a: Seq<T>, b: Seq<T>, c: Seq<T>, lo: int, hi: int)
    requires
        rearranges(a, b, lo, hi),
        rearranges(b, c, lo, hi),
    ensures
        rearranges(a, c, lo, hi),
{
}

/// Exchanging two entries of a range rearranges the range.
pub proof fn lemma_swapped_rearranges<T>(idx: Seq<T>, i: int, j: int, lo: int, hi: int)
    requires
        0 <= lo <= i < hi <= idx.len(),
        lo <= j < hi,
    ensures
        rearranges(idx, swapped(idx, i, j), lo, hi),
{
    broadcast use vstd::seq_lib::to_multiset_update;
    broadcast use vstd::seq_lib::group_to_multiset_ensures;

    let seg = idx.subrange(lo, hi);
    let mid = seg.update(i - lo, seg[j - lo]);
    let out = mid.update(j - lo, seg[i - lo]);
    assert(swapped(idx, i, j).subrange(lo, hi) =~= out);
    assert(seg.contains(seg[i - lo]));
    assert(seg.contains(seg[j - lo]));
    assert(mid.to_multiset() == seg.to_multiset().insert(seg[j - lo]).remove(seg[i - lo]));
    assert(mid[j - lo] == seg[j - lo]);
    assert(out.to_multiset() == mid.to_multiset().insert(seg[i - lo]).remove(seg[j - lo]));
    assert(out.to_multiset() =~= seg.to_multiset());
}

/// Every entry in a rearranged range was in the range before.
pub proof fn lemma_rearranges_same_entries<T>(
    before: Seq<T>,
    after: Seq<T>,
    lo: int,
    hi: int,
    k: int,
) -> (k0: int)
    requires
        rearranges(before, after, lo, hi),
        0 <= lo <= k < hi <= before.len(),
    ensures
        lo <= k0 < hi,
        before[k0] == after[k],
{
    broadcast use vstd::seq_lib::group_to_multiset_ensures;

    let a = after.subrange(lo, hi);
    let b = before.subrange(lo, hi);
    assert(a[k - lo] == after[k]);
    assert(a.contains(after[k]));
    assert(b.to_multiset().count(after[k]) > 0);
    assert(b.contains(after[k]));
    let t = choose|t: int| 0 <= t < b.len() && b[t] == after[k];
    lo + t
}

/// A rearrangement of a permutation is a permutation.
pub proof fn lemma_rearranged_permutation(before: Seq<usize>, after: Seq<usize>)
    requires
        is_permutation(before),
        rearranges(before, after, 0, before.len() as int),
    ensures
        is_permutation(after),
{
    broadcast use vstd::seq_lib::group_to_multiset_ensures;

    let n = before.len() as int;
    assert(before.subrange(0, n) =~= before);
    assert(after.subrange(0, n) =~= after);
    assert forall|k: int| 0 <= k < after.len() implies #[trigger] after[k] < after.len() by {
        let k0 = lemma_rearranges_same_entries(before, after, 0, n, k);
        assert(before[k0] < n);
    }
    before.lemma_multiset_has_no_duplicates();
    after.lemma_multiset_has_no_duplicates_conv();
}

} // verus!
