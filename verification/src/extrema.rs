//! Smallest and largest items by one linear scan.
//!
//! Of several items that compare equal, the one that comes first counts:
//! the minimum reported is the first item that no other item orders
//! before, and the maximum the first item that no other item orders after.

use vstd::prelude::*;
use crate::indices::{in_range, listed};
use crate::order::{gt, le, lemma_reflexive, lemma_transitive, lemma_trichotomy, lt, total_order};

verus! {

/// The smallest and the largest item of a sequence, each with the position
/// at which it first occurs.
pub struct MinMax<T> {
    /// The smallest item.
    pub min: T,
    /// Position of the first occurrence of the smallest item.
    pub minindex: usize,
    /// The largest item.
    pub max: T,
    /// Position of the first occurrence of the largest item.
    pub maxindex: usize,
}

impl<T: Default> Default for MinMax<T> {
    /// Default items at position zero.
    fn default() -> (r: Self)
        ensures
            r.minindex == 0,
            r.maxindex == 0,
    {
        MinMax { min: T::default(), minindex: 0, max: T::default(), maxindex: 0 }
    }
}

/// Position `k` holds the first minimum of `s[lo..hi]`: nothing in the
/// range orders before it, and everything ahead of it orders after it.
pub open spec fn is_first_min<T: PartialOrd>(s: Seq<T>, lo: int, hi: int, k: int) -> bool {
    &&& lo <= k < hi
    &&& forall|j: int| lo <= j < hi ==> le(s[k], #[trigger] s[j])
    &&& forall|j: int| lo <= j < k ==> lt(s[k], #[trigger] s[j])
}

/// Position `k` holds the first maximum of `s[lo..hi]`: nothing in the
/// range orders after it, and everything ahead of it orders before it.
pub open spec fn is_first_max<T: PartialOrd>(s: Seq<T>, lo: int, hi: int, k: int) -> bool {
    &&& lo <= k < hi
    &&& forall|j: int| lo <= j < hi ==> le(#[trigger] s[j], s[k])
    &&& forall|j: int| lo <= j < k ==> lt(#[trigger] s[j], s[k])
}

/// Extending a range by one item keeps the first minimum, unless the new
/// item orders before it, and the first maximum, unless the new item orders
/// after it.
proof fn lemma_extend<T: PartialOrd>(s: Seq<T>, lo: int, hi: int, kmin: int, kmax: int)
    requires
        total_order::<T>(),
        0 <= lo < hi < s.len(),
        is_first_min(s, lo, hi, kmin),
        is_first_max(s, lo, hi, kmax),
    ensures
        lt(s[hi], s[kmin]) ==> is_first_min(s, lo, hi + 1, hi),
        !lt(s[hi], s[kmin]) ==> is_first_min(s, lo, hi + 1, kmin),
        gt(s[hi], s[kmax]) ==> is_first_max(s, lo, hi + 1, hi),
        !gt(s[hi], s[kmax]) ==> is_first_max(s, lo, hi + 1, kmax),
{
    let x = s[hi];
    lemma_trichotomy(x, s[kmin]);
    lemma_trichotomy(x, s[kmax]);
    lemma_trichotomy(s[kmin], x);
    lemma_trichotomy(s[kmax], x);
    lemma_reflexive(x);
    assert forall|j: int| lo <= j < hi implies (lt(x, s[kmin]) ==> lt(x, #[trigger] s[j])) && (gt(
        x,
        s[kmax],
    ) ==> lt(s[j], x)) by {
        assert(le(s[kmin], s[j]));
        assert(le(s[j], s[kmax]));
        lemma_transitive(x, s[kmin], s[j]);
        lemma_transitive(s[j], s[kmax], x);
    }
}

/// A range of one item has that item as its first minimum and maximum.
proof fn lemma_single<T: PartialOrd>(s: Seq<T>, lo: int)
    requires
        total_order::<T>(),
        0 <= lo < s.len(),
    ensures
        is_first_min(s, lo, lo + 1, lo),
        is_first_max(s, lo, lo + 1, lo),
{
    lemma_reflexive(s[lo]);
}

/// The smallest and the largest of the `n` items of `s` from position `i`,
/// each with the position of its first occurrence.
pub fn minmax_slice<T: PartialOrd + Copy>(s: &[T], i: usize, n: usize) -> (r: MinMax<T>)
    requires
        total_order::<T>(),
        n > 0,
        i + n <= s@.len(),
    ensures
        is_first_min(s@, i as int, i + n, r.minindex as int),
        is_first_max(s@, i as int, i + n, r.maxindex as int),
        r.min == s@[r.minindex as int],
        r.max == s@[r.maxindex as int],
{
    let len = s.len();
    let mut min = s[i];
    let mut max = min;
    let mut minindex: usize = i;
    let mut maxindex: usize = i;
    let mut j: usize = i + 1;
    let end: usize = i + n;
    proof {
        lemma_single(s@, i as int);
    }
    while j < end
        invariant
            total_order::<T>(),
            i < j <= end,
            end == i + n,
            end <= s@.len(),
            is_first_min(s@, i as int, j as int, minindex as int),
            is_first_max(s@, i as int, j as int, maxindex as int),
            min == s@[minindex as int],
            max == s@[maxindex as int],
        decreases end - j,
    {
        let x = s[j];
        proof {
            lemma_extend(s@, i as int, j as int, minindex as int, maxindex as int);
            lemma_trichotomy(x, min);
            lemma_trichotomy(x, max);
            lemma_transitive(x, min, max);
            assert(le(min, s@[maxindex as int]));
        }
        if x < min {
            min = x;
            minindex = j;
        } else if x > max {
            max = x;
            maxindex = j;
        }
        j += 1;
    }
    MinMax { min, minindex, max, maxindex }
}

/// The smallest and the largest item of a slice, each with the position of
/// its first occurrence.
pub fn minmax<T: PartialOrd + Copy>(v: &[T]) -> (r: MinMax<T>)
    requires
        total_order::<T>(),
        v@.len() > 0,
    ensures
        is_first_min(v@, 0, v@.len() as int, r.minindex as int),
        is_first_max(v@, 0, v@.len() as int, r.maxindex as int),
        r.min == v@[r.minindex as int],
        r.max == v@[r.maxindex as int],
{
    minmax_slice(v, 0, v.len())
}

/// The smallest and the largest item of a slice.
pub fn minmaxt<T: PartialOrd + Copy>(v: &[T]) -> (r: (T, T))
    requires
        total_order::<T>(),
        v@.len() > 0,
    ensures
        exists|k: int| is_first_min(v@, 0, v@.len() as int, k) && r.0 == v@[k],
        exists|k: int| is_first_max(v@, 0, v@.len() as int, k) && r.1 == v@[k],
{
    let m = minmax_slice(v, 0, v.len());
    (m.min, m.max)
}

/// The largest item of a slice.
pub fn maxt<T: PartialOrd + Copy>(v: &[T]) -> (m: T)
    requires
        total_order::<T>(),
        v@.len() > 0,
    ensures
        exists|k: int| is_first_max(v@, 0, v@.len() as int, k) && m == v@[k],
{
    let m = minmax_slice(v, 0, v.len());
    m.max
}

/// The smallest item of a slice.
pub fn mint<T: PartialOrd + Copy>(v: &[T]) -> (m: T)
    requires
        total_order::<T>(),
        v@.len() > 0,
    ensures
        exists|k: int| is_first_min(v@, 0, v@.len() as int, k) && m == v@[k],
{
    let m = minmax_slice(v, 0, v.len());
    m.min
}

/// The smallest and the largest of the items of `s` that `idx` lists at
/// its `n` positions from `i`. The positions reported are positions of
/// `idx`, each the first at which the item occurs.
pub fn minmax_indexed<T: PartialOrd + Copy>(s: &[T], idx: &[usize], i: usize, n: usize) -> (r:
    MinMax<T>)
    requires
        total_order::<T>(),
        n > 0,
        i + n <= idx@.len(),
        in_range(idx@, s@.len() as int),
    ensures
        i <= r.minindex < i + n,
        i <= r.maxindex < i + n,
        is_first_min(listed(s@, idx@, i as int, i + n), 0, n as int, r.minindex - i),
        is_first_max(listed(s@, idx@, i as int, i + n), 0, n as int, r.maxindex - i),
        r.min == s@[idx@[r.minindex as int] as int],
        r.max == s@[idx@[r.maxindex as int] as int],
{
    let ghost data = listed(s@, idx@, i as int, i + n);
    let mut min = s[idx[i]];
    let mut max = min;
    let mut minindex: usize = i;
    let mut maxindex: usize = i;
    let mut j: usize = i + 1;
    let end: usize = i + n;
    proof {
        lemma_single(data, 0);
    }
    while j < end
        invariant
            total_order::<T>(),
            i < j <= end,
            end == i + n,
            end <= idx@.len(),
            in_range(idx@, s@.len() as int),
            data == listed(s@, idx@, i as int, i + n),
            i <= minindex < j,
            i <= maxindex < j,
            is_first_min(data, 0, j - i, minindex - i),
            is_first_max(data, 0, j - i, maxindex - i),
            min == data[minindex - i],
            max == data[maxindex - i],
        decreases end - j,
    {
        let x = s[idx[j]];
        proof {
            assert(x == data[j - i]);
            lemma_extend(data, 0, j - i, minindex - i, maxindex - i);
            lemma_trichotomy(x, min);
            lemma_trichotomy(x, max);
            lemma_transitive(x, min, max);
            assert(le(min, data[maxindex - i]));
        }
        if x < min {
            min = x;
            minindex = j;
        } else if x > max {
            max = x;
            maxindex = j;
        }
        j += 1;
    }
    MinMax { min, minindex, max, maxindex }
}

} // verus!
