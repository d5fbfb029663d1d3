//! The operations on slices as methods.
//!
//! Every method stands for the function of the same purpose elsewhere in
//! the crate, and promises what that function promises.

use vstd::prelude::*;
use core::ops::Range;
use crate::extrema;
use crate::hashsort;
use crate::indices;
use crate::isort;
use crate::lookup;
use crate::mergesort;
use crate::order;
use crate::rearrange;
use crate::search;
use crate::sets;
use crate::extrema::{is_first_max, is_first_min, MinMax};
use crate::hashsort::{ordered_by_key, projects};
use crate::indices::{complement, gather, in_range, is_permutation, listed};
use crate::lookup::{count_of, run_of};
use crate::mergesort::{is_sort_index, merged, ranks, shifted, sort_index, sorted};
use crate::order::{
    after, ascending, before, beside, decides_equality, descending, gt, le, same, total_order,
};
use crate::rearrange::swapped;
use crate::sets::{
    difference_of, intersection_of, merge_of, positions_where, union_of, without_repeats,
};

verus! {

/// The part of `rng` that lies within a sequence of `len` items.
pub open spec fn within(rng: Range<usize>, len: nat) -> (int, int) {
    let start = if rng.start < len {
        rng.start as int
    } else {
        len as int
    };
    let end = if rng.end < len {
        rng.end as int
    } else {
        len as int
    };
    if start < end {
        (start, end)
    } else {
        (start, start)
    }
}

/// Searching, ordering and combining the items of a slice.
pub trait Vecops<'a, T> {
    /// The items of the slice.
    spec fn items(self) -> Seq<T>;

    /// Copies of the items behind the references that lie within `rng`.
    fn deref_vec(v: &[&T], rng: Range<usize>) -> (r: Vec<T>) where T: Copy
        ensures
            r@.len() == within(rng, v@.len()).1 - within(rng, v@.len()).0,
            forall|k: int| 0 <= k < r@.len() ==> #[trigger] r@[k]
                == *v@[within(rng, v@.len()).0 + k],
    ;

    /// References to the items that lie within `rng`.
    fn ref_vec(self, rng: Range<usize>) -> (r: Vec<&'a T>)
        ensures
            r@.len() == within(rng, self.items().len()).1 - within(rng, self.items().len()).0,
            forall|k: int|
                0 <= k < r@.len() ==> *(#[trigger] r@[k]) == self.items()[within(
                    rng,
                    self.items().len(),
                ).0 + k],
    ;

    /// Position of the first item that is the same as `m` or, with
    /// `forward` false, of the last.
    fn member(self, m: T, forward: bool) -> (r: Option<usize>) where T: PartialEq + Copy
        requires
            decides_equality::<T>(),
        ensures
            match r {
                Some(i) => {
                    &&& i < self.items().len()
                    &&& same(self.items()[i as int], m)
                    &&& forward ==> forall|j: int|
                        0 <= j < i ==> !same(#[trigger] self.items()[j], m)
                    &&& !forward ==> forall|j: int|
                        i < j < self.items().len() ==> !same(#[trigger] self.items()[j], m)
                },
                None => forall|j: int|
                    0 <= j < self.items().len() ==> !same(#[trigger] self.items()[j], m),
            },
    ;

    /// Sorts the `n` entries of `idx` from position `i` by the keys of the
    /// items that they list. No item of the slice has a key outside
    /// `min..=max`.
    fn hashsortslice<F: Fn(&T) -> u64>(
        self,
        idx: &mut [usize],
        i: usize,
        n: usize,
        min: u64,
        max: u64,
        quantify: F,
    )
        requires
            i + n <= old(idx)@.len(),
            in_range(old(idx)@, self.items().len() as int),
            projects(quantify, self.items()),
            hashsort::encloses(quantify, self.items(), min, max),
        ensures
            rearrange::rearranges(old(idx)@, final(idx)@, i as int, i + n),
            in_range(final(idx)@, self.items().len() as int),
            ordered_by_key(quantify, listed(self.items(), final(idx)@, i as int, i + n), false),
    ;

    /// The largest item.
    fn maxt(self) -> (m: T) where T: PartialOrd + Copy
        requires
            total_order::<T>(),
            self.items().len() > 0,
        ensures
            exists|k: int| is_first_max(self.items(), 0, self.items().len() as int, k) && m
                == self.items()[k],
    ;

    /// The smallest item.
    fn mint(self) -> (m: T) where T: PartialOrd + Copy
        requires
            total_order::<T>(),
            self.items().len() > 0,
        ensures
            exists|k: int| is_first_min(self.items(), 0, self.items().len() as int, k) && m
                == self.items()[k],
    ;

    /// The smallest and the largest item.
    fn minmaxt(self) -> (r: (T, T)) where T: PartialOrd + Copy
        requires
            total_order::<T>(),
            self.items().len() > 0,
        ensures
            exists|k: int| is_first_min(self.items(), 0, self.items().len() as int, k) && r.0
                == self.items()[k],
            exists|k: int| is_first_max(self.items(), 0, self.items().len() as int, k) && r.1
                == self.items()[k],
    ;

    /// The smallest and the largest item, each with the position of its first
    /// occurrence.
    fn minmax(self) -> (r: MinMax<T>) where T: PartialOrd + Copy
        requires
            total_order::<T>(),
            self.items().len() > 0,
        ensures
            is_first_min(self.items(), 0, self.items().len() as int, r.minindex as int),
            is_first_max(self.items(), 0, self.items().len() as int, r.maxindex as int),
            r.min == self.items()[r.minindex as int],
            r.max == self.items()[r.maxindex as int],
    ;

    /// The smallest and the largest of the `n` items from position `i`.
    fn minmax_slice(self, i: usize, n: usize) -> (r: MinMax<T>) where T: PartialOrd + Copy
        requires
            total_order::<T>(),
            n > 0,
            i + n <= self.items().len(),
        ensures
            is_first_min(self.items(), i as int, i + n, r.minindex as int),
            is_first_max(self.items(), i as int, i + n, r.maxindex as int),
            r.min == self.items()[r.minindex as int],
            r.max == self.items()[r.maxindex as int],
    ;

    /// The smallest and the largest of the items that `idx` lists at its `n`
    /// positions from `i`; the positions reported are positions of `idx`.
    fn minmax_indexed(
        self,
        idx: &[usize],
        i: usize,
        n: usize,
    ) -> (r: MinMax<T>) where T: PartialOrd + Copy
        requires
            total_order::<T>(),
            n > 0,
            i + n <= idx@.len(),
            in_range(idx@, self.items().len() as int),
        ensures
            i <= r.minindex < i + n,
            i <= r.maxindex < i + n,
            is_first_min(listed(self.items(), idx@, i as int, i + n), 0, n as int, r.minindex - i),
            is_first_max(listed(self.items(), idx@, i as int, i + n), 0, n as int, r.maxindex - i),
            r.min == self.items()[idx@[r.minindex as int] as int],
            r.max == self.items()[idx@[r.maxindex as int] as int],
    ;

    /// A reversed copy.
    fn revs(self) -> (r: Vec<T>) where T: Copy
        ensures
            r@ == self.items().reverse(),
    ;

    /// A copy in which no item is the same as the one before it.
    fn sansrepeat(self) -> (r: Vec<T>) where T: PartialEq + Copy
        requires
            decides_equality::<T>(),
        ensures
            r@ == without_repeats(self.items()),
    ;

    /// How many items order neither before nor after `val`.
    fn occurs(self, val: T) -> (count: usize) where T: PartialOrd + Copy
        requires
            total_order::<T>(),
        ensures
            count == count_of(self.items(), val),
    ;

    /// The concatenation with `v`.
    fn unite_unsorted(self, v: &[T]) -> (r: Vec<T>) where T: Copy
        ensures
            r@ == self.items() + v@,
    ;

    /// Union with `v2`, both ascending when read through their indices.
    fn unite_indexed(
        self,
        ix1: &[usize],
        v2: &[T],
        ix2: &[usize],
    ) -> (r: Vec<T>) where T: PartialOrd + Copy
        requires
            total_order::<T>(),
            in_range(ix1@, self.items().len() as int),
            in_range(ix2@, v2@.len() as int),
        ensures
            r@ == union_of(gather(ix1@, self.items()), gather(ix2@, v2@)),
            ascending(gather(ix1@, self.items())) && ascending(gather(ix2@, v2@)) ==> ascending(r@),
    ;

    /// Intersection with `v2`, both ascending.
    fn intersect(self, v2: &[T]) -> (r: Vec<T>) where T: PartialOrd + Copy
        requires
            total_order::<T>(),
        ensures
            r@ == intersection_of(self.items(), v2@),
            r@.to_multiset().subset_of(self.items().to_multiset()),
            ascending(self.items()) ==> ascending(r@),
    ;

    /// Intersection with `v2`, both ascending when read through their indices.
    fn intersect_indexed(
        self,
        ix1: &[usize],
        v2: &[T],
        ix2: &[usize],
    ) -> (r: Vec<T>) where T: PartialOrd + Copy
        requires
            total_order::<T>(),
            in_range(ix1@, self.items().len() as int),
            in_range(ix2@, v2@.len() as int),
        ensures
            r@ == intersection_of(gather(ix1@, self.items()), gather(ix2@, v2@)),
            r@.to_multiset().subset_of(gather(ix1@, self.items()).to_multiset()),
            ascending(gather(ix1@, self.items())) ==> ascending(r@),
    ;

    /// The items that are left when those of `v2` are removed, both ascending.
    fn diff(self, v2: &[T]) -> (r: Vec<T>) where T: PartialOrd + Copy
        requires
            total_order::<T>(),
        ensures
            r@ == difference_of(self.items(), v2@),
            r@.to_multiset().subset_of(self.items().to_multiset()),
            ascending(self.items()) ==> ascending(r@),
    ;

    /// The items that are left when those of `v2` are removed, both ascending
    /// when read through their indices.
    fn diff_indexed(
        self,
        ix1: &[usize],
        v2: &[T],
        ix2: &[usize],
    ) -> (r: Vec<T>) where T: PartialOrd + Copy
        requires
            total_order::<T>(),
            in_range(ix1@, self.items().len() as int),
            in_range(ix2@, v2@.len() as int),
        ensures
            r@ == difference_of(gather(ix1@, self.items()), gather(ix2@, v2@)),
            r@.to_multiset().subset_of(gather(ix1@, self.items()).to_multiset()),
            ascending(gather(ix1@, self.items())) ==> ascending(r@),
    ;

    /// The items before, beside and after the pivot, each group in the order
    /// of the items.
    fn partition(self, pivot: T) -> (r: (Vec<T>, Vec<T>, Vec<T>)) where T: PartialOrd + Copy
        requires
            total_order::<T>(),
        ensures
            r.0@ == self.items().filter(before(pivot)),
            r.1@ == self.items().filter(beside(pivot)),
            r.2@ == self.items().filter(after(pivot)),
    ;

    /// The positions of the items before, beside and after the pivot.
    fn partition_indexed(
        self,
        pivot: T,
    ) -> (r: (Vec<usize>, Vec<usize>, Vec<usize>)) where T: PartialOrd + Copy
        requires
            total_order::<T>(),
        ensures
            r.0@ == positions_where(self.items(), before(pivot)),
            r.1@ == positions_where(self.items(), beside(pivot)),
            r.2@ == positions_where(self.items(), after(pivot)),
    ;

    /// The run of all items that compare equal to `target`, by binary search
    /// of monotonic data, ascending or descending.
    fn binsearch(self, target: &T) -> (r: Range<usize>) where T: PartialOrd + Copy
        requires
            total_order::<T>(),
        ensures
            r.start <= r.end <= self.items().len(),
            ascending(self.items()) ==> run_of(self.items(), *target, r.start, r.end, false),
            descending(self.items()) && !ascending(self.items())
                ==> run_of(self.items(), *target, r.start, r.end, true),
    ;

    /// The run of all positions of `idx` whose items compare equal to
    /// `target`, by binary search of data that is monotonic when read through
    /// `idx`.
    fn binsearch_indexed(
        self,
        idx: &[usize],
        target: &T,
    ) -> (r: Range<usize>) where T: PartialOrd + Copy
        requires
            total_order::<T>(),
            in_range(idx@, self.items().len() as int),
        ensures
            r.start <= r.end <= idx@.len(),
            ascending(gather(idx@, self.items()))
                ==> run_of(gather(idx@, self.items()), *target, r.start, r.end, false),
            descending(gather(idx@, self.items())) && !ascending(gather(idx@, self.items()))
                ==> run_of(
                gather(idx@, self.items()),
                *target,
                r.start,
                r.end,
                true,
            ),
    ;

    /// Merge with `v2`, both ascending.
    fn merge(self, v2: &[T]) -> (r: Vec<T>) where T: PartialOrd + Copy
        requires
            total_order::<T>(),
        ensures
            r@ == merge_of(self.items(), v2@),
            r@.len() == self.items().len() + v2@.len(),
            r@.to_multiset() == self.items().to_multiset().add(v2@.to_multiset()),
            ascending(self.items()) && ascending(v2@) ==> ascending(r@),
    ;

    /// The concatenation with `v2`, and the merge of the two sort indices into
    /// an index of the concatenation.
    fn merge_indexed(
        self,
        idx1: &[usize],
        v2: &[T],
        idx2: &[usize],
    ) -> (r: (Vec<T>, Vec<usize>)) where T: PartialOrd + Copy
        requires
            total_order::<T>(),
            in_range(idx1@, self.items().len() as int),
            in_range(idx2@, v2@.len() as int),
            self.items().len() + v2@.len() <= usize::MAX,
        ensures
            r.0@ == self.items() + v2@,
            r.1@ == merged(r.0@, idx1@, shifted(idx2@, self.items().len() as int)),
            is_sort_index(self.items(), idx1@, 0, self.items().len() as int) && is_sort_index(
                v2@,
                idx2@,
                0,
                v2@.len() as int,
            ) ==> is_sort_index(r.0@, r.1@, 0, (self.items().len() + v2@.len()) as int),
    ;

    /// The stable merge of two indices into the data.
    fn merge_indices(
        self,
        idx1: &[usize],
        idx2: &[usize],
    ) -> (r: Vec<usize>) where T: PartialOrd + Copy
        requires
            total_order::<T>(),
            in_range(idx1@, self.items().len() as int),
            in_range(idx2@, self.items().len() as int),
        ensures
            r@ == merged(self.items(), idx1@, idx2@),
    ;

    /// The stable sort index.
    fn mergesort_indexed(self) -> (r: Vec<usize>) where T: PartialOrd + Copy
        requires
            total_order::<T>(),
        ensures
            r@ == sort_index(self.items()),
            is_sort_index(self.items(), r@, 0, self.items().len() as int),
            is_permutation(r@),
    ;

    /// The stable sort index of the `n` items from position `i`.
    fn mergesortslice(self, i: usize, n: usize) -> (r: Vec<usize>) where T: PartialOrd + Copy
        requires
            total_order::<T>(),
            i + n <= self.items().len(),
        ensures
            is_sort_index(self.items(), r@, i as int, n as int),
    ;

    /// A sorted copy, ascending or descending.
    fn sortm(self, ascending: bool) -> (r: Vec<T>) where T: PartialOrd + Copy
        requires
            total_order::<T>(),
        ensures
            r@ == if ascending {
                sorted(self.items())
            } else {
                sorted(self.items()).reverse()
            },
            r@.to_multiset() == self.items().to_multiset(),
            ascending ==> order::ascending(r@),
            !ascending ==> order::descending(r@),
    ;

    /// The ranks of the items, ascending or descending.
    fn rank(self, ascending: bool) -> (r: Vec<usize>) where T: PartialOrd + Copy
        requires
            total_order::<T>(),
        ensures
            r@ == if ascending {
                ranks(self.items())
            } else {
                complement(ranks(self.items()))
            },
            is_permutation(r@),
    ;

    /// Exchanges two entries of `idx` where their items are out of ascending
    /// order, and says whether it did.
    fn isorttwo(
        self,
        idx: &mut [usize],
        i0: usize,
        i1: usize,
    ) -> (did: bool) where T: PartialOrd + Copy
        requires
            total_order::<T>(),
            i0 < old(idx)@.len(),
            i1 < old(idx)@.len(),
            in_range(old(idx)@, self.items().len() as int),
        ensures
            did == gt(self.items()[old(idx)@[i0 as int] as int], self.items()[old(idx)@[i1 as int] as int]),
            final(idx)@ == if did {
                swapped(old(idx)@, i0 as int, i1 as int)
            } else {
                old(idx)@
            },
            le(self.items()[final(idx)@[i0 as int] as int], self.items()[final(idx)@[i1 as int] as int]),
            in_range(final(idx)@, self.items().len() as int),
    ;

    /// Puts three entries of `idx` in ascending order of their items.
    fn isortthree(
        self,
        idx: &mut [usize],
        i0: usize,
        i1: usize,
        i2: usize,
    ) where T: PartialOrd + Copy
        requires
            total_order::<T>(),
            i0 < old(idx)@.len(),
            i1 < old(idx)@.len(),
            i2 < old(idx)@.len(),
            in_range(old(idx)@, self.items().len() as int),
        ensures
            final(idx)@.len() == old(idx)@.len(),
            forall|k: int|
                0 <= k < old(idx)@.len() && k != i0 && k != i1 && k != i2 ==> final(idx)@[k]
                    == old(idx)@[k],
            final(idx)@.to_multiset() == old(idx)@.to_multiset(),
            le(self.items()[final(idx)@[i0 as int] as int], self.items()[final(idx)@[i1 as int] as int]),
            i0 != i2 ==> le(self.items()[final(idx)@[i1 as int] as int], self.items()[final(idx)@[i2 as int] as int]),
            in_range(final(idx)@, self.items().len() as int),
    ;

    /// The sort index by key.
    fn hashsort_indexed<F: Fn(&T) -> u64>(self, quantify: F) -> (idx: Vec<usize>)
        requires
            projects(quantify, self.items()),
        ensures
            idx@.len() == self.items().len(),
            is_permutation(idx@),
            ordered_by_key(quantify, gather(idx@, self.items()), false),
    ;

    /// A copy sorted by key, ascending or descending.
    fn sorth<F: Fn(&T) -> u64>(self, quantify: F, ascending: bool) -> (r: Vec<T>) where T: Copy
        requires
            projects(quantify, self.items()),
        ensures
            r@.to_multiset() == self.items().to_multiset(),
            ordered_by_key(quantify, r@, !ascending),
    ;

    /// The sort index by key, ascending or descending.
    fn keyindex<F: Fn(&T) -> u64>(self, keyfn: F, ascending: bool) -> (idx: Vec<usize>)
        requires
            projects(keyfn, self.items()),
        ensures
            idx@.len() == self.items().len(),
            is_permutation(idx@),
            ordered_by_key(keyfn, gather(idx@, self.items()), !ascending),
    ;
}

impl<'a, T> Vecops<'a, T> for &'a [T] {
    open spec fn items(self) -> Seq<T> {
        self@
    }

    fn deref_vec(v: &[&T], rng: Range<usize>) -> (r: Vec<T>) where T: Copy {
        let len = v.len();
        let start = if rng.start < len {
            rng.start
        } else {
            len
        };
        let end = if rng.end < len {
            rng.end
        } else {
            len
        };
        let end = if start < end {
            end
        } else {
            start
        };
        let mut r: Vec<T> = Vec::new();
        let mut i: usize = start;
        while i < end
            invariant
                start <= i <= end <= v@.len(),
                r@.len() == i - start,
                forall|k: int| 0 <= k < i - start ==> #[trigger] r@[k] == *v@[start + k],
            decreases end - i,
        {
            r.push(*v[i]);
            i += 1;
        }
        r
    }

    fn ref_vec(self, rng: Range<usize>) -> (r: Vec<&'a T>) {
        let len = self.len();
        let start = if rng.start < len {
            rng.start
        } else {
            len
        };
        let end = if rng.end < len {
            rng.end
        } else {
            len
        };
        let end = if start < end {
            end
        } else {
            start
        };
        let mut r: Vec<&'a T> = Vec::new();
        let mut i: usize = start;
        while i < end
            invariant
                start <= i <= end <= self@.len(),
                r@.len() == i - start,
                forall|k: int| 0 <= k < i - start ==> *(#[trigger] r@[k]) == self@[start + k],
            decreases end - i,
        {
            r.push(&self[i]);
            i += 1;
        }
        r
    }

    fn member(self, m: T, forward: bool) -> (r: Option<usize>) where T: PartialEq + Copy {
        let n = self.len();
        if forward {
            let mut i: usize = 0;
            while i < n
                invariant
                    decides_equality::<T>(),
                    forward,
                    i <= n,
                    n == self@.len(),
                    forall|j: int| 0 <= j < i ==> !same(#[trigger] self@[j], m),
                decreases n - i,
            {
                let found = self[i] == m;
                if found {
                    return Some(i);
                }
                i += 1;
            }
            None
        } else {
            let mut i: usize = n;
            while i > 0
                invariant
                    decides_equality::<T>(),
                    !forward,
                    i <= n,
                    n == self@.len(),
                    forall|j: int| i <= j < n ==> !same(#[trigger] self@[j], m),
                decreases i,
            {
                i -= 1;
                let found = self[i] == m;
                if found {
                    return Some(i);
                }
            }
            None
        }
    }

    fn hashsortslice<F: Fn(&T) -> u64>(
        self,
        idx: &mut [usize],
        i: usize,
        n: usize,
        min: u64,
        max: u64,
        quantify: F,
    ) {
        hashsort::hashsort_listed(self, idx, i, n, min, max, quantify)
    }

    fn maxt(self) -> (m: T) where T: PartialOrd + Copy {
        extrema::maxt(self)
    }

    fn mint(self) -> (m: T) where T: PartialOrd + Copy {
        extrema::mint(self)
    }

    fn minmaxt(self) -> (r: (T, T)) where T: PartialOrd + Copy {
        extrema::minmaxt(self)
    }

    fn minmax(self) -> (r: MinMax<T>) where T: PartialOrd + Copy {
        extrema::minmax(self)
    }

    fn minmax_slice(self, i: usize, n: usize) -> (r: MinMax<T>) where T: PartialOrd + Copy {
        extrema::minmax_slice(self, i, n)
    }

    fn minmax_indexed(
        self,
        idx: &[usize],
        i: usize,
        n: usize,
    ) -> (r: MinMax<T>) where T: PartialOrd + Copy {
        extrema::minmax_indexed(self, idx, i, n)
    }

    fn revs(self) -> (r: Vec<T>) where T: Copy {
        indices::revs(self)
    }

    fn sansrepeat(self) -> (r: Vec<T>) where T: PartialEq + Copy {
        sets::sansrepeat(self)
    }

    fn occurs(self, val: T) -> (count: usize) where T: PartialOrd + Copy {
        lookup::occurs(self, val)
    }

    fn unite_unsorted(self, v: &[T]) -> (r: Vec<T>) where T: Copy {
        sets::unite_unsorted(self, v)
    }

    fn unite_indexed(
        self,
        ix1: &[usize],
        v2: &[T],
        ix2: &[usize],
    ) -> (r: Vec<T>) where T: PartialOrd + Copy {
        sets::unite_indexed(self, ix1, v2, ix2)
    }

    fn intersect(self, v2: &[T]) -> (r: Vec<T>) where T: PartialOrd + Copy {
        sets::intersect(self, v2)
    }

    fn intersect_indexed(
        self,
        ix1: &[usize],
        v2: &[T],
        ix2: &[usize],
    ) -> (r: Vec<T>) where T: PartialOrd + Copy {
        sets::intersect_indexed(self, ix1, v2, ix2)
    }

    fn diff(self, v2: &[T]) -> (r: Vec<T>) where T: PartialOrd + Copy {
        sets::diff(self, v2)
    }

    fn diff_indexed(
        self,
        ix1: &[usize],
        v2: &[T],
        ix2: &[usize],
    ) -> (r: Vec<T>) where T: PartialOrd + Copy {
        sets::diff_indexed(self, ix1, v2, ix2)
    }

    fn partition(self, pivot: T) -> (r: (Vec<T>, Vec<T>, Vec<T>)) where T: PartialOrd + Copy {
        sets::partition(self, pivot)
    }

    fn partition_indexed(
        self,
        pivot: T,
    ) -> (r: (Vec<usize>, Vec<usize>, Vec<usize>)) where T: PartialOrd + Copy {
        sets::partition_indexed(self, pivot)
    }

    fn binsearch(self, target: &T) -> (r: Range<usize>) where T: PartialOrd + Copy {
        search::equal_range(self, *target)
    }

    fn binsearch_indexed(
        self,
        idx: &[usize],
        target: &T,
    ) -> (r: Range<usize>) where T: PartialOrd + Copy {
        search::equal_range_indexed(self, idx, *target)
    }

    fn merge(self, v2: &[T]) -> (r: Vec<T>) where T: PartialOrd + Copy {
        sets::merge(self, v2)
    }

    fn merge_indexed(
        self,
        idx1: &[usize],
        v2: &[T],
        idx2: &[usize],
    ) -> (r: (Vec<T>, Vec<usize>)) where T: PartialOrd + Copy {
        mergesort::merge_indexed(self, idx1, v2, idx2)
    }

    fn merge_indices(
        self,
        idx1: &[usize],
        idx2: &[usize],
    ) -> (r: Vec<usize>) where T: PartialOrd + Copy {
        mergesort::merge_indices(self, idx1, idx2)
    }

    fn mergesort_indexed(self) -> (r: Vec<usize>) where T: PartialOrd + Copy {
        mergesort::sortidx(self)
    }

    fn mergesortslice(self, i: usize, n: usize) -> (r: Vec<usize>) where T: PartialOrd + Copy {
        mergesort::mergesort(self, i, n)
    }

    fn sortm(self, ascending: bool) -> (r: Vec<T>) where T: PartialOrd + Copy {
        mergesort::sortm(self, ascending)
    }

    fn rank(self, ascending: bool) -> (r: Vec<usize>) where T: PartialOrd + Copy {
        mergesort::rank(self, ascending)
    }

    fn isorttwo(
        self,
        idx: &mut [usize],
        i0: usize,
        i1: usize,
    ) -> (did: bool) where T: PartialOrd + Copy {
        isort::isorttwo(self, idx, i0, i1)
    }

    fn isortthree(
        self,
        idx: &mut [usize],
        i0: usize,
        i1: usize,
        i2: usize,
    ) where T: PartialOrd + Copy {
        isort::isortthree(self, idx, i0, i1, i2)
    }

    fn hashsort_indexed<F: Fn(&T) -> u64>(self, quantify: F) -> (idx: Vec<usize>) {
        hashsort::hashsort_indexed(self, quantify)
    }

    fn sorth<F: Fn(&T) -> u64>(self, quantify: F, ascending: bool) -> (r: Vec<T>) where T: Copy {
        hashsort::sorth(self, quantify, ascending)
    }

    fn keyindex<F: Fn(&T) -> u64>(self, keyfn: F, ascending: bool) -> (idx: Vec<usize>) {
        hashsort::keyindex(self, keyfn, ascending)
    }
}

} // verus!
