//! Operations that rearrange a slice in place.

use vstd::prelude::*;
use vstd::std_specs::convert::FromSpec;
use core::cmp::Ordering;
use core::ops::Range;
use crate::comparator::{compares_all, decides, mutisort, part};
use crate::hashsort::{encloses, muthashsort, muthashsortslice, ordered_by_key, projects};
use crate::order::{gt, le, lemma_reflexive, lemma_transitive, lemma_trichotomy, total_order};
use crate::parting::parted;
use crate::rearrange::{
    lemma_rearranges_twice, lemma_swapped_rearranges, rearranged, rearranges, sorted_within,
    swapped,
};

verus! {

/// Exchanges two items of a slice.
pub fn swap_items<T: Copy>(s: &mut [T], i: usize, j: usize)
    requires
        i < old(s)@.len(),
        j < old(s)@.len(),
    ensures
        final(s)@ == swapped(old(s)@, i as int, j as int),
{
    let a = s[i];
    let b = s[j];
    s[i] = b;
    s[j] = a;
}

/// Reverses a slice in place.
pub fn mutrevs<T: Copy>(s: &mut [T])
    ensures
        final(s)@ == old(s)@.reverse(),
{
    let n = s.len();
    let mut i: usize = 0;
    while i < n / 2
        invariant
            n == s@.len(),
            n == old(s)@.len(),
            i <= n / 2,
            forall|k: int| 0 <= k < i ==> s@[k] == old(s)@[n - 1 - k],
            forall|k: int| n - i <= k < n ==> s@[k] == old(s)@[n - 1 - k],
            forall|k: int| i <= k < n - i ==> s@[k] == old(s)@[k],
        decreases n / 2 - i,
    {
        swap_items(s, i, n - i - 1);
        i += 1;
    }
    assert(s@ =~= old(s)@.reverse());
}

/// Exchanges the items at `i0` and `i1` where the first orders after the
/// second, and says whether it did.
pub fn mutsorttwo<T: PartialOrd + Copy>(s: &mut [T], i0: usize, i1: usize) -> (did: bool)
    requires
        total_order::<T>(),
        i0 < old(s)@.len(),
        i1 < old(s)@.len(),
    ensures
        did == gt(old(s)@[i0 as int], old(s)@[i1 as int]),
        final(s)@ == if did {
            swapped(old(s)@, i0 as int, i1 as int)
        } else {
            old(s)@
        },
        le(final(s)@[i0 as int], final(s)@[i1 as int]),
{
    proof {
        lemma_trichotomy(s@[i0 as int], s@[i1 as int]);
        lemma_trichotomy(s@[i1 as int], s@[i0 as int]);
    }
    if s[i0] > s[i1] {
        swap_items(s, i0, i1);
        true
    } else {
        false
    }
}

/// Puts the items at `i0`, `i1`, `i2` in ascending order, by at most three
/// exchanges. Where `i0` and `i2` are the same position, only the first two
/// are put in order.
pub fn mutsortthree<T: PartialOrd + Copy>(s: &mut [T], i0: usize, i1: usize, i2: usize)
    requires
        total_order::<T>(),
        i0 < old(s)@.len(),
        i1 < old(s)@.len(),
        i2 < old(s)@.len(),
    ensures
        final(s)@.len() == old(s)@.len(),
        forall|k: int|
            0 <= k < old(s)@.len() && k != i0 && k != i1 && k != i2 ==> final(s)@[k] == old(s)@[k],
        final(s)@.to_multiset() == old(s)@.to_multiset(),
        le(final(s)@[i0 as int], final(s)@[i1 as int]),
        i0 != i2 ==> le(final(s)@[i1 as int], final(s)@[i2 as int]),
{
    let ghost n = s@.len() as int;
    let ghost a = s@;
    let _ = mutsorttwo(s, i0, i1);
    let ghost b = s@;
    let second = mutsorttwo(s, i1, i2);
    let ghost c = s@;
    if second {
        let _ = mutsorttwo(s, i0, i1);
    }
    proof {
        let d = s@;
        lemma_swapped_rearranges(a, i0 as int, i1 as int, 0, n);
        lemma_swapped_rearranges(b, i1 as int, i2 as int, 0, n);
        lemma_swapped_rearranges(c, i0 as int, i1 as int, 0, n);
        assert(a.subrange(0, n) =~= a && b.subrange(0, n) =~= b && c.subrange(0, n) =~= c
            && d.subrange(0, n) =~= d);
        assert(swapped(a, i0 as int, i1 as int).subrange(0, n) =~= swapped(a, i0 as int, i1 as int));
        assert(swapped(b, i1 as int, i2 as int).subrange(0, n) =~= swapped(b, i1 as int, i2 as int));
        assert(swapped(c, i0 as int, i1 as int).subrange(0, n) =~= swapped(c, i0 as int, i1 as int));
        let x0 = b[i0 as int];
        let x1 = b[i1 as int];
        let x2 = b[i2 as int];
        lemma_trichotomy(x1, x2);
        lemma_trichotomy(x2, x1);
        lemma_transitive(x0, x1, x2);
        lemma_trichotomy(c[i0 as int], c[i1 as int]);
        lemma_transitive(c[i0 as int], c[i1 as int], c[i2 as int]);
        lemma_transitive(x2, x1, x1);
        lemma_reflexive(x1);
    }
}

/// The bits of the item that the mask selects are all zero.
pub open spec fn clear_of<T>(x: T, bitmask: u64) -> bool where u64: From<T> {
    <u64 as FromSpec<T>>::from_spec(x) & bitmask == 0
}

/// Partitions the items of the range by a bit mask: the items with none
/// of the masked bits set come first, the others after them. Returns the
/// position of the first item with a masked bit set.
pub fn part_binary<T: Copy>(s: &mut [T], rng: &Range<usize>, bitmask: u64) -> (gtstart: usize)
    where u64: From<T>
    requires
        <u64 as FromSpec<T>>::obeys_from_spec(),
        rng.start <= rng.end <= old(s)@.len(),
    ensures
        rng.start <= gtstart <= rng.end,
        rearranges(old(s)@, final(s)@, rng.start as int, rng.end as int),
        forall|k: int| rng.start <= k < gtstart ==> clear_of(#[trigger] final(s)@[k], bitmask),
        forall|k: int| gtstart <= k < rng.end ==> !clear_of(#[trigger] final(s)@[k], bitmask),
{
    let start = rng.start;
    let end = rng.end;
    let mut gtstart: usize = start;
    // Skip the items that are in place already.
    while gtstart < end && (u64::from(s[gtstart]) & bitmask) == 0
        invariant
            <u64 as FromSpec<T>>::obeys_from_spec(),
            start <= gtstart <= end <= s@.len(),
            s@ == old(s)@,
            forall|k: int| start <= k < gtstart ==> clear_of(#[trigger] s@[k], bitmask),
        decreases end - gtstart,
    {
        gtstart += 1;
    }
    if gtstart == end {
        return gtstart;
    }
    let mut i: usize = gtstart + 1;
    while i < end
        invariant
            <u64 as FromSpec<T>>::obeys_from_spec(),
            start <= gtstart < i <= end <= s@.len(),
            s@.len() == old(s)@.len(),
            rearranges(old(s)@, s@, start as int, end as int),
            forall|k: int| start <= k < gtstart ==> clear_of(#[trigger] s@[k], bitmask),
            forall|k: int| gtstart <= k < i ==> !clear_of(#[trigger] s@[k], bitmask),
        decreases end - i,
    {
        if (u64::from(s[i]) & bitmask) == 0 {
            let ghost before = s@;
            proof {
                lemma_swapped_rearranges(before, gtstart as int, i as int, start as int, end as int);
                lemma_rearranges_twice(
                    old(s)@,
                    before,
                    swapped(before, gtstart as int, i as int),
                    start as int,
                    end as int,
                );
            }
            swap_items(s, gtstart, i);
            gtstart += 1;
        }
        i += 1;
    }
    gtstart
}

/// The operations that rearrange a slice in place, as methods.
pub trait Mutops<T> {
    /// The items of the slice.
    spec fn items(&self) -> Seq<T>;

    /// Partitions the items of the range by a bit mask, those with none of
    /// the masked bits set first.
    fn part_binary(&mut self, rng: &Range<usize>, bitmask: u64) -> (gtstart: usize) where
        T: Copy,
        u64: From<T>,

        requires
            <u64 as FromSpec<T>>::obeys_from_spec(),
            rng.start <= rng.end <= old(self).items().len(),
        ensures
            rng.start <= gtstart <= rng.end,
            rearranges(old(self).items(), final(self).items(), rng.start as int, rng.end as int),
            forall|k: int|
                rng.start <= k < gtstart ==> clear_of(#[trigger] final(self).items()[k], bitmask),
            forall|k: int|
                gtstart <= k < rng.end ==> !clear_of(#[trigger] final(self).items()[k], bitmask),
    ;

    /// Partitions the references of the range around the first of them,
    /// in the order of the comparator. Returns the bounds of the zone of
    /// the items that stand level with the pivot.
    fn part<F: Fn(&T, &T) -> Ordering + Copy>(s: &mut [&T], rng: &Range<usize>, c: F) -> (r: (
        usize,
        usize,
    ))
        requires
            rng.start < rng.end <= old(s)@.len(),
            compares_all(c),
        ensures
            rng.start <= r.0 < r.1 <= rng.end,
            final(s)@.len() == old(s)@.len(),
            forall|j: int|
                0 <= j < old(s)@.len() && !(rng.start <= j < rng.end) ==> final(s)@[j]
                    == old(s)@[j],
            forall|leq: spec_fn(T, T) -> bool| #[trigger]
                decides(c, leq) ==> parted(old(s)@, final(s)@, rng.start, rng.end, r.0, r.1, leq),
    ;

    /// Sorts the items of the range in the order of the comparator, by
    /// insertion.
    fn mutisort<F: Fn(&T, &T) -> Ordering + Copy>(&mut self, rng: Range<usize>, c: F) where
        T: Copy,

        requires
            rng.start <= rng.end <= old(self).items().len(),
            compares_all(c),
        ensures
            rearranged(old(self).items(), final(self).items(), rng.start, rng.end),
            forall|leq: spec_fn(T, T) -> bool| #[trigger]
                decides(c, leq) ==> sorted_within(final(self).items(), rng.start, rng.end, leq),
    ;

    /// Reverses the slice.
    fn mutrevs(&mut self) where T: Copy
        ensures
            final(self).items() == old(self).items().reverse(),
    ;

    /// Exchanges two items where they are out of ascending order, and says
    /// whether it did.
    fn mutsorttwo(&mut self, i0: usize, i1: usize) -> (did: bool) where T: PartialOrd + Copy
        requires
            total_order::<T>(),
            i0 < old(self).items().len(),
            i1 < old(self).items().len(),
        ensures
            did == gt(old(self).items()[i0 as int], old(self).items()[i1 as int]),
            final(self).items() == if did {
                swapped(old(self).items(), i0 as int, i1 as int)
            } else {
                old(self).items()
            },
            le(final(self).items()[i0 as int], final(self).items()[i1 as int]),
    ;

    /// Puts three items in ascending order.
    fn mutsortthree(&mut self, i0: usize, i1: usize, i2: usize) where T: PartialOrd + Copy
        requires
            total_order::<T>(),
            i0 < old(self).items().len(),
            i1 < old(self).items().len(),
            i2 < old(self).items().len(),
        ensures
            final(self).items().len() == old(self).items().len(),
            forall|k: int|
                0 <= k < old(self).items().len() && k != i0 && k != i1 && k != i2
                    ==> final(self).items()[k] == old(self).items()[k],
            final(self).items().to_multiset() == old(self).items().to_multiset(),
            le(final(self).items()[i0 as int], final(self).items()[i1 as int]),
            i0 != i2 ==> le(final(self).items()[i1 as int], final(self).items()[i2 as int]),
    ;

    /// Sorts the slice by key.
    fn muthashsort<F: Fn(&T) -> u64>(&mut self, quantify: F) where T: Copy
        requires
            projects(quantify, old(self).items()),
        ensures
            final(self).items().len() == old(self).items().len(),
            final(self).items().to_multiset() == old(self).items().to_multiset(),
            ordered_by_key(quantify, final(self).items(), false),
    ;

    /// Sorts the `n` items from position `i` by key, all keys of which lie
    /// in `min..=max`.
    fn muthashsortslice<F: Fn(&T) -> u64>(
        &mut self,
        i: usize,
        n: usize,
        min: u64,
        max: u64,
        quantify: F,
    ) where T: Copy
        requires
            i + n <= old(self).items().len(),
            projects(quantify, old(self).items().subrange(i as int, i + n)),
            encloses(quantify, old(self).items().subrange(i as int, i + n), min, max),
        ensures
            final(self).items().len() == old(self).items().len(),
            forall|k: int|
                0 <= k < old(self).items().len() && !(i <= k < i + n) ==> final(self).items()[k]
                    == old(self).items()[k],
            final(self).items().subrange(i as int, i + n).to_multiset()
                == old(self).items().subrange(i as int, i + n).to_multiset(),
            ordered_by_key(quantify, final(self).items().subrange(i as int, i + n), false),
    ;
}

impl<T> Mutops<T> for [T] {
    open spec fn items(&self) -> Seq<T> {
        self@
    }

    fn part_binary(&mut self, rng: &Range<usize>, bitmask: u64) -> (gtstart: usize) where
        T: Copy,
        u64: From<T>,
     {
        part_binary(self, rng, bitmask)
    }

    fn part<F: Fn(&T, &T) -> Ordering + Copy>(s: &mut [&T], rng: &Range<usize>, c: F) -> (r: (
        usize,
        usize,
    )) {
        part(s, rng, c)
    }

    fn mutisort<F: Fn(&T, &T) -> Ordering + Copy>(&mut self, rng: Range<usize>, c: F) where
        T: Copy,
     {
        mutisort(self, rng, c)
    }

    fn mutrevs(&mut self) where T: Copy {
        mutrevs(self)
    }

    fn mutsorttwo(&mut self, i0: usize, i1: usize) -> (did: bool) where T: PartialOrd + Copy {
        mutsorttwo(self, i0, i1)
    }

    fn mutsortthree(&mut self, i0: usize, i1: usize, i2: usize) where T: PartialOrd + Copy {
        mutsortthree(self, i0, i1, i2)
    }

    fn muthashsort<F: Fn(&T) -> u64>(&mut self, quantify: F) where T: Copy {
        muthashsort(self, quantify)
    }

    fn muthashsortslice<F: Fn(&T) -> u64>(
        &mut self,
        i: usize,
        n: usize,
        min: u64,
        max: u64,
        quantify: F,
    ) where T: Copy {
        muthashsortslice(self, i, n, min, max, quantify)
    }
}

} // verus!
