//! Bucket sort by numeric key, in place.
//!
//! The items are sorted where they lie. Their keys are held beside them, in
//! a sequence of their own, and every move of an item is a move of its key:
//! the two are sorted in step. The algorithm is that of the sort that
//! produces an index; only what is moved differs.

use vstd::prelude::*;
use crate::buckets::{
    bucket, bucket_of, contents, lemma_bucket_ordered, lemma_poured_empty, lemma_poured_push,
    lemma_poured_step, poured, SHORT_RUN,
};
use crate::extrema::minmax_slice;
use crate::order::{le, lemma_u64_order};
use crate::rearrange::{
    lemma_rearranges_same_entries, lemma_rearranges_widen, lemma_swapped_rearranges, rearranges,
    swapped,
};

verus! {

/// The keys at the positions `lo..hi` lie in `min..=max`.
pub open spec fn keys_within(keys: Seq<u64>, lo: int, hi: int, min: u64, max: u64) -> bool {
    forall|r: int| lo <= r < hi ==> min <= #[trigger] keys[r] <= max
}

/// The keys at the positions `lo..hi` never descend.
pub open spec fn rising(keys: Seq<u64>, lo: int, hi: int) -> bool {
    forall|a: int, b: int| lo <= a < b < hi ==> #[trigger] keys[a] <= #[trigger] keys[b]
}

/// The item `x` lies at position `base + r` with the key `k` beside it.
pub open spec fn pair_at<T>(s: Seq<T>, keys: Seq<u64>, base: int, r: int, x: T, k: u64) -> bool {
    s[base + r] == x && keys[r] == k
}

/// The item `x` with the key `k` beside it lies somewhere in the range
/// `lo..hi`.
pub open spec fn has_pair<T>(
    s: Seq<T>,
    keys: Seq<u64>,
    base: int,
    lo: int,
    hi: int,
    x: T,
    k: u64,
) -> bool {
    exists|r: int| lo <= r < hi && #[trigger] pair_at(s, keys, base, r, x, k)
}

/// Every item of `s1` in the range `lo..hi`, with the key beside it, is an
/// item of `s0` in the range `lo0..hi0` with the key beside it. The key of
/// the item at position `base + r` is the key at position `r`.
pub open spec fn drawn_from<T>(
    s0: Seq<T>,
    k0: Seq<u64>,
    s1: Seq<T>,
    k1: Seq<u64>,
    base: int,
    lo: int,
    hi: int,
    lo0: int,
    hi0: int,
) -> bool {
    forall|r: int|
        lo <= r < hi ==> #[trigger] has_pair(s0, k0, base, lo0, hi0, s1[base + r], k1[r])
}

/// The items in the range `lo..hi` and their keys have been moved in step:
/// both are rearranged within the range, and every item still has its key
/// beside it.
pub open spec fn moved_in_step<T>(
    s0: Seq<T>,
    k0: Seq<u64>,
    s1: Seq<T>,
    k1: Seq<u64>,
    base: int,
    lo: int,
    hi: int,
) -> bool {
    &&& rearranges(s0, s1, base + lo, base + hi)
    &&& rearranges(k0, k1, lo, hi)
    &&& drawn_from(s0, k0, s1, k1, base, lo, hi, lo, hi)
}

/// Moving in step twice is moving in step.
pub proof fn lemma_moved_twice<T>(
    s0: Seq<T>,
    k0: Seq<u64>,
    s1: Seq<T>,
    k1: Seq<u64>,
    s2: Seq<T>,
    k2: Seq<u64>,
    base: int,
    lo: int,
    hi: int,
)
    requires
        moved_in_step(s0, k0, s1, k1, base, lo, hi),
        moved_in_step(s1, k1, s2, k2, base, lo, hi),
    ensures
        moved_in_step(s0, k0, s2, k2, base, lo, hi),
{
    assert forall|r: int| lo <= r < hi implies #[trigger] has_pair(
        s0,
        k0,
        base,
        lo,
        hi,
        s2[base + r],
        k2[r],
    ) by {
        assert(has_pair(s1, k1, base, lo, hi, s2[base + r], k2[r]));
        let r1 = choose|r1: int|
            lo <= r1 < hi && #[trigger] pair_at(s1, k1, base, r1, s2[base + r], k2[r]);
        assert(has_pair(s0, k0, base, lo, hi, s1[base + r1], k1[r1]));
        let r0 = choose|r0: int|
            lo <= r0 < hi && #[trigger] pair_at(s0, k0, base, r0, s1[base + r1], k1[r1]);
        assert(pair_at(s0, k0, base, r0, s2[base + r], k2[r]));
    }
}

/// Moving in step within part of a range is moving in step within the
/// range.
pub proof fn lemma_moved_widen<T>(
    s0: Seq<T>,
    k0: Seq<u64>,
    s1: Seq<T>,
    k1: Seq<u64>,
    base: int,
    lo: int,
    hi: int,
    lo0: int,
    hi0: int,
)
    requires
        moved_in_step(s0, k0, s1, k1, base, lo, hi),
        0 <= base,
        0 <= lo0 <= lo <= hi <= hi0 <= k0.len(),
        base + hi0 <= s0.len(),
    ensures
        moved_in_step(s0, k0, s1, k1, base, lo0, hi0),
{
    lemma_rearranges_widen(s0, s1, base + lo, base + hi, base + lo0, base + hi0);
    lemma_rearranges_widen(k0, k1, lo, hi, lo0, hi0);
    assert forall|r: int| lo0 <= r < hi0 implies #[trigger] has_pair(
        s0,
        k0,
        base,
        lo0,
        hi0,
        s1[base + r],
        k1[r],
    ) by {
        if lo <= r < hi {
            assert(has_pair(s0, k0, base, lo, hi, s1[base + r], k1[r]));
            let r0 = choose|r0: int|
                lo <= r0 < hi && #[trigger] pair_at(s0, k0, base, r0, s1[base + r], k1[r]);
            assert(pair_at(s0, k0, base, r0, s1[base + r], k1[r]));
        } else {
            assert(pair_at(s0, k0, base, r, s1[base + r], k1[r]));
        }
    }
}

/// What is left in place has moved in step.
pub proof fn lemma_unmoved<T>(s: Seq<T>, keys: Seq<u64>, base: int, lo: int, hi: int)
    ensures
        moved_in_step(s, keys, s, keys, base, lo, hi),
{
    assert forall|r: int| lo <= r < hi implies #[trigger] has_pair(
        s,
        keys,
        base,
        lo,
        hi,
        s[base + r],
        keys[r],
    ) by {
        assert(pair_at(s, keys, base, r, s[base + r], keys[r]));
    }
}

/// Exchanging two items and their keys moves them in step.
pub proof fn lemma_swapped_in_step<T>(
    s0: Seq<T>,
    k0: Seq<u64>,
    base: int,
    a: int,
    b: int,
    lo: int,
    hi: int,
)
    requires
        0 <= base,
        0 <= lo <= a < hi <= k0.len(),
        lo <= b < hi,
        base + hi <= s0.len(),
    ensures
        moved_in_step(
            s0,
            k0,
            swapped(s0, base + a, base + b),
            swapped(k0, a, b),
            base,
            lo,
            hi,
        ),
{
    let s1 = swapped(s0, base + a, base + b);
    let k1 = swapped(k0, a, b);
    lemma_swapped_rearranges(s0, base + a, base + b, base + lo, base + hi);
    lemma_swapped_rearranges(k0, a, b, lo, hi);
    assert forall|r: int| lo <= r < hi implies #[trigger] has_pair(
        s0,
        k0,
        base,
        lo,
        hi,
        s1[base + r],
        k1[r],
    ) by {
        let r0 = if r == a {
            b
        } else if r == b {
            a
        } else {
            r
        };
        assert(pair_at(s0, k0, base, r0, s1[base + r], k1[r]));
    }
}

/// Exchanges two items, and their keys with them.
fn swap_both<T: Copy>(s: &mut [T], keys: &mut [u64], base: usize, a: usize, b: usize)
    requires
        a < old(keys)@.len(),
        b < old(keys)@.len(),
        base + old(keys)@.len() <= old(s)@.len(),
    ensures
        final(s)@ == swapped(old(s)@, base + a, base + b),
        final(keys)@ == swapped(old(keys)@, a as int, b as int),
{
    let len = s.len();
    let x = s[base + a];
    let y = s[base + b];
    s[base + a] = y;
    s[base + b] = x;
    let p = keys[a];
    let q = keys[b];
    keys[a] = q;
    keys[b] = p;
}

/// Puts the items at `a` and `b` in the order of their keys.
fn order_two<T: Copy>(s: &mut [T], keys: &mut [u64], base: usize, a: usize, b: usize)
    requires
        a < old(keys)@.len(),
        b < old(keys)@.len(),
        base + old(keys)@.len() <= old(s)@.len(),
    ensures
        final(keys)@[a as int] <= final(keys)@[b as int],
        (final(s)@ == old(s)@ && final(keys)@ == old(keys)@) || (final(s)@ == swapped(
            old(s)@,
            base + a,
            base + b,
        ) && final(keys)@ == swapped(old(keys)@, a as int, b as int)),
{
    if keys[a] > keys[b] {
        swap_both(s, keys, base, a, b);
    }
}

/// Sorts the `n` items from position `base + lo` by their keys, which lie
/// from position `lo`, by insertion.
fn insert_both<T: Copy>(s: &mut [T], keys: &mut [u64], base: usize, lo: usize, n: usize)
    requires
        lo + n <= old(keys)@.len(),
        base + old(keys)@.len() <= old(s)@.len(),
    ensures
        final(s)@.len() == old(s)@.len(),
        final(keys)@.len() == old(keys)@.len(),
        moved_in_step(old(s)@, old(keys)@, final(s)@, final(keys)@, base as int, lo as int, lo + n),
        rising(final(keys)@, lo as int, lo + n),
{
    let len = s.len();
    let klen = keys.len();
    let hi: usize = lo + n;
    proof {
        lemma_unmoved(s@, keys@, base as int, lo as int, hi as int);
    }
    if n < 2 {
        return;
    }
    let mut p: usize = lo + 1;
    while p < hi
        invariant
            lo < p <= hi,
            hi == lo + n,
            hi <= keys@.len(),
            keys@.len() == klen,
            s@.len() == len,
            base + klen <= len,
            s@.len() == old(s)@.len(),
            keys@.len() == old(keys)@.len(),
            moved_in_step(old(s)@, old(keys)@, s@, keys@, base as int, lo as int, hi as int),
            rising(keys@, lo as int, p as int),
        decreases hi - p,
    {
        let mut j: usize = p;
        while j > lo && keys[j - 1] > keys[j]
            invariant
                lo <= j <= p < hi,
                hi <= keys@.len(),
                keys@.len() == klen,
                s@.len() == len,
                base + klen <= len,
                s@.len() == old(s)@.len(),
                keys@.len() == old(keys)@.len(),
                moved_in_step(old(s)@, old(keys)@, s@, keys@, base as int, lo as int, hi as int),
                forall|a: int, b: int|
                    lo <= a < b <= p && a != j && b != j ==> #[trigger] keys@[a]
                        <= #[trigger] keys@[b],
                forall|b: int| j < b <= p ==> keys@[j as int] <= #[trigger] keys@[b],
            decreases j,
        {
            let ghost s0 = s@;
            let ghost k0 = keys@;
            proof {
                lemma_swapped_in_step(s0, k0, base as int, j - 1, j as int, lo as int, hi as int);
                lemma_moved_twice(
                    old(s)@,
                    old(keys)@,
                    s0,
                    k0,
                    swapped(s0, base + j - 1, base + j),
                    swapped(k0, j - 1, j as int),
                    base as int,
                    lo as int,
                    hi as int,
                );
            }
            swap_both(s, keys, base, j - 1, j);
            j -= 1;
            proof {
                assert forall|a: int, b: int|
                    lo <= a < b <= p && a != j && b != j implies #[trigger] keys@[a]
                    <= #[trigger] keys@[b] by {
                    if b == j + 1 {
                        assert(keys@[b] == k0[j as int]);
                        assert(keys@[a] == k0[a]);
                    } else if a == j + 1 {
                        assert(keys@[a] == k0[j as int]);
                        assert(keys@[b] == k0[b]);
                    } else {
                        assert(keys@[a] == k0[a] && keys@[b] == k0[b]);
                    }
                }
                assert forall|b: int| j < b <= p implies keys@[j as int] <= #[trigger] keys@[b] by {
                    if b == j + 1 {
                        assert(keys@[b] == k0[j as int]);
                    } else {
                        assert(keys@[b] == k0[b]);
                        assert(k0[j + 1] <= k0[b]);
                    }
                }
            }
        }
        proof {
            assert forall|a: int, b: int| lo <= a < b < p + 1 implies #[trigger] keys@[a]
                <= #[trigger] keys@[b] by {
                if a == j {
                } else if b == j {
                    if a < j - 1 {
                        assert(keys@[a] <= keys@[j - 1]);
                    }
                } else {
                }
            }
        }
        p += 1;
    }
}

/// Puts in order what has fallen into one bucket: the `blen` items from
/// position `base + lo`, by their keys from position `lo`.
fn settle_both<T: Copy>(s: &mut [T], keys: &mut [u64], base: usize, lo: usize, blen: usize)
    requires
        lo + blen <= old(keys)@.len(),
        base + old(keys)@.len() <= old(s)@.len(),
    ensures
        final(s)@.len() == old(s)@.len(),
        final(keys)@.len() == old(keys)@.len(),
        moved_in_step(
            old(s)@,
            old(keys)@,
            final(s)@,
            final(keys)@,
            base as int,
            lo as int,
            lo + blen,
        ),
        rising(final(keys)@, lo as int, lo + blen),
    decreases blen, 0int,
{
    let ghost s0 = s@;
    let ghost k0 = keys@;
    let ghost hi = lo + blen;
    let len = s.len();
    let klen = keys.len();
    proof {
        lemma_u64_order();
        lemma_unmoved(s0, k0, base as int, lo as int, hi);
    }
    if blen < 2 {
    } else if blen == 2 {
        order_two(s, keys, base, lo, lo + 1);
        proof {
            lemma_swapped_in_step(s0, k0, base as int, lo as int, lo + 1, lo as int, hi);
        }
    } else if blen == 3 {
        order_two(s, keys, base, lo, lo + 1);
        let ghost s1 = s@;
        let ghost k1 = keys@;
        order_two(s, keys, base, lo + 1, lo + 2);
        let ghost s2 = s@;
        let ghost k2 = keys@;
        order_two(s, keys, base, lo, lo + 1);
        proof {
            lemma_swapped_in_step(s0, k0, base as int, lo as int, lo + 1, lo as int, hi);
            lemma_unmoved(s1, k1, base as int, lo as int, hi);
            lemma_swapped_in_step(s1, k1, base as int, lo + 1, lo + 2, lo as int, hi);
            lemma_moved_twice(s0, k0, s1, k1, s2, k2, base as int, lo as int, hi);
            lemma_unmoved(s2, k2, base as int, lo as int, hi);
            lemma_swapped_in_step(s2, k2, base as int, lo as int, lo + 1, lo as int, hi);
            lemma_moved_twice(s0, k0, s2, k2, s@, keys@, base as int, lo as int, hi);
            assert(keys@[lo as int] <= keys@[lo + 1] <= keys@[lo + 2]);
        }
    } else {
        let mx = minmax_slice(keys, lo, blen);
        proof {
            assert forall|r: int| lo <= r < hi implies mx.min <= #[trigger] k0[r] <= mx.max by {
                assert(le(k0[mx.minindex as int], k0[r]));
                assert(le(k0[r], k0[mx.maxindex as int]));
            }
        }
        if mx.min < mx.max {
            let last: usize = lo + blen - 1;
            swap_both(s, keys, base, lo, mx.minindex);
            let ghost s1 = s@;
            let ghost k1 = keys@;
            let maxindex = if mx.maxindex == lo {
                mx.minindex
            } else {
                mx.maxindex
            };
            swap_both(s, keys, base, maxindex, last);
            let ghost s2 = s@;
            let ghost k2 = keys@;
            proof {
                lemma_swapped_in_step(
                    s0,
                    k0,
                    base as int,
                    lo as int,
                    mx.minindex as int,
                    lo as int,
                    hi,
                );
                lemma_swapped_in_step(
                    s1,
                    k1,
                    base as int,
                    maxindex as int,
                    last as int,
                    lo as int,
                    hi,
                );
                lemma_moved_twice(s0, k0, s1, k1, s2, k2, base as int, lo as int, hi);
                assert(k2[lo as int] == mx.min);
                assert(k2[last as int] == mx.max);
                assert forall|r: int| lo <= r < hi implies mx.min <= #[trigger] k2[r] <= mx.max by {
                    let r0 = lemma_rearranges_same_entries(k0, k2, lo as int, hi, r);
                }
            }
            sort_both(s, keys, base, lo + 1, blen - 2, mx.min, mx.max);
            proof {
                let s3 = s@;
                let k3 = keys@;
                lemma_moved_widen(s2, k2, s3, k3, base as int, lo + 1, hi - 1, lo as int, hi);
                lemma_moved_twice(s0, k0, s2, k2, s3, k3, base as int, lo as int, hi);
                assert forall|r: int| lo < r < hi - 1 implies mx.min <= #[trigger] k3[r]
                    <= mx.max by {
                    let r0 = lemma_rearranges_same_entries(k2, k3, lo + 1, hi - 1, r);
                }
                assert(k3[lo as int] == k2[lo as int]);
                assert(k3[last as int] == k2[last as int]);
            }
        } else {
            proof {
                assert forall|r: int| lo <= r < hi implies #[trigger] k0[r] == mx.min by {}
            }
        }
    }
}

/// Sorts the `n` items from position `base + lo` by their keys, which lie
/// from position `lo` and all in `min..=max`. Items and keys are moved in
/// step; what lies outside the range is not touched.
pub fn sort_both<T: Copy>(
    s: &mut [T],
    keys: &mut [u64],
    base: usize,
    lo: usize,
    n: usize,
    min: u64,
    max: u64,
)
    requires
        lo + n <= old(keys)@.len(),
        base + old(keys)@.len() <= old(s)@.len(),
        keys_within(old(keys)@, lo as int, lo + n, min, max),
    ensures
        final(s)@.len() == old(s)@.len(),
        final(keys)@.len() == old(keys)@.len(),
        moved_in_step(old(s)@, old(keys)@, final(s)@, final(keys)@, base as int, lo as int, lo + n),
        rising(final(keys)@, lo as int, lo + n),
    decreases n, 1int,
{
    let ghost s0 = s@;
    let ghost k0 = keys@;
    let ghost end = lo + n;
    let len = s.len();
    let klen = keys.len();
    proof {
        lemma_unmoved(s0, k0, base as int, lo as int, end);
    }
    if min >= max {
        // The keys are all equal: there is nothing to sort.
        return;
    }
    if n < 4 {
        settle_both(s, keys, base, lo, n);
        return;
    }
    if n < SHORT_RUN {
        insert_both(s, keys, base, lo, n);
        return;
    }
    // Spread the items, and their keys with them, over `n` buckets.
    let mut items: Vec<Vec<T>> = Vec::new();
    let mut their: Vec<Vec<u64>> = Vec::new();
    let mut b: usize = 0;
    while b < n
        invariant
            b <= n,
            items@.len() == b,
            their@.len() == b,
            forall|k: int| 0 <= k < b ==> (#[trigger] items@[k])@.len() == 0,
            forall|k: int| 0 <= k < b ==> (#[trigger] their@[k])@.len() == 0,
        decreases n - b,
    {
        items.push(Vec::new());
        their.push(Vec::new());
        b += 1;
    }
    proof {
        lemma_poured_empty(contents(items@));
        lemma_poured_empty(contents(their@));
        assert(poured(contents(items@)) =~= s0.subrange(base + lo, base + lo));
        assert(poured(contents(their@)) =~= k0.subrange(lo as int, lo as int));
    }
    let mut r: usize = lo;
    while r < lo + n
        invariant
            lo <= r <= lo + n,
            end == lo + n,
            end <= klen,
            base + klen <= len,
            s@ == s0,
            keys@ == k0,
            s0.len() == len,
            k0.len() == klen,
            min < max,
            n > 0,
            items@.len() == n,
            their@.len() == n,
            keys_within(k0, lo as int, end, min, max),
            poured(contents(items@)).to_multiset() == s0.subrange(
                base + lo,
                base + r,
            ).to_multiset(),
            poured(contents(their@)).to_multiset() == k0.subrange(
                lo as int,
                r as int,
            ).to_multiset(),
            forall|bb: int| 0 <= bb < n ==> (#[trigger] items@[bb])@.len() == their@[bb]@.len(),
            forall|bb: int, j: int|
                0 <= bb < n && 0 <= j < their@[bb]@.len() ==> {
                    let k = #[trigger] their@[bb]@[j];
                    min <= k <= max && bucket(k, min, max, n as int) == bb && has_pair(
                        s0,
                        k0,
                        base as int,
                        lo as int,
                        end,
                        items@[bb]@[j],
                        k,
                    )
                },
        decreases lo + n - r,
    {
        let x = s[base + r];
        let k = keys[r];
        let bb = bucket_of(k, min, max, n);
        let ghost mi = contents(items@);
        let ghost mk = contents(their@);
        let ghost items0 = items@;
        let ghost their0 = their@;
        items[bb].push(x);
        their[bb].push(k);
        proof {
            lemma_poured_push(mi, contents(items@), bb as int, x);
            lemma_poured_push(mk, contents(their@), bb as int, k);
            assert(s0.subrange(base + lo, base + r + 1) =~= s0.subrange(
                base + lo,
                base + r,
            ).push(x));
            assert(k0.subrange(lo as int, r + 1) =~= k0.subrange(lo as int, r as int).push(k));
            s0.subrange(base + lo, base + r).to_multiset_ensures();
            k0.subrange(lo as int, r as int).to_multiset_ensures();
            assert(pair_at(s0, k0, base as int, r as int, x, k));
            assert forall|b2: int, j: int|
                0 <= b2 < n && 0 <= j < their@[b2]@.len() implies {
                let kk = #[trigger] their@[b2]@[j];
                min <= kk <= max && bucket(kk, min, max, n as int) == b2 && has_pair(
                    s0,
                    k0,
                    base as int,
                    lo as int,
                    end,
                    items@[b2]@[j],
                    kk,
                )
            } by {
                if b2 == bb && j == their0[bb as int]@.len() {
                } else {
                    assert(their@[b2]@[j] == their0[b2]@[j]);
                    assert(items@[b2]@[j] == items0[b2]@[j]);
                }
            }
        }
        r += 1;
    }
    // Lay the buckets out one after the other, each put in order.
    let ghost mi = contents(items@);
    let ghost mk = contents(their@);
    let mut isub: usize = lo;
    let mut b: usize = 0;
    proof {
        assert(mi.take(0).len() == 0 && mk.take(0).len() == 0);
        assert(s@.subrange(base + lo, base + lo) =~= poured(mi.take(0)));
        assert(keys@.subrange(lo as int, lo as int) =~= poured(mk.take(0)));
        assert(poured(mi).len() == n && poured(mk).len() == n) by {
            broadcast use vstd::seq_lib::group_to_multiset_ensures;

            assert(poured(mi).to_multiset().len() == s0.subrange(
                base + lo,
                base + end,
            ).to_multiset().len());
            assert(poured(mk).to_multiset().len() == k0.subrange(
                lo as int,
                end,
            ).to_multiset().len());
        }
    }
    while b < n
        invariant
            b <= n,
            end == lo + n,
            min < max,
            n > 0,
            end <= klen,
            base + klen <= len,
            s0.len() == len,
            k0.len() == klen,
            s@.len() == len,
            keys@.len() == klen,
            items@.len() == n,
            their@.len() == n,
            mi == contents(items@),
            mk == contents(their@),
            poured(mi).len() == n,
            poured(mk).len() == n,
            poured(mi).to_multiset() == s0.subrange(base + lo, base + end).to_multiset(),
            poured(mk).to_multiset() == k0.subrange(lo as int, end).to_multiset(),
            forall|t: int| 0 <= t < len && !(base + lo <= t < base + end) ==> s@[t] == s0[t],
            forall|t: int| 0 <= t < klen && !(lo <= t < end) ==> keys@[t] == k0[t],
            lo <= isub <= end,
            isub - lo == poured(mi.take(b as int)).len(),
            isub - lo == poured(mk.take(b as int)).len(),
            s@.subrange(base + lo, base + isub).to_multiset() == poured(
                mi.take(b as int),
            ).to_multiset(),
            keys@.subrange(lo as int, isub as int).to_multiset() == poured(
                mk.take(b as int),
            ).to_multiset(),
            rising(keys@, lo as int, isub as int),
            drawn_from(s0, k0, s@, keys@, base as int, lo as int, isub as int, lo as int, end),
            forall|t: int|
                lo <= t < isub ==> min <= #[trigger] keys@[t] <= max && bucket(
                    keys@[t],
                    min,
                    max,
                    n as int,
                ) < b,
            forall|bb: int| 0 <= bb < n ==> (#[trigger] items@[bb])@.len() == their@[bb]@.len(),
            forall|bb: int, j: int|
                0 <= bb < n && 0 <= j < their@[bb]@.len() ==> {
                    let k = #[trigger] their@[bb]@[j];
                    min <= k <= max && bucket(k, min, max, n as int) == bb && has_pair(
                        s0,
                        k0,
                        base as int,
                        lo as int,
                        end,
                        items@[bb]@[j],
                        k,
                    )
                },
        decreases n - b,
    {
        let blen = their[b].len();
        proof {
            lemma_poured_step(mi, b as int);
            lemma_poured_step(mk, b as int);
            assert(mi[b as int] == items@[b as int]@);
            assert(mk[b as int] == their@[b as int]@);
        }
        if blen > 0 {
            let ghost s1 = s@;
            let ghost k1 = keys@;
            let mut j: usize = 0;
            assert(isub + blen <= end);
            while j < blen
                invariant
                    j <= blen,
                    b < n,
                    items@.len() == n,
                    their@.len() == n,
                    blen == their@[b as int]@.len(),
                    blen == items@[b as int]@.len(),
                    lo <= isub,
                    isub + blen <= end,
                    end <= klen,
                    base + klen <= len,
                    s@.len() == len,
                    keys@.len() == klen,
                    s1.len() == len,
                    k1.len() == klen,
                    forall|t: int|
                        0 <= t < len && !(base + isub <= t < base + isub + j) ==> s@[t] == s1[t],
                    forall|t: int| 0 <= t < klen && !(isub <= t < isub + j) ==> keys@[t] == k1[t],
                    forall|t: int| 0 <= t < j ==> s@[base + isub + t] == items@[b as int]@[t],
                    forall|t: int| 0 <= t < j ==> keys@[isub + t] == their@[b as int]@[t],
                decreases blen - j,
            {
                let x = items[b][j];
                let k = their[b][j];
                s[base + isub + j] = x;
                keys[isub + j] = k;
                j += 1;
            }
            let ghost s2 = s@;
            let ghost k2 = keys@;
            settle_both(s, keys, base, isub, blen);
            proof {
                broadcast use vstd::seq_lib::lemma_multiset_commutative;

                let s3 = s@;
                let k3 = keys@;
                let hi = isub + blen;
                assert(s2.subrange(base + isub, base + hi) =~= mi[b as int]);
                assert(k2.subrange(isub as int, hi) =~= mk[b as int]);
                assert(s3.subrange(base + lo, base + isub) =~= s1.subrange(base + lo, base + isub));
                assert(k3.subrange(lo as int, isub as int) =~= k1.subrange(lo as int, isub as int));
                assert(s3.subrange(base + lo, base + hi) =~= s3.subrange(base + lo, base + isub)
                    + s3.subrange(base + isub, base + hi));
                assert(k3.subrange(lo as int, hi) =~= k3.subrange(lo as int, isub as int)
                    + k3.subrange(isub as int, hi));
                assert forall|t: int| isub <= t < hi implies min <= #[trigger] k3[t] <= max
                    && bucket(k3[t], min, max, n as int) == b && has_pair(
                    s0,
                    k0,
                    base as int,
                    lo as int,
                    end,
                    s3[base + t],
                    k3[t],
                ) by {
                    assert(has_pair(s2, k2, base as int, isub as int, hi, s3[base + t], k3[t]));
                    let t0 = choose|t0: int|
                        isub <= t0 < hi && #[trigger] pair_at(
                            s2,
                            k2,
                            base as int,
                            t0,
                            s3[base + t],
                            k3[t],
                        );
                    assert(k2[t0] == their@[b as int]@[t0 - isub]);
                    assert(s2[base + t0] == items@[b as int]@[t0 - isub]);
                }
                assert forall|t: int| lo <= t < hi implies #[trigger] has_pair(
                    s0,
                    k0,
                    base as int,
                    lo as int,
                    end,
                    s3[base + t],
                    k3[t],
                ) by {
                    if t < isub {
                        assert(s3[base + t] == s1[base + t] && k3[t] == k1[t]);
                        assert(has_pair(s0, k0, base as int, lo as int, end, s1[base + t], k1[t]));
                    }
                }
                assert forall|x: int, y: int| lo <= x < y < hi implies #[trigger] k3[x]
                    <= #[trigger] k3[y] by {
                    if y < isub {
                        assert(k3[x] == k1[x] && k3[y] == k1[y]);
                    } else if x < isub {
                        assert(k3[x] == k1[x]);
                        if k3[x] > k3[y] {
                            lemma_bucket_ordered(k3[y], k3[x], min, max, n as int);
                        }
                    } else {
                    }
                }
                assert forall|t: int| lo <= t < isub implies k3[t] == k1[t] by {}
            }
            isub += blen;
        } else {
            proof {
                assert(poured(mi.take(b + 1)) =~= poured(mi.take(b as int)));
                assert(poured(mk.take(b + 1)) =~= poured(mk.take(b as int)));
            }
        }
        b += 1;
    }
    proof {
        assert(mi.take(n as int) =~= mi);
        assert(mk.take(n as int) =~= mk);
    }
}

} // verus!
