//! Bucket sort by numeric key, adaptive to the distribution of the keys.
//!
//! Every item is projected to a key, an unsigned integer. A partition of
//! `n` items whose keys lie between `min` and `max` is spread over `n`
//! buckets in proportion to `key - min`, the buckets are laid out one after
//! the other, and what falls into one bucket is put in order in place: two
//! or three items by direct comparison, a short run by insertion, and a
//! longer one by moving its smallest key to the front and its largest to
//! the end and sorting what lies between them in the same way, within the
//! range of keys just found.
//!
//! The order among items of equal key is not that of their positions.

use vstd::prelude::*;
use vstd::slice::slice_to_vec;
use crate::buckets::{
    bucket, bucket_of, contents, lemma_bucket_ordered, lemma_poured_empty, lemma_poured_push,
    lemma_poured_step, poured, SHORT_RUN,
};
use crate::extrema::{minmax_indexed, minmax_slice};
use crate::indices::{
    gather, in_range, is_permutation, lemma_gather_rearranges, listed, newindex, revs,
};
use crate::inplace::{has_pair, moved_in_step, pair_at, rising, sort_both};
use crate::isort::{isort_segment, isortthree, isorttwo, swap_entries};
use crate::mergesort::{is_sort_index, lemma_sorted_is_the_ascending_arrangement};
use crate::mutops::mutrevs;
use crate::order::{ascending, equiv, le, lemma_trichotomy, lemma_u64_order, lt, total_order};
use crate::rearrange::{
    lemma_rearranged_permutation, lemma_rearranges_from_whole, lemma_rearranges_same_entries,
    lemma_rearranges_twice, lemma_rearranges_widen, lemma_swapped_rearranges, rearranges,
};

verus! {

/// The keys that `idx` lists at its positions `lo..hi` lie in `min..=max`.
pub open spec fn keys_between(
    keys: Seq<u64>,
    idx: Seq<usize>,
    lo: int,
    hi: int,
    min: u64,
    max: u64,
) -> bool {
    forall|k: int| lo <= k < hi ==> min <= keys[#[trigger] idx[k] as int] <= max
}

/// The keys that `idx` lists at its positions `lo..hi` never descend.
pub open spec fn keys_ascend(keys: Seq<u64>, idx: Seq<usize>, lo: int, hi: int) -> bool {
    forall|a: int, b: int|
        lo <= a < b < hi ==> keys[#[trigger] idx[a] as int] <= keys[#[trigger] idx[b] as int]
}

/// Puts in order what has fallen into one bucket: the `blen` entries of
/// the index from position `lo`.
fn settle(keys: &[u64], idx: &mut [usize], lo: usize, blen: usize)
    requires
        lo + blen <= old(idx)@.len(),
        in_range(old(idx)@, keys@.len() as int),
    ensures
        rearranges(old(idx)@, final(idx)@, lo as int, lo + blen),
        keys_ascend(keys@, final(idx)@, lo as int, lo + blen),
        in_range(final(idx)@, keys@.len() as int),
    decreases blen, 0int,
{
    let ghost before = idx@;
    let ghost hi = lo + blen;
    let len = idx.len();
    proof {
        lemma_u64_order();
    }
    if blen < 2 {
    } else if blen == 2 {
        let _ = isorttwo(keys, idx, lo, lo + 1);
        proof {
            lemma_swapped_rearranges(before, lo as int, lo + 1, lo as int, hi);
        }
    } else if blen == 3 {
        isortthree(keys, idx, lo, lo + 1, lo + 2);
        proof {
            lemma_rearranges_from_whole(before, idx@, lo as int, hi);
            let x0 = keys@[idx@[lo as int] as int];
            let x1 = keys@[idx@[lo + 1] as int];
            let x2 = keys@[idx@[lo + 2] as int];
            assert(x0 <= x1 <= x2);
        }
    } else {
        let mx = minmax_indexed(keys, idx, lo, blen);
        let ghost data = listed(keys@, before, lo as int, hi);
        proof {
            assert forall|k: int| lo <= k < hi implies mx.min <= keys@[#[trigger] before[k] as int]
                <= mx.max by {
                assert(data[k - lo] == keys@[before[k] as int]);
                assert(le(data[mx.minindex - lo], data[k - lo]));
                assert(le(data[k - lo], data[mx.maxindex - lo]));
            }
        }
        if mx.min < mx.max {
            let last: usize = lo + blen - 1;
            swap_entries(idx, lo, mx.minindex);
            let ghost first_done = idx@;
            let maxindex = if mx.maxindex == lo {
                mx.minindex
            } else {
                mx.maxindex
            };
            swap_entries(idx, maxindex, last);
            let ghost ends_done = idx@;
            proof {
                lemma_swapped_rearranges(before, lo as int, mx.minindex as int, lo as int, hi);
                lemma_swapped_rearranges(first_done, maxindex as int, last as int, lo as int, hi);
                lemma_rearranges_twice(before, first_done, ends_done, lo as int, hi);
                assert(keys@[ends_done[lo as int] as int] == mx.min);
                assert(keys@[ends_done[last as int] as int] == mx.max);
                assert forall|k: int| 0 <= k < ends_done.len() implies #[trigger] ends_done[k]
                    < keys@.len() by {
                    if lo <= k < hi {
                        let k0 = lemma_rearranges_same_entries(before, ends_done, lo as int, hi, k);
                    }
                }
                assert forall|k: int| lo <= k < hi implies mx.min
                    <= keys@[#[trigger] ends_done[k] as int]
                    <= mx.max by {
                    let k0 = lemma_rearranges_same_entries(before, ends_done, lo as int, hi, k);
                }
            }
            hashsortslice(keys, idx, lo + 1, blen - 2, mx.min, mx.max);
            proof {
                let sorted = idx@;
                lemma_rearranges_widen(ends_done, sorted, lo + 1, hi - 1, lo as int, hi);
                lemma_rearranges_twice(before, ends_done, sorted, lo as int, hi);
                assert forall|k: int| lo < k < hi - 1 implies mx.min
                    <= keys@[#[trigger] sorted[k] as int]
                    <= mx.max by {
                    let k0 = lemma_rearranges_same_entries(ends_done, sorted, lo + 1, hi - 1, k);
                }
                assert(sorted[lo as int] == ends_done[lo as int]);
                assert(sorted[last as int] == ends_done[last as int]);
            }
        } else {
            proof {
                assert forall|k: int| lo <= k < hi implies keys@[#[trigger] before[k] as int]
                    == mx.min by {}
            }
        }
    }
}

/// Sorts the `n` entries of the index from position `i` by the keys of the
/// positions that they list, all of which lie in `min..=max`. The entries
/// are rearranged in place; the rest of the index is not touched.
pub fn hashsortslice(keys: &[u64], idx: &mut [usize], i: usize, n: usize, min: u64, max: u64)
    requires
        i + n <= old(idx)@.len(),
        in_range(old(idx)@, keys@.len() as int),
        keys_between(keys@, old(idx)@, i as int, i + n, min, max),
    ensures
        rearranges(old(idx)@, final(idx)@, i as int, i + n),
        keys_ascend(keys@, final(idx)@, i as int, i + n),
        in_range(final(idx)@, keys@.len() as int),
    decreases n, 1int,
{
    let ghost before = idx@;
    let ghost end = i + n;
    let len = idx.len();
    if min >= max {
        // The keys are all equal: there is nothing to sort.
        return;
    }
    if n < 4 {
        settle(keys, idx, i, n);
        return;
    }
    if n < SHORT_RUN {
        proof {
            lemma_u64_order();
        }
        isort_segment(keys, idx, i, n);
        proof {
            assert forall|a: int, b: int| i <= a < b < end implies keys@[#[trigger] idx@[a] as int]
                <= keys@[#[trigger] idx@[b] as int] by {
                let l = listed(keys@, idx@, i as int, end);
                assert(le(l[a - i], l[b - i]));
            }
        }
        return;
    }
    // Spread the entries over `n` buckets.
    let mut buckets: Vec<Vec<usize>> = Vec::new();
    let mut b: usize = 0;
    while b < n
        invariant
            b <= n,
            buckets@.len() == b,
            forall|k: int| 0 <= k < b ==> (#[trigger] buckets@[k])@.len() == 0,
        decreases n - b,
    {
        buckets.push(Vec::new());
        b += 1;
    }
    proof {
        lemma_poured_empty(contents(buckets@));
        assert(before.subrange(i as int, i as int).len() == 0);
        assert(poured(contents(buckets@)) =~= before.subrange(i as int, i as int));
    }
    let mut k: usize = i;
    while k < i + n
        invariant
            i <= k <= i + n,
            end == i + n,
            end <= idx@.len(),
            idx@ == before,
            min < max,
            n > 0,
            buckets@.len() == n,
            in_range(before, keys@.len() as int),
            keys_between(keys@, before, i as int, end, min, max),
            poured(contents(buckets@)).to_multiset() == before.subrange(
                i as int,
                k as int,
            ).to_multiset(),
            forall|bb: int, j: int|
                0 <= bb < n && 0 <= j < buckets@[bb]@.len() ==> {
                    let x = #[trigger] buckets@[bb]@[j];
                    x < keys@.len() && min <= keys@[x as int] <= max && bucket(
                        keys@[x as int],
                        min,
                        max,
                        n as int,
                    ) == bb
                },
        decreases i + n - k,
    {
        let x = idx[k];
        let bb = bucket_of(keys[x], min, max, n);
        let ghost m = contents(buckets@);
        buckets[bb].push(x);
        proof {
            let m2 = contents(buckets@);
            lemma_poured_push(m, m2, bb as int, x);
            assert(before.subrange(i as int, k + 1) =~= before.subrange(i as int, k as int).push(
                x,
            ));
            before.subrange(i as int, k as int).to_multiset_ensures();
        }
        k += 1;
    }
    // Lay the buckets out one after the other, each put in order.
    let ghost m = contents(buckets@);
    let mut isub: usize = i;
    let mut b: usize = 0;
    proof {
        assert(m.take(0).len() == 0);
        assert(idx@.subrange(i as int, i as int) =~= poured(m.take(0)));
        assert(poured(m).len() == n) by {
            broadcast use vstd::seq_lib::group_to_multiset_ensures;

            assert(poured(m).to_multiset().len() == before.subrange(
                i as int,
                end,
            ).to_multiset().len());
        }
    }
    while b < n
        invariant
            b <= n,
            end == i + n,
            min < max,
            n > 0,
            end <= before.len(),
            idx@.len() == before.len(),
            before.len() == len,
            buckets@.len() == n,
            m == contents(buckets@),
            poured(m).len() == n,
            poured(m).to_multiset() == before.subrange(i as int, end).to_multiset(),
            in_range(idx@, keys@.len() as int),
            forall|t: int| 0 <= t < before.len() && !(i <= t < end) ==> idx@[t] == before[t],
            i <= isub <= end,
            isub - i == poured(m.take(b as int)).len(),
            idx@.subrange(i as int, isub as int).to_multiset() == poured(
                m.take(b as int),
            ).to_multiset(),
            keys_ascend(keys@, idx@, i as int, isub as int),
            forall|t: int|
                i <= t < isub ==> min <= keys@[#[trigger] idx@[t] as int] <= max && bucket(
                    keys@[idx@[t] as int],
                    min,
                    max,
                    n as int,
                ) < b,
            forall|bb: int, j: int|
                0 <= bb < n && 0 <= j < buckets@[bb]@.len() ==> {
                    let x = #[trigger] buckets@[bb]@[j];
                    x < keys@.len() && min <= keys@[x as int] <= max && bucket(
                        keys@[x as int],
                        min,
                        max,
                        n as int,
                    ) == bb
                },
        decreases n - b,
    {
        let blen = buckets[b].len();
        proof {
            lemma_poured_step(m, b as int);
            assert(m[b as int] == buckets@[b as int]@);
        }
        if blen > 0 {
            let ghost done = idx@;
            let mut j: usize = 0;
            assert(isub + blen <= end);
            while j < blen
                invariant
                    j <= blen,
                    b < n,
                    buckets@.len() == n,
                    before.len() == len,
                    blen == buckets@[b as int]@.len(),
                    i <= isub,
                    isub + blen <= end,
                    end <= before.len(),
                    idx@.len() == before.len(),
                    done.len() == before.len(),
                    in_range(idx@, keys@.len() as int),
                    forall|t: int| 0 <= t < before.len() && !(isub <= t < isub + j) ==> idx@[t]
                        == done[t],
                    forall|t: int| 0 <= t < j ==> idx@[isub + t] == buckets@[b as int]@[t],
                    forall|bb: int, j: int|
                        0 <= bb < buckets@.len() && 0 <= j < buckets@[bb]@.len() ==> (
                        #[trigger] buckets@[bb]@[j]) < keys@.len(),
                decreases blen - j,
            {
                let x = buckets[b][j];
                let ghost prev = idx@;
                assert(buckets@[b as int]@[j as int] < keys@.len());
                idx[isub + j] = x;
                assert forall|t: int| 0 <= t < idx@.len() implies #[trigger] idx@[t]
                    < keys@.len() by {
                    if t != isub + j {
                        assert(idx@[t] == prev[t]);
                    }
                }
                j += 1;
            }
            let ghost copied = idx@;
            settle(keys, idx, isub, blen);
            proof {
                broadcast use vstd::seq_lib::lemma_multiset_commutative;

                let sorted = idx@;
                let hi = isub + blen;
                assert(copied.subrange(isub as int, hi) =~= m[b as int]);
                assert(sorted.subrange(i as int, isub as int) =~= done.subrange(
                    i as int,
                    isub as int,
                ));
                assert(sorted.subrange(i as int, hi) =~= sorted.subrange(i as int, isub as int)
                    + sorted.subrange(isub as int, hi));
                assert forall|t: int| isub <= t < hi implies min
                    <= keys@[#[trigger] sorted[t] as int]
                    <= max && bucket(keys@[sorted[t] as int], min, max, n as int) == b by {
                    let t0 = lemma_rearranges_same_entries(copied, sorted, isub as int, hi, t);
                    assert(copied[t0] == buckets@[b as int]@[t0 - isub]);
                }
                assert forall|x: int, y: int| i <= x < y < hi
                    implies keys@[#[trigger] sorted[x] as int]
                    <= keys@[#[trigger] sorted[y] as int] by {
                    if y < isub {
                        assert(sorted[x] == done[x] && sorted[y] == done[y]);
                    } else if x < isub {
                        assert(sorted[x] == done[x]);
                        let kx = keys@[sorted[x] as int];
                        let ky = keys@[sorted[y] as int];
                        if kx > ky {
                            lemma_bucket_ordered(ky, kx, min, max, n as int);
                        }
                    } else {
                    }
                }
                assert forall|t: int| i <= t < isub implies sorted[t] == done[t] by {}
            }
            isub += blen;
        } else {
            proof {
                assert(poured(m.take(b + 1)) =~= poured(m.take(b as int)));
            }
        }
        b += 1;
    }
    proof {
        assert(m.take(n as int) =~= m);
    }
}

/// The projection can give the item `x` no other key than `k`.
pub open spec fn keyed_by<T, F: Fn(&T) -> u64>(quantify: F, x: T, k: u64) -> bool {
    forall|v: u64| call_ensures(quantify, (&x,), v) ==> v == k
}

/// The projection is ready to be applied to every item of `s`.
pub open spec fn projects<T, F: Fn(&T) -> u64>(quantify: F, s: Seq<T>) -> bool {
    forall|i: int| 0 <= i < s.len() ==> call_requires(quantify, (&#[trigger] s[i],))
}

/// The projection gives the items of `s` no keys but those in `min..=max`.
pub open spec fn encloses<T, F: Fn(&T) -> u64>(quantify: F, s: Seq<T>, min: u64, max: u64) -> bool {
    forall|i: int, k: u64|
        0 <= i < s.len() && call_ensures(quantify, (&#[trigger] s[i],), k) ==> min <= k <= max
}

/// The keys of the items of `s` never descend, or with `down` never
/// ascend, from one item to any later one.
pub open spec fn ordered_by_key<T, F: Fn(&T) -> u64>(quantify: F, s: Seq<T>, down: bool) -> bool {
    forall|a: int, b: int, ka: u64, kb: u64|
        0 <= a < b < s.len() && #[trigger] keyed_by(quantify, s[a], ka) && #[trigger] keyed_by(
            quantify,
            s[b],
            kb,
        ) ==> if down {
            ka >= kb
        } else {
            ka <= kb
        }
}

/// The keys of the items of `s`, as the projection gives them.
fn keys_of<T, F: Fn(&T) -> u64>(s: &[T], from: usize, n: usize, quantify: F) -> (keys: Vec<u64>)
    requires
        from + n <= s@.len(),
        projects(quantify, s@.subrange(from as int, from + n)),
    ensures
        keys@.len() == n,
        forall|i: int| 0 <= i < n ==> call_ensures(quantify, (&s@[from + i],), #[trigger] keys@[i]),
{
    let len = s.len();
    let mut keys: Vec<u64> = Vec::new();
    let mut i: usize = 0;
    while i < n
        invariant
            i <= n,
            from + n <= s@.len(),
            s@.len() == len,
            projects(quantify, s@.subrange(from as int, from + n)),
            keys@.len() == i,
            forall|j: int|
                0 <= j < i ==> call_ensures(quantify, (&s@[from + j],), #[trigger] keys@[j]),
        decreases n - i,
    {
        assert(s@.subrange(from as int, from + n)[i as int] == s@[from + i]);
        let k = quantify(&s[from + i]);
        keys.push(k);
        i += 1;
    }
    keys
}

/// Sort index of `keys`: a permutation along which the keys never descend.
fn key_index(keys: &[u64], min: u64, max: u64) -> (idx: Vec<usize>)
    requires
        forall|i: int| 0 <= i < keys@.len() ==> min <= #[trigger] keys@[i] <= max,
    ensures
        idx@.len() == keys@.len(),
        is_permutation(idx@),
        keys_ascend(keys@, idx@, 0, keys@.len() as int),
{
    let n = keys.len();
    let mut idx = newindex(n);
    let ghost before = idx@;
    hashsortslice(keys, idx.as_mut_slice(), 0, n, min, max);
    proof {
        lemma_rearranged_permutation(before, idx@);
    }
    idx
}

/// The smallest and the largest of the keys, or zeros where there is none.
fn key_range(keys: &[u64]) -> (r: (u64, u64))
    ensures
        forall|i: int| 0 <= i < keys@.len() ==> r.0 <= #[trigger] keys@[i] <= r.1,
{
    if keys.len() == 0 {
        return (0, 0);
    }
    proof {
        lemma_u64_order();
    }
    let mx = minmax_slice(keys, 0, keys.len());
    proof {
        assert forall|i: int| 0 <= i < keys@.len() implies mx.min <= #[trigger] keys@[i]
            <= mx.max by {
            assert(le(keys@[mx.minindex as int], keys@[i]));
            assert(le(keys@[i], keys@[mx.maxindex as int]));
        }
    }
    (mx.min, mx.max)
}

/// Keys that ascend along an index make the items ordered by key when
/// they are read through the index.
proof fn lemma_ordered_through_index<T, F: Fn(&T) -> u64>(
    quantify: F,
    s: Seq<T>,
    keys: Seq<u64>,
    idx: Seq<usize>,
)
    requires
        keys.len() == s.len(),
        idx.len() == s.len(),
        in_range(idx, s.len() as int),
        forall|i: int| 0 <= i < s.len() ==> call_ensures(quantify, (&s[i],), #[trigger] keys[i]),
        keys_ascend(keys, idx, 0, idx.len() as int),
    ensures
        ordered_by_key(quantify, gather(idx, s), false),
        ordered_by_key(quantify, gather(idx, s).reverse(), true),
{
    let g = gather(idx, s);
    let r = g.reverse();
    assert forall|a: int, b: int, ka: u64, kb: u64|
        0 <= a < b < g.len() && #[trigger] keyed_by(quantify, g[a], ka) && #[trigger] keyed_by(
            quantify,
            g[b],
            kb,
        ) implies ka <= kb by {
        assert(call_ensures(quantify, (&s[idx[a] as int],), keys[idx[a] as int]));
        assert(call_ensures(quantify, (&s[idx[b] as int],), keys[idx[b] as int]));
    }
    assert forall|a: int, b: int, ka: u64, kb: u64|
        0 <= a < b < r.len() && #[trigger] keyed_by(quantify, r[a], ka) && #[trigger] keyed_by(
            quantify,
            r[b],
            kb,
        ) implies ka >= kb by {
        let a0 = g.len() - 1 - a;
        let b0 = g.len() - 1 - b;
        assert(call_ensures(quantify, (&s[idx[a0] as int],), keys[idx[a0] as int]));
        assert(call_ensures(quantify, (&s[idx[b0] as int],), keys[idx[b0] as int]));
        assert(keys[idx[b0] as int] <= keys[idx[a0] as int]);
    }
}

/// Sort index of `s` by key: a permutation through which the keys of the
/// items never descend. The projection must give no key outside
/// `min..=max`.
pub fn hashsort<T, F: Fn(&T) -> u64>(s: &[T], min: u64, max: u64, quantify: F) -> (idx: Vec<usize>)
    requires
        projects(quantify, s@),
        encloses(quantify, s@, min, max),
    ensures
        idx@.len() == s@.len(),
        is_permutation(idx@),
        ordered_by_key(quantify, gather(idx@, s@), false),
{
    let n = s.len();
    assert(s@.subrange(0, n as int) =~= s@);
    let keys = keys_of(s, 0, n, quantify);
    let idx = key_index(&keys, min, max);
    proof {
        lemma_ordered_through_index(quantify, s@, keys@, idx@);
    }
    idx
}

/// Sort index of `s` by key, the range of the keys being found first.
pub fn hashsort_indexed<T, F: Fn(&T) -> u64>(s: &[T], quantify: F) -> (idx: Vec<usize>)
    requires
        projects(quantify, s@),
    ensures
        idx@.len() == s@.len(),
        is_permutation(idx@),
        ordered_by_key(quantify, gather(idx@, s@), false),
{
    let n = s.len();
    assert(s@.subrange(0, n as int) =~= s@);
    let keys = keys_of(s, 0, n, quantify);
    let (min, max) = key_range(&keys);
    let idx = key_index(&keys, min, max);
    proof {
        lemma_ordered_through_index(quantify, s@, keys@, idx@);
    }
    idx
}

/// Sort index of `s` by key, ascending or descending.
pub fn keyindex<T, F: Fn(&T) -> u64>(s: &[T], keyfn: F, ascending: bool) -> (idx: Vec<usize>)
    requires
        projects(keyfn, s@),
    ensures
        idx@.len() == s@.len(),
        is_permutation(idx@),
        ordered_by_key(keyfn, gather(idx@, s@), !ascending),
{
    let n = s.len();
    assert(s@.subrange(0, n as int) =~= s@);
    let keys = keys_of(s, 0, n, keyfn);
    let (min, max) = key_range(&keys);
    let idx = key_index(&keys, min, max);
    proof {
        lemma_ordered_through_index(keyfn, s@, keys@, idx@);
    }
    if ascending {
        idx
    } else {
        let r = revs(&idx);
        proof {
            crate::indices::lemma_complement_of_inverse(idx@);
            assert(gather(r@, s@) =~= gather(idx@, s@).reverse());
        }
        r
    }
}

/// Sorts the `n` entries of the index from position `i` by the keys of the
/// items of `s` that they list. The projection must give the items of `s`
/// no key outside `min..=max`.
pub fn hashsort_listed<T, F: Fn(&T) -> u64>(
    s: &[T],
    idx: &mut [usize],
    i: usize,
    n: usize,
    min: u64,
    max: u64,
    quantify: F,
)
    requires
        i + n <= old(idx)@.len(),
        in_range(old(idx)@, s@.len() as int),
        projects(quantify, s@),
        encloses(quantify, s@, min, max),
    ensures
        rearranges(old(idx)@, final(idx)@, i as int, i + n),
        in_range(final(idx)@, s@.len() as int),
        ordered_by_key(quantify, listed(s@, final(idx)@, i as int, i + n), false),
{
    let len = s.len();
    assert(s@.subrange(0, len as int) =~= s@);
    let keys = keys_of(s, 0, len, quantify);
    hashsortslice(&keys, idx, i, n, min, max);
    proof {
        let l = listed(s@, idx@, i as int, i + n);
        assert forall|a: int, b: int, ka: u64, kb: u64|
            0 <= a < b < l.len() && #[trigger] keyed_by(quantify, l[a], ka) && #[trigger] keyed_by(
                quantify,
                l[b],
                kb,
            ) implies ka <= kb by {
            let pa = idx@[i + a] as int;
            let pb = idx@[i + b] as int;
            assert(call_ensures(quantify, (&s@[pa],), keys@[pa]));
            assert(call_ensures(quantify, (&s@[pb],), keys@[pb]));
        }
    }
}

/// Items that have been moved in step with their keys, into the order of
/// the keys, are ordered by key.
proof fn lemma_ordered_in_step<T, F: Fn(&T) -> u64>(
    quantify: F,
    s0: Seq<T>,
    k0: Seq<u64>,
    s1: Seq<T>,
    k1: Seq<u64>,
    base: int,
    n: int,
)
    requires
        0 <= base,
        0 <= n == k0.len(),
        k1.len() == n,
        base + n <= s0.len(),
        s1.len() == s0.len(),
        forall|r: int| 0 <= r < n ==> call_ensures(quantify, (&s0[base + r],), #[trigger] k0[r]),
        moved_in_step(s0, k0, s1, k1, base, 0, n),
        rising(k1, 0, n),
    ensures
        ordered_by_key(quantify, s1.subrange(base, base + n), false),
{
    let seg = s1.subrange(base, base + n);
    assert forall|r: int| 0 <= r < n implies call_ensures(
        quantify,
        (&s1[base + r],),
        #[trigger] k1[r],
    ) by {
        assert(has_pair(s0, k0, base, 0, n, s1[base + r], k1[r]));
        let r0 = choose|r0: int|
            0 <= r0 < n && #[trigger] pair_at(s0, k0, base, r0, s1[base + r], k1[r]);
        assert(call_ensures(quantify, (&s0[base + r0],), k0[r0]));
    }
    assert forall|a: int, b: int, ka: u64, kb: u64|
        0 <= a < b < seg.len() && #[trigger] keyed_by(quantify, seg[a], ka) && #[trigger] keyed_by(
            quantify,
            seg[b],
            kb,
        ) implies ka <= kb by {
        assert(call_ensures(quantify, (&s1[base + a],), k1[a]));
        assert(call_ensures(quantify, (&s1[base + b],), k1[b]));
        assert(k1[a] <= k1[b]);
    }
}

/// Sorts the `n` items of `s` from position `i` in place, by key. The
/// projection must give these items no key outside `min..=max`. The rest
/// of the slice is not touched.
pub fn muthashsortslice<T: Copy, F: Fn(&T) -> u64>(
    s: &mut [T],
    i: usize,
    n: usize,
    min: u64,
    max: u64,
    quantify: F,
)
    requires
        i + n <= old(s)@.len(),
        projects(quantify, old(s)@.subrange(i as int, i + n)),
        encloses(quantify, old(s)@.subrange(i as int, i + n), min, max),
    ensures
        final(s)@.len() == old(s)@.len(),
        forall|k: int| 0 <= k < old(s)@.len() && !(i <= k < i + n) ==> final(s)@[k] == old(s)@[k],
        final(s)@.subrange(i as int, i + n).to_multiset() == old(s)@.subrange(
            i as int,
            i + n,
        ).to_multiset(),
        ordered_by_key(quantify, final(s)@.subrange(i as int, i + n), false),
{
    let ghost seg = s@.subrange(i as int, i + n);
    let mut keys = keys_of(s, i, n, quantify);
    let ghost k0 = keys@;
    proof {
        assert forall|r: int| 0 <= r < n implies min <= #[trigger] k0[r] <= max by {
            assert(seg[r] == s@[i + r]);
        }
    }
    sort_both(s, keys.as_mut_slice(), i, 0, n, min, max);
    proof {
        lemma_ordered_in_step(quantify, old(s)@, k0, s@, keys@, i as int, n as int);
    }
}

/// Sorts `s` in place, by key.
pub fn muthashsort<T: Copy, F: Fn(&T) -> u64>(s: &mut [T], quantify: F)
    requires
        projects(quantify, old(s)@),
    ensures
        final(s)@.len() == old(s)@.len(),
        final(s)@.to_multiset() == old(s)@.to_multiset(),
        ordered_by_key(quantify, final(s)@, false),
{
    let n = s.len();
    assert(s@.subrange(0, n as int) =~= s@);
    let mut keys = keys_of(s, 0, n, quantify);
    let ghost k0 = keys@;
    let (min, max) = key_range(&keys);
    sort_both(s, keys.as_mut_slice(), 0, 0, n, min, max);
    proof {
        lemma_ordered_in_step(quantify, old(s)@, k0, s@, keys@, 0, n as int);
        assert(s@.subrange(0, n as int) =~= s@);
        assert(old(s)@.subrange(0, n as int) =~= old(s)@);
    }
}

/// A copy of `s` sorted by key, ascending or descending.
pub fn sorth<T: Copy, F: Fn(&T) -> u64>(s: &[T], quantify: F, ascending: bool) -> (r: Vec<T>)
    requires
        projects(quantify, s@),
    ensures
        r@.to_multiset() == s@.to_multiset(),
        ordered_by_key(quantify, r@, !ascending),
{
    let mut r = slice_to_vec(s);
    muthashsort(r.as_mut_slice(), quantify);
    if !ascending {
        let ghost up = r@;
        mutrevs(r.as_mut_slice());
        proof {
            up.lemma_reverse_to_multiset();
            assert forall|a: int, b: int, ka: u64, kb: u64|
                0 <= a < b < r@.len() && #[trigger] keyed_by(quantify, r@[a], ka)
                    && #[trigger] keyed_by(quantify, r@[b], kb) implies ka >= kb by {
                let a0 = up.len() - 1 - a;
                let b0 = up.len() - 1 - b;
                assert(keyed_by(quantify, up[a0], ka));
                assert(keyed_by(quantify, up[b0], kb));
            }
        }
    }
    r
}

/// The keys order the items as the items order themselves, and no two
/// different items share a key.
pub open spec fn faithful<T: PartialOrd>(key: spec_fn(T) -> u64) -> bool {
    &&& forall|a: T, b: T| #[trigger] lt(a, b) <==> key(a) < key(b)
    &&& forall|a: T, b: T| #![trigger key(a), key(b)] key(a) == key(b) ==> a == b
}

/// Where the keys order the items as the items order themselves, and no
/// two different items share a key, sorting by key and sorting by
/// comparison give the same sequence of items, whatever the two sort
/// indices are.
pub proof fn lemma_hashsort_agrees_with_mergesort<T: PartialOrd>(
    v: Seq<T>,
    key: spec_fn(T) -> u64,
    by_key: Seq<usize>,
    by_comparison: Seq<usize>,
)
    requires
        total_order::<T>(),
        v.len() <= usize::MAX,
        faithful(key),
        by_key.len() == v.len(),
        is_permutation(by_key),
        forall|a: int, b: int|
            0 <= a < b < v.len() ==> key(v[#[trigger] by_key[a] as int]) <= key(
                v[#[trigger] by_key[b] as int],
            ),
        is_sort_index(v, by_comparison, 0, v.len() as int),
    ensures
        gather(by_key, v) == gather(by_comparison, v),
{
    let w = gather(by_key, v);
    lemma_gather_rearranges(by_key, v);
    assert forall|a: int, b: int| 0 <= a < b < w.len()
        implies le(#[trigger] w[a], #[trigger] w[b]) by {
        lemma_trichotomy(w[a], w[b]);
        lemma_trichotomy(w[b], w[a]);
        assert(key(v[by_key[a] as int]) <= key(v[by_key[b] as int]));
    }
    assert forall|a: T, b: T| equiv(a, b) implies a == b by {
        lemma_trichotomy(a, b);
        lemma_trichotomy(b, a);
    }
    lemma_sorted_is_the_ascending_arrangement(v, by_comparison, w);
}

} // verus!
