//! Stable merge sort that produces a sort index and never moves the data.
//!
//! The sort index of a sequence lists the positions of its items in
//! non-descending order of the items; items that compare equal keep the
//! order of their positions. There is exactly one such index.

use vstd::prelude::*;
use vstd::relations::*;
use vstd::seq_lib::*;
use crate::indices::{
    complement, gather, in_range, invert, is_permutation, lemma_gather_rearranges, lemma_invert,
    lemma_invert_involution, lemma_invert_unique, lemma_lists_range_same_items, lists_range,
    unindex,
};
use crate::order::{
    ascending, descending, equiv, gt, le, lemma_reflexive, lemma_transitive, lemma_trichotomy, lt,
    total_order,
};

verus! {

/// The items of `s` never descend when visited in the order of `idx`.
pub open spec fn ascending_by<T: PartialOrd>(s: Seq<T>, idx: Seq<usize>) -> bool {
    forall|a: int, b: int|
        0 <= a < b < idx.len() ==> le(s[#[trigger] idx[a] as int], s[#[trigger] idx[b] as int])
}

/// Items that compare equal are visited in the order of their positions.
pub open spec fn stable_by<T: PartialOrd>(s: Seq<T>, idx: Seq<usize>) -> bool {
    forall|a: int, b: int|
        0 <= a < b < idx.len() && equiv(s[#[trigger] idx[a] as int], s[#[trigger] idx[b] as int])
            ==> idx[a] < idx[b]
}

/// `idx` is the stable sort index of the `n` items of `s` that start at
/// position `lo`.
pub open spec fn is_sort_index<T: PartialOrd>(s: Seq<T>, idx: Seq<usize>, lo: int, n: int) -> bool {
    &&& idx.len() == n
    &&& lists_range(idx, lo)
    &&& ascending_by(s, idx)
    &&& stable_by(s, idx)
}

/// The stable sort index of the whole of `s`.
pub open spec fn sort_index<T: PartialOrd>(s: Seq<T>) -> Seq<usize> {
    choose|idx: Seq<usize>| is_sort_index(s, idx, 0, s.len() as int)
}

/// The items of `s` in stable ascending order.
pub open spec fn sorted<T: PartialOrd>(s: Seq<T>) -> Seq<T> {
    gather(sort_index(s), s)
}

/// The ascending ranks of the items of `s`: entry `i` is the place of item
/// `i` in sorted order.
pub open spec fn ranks<T: PartialOrd>(s: Seq<T>) -> Seq<usize> {
    invert(sort_index(s))
}

/// Every entry of `idx` raised by `by`.
pub open spec fn shifted(idx: Seq<usize>, by: int) -> Seq<usize> {
    Seq::new(idx.len(), |i: int| (idx[i] + by) as usize)
}

/// The stable merge of two indices into `s`: the next position comes from
/// `b` only where its item is strictly smaller than the next item of `a`.
pub open spec fn merged<T: PartialOrd>(s: Seq<T>, a: Seq<usize>, b: Seq<usize>) -> Seq<usize>
    decreases a.len() + b.len(),
{
    if a.len() == 0 {
        b
    } else if b.len() == 0 {
        a
    } else if gt(s[a[0] as int], s[b[0] as int]) {
        seq![b[0]] + merged(s, a, b.drop_first())
    } else {
        seq![a[0]] + merged(s, a.drop_first(), b)
    }
}

/// A merge holds the positions of both indices, and nothing else.
pub proof fn lemma_merged_items<T: PartialOrd>(s: Seq<T>, a: Seq<usize>, b: Seq<usize>)
    ensures
        merged(s, a, b).len() == a.len() + b.len(),
        merged(s, a, b).to_multiset() == a.to_multiset().add(b.to_multiset()),
        forall|k: int|
            0 <= k < merged(s, a, b).len() ==> a.contains(#[trigger] merged(s, a, b)[k])
                || b.contains(merged(s, a, b)[k]),
    decreases a.len() + b.len(),
{
    broadcast use group_to_multiset_ensures;

    let m = merged(s, a, b);
    if a.len() == 0 {
        assert(a.to_multiset().len() == 0);
        assert(m.to_multiset() =~= a.to_multiset().add(b.to_multiset()));
        assert forall|k: int| 0 <= k < m.len() implies b.contains(#[trigger] m[k]) by {}
    } else if b.len() == 0 {
        assert(b.to_multiset().len() == 0);
        assert(m.to_multiset() =~= a.to_multiset().add(b.to_multiset()));
        assert forall|k: int| 0 <= k < m.len() implies a.contains(#[trigger] m[k]) by {}
    } else if gt(s[a[0] as int], s[b[0] as int]) {
        let b1 = b.drop_first();
        let rest = merged(s, a, b1);
        lemma_merged_items(s, a, b1);
        assert(m.remove(0) =~= rest);
        assert(b.remove(0) =~= b1);
        assert(m.contains(m[0]));
        assert(b.contains(b[0]));
        assert(m.to_multiset() =~= rest.to_multiset().insert(b[0]));
        assert(b.to_multiset() =~= b1.to_multiset().insert(b[0]));
        assert(m.to_multiset() =~= a.to_multiset().add(b.to_multiset()));
        assert forall|k: int| 0 <= k < m.len() implies a.contains(#[trigger] m[k]) || b.contains(
            m[k],
        ) by {
            if k > 0 {
                assert(m[k] == rest[k - 1]);
                if b1.contains(rest[k - 1]) {
                    let j = choose|j: int| 0 <= j < b1.len() && b1[j] == rest[k - 1];
                    assert(b[j + 1] == m[k]);
                }
            } else {
                assert(m[0] == b[0]);
            }
        }
    } else {
        let a1 = a.drop_first();
        let rest = merged(s, a1, b);
        lemma_merged_items(s, a1, b);
        assert(m.remove(0) =~= rest);
        assert(a.remove(0) =~= a1);
        assert(m.contains(m[0]));
        assert(a.contains(a[0]));
        assert(m.to_multiset() =~= rest.to_multiset().insert(a[0]));
        assert(a.to_multiset() =~= a1.to_multiset().insert(a[0]));
        assert(m.to_multiset() =~= a.to_multiset().add(b.to_multiset()));
        assert forall|k: int| 0 <= k < m.len() implies a.contains(#[trigger] m[k]) || b.contains(
            m[k],
        ) by {
            if k > 0 {
                assert(m[k] == rest[k - 1]);
                if a1.contains(rest[k - 1]) {
                    let j = choose|j: int| 0 <= j < a1.len() && a1[j] == rest[k - 1];
                    assert(a[j + 1] == m[k]);
                }
            } else {
                assert(m[0] == a[0]);
            }
        }
    }
}

/// Merging two indices that share no position repeats no position.
pub proof fn lemma_merged_distinct<T: PartialOrd>(s: Seq<T>, a: Seq<usize>, b: Seq<usize>)
    requires
        a.no_duplicates(),
        b.no_duplicates(),
        a.disjoint(b),
    ensures
        merged(s, a, b).no_duplicates(),
    decreases a.len() + b.len(),
{
    let m = merged(s, a, b);
    if a.len() == 0 || b.len() == 0 {
    } else {
        let from_b = gt(s[a[0] as int], s[b[0] as int]);
        let a1 = if from_b { a } else { a.drop_first() };
        let b1 = if from_b { b.drop_first() } else { b };
        let x = if from_b { b[0] } else { a[0] };
        let rest = merged(s, a1, b1);
        assert(m == seq![x] + rest);
        assert(a1.no_duplicates() && b1.no_duplicates() && a1.disjoint(b1)) by {
            if from_b {
                assert forall|i: int, j: int| 0 <= i < b1.len() && 0 <= j < b1.len() && i != j
                    implies b1[i] != b1[j] by {
                    assert(b1[i] == b[i + 1] && b1[j] == b[j + 1]);
                }
                assert forall|i: int, j: int| 0 <= i < a1.len() && 0 <= j < b1.len()
                    implies a1[i] != b1[j] by {
                    assert(b1[j] == b[j + 1]);
                }
            } else {
                assert forall|i: int, j: int| 0 <= i < a1.len() && 0 <= j < a1.len() && i != j
                    implies a1[i] != a1[j] by {
                    assert(a1[i] == a[i + 1] && a1[j] == a[j + 1]);
                }
                assert forall|i: int, j: int| 0 <= i < a1.len() && 0 <= j < b1.len()
                    implies a1[i] != b1[j] by {
                    assert(a1[i] == a[i + 1]);
                }
            }
        }
        lemma_merged_distinct(s, a1, b1);
        lemma_merged_items(s, a1, b1);
        assert forall|i: int, j: int| 0 <= i < m.len() && 0 <= j < m.len() && i != j implies m[i]
            != m[j] by {
            if i > 0 && j > 0 {
                assert(m[i] == rest[i - 1] && m[j] == rest[j - 1]);
            } else {
                let k = if i > 0 { i } else { j };
                assert(m[k] == rest[k - 1]);
                assert(m[i + j - k] == x);
                if a1.contains(rest[k - 1]) {
                    let t = choose|t: int| 0 <= t < a1.len() && a1[t] == rest[k - 1];
                    if from_b {
                        assert(a[t] != b[0]);
                    } else {
                        assert(a[t + 1] != a[0]);
                    }
                }
                if b1.contains(rest[k - 1]) {
                    let t = choose|t: int| 0 <= t < b1.len() && b1[t] == rest[k - 1];
                    if from_b {
                        assert(b[t + 1] != b[0]);
                    } else {
                        assert(a[0] != b[t]);
                    }
                }
            }
        }
    }
}

/// Merging two ascending indices gives an ascending index.
pub proof fn lemma_merged_ascending<T: PartialOrd>(s: Seq<T>, a: Seq<usize>, b: Seq<usize>)
    requires
        total_order::<T>(),
        ascending_by(s, a),
        ascending_by(s, b),
    ensures
        ascending_by(s, merged(s, a, b)),
    decreases a.len() + b.len(),
{
    let m = merged(s, a, b);
    if a.len() == 0 || b.len() == 0 {
    } else {
        let from_b = gt(s[a[0] as int], s[b[0] as int]);
        let a1 = if from_b { a } else { a.drop_first() };
        let b1 = if from_b { b.drop_first() } else { b };
        let x = if from_b { b[0] } else { a[0] };
        let rest = merged(s, a1, b1);
        assert(m == seq![x] + rest);
        assert(ascending_by(s, a1) && ascending_by(s, b1)) by {
            if from_b {
                assert forall|i: int, j: int| 0 <= i < j < b1.len() implies le(
                    s[#[trigger] b1[i] as int],
                    s[#[trigger] b1[j] as int],
                ) by {
                    assert(b1[i] == b[i + 1] && b1[j] == b[j + 1]);
                }
            } else {
                assert forall|i: int, j: int| 0 <= i < j < a1.len() implies le(
                    s[#[trigger] a1[i] as int],
                    s[#[trigger] a1[j] as int],
                ) by {
                    assert(a1[i] == a[i + 1] && a1[j] == a[j + 1]);
                }
            }
        }
        lemma_merged_ascending(s, a1, b1);
        lemma_merged_items(s, a1, b1);
        lemma_trichotomy(s[a[0] as int], s[b[0] as int]);
        assert forall|i: int, j: int| 0 <= i < j < m.len() implies le(
            s[#[trigger] m[i] as int],
            s[#[trigger] m[j] as int],
        ) by {
            assert(m[j] == rest[j - 1]);
            if i > 0 {
                assert(m[i] == rest[i - 1]);
            } else {
                let y = rest[j - 1];
                if a1.contains(y) {
                    let t = choose|t: int| 0 <= t < a1.len() && a1[t] == y;
                    if from_b {
                        if t > 0 {
                            assert(le(s[a[0] as int], s[a[t] as int]));
                        } else {
                            lemma_reflexive(s[a[0] as int]);
                        }
                        lemma_transitive(s[b[0] as int], s[a[0] as int], s[y as int]);
                    } else {
                        assert(a[t + 1] == y);
                        assert(le(s[a[0] as int], s[a[t + 1] as int]));
                    }
                } else {
                    let t = choose|t: int| 0 <= t < b1.len() && b1[t] == y;
                    if from_b {
                        assert(b[t + 1] == y);
                        assert(le(s[b[0] as int], s[b[t + 1] as int]));
                    } else {
                        if t > 0 {
                            assert(le(s[b[0] as int], s[b[t] as int]));
                        } else {
                            lemma_reflexive(s[b[0] as int]);
                        }
                        lemma_transitive(s[a[0] as int], s[b[0] as int], s[y as int]);
                    }
                }
            }
        }
    }
}

/// Merging keeps equal items in the order of their positions, where each
/// index does and every position of the first lies before every position
/// of the second.
pub proof fn lemma_merged_stable<T: PartialOrd>(s: Seq<T>, a: Seq<usize>, b: Seq<usize>)
    requires
        total_order::<T>(),
        ascending_by(s, a),
        ascending_by(s, b),
        stable_by(s, a),
        stable_by(s, b),
        forall|i: int, j: int| 0 <= i < a.len() && 0 <= j < b.len() ==> a[i] < b[j],
    ensures
        stable_by(s, merged(s, a, b)),
    decreases a.len() + b.len(),
{
    let m = merged(s, a, b);
    if a.len() == 0 || b.len() == 0 {
    } else {
        let from_b = gt(s[a[0] as int], s[b[0] as int]);
        let a1 = if from_b { a } else { a.drop_first() };
        let b1 = if from_b { b.drop_first() } else { b };
        let x = if from_b { b[0] } else { a[0] };
        let rest = merged(s, a1, b1);
        assert(m == seq![x] + rest);
        assert(ascending_by(s, a1) && ascending_by(s, b1) && stable_by(s, a1) && stable_by(s, b1))
            by {
            if from_b {
                assert forall|i: int, j: int| 0 <= i < j < b1.len() implies le(
                    s[#[trigger] b1[i] as int],
                    s[#[trigger] b1[j] as int],
                ) && (equiv(s[b1[i] as int], s[b1[j] as int]) ==> b1[i] < b1[j]) by {
                    assert(b1[i] == b[i + 1] && b1[j] == b[j + 1]);
                }
            } else {
                assert forall|i: int, j: int| 0 <= i < j < a1.len() implies le(
                    s[#[trigger] a1[i] as int],
                    s[#[trigger] a1[j] as int],
                ) && (equiv(s[a1[i] as int], s[a1[j] as int]) ==> a1[i] < a1[j]) by {
                    assert(a1[i] == a[i + 1] && a1[j] == a[j + 1]);
                }
            }
        }
        assert forall|i: int, j: int| 0 <= i < a1.len() && 0 <= j < b1.len() implies a1[i]
            < b1[j] by {
            if from_b {
                assert(b1[j] == b[j + 1]);
            } else {
                assert(a1[i] == a[i + 1]);
            }
        }
        lemma_merged_stable(s, a1, b1);
        lemma_merged_items(s, a1, b1);
        lemma_trichotomy(s[a[0] as int], s[b[0] as int]);
        assert forall|i: int, j: int|
            0 <= i < j < m.len() && equiv(
                s[#[trigger] m[i] as int],
                s[#[trigger] m[j] as int],
            ) implies m[i] < m[j] by {
            assert(m[j] == rest[j - 1]);
            if i > 0 {
                assert(m[i] == rest[i - 1]);
            } else {
                let y = rest[j - 1];
                if a1.contains(y) {
                    let t = choose|t: int| 0 <= t < a1.len() && a1[t] == y;
                    if from_b {
                        // every item of `a` is strictly after the item taken from `b`
                        if t > 0 {
                            assert(le(s[a[0] as int], s[a[t] as int]));
                        } else {
                            lemma_reflexive(s[a[0] as int]);
                        }
                        lemma_transitive(s[b[0] as int], s[a[0] as int], s[y as int]);
                        lemma_trichotomy(s[b[0] as int], s[y as int]);
                    } else {
                        assert(a[t + 1] == y);
                    }
                } else {
                    let t = choose|t: int| 0 <= t < b1.len() && b1[t] == y;
                    if from_b {
                        assert(b[t + 1] == y);
                    } else {
                        assert(a[0] < b[t]);
                    }
                }
            }
        }
    }
}

/// The order in which a stable sort index visits positions: by item, and
/// among equal items by position.
pub open spec fn visits_before<T: PartialOrd>(s: Seq<T>) -> spec_fn(usize, usize) -> bool {
    |i: usize, j: usize| lt(s[i as int], s[j as int]) || (equiv(s[i as int], s[j as int]) && i <= j)
}

/// There is only one stable sort index of a range.
pub proof fn lemma_sort_index_unique<T: PartialOrd>(
    s: Seq<T>,
    p: Seq<usize>,
    q: Seq<usize>,
    lo: int,
    n: int,
)
    requires
        total_order::<T>(),
        is_sort_index(s, p, lo, n),
        is_sort_index(s, q, lo, n),
    ensures
        p == q,
{
    let leq = visits_before(s);
    assert(total_ordering(leq)) by {
        assert forall|x: usize| #[trigger] leq(x, x) by {
            lemma_reflexive(s[x as int]);
        }
        assert forall|x: usize, y: usize| #[trigger] leq(x, y) && #[trigger] leq(y, x) implies x
            == y by {
            lemma_trichotomy(s[x as int], s[y as int]);
        }
        assert forall|x: usize, y: usize, z: usize| #[trigger]
            leq(x, y) && #[trigger] leq(y, z) implies leq(x, z) by {
            lemma_trichotomy(s[x as int], s[y as int]);
            lemma_trichotomy(s[y as int], s[z as int]);
            lemma_transitive(s[x as int], s[y as int], s[z as int]);
        }
        assert forall|x: usize, y: usize| #[trigger] leq(x, y) || #[trigger] leq(y, x) by {
            lemma_trichotomy(s[x as int], s[y as int]);
        }
    }
    assert(sorted_by(p, leq)) by {
        assert forall|i: int, j: int| 0 <= i < j < p.len() implies #[trigger] leq(p[i], p[j]) by {
            assert(le(s[p[i] as int], s[p[j] as int]));
        }
    }
    assert(sorted_by(q, leq)) by {
        assert forall|i: int, j: int| 0 <= i < j < q.len() implies #[trigger] leq(q[i], q[j]) by {
            assert(le(s[q[i] as int], s[q[j] as int]));
        }
    }
    lemma_lists_range_same_items(p, q, lo);
    lemma_sorted_unique(p, q, leq);
}

/// Merges two ascending sort indices into `s` into one. Where the next
/// items of both compare equal, the one from `idx1` comes first.
pub fn merge_indices<T: PartialOrd + Copy>(s: &[T], idx1: &[usize], idx2: &[usize]) -> (r: Vec<
    usize,
>)
    requires
        total_order::<T>(),
        in_range(idx1@, s@.len() as int),
        in_range(idx2@, s@.len() as int),
    ensures
        r@ == merged(s@, idx1@, idx2@),
{
    let l1 = idx1.len();
    let l2 = idx2.len();
    let mut r: Vec<usize> = Vec::new();
    let mut i1: usize = 0;
    let mut i2: usize = 0;
    assert(idx1@.skip(0) =~= idx1@ && idx2@.skip(0) =~= idx2@);
    while i1 < l1 && i2 < l2
        invariant
            total_order::<T>(),
            l1 == idx1@.len(),
            l2 == idx2@.len(),
            i1 <= l1,
            i2 <= l2,
            in_range(idx1@, s@.len() as int),
            in_range(idx2@, s@.len() as int),
            r@ + merged(s@, idx1@.skip(i1 as int), idx2@.skip(i2 as int)) == merged(
                s@,
                idx1@,
                idx2@,
            ),
        decreases l1 - i1 + l2 - i2,
    {
        let ghost a = idx1@.skip(i1 as int);
        let ghost b = idx2@.skip(i2 as int);
        let ghost before = r@;
        proof {
            lemma_trichotomy(s@[idx1@[i1 as int] as int], s@[idx2@[i2 as int] as int]);
            assert(a[0] == idx1@[i1 as int] && b[0] == idx2@[i2 as int]);
            assert(a.drop_first() =~= idx1@.skip(i1 + 1));
            assert(b.drop_first() =~= idx2@.skip(i2 + 1));
        }
        if s[idx1[i1]] > s[idx2[i2]] {
            r.push(idx2[i2]);
            i2 += 1;
            assert(r@ + merged(s@, a, b.drop_first()) =~= before + merged(s@, a, b));
        } else {
            r.push(idx1[i1]);
            i1 += 1;
            assert(r@ + merged(s@, a.drop_first(), b) =~= before + merged(s@, a, b));
        }
    }
    while i1 < l1
        invariant
            l1 == idx1@.len(),
            l2 == idx2@.len(),
            i1 <= l1,
            i2 <= l2,
            i1 == l1 || i2 == l2,
            r@ + merged(s@, idx1@.skip(i1 as int), idx2@.skip(i2 as int)) == merged(
                s@,
                idx1@,
                idx2@,
            ),
        decreases l1 - i1,
    {
        let ghost before = r@;
        let ghost a = idx1@.skip(i1 as int);
        r.push(idx1[i1]);
        i1 += 1;
        assert(r@ + idx1@.skip(i1 as int) =~= before + a);
    }
    while i2 < l2
        invariant
            l1 == idx1@.len(),
            l2 == idx2@.len(),
            i1 == l1,
            i2 <= l2,
            r@ + merged(s@, idx1@.skip(i1 as int), idx2@.skip(i2 as int)) == merged(
                s@,
                idx1@,
                idx2@,
            ),
        decreases l2 - i2,
    {
        let ghost before = r@;
        let ghost b = idx2@.skip(i2 as int);
        r.push(idx2[i2]);
        i2 += 1;
        assert(r@ + idx2@.skip(i2 as int) =~= before + b);
    }
    assert(r@ =~= r@ + idx2@.skip(i2 as int));
    r
}

/// The two sorted halves of a range merge into the sort index of the
/// whole range.
pub proof fn lemma_merged_sort_index<T: PartialOrd>(
    s: Seq<T>,
    a: Seq<usize>,
    b: Seq<usize>,
    lo: int,
)
    requires
        total_order::<T>(),
        is_sort_index(s, a, lo, a.len() as int),
        is_sort_index(s, b, lo + a.len(), b.len() as int),
    ensures
        is_sort_index(s, merged(s, a, b), lo, (a.len() + b.len()) as int),
{
    let m = merged(s, a, b);
    lemma_merged_items(s, a, b);
    assert(a.disjoint(b));
    lemma_merged_distinct(s, a, b);
    lemma_merged_ascending(s, a, b);
    lemma_merged_stable(s, a, b);
    assert forall|k: int| 0 <= k < m.len() implies lo <= #[trigger] m[k] < lo + m.len() by {
        if a.contains(m[k]) {
            let t = choose|t: int| 0 <= t < a.len() && a[t] == m[k];
            assert(lo <= a[t] < lo + a.len());
        } else {
            let t = choose|t: int| 0 <= t < b.len() && b[t] == m[k];
            assert(lo + a.len() <= b[t] < lo + a.len() + b.len());
        }
    }
}

/// What holds of the sort index of a whole sequence: visiting the items
/// through it gives them in ascending order, none lost and none added, and
/// the rank index obtained by inverting it leads back to the same order.
pub proof fn lemma_sort_rank_duality<T: PartialOrd>(v: Seq<T>, idx: Seq<usize>)
    requires
        total_order::<T>(),
        v.len() <= usize::MAX,
        is_sort_index(v, idx, 0, v.len() as int),
    ensures
        idx == sort_index(v),
        is_permutation(idx),
        ascending(gather(idx, v)),
        gather(idx, v).to_multiset() == v.to_multiset(),
        is_permutation(invert(idx)),
        gather(invert(invert(idx)), v) == gather(idx, v),
{
    lemma_sort_index_unique(v, idx, sort_index(v), 0, v.len() as int);
    lemma_gather_rearranges(idx, v);
    lemma_invert(idx);
    lemma_invert_involution(idx);
    let g = gather(idx, v);
    assert forall|a: int, b: int| 0 <= a < b < g.len()
        implies le(#[trigger] g[a], #[trigger] g[b]) by {
        assert(le(v[idx[a] as int], v[idx[b] as int]));
    }
}

/// The order of the items as a relation, for sorting in the abstract.
pub open spec fn not_after<T: PartialOrd>() -> spec_fn(T, T) -> bool {
    |a: T, b: T| le(a, b)
}

/// Where items that compare equal are identical, the order of the items
/// is a total ordering.
pub proof fn lemma_not_after_is_total<T: PartialOrd>()
    requires
        total_order::<T>(),
        forall|a: T, b: T| equiv(a, b) ==> a == b,
    ensures
        total_ordering(not_after::<T>()),
{
    let leq = not_after::<T>();
    assert forall|x: T| #[trigger] leq(x, x) by {
        lemma_reflexive(x);
    }
    assert forall|x: T, y: T| #[trigger] leq(x, y) && #[trigger] leq(y, x) implies x == y by {
        lemma_trichotomy(x, y);
    }
    assert forall|x: T, y: T, z: T| #[trigger] leq(x, y) && #[trigger] leq(y, z) implies leq(
        x,
        z,
    ) by {
        lemma_transitive(x, y, z);
    }
    assert forall|x: T, y: T| #[trigger] leq(x, y) || #[trigger] leq(y, x) by {
        lemma_trichotomy(x, y);
    }
}

/// Where items that compare equal are identical, a collection of items has
/// only one ascending arrangement.
pub proof fn lemma_one_ascending_arrangement<T: PartialOrd>(x: Seq<T>, y: Seq<T>)
    requires
        total_order::<T>(),
        forall|a: T, b: T| equiv(a, b) ==> a == b,
        ascending(x),
        ascending(y),
        x.to_multiset() == y.to_multiset(),
    ensures
        x == y,
{
    let leq = not_after::<T>();
    lemma_not_after_is_total::<T>();
    assert(sorted_by(x, leq));
    assert(sorted_by(y, leq));
    lemma_sorted_unique(x, y, leq);
}

/// Where items that compare equal are identical, the sorted sequence is
/// the one and only ascending arrangement of the items.
pub proof fn lemma_sorted_is_the_ascending_arrangement<T: PartialOrd>(
    v: Seq<T>,
    idx: Seq<usize>,
    w: Seq<T>,
)
    requires
        total_order::<T>(),
        forall|a: T, b: T| equiv(a, b) ==> a == b,
        v.len() <= usize::MAX,
        is_sort_index(v, idx, 0, v.len() as int),
        ascending(w),
        w.to_multiset() == v.to_multiset(),
    ensures
        gather(idx, v) == w,
{
    lemma_sort_rank_duality(v, idx);
    lemma_one_ascending_arrangement(gather(idx, v), w);
}

/// Where items that compare equal are identical, reading the items through
/// their sort index gives the sequence sorted in the abstract.
pub proof fn lemma_sorted_is_the_abstract_sort<T: PartialOrd>(v: Seq<T>, idx: Seq<usize>)
    requires
        total_order::<T>(),
        forall|a: T, b: T| equiv(a, b) ==> a == b,
        v.len() <= usize::MAX,
        is_sort_index(v, idx, 0, v.len() as int),
    ensures
        total_ordering(not_after::<T>()),
        gather(idx, v) == v.sort_by(not_after::<T>()),
{
    let leq = not_after::<T>();
    lemma_not_after_is_total::<T>();
    let w = v.sort_by(leq);
    v.lemma_sort_by_ensures(leq);
    assert forall|a: int, b: int| 0 <= a < b < w.len() implies le(
        #[trigger] w[a],
        #[trigger] w[b],
    ) by {
        assert(leq(w[a], w[b]));
    }
    lemma_sorted_is_the_ascending_arrangement(v, idx, w);
}

/// Sort index of the `n` items of `s` that start at position `i`: the
/// positions `i..i + n`, ordered by their items, equal items in the order
/// of their positions. The data is not moved.
pub fn mergesort<T: PartialOrd + Copy>(s: &[T], i: usize, n: usize) -> (r: Vec<usize>)
    requires
        total_order::<T>(),
        i + n <= s@.len(),
    ensures
        is_sort_index(s@, r@, i as int, n as int),
    decreases n,
{
    let len = s.len();
    assert(i + n <= len);
    if n == 0 {
        return Vec::new();
    }
    if n == 1 {
        let r = vec![i];
        return r;
    }
    if n == 2 {
        proof {
            lemma_trichotomy(s@[i + 1], s@[i as int]);
        }
        if s[i + 1] < s[i] {
            let r = vec![i + 1, i];
            return r;
        } else {
            let r = vec![i, i + 1];
            return r;
        }
    }
    let n1 = n / 2;
    let n2 = n - n1;
    let sv1 = mergesort(s, i, n1);
    let sv2 = mergesort(s, i + n1, n2);
    proof {
        lemma_merged_sort_index(s@, sv1@, sv2@, i as int);
    }
    merge_indices(s, &sv1, &sv2)
}

/// Sort index of the whole of `s`.
pub fn sortidx<T: PartialOrd + Copy>(s: &[T]) -> (r: Vec<usize>)
    requires
        total_order::<T>(),
    ensures
        r@ == sort_index(s@),
        is_sort_index(s@, r@, 0, s@.len() as int),
        is_permutation(r@),
{
    let r = mergesort(s, 0, s.len());
    proof {
        lemma_sort_rank_duality(s@, r@);
    }
    r
}

/// A sorted copy of `s`, ascending or descending. Items that compare
/// equal keep their order in the ascending copy, of which the descending
/// copy is the reversal.
pub fn sortm<T: PartialOrd + Copy>(s: &[T], ascending: bool) -> (r: Vec<T>)
    requires
        total_order::<T>(),
    ensures
        r@ == if ascending {
            sorted(s@)
        } else {
            sorted(s@).reverse()
        },
        r@.to_multiset() == s@.to_multiset(),
        ascending ==> crate::order::ascending(r@),
        !ascending ==> descending(r@),
{
    let idx = sortidx(s);
    let n = s.len();
    let r = unindex(&idx, s, ascending);
    proof {
        assert(s@.len() == n);
        lemma_sort_rank_duality(s@, idx@);
        let g = gather(idx@, s@);
        if !ascending {
            g.lemma_reverse_to_multiset();
            assert forall|a: int, b: int| 0 <= a < b < r@.len() implies le(
                #[trigger] r@[b],
                #[trigger] r@[a],
            ) by {
                assert(le(g[g.len() - 1 - b], g[g.len() - 1 - a]));
            }
        }
    }
    r
}

/// Ranks of the items of `s`: entry `i` is the place that item `i` takes
/// in ascending order or, with `ascending` false, in descending order.
/// Descending ranks are the complement of the ascending ranks.
pub fn rank<T: PartialOrd + Copy>(s: &[T], ascending: bool) -> (r: Vec<usize>)
    requires
        total_order::<T>(),
    ensures
        r@ == if ascending {
            ranks(s@)
        } else {
            complement(ranks(s@))
        },
        is_permutation(r@),
{
    let n = s.len();
    let idx = sortidx(s);
    let mut r: Vec<usize> = vec![0; n];
    let mut i: usize = 0;
    while i < n
        invariant
            i <= n,
            n == idx@.len(),
            r@.len() == n,
            is_permutation(idx@),
            forall|k: int| 0 <= k < i ==> r@[#[trigger] idx@[k] as int] == (if ascending {
                k
            } else {
                n - 1 - k
            }),
        decreases n - i,
    {
        let ghost before = r@;
        if ascending {
            r[idx[i]] = i;
        } else {
            r[idx[i]] = n - i - 1;
        }
        assert forall|k: int| 0 <= k < i + 1 implies r@[#[trigger] idx@[k] as int]
            == (if ascending {
            k
        } else {
            n - 1 - k
        }) by {
            if k < i {
                assert(idx@[k] != idx@[i as int]);
                assert(before[idx@[k] as int] == (if ascending {
                    k
                } else {
                    n - 1 - k
                }));
            }
        }
        i += 1;
    }
    proof {
        lemma_invert(idx@);
        let q = invert(idx@);
        if ascending {
            lemma_invert_unique(idx@, r@);
        } else {
            crate::indices::lemma_complement(q);
            assert forall|j: int| 0 <= j < n implies r@[j] == complement(q)[j] by {
                assert(idx@[q[j] as int] == j);
            }
            assert(r@ =~= complement(q));
        }
    }
    r
}

/// Concatenates `v1` and `v2` without moving an item and merges their sort
/// indices into an index of the concatenation. Where `idx1` and `idx2` are
/// the sort indices of `v1` and `v2`, the result is the sort index of the
/// concatenation.
pub fn merge_indexed<T: PartialOrd + Copy>(
    v1: &[T],
    idx1: &[usize],
    v2: &[T],
    idx2: &[usize],
) -> (r: (Vec<T>, Vec<usize>))
    requires
        total_order::<T>(),
        in_range(idx1@, v1@.len() as int),
        in_range(idx2@, v2@.len() as int),
        v1@.len() + v2@.len() <= usize::MAX,
    ensures
        r.0@ == v1@ + v2@,
        r.1@ == merged(r.0@, idx1@, shifted(idx2@, v1@.len() as int)),
        is_sort_index(v1@, idx1@, 0, v1@.len() as int) && is_sort_index(
            v2@,
            idx2@,
            0,
            v2@.len() as int,
        ) ==> is_sort_index(r.0@, r.1@, 0, (v1@.len() + v2@.len()) as int),
{
    let l1 = v1.len();
    let mut res: Vec<T> = Vec::new();
    let mut i: usize = 0;
    while i < l1
        invariant
            i <= l1,
            l1 == v1@.len(),
            res@ == v1@.take(i as int),
        decreases l1 - i,
    {
        res.push(v1[i]);
        i += 1;
        assert(res@ =~= v1@.take(i as int));
    }
    let l2 = v2.len();
    let mut j: usize = 0;
    while j < l2
        invariant
            j <= l2,
            l2 == v2@.len(),
            res@ == v1@ + v2@.take(j as int),
        decreases l2 - j,
    {
        res.push(v2[j]);
        j += 1;
        assert(res@ =~= v1@ + v2@.take(j as int));
    }
    assert(res@ =~= v1@ + v2@);
    let m = idx2.len();
    let mut idx2shifted: Vec<usize> = Vec::new();
    let mut k: usize = 0;
    while k < m
        invariant
            k <= m,
            m == idx2@.len(),
            l1 == v1@.len(),
            in_range(idx2@, v2@.len() as int),
            v1@.len() + v2@.len() <= usize::MAX,
            idx2shifted@.len() == k,
            forall|t: int| 0 <= t < k ==> idx2shifted@[t] == idx2@[t] + l1,
        decreases m - k,
    {
        idx2shifted.push(l1 + idx2[k]);
        k += 1;
    }
    assert(idx2shifted@ =~= shifted(idx2@, l1 as int));
    let residx = merge_indices(&res, idx1, &idx2shifted);
    proof {
        let a = idx1@;
        let b = idx2shifted@;
        let s = res@;
        if is_sort_index(v1@, idx1@, 0, l1 as int) && is_sort_index(v2@, idx2@, 0, l2 as int) {
            assert(is_sort_index(s, a, 0, a.len() as int)) by {
                assert forall|x: int, y: int| 0 <= x < y < a.len() implies le(
                    s[#[trigger] a[x] as int],
                    s[#[trigger] a[y] as int],
                ) && (equiv(s[a[x] as int], s[a[y] as int]) ==> a[x] < a[y]) by {
                    assert(s[a[x] as int] == v1@[a[x] as int]);
                    assert(s[a[y] as int] == v1@[a[y] as int]);
                }
            }
            assert(is_sort_index(s, b, l1 as int, b.len() as int)) by {
                assert forall|x: int, y: int| 0 <= x < b.len() && 0 <= y < b.len() && x
                    != y implies b[x] != b[y] by {
                    assert(idx2@[x] != idx2@[y]);
                }
                assert forall|x: int, y: int| 0 <= x < y < b.len() implies le(
                    s[#[trigger] b[x] as int],
                    s[#[trigger] b[y] as int],
                ) && (equiv(s[b[x] as int], s[b[y] as int]) ==> b[x] < b[y]) by {
                    assert(s[b[x] as int] == v2@[idx2@[x] as int]);
                    assert(s[b[y] as int] == v2@[idx2@[y] as int]);
                }
            }
            lemma_merged_sort_index(s, a, b, 0);
        }
    }
    (res, residx)
}

} // verus!
