//! Buckets: how keys are spread over them, and what is in them when they
//! are laid out one after the other.

use vstd::prelude::*;
use vstd::arithmetic::div_mod::{lemma_div_is_ordered, lemma_div_pos_is_pos};

verus! {

/// A partition of fewer items than this is sorted by insertion.
pub const SHORT_RUN: usize = 120;

/// The bucket of `key` among `n` buckets that share the range `min..=max`
/// in proportion: `n * (key - min) / (max - min)`, rounded down, the bucket
/// of `max` being the last.
pub open spec fn bucket(key: u64, min: u64, max: u64, n: int) -> int {
    let q = (n * (key - min)) / (max - min);
    if q >= n {
        n - 1
    } else {
        q
    }
}

/// A larger key never falls into an earlier bucket.
pub proof fn lemma_bucket_ordered(k1: u64, k2: u64, min: u64, max: u64, n: int)
    requires
        min < max,
        min <= k1 <= k2 <= max,
        n > 0,
    ensures
        0 <= bucket(k1, min, max, n) <= bucket(k2, min, max, n) < n,
{
    let d = max - min;
    let x1 = n * (k1 - min);
    let x2 = n * (k2 - min);
    assert(0 <= x1 <= x2) by (nonlinear_arith)
        requires
            x1 == n * (k1 - min),
            x2 == n * (k2 - min),
            n > 0,
            0 <= k1 - min <= k2 - min,
    ;
    lemma_div_is_ordered(x1, x2, d);
    lemma_div_pos_is_pos(x1, d);
    lemma_div_pos_is_pos(x2, d);
}

/// The bucket of `key` among `n` buckets over the range `min..=max`.
pub fn bucket_of(key: u64, min: u64, max: u64, n: usize) -> (b: usize)
    requires
        min < max,
        min <= key <= max,
        n > 0,
    ensures
        b == bucket(key, min, max, n as int),
        b < n,
{
    let span: u128 = (max - min) as u128;
    let offset: u128 = (key - min) as u128;
    assert(0 <= n * offset <= u128::MAX) by (nonlinear_arith)
        requires
            0 <= n <= 0xFFFF_FFFF_FFFF_FFFF,
            0 <= offset <= 0xFFFF_FFFF_FFFF_FFFF,
    ;
    let q: u128 = (n as u128) * offset / span;
    proof {
        lemma_bucket_ordered(key, key, min, max, n as int);
    }
    if q >= n as u128 {
        n - 1
    } else {
        q as usize
    }
}

/// The contents of the buckets, one sequence for each.
pub open spec fn contents<T>(buckets: Seq<Vec<T>>) -> Seq<Seq<T>> {
    Seq::new(buckets.len(), |b: int| buckets[b]@)
}

/// The buckets laid out one after the other.
pub open spec fn poured<T>(m: Seq<Seq<T>>) -> Seq<T>
    decreases m.len(),
{
    if m.len() == 0 {
        Seq::empty()
    } else {
        poured(m.drop_last()) + m.last()
    }
}

/// Laying out one more bucket appends its contents, and no prefix of the
/// buckets is longer than all of them.
pub proof fn lemma_poured_step<T>(m: Seq<Seq<T>>, j: int)
    requires
        0 <= j < m.len(),
    ensures
        poured(m.take(j + 1)) == poured(m.take(j)) + m[j],
        poured(m.take(j + 1)).len() <= poured(m).len(),
    decreases m.len() - j,
{
    assert(m.take(j + 1).drop_last() =~= m.take(j));
    assert(m.take(j + 1).last() == m[j]);
    if j + 1 < m.len() {
        lemma_poured_step(m, j + 1);
    } else {
        assert(m.take(j + 1) =~= m);
    }
}

/// An entry pushed onto one of the buckets is one more entry of the layout.
pub proof fn lemma_poured_push<T>(m: Seq<Seq<T>>, m2: Seq<Seq<T>>, b: int, x: T)
    requires
        0 <= b < m.len(),
        m2.len() == m.len(),
        m2[b] == m[b].push(x),
        forall|k: int| 0 <= k < m.len() && k != b ==> m2[k] == m[k],
    ensures
        poured(m2).to_multiset() == poured(m).to_multiset().insert(x),
    decreases m.len(),
{
    broadcast use vstd::seq_lib::lemma_multiset_commutative;
    broadcast use vstd::seq_lib::group_to_multiset_ensures;

    let head = m.drop_last();
    let head2 = m2.drop_last();
    if b == m.len() - 1 {
        assert(head2 =~= head);
        assert(poured(m2) =~= poured(m).push(x));
    } else {
        lemma_poured_push(head, head2, b, x);
        assert(m2.last() == m.last());
        assert(poured(m2).to_multiset() =~= poured(head2).to_multiset().add(
            m.last().to_multiset(),
        ));
        assert(poured(m).to_multiset() =~= poured(head).to_multiset().add(m.last().to_multiset()));
        assert(poured(m2).to_multiset() =~= poured(m).to_multiset().insert(x));
    }
}

/// Empty buckets lay out to nothing.
pub proof fn lemma_poured_empty<T>(m: Seq<Seq<T>>)
    requires
        forall|k: int| 0 <= k < m.len() ==> (#[trigger] m[k]).len() == 0,
    ensures
        poured(m).len() == 0,
    decreases m.len(),
{
    if m.len() > 0 {
        lemma_poured_empty(m.drop_last());
    }
}

} // verus!
