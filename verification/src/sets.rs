//! Set algebra over ascending sequences by linear co-iteration.
//!
//! Every operation walks two cursors over its inputs and decides at each
//! step from the two items under the cursors alone. What it returns is
//! therefore defined for all inputs; that the result is itself ascending,
//! and is the union, intersection or difference of the inputs as sets,
//! holds where the inputs are ascending.

use vstd::prelude::*;
use vstd::seq_lib::group_to_multiset_ensures;
use crate::indices::{gather, identity, in_range};
use crate::order::{
    after, ascending, before, beside, decides_equality, equiv, gt, le, lemma_reflexive,
    lemma_transitive, lemma_trichotomy, lt, same, total_order,
};

verus! {

/// The merge of `a` and `b`: the smaller head first; of two heads that
/// compare equal, both, the one of `a` first.
pub open spec fn merge_of<T: PartialOrd>(a: Seq<T>, b: Seq<T>) -> Seq<T>
    decreases a.len() + b.len(),
{
    if a.len() == 0 {
        b
    } else if b.len() == 0 {
        a
    } else if lt(a[0], b[0]) {
        seq![a[0]] + merge_of(a.drop_first(), b)
    } else if gt(a[0], b[0]) {
        seq![b[0]] + merge_of(a, b.drop_first())
    } else {
        seq![a[0], b[0]] + merge_of(a.drop_first(), b.drop_first())
    }
}

/// The union of `a` and `b`: the smaller head first; of two heads that
/// compare equal, the one of `a` only.
pub open spec fn union_of<T: PartialOrd>(a: Seq<T>, b: Seq<T>) -> Seq<T>
    decreases a.len() + b.len(),
{
    if a.len() == 0 {
        b
    } else if b.len() == 0 {
        a
    } else if lt(a[0], b[0]) {
        seq![a[0]] + union_of(a.drop_first(), b)
    } else if gt(a[0], b[0]) {
        seq![b[0]] + union_of(a, b.drop_first())
    } else {
        seq![a[0]] + union_of(a.drop_first(), b.drop_first())
    }
}

/// The intersection of `a` and `b`: the items of `a` that meet an equal
/// head of `b`; each item of `b` is matched at most once.
pub open spec fn intersection_of<T: PartialOrd>(a: Seq<T>, b: Seq<T>) -> Seq<T>
    decreases a.len() + b.len(),
{
    if a.len() == 0 || b.len() == 0 {
        Seq::empty()
    } else if lt(a[0], b[0]) {
        intersection_of(a.drop_first(), b)
    } else if gt(a[0], b[0]) {
        intersection_of(a, b.drop_first())
    } else {
        seq![a[0]] + intersection_of(a.drop_first(), b.drop_first())
    }
}

/// The difference of `a` and `b`: the items of `a` that meet no equal head
/// of `b`; each item of `b` cancels at most one item of `a`.
pub open spec fn difference_of<T: PartialOrd>(a: Seq<T>, b: Seq<T>) -> Seq<T>
    decreases a.len() + b.len(),
{
    if a.len() == 0 {
        Seq::empty()
    } else if b.len() == 0 {
        a
    } else if lt(a[0], b[0]) {
        seq![a[0]] + difference_of(a.drop_first(), b)
    } else if gt(a[0], b[0]) {
        difference_of(a, b.drop_first())
    } else {
        difference_of(a.drop_first(), b.drop_first())
    }
}

/// `s` without its repetitions: an item is dropped where it is the same
/// as the last item kept before it.
pub open spec fn without_repeats<T: PartialEq>(s: Seq<T>) -> Seq<T>
    decreases s.len(),
{
    if s.len() <= 1 {
        s
    } else {
        let kept = without_repeats(s.drop_last());
        if same(s.last(), kept.last()) {
            kept
        } else {
            kept.push(s.last())
        }
    }
}

/// What is left begins as the sequence begins, is no longer than it, and
/// holds no item that is the same as the one before it.
pub proof fn lemma_without_repeats<T: PartialEq>(s: Seq<T>)
    ensures
        without_repeats(s).len() <= s.len(),
        s.len() > 0 ==> without_repeats(s).len() > 0 && without_repeats(s)[0] == s[0],
        forall|k: int|
            0 < k < without_repeats(s).len() ==> !same(
                #[trigger] without_repeats(s)[k],
                without_repeats(s)[k - 1],
            ),
    decreases s.len(),
{
    if s.len() > 1 {
        lemma_without_repeats(s.drop_last());
    }
}

/// The positions of `s` whose items satisfy `pred`, in ascending order.
pub open spec fn positions_where<T>(s: Seq<T>, pred: spec_fn(T) -> bool) -> Seq<usize> {
    identity(s.len()).filter(|i: usize| pred(s[i as int]))
}

/// The items of a sequence are its first item and the items of the rest.
proof fn lemma_first_and_rest<T>(a: Seq<T>)
    requires
        a.len() > 0,
    ensures
        a.to_multiset() == a.drop_first().to_multiset().insert(a[0]),
{
    broadcast use group_to_multiset_ensures;

    assert(a.remove(0) =~= a.drop_first());
    assert(a.contains(a[0]));
    assert(a.to_multiset() =~= a.drop_first().to_multiset().insert(a[0]));
}

/// Dropping the first item of an ascending sequence leaves it ascending,
/// and no later item orders before the first.
proof fn lemma_ascending_rest<T: PartialOrd>(a: Seq<T>)
    requires
        total_order::<T>(),
        ascending(a),
        a.len() > 0,
    ensures
        ascending(a.drop_first()),
        forall|i: int| 0 <= i < a.len() ==> le(a[0], #[trigger] a[i]),
{
    let a1 = a.drop_first();
    assert forall|i: int, j: int| 0 <= i < j < a1.len() implies le(
        #[trigger] a1[i],
        #[trigger] a1[j],
    ) by {
        assert(le(a[i + 1], a[j + 1]));
    }
    assert forall|i: int| 0 <= i < a.len() implies le(a[0], #[trigger] a[i]) by {
        if i == 0 {
            lemma_reflexive(a[0]);
        } else {
            assert(le(a[0], a[i]));
        }
    }
}

/// A sequence is ascending where its rest is and no item of the rest
/// orders before its first item.
proof fn lemma_ascending_from_rest<T: PartialOrd>(x: T, rest: Seq<T>)
    requires
        ascending(rest),
        forall|i: int| 0 <= i < rest.len() ==> le(x, #[trigger] rest[i]),
    ensures
        ascending(seq![x] + rest),
{
    let m = seq![x] + rest;
    assert forall|i: int, j: int| 0 <= i < j < m.len()
        implies le(#[trigger] m[i], #[trigger] m[j]) by {
        assert(m[j] == rest[j - 1]);
        if i > 0 {
            assert(m[i] == rest[i - 1]);
        }
    }
}

/// A merge holds every item of both inputs, and nothing else.
pub proof fn lemma_merge_keeps_all<T: PartialOrd>(a: Seq<T>, b: Seq<T>)
    ensures
        merge_of(a, b).len() == a.len() + b.len(),
        merge_of(a, b).to_multiset() == a.to_multiset().add(b.to_multiset()),
    decreases a.len() + b.len(),
{
    broadcast use group_to_multiset_ensures;

    let m = merge_of(a, b);
    if a.len() == 0 {
        assert(a.to_multiset().len() == 0);
        assert(m.to_multiset() =~= a.to_multiset().add(b.to_multiset()));
    } else if b.len() == 0 {
        assert(b.to_multiset().len() == 0);
        assert(m.to_multiset() =~= a.to_multiset().add(b.to_multiset()));
    } else {
        lemma_first_and_rest(a);
        lemma_first_and_rest(b);
        lemma_first_and_rest(m);
        if lt(a[0], b[0]) {
            lemma_merge_keeps_all(a.drop_first(), b);
            assert(m.drop_first() =~= merge_of(a.drop_first(), b));
        } else if gt(a[0], b[0]) {
            lemma_merge_keeps_all(a, b.drop_first());
            assert(m.drop_first() =~= merge_of(a, b.drop_first()));
        } else {
            lemma_merge_keeps_all(a.drop_first(), b.drop_first());
            let m1 = m.drop_first();
            lemma_first_and_rest(m1);
            assert(m1.drop_first() =~= merge_of(a.drop_first(), b.drop_first()));
            assert(m1[0] == b[0]);
        }
        assert(m.to_multiset() =~= a.to_multiset().add(b.to_multiset()));
    }
}

/// Every item of a merge or of a union is an item of one of the inputs.
pub proof fn lemma_merge_and_union_from_inputs<T: PartialOrd>(a: Seq<T>, b: Seq<T>)
    ensures
        forall|k: int|
            0 <= k < merge_of(a, b).len() ==> a.contains(#[trigger] merge_of(a, b)[k])
                || b.contains(merge_of(a, b)[k]),
        forall|k: int|
            0 <= k < union_of(a, b).len() ==> a.contains(#[trigger] union_of(a, b)[k])
                || b.contains(union_of(a, b)[k]),
        union_of(a, b).len() <= a.len() + b.len(),
    decreases a.len() + b.len(),
{
    let m = merge_of(a, b);
    let u = union_of(a, b);
    if a.len() == 0 {
        assert forall|k: int| 0 <= k < m.len() implies b.contains(#[trigger] m[k]) by {}
        assert forall|k: int| 0 <= k < u.len() implies b.contains(#[trigger] u[k]) by {}
    } else if b.len() == 0 {
        assert forall|k: int| 0 <= k < m.len() implies a.contains(#[trigger] m[k]) by {}
        assert forall|k: int| 0 <= k < u.len() implies a.contains(#[trigger] u[k]) by {}
    } else {
        let a1 = if gt(a[0], b[0]) { a } else { a.drop_first() };
        let b1 = if lt(a[0], b[0]) { b } else { b.drop_first() };
        lemma_merge_and_union_from_inputs(a1, b1);
        let mr = merge_of(a1, b1);
        let ur = union_of(a1, b1);
        assert forall|x: T| a1.contains(x) implies a.contains(x) by {
            let t = choose|t: int| 0 <= t < a1.len() && a1[t] == x;
            if !gt(a[0], b[0]) {
                assert(a[t + 1] == x);
            }
        }
        assert forall|x: T| b1.contains(x) implies b.contains(x) by {
            let t = choose|t: int| 0 <= t < b1.len() && b1[t] == x;
            if !lt(a[0], b[0]) {
                assert(b[t + 1] == x);
            }
        }
        assert(a.contains(a[0]) && b.contains(b[0]));
        assert forall|k: int| 0 <= k < m.len() implies a.contains(#[trigger] m[k]) || b.contains(
            m[k],
        ) by {
            let d = m.len() - mr.len();
            if k >= d {
                assert(m[k] == mr[k - d]);
            }
        }
        assert forall|k: int| 0 <= k < u.len() implies a.contains(#[trigger] u[k]) || b.contains(
            u[k],
        ) by {
            if k >= 1 {
                assert(u[k] == ur[k - 1]);
            }
        }
    }
}

/// The merge and the union of two ascending sequences are ascending.
pub proof fn lemma_merge_and_union_ascending<T: PartialOrd>(a: Seq<T>, b: Seq<T>)
    requires
        total_order::<T>(),
        ascending(a),
        ascending(b),
    ensures
        ascending(merge_of(a, b)),
        ascending(union_of(a, b)),
    decreases a.len() + b.len(),
{
    let m = merge_of(a, b);
    let u = union_of(a, b);
    if a.len() == 0 || b.len() == 0 {
    } else {
        lemma_ascending_rest(a);
        lemma_ascending_rest(b);
        lemma_trichotomy(a[0], b[0]);
        let a1 = if gt(a[0], b[0]) { a } else { a.drop_first() };
        let b1 = if lt(a[0], b[0]) { b } else { b.drop_first() };
        lemma_merge_and_union_ascending(a1, b1);
        lemma_merge_and_union_from_inputs(a1, b1);
        let mr = merge_of(a1, b1);
        let ur = union_of(a1, b1);
        let x = if gt(a[0], b[0]) { b[0] } else { a[0] };
        // Nothing that is left orders before the smaller head.
        assert forall|y: T| a1.contains(y) || b1.contains(y) implies le(x, y) by {
            if a1.contains(y) {
                let t = choose|t: int| 0 <= t < a1.len() && a1[t] == y;
                let t0 = if gt(a[0], b[0]) { t } else { t + 1 };
                assert(a[t0] == y);
                assert(le(a[0], a[t0]));
                lemma_transitive(x, a[0], y);
            } else {
                let t = choose|t: int| 0 <= t < b1.len() && b1[t] == y;
                let t0 = if lt(a[0], b[0]) { t } else { t + 1 };
                assert(b[t0] == y);
                assert(le(b[0], b[t0]));
                lemma_transitive(x, b[0], y);
            }
        }
        assert(u == seq![x] + ur);
        lemma_ascending_from_rest(x, ur);
        if lt(a[0], b[0]) || gt(a[0], b[0]) {
            assert(m == seq![x] + mr);
            lemma_ascending_from_rest(x, mr);
        } else {
            assert(m =~= seq![a[0]] + (seq![b[0]] + mr));
            assert forall|i: int| 0 <= i < mr.len() implies le(b[0], #[trigger] mr[i]) by {
                lemma_transitive(b[0], a[0], mr[i]);
            }
            lemma_ascending_from_rest(b[0], mr);
            let r2 = seq![b[0]] + mr;
            assert forall|i: int| 0 <= i < r2.len() implies le(a[0], #[trigger] r2[i]) by {
                if i > 0 {
                    assert(r2[i] == mr[i - 1]);
                }
            }
            lemma_ascending_from_rest(a[0], r2);
        }
    }
}

/// Every item of the first input goes either to the intersection or to the
/// difference: together the two hold exactly the items of the first input.
pub proof fn lemma_difference_and_intersection<T: PartialOrd>(a: Seq<T>, b: Seq<T>)
    ensures
        difference_of(a, b).to_multiset().add(intersection_of(a, b).to_multiset())
            == a.to_multiset(),
        intersection_of(a, b).to_multiset().subset_of(a.to_multiset()),
        difference_of(a, b).to_multiset().subset_of(a.to_multiset()),
    decreases a.len() + b.len(),
{
    broadcast use group_to_multiset_ensures;

    let d = difference_of(a, b);
    let x = intersection_of(a, b);
    if a.len() == 0 {
        assert(d.to_multiset().len() == 0 && x.to_multiset().len() == 0 && a.to_multiset().len()
            == 0);
        assert(d.to_multiset().add(x.to_multiset()) =~= a.to_multiset());
    } else if b.len() == 0 {
        assert(x.to_multiset().len() == 0);
        assert(d.to_multiset().add(x.to_multiset()) =~= a.to_multiset());
    } else {
        lemma_first_and_rest(a);
        if lt(a[0], b[0]) {
            lemma_difference_and_intersection(a.drop_first(), b);
            lemma_first_and_rest(d);
            assert(d.drop_first() =~= difference_of(a.drop_first(), b));
        } else if gt(a[0], b[0]) {
            lemma_difference_and_intersection(a, b.drop_first());
        } else {
            lemma_difference_and_intersection(a.drop_first(), b.drop_first());
            lemma_first_and_rest(x);
            assert(x.drop_first() =~= intersection_of(a.drop_first(), b.drop_first()));
        }
        assert(d.to_multiset().add(x.to_multiset()) =~= a.to_multiset());
    }
    assert(x.to_multiset().subset_of(a.to_multiset())) by {
        assert forall|v: T| x.to_multiset().count(v) <= a.to_multiset().count(v) by {
            assert(d.to_multiset().add(x.to_multiset()).count(v) == a.to_multiset().count(v));
        }
    }
    assert(d.to_multiset().subset_of(a.to_multiset())) by {
        assert forall|v: T| d.to_multiset().count(v) <= a.to_multiset().count(v) by {
            assert(d.to_multiset().add(x.to_multiset()).count(v) == a.to_multiset().count(v));
        }
    }
}

/// The intersection and the difference hold items of the first input only,
/// and are ascending where the first input is.
pub proof fn lemma_kept_from_first<T: PartialOrd>(a: Seq<T>, b: Seq<T>)
    requires
        total_order::<T>(),
    ensures
        forall|k: int|
            0 <= k < intersection_of(a, b).len()
                ==> a.contains(#[trigger] intersection_of(a, b)[k]),
        forall|k: int|
            0 <= k < difference_of(a, b).len() ==> a.contains(#[trigger] difference_of(a, b)[k]),
        ascending(a) ==> ascending(intersection_of(a, b)) && ascending(difference_of(a, b)),
    decreases a.len() + b.len(),
{
    let x = intersection_of(a, b);
    let d = difference_of(a, b);
    if a.len() == 0 {
    } else if b.len() == 0 {
        assert forall|k: int| 0 <= k < d.len() implies a.contains(#[trigger] d[k]) by {}
    } else {
        lemma_trichotomy(a[0], b[0]);
        let a1 = if gt(a[0], b[0]) { a } else { a.drop_first() };
        let b1 = if lt(a[0], b[0]) { b } else { b.drop_first() };
        lemma_kept_from_first(a1, b1);
        let xr = intersection_of(a1, b1);
        let dr = difference_of(a1, b1);
        assert forall|y: T| a1.contains(y) implies a.contains(y) by {
            let t = choose|t: int| 0 <= t < a1.len() && a1[t] == y;
            if !gt(a[0], b[0]) {
                assert(a[t + 1] == y);
            }
        }
        assert(a.contains(a[0]));
        assert forall|k: int| 0 <= k < x.len() implies a.contains(#[trigger] x[k]) by {
            let off = x.len() - xr.len();
            if k >= off {
                assert(x[k] == xr[k - off]);
            }
        }
        assert forall|k: int| 0 <= k < d.len() implies a.contains(#[trigger] d[k]) by {
            let off = d.len() - dr.len();
            if k >= off {
                assert(d[k] == dr[k - off]);
            }
        }
        if ascending(a) {
            lemma_ascending_rest(a);
            if !gt(a[0], b[0]) {
                // What is kept of the rest does not order before the first item.
                assert forall|y: T| a1.contains(y) implies le(a[0], y) by {
                    let t = choose|t: int| 0 <= t < a1.len() && a1[t] == y;
                    assert(a[t + 1] == y);
                }
                if lt(a[0], b[0]) {
                    assert(d == seq![a[0]] + dr);
                    lemma_ascending_from_rest(a[0], dr);
                } else {
                    assert(x == seq![a[0]] + xr);
                    lemma_ascending_from_rest(a[0], xr);
                }
            }
        }
    }
}

/// Every item of the intersection has an equal in the second input;
/// where items that compare equal are identical, the intersection holds
/// only items of the second input, each no more often than it does.
pub proof fn lemma_intersection_within_second<T: PartialOrd>(a: Seq<T>, b: Seq<T>)
    requires
        total_order::<T>(),
    ensures
        forall|k: int|
            0 <= k < intersection_of(a, b).len() ==> exists|j: int|
                0 <= j < b.len() && equiv(#[trigger] intersection_of(a, b)[k], b[j]),
        (forall|x: T, y: T| equiv(x, y) ==> x == y) ==> intersection_of(
            a,
            b,
        ).to_multiset().subset_of(b.to_multiset()),
    decreases a.len() + b.len(),
{
    broadcast use group_to_multiset_ensures;

    let x = intersection_of(a, b);
    if a.len() == 0 || b.len() == 0 {
        assert(x.to_multiset().len() == 0);
        assert forall|v: T| x.to_multiset().count(v) <= b.to_multiset().count(v) by {
            if x.to_multiset().count(v) > 0 {
                assert(x.to_multiset().len() > 0);
            }
        }
    } else {
        lemma_trichotomy(a[0], b[0]);
        let a1 = if gt(a[0], b[0]) { a } else { a.drop_first() };
        let b1 = if lt(a[0], b[0]) { b } else { b.drop_first() };
        lemma_intersection_within_second(a1, b1);
        let xr = intersection_of(a1, b1);
        lemma_first_and_rest(b);
        assert forall|k: int| 0 <= k < x.len() implies exists|j: int|
            0 <= j < b.len() && equiv(#[trigger] x[k], b[j]) by {
            let d = x.len() - xr.len();
            if k >= d {
                assert(x[k] == xr[k - d]);
                let j = choose|j: int| 0 <= j < b1.len() && equiv(xr[k - d], b1[j]);
                let j0 = if lt(a[0], b[0]) { j } else { j + 1 };
                assert(b[j0] == b1[j]);
            } else {
                assert(equiv(x[0], b[0]));
            }
        }
        if forall|x: T, y: T| equiv(x, y) ==> x == y {
            if !lt(a[0], b[0]) && !gt(a[0], b[0]) {
                lemma_first_and_rest(x);
                assert(x.drop_first() =~= xr);
                assert(a[0] == b[0]);
            }
            assert forall|v: T| x.to_multiset().count(v) <= b.to_multiset().count(v) by {
                assert(xr.to_multiset().count(v) <= b1.to_multiset().count(v));
            }
        }
    }
}

/// Appends the items of `v` from position `from` on.
fn append_rest<T: Copy>(r: &mut Vec<T>, v: &[T], from: usize)
    requires
        from <= v@.len(),
    ensures
        final(r)@ == old(r)@ + v@.skip(from as int),
{
    let n = v.len();
    let mut i: usize = from;
    assert(r@ + v@.skip(from as int).take(0) =~= r@);
    while i < n
        invariant
            from <= i <= n,
            n == v@.len(),
            r@ == old(r)@ + v@.skip(from as int).take(i - from),
        decreases n - i,
    {
        r.push(v[i]);
        i += 1;
        assert(r@ =~= old(r)@ + v@.skip(from as int).take(i - from));
    }
    assert(v@.skip(from as int).take(n - from) =~= v@.skip(from as int));
}

/// Appends the items of `v` at the positions that `ix` lists from its
/// entry `from` on.
fn append_rest_indexed<T: Copy>(r: &mut Vec<T>, v: &[T], ix: &[usize], from: usize)
    requires
        from <= ix@.len(),
        in_range(ix@, v@.len() as int),
    ensures
        final(r)@ == old(r)@ + gather(ix@, v@).skip(from as int),
{
    let n = ix.len();
    let mut i: usize = from;
    let ghost g = gather(ix@, v@);
    assert(r@ + g.skip(from as int).take(0) =~= r@);
    while i < n
        invariant
            from <= i <= n,
            n == ix@.len(),
            in_range(ix@, v@.len() as int),
            g == gather(ix@, v@),
            r@ == old(r)@ + g.skip(from as int).take(i - from),
        decreases n - i,
    {
        r.push(v[ix[i]]);
        i += 1;
        assert(r@ =~= old(r)@ + g.skip(from as int).take(i - from));
    }
    assert(g.skip(from as int).take(n - from) =~= g.skip(from as int));
}

/// Merges two ascending slices into one ascending vector that holds every
/// item of both.
pub fn merge<T: PartialOrd + Copy>(v1: &[T], v2: &[T]) -> (r: Vec<T>)
    requires
        total_order::<T>(),
    ensures
        r@ == merge_of(v1@, v2@),
        r@.len() == v1@.len() + v2@.len(),
        r@.to_multiset() == v1@.to_multiset().add(v2@.to_multiset()),
        ascending(v1@) && ascending(v2@) ==> ascending(r@),
{
    let l1 = v1.len();
    let l2 = v2.len();
    let mut r: Vec<T> = Vec::new();
    let mut i1: usize = 0;
    let mut i2: usize = 0;
    assert(v1@.skip(0) =~= v1@ && v2@.skip(0) =~= v2@);
    while i1 < l1 && i2 < l2
        invariant
            total_order::<T>(),
            l1 == v1@.len(),
            l2 == v2@.len(),
            i1 <= l1,
            i2 <= l2,
            r@ + merge_of(v1@.skip(i1 as int), v2@.skip(i2 as int)) == merge_of(v1@, v2@),
        decreases l1 - i1 + l2 - i2,
    {
        let ghost a = v1@.skip(i1 as int);
        let ghost b = v2@.skip(i2 as int);
        let ghost before = r@;
        proof {
            lemma_trichotomy(v1@[i1 as int], v2@[i2 as int]);
            assert(a[0] == v1@[i1 as int] && b[0] == v2@[i2 as int]);
            assert(a.drop_first() =~= v1@.skip(i1 + 1));
            assert(b.drop_first() =~= v2@.skip(i2 + 1));
        }
        if v1[i1] < v2[i2] {
            r.push(v1[i1]);
            i1 += 1;
            assert(r@ + merge_of(a.drop_first(), b) =~= before + merge_of(a, b));
        } else if v1[i1] > v2[i2] {
            r.push(v2[i2]);
            i2 += 1;
            assert(r@ + merge_of(a, b.drop_first()) =~= before + merge_of(a, b));
        } else {
            r.push(v1[i1]);
            r.push(v2[i2]);
            i1 += 1;
            i2 += 1;
            assert(r@ + merge_of(a.drop_first(), b.drop_first()) =~= before + merge_of(a, b));
        }
    }
    if i1 < l1 {
        append_rest(&mut r, v1, i1);
    } else {
        append_rest(&mut r, v2, i2);
    }
    proof {
        lemma_merge_keeps_all(v1@, v2@);
        if ascending(v1@) && ascending(v2@) {
            lemma_merge_and_union_ascending(v1@, v2@);
        }
    }
    r
}

/// Unites two ascending slices: as `merge`, but of two items that compare
/// equal, one from each slice, only the first is kept.
pub fn unite<T: PartialOrd + Copy>(v1: &[T], v2: &[T]) -> (r: Vec<T>)
    requires
        total_order::<T>(),
    ensures
        r@ == union_of(v1@, v2@),
        ascending(v1@) && ascending(v2@) ==> ascending(r@),
{
    let l1 = v1.len();
    let l2 = v2.len();
    let mut r: Vec<T> = Vec::new();
    let mut i1: usize = 0;
    let mut i2: usize = 0;
    assert(v1@.skip(0) =~= v1@ && v2@.skip(0) =~= v2@);
    while i1 < l1 && i2 < l2
        invariant
            total_order::<T>(),
            l1 == v1@.len(),
            l2 == v2@.len(),
            i1 <= l1,
            i2 <= l2,
            r@ + union_of(v1@.skip(i1 as int), v2@.skip(i2 as int)) == union_of(v1@, v2@),
        decreases l1 - i1 + l2 - i2,
    {
        let ghost a = v1@.skip(i1 as int);
        let ghost b = v2@.skip(i2 as int);
        let ghost before = r@;
        proof {
            lemma_trichotomy(v1@[i1 as int], v2@[i2 as int]);
            assert(a[0] == v1@[i1 as int] && b[0] == v2@[i2 as int]);
            assert(a.drop_first() =~= v1@.skip(i1 + 1));
            assert(b.drop_first() =~= v2@.skip(i2 + 1));
        }
        if v1[i1] < v2[i2] {
            r.push(v1[i1]);
            i1 += 1;
            assert(r@ + union_of(a.drop_first(), b) =~= before + union_of(a, b));
        } else if v1[i1] > v2[i2] {
            r.push(v2[i2]);
            i2 += 1;
            assert(r@ + union_of(a, b.drop_first()) =~= before + union_of(a, b));
        } else {
            r.push(v1[i1]);
            i1 += 1;
            i2 += 1;
            assert(r@ + union_of(a.drop_first(), b.drop_first()) =~= before + union_of(a, b));
        }
    }
    if i1 < l1 {
        append_rest(&mut r, v1, i1);
    } else {
        append_rest(&mut r, v2, i2);
    }
    proof {
        if ascending(v1@) && ascending(v2@) {
            lemma_merge_and_union_ascending(v1@, v2@);
        }
    }
    r
}

/// Concatenates two slices, in whatever order their items are.
pub fn unite_unsorted<T: Copy>(v1: &[T], v2: &[T]) -> (r: Vec<T>)
    ensures
        r@ == v1@ + v2@,
{
    let mut r: Vec<T> = Vec::new();
    append_rest(&mut r, v1, 0);
    append_rest(&mut r, v2, 0);
    assert(r@ =~= v1@ + v2@);
    r
}

/// Intersects two ascending slices.
pub fn intersect<T: PartialOrd + Copy>(v1: &[T], v2: &[T]) -> (r: Vec<T>)
    requires
        total_order::<T>(),
    ensures
        r@ == intersection_of(v1@, v2@),
        r@.to_multiset().subset_of(v1@.to_multiset()),
        ascending(v1@) ==> ascending(r@),
{
    let l1 = v1.len();
    let l2 = v2.len();
    let mut r: Vec<T> = Vec::new();
    let mut i1: usize = 0;
    let mut i2: usize = 0;
    assert(v1@.skip(0) =~= v1@ && v2@.skip(0) =~= v2@);
    while i1 < l1 && i2 < l2
        invariant
            total_order::<T>(),
            l1 == v1@.len(),
            l2 == v2@.len(),
            i1 <= l1,
            i2 <= l2,
            r@ + intersection_of(v1@.skip(i1 as int), v2@.skip(i2 as int)) == intersection_of(
                v1@,
                v2@,
            ),
        decreases l1 - i1 + l2 - i2,
    {
        let ghost a = v1@.skip(i1 as int);
        let ghost b = v2@.skip(i2 as int);
        let ghost before = r@;
        proof {
            lemma_trichotomy(v1@[i1 as int], v2@[i2 as int]);
            assert(a[0] == v1@[i1 as int] && b[0] == v2@[i2 as int]);
            assert(a.drop_first() =~= v1@.skip(i1 + 1));
            assert(b.drop_first() =~= v2@.skip(i2 + 1));
        }
        if v1[i1] < v2[i2] {
            i1 += 1;
        } else if v1[i1] > v2[i2] {
            i2 += 1;
        } else {
            r.push(v1[i1]);
            i1 += 1;
            i2 += 1;
            assert(r@ + intersection_of(a.drop_first(), b.drop_first()) =~= before
                + intersection_of(a, b));
        }
    }
    assert(r@ + Seq::<T>::empty() =~= r@);
    proof {
        lemma_difference_and_intersection(v1@, v2@);
        lemma_kept_from_first(v1@, v2@);
    }
    r
}

/// Removes the items of the ascending slice `v2` from the ascending slice
/// `v1`.
pub fn diff<T: PartialOrd + Copy>(v1: &[T], v2: &[T]) -> (r: Vec<T>)
    requires
        total_order::<T>(),
    ensures
        r@ == difference_of(v1@, v2@),
        r@.to_multiset().subset_of(v1@.to_multiset()),
        ascending(v1@) ==> ascending(r@),
{
    let l1 = v1.len();
    let l2 = v2.len();
    let mut r: Vec<T> = Vec::new();
    let mut i1: usize = 0;
    let mut i2: usize = 0;
    assert(v1@.skip(0) =~= v1@ && v2@.skip(0) =~= v2@);
    while i1 < l1 && i2 < l2
        invariant
            total_order::<T>(),
            l1 == v1@.len(),
            l2 == v2@.len(),
            i1 <= l1,
            i2 <= l2,
            r@ + difference_of(v1@.skip(i1 as int), v2@.skip(i2 as int)) == difference_of(
                v1@,
                v2@,
            ),
        decreases l1 - i1 + l2 - i2,
    {
        let ghost a = v1@.skip(i1 as int);
        let ghost b = v2@.skip(i2 as int);
        let ghost before = r@;
        proof {
            lemma_trichotomy(v1@[i1 as int], v2@[i2 as int]);
            assert(a[0] == v1@[i1 as int] && b[0] == v2@[i2 as int]);
            assert(a.drop_first() =~= v1@.skip(i1 + 1));
            assert(b.drop_first() =~= v2@.skip(i2 + 1));
        }
        if v1[i1] < v2[i2] {
            r.push(v1[i1]);
            i1 += 1;
            assert(r@ + difference_of(a.drop_first(), b) =~= before + difference_of(a, b));
        } else if v1[i1] > v2[i2] {
            i2 += 1;
        } else {
            i1 += 1;
            i2 += 1;
        }
    }
    if i1 < l1 {
        append_rest(&mut r, v1, i1);
    } else {
        assert(r@ + Seq::<T>::empty() =~= r@);
    }
    proof {
        lemma_difference_and_intersection(v1@, v2@);
        lemma_kept_from_first(v1@, v2@);
    }
    r
}

/// Unites two slices that are ascending when read through their indices;
/// the result holds the items themselves, in ascending order.
pub fn unite_indexed<T: PartialOrd + Copy>(
    v1: &[T],
    ix1: &[usize],
    v2: &[T],
    ix2: &[usize],
) -> (r: Vec<T>)
    requires
        total_order::<T>(),
        in_range(ix1@, v1@.len() as int),
        in_range(ix2@, v2@.len() as int),
    ensures
        r@ == union_of(gather(ix1@, v1@), gather(ix2@, v2@)),
        ascending(gather(ix1@, v1@)) && ascending(gather(ix2@, v2@)) ==> ascending(r@),
{
    let l1 = ix1.len();
    let l2 = ix2.len();
    let ghost g1 = gather(ix1@, v1@);
    let ghost g2 = gather(ix2@, v2@);
    let mut r: Vec<T> = Vec::new();
    let mut i1: usize = 0;
    let mut i2: usize = 0;
    assert(g1.skip(0) =~= g1 && g2.skip(0) =~= g2);
    while i1 < l1 && i2 < l2
        invariant
            total_order::<T>(),
            l1 == ix1@.len(),
            l2 == ix2@.len(),
            i1 <= l1,
            i2 <= l2,
            in_range(ix1@, v1@.len() as int),
            in_range(ix2@, v2@.len() as int),
            g1 == gather(ix1@, v1@),
            g2 == gather(ix2@, v2@),
            r@ + union_of(g1.skip(i1 as int), g2.skip(i2 as int)) == union_of(g1, g2),
        decreases l1 - i1 + l2 - i2,
    {
        let ghost a = g1.skip(i1 as int);
        let ghost b = g2.skip(i2 as int);
        let ghost before = r@;
        let x1 = v1[ix1[i1]];
        let x2 = v2[ix2[i2]];
        proof {
            lemma_trichotomy(x1, x2);
            assert(a[0] == x1 && b[0] == x2);
            assert(a.drop_first() =~= g1.skip(i1 + 1));
            assert(b.drop_first() =~= g2.skip(i2 + 1));
        }
        if x1 < x2 {
            r.push(x1);
            i1 += 1;
            assert(r@ + union_of(a.drop_first(), b) =~= before + union_of(a, b));
        } else if x1 > x2 {
            r.push(x2);
            i2 += 1;
            assert(r@ + union_of(a, b.drop_first()) =~= before + union_of(a, b));
        } else {
            r.push(x1);
            i1 += 1;
            i2 += 1;
            assert(r@ + union_of(a.drop_first(), b.drop_first()) =~= before + union_of(a, b));
        }
    }
    if i1 < l1 {
        append_rest_indexed(&mut r, v1, ix1, i1);
    } else {
        append_rest_indexed(&mut r, v2, ix2, i2);
    }
    proof {
        if ascending(gather(ix1@, v1@)) && ascending(gather(ix2@, v2@)) {
            lemma_merge_and_union_ascending(gather(ix1@, v1@), gather(ix2@, v2@));
        }
    }
    r
}

/// Intersects two slices that are ascending when read through their
/// indices; the result holds the items themselves.
pub fn intersect_indexed<T: PartialOrd + Copy>(
    v1: &[T],
    ix1: &[usize],
    v2: &[T],
    ix2: &[usize],
) -> (r: Vec<T>)
    requires
        total_order::<T>(),
        in_range(ix1@, v1@.len() as int),
        in_range(ix2@, v2@.len() as int),
    ensures
        r@ == intersection_of(gather(ix1@, v1@), gather(ix2@, v2@)),
        r@.to_multiset().subset_of(gather(ix1@, v1@).to_multiset()),
        ascending(gather(ix1@, v1@)) ==> ascending(r@),
{
    let l1 = ix1.len();
    let l2 = ix2.len();
    let ghost g1 = gather(ix1@, v1@);
    let ghost g2 = gather(ix2@, v2@);
    let mut r: Vec<T> = Vec::new();
    let mut i1: usize = 0;
    let mut i2: usize = 0;
    assert(g1.skip(0) =~= g1 && g2.skip(0) =~= g2);
    while i1 < l1 && i2 < l2
        invariant
            total_order::<T>(),
            l1 == ix1@.len(),
            l2 == ix2@.len(),
            i1 <= l1,
            i2 <= l2,
            in_range(ix1@, v1@.len() as int),
            in_range(ix2@, v2@.len() as int),
            g1 == gather(ix1@, v1@),
            g2 == gather(ix2@, v2@),
            r@ + intersection_of(g1.skip(i1 as int), g2.skip(i2 as int)) == intersection_of(g1, g2),
        decreases l1 - i1 + l2 - i2,
    {
        let ghost a = g1.skip(i1 as int);
        let ghost b = g2.skip(i2 as int);
        let ghost before = r@;
        let x1 = v1[ix1[i1]];
        let x2 = v2[ix2[i2]];
        proof {
            lemma_trichotomy(x1, x2);
            assert(a[0] == x1 && b[0] == x2);
            assert(a.drop_first() =~= g1.skip(i1 + 1));
            assert(b.drop_first() =~= g2.skip(i2 + 1));
        }
        if x1 < x2 {
            i1 += 1;
        } else if x1 > x2 {
            i2 += 1;
        } else {
            r.push(x1);
            i1 += 1;
            i2 += 1;
            assert(r@ + intersection_of(a.drop_first(), b.drop_first()) =~= before
                + intersection_of(a, b));
        }
    }
    assert(r@ + Seq::<T>::empty() =~= r@);
    proof {
        lemma_difference_and_intersection(gather(ix1@, v1@), gather(ix2@, v2@));
        lemma_kept_from_first(gather(ix1@, v1@), gather(ix2@, v2@));
    }
    r
}

/// Removes the items of `v2` from `v1`, both ascending when read through
/// their indices; the result holds the items themselves.
pub fn diff_indexed<T: PartialOrd + Copy>(
    v1: &[T],
    ix1: &[usize],
    v2: &[T],
    ix2: &[usize],
) -> (r: Vec<T>)
    requires
        total_order::<T>(),
        in_range(ix1@, v1@.len() as int),
        in_range(ix2@, v2@.len() as int),
    ensures
        r@ == difference_of(gather(ix1@, v1@), gather(ix2@, v2@)),
        r@.to_multiset().subset_of(gather(ix1@, v1@).to_multiset()),
        ascending(gather(ix1@, v1@)) ==> ascending(r@),
{
    let l1 = ix1.len();
    let l2 = ix2.len();
    let ghost g1 = gather(ix1@, v1@);
    let ghost g2 = gather(ix2@, v2@);
    let mut r: Vec<T> = Vec::new();
    let mut i1: usize = 0;
    let mut i2: usize = 0;
    assert(g1.skip(0) =~= g1 && g2.skip(0) =~= g2);
    while i1 < l1 && i2 < l2
        invariant
            total_order::<T>(),
            l1 == ix1@.len(),
            l2 == ix2@.len(),
            i1 <= l1,
            i2 <= l2,
            in_range(ix1@, v1@.len() as int),
            in_range(ix2@, v2@.len() as int),
            g1 == gather(ix1@, v1@),
            g2 == gather(ix2@, v2@),
            r@ + difference_of(g1.skip(i1 as int), g2.skip(i2 as int)) == difference_of(g1, g2),
        decreases l1 - i1 + l2 - i2,
    {
        let ghost a = g1.skip(i1 as int);
        let ghost b = g2.skip(i2 as int);
        let ghost before = r@;
        let x1 = v1[ix1[i1]];
        let x2 = v2[ix2[i2]];
        proof {
            lemma_trichotomy(x1, x2);
            assert(a[0] == x1 && b[0] == x2);
            assert(a.drop_first() =~= g1.skip(i1 + 1));
            assert(b.drop_first() =~= g2.skip(i2 + 1));
        }
        if x1 < x2 {
            r.push(x1);
            i1 += 1;
            assert(r@ + difference_of(a.drop_first(), b) =~= before + difference_of(a, b));
        } else if x1 > x2 {
            i2 += 1;
        } else {
            i1 += 1;
            i2 += 1;
        }
    }
    if i1 < l1 {
        append_rest_indexed(&mut r, v1, ix1, i1);
    } else {
        assert(r@ + Seq::<T>::empty() =~= r@);
    }
    proof {
        lemma_difference_and_intersection(gather(ix1@, v1@), gather(ix2@, v2@));
        lemma_kept_from_first(gather(ix1@, v1@), gather(ix2@, v2@));
    }
    r
}

/// Removes repetitions: a copy of `s` in which no item is the same as the
/// one before it.
pub fn sansrepeat<T: PartialEq + Copy>(s: &[T]) -> (r: Vec<T>)
    requires
        decides_equality::<T>(),
    ensures
        r@ == without_repeats(s@),
{
    let n = s.len();
    let mut r: Vec<T> = Vec::new();
    if n == 0 {
        assert(r@ =~= s@);
        return r;
    }
    let mut last = s[0];
    r.push(last);
    assert(r@ =~= s@.take(1));
    let mut i: usize = 1;
    while i < n
        invariant
            decides_equality::<T>(),
            1 <= i <= n,
            n == s@.len(),
            r@.len() > 0,
            last == r@.last(),
            r@ == without_repeats(s@.take(i as int)),
        decreases n - i,
    {
        let si = s[i];
        proof {
            let t = s@.take(i + 1);
            assert(t.drop_last() =~= s@.take(i as int));
            assert(t.last() == si);
        }
        if si != last {
            last = si;
            r.push(si);
        }
        i += 1;
    }
    assert(s@.take(n as int) =~= s@);
    r
}

/// Divides `s` by `pivot` into the items that order before it, the items
/// that order neither before nor after it, and the items that order after
/// it. Within each group the items keep their order.
pub fn partition<T: PartialOrd + Copy>(s: &[T], pivot: T) -> (r: (Vec<T>, Vec<T>, Vec<T>))
    requires
        total_order::<T>(),
    ensures
        r.0@ == s@.filter(before(pivot)),
        r.1@ == s@.filter(beside(pivot)),
        r.2@ == s@.filter(after(pivot)),
{
    let n = s.len();
    let mut less: Vec<T> = Vec::new();
    let mut same: Vec<T> = Vec::new();
    let mut more: Vec<T> = Vec::new();
    let mut i: usize = 0;
    proof {
        reveal(Seq::filter);
        assert(s@.take(0).len() == 0);
    }
    while i < n
        invariant
            total_order::<T>(),
            i <= n,
            n == s@.len(),
            less@ == s@.take(i as int).filter(before(pivot)),
            same@ == s@.take(i as int).filter(beside(pivot)),
            more@ == s@.take(i as int).filter(after(pivot)),
        decreases n - i,
    {
        let x = s[i];
        proof {
            let t = s@.take(i as int);
            assert(s@.take(i + 1) =~= t.push(x));
            t.lemma_filter_push(x, before(pivot));
            t.lemma_filter_push(x, beside(pivot));
            t.lemma_filter_push(x, after(pivot));
            lemma_trichotomy(x, pivot);
        }
        if x < pivot {
            less.push(x);
        } else if x > pivot {
            more.push(x);
        } else {
            same.push(x);
        }
        i += 1;
    }
    assert(s@.take(n as int) =~= s@);
    (less, same, more)
}

/// Divides the positions of `s` by `pivot` as `partition` divides the
/// items: the positions of the items before the pivot, of those beside it
/// and of those after it, each list ascending.
pub fn partition_indexed<T: PartialOrd + Copy>(s: &[T], pivot: T) -> (r: (
    Vec<usize>,
    Vec<usize>,
    Vec<usize>,
))
    requires
        total_order::<T>(),
    ensures
        r.0@ == positions_where(s@, before(pivot)),
        r.1@ == positions_where(s@, beside(pivot)),
        r.2@ == positions_where(s@, after(pivot)),
{
    let n = s.len();
    let mut less: Vec<usize> = Vec::new();
    let mut same: Vec<usize> = Vec::new();
    let mut more: Vec<usize> = Vec::new();
    let mut i: usize = 0;
    let ghost lo = |k: usize| before(pivot)(s@[k as int]);
    let ghost eq = |k: usize| beside(pivot)(s@[k as int]);
    let ghost hi = |k: usize| after(pivot)(s@[k as int]);
    let ghost all = identity(n as nat);
    proof {
        reveal(Seq::filter);
        assert(all.take(0).len() == 0);
    }
    while i < n
        invariant
            total_order::<T>(),
            i <= n,
            n == s@.len(),
            all == identity(n as nat),
            lo == |k: usize| before(pivot)(s@[k as int]),
            eq == |k: usize| beside(pivot)(s@[k as int]),
            hi == |k: usize| after(pivot)(s@[k as int]),
            less@ == all.take(i as int).filter(lo),
            same@ == all.take(i as int).filter(eq),
            more@ == all.take(i as int).filter(hi),
        decreases n - i,
    {
        let x = s[i];
        proof {
            let t = all.take(i as int);
            assert(all.take(i + 1) =~= t.push(i));
            t.lemma_filter_push(i, lo);
            t.lemma_filter_push(i, eq);
            t.lemma_filter_push(i, hi);
            lemma_trichotomy(x, pivot);
        }
        if x < pivot {
            less.push(i);
        } else if x > pivot {
            more.push(i);
        } else {
            same.push(i);
        }
        i += 1;
    }
    assert(all.take(n as int) =~= all);
    (less, same, more)
}

} // verus!
