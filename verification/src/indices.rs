//! Index algebra: pure transformations of permutations.
//!
//! A permutation of length `n` lists every position `0..n` exactly once.
//! Read as a sort index, entry `k` is the position in the data of the item
//! that is `k`-th in sorted order; read as a rank index, entry `i` is the
//! place in sorted order of the item at position `i` of the data.
//! Inversion turns one reading into the other.
//!
//! The laws are stated for indices short enough to be held in memory,
//! which every index taken from a slice or a vector is.

use vstd::prelude::*;
use vstd::set_lib::*;
use crate::correlation::{
    Correlation, correlation_terms, covariance_term, terms_fit, variance_term,
};
use crate::error::IdxError;

verus! {

/// Every entry of `p` is a position below `n`.
pub open spec fn in_range(p: Seq<usize>, n: int) -> bool {
    forall|i: int| 0 <= i < p.len() ==> #[trigger] p[i] < n
}

/// Every entry of `p` is a position of `v`.
pub open spec fn indexes<T>(p: Seq<usize>, v: Seq<T>) -> bool {
    in_range(p, v.len() as int)
}

/// `p` lists every position `0..p.len()` exactly once.
pub open spec fn is_permutation(p: Seq<usize>) -> bool {
    in_range(p, p.len() as int) && p.no_duplicates()
}

/// `p` lists every position of `lo..lo + p.len()` exactly once.
pub open spec fn lists_range(p: Seq<usize>, lo: int) -> bool {
    &&& forall|i: int| 0 <= i < p.len() ==> lo <= #[trigger] p[i] < lo + p.len()
    &&& p.no_duplicates()
}

/// The permutation that leaves every position in place.
pub open spec fn identity(n: nat) -> Seq<usize> {
    Seq::new(n, |i: int| i as usize)
}

/// Where the position `j` stands in `p`.
pub open spec fn position_of(p: Seq<usize>, j: int) -> int {
    choose|i: int| 0 <= i < p.len() && p[i] == j
}

/// The inverse of `p`: entry `p[i]` of the result is `i`.
pub open spec fn invert(p: Seq<usize>) -> Seq<usize> {
    Seq::new(p.len(), |j: int| position_of(p, j) as usize)
}

/// The complement of `p`: every entry mirrored within `0..p.len()`.
pub open spec fn complement(p: Seq<usize>) -> Seq<usize> {
    Seq::new(p.len(), |i: int| (p.len() - 1 - p[i]) as usize)
}

/// The item of `v` at position `i`.
pub open spec fn item_at<T>(v: Seq<T>, i: usize) -> T {
    v[i as int]
}

/// The items of `v` read in the order that `p` lists their positions.
pub open spec fn gather<T>(p: Seq<usize>, v: Seq<T>) -> Seq<T> {
    Seq::new(p.len(), |i: int| v[p[i] as int])
}

/// An index that lists every position of `lo..lo + p.len()` exactly once
/// reaches each of them: `j` stands somewhere in `p`.
pub proof fn lemma_lists_range_onto(p: Seq<usize>, lo: int, j: int)
    requires
        lists_range(p, lo),
        lo <= j < lo + p.len(),
    ensures
        0 <= position_of(p, j) < p.len(),
        p[position_of(p, j)] == j,
{
    let hi = lo + p.len();
    let q = Seq::new(p.len(), |i: int| p[i] as int);
    assert(q.no_duplicates()) by {
        assert forall|a: int, b: int| 0 <= a < q.len() && 0 <= b < q.len() && a != b implies q[a]
            != q[b] by {
            assert(p[a] != p[b]);
        }
    }
    q.unique_seq_to_set();
    lemma_int_range(lo, hi);
    assert(q.to_set().subset_of(set_int_range(lo, hi))) by {
        assert forall|x: int| q.to_set().contains(x) implies set_int_range(lo, hi).contains(x) by {
            let i = choose|i: int| 0 <= i < q.len() && q[i] == x;
            assert(lo <= p[i] < hi);
        }
    }
    lemma_set_subset_finite(set_int_range(lo, hi), q.to_set());
    lemma_subset_equality(q.to_set(), set_int_range(lo, hi));
    assert(set_int_range(lo, hi).contains(j));
    assert(q.to_set().contains(j));
    let i = choose|i: int| 0 <= i < q.len() && q[i] == j;
    assert(0 <= i < p.len() && p[i] == j);
}

/// The items that `idx` lists at its positions `lo..hi`, in that order.
pub open spec fn listed<T>(s: Seq<T>, idx: Seq<usize>, lo: int, hi: int) -> Seq<T> {
    Seq::new((hi - lo) as nat, |k: int| s[idx[lo + k] as int])
}

/// A permutation reaches every position: `j` stands somewhere in `p`.
pub proof fn lemma_permutation_onto(p: Seq<usize>, j: int)
    requires
        is_permutation(p),
        0 <= j < p.len(),
    ensures
        0 <= position_of(p, j) < p.len(),
        p[position_of(p, j)] == j,
{
    lemma_lists_range_onto(p, 0, j);
}

/// Two indices that list the same range hold the same positions.
pub proof fn lemma_lists_range_same_items(p: Seq<usize>, q: Seq<usize>, lo: int)
    requires
        lists_range(p, lo),
        lists_range(q, lo),
        p.len() == q.len(),
    ensures
        p.to_multiset() == q.to_multiset(),
{
    broadcast use vstd::seq_lib::group_to_multiset_ensures;

    p.lemma_multiset_has_no_duplicates();
    q.lemma_multiset_has_no_duplicates();
    assert forall|x: usize| p.to_multiset().count(x) == q.to_multiset().count(x) by {
        if lo <= x < lo + p.len() {
            lemma_lists_range_onto(p, lo, x as int);
            lemma_lists_range_onto(q, lo, x as int);
            assert(p.contains(x));
            assert(q.contains(x));
        } else {
            if p.contains(x) {
                let i = choose|i: int| 0 <= i < p.len() && p[i] == x;
                assert(lo <= p[i] < lo + p.len());
            }
            if q.contains(x) {
                let i = choose|i: int| 0 <= i < q.len() && q[i] == x;
                assert(lo <= q[i] < lo + q.len());
            }
        }
    }
    assert(p.to_multiset() =~= q.to_multiset());
}

/// The inverse of a permutation is a permutation, and the two undo each
/// other in both directions.
pub proof fn lemma_invert(p: Seq<usize>)
    requires
        p.len() <= usize::MAX,
        is_permutation(p),
    ensures
        is_permutation(invert(p)),
        invert(p).len() == p.len(),
        forall|i: int| 0 <= i < p.len() ==> invert(p)[#[trigger] p[i] as int] == i,
        forall|j: int| 0 <= j < p.len() ==> p[#[trigger] invert(p)[j] as int] == j,
{
    let q = invert(p);
    assert forall|j: int| 0 <= j < p.len() implies p[#[trigger] q[j] as int] == j && q[j]
        < p.len() by {
        lemma_permutation_onto(p, j);
    }
    assert forall|i: int| 0 <= i < p.len() implies q[#[trigger] p[i] as int] == i by {
        let j = p[i] as int;
        lemma_permutation_onto(p, j);
        assert(p[q[j] as int] == p[i]);
    }
    assert forall|a: int, b: int| 0 <= a < q.len() && 0 <= b < q.len() && a != b implies q[a]
        != q[b] by {
        assert(p[q[a] as int] == a);
        assert(p[q[b] as int] == b);
    }
}

/// Inverting twice gives the permutation back.
pub proof fn lemma_invert_involution(p: Seq<usize>)
    requires
        p.len() <= usize::MAX,
        is_permutation(p),
    ensures
        invert(invert(p)) == p,
{
    let q = invert(p);
    lemma_invert(p);
    lemma_invert(q);
    let r = invert(q);
    assert forall|i: int| 0 <= i < p.len() implies r[i] == p[i] by {
        assert(q[r[i] as int] == i);
        assert(q[p[i] as int] == i);
    }
    assert(r =~= p);
}

/// An index that undoes `p` from the left is its inverse.
pub proof fn lemma_invert_unique(p: Seq<usize>, q: Seq<usize>)
    requires
        p.len() <= usize::MAX,
        is_permutation(p),
        q.len() == p.len(),
        forall|i: int| 0 <= i < p.len() ==> q[#[trigger] p[i] as int] == i,
    ensures
        q == invert(p),
{
    lemma_invert(p);
    let r = invert(p);
    assert forall|j: int| 0 <= j < p.len() implies q[j] == r[j] by {
        assert(p[r[j] as int] == j);
    }
    assert(q =~= r);
}

/// Complementing keeps an index an index, and a permutation a permutation.
pub proof fn lemma_complement(p: Seq<usize>)
    requires
        p.len() <= usize::MAX,
        in_range(p, p.len() as int),
    ensures
        complement(p).len() == p.len(),
        in_range(complement(p), p.len() as int),
        is_permutation(p) ==> is_permutation(complement(p)),
{
    let c = complement(p);
    if is_permutation(p) {
        assert forall|a: int, b: int| 0 <= a < c.len() && 0 <= b < c.len() && a != b implies c[a]
            != c[b] by {
            assert(p[a] != p[b]);
        }
    }
}

/// Complementing twice gives the index back.
pub proof fn lemma_complement_involution(p: Seq<usize>)
    requires
        p.len() <= usize::MAX,
        in_range(p, p.len() as int),
    ensures
        complement(complement(p)) == p,
{
    assert(complement(complement(p)) =~= p);
}

/// The complement of an inverse is the inverse of the reversal: turning
/// ascending ranks into descending ranks is the same as reversing the
/// storage order of the sort index they came from.
pub proof fn lemma_complement_of_inverse(p: Seq<usize>)
    requires
        p.len() <= usize::MAX,
        is_permutation(p),
    ensures
        is_permutation(p.reverse()),
        complement(invert(p)) == invert(p.reverse()),
{
    let n = p.len() as int;
    let r = p.reverse();
    assert(is_permutation(r)) by {
        assert forall|a: int, b: int| 0 <= a < r.len() && 0 <= b < r.len() && a != b implies r[a]
            != r[b] by {
            assert(p[n - 1 - a] != p[n - 1 - b]);
        }
    }
    lemma_invert(p);
    lemma_complement(invert(p));
    let c = complement(invert(p));
    assert forall|i: int| 0 <= i < r.len() implies c[#[trigger] r[i] as int] == i by {
        assert(invert(p)[p[n - 1 - i] as int] == n - 1 - i);
    }
    lemma_invert_unique(r, c);
}

/// Gathering through a permutation rearranges the items and loses none.
pub proof fn lemma_gather_rearranges<T>(p: Seq<usize>, v: Seq<T>)
    requires
        is_permutation(p),
        p.len() == v.len(),
    ensures
        gather(p, v).to_multiset() == v.to_multiset(),
    decreases p.len(),
{
    broadcast use vstd::seq_lib::group_to_multiset_ensures;

    let n = p.len() as int;
    let g = gather(p, v);
    if n == 0 {
        assert(g =~= v);
    } else {
        // Take the last position out of `v`, and its place out of `p`.
        lemma_permutation_onto(p, n - 1);
        let k = position_of(p, n - 1);
        let rest = p.remove(k);
        let v1 = v.drop_last();
        assert(v1 =~= v.remove(n - 1));
        assert(is_permutation(rest)) by {
            assert forall|i: int| 0 <= i < rest.len() implies #[trigger] rest[i] < rest.len() by {
                let i0 = if i < k { i } else { i + 1 };
                assert(rest[i] == p[i0]);
                assert(p[i0] != p[k]);
            }
            assert forall|a: int, b: int|
                0 <= a < rest.len() && 0 <= b < rest.len() && a != b implies rest[a] != rest[b] by {
                let a0 = if a < k { a } else { a + 1 };
                let b0 = if b < k { b } else { b + 1 };
                assert(rest[a] == p[a0] && rest[b] == p[b0]);
            }
        }
        lemma_gather_rearranges(rest, v1);
        assert(gather(rest, v1) =~= g.remove(k)) by {
            assert forall|i: int| 0 <= i < rest.len() implies gather(rest, v1)[i]
                == g.remove(k)[i] by {
                let i0 = if i < k { i } else { i + 1 };
                assert(rest[i] == p[i0]);
                assert(p[i0] != p[k]);
            }
        }
        assert(g.remove(k).to_multiset() =~= g.to_multiset().remove(g[k]));
        assert(v.remove(n - 1).to_multiset() =~= v.to_multiset().remove(v[n - 1]));
        assert(g[k] == v[n - 1]);
        assert(g.to_multiset().count(g[k]) > 0) by {
            assert(g.contains(g[k]));
        }
        assert(v.to_multiset().count(v[n - 1]) > 0) by {
            assert(v.contains(v[n - 1]));
        }
        assert(g.to_multiset() =~= g.to_multiset().remove(g[k]).insert(g[k]));
        assert(v.to_multiset() =~= v.to_multiset().remove(v[n - 1]).insert(v[n - 1]));
    }
}

/// The identity permutation `[0, 1, .., n-1]`.
pub fn newindex(n: usize) -> (idx: Vec<usize>)
    ensures
        idx@ == identity(n as nat),
        is_permutation(idx@),
{
    let mut idx: Vec<usize> = Vec::with_capacity(n);
    let mut i: usize = 0;
    while i < n
        invariant
            i <= n,
            idx@ == identity(i as nat),
        decreases n - i,
    {
        idx.push(i);
        i += 1;
        assert(idx@ =~= identity(i as nat));
    }
    idx
}

/// Inverts a permutation, turning a sort index into a rank index and a
/// rank index into a sort index.
pub fn invindex(p: &[usize]) -> (q: Vec<usize>)
    requires
        is_permutation(p@),
    ensures
        q@ == invert(p@),
        is_permutation(q@),
        forall|i: int| 0 <= i < p@.len() ==> q@[#[trigger] p@[i] as int] == i,
        forall|j: int| 0 <= j < p@.len() ==> p@[#[trigger] q@[j] as int] == j,
{
    let n = p.len();
    let mut q: Vec<usize> = vec![0; n];
    let mut i: usize = 0;
    while i < n
        invariant
            i <= n,
            n == p@.len(),
            q@.len() == n,
            is_permutation(p@),
            forall|k: int| 0 <= k < i ==> q@[#[trigger] p@[k] as int] == k,
        decreases n - i,
    {
        let ghost before = q@;
        q[p[i]] = i;
        assert forall|k: int| 0 <= k < i + 1 implies q@[#[trigger] p@[k] as int] == k by {
            if k < i {
                assert(p@[k] != p@[i as int]);
                assert(before[p@[k] as int] == k);
            }
        }
        i += 1;
    }
    proof {
        lemma_invert_unique(p@, q@);
        lemma_invert(p@);
    }
    q
}

/// Complements an index: entry `i` becomes `n - 1 - p[i]`. On ranks this
/// switches between ascending and descending ranks.
pub fn complindex(p: &[usize]) -> (c: Vec<usize>)
    requires
        in_range(p@, p@.len() as int),
    ensures
        c@ == complement(p@),
        is_permutation(p@) ==> is_permutation(c@),
{
    let n = p.len();
    let mut c: Vec<usize> = Vec::with_capacity(n);
    let mut i: usize = 0;
    while i < n
        invariant
            i <= n,
            n == p@.len(),
            in_range(p@, n as int),
            c@.len() == i,
            forall|k: int| 0 <= k < i ==> c@[k] == n - 1 - p@[k],
        decreases n - i,
    {
        c.push(n - p[i] - 1);
        i += 1;
    }
    proof {
        assert(c@ =~= complement(p@));
        lemma_complement(p@);
    }
    c
}

/// Collects the items of `v` at the positions listed in `p`, in that order.
pub fn select<T: Copy>(p: &[usize], v: &[T]) -> (r: Vec<T>)
    requires
        in_range(p@, v@.len() as int),
    ensures
        r@ == gather(p@, v@),
{
    let n = p.len();
    let mut r: Vec<T> = Vec::with_capacity(n);
    let mut i: usize = 0;
    while i < n
        invariant
            i <= n,
            n == p@.len(),
            in_range(p@, v@.len() as int),
            r@.len() == i,
            forall|k: int| 0 <= k < i ==> r@[k] == v@[p@[k] as int],
        decreases n - i,
    {
        r.push(v[p[i]]);
        i += 1;
    }
    assert(r@ =~= gather(p@, v@));
    r
}

/// Materialises the items of `v` in the order of the index `p`, or in the
/// reverse of that order when `ascending` is false.
pub fn unindex<T: Copy>(p: &[usize], v: &[T], ascending: bool) -> (r: Vec<T>)
    requires
        in_range(p@, v@.len() as int),
    ensures
        r@ == if ascending {
            gather(p@, v@)
        } else {
            gather(p@, v@).reverse()
        },
{
    if ascending {
        select(p, v)
    } else {
        let n = p.len();
        let mut r: Vec<T> = Vec::with_capacity(n);
        let mut i: usize = n;
        while i > 0
            invariant
                i <= n,
                n == p@.len(),
                in_range(p@, v@.len() as int),
                r@.len() == n - i,
                forall|k: int| 0 <= k < n - i ==> r@[k] == v@[p@[n - 1 - k] as int],
            decreases i,
        {
            i -= 1;
            r.push(v[p[i]]);
        }
        assert(r@ =~= gather(p@, v@).reverse());
        r
    }
}

/// A reversed copy of `s`.
pub fn revs<T: Copy>(s: &[T]) -> (r: Vec<T>)
    ensures
        r@ == s@.reverse(),
{
    let n = s.len();
    let mut r: Vec<T> = Vec::with_capacity(n);
    let mut i: usize = n;
    while i > 0
        invariant
            i <= n,
            n == s@.len(),
            r@.len() == n - i,
            forall|k: int| 0 <= k < n - i ==> r@[k] == s@[n - 1 - k],
        decreases i,
    {
        i -= 1;
        r.push(s[i]);
    }
    assert(r@ =~= s@.reverse());
    r
}

/// The index algebra as methods of an index.
pub trait Indices {
    /// The entries of the index.
    spec fn entries(self) -> Seq<usize>;

    /// The identity permutation `[0, 1, .., n-1]`.
    fn newindex(n: usize) -> (idx: Vec<usize>)
        ensures
            idx@ == identity(n as nat),
            is_permutation(idx@),
    ;

    /// The inverse of a permutation.
    fn invindex(self) -> (q: Vec<usize>)
        requires
            is_permutation(self.entries()),
        ensures
            q@ == invert(self.entries()),
            is_permutation(q@),
            forall|i: int|
                0 <= i < self.entries().len() ==> q@[#[trigger] self.entries()[i] as int] == i,
            forall|j: int|
                0 <= j < self.entries().len() ==> self.entries()[#[trigger] q@[j] as int] == j,
    ;

    /// The complement of an index.
    fn complindex(self) -> (c: Vec<usize>)
        requires
            in_range(self.entries(), self.entries().len() as int),
        ensures
            c@ == complement(self.entries()),
            is_permutation(self.entries()) ==> is_permutation(c@),
    ;

    /// The items of `v` at the positions that the index lists.
    fn select<T: Copy>(self, v: &[T]) -> (r: Vec<T>)
        requires
            in_range(self.entries(), v@.len() as int),
        ensures
            r@ == gather(self.entries(), v@),
    ;

    /// The items of `v` in the order of the index, or in the reverse of it.
    fn unindex<T: Copy>(self, v: &[T], ascending: bool) -> (r: Vec<T>)
        requires
            in_range(self.entries(), v@.len() as int),
        ensures
            r@ == if ascending {
                gather(self.entries(), v@)
            } else {
                gather(self.entries(), v@).reverse()
            },
    ;

    /// The integer terms of the correlation coefficient with `v`.
    fn ucorrelation_terms(self, v: &[usize]) -> (r: Result<Correlation, IdxError<String>>)
        ensures
            match r {
                Ok(c) => {
                    &&& self.entries().len() == v@.len()
                    &&& v@.len() > 0
                    &&& terms_fit(self.entries(), v@)
                    &&& covariance_term(self.entries(), v@) == if c.negative {
                        -c.covariance
                    } else {
                        c.covariance as int
                    }
                    &&& c.negative ==> c.covariance > 0
                    &&& c.variance_x == variance_term(self.entries())
                    &&& c.variance_y == variance_term(v@)
                    &&& c.variance_x > 0
                    &&& c.variance_y > 0
                },
                Err(IdxError::Size(_)) => self.entries().len() != v@.len() || v@.len() == 0,
                Err(IdxError::Other(_)) => self.entries().len() == v@.len() && v@.len() > 0 && (
                !terms_fit(self.entries(), v@) || variance_term(self.entries()) <= 0
                    || variance_term(v@) <= 0),
            },
    ;
}

impl<'a> Indices for &'a [usize] {
    open spec fn entries(self) -> Seq<usize> {
        self@
    }

    fn newindex(n: usize) -> (idx: Vec<usize>) {
        newindex(n)
    }

    fn invindex(self) -> (q: Vec<usize>) {
        invindex(self)
    }

    fn complindex(self) -> (c: Vec<usize>) {
        complindex(self)
    }

    fn select<T: Copy>(self, v: &[T]) -> (r: Vec<T>) {
        select(self, v)
    }

    fn unindex<T: Copy>(self, v: &[T], ascending: bool) -> (r: Vec<T>) {
        unindex(self, v, ascending)
    }

    fn ucorrelation_terms(self, v: &[usize]) -> (r: Result<Correlation, IdxError<String>>) {
        correlation_terms(self, v)
    }
}

} // verus!
