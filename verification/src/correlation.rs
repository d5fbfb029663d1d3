//! The integer terms of the correlation coefficient of two index vectors.
//!
//! Pearson's coefficient of the paired values `(x, y)` is
//! `(n Σxy − Σx Σy) / sqrt((n Σx² − (Σx)²) (n Σy² − (Σy)²))`, which is
//! Spearman's rank correlation where the values are ranks. The three terms
//! are integers and are computed here exactly; the division and the root
//! are left to the caller. Vectors without variance have no correlation,
//! and are refused.

use vstd::prelude::*;
use vstd::string::StringExecFns;
use crate::error::IdxError;

verus! {

/// The terms of a correlation coefficient.
pub struct Correlation {
    /// Whether `n Σxy − Σx Σy` is below zero.
    pub negative: bool,
    /// The magnitude of `n Σxy − Σx Σy`.
    pub covariance: u128,
    /// `n Σx² − (Σx)²`, which is above zero.
    pub variance_x: u128,
    /// `n Σy² − (Σy)²`, which is above zero.
    pub variance_y: u128,
}

/// The sum of the values.
pub open spec fn total(x: Seq<usize>) -> int
    decreases x.len(),
{
    if x.len() == 0 {
        0
    } else {
        total(x.drop_last()) + x.last()
    }
}

/// The sum of the products of the paired values.
pub open spec fn dot(x: Seq<usize>, y: Seq<usize>) -> int
    decreases x.len(),
{
    if x.len() == 0 || y.len() == 0 {
        0
    } else {
        dot(x.drop_last(), y.drop_last()) + x.last() * y.last()
    }
}

/// `n Σxy − Σx Σy`.
pub open spec fn covariance_term(x: Seq<usize>, y: Seq<usize>) -> int {
    x.len() * dot(x, y) - total(x) * total(y)
}

/// `n Σx² − (Σx)²`.
pub open spec fn variance_term(x: Seq<usize>) -> int {
    covariance_term(x, x)
}

/// Every sum and product that the terms are made of fits in 128 bits.
pub open spec fn terms_fit(x: Seq<usize>, y: Seq<usize>) -> bool {
    &&& x.len() * dot(x, x) <= u128::MAX
    &&& x.len() * dot(y, y) <= u128::MAX
    &&& x.len() * dot(x, y) <= u128::MAX
    &&& total(x) * total(x) <= u128::MAX
    &&& total(y) * total(y) <= u128::MAX
    &&& total(x) * total(y) <= u128::MAX
}

/// The sums over a prefix are no larger than the sums over the whole.
proof fn lemma_prefix_sums(x: Seq<usize>, y: Seq<usize>, i: int)
    requires
        x.len() == y.len(),
        0 <= i <= x.len(),
    ensures
        0 <= total(x.take(i)) <= total(x),
        0 <= dot(x.take(i), y.take(i)) <= dot(x, y),
    decreases x.len() - i,
{
    if i < x.len() {
        lemma_prefix_sums(x, y, i + 1);
        assert(x.take(i + 1).drop_last() =~= x.take(i));
        assert(y.take(i + 1).drop_last() =~= y.take(i));
        assert(x.take(i + 1).last() * y.take(i + 1).last() >= 0) by (nonlinear_arith)
            requires
                x.take(i + 1).last() >= 0,
                y.take(i + 1).last() >= 0,
        ;
        lemma_sums_not_negative(x.take(i), y.take(i));
    } else {
        assert(x.take(i) =~= x);
        assert(y.take(i) =~= y);
        lemma_sums_not_negative(x, y);
    }
}

/// Sums of values that are not negative are not negative.
proof fn lemma_sums_not_negative(x: Seq<usize>, y: Seq<usize>)
    ensures
        0 <= total(x),
        0 <= dot(x, y),
    decreases x.len(),
{
    if x.len() > 0 {
        lemma_sums_not_negative(x.drop_last(), y.drop_last());
        if y.len() > 0 {
            assert(x.last() * y.last() >= 0) by (nonlinear_arith)
                requires
                    x.last() >= 0,
                    y.last() >= 0,
            ;
        }
    }
}

/// The three sums that one vector contributes against another: `Σx`,
/// `Σxy`, or `None` where one of them does not fit in 128 bits.
fn sums(x: &[usize], y: &[usize]) -> (r: Option<(u128, u128)>)
    requires
        x@.len() == y@.len(),
    ensures
        match r {
            Some(s) => s.0 == total(x@) && s.1 == dot(x@, y@),
            None => total(x@) > u128::MAX || dot(x@, y@) > u128::MAX,
        },
{
    let n = x.len();
    let mut sx: u128 = 0;
    let mut sxy: u128 = 0;
    let mut i: usize = 0;
    assert(x@.take(0).len() == 0 && y@.take(0).len() == 0);
    while i < n
        invariant
            i <= n,
            n == x@.len(),
            n == y@.len(),
            sx == total(x@.take(i as int)),
            sxy == dot(x@.take(i as int), y@.take(i as int)),
        decreases n - i,
    {
        let a: u128 = x[i] as u128;
        let b: u128 = y[i] as u128;
        proof {
            assert(x@.take(i + 1).drop_last() =~= x@.take(i as int));
            assert(y@.take(i + 1).drop_last() =~= y@.take(i as int));
            lemma_prefix_sums(x@, y@, i + 1);
            assert(0 <= a * b <= u128::MAX) by (nonlinear_arith)
                requires
                    0 <= a <= 0xFFFF_FFFF_FFFF_FFFF,
                    0 <= b <= 0xFFFF_FFFF_FFFF_FFFF,
            ;
        }
        let p: u128 = a * b;
        match sx.checked_add(a) {
            Some(v) => {
                sx = v;
            },
            None => {
                return None;
            },
        }
        match sxy.checked_add(p) {
            Some(v) => {
                sxy = v;
            },
            None => {
                return None;
            },
        }
        i += 1;
    }
    assert(x@.take(n as int) =~= x@ && y@.take(n as int) =~= y@);
    Some((sx, sxy))
}

/// The terms of the correlation coefficient of two vectors of equal
/// length. Fails with `Size` where the lengths differ or are zero, and
/// with `Other` where one of the vectors has no variance or the terms do
/// not fit in 128 bits.
pub fn correlation_terms(x: &[usize], y: &[usize]) -> (r: Result<Correlation, IdxError<String>>)
    ensures
        match r {
            Ok(c) => {
                &&& x@.len() == y@.len()
                &&& x@.len() > 0
                &&& terms_fit(x@, y@)
                &&& covariance_term(x@, y@) == if c.negative {
                    -c.covariance
                } else {
                    c.covariance as int
                }
                &&& c.negative ==> c.covariance > 0
                &&& c.variance_x == variance_term(x@)
                &&& c.variance_y == variance_term(y@)
                &&& c.variance_x > 0
                &&& c.variance_y > 0
            },
            Err(IdxError::Size(_)) => x@.len() != y@.len() || x@.len() == 0,
            Err(IdxError::Other(_)) => x@.len() == y@.len() && x@.len() > 0 && (!terms_fit(x@, y@)
                || variance_term(x@) <= 0 || variance_term(y@) <= 0),
        },
{
    let n = x.len();
    if n != y.len() {
        return Err(IdxError::Size(String::from_str("vectors of different lengths")));
    }
    if n == 0 {
        return Err(IdxError::Size(String::from_str("no data")));
    }
    proof {
        lemma_sums_not_negative(x@, y@);
        lemma_sums_not_negative(x@, x@);
        lemma_sums_not_negative(y@, y@);
        lemma_grows(n as int, dot(x@, x@));
        lemma_grows(n as int, dot(y@, y@));
        lemma_grows(n as int, dot(x@, y@));
        lemma_square_grows(total(x@));
        lemma_square_grows(total(y@));
    }
    let (sx, sxy) = match sums(x, y) {
        Some(s) => s,
        None => {
            return Err(IdxError::Other(String::from_str("sums out of range")));
        },
    };
    let (_, sxx) = match sums(x, x) {
        Some(s) => s,
        None => {
            return Err(IdxError::Other(String::from_str("sums out of range")));
        },
    };
    let (sy, syy) = match sums(y, y) {
        Some(s) => s,
        None => {
            return Err(IdxError::Other(String::from_str("sums out of range")));
        },
    };
    let nn: u128 = n as u128;
    let (nxy, nxx, nyy, xy, xx, yy) = match (
        nn.checked_mul(sxy),
        nn.checked_mul(sxx),
        nn.checked_mul(syy),
        sx.checked_mul(sy),
        sx.checked_mul(sx),
        sy.checked_mul(sy),
    ) {
        (Some(a), Some(b), Some(c), Some(d), Some(e), Some(f)) => (a, b, c, d, e, f),
        _ => {
            return Err(IdxError::Other(String::from_str("products out of range")));
        },
    };
    if nxx <= xx || nyy <= yy {
        return Err(IdxError::Other(String::from_str("no variance")));
    }
    let negative = nxy < xy;
    let covariance: u128 = if negative {
        xy - nxy
    } else {
        nxy - xy
    };
    Ok(Correlation { negative, covariance, variance_x: nxx - xx, variance_y: nyy - yy })
}

/// A positive multiple of a sum that is not negative is no smaller than
/// the sum.
proof fn lemma_grows(n: int, s: int)
    requires
        n >= 1,
        s >= 0,
    ensures
        s <= n * s,
{
    assert(s <= n * s) by (nonlinear_arith)
        requires
            n >= 1,
            s >= 0,
    ;
}

/// The square of a sum that is not negative is no smaller than the sum.
proof fn lemma_square_grows(s: int)
    requires
        s >= 0,
    ensures
        s <= s * s,
{
    assert(s <= s * s) by (nonlinear_arith)
        requires
            s >= 0,
    ;
}

} // verus!
