//! Membership, bounds and counts in slices.
//!
//! The linear searches work on any slice. The binary searches want their
//! data monotonic, as given or as read through an index; what they find
//! is a true hit on any data, and a miss is final on monotonic data.

use vstd::prelude::*;
use crate::indices::{gather, in_range};
use crate::order::{
    ascending, beside, descending, equiv, gt, le, lemma_transitive, lemma_trichotomy, lt,
    total_order,
};

verus! {

/// The data runs in the given direction.
pub open spec fn monotonic<T: PartialOrd>(s: Seq<T>, down: bool) -> bool {
    if down {
        descending(s)
    } else {
        ascending(s)
    }
}

/// `x` stands strictly before `val` in data that runs in the given
/// direction.
pub open spec fn ahead_of<T: PartialOrd>(x: T, val: T, down: bool) -> bool {
    if down {
        gt(x, val)
    } else {
        lt(x, val)
    }
}

/// `x` stands strictly after `val` in data that runs in the given
/// direction.
pub open spec fn behind<T: PartialOrd>(x: T, val: T, down: bool) -> bool {
    if down {
        lt(x, val)
    } else {
        gt(x, val)
    }
}

/// In monotonic data, what stands at or before an item that is ahead of
/// `val` is ahead of `val`, and what stands at or after an item that is
/// behind `val` is behind `val`.
pub proof fn lemma_monotonic_sides<T: PartialOrd>(s: Seq<T>, val: T, down: bool, i: int, j: int)
    requires
        total_order::<T>(),
        monotonic(s, down),
        0 <= i <= j < s.len(),
    ensures
        ahead_of(s[j], val, down) ==> ahead_of(s[i], val, down),
        behind(s[i], val, down) ==> behind(s[j], val, down),
        ahead_of(s[j], val, down) ==> !equiv(s[i], val),
        behind(s[i], val, down) ==> !equiv(s[j], val),
{
    lemma_trichotomy(s[i], val);
    lemma_trichotomy(s[j], val);
    lemma_trichotomy(val, s[i]);
    lemma_trichotomy(val, s[j]);
    if i == j {
    } else if down {
        assert(le(s[j], s[i]));
        lemma_transitive(val, s[j], s[i]);
        lemma_transitive(s[j], s[i], val);
    } else {
        assert(le(s[i], s[j]));
        lemma_transitive(s[i], s[j], val);
        lemma_transitive(val, s[i], s[j]);
    }
}

/// The items of `s` that compare equal to `val` are those at the positions
/// `a..b`; what stands before them is ahead of `val`, what stands after
/// them is behind it. An empty run marks the place at which `val` would be
/// inserted.
pub open spec fn run_of<T: PartialOrd>(s: Seq<T>, val: T, a: usize, b: usize, down: bool) -> bool {
    &&& a <= b <= s.len()
    &&& forall|j: int| 0 <= j < a ==> ahead_of(#[trigger] s[j], val, down)
    &&& forall|j: int| a <= j < b ==> equiv(#[trigger] s[j], val)
    &&& forall|j: int| b <= j < s.len() ==> behind(#[trigger] s[j], val, down)
}

/// Data has at most one run for a value in a direction: the run holds
/// every item that compares equal to the value, and nothing else.
pub proof fn lemma_run_is_unique<T: PartialOrd>(
    s: Seq<T>,
    val: T,
    a: usize,
    b: usize,
    a2: usize,
    b2: usize,
    down: bool,
)
    requires
        total_order::<T>(),
        run_of(s, val, a, b, down),
        run_of(s, val, a2, b2, down),
    ensures
        a == a2,
        b == b2,
        forall|j: int| 0 <= j < s.len() ==> (equiv(#[trigger] s[j], val) <==> a <= j < b),
{
    assert forall|j: int| 0 <= j < s.len() implies (equiv(#[trigger] s[j], val) <==> a <= j
        < b) && (ahead_of(s[j], val, down) <==> j < a) && (ahead_of(s[j], val, down) <==> j
        < a2) && (behind(s[j], val, down) <==> j >= b2) by {
        lemma_trichotomy(s[j], val);
    }
    if a < a2 {
        assert(ahead_of(s[a as int], val, down));
    }
    if a2 < a {
        assert(ahead_of(s[a2 as int], val, down));
    }
    if b < b2 {
        assert(behind(s[b as int], val, down));
    }
    if b2 < b {
        assert(behind(s[b2 as int], val, down));
    }
}

/// Monotonic data has a run for every value.
pub proof fn lemma_monotonic_has_run<T: PartialOrd>(s: Seq<T>, val: T, down: bool) -> (r: (
    usize,
    usize,
))
    requires
        total_order::<T>(),
        monotonic(s, down),
        s.len() <= usize::MAX,
    ensures
        run_of(s, val, r.0, r.1, down),
    decreases s.len(),
{
    if s.len() == 0 {
        (0, 0)
    } else {
        let n = (s.len() - 1) as usize;
        let s1 = s.drop_last();
        assert(monotonic(s1, down)) by {
            if down {
                assert forall|x: int, y: int| 0 <= x < y < s1.len() implies le(
                    #[trigger] s1[y],
                    #[trigger] s1[x],
                ) by {
                    assert(le(s[y], s[x]));
                }
            } else {
                assert forall|x: int, y: int| 0 <= x < y < s1.len() implies le(
                    #[trigger] s1[x],
                    #[trigger] s1[y],
                ) by {
                    assert(le(s[x], s[y]));
                }
            }
        }
        let (a, b) = lemma_monotonic_has_run(s1, val, down);
        let x = s[n as int];
        lemma_trichotomy(x, val);
        assert forall|j: int| 0 <= j < n implies s1[j] == s[j] by {}
        if ahead_of(x, val, down) {
            assert forall|j: int| 0 <= j < s.len() implies ahead_of(#[trigger] s[j], val, down) by {
                lemma_monotonic_sides(s, val, down, j, n as int);
            }
            ((n + 1) as usize, (n + 1) as usize)
        } else if behind(x, val, down) {
            assert forall|j: int| b <= j < s.len() implies behind(#[trigger] s[j], val, down) by {
                if j < n {
                    assert(behind(s1[j], val, down));
                }
            }
            assert forall|j: int| 0 <= j < a implies ahead_of(#[trigger] s[j], val, down) by {
                assert(ahead_of(s1[j], val, down));
            }
            assert forall|j: int| a <= j < b implies equiv(#[trigger] s[j], val) by {
                assert(equiv(s1[j], val));
            }
            (a, b)
        } else {
            // The last item compares equal: no item before it is behind.
            if b < n {
                assert(behind(s1[b as int], val, down));
                lemma_monotonic_sides(s, val, down, b as int, n as int);
            }
            assert forall|j: int| 0 <= j < a implies ahead_of(#[trigger] s[j], val, down) by {
                assert(ahead_of(s1[j], val, down));
            }
            assert forall|j: int| a <= j < n + 1 implies equiv(#[trigger] s[j], val) by {
                if j < n {
                    assert(equiv(s1[j], val));
                }
            }
            (a, (n + 1) as usize)
        }
    }
}

/// Where the items that compare equal to `val` are those of one run, the
/// count of such items is the length of the run.
pub proof fn lemma_count_of_run<T: PartialOrd>(s: Seq<T>, val: T, a: int, b: int)
    requires
        total_order::<T>(),
        0 <= a <= b <= s.len(),
        forall|j: int| 0 <= j < s.len() ==> (equiv(#[trigger] s[j], val) <==> a <= j < b),
    ensures
        count_of(s, val) == b - a,
    decreases s.len(),
{
    reveal(Seq::filter);
    if s.len() > 0 {
        let n = s.len() - 1;
        let s1 = s.drop_last();
        let a1 = if a < n { a } else { n };
        let b1 = if b < n { b } else { n };
        assert forall|j: int| 0 <= j < s1.len() implies (equiv(#[trigger] s1[j], val) <==> a1 <= j
            < b1) by {
            assert(s1[j] == s[j]);
        }
        lemma_count_of_run(s1, val, a1, b1);
        lemma_trichotomy(s[n], val);
        assert(s.last() == s[n]);
    }
}

/// How many items of `s` order neither before nor after `val`.
pub open spec fn count_of<T: PartialOrd>(s: Seq<T>, val: T) -> nat {
    s.filter(beside(val)).len()
}

/// Position of the first item of `s` that orders neither before nor after
/// `m`, found by visiting the items in turn.
pub fn member<T: PartialOrd + Copy>(s: &[T], m: T) -> (r: Option<usize>)
    requires
        total_order::<T>(),
    ensures
        match r {
            Some(i) => i < s@.len() && equiv(s@[i as int], m) && forall|j: int|
                0 <= j < i ==> !equiv(#[trigger] s@[j], m),
            None => forall|j: int| 0 <= j < s@.len() ==> !equiv(#[trigger] s@[j], m),
        },
{
    let n = s.len();
    let mut i: usize = 0;
    while i < n
        invariant
            total_order::<T>(),
            i <= n,
            n == s@.len(),
            forall|j: int| 0 <= j < i ==> !equiv(#[trigger] s@[j], m),
        decreases n - i,
    {
        let x = s[i];
        proof {
            lemma_trichotomy(x, m);
        }
        if x < m {
        } else if x > m {
        } else {
            return Some(i);
        }
        i += 1;
    }
    None
}

/// Counts the items of `s` that order neither before nor after `val`.
pub fn occurs<T: PartialOrd + Copy>(s: &[T], val: T) -> (count: usize)
    requires
        total_order::<T>(),
    ensures
        count == count_of(s@, val),
{
    let n = s.len();
    let mut count: usize = 0;
    let mut i: usize = 0;
    proof {
        reveal(Seq::filter);
        assert(s@.take(0).len() == 0);
    }
    while i < n
        invariant
            total_order::<T>(),
            i <= n,
            n == s@.len(),
            count <= i,
            count == count_of(s@.take(i as int), val),
        decreases n - i,
    {
        let x = s[i];
        proof {
            let t = s@.take(i as int);
            assert(s@.take(i + 1) =~= t.push(x));
            t.lemma_filter_push(x, beside(val));
            lemma_trichotomy(x, val);
        }
        if x < val {
        } else if x > val {
        } else {
            count += 1;
        }
        i += 1;
    }
    assert(s@.take(n as int) =~= s@);
    count
}

/// Binary search for an item that orders neither before nor after `val`,
/// in data that runs in the given direction.
fn find<T: PartialOrd + Copy>(s: &[T], val: T, down: bool) -> (r: Option<usize>)
    requires
        total_order::<T>(),
    ensures
        match r {
            Some(i) => i < s@.len() && equiv(s@[i as int], val),
            None => monotonic(s@, down) ==> forall|j: int|
                0 <= j < s@.len() ==> !equiv(#[trigger] s@[j], val),
        },
{
    let n = s.len();
    if n == 0 {
        return None;
    }
    let mut lo: usize = 0;
    let mut hi: usize = n - 1;
    proof {
        lemma_trichotomy(s@[0], val);
        lemma_trichotomy(s@[hi as int], val);
    }
    // The first item: a hit, or already behind the value.
    let first_ahead = if down {
        s[lo] > val
    } else {
        s[lo] < val
    };
    if !first_ahead {
        let first_behind = if down {
            s[lo] < val
        } else {
            s[lo] > val
        };
        if !first_behind {
            return Some(lo);
        }
        proof {
            if monotonic(s@, down) {
                assert forall|j: int| 0 <= j < n implies !equiv(#[trigger] s@[j], val) by {
                    lemma_monotonic_sides(s@, val, down, 0, j);
                }
            }
        }
        return None;
    }
    // The last item: a hit, or still ahead of the value.
    let last_behind = if down {
        s[hi] < val
    } else {
        s[hi] > val
    };
    if !last_behind {
        let last_ahead = if down {
            s[hi] > val
        } else {
            s[hi] < val
        };
        if !last_ahead {
            return Some(hi);
        }
        proof {
            if monotonic(s@, down) {
                assert forall|j: int| 0 <= j < n implies !equiv(#[trigger] s@[j], val) by {
                    lemma_monotonic_sides(s@, val, down, j, hi as int);
                }
            }
        }
        return None;
    }
    while hi - lo > 1
        invariant
            total_order::<T>(),
            n == s@.len(),
            lo < hi < n,
            ahead_of(s@[lo as int], val, down),
            behind(s@[hi as int], val, down),
        decreases hi - lo,
    {
        let mid: usize = hi - (hi - lo) / 2;
        let x = s[mid];
        proof {
            lemma_trichotomy(x, val);
        }
        let ahead = if down {
            x > val
        } else {
            x < val
        };
        let after = if down {
            x < val
        } else {
            x > val
        };
        if after {
            hi = mid;
        } else if ahead {
            lo = mid;
        } else {
            return Some(mid);
        }
    }
    proof {
        if monotonic(s@, down) {
            assert forall|j: int| 0 <= j < n implies !equiv(#[trigger] s@[j], val) by {
                if j <= lo {
                    lemma_monotonic_sides(s@, val, down, j, lo as int);
                } else {
                    lemma_monotonic_sides(s@, val, down, hi as int, j);
                }
            }
        }
    }
    None
}

/// Binary search through an index for an item that orders neither before
/// nor after `val`, in data that runs in the given direction when read
/// through the index. The position found is a position of the index.
fn find_indexed<T: PartialOrd + Copy>(s: &[T], idx: &[usize], val: T, down: bool) -> (r: Option<
    usize,
>)
    requires
        total_order::<T>(),
        in_range(idx@, s@.len() as int),
    ensures
        match r {
            Some(k) => k < idx@.len() && equiv(s@[idx@[k as int] as int], val),
            None => monotonic(gather(idx@, s@), down) ==> forall|j: int|
                0 <= j < idx@.len() ==> !equiv(s@[#[trigger] idx@[j] as int], val),
        },
{
    let n = idx.len();
    if n == 0 {
        return None;
    }
    let ghost g = gather(idx@, s@);
    let mut lo: usize = 0;
    let mut hi: usize = n - 1;
    proof {
        lemma_trichotomy(g[0], val);
        lemma_trichotomy(g[hi as int], val);
    }
    let x0 = s[idx[lo]];
    let first_ahead = if down {
        x0 > val
    } else {
        x0 < val
    };
    if !first_ahead {
        let first_behind = if down {
            x0 < val
        } else {
            x0 > val
        };
        if !first_behind {
            return Some(lo);
        }
        proof {
            if monotonic(g, down) {
                assert forall|j: int| 0 <= j < n implies !equiv(
                    s@[#[trigger] idx@[j] as int],
                    val,
                ) by {
                    lemma_monotonic_sides(g, val, down, 0, j);
                }
            }
        }
        return None;
    }
    let xn = s[idx[hi]];
    let last_behind = if down {
        xn < val
    } else {
        xn > val
    };
    if !last_behind {
        let last_ahead = if down {
            xn > val
        } else {
            xn < val
        };
        if !last_ahead {
            return Some(hi);
        }
        proof {
            if monotonic(g, down) {
                assert forall|j: int| 0 <= j < n implies !equiv(
                    s@[#[trigger] idx@[j] as int],
                    val,
                ) by {
                    lemma_monotonic_sides(g, val, down, j, hi as int);
                }
            }
        }
        return None;
    }
    while hi - lo > 1
        invariant
            total_order::<T>(),
            n == idx@.len(),
            in_range(idx@, s@.len() as int),
            g == gather(idx@, s@),
            lo < hi < n,
            ahead_of(g[lo as int], val, down),
            behind(g[hi as int], val, down),
        decreases hi - lo,
    {
        let mid: usize = hi - (hi - lo) / 2;
        let x = s[idx[mid]];
        proof {
            lemma_trichotomy(x, val);
            assert(g[mid as int] == x);
        }
        let ahead = if down {
            x > val
        } else {
            x < val
        };
        let after = if down {
            x < val
        } else {
            x > val
        };
        if after {
            hi = mid;
        } else if ahead {
            lo = mid;
        } else {
            return Some(mid);
        }
    }
    proof {
        if monotonic(g, down) {
            assert forall|j: int| 0 <= j < n implies !equiv(s@[#[trigger] idx@[j] as int], val) by {
                if j <= lo {
                    lemma_monotonic_sides(g, val, down, j, lo as int);
                } else {
                    lemma_monotonic_sides(g, val, down, hi as int, j);
                }
            }
        }
    }
    None
}

/// Binary search of an ascending slice for an item that orders neither
/// before nor after `val`. `Some` is always a true hit; on ascending data
/// `None` means that there is none.
pub fn memsearch<T: PartialOrd + Copy>(s: &[T], val: T) -> (r: Option<usize>)
    requires
        total_order::<T>(),
    ensures
        match r {
            Some(i) => i < s@.len() && equiv(s@[i as int], val),
            None => ascending(s@) ==> forall|j: int|
                0 <= j < s@.len() ==> !equiv(#[trigger] s@[j], val),
        },
{
    find(s, val, false)
}

/// Binary search of a descending slice for an item that orders neither
/// before nor after `val`. `Some` is always a true hit; on descending data
/// `None` means that there is none.
pub fn memsearchdesc<T: PartialOrd + Copy>(s: &[T], val: T) -> (r: Option<usize>)
    requires
        total_order::<T>(),
    ensures
        match r {
            Some(i) => i < s@.len() && equiv(s@[i as int], val),
            None => descending(s@) ==> forall|j: int|
                0 <= j < s@.len() ==> !equiv(#[trigger] s@[j], val),
        },
{
    find(s, val, true)
}

/// Binary search of a slice that is ascending when read through the index
/// `i`. The position found is a position of the index.
pub fn memsearch_indexed<T: PartialOrd + Copy>(s: &[T], i: &[usize], val: T) -> (r: Option<usize>)
    requires
        total_order::<T>(),
        in_range(i@, s@.len() as int),
    ensures
        match r {
            Some(k) => k < i@.len() && equiv(s@[i@[k as int] as int], val),
            None => ascending(gather(i@, s@)) ==> forall|j: int|
                0 <= j < i@.len() ==> !equiv(s@[#[trigger] i@[j] as int], val),
        },
{
    find_indexed(s, i, val, false)
}

/// Binary search of a slice that is descending when read through the
/// index `i`. The position found is a position of the index.
pub fn memsearchdesc_indexed<T: PartialOrd + Copy>(s: &[T], i: &[usize], val: T) -> (r: Option<
    usize,
>)
    requires
        total_order::<T>(),
        in_range(i@, s@.len() as int),
    ensures
        match r {
            Some(k) => k < i@.len() && equiv(s@[i@[k as int] as int], val),
            None => descending(gather(i@, s@)) ==> forall|j: int|
                0 <= j < i@.len() ==> !equiv(s@[#[trigger] i@[j] as int], val),
        },
{
    find_indexed(s, i, val, true)
}

/// Position of the first item that stands behind `val` in data that runs
/// in the given direction, or the length where no item does.
fn bound<T: PartialOrd + Copy>(s: &[T], val: T, down: bool) -> (r: usize)
    requires
        total_order::<T>(),
    ensures
        r <= s@.len(),
        monotonic(s@, down) ==> (forall|j: int| 0 <= j < r ==> !behind(#[trigger] s@[j], val, down))
            && (forall|j: int| r <= j < s@.len() ==> behind(#[trigger] s@[j], val, down)),
{
    let n = s.len();
    if n == 0 {
        return 0;
    }
    let mut hi: usize = n - 1;
    proof {
        lemma_trichotomy(s@[0], val);
        lemma_trichotomy(s@[hi as int], val);
    }
    let first_behind = if down {
        s[0] < val
    } else {
        s[0] > val
    };
    if first_behind {
        proof {
            if monotonic(s@, down) {
                assert forall|j: int| 0 <= j < n implies behind(#[trigger] s@[j], val, down) by {
                    lemma_monotonic_sides(s@, val, down, 0, j);
                }
            }
        }
        return 0;
    }
    let last_behind = if down {
        s[hi] < val
    } else {
        s[hi] > val
    };
    if !last_behind {
        proof {
            if monotonic(s@, down) {
                assert forall|j: int| 0 <= j < n implies !behind(#[trigger] s@[j], val, down) by {
                    lemma_monotonic_sides(s@, val, down, j, hi as int);
                }
            }
        }
        return n;
    }
    let mut lo: usize = 0;
    while hi - lo > 1
        invariant
            total_order::<T>(),
            n == s@.len(),
            lo < hi < n,
            !behind(s@[lo as int], val, down),
            behind(s@[hi as int], val, down),
        decreases hi - lo,
    {
        let mid: usize = lo + (hi - lo) / 2;
        proof {
            lemma_trichotomy(s@[mid as int], val);
        }
        let after = if down {
            s[mid] < val
        } else {
            s[mid] > val
        };
        if after {
            hi = mid;
        } else {
            lo = mid;
        }
    }
    proof {
        if monotonic(s@, down) {
            assert forall|j: int| 0 <= j < hi implies !behind(#[trigger] s@[j], val, down) by {
                lemma_monotonic_sides(s@, val, down, j, lo as int);
            }
            assert forall|j: int| hi <= j < n implies behind(#[trigger] s@[j], val, down) by {
                lemma_monotonic_sides(s@, val, down, hi as int, j);
            }
        }
    }
    hi
}

/// Position of the first item of an ascending slice that orders after
/// `val`, or the length of the slice where none does: the number of items
/// that do not order after `val`.
pub fn binsearch<T: PartialOrd + Copy>(s: &[T], val: T) -> (r: usize)
    requires
        total_order::<T>(),
    ensures
        r <= s@.len(),
        ascending(s@) ==> (forall|j: int| 0 <= j < r ==> !gt(#[trigger] s@[j], val)) && (forall|
            j: int,
        | r <= j < s@.len() ==> gt(#[trigger] s@[j], val)),
{
    bound(s, val, false)
}

/// Position of the first item of a descending slice that orders before
/// `val`, or the length of the slice where none does: the number of items
/// that do not order before `val`.
pub fn binsearchdesc<T: PartialOrd + Copy>(s: &[T], val: T) -> (r: usize)
    requires
        total_order::<T>(),
    ensures
        r <= s@.len(),
        descending(s@) ==> (forall|j: int| 0 <= j < r ==> !lt(#[trigger] s@[j], val)) && (forall|
            j: int,
        | r <= j < s@.len() ==> lt(#[trigger] s@[j], val)),
{
    bound(s, val, true)
}

/// Counts the items that compare equal to `val` from an ascending and a
/// descending arrangement of the same items, by one binary search in each.
/// Where `sdesc` is not the reversal of `sasc` the count has no meaning,
/// and is zero where the two searches contradict each other.
pub fn occurs_multiple<T: PartialOrd + Copy>(sasc: &[T], sdesc: &[T], val: T) -> (count: usize)
    requires
        total_order::<T>(),
    ensures
        ascending(sasc@) && sdesc@ == sasc@.reverse() ==> count == count_of(sasc@, val),
{
    let n = sasc.len();
    let upper = binsearch(sasc, val);
    if upper == 0 {
        proof {
            if ascending(sasc@) {
                assert forall|j: int| 0 <= j < n implies (equiv(#[trigger] sasc@[j], val) <==> 0
                    <= j < 0) by {
                    lemma_trichotomy(sasc@[j], val);
                }
                lemma_count_of_run(sasc@, val, 0, 0);
            }
        }
        return 0;
    }
    let not_before = binsearchdesc(sdesc, val);
    let after = n - upper;
    proof {
        if ascending(sasc@) && sdesc@ == sasc@.reverse() {
            let d = sdesc@;
            assert forall|x: int, y: int| 0 <= x < y < d.len() implies le(
                #[trigger] d[y],
                #[trigger] d[x],
            ) by {
                assert(le(sasc@[n - 1 - y], sasc@[n - 1 - x]));
            }
            let lower = n - not_before;
            assert forall|j: int| 0 <= j < n implies (equiv(#[trigger] sasc@[j], val) <==> lower
                <= j < upper) by {
                lemma_trichotomy(sasc@[j], val);
                assert(d[n - 1 - j] == sasc@[j]);
            }
            if lower > upper {
                assert(d[n - 1 - upper as int] == sasc@[upper as int]);
                lemma_trichotomy(sasc@[upper as int], val);
            }
            lemma_count_of_run(sasc@, val, lower, upper as int);
        }
    }
    if not_before >= after {
        not_before - after
    } else {
        0
    }
}

} // verus!
