//! Binary search over a range of positions, driven by a comparator.
//!
//! The comparator is asked about a position and answers how the item
//! there compares to the target that the caller has in mind: `Less` where
//! the item orders before the target, `Greater` where it orders after it.
//! The search never sees items, only answers, so it serves plain slices,
//! slices read through an index, and any other sampled sequence alike.
//!
//! What a search finds is stated against a *split* of the range: a run of
//! positions that answer `Equal`, with nothing but `Less` on one side of it
//! and nothing but `Greater` on the other. A comparator over monotonic data
//! has such a split, and the run may be empty: it then marks the place
//! where the target would be inserted.

use vstd::prelude::*;
use core::cmp::Ordering;
use core::ops::Range;
use crate::indices::{gather, indexes, item_at};
use crate::lookup::{ahead_of, behind, lemma_monotonic_has_run, monotonic, run_of};
use crate::order::{
    ascending, descending, equiv, gt, le, lemma_transitive, lemma_trichotomy, lt, total_order,
};

verus! {

/// The comparator can give no other answer than `o` at position `i`.
pub open spec fn answers<F: Fn(usize) -> Ordering>(cmpr: F, i: usize, o: Ordering) -> bool {
    forall|p: Ordering| call_ensures(cmpr, (i,), p) ==> p == o
}

/// The answer given by the items that stand before the target: `Less` in
/// ascending data, `Greater` in descending data.
pub open spec fn leading(descending: bool) -> Ordering {
    if descending {
        Ordering::Greater
    } else {
        Ordering::Less
    }
}

/// The answer given by the items that stand after the target.
pub open spec fn trailing(descending: bool) -> Ordering {
    if descending {
        Ordering::Less
    } else {
        Ordering::Greater
    }
}

/// The comparator splits `lo..hi` at the run `a..b`: `Equal` inside the
/// run, the leading answer before it, the trailing answer after it.
pub open spec fn splits<F: Fn(usize) -> Ordering>(
    cmpr: F,
    lo: usize,
    hi: usize,
    a: usize,
    b: usize,
    descending: bool,
) -> bool {
    &&& lo <= a <= b <= hi
    &&& forall|i: usize| lo <= i < a ==> #[trigger] answers(cmpr, i, leading(descending))
    &&& forall|i: usize| a <= i < b ==> #[trigger] answers(cmpr, i, Ordering::Equal)
    &&& forall|i: usize| b <= i < hi ==> #[trigger] answers(cmpr, i, trailing(descending))
}

/// A split whose direction shows in the answers at the two ends of the
/// range: the run is not empty, or it lies strictly inside the range.
pub open spec fn tells_direction(lo: usize, hi: usize, a: usize, b: usize) -> bool {
    a < b || lo < a < hi
}

/// How a probe that answers `Equal` is read by a search.
#[derive(Clone, Copy)]
enum Tie {
    /// As a hit.
    Hit,
    /// As if the item stood before the target: the search moves up.
    Low,
    /// As if the item stood after the target: the search moves down.
    High,
}

/// A probe that tells the search to move up.
const UP: i8 = -1;

/// A probe that hits the target.
const HIT: i8 = 0;

/// A probe that tells the search to move down.
const DOWN: i8 = 1;

/// What a search makes of an answer: `UP`, `DOWN` or `HIT`.
spec fn reading(o: Ordering, descending: bool, tie: Tie) -> i8 {
    match o {
        Ordering::Less => if descending {
            DOWN
        } else {
            UP
        },
        Ordering::Greater => if descending {
            UP
        } else {
            DOWN
        },
        Ordering::Equal => match tie {
            Tie::Hit => HIT,
            Tie::Low => UP,
            Tie::High => DOWN,
        },
    }
}

/// The comparator has given an answer at `i` that reads as `v`.
spec fn read_as<F: Fn(usize) -> Ordering>(
    cmpr: F,
    i: usize,
    descending: bool,
    tie: Tie,
    v: i8,
) -> bool {
    exists|o: Ordering| call_ensures(cmpr, (i,), o) && reading(o, descending, tie) == v
}

/// Where position `i` lies relative to the run `a..b`: `UP` before it,
/// `HIT` inside it, `DOWN` after it.
spec fn side(i: usize, a: usize, b: usize) -> i8 {
    if i < a {
        UP
    } else if i < b {
        HIT
    } else {
        DOWN
    }
}

/// How a position on the given side of the run reads under a tie rule.
spec fn side_reading(side: i8, tie: Tie) -> i8 {
    if side != HIT {
        side
    } else {
        match tie {
            Tie::Hit => HIT,
            Tie::Low => UP,
            Tie::High => DOWN,
        }
    }
}

/// An answer that the comparator has given at a position of a split range
/// reads as the side of the run on which the position lies.
proof fn lemma_reading_tells_side<F: Fn(usize) -> Ordering>(
    cmpr: F,
    lo: usize,
    hi: usize,
    a: usize,
    b: usize,
    descending: bool,
    tie: Tie,
    i: usize,
    v: i8,
)
    requires
        splits(cmpr, lo, hi, a, b, descending),
        lo <= i < hi,
        read_as(cmpr, i, descending, tie, v),
    ensures
        v == side_reading(side(i, a, b), tie),
{
    let o = choose|o: Ordering| call_ensures(cmpr, (i,), o) && reading(o, descending, tie) == v;
    if i < a {
        assert(answers(cmpr, i, leading(descending)));
    } else if i < b {
        assert(answers(cmpr, i, Ordering::Equal));
    } else {
        assert(answers(cmpr, i, trailing(descending)));
    }
}

/// The number that a search makes of an answer.
fn read(o: Ordering, descending: bool, tie: Tie) -> (v: i8)
    ensures
        v == reading(o, descending, tie),
{
    match o {
        Ordering::Less => if descending {
            DOWN
        } else {
            UP
        },
        Ordering::Greater => if descending {
            UP
        } else {
            DOWN
        },
        Ordering::Equal => match tie {
            Tie::Hit => HIT,
            Tie::Low => UP,
            Tie::High => DOWN,
        },
    }
}

/// Halves the open interval between `lo0` and `hi0` until a probe reads as
/// a hit or no position is left between the bounds. Returns the hit, or
/// the upper bound where there is none, and the two bounds. A bound that
/// has moved stands on a position that was probed: the lower one read as
/// "move up", the upper one as "move down".
fn bisect<F: Fn(usize) -> Ordering + Copy>(
    lo0: usize,
    hi0: usize,
    cmpr: F,
    descending: bool,
    tie: Tie,
) -> (r: (usize, usize, usize))
    requires
        forall|i: usize| lo0 < i < hi0 ==> #[trigger] call_requires(cmpr, (i,)),
    ensures
        lo0 >= hi0 ==> r == (hi0, lo0, hi0),
        lo0 < hi0 ==> lo0 <= r.1 < r.2 <= hi0 && r.1 < r.0 <= r.2,
        r.1 > lo0 ==> read_as(cmpr, r.1, descending, tie, UP),
        r.2 < hi0 ==> read_as(cmpr, r.2, descending, tie, DOWN),
        r.0 < r.2 ==> read_as(cmpr, r.0, descending, tie, HIT),
        lo0 < hi0 && r.0 == r.2 ==> r.2 == r.1 + 1,
{
    if lo0 >= hi0 {
        return (hi0, lo0, hi0);
    }
    let mut lo: usize = lo0;
    let mut hi: usize = hi0;
    while hi - lo > 1
        invariant
            lo0 <= lo < hi <= hi0,
            forall|i: usize| lo0 < i < hi0 ==> #[trigger] call_requires(cmpr, (i,)),
            lo > lo0 ==> read_as(cmpr, lo, descending, tie, UP),
            hi < hi0 ==> read_as(cmpr, hi, descending, tie, DOWN),
        decreases hi - lo,
    {
        let mid: usize = lo + (hi - lo) / 2;
        let o = cmpr(mid);
        let v: i8 = read(o, descending, tie);
        if v == UP {
            lo = mid;
        } else if v == DOWN {
            hi = mid;
        } else {
            return (mid, lo, hi);
        }
    }
    (hi, lo, hi)
}

/// An answer that reads as "move up" is the leading answer, one that reads
/// as "move down" the trailing answer, one that reads as a hit `Equal`.
proof fn lemma_plain_reading(o: Ordering, descending: bool)
    ensures
        reading(o, descending, Tie::Hit) == UP <==> o == leading(descending),
        reading(o, descending, Tie::Hit) == HIT <==> o == Ordering::Equal,
        reading(o, descending, Tie::Hit) == DOWN <==> o == trailing(descending),
        reading(o, descending, Tie::Hit) == -reading(o, !descending, Tie::Hit),
{
}

/// The run of positions that answer `Equal` in the range `start..end`,
/// searched in the given direction. `first` and `last` are the answers at
/// the two ends of the range.
fn locate<F: Fn(usize) -> Ordering + Copy>(
    start: usize,
    end: usize,
    last_pos: usize,
    cmpr: F,
    first: Ordering,
    last: Ordering,
    descending: bool,
) -> (r: Range<usize>)
    requires
        start < end,
        last_pos + 1 == end,
        forall|i: usize| start <= i < end ==> #[trigger] call_requires(cmpr, (i,)),
        call_ensures(cmpr, (start,), first),
        call_ensures(cmpr, (last_pos,), last),
    ensures
        start <= r.start <= r.end <= end,
        forall|a: usize, b: usize|
            splits(cmpr, start, end, a, b, descending) ==> r.start == a && r.end == b,
{
    let f: i8 = read(first, descending, Tie::Hit);
    let l: i8 = read(last, descending, Tie::Hit);
    assert(read_as(cmpr, start, descending, Tie::Hit, f)) by {
        assert(call_ensures(cmpr, (start,), first) && reading(first, descending, Tie::Hit) == f);
    }
    assert(read_as(cmpr, last_pos, descending, Tie::Hit, l)) by {
        assert(call_ensures(cmpr, (last_pos,), last) && reading(last, descending, Tie::Hit) == l);
    }
    if f == DOWN || l < f {
        // The target stands before the range, or the ends contradict
        // each other and the range has no split.
        assert forall|a: usize, b: usize| splits(cmpr, start, end, a, b, descending) implies start
            == a && start == b by {
            lemma_reading_tells_side(cmpr, start, end, a, b, descending, Tie::Hit, start, f);
            lemma_reading_tells_side(
                cmpr,
                start,
                end,
                a,
                b,
                descending,
                Tie::Hit,
                last_pos,
                l,
            );
        }
        return start..start;
    }
    if l < 0 {
        // The target stands after the range.
        assert forall|a: usize, b: usize| splits(cmpr, start, end, a, b, descending) implies end
            == a && end == b by {
            lemma_reading_tells_side(
                cmpr,
                start,
                end,
                a,
                b,
                descending,
                Tie::Hit,
                last_pos,
                l,
            );
        }
        return end..end;
    }
    if f == 0 && l == 0 {
        assert forall|a: usize, b: usize| splits(cmpr, start, end, a, b, descending) implies start
            == a && end == b by {
            lemma_reading_tells_side(cmpr, start, end, a, b, descending, Tie::Hit, start, f);
            lemma_reading_tells_side(
                cmpr,
                start,
                end,
                a,
                b,
                descending,
                Tie::Hit,
                last_pos,
                l,
            );
        }
        return start..end;
    }
    if f == 0 {
        // The run starts the range: find where it ends.
        let (pos, lo, hi) = bisect(start, last_pos, cmpr, descending, Tie::Low);
        assert forall|a: usize, b: usize| splits(cmpr, start, end, a, b, descending) implies start
            == a && pos == b by {
            lemma_reading_tells_side(cmpr, start, end, a, b, descending, Tie::Hit, start, f);
            lemma_reading_tells_side(
                cmpr,
                start,
                end,
                a,
                b,
                descending,
                Tie::Hit,
                last_pos,
                l,
            );
            if start < last_pos {
                if lo > start {
                    lemma_reading_tells_side(cmpr, start, end, a, b, descending, Tie::Low, lo, UP);
                }
                if hi < last_pos {
                    lemma_reading_tells_side(cmpr, start, end, a, b, descending, Tie::Low, hi, DOWN);
                }
                if pos < hi {
                    lemma_reading_tells_side(cmpr, start, end, a, b, descending, Tie::Low, pos, HIT);
                }
            }
        }
        return start..pos;
    }
    if l == 0 {
        // The run ends the range: find where it starts.
        let (pos, lo, hi) = bisect(start, last_pos, cmpr, descending, Tie::High);
        assert forall|a: usize, b: usize| splits(cmpr, start, end, a, b, descending) implies pos
            == a && end == b by {
            lemma_reading_tells_side(cmpr, start, end, a, b, descending, Tie::Hit, start, f);
            lemma_reading_tells_side(
                cmpr,
                start,
                end,
                a,
                b,
                descending,
                Tie::Hit,
                last_pos,
                l,
            );
            if start < last_pos {
                if lo > start {
                    lemma_reading_tells_side(cmpr, start, end, a, b, descending, Tie::High, lo, UP);
                }
                if hi < last_pos {
                    lemma_reading_tells_side(cmpr, start, end, a, b, descending, Tie::High, hi, DOWN);
                }
                if pos < hi {
                    lemma_reading_tells_side(cmpr, start, end, a, b, descending, Tie::High, pos, HIT);
                }
            }
        }
        return pos..end;
    }
    // The two ends bracket the target: look for any hit between them.
    let (hit, lo, hi) = bisect(start, last_pos, cmpr, descending, Tie::Hit);
    if hit == hi {
        assert forall|a: usize, b: usize| splits(cmpr, start, end, a, b, descending) implies hit
            == a && hit == b by {
            lemma_reading_tells_side(cmpr, start, end, a, b, descending, Tie::Hit, start, f);
            lemma_reading_tells_side(
                cmpr,
                start,
                end,
                a,
                b,
                descending,
                Tie::Hit,
                last_pos,
                l,
            );
            if lo > start {
                lemma_reading_tells_side(cmpr, start, end, a, b, descending, Tie::Hit, lo, UP);
            }
            if hi < last_pos {
                lemma_reading_tells_side(cmpr, start, end, a, b, descending, Tie::Hit, hi, DOWN);
            }
        }
        return hit..hit;
    }
    // Search down from the hit for the start of the run and up for its end.
    let (lowend, lo1, hi1) = bisect(lo, hit, cmpr, descending, Tie::High);
    let (highend, lo2, hi2) = bisect(hit, hi, cmpr, descending, Tie::Low);
    assert forall|a: usize, b: usize| splits(cmpr, start, end, a, b, descending) implies lowend
        == a && highend == b by {
        lemma_reading_tells_side(cmpr, start, end, a, b, descending, Tie::Hit, start, f);
        lemma_reading_tells_side(
            cmpr,
            start,
            end,
            a,
            b,
            descending,
            Tie::Hit,
            last_pos,
            l,
        );
        lemma_reading_tells_side(cmpr, start, end, a, b, descending, Tie::Hit, hit, HIT);
        if lo > start {
            lemma_reading_tells_side(cmpr, start, end, a, b, descending, Tie::Hit, lo, UP);
        }
        if hi < last_pos {
            lemma_reading_tells_side(cmpr, start, end, a, b, descending, Tie::Hit, hi, DOWN);
        }
        if lo1 > lo {
            lemma_reading_tells_side(cmpr, start, end, a, b, descending, Tie::High, lo1, UP);
        }
        if hi1 < hit {
            lemma_reading_tells_side(cmpr, start, end, a, b, descending, Tie::High, hi1, DOWN);
        }
        if lowend < hi1 {
            lemma_reading_tells_side(cmpr, start, end, a, b, descending, Tie::High, lowend, HIT);
        }
        if lo2 > hit {
            lemma_reading_tells_side(cmpr, start, end, a, b, descending, Tie::Low, lo2, UP);
        }
        if hi2 < hi {
            lemma_reading_tells_side(cmpr, start, end, a, b, descending, Tie::Low, hi2, DOWN);
        }
        if highend < hi2 {
            lemma_reading_tells_side(cmpr, start, end, a, b, descending, Tie::Low, highend, HIT);
        }
    }
    lowend..highend
}

/// Binary search of a range of positions with a comparator that the
/// caller supplies.
pub trait Search<T> {
    /// The positions of the range, at all of which the comparator must
    /// be ready to answer.
    spec fn covers(&self, i: T) -> bool;

    /// Some position whose answer is `Equal` or, where the search meets
    /// none, the position at which it came to rest, as `Ok` and `Err`.
    fn binary_by<F: Fn(T) -> Ordering + Copy>(self, cmpr: F) -> (r: Result<T, T>)
        requires
            forall|i: T| self.covers(i) ==> #[trigger] call_requires(cmpr, (i,)),
    ;

    /// Some position whose answer is `Equal` or, where the search meets
    /// none, the position at which it came to rest; and the bounds between
    /// which the search ended.
    fn binary_any<F: Fn(T) -> Ordering + Copy>(&self, cmpr: F) -> (r: (T, Range<T>))
        requires
            forall|i: T| self.covers(i) ==> #[trigger] call_requires(cmpr, (i,)),
    ;

    /// The whole run of positions whose answer is `Equal`.
    fn binary_all<F: Fn(T) -> Ordering + Copy>(&self, cmpr: F) -> (r: Range<T>)
        requires
            forall|i: T| self.covers(i) ==> #[trigger] call_requires(cmpr, (i,)),
    ;
}

impl Search<usize> for Range<usize> {
    open spec fn covers(&self, i: usize) -> bool {
        self.start <= i < self.end
    }

    /// `Ok` with a position that answered `Equal` or, where no probe did,
    /// `Err` with the insert position: see `binary_any`.
    fn binary_by<F: Fn(usize) -> Ordering + Copy>(self, cmpr: F) -> (r: Result<usize, usize>)
        ensures
            self.start >= self.end ==> r == Err::<usize, usize>(self.end),
            match r {
                Ok(hit) => self.start < hit < self.end && call_ensures(
                    cmpr,
                    (hit,),
                    Ordering::Equal,
                ),
                Err(at) => self.start < self.end ==> self.start < at <= self.end,
            },
            forall|a: usize, b: usize|
                splits(cmpr, self.start, self.end, a, b, false) && self.start < a ==> match r {
                    Ok(hit) => a <= hit < b,
                    Err(at) => at == a && a == b,
                },
    {
        let (pos, env) = self.binary_any(cmpr);
        if pos < env.end {
            Ok(pos)
        } else {
            Err(pos)
        }
    }

    /// Searches strictly between the two ends of the range, which are
    /// taken to bracket the target: the start is never probed, and is
    /// assumed to answer `Less`. Returns a position that answered `Equal`
    /// or, where no probe did, the upper bound at which the search ended,
    /// and the last bounds. Of a range that is split in ascending order
    /// with its start before the run, the position lies in the run; where
    /// the run is empty, it is the insert position.
    fn binary_any<F: Fn(usize) -> Ordering + Copy>(&self, cmpr: F) -> (r: (usize, Range<usize>))
        ensures
            self.start >= self.end ==> r.0 == self.end && r.1.start == self.start && r.1.end
                == self.end,
            self.start < self.end ==> self.start <= r.1.start < r.1.end <= self.end && r.1.start
                < r.0 <= r.1.end,
            r.0 < r.1.end ==> call_ensures(cmpr, (r.0,), Ordering::Equal),
            self.start < self.end && r.0 == r.1.end ==> r.1.end == r.1.start + 1,
            r.1.start > self.start ==> call_ensures(cmpr, (r.1.start,), Ordering::Less),
            r.1.end < self.end ==> call_ensures(cmpr, (r.1.end,), Ordering::Greater),
            forall|a: usize, b: usize|
                splits(cmpr, self.start, self.end, a, b, false) && self.start < a ==> (r.0
                    < r.1.end ==> a <= r.0 < b) && (r.0 == r.1.end ==> r.0 == a && a == b),
    {
        let start = self.start;
        let end = self.end;
        assert forall|i: usize| start < i < end implies #[trigger] call_requires(cmpr, (i,)) by {
            assert(self.covers(i));
        }
        let (pos, lo, hi) = bisect(start, end, cmpr, false, Tie::Hit);
        proof {
            if pos < hi {
                let o = choose|o: Ordering|
                    call_ensures(cmpr, (pos,), o) && reading(o, false, Tie::Hit) == HIT;
                lemma_plain_reading(o, false);
            }
            if lo > start {
                let o = choose|o: Ordering|
                    call_ensures(cmpr, (lo,), o) && reading(o, false, Tie::Hit) == UP;
                lemma_plain_reading(o, false);
            }
            if hi < end {
                let o = choose|o: Ordering|
                    call_ensures(cmpr, (hi,), o) && reading(o, false, Tie::Hit) == DOWN;
                lemma_plain_reading(o, false);
            }
            assert forall|a: usize, b: usize|
                splits(cmpr, start, end, a, b, false) && start < a implies (pos < hi ==> a <= pos
                < b) && (pos == hi ==> pos == a && a == b) by {
                if pos < hi {
                    lemma_reading_tells_side(cmpr, start, end, a, b, false, Tie::Hit, pos, HIT);
                }
                if lo > start {
                    lemma_reading_tells_side(cmpr, start, end, a, b, false, Tie::Hit, lo, UP);
                }
                if hi < end {
                    lemma_reading_tells_side(cmpr, start, end, a, b, false, Tie::Hit, hi, DOWN);
                }
            }
        }
        (pos, lo..hi)
    }

    /// The run of positions that answer `Equal`. The direction of the data
    /// is found by sampling both ends of the range: where the answer at the
    /// first position exceeds the answer at the last, the data is taken to
    /// descend, and every answer is read in reverse. An empty range gives
    /// the empty run at its start. Of a range that is split in ascending
    /// order the result is the run of the split; so it is of a range that
    /// is split in descending order, where the answers at the ends tell so.
    /// An empty run marks the insert position.
    fn binary_all<F: Fn(usize) -> Ordering + Copy>(&self, cmpr: F) -> (r: Range<usize>)
        ensures
            self.start >= self.end ==> r.start == self.start && r.end == self.start,
            self.start < self.end ==> self.start <= r.start <= r.end <= self.end,
            forall|a: usize, b: usize|
                splits(cmpr, self.start, self.end, a, b, false) ==> r.start == a && r.end == b,
            forall|a: usize, b: usize|
                splits(cmpr, self.start, self.end, a, b, true) && tells_direction(
                    self.start,
                    self.end,
                    a,
                    b,
                ) ==> r.start == a && r.end == b,
    {
        let start = self.start;
        let end = self.end;
        if start >= end {
            return start..start;
        }
        let last_pos: usize = end - 1;
        assert forall|i: usize| start <= i < end implies #[trigger] call_requires(cmpr, (i,)) by {
            assert(self.covers(i));
        }
        let first = cmpr(start);
        let last = cmpr(last_pos);
        let descending = read(first, false, Tie::Hit) > read(last, false, Tie::Hit);
        let r = locate(start, end, last_pos, cmpr, first, last, descending);
        proof {
            lemma_plain_reading(first, false);
            lemma_plain_reading(last, false);
            lemma_plain_reading(first, true);
            lemma_plain_reading(last, true);
            assert(read_as(cmpr, start, false, Tie::Hit, reading(first, false, Tie::Hit)));
            assert(read_as(cmpr, last_pos, false, Tie::Hit, reading(last, false, Tie::Hit)));
            assert(read_as(cmpr, start, true, Tie::Hit, reading(first, true, Tie::Hit)));
            assert(read_as(cmpr, last_pos, true, Tie::Hit, reading(last, true, Tie::Hit)));
            assert forall|a: usize, b: usize| splits(cmpr, start, end, a, b, false) implies r.start
                == a && r.end == b by {
                lemma_reading_tells_side(
                    cmpr,
                    start,
                    end,
                    a,
                    b,
                    false,
                    Tie::Hit,
                    start,
                    reading(first, false, Tie::Hit),
                );
                lemma_reading_tells_side(
                    cmpr,
                    start,
                    end,
                    a,
                    b,
                    false,
                    Tie::Hit,
                    last_pos,
                    reading(last, false, Tie::Hit),
                );
            }
            assert forall|a: usize, b: usize|
                splits(cmpr, start, end, a, b, true) && tells_direction(
                    start,
                    end,
                    a,
                    b,
                ) implies r.start == a && r.end == b by {
                lemma_reading_tells_side(
                    cmpr,
                    start,
                    end,
                    a,
                    b,
                    true,
                    Tie::Hit,
                    start,
                    reading(first, true, Tie::Hit),
                );
                lemma_reading_tells_side(
                    cmpr,
                    start,
                    end,
                    a,
                    b,
                    true,
                    Tie::Hit,
                    last_pos,
                    reading(last, true, Tie::Hit),
                );
                if !descending {
                    // Every position answers `Equal`: the split reads the
                    // same in both directions.
                    assert(a == start && b == end);
                    assert(splits(cmpr, start, end, a, b, false));
                }
            }
        }
        r
    }
}

/// What comparing the item `x` with the target comes to.
pub open spec fn verdict<T: PartialOrd>(x: T, target: T) -> Ordering {
    if lt(x, target) {
        Ordering::Less
    } else if gt(x, target) {
        Ordering::Greater
    } else {
        Ordering::Equal
    }
}

/// A comparator that answers with the verdicts of the items of `data`
/// splits the range of their positions where `data` has its run.
proof fn lemma_run_is_split<T: PartialOrd, F: Fn(usize) -> Ordering>(
    data: Seq<T>,
    target: T,
    cmpr: F,
    n: usize,
    a: usize,
    b: usize,
    down: bool,
)
    requires
        total_order::<T>(),
        n == data.len(),
        run_of(data, target, a, b, down),
        forall|i: usize, o: Ordering|
            i < n && call_ensures(cmpr, (i,), o) ==> o == verdict(item_at(data, i), target),
    ensures
        splits(cmpr, 0, n, a, b, down),
{
    assert forall|i: usize| 0 <= i < a implies #[trigger] answers(cmpr, i, leading(down)) by {
        lemma_trichotomy(item_at(data, i), target);
        assert(ahead_of(item_at(data, i), target, down));
    }
    assert forall|i: usize| a <= i < b implies #[trigger] answers(cmpr, i, Ordering::Equal) by {
        lemma_trichotomy(item_at(data, i), target);
        assert(equiv(item_at(data, i), target));
    }
    assert forall|i: usize| b <= i < n implies #[trigger] answers(cmpr, i, trailing(down)) by {
        lemma_trichotomy(item_at(data, i), target);
        assert(behind(item_at(data, i), target, down));
    }
}

/// Data that descends from a first item to a last item that compares
/// equal to it is constant, and so ascends as well.
proof fn lemma_level_data<T: PartialOrd>(data: Seq<T>, last_pos: usize)
    requires
        total_order::<T>(),
        descending(data),
        last_pos + 1 == data.len(),
        !gt(data[0], item_at(data, last_pos)),
    ensures
        ascending(data),
{
    let z = item_at(data, last_pos);
    assert forall|x: int, y: int| 0 <= x < y < data.len() implies le(
        #[trigger] data[x],
        #[trigger] data[y],
    ) by {
        // data[x] <= data[0] <= z <= data[y]
        lemma_trichotomy(data[0], z);
        crate::order::lemma_reflexive(data[0]);
        crate::order::lemma_reflexive(z);
        if 0 < x {
            assert(le(data[x], data[0]));
        }
        if y + 1 < data.len() {
            assert(le(z, data[y]));
        }
        lemma_transitive(data[x], data[0], z);
        lemma_transitive(data[x], z, data[y]);
    }
}

/// The run of all items of a monotonic slice that compare equal to
/// `target`, found by binary search. The slice is taken to descend where
/// its first item orders after its last. An empty run marks the place at
/// which `target` would be inserted.
pub fn equal_range<T: PartialOrd + Copy>(s: &[T], target: T) -> (r: Range<usize>)
    requires
        total_order::<T>(),
    ensures
        r.start <= r.end <= s@.len(),
        ascending(s@) ==> run_of(s@, target, r.start, r.end, false),
        descending(s@) && !ascending(s@) ==> run_of(s@, target, r.start, r.end, true),
{
    let n = s.len();
    if n == 0 {
        return 0..0;
    }
    let last_pos: usize = n - 1;
    proof {
        lemma_trichotomy(s@[0], item_at(s@, last_pos));
    }
    let down = s[0] > s[last_pos];
    let cmpr = |i: usize| -> (o: Ordering)
        requires
            i < s@.len(),
        ensures
            o == verdict(item_at(s@, i), target),
        {
            let x = s[i];
            proof {
                lemma_trichotomy(x, target);
            }
            if x < target {
                Ordering::Less
            } else if x > target {
                Ordering::Greater
            } else {
                Ordering::Equal
            }
        };
    let first = cmpr(0);
    let last = cmpr(last_pos);
    let r = locate(0, n, last_pos, cmpr, first, last, down);
    proof {
        if descending(s@) && !down {
            lemma_level_data(s@, last_pos);
        }
        if ascending(s@) && down {
            assert(le(s@[0], item_at(s@, last_pos)) || 0 == last_pos);
            crate::order::lemma_reflexive(s@[0]);
        }
        if monotonic(s@, down) {
            let (a, b) = lemma_monotonic_has_run(s@, target, down);
            lemma_run_is_split(s@, target, cmpr, n, a, b, down);
        }
    }
    r
}

/// The run of all positions of the index `idx` whose items compare equal
/// to `target`, where `s` is monotonic when read through `idx`. The data is
/// taken to descend where the first item so read orders after the last.
pub fn equal_range_indexed<T: PartialOrd + Copy>(s: &[T], idx: &[usize], target: T) -> (r: Range<
    usize,
>)
    requires
        total_order::<T>(),
        indexes(idx@, s@),
    ensures
        r.start <= r.end <= idx@.len(),
        ascending(gather(idx@, s@)) ==> run_of(gather(idx@, s@), target, r.start, r.end, false),
        descending(gather(idx@, s@)) && !ascending(gather(idx@, s@)) ==> run_of(
            gather(idx@, s@),
            target,
            r.start,
            r.end,
            true,
        ),
{
    let n = idx.len();
    if n == 0 {
        return 0..0;
    }
    let ghost data = gather(idx@, s@);
    let last_pos: usize = n - 1;
    proof {
        lemma_trichotomy(data[0], item_at(data, last_pos));
    }
    let down = s[idx[0]] > s[idx[last_pos]];
    let cmpr = |i: usize| -> (o: Ordering)
        requires
            i < idx@.len(),
            indexes(idx@, s@),
        ensures
            o == verdict(item_at(gather(idx@, s@), i), target),
        {
            let x = s[idx[i]];
            proof {
                lemma_trichotomy(x, target);
            }
            if x < target {
                Ordering::Less
            } else if x > target {
                Ordering::Greater
            } else {
                Ordering::Equal
            }
        };
    let first = cmpr(0);
    let last = cmpr(last_pos);
    let r = locate(0, n, last_pos, cmpr, first, last, down);
    proof {
        if descending(data) && !down {
            lemma_level_data(data, last_pos);
        }
        if ascending(data) && down {
            assert(le(data[0], item_at(data, last_pos)) || 0 == last_pos);
            crate::order::lemma_reflexive(data[0]);
        }
        if monotonic(data, down) {
            let (a, b) = lemma_monotonic_has_run(data, target, down);
            lemma_run_is_split(data, target, cmpr, n, a, b, down);
        }
    }
    r
}

} // verus!
