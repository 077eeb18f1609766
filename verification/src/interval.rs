//! Matching an inclusive id range against a sorted list of ids.

use std::ops::RangeInclusive;
use vstd::prelude::*;

verus! {

/// Every element is smaller than each one after it.
pub open spec fn strictly_increasing(s: Seq<i64>) -> bool {
    forall|i: int, j: int| 0 <= i < j < s.len() ==> s[i] < s[j]
}

/// No element is larger than one after it.
pub open spec fn ascending(s: Seq<i64>) -> bool {
    forall|i: int, j: int| 0 <= i < j < s.len() ==> s[i] <= s[j]
}

/// The number of elements of `s` that are smaller than `x`.
pub open spec fn count_below(s: Seq<i64>, x: int) -> nat {
    s.filter(|v: i64| v < x).len()
}

/// A position that has the elements below `x` before it, and no other, is the
/// number of elements below `x`.
pub proof fn lemma_count_below_is_split(s: Seq<i64>, x: int, p: int)
    requires
        0 <= p <= s.len(),
        forall|k: int| 0 <= k < p ==> s[k] < x,
        forall|k: int| p <= k < s.len() ==> s[k] >= x,
    ensures
        count_below(s, x) == p,
    decreases s.len(),
{
    reveal(Seq::filter);
    if s.len() > 0 {
        let init = s.drop_last();
        if p == s.len() {
            lemma_count_below_is_split(init, x, p - 1);
        } else {
            lemma_count_below_is_split(init, x, p);
        }
    }
}

/// An ascending sequence is split at the number of its elements below `x`:
/// the elements before that position are below `x`, the others are not.
pub proof fn lemma_count_below_splits(s: Seq<i64>, x: int)
    requires
        ascending(s),
    ensures
        count_below(s, x) <= s.len(),
        forall|k: int| 0 <= k < count_below(s, x) ==> s[k] < x,
        forall|k: int| count_below(s, x) <= k < s.len() ==> s[k] >= x,
    decreases s.len(),
{
    reveal(Seq::filter);
    if s.len() > 0 {
        let init = s.drop_last();
        assert(ascending(init)) by {
            assert forall|i: int, j: int| 0 <= i < j < init.len() implies init[i] <= init[j] by {
                assert(s[i] <= s[j]);
            }
        }
        lemma_count_below_splits(init, x);
        if s.last() < x {
            assert forall|k: int| 0 <= k < s.len() implies s[k] < x by {
                if k < s.len() - 1 {
                    assert(s[k] <= s[s.len() - 1]);
                }
            }
            assert forall|k: int| 0 <= k < init.len() implies init[k] < x by {
                assert(init[k] == s[k]);
            }
            lemma_count_below_is_split(init, x, init.len() as int);
            assert(count_below(s, x) == s.len());
        } else {
            assert(count_below(s, x) == count_below(init, x));
            assert forall|k: int| 0 <= k < count_below(s, x) implies s[k] < x by {
                assert(init[k] < x);
            }
            assert forall|k: int| count_below(s, x) <= k < s.len() implies s[k] >= x by {
                if k < init.len() {
                    assert(init[k] >= x);
                }
            }
        }
    }
}

/// Looks `x` up in a slice that is meant to be ascending.
///
/// `Ok` carries a position that holds `x`. `Err` carries a position at which
/// `x` was not found; in an ascending slice `x` then occurs nowhere, and the
/// position is the one at which `x` could be inserted: the number of elements
/// below `x`.
pub fn binary_search(sorted_slice: &[i64], x: i64) -> (found: Result<usize, usize>)
    ensures
        match found {
            Ok(i) => i < sorted_slice@.len() && sorted_slice@[i as int] == x,
            Err(i) => {
                &&& i <= sorted_slice@.len()
                &&& ascending(sorted_slice@) ==> i == count_below(sorted_slice@, x as int)
                    && !sorted_slice@.contains(x)
            },
        },
{
    let mut low: usize = 0;
    let mut high: usize = sorted_slice.len();
    while low < high
        invariant
            low <= high <= sorted_slice@.len(),
            ascending(sorted_slice@) ==> forall|k: int| 0 <= k < low ==> sorted_slice@[k] < x,
            ascending(sorted_slice@) ==> forall|k: int|
                high <= k < sorted_slice@.len() ==> sorted_slice@[k] > x,
        decreases high - low,
    {
        let mid: usize = low + (high - low) / 2;
        let probe: i64 = sorted_slice[mid];
        if probe == x {
            return Ok(mid);
        } else if probe < x {
            low = mid + 1;
        } else {
            high = mid;
        }
    }
    proof {
        if ascending(sorted_slice@) {
            lemma_count_below_is_split(sorted_slice@, x as int, low as int);
        }
    }
    Err(low)
}

/// `std::ops::RangeInclusive::start`: the lower bound that the range was made
/// with. Its documentation leaves the value open once the range has been
/// iterated to exhaustion, so nothing is claimed of such a range.
pub assume_specification<Idx>[ RangeInclusive::<Idx>::start ](
    range: &RangeInclusive<Idx>,
) -> (bound: &Idx)
    ensures
        !range@.exhausted ==> *bound == range@.start,
;

/// `std::ops::RangeInclusive::end`: the upper bound that the range was made
/// with. Its documentation leaves the value open once the range has been
/// iterated to exhaustion, so nothing is claimed of such a range.
pub assume_specification<Idx>[ RangeInclusive::<Idx>::end ](
    range: &RangeInclusive<Idx>,
) -> (bound: &Idx)
    ensures
        !range@.exhausted ==> *bound == range@.end,
;

/// Some element of `s` lies between `lo` and `hi`, both included.
pub open spec fn touches(s: Seq<i64>, lo: int, hi: int) -> bool {
    exists|k: int| 0 <= k < s.len() && lo <= #[trigger] s[k] <= hi
}

/// The span of positions that `range_included` answers with, for a strictly
/// increasing `s`.
///
/// There is no span when neither bound occurs in `s` and as many elements lie
/// below the one as below the other. Otherwise the span starts at the number
/// of elements below `lo` and ends one before the number of elements that are
/// at most `hi`, but not before position 0.
pub open spec fn matched_span(s: Seq<i64>, lo: i64, hi: i64) -> Option<(int, int)> {
    if !s.contains(lo) && !s.contains(hi) && count_below(s, lo as int) == count_below(
        s,
        hi as int,
    ) {
        None
    } else {
        let upto = count_below(s, hi + 1);
        Some((count_below(s, lo as int) as int, if upto == 0 { 0 } else { upto - 1 }))
    }
}

/// For a range whose bounds are in order and a strictly increasing sequence,
/// there is no span exactly when no element lies in the range, and a span
/// covers exactly the positions of the elements that lie in the range.
pub proof fn lemma_matched_span_is_exact(s: Seq<i64>, lo: i64, hi: i64)
    requires
        strictly_increasing(s),
        lo <= hi,
    ensures
        matched_span(s, lo, hi) is None <==> !touches(s, lo as int, hi as int),
        matched_span(s, lo, hi) matches Some((i, j)) ==> {
            &&& 0 <= i <= j < s.len()
            &&& forall|k: int| 0 <= k < s.len() ==> (lo <= #[trigger] s[k] <= hi <==> i <= k <= j)
        },
{
    assert(ascending(s));
    lemma_count_below_splits(s, lo as int);
    lemma_count_below_splits(s, hi as int);
    lemma_count_below_splits(s, hi + 1);
    let a = count_below(s, lo as int) as int;
    let p = count_below(s, hi as int) as int;
    let b = count_below(s, hi + 1) as int;
    if p < a {
        assert(s[p] < lo && s[p] >= hi);
    }
    if b < p {
        assert(s[b] < hi && s[b] >= hi + 1);
    }
    assert(a <= p <= b);
    assert forall|k: int| 0 <= k < s.len() implies (lo <= #[trigger] s[k] <= hi <==> a <= k
        < b) by {}
    if a < b {
        assert(lo <= s[a] <= hi);
    }
    if touches(s, lo as int, hi as int) {
        let k = choose|k: int| 0 <= k < s.len() && lo <= #[trigger] s[k] <= hi;
        assert(a <= k < b);
    }
    assert(touches(s, lo as int, hi as int) <==> a < b);
    if s.contains(lo) {
        let k = choose|k: int| 0 <= k < s.len() && s[k] == lo;
        assert(lo <= s[k] <= hi);
    }
    if s.contains(hi) {
        let k = choose|k: int| 0 <= k < s.len() && s[k] == hi;
        assert(lo <= s[k] <= hi);
    } else {
        assert forall|m: int| p <= m < s.len() implies s[m] >= hi + 1 by {
            assert(s[m] >= hi);
            assert(s[m] != hi);
        }
        lemma_count_below_is_split(s, hi + 1, p);
    }
}

/// Tells which part of a sorted id list can hold ids from `range`.
///
/// `sorted_slice` is meant to be strictly increasing. The answer is the span
/// of positions that has to be searched for an id of the range, or `None` if
/// no id of the list lies in the range.
pub fn range_included(range: &RangeInclusive<i64>, sorted_slice: &[i64]) -> (span: Option<
    RangeInclusive<usize>,
>)
    ensures
        span matches Some(r) ==> !r@.exhausted,
        strictly_increasing(sorted_slice@) && !range@.exhausted ==> match matched_span(
            sorted_slice@,
            range@.start,
            range@.end,
        ) {
            None => span is None,
            Some((i, j)) => span matches Some(r) && r@.start == i && r@.end == j,
        },
        strictly_increasing(sorted_slice@) && !range@.exhausted && range@.start <= range@.end ==> {
            &&& span is None <==> !touches(sorted_slice@, range@.start as int, range@.end as int)
            &&& span matches Some(r) ==> r@.start <= r@.end < sorted_slice@.len() && forall|k: int|
                0 <= k < sorted_slice@.len() ==> (range@.start <= #[trigger] sorted_slice@[k]
                    <= range@.end <==> r@.start <= k <= r@.end)
        },
{
    let lo: i64 = *range.start();
    let hi: i64 = *range.end();
    let at_lo = binary_search(sorted_slice, lo);
    let at_hi = binary_search(sorted_slice, hi);
    proof {
        if strictly_increasing(sorted_slice@) && !range@.exhausted {
            let s = sorted_slice@;
            lemma_count_below_splits(s, hi as int);
            if let Ok(i) = at_lo {
                lemma_count_below_is_split(s, lo as int, i as int);
            }
            if let Ok(j) = at_hi {
                lemma_count_below_is_split(s, hi as int, j as int);
                lemma_count_below_is_split(s, hi + 1, j + 1);
            } else {
                assert(forall|m: int| 0 <= m < s.len() ==> s[m] != hi);
                lemma_count_below_is_split(s, hi + 1, count_below(s, hi as int) as int);
            }
            if lo <= hi {
                lemma_matched_span_is_exact(s, lo, hi);
            }
        }
    }
    match (at_lo, at_hi) {
        (Ok(start), Ok(end)) => Some(RangeInclusive::new(start, end)),
        (Ok(start), Err(end)) => Some(RangeInclusive::new(start, end.saturating_sub(1))),
        (Err(start), Ok(end)) => Some(RangeInclusive::new(start, end)),
        (Err(start), Err(end)) => {
            if start == end {
                None
            } else {
                Some(RangeInclusive::new(start, end.saturating_sub(1)))
            }
        },
    }
}

} // verus!
