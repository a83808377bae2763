//! Running times of repeated trials, summed up: the average and the median of
//! the faster half of them, which the slower trials do not disturb.

use vstd::prelude::*;
use crate::sort::{
    lemma_sorted_is_sorted_of, lemma_sorted_of, median_of, quicksort, sorted, sorted_of,
    DEFAULT_CUTOFF, DEFAULT_GROUP_SIZE,
};

verus! {

/// What is kept of the running times of some trials, in the unit in which
/// they were measured.
#[derive(Debug, Clone, Copy, PartialEq, Eq)]
pub struct Summary {
    /// The average of the faster half, rounded down.
    pub average: u64,
    /// The median of the faster half.
    pub median: u64,
}

/// The sum of `times`.
pub open spec fn sum_of(times: Seq<u64>) -> int
    decreases times.len(),
{
    if times.len() == 0 {
        0
    } else {
        sum_of(times.drop_last()) + times.last()
    }
}

/// The faster half of `times`, fastest first; of an odd number of times the
/// middle one is left out with the slower ones.
pub open spec fn faster_half(times: Seq<u64>) -> Seq<u64> {
    sorted_of(times).take((times.len() / 2) as int)
}

/// The average of a sequence that is not empty, rounded down.
pub open spec fn average_of(times: Seq<u64>) -> int {
    sum_of(times) / (times.len() as int)
}

/// Sorts `times` and sums up its faster half.
///
/// There are two times at least, so that the faster half is not empty.
pub fn summarize(times: &mut [u64]) -> (summary: Summary)
    requires
        old(times)@.len() >= 2,
    ensures
        final(times)@ == sorted_of(old(times)@),
        sorted(final(times)@),
        final(times)@.to_multiset() == old(times)@.to_multiset(),
        summary.average == average_of(faster_half(old(times)@)),
        summary.median == median_of(faster_half(old(times)@)),
{
    quicksort(times, DEFAULT_GROUP_SIZE, DEFAULT_CUTOFF);
    proof {
        lemma_sorted_of(old(times)@);
    }
    let half = times.len() / 2;
    let ghost best = times@.take(half as int);
    let mut sum: u128 = 0;
    let mut k: usize = 0;
    while k < half
        invariant
            k <= half <= times@.len(),
            best == times@.take(half as int),
            sum == sum_of(best.take(k as int)),
            sum <= k * 0xffff_ffff_ffff_ffff,
        decreases half - k,
    {
        proof {
            assert(best.take(k + 1).drop_last() == best.take(k as int));
            assert(best.take(k + 1).last() == times@[k as int]);
        }
        sum = sum + times[k] as u128;
        k += 1;
    }
    proof {
        assert(best.take(half as int) == best);
        lemma_sorted_is_sorted_of(best, best);
        assert(sum / (half as u128) <= 0xffff_ffff_ffff_ffff) by (nonlinear_arith)
            requires
                sum <= half * 0xffff_ffff_ffff_ffff,
                half > 0,
        ;
    }
    Summary { average: (sum / (half as u128)) as u64, median: times[half / 2] }
}

} // verus!
