//! What holds of the sorting routines beyond their contracts: laws that
//! relate their outcomes to each other and to the input.

use vstd::prelude::*;
use crate::counting::{
    count_above, lemma_filter_complement, lemma_filter_keeps_prefix, lemma_filter_rearranged, rank,
};
use crate::order::{le, lt, total_order, lemma_total_order};
use crate::sort::{
    lemma_median_of_is_element, lemma_sorted_is_sorted_of, lemma_sorted_of, median_of, sorted,
    sorted_of, valid_parameters,
};

verus! {

/// Sorting a sequence that is in order already leaves it as it is.
pub proof fn lemma_sorted_input_is_unchanged<T: Ord>(s: Seq<T>)
    requires
        total_order::<T>(),
        sorted(s),
    ensures
        sorted_of(s) == s,
{
    lemma_sorted_is_sorted_of(s, s);
}

/// Sorting what was sorted changes nothing: the second time gives what the
/// first time gave.
pub proof fn lemma_sorting_twice<T: Ord>(s: Seq<T>)
    requires
        total_order::<T>(),
    ensures
        sorted_of(sorted_of(s)) == sorted_of(s),
{
    lemma_sorted_of(s);
    lemma_sorted_is_sorted_of(sorted_of(s), sorted_of(s));
}

/// On an input no longer than the cutoff quicksort leaves what insertion
/// sort leaves: `by_quicksort` and `by_insertion` stand for any two
/// sequences of which the contracts of the two routines hold.
pub proof fn lemma_quicksort_agrees_with_insertion_sort<T: Ord>(
    input: Seq<T>,
    r: nat,
    cutoff: nat,
    by_quicksort: Seq<T>,
    by_insertion: Seq<T>,
)
    requires
        total_order::<T>(),
        input.len() <= cutoff,
        sorted(by_quicksort),
        by_quicksort.to_multiset() == input.to_multiset(),
        sorted(by_insertion),
        by_insertion.to_multiset() == input.to_multiset(),
    ensures
        valid_parameters(input.len(), r, cutoff),
        by_quicksort == by_insertion,
{
    lemma_sorted_is_sorted_of(input, by_quicksort);
    lemma_sorted_is_sorted_of(input, by_insertion);
}

/// The group size and the cutoff decide how quicksort works, not what it
/// leaves: `first` and `second` stand for any two sequences of which the
/// contract of quicksort holds, for one input and two pairs of parameters.
pub proof fn lemma_parameters_do_not_change_the_outcome<T: Ord>(
    input: Seq<T>,
    first_r: nat,
    first_cutoff: nat,
    first: Seq<T>,
    second_r: nat,
    second_cutoff: nat,
    second: Seq<T>,
)
    requires
        total_order::<T>(),
        valid_parameters(input.len(), first_r, first_cutoff),
        sorted(first),
        first.to_multiset() == input.to_multiset(),
        valid_parameters(input.len(), second_r, second_cutoff),
        sorted(second),
        second.to_multiset() == input.to_multiset(),
    ensures
        first == second,
{
    lemma_sorted_is_sorted_of(input, first);
    lemma_sorted_is_sorted_of(input, second);
}

/// In a sequence of odd length that holds no value twice, the median is the
/// element in the middle of the sorted order: half of the other elements are
/// below it and half of them above it.
pub proof fn lemma_median_rank<T: Ord>(s: Seq<T>)
    requires
        total_order::<T>(),
        s.no_duplicates(),
        s.len() % 2 == 1,
    ensures
        s.contains(median_of(s)),
        rank(s, median_of(s)) == s.len() / 2,
        count_above(s, median_of(s)) == s.len() / 2,
{
    lemma_total_order::<T>();
    lemma_sorted_of(s);
    lemma_median_of_is_element(s);
    let t = sorted_of(s);
    let k = (s.len() / 2) as int;
    let m = t[k];
    let below = |y: T| lt(y, m);
    let above = |y: T| lt(m, y);
    let at_most = |y: T| le(y, m);
    assert(t.no_duplicates()) by {
        s.lemma_multiset_has_no_duplicates();
        t.lemma_multiset_has_no_duplicates_conv();
    }
    assert forall|i: int| 0 <= i < k implies below(#[trigger] t[i]) by {
        assert(le(t[i], t[k]));
    }
    assert forall|i: int| k <= i < t.len() implies !below(#[trigger] t[i]) by {
        if k < i {
            assert(le(t[k], t[i]));
        }
    }
    assert forall|i: int| 0 <= i < k + 1 implies at_most(#[trigger] t[i]) by {
        if i < k {
            assert(le(t[i], t[k]));
        }
    }
    assert forall|i: int| k + 1 <= i < t.len() implies !at_most(#[trigger] t[i]) by {
        assert(le(t[k], t[i]));
    }
    lemma_filter_keeps_prefix(t, below, k);
    lemma_filter_keeps_prefix(t, at_most, k + 1);
    lemma_filter_complement(t, above, at_most);
    lemma_filter_rearranged(s, t, below);
    lemma_filter_rearranged(s, t, above);
}

} // verus!
