//! How far from the ends of a sequence its median of medians lies: the
//! range of ranks that the length and the group size leave to the pivot.

use vstd::prelude::*;
use crate::counting::{
    count_above, count_at_least, count_at_most, lemma_filter_complement, lemma_filter_keeps_all,
    lemma_filter_one, lemma_filter_rearranged, lemma_filter_wider, rank,
};
use crate::order::{le, lt, total_order, lemma_total_order};
use crate::sort::{
    group_medians, lemma_group_medians_len, lemma_sorted_of, median_of, pivot_of, sorted_of,
};

verus! {

/// The number of groups that `n` elements fall into, `r` to a group.
pub open spec fn group_count(n: nat, r: nat) -> nat
    decreases n,
{
    if n == 0 || r == 0 {
        0
    } else if n <= r {
        1
    } else {
        1 + group_count((n - r) as nat, r)
    }
}

/// The number of elements that `groups` groups are sure to give where each
/// full group gives `each`: the last group may be short and give one only.
pub open spec fn sure_of(groups: nat, each: nat) -> nat {
    if groups == 0 {
        0
    } else {
        ((groups - 1) * each + 1) as nat
    }
}

/// A number of elements at most the median of medians, for `n` elements in
/// groups of `r`: the median of one group has half of the group at or below
/// it, and the median of medians has so many group medians at or below it as
/// this same bound gives for them.
pub open spec fn sure_at_most(n: nat, r: nat) -> nat
    decreases n,
    via sure_at_most_decreases
{
    if n <= r || r < 2 {
        n / 2 + 1
    } else {
        sure_of(sure_at_most(group_count(n, r), r), r / 2 + 1)
    }
}

/// A number of elements at least the median of medians, for `n` elements in
/// groups of `r`.
pub open spec fn sure_at_least(n: nat, r: nat) -> nat
    decreases n,
    via sure_at_least_decreases
{
    if n <= r || r < 2 {
        (n - n / 2) as nat
    } else {
        sure_of(sure_at_least(group_count(n, r), r), (r - r / 2) as nat)
    }
}

#[via_fn]
proof fn sure_at_most_decreases(n: nat, r: nat) {
    if !(n <= r || r < 2) {
        lemma_group_count(n, r);
    }
}

#[via_fn]
proof fn sure_at_least_decreases(n: nat, r: nat) {
    if !(n <= r || r < 2) {
        lemma_group_count(n, r);
    }
}

/// Groups of two elements or more are fewer than the elements, and there is
/// a group where there is an element.
pub proof fn lemma_group_count(n: nat, r: nat)
    requires
        r >= 1,
    ensures
        group_count(n, r) <= n,
        n > r >= 2 ==> group_count(n, r) < n,
        n > 0 ==> group_count(n, r) > 0,
    decreases n,
{
    if n > r {
        lemma_group_count((n - r) as nat, r);
    }
}

/// There are as many group medians as groups.
pub proof fn lemma_group_medians_count<T: Ord>(s: Seq<T>, r: nat)
    ensures
        group_medians(s, r).len() == group_count(s.len(), r),
    decreases s.len(),
{
    if s.len() > r && r > 0 {
        lemma_group_medians_count(s.skip(r as int), r);
    }
}

/// The median of a sequence has the lower half of the elements and itself at
/// or below it, and the upper half, itself among them, at or above it.
pub proof fn lemma_median_sides<T: Ord>(s: Seq<T>)
    requires
        total_order::<T>(),
        s.len() > 0,
    ensures
        count_at_most(s, median_of(s)) >= s.len() / 2 + 1,
        count_at_least(s, median_of(s)) >= s.len() - s.len() / 2,
{
    lemma_total_order::<T>();
    lemma_sorted_of(s);
    let t = sorted_of(s);
    let k = (s.len() / 2) as int;
    let m = t[k];
    let low = |y: T| le(y, m);
    let high = |y: T| le(m, y);
    assert(count_at_most(s, m) >= k + 1) by {
        let front = t.take(k + 1);
        let back = t.skip(k + 1);
        assert(t == front + back);
        assert forall|i: int| 0 <= i < front.len() implies low(#[trigger] front[i]) by {
            if i < k {
                assert(le(t[i], t[k]));
            }
        }
        lemma_filter_keeps_all(front, low);
        Seq::filter_distributes_over_add(front, back, low);
        lemma_filter_rearranged(s, t, low);
    }
    assert(count_at_least(s, m) >= s.len() - k) by {
        let front = t.take(k);
        let back = t.skip(k);
        assert(t == front + back);
        assert forall|i: int| 0 <= i < back.len() implies high(#[trigger] back[i]) by {
            if i > 0 {
                assert(le(t[k], t[k + i]));
            }
        }
        lemma_filter_keeps_all(back, high);
        Seq::filter_distributes_over_add(front, back, high);
        lemma_filter_rearranged(s, t, high);
    }
}

/// With `c` group medians at most `p`, the elements at most `p` are at least
/// what `c` groups are sure to give, half a group and one element each.
proof fn lemma_groups_at_most<T: Ord>(s: Seq<T>, r: nat, p: T)
    requires
        total_order::<T>(),
        r >= 1,
    ensures
        count_at_most(s, p) >= sure_of(count_at_most(group_medians(s, r), p), r / 2 + 1),
    decreases s.len(),
{
    lemma_total_order::<T>();
    let low = |y: T| le(y, p);
    let each = r / 2 + 1;
    let g = group_medians(s, r);
    if s.len() == 0 {
        assert(g.filter(low).len() == 0) by {
            reveal(Seq::filter);
        }
    } else if s.len() <= r {
        let m = median_of(s);
        assert(g == seq![m]);
        lemma_filter_one(m, low);
        if le(m, p) {
            lemma_median_sides(s);
            lemma_filter_wider(s, |y: T| le(y, m), low);
            assert(sure_of(1, each) == 1) by (nonlinear_arith)
                requires
                    sure_of(1, each) == (1 - 1) * each + 1,
            ;
        }
    } else {
        let head = s.take(r as int);
        let rest = s.skip(r as int);
        let m = median_of(head);
        assert(s == head + rest);
        assert(g == seq![m] + group_medians(rest, r));
        Seq::filter_distributes_over_add(head, rest, low);
        Seq::filter_distributes_over_add(seq![m], group_medians(rest, r), low);
        lemma_filter_one(m, low);
        lemma_groups_at_most(rest, r, p);
        let c = count_at_most(group_medians(rest, r), p);
        if le(m, p) {
            lemma_median_sides(head);
            lemma_filter_wider(head, |y: T| le(y, m), low);
            assert(count_at_most(head, p) >= each);
            assert(each + sure_of(c, each) >= sure_of(c + 1, each)) by (nonlinear_arith)
                requires
                    each >= 1,
                    sure_of(c, each) == if c == 0 { 0 } else { (c - 1) * each + 1 },
                    sure_of(c + 1, each) == c * each + 1,
            ;
        }
    }
}

/// With `c` group medians at least `p`, the elements at least `p` are at
/// least what `c` groups are sure to give, the upper half of a group each.
proof fn lemma_groups_at_least<T: Ord>(s: Seq<T>, r: nat, p: T)
    requires
        total_order::<T>(),
        r >= 1,
    ensures
        count_at_least(s, p) >= sure_of(count_at_least(group_medians(s, r), p), (r - r / 2) as nat),
    decreases s.len(),
{
    lemma_total_order::<T>();
    let high = |y: T| le(p, y);
    let each = (r - r / 2) as nat;
    let g = group_medians(s, r);
    if s.len() == 0 {
        assert(g.filter(high).len() == 0) by {
            reveal(Seq::filter);
        }
    } else if s.len() <= r {
        let m = median_of(s);
        assert(g == seq![m]);
        lemma_filter_one(m, high);
        if le(p, m) {
            lemma_median_sides(s);
            lemma_filter_wider(s, |y: T| le(m, y), high);
            assert(sure_of(1, each) == 1) by (nonlinear_arith)
                requires
                    sure_of(1, each) == (1 - 1) * each + 1,
            ;
        }
    } else {
        let head = s.take(r as int);
        let rest = s.skip(r as int);
        let m = median_of(head);
        assert(s == head + rest);
        assert(g == seq![m] + group_medians(rest, r));
        Seq::filter_distributes_over_add(head, rest, high);
        Seq::filter_distributes_over_add(seq![m], group_medians(rest, r), high);
        lemma_filter_one(m, high);
        lemma_groups_at_least(rest, r, p);
        let c = count_at_least(group_medians(rest, r), p);
        if le(p, m) {
            lemma_median_sides(head);
            lemma_filter_wider(head, |y: T| le(m, y), high);
            assert(count_at_least(head, p) >= each);
            assert(each + sure_of(c, each) >= sure_of(c + 1, each)) by (nonlinear_arith)
                requires
                    each >= 1,
                    sure_of(c, each) == if c == 0 { 0 } else { (c - 1) * each + 1 },
                    sure_of(c + 1, each) == c * each + 1,
            ;
        }
    }
}

/// More groups are sure to give no fewer elements.
proof fn lemma_sure_of_grows(fewer: nat, more: nat, each: nat)
    requires
        fewer <= more,
    ensures
        sure_of(fewer, each) <= sure_of(more, each),
{
    if fewer > 0 {
        assert((fewer - 1) * each <= (more - 1) * each) by (nonlinear_arith)
            requires
                1 <= fewer <= more,
                each >= 0,
        ;
    }
}

/// The median of medians lies within a range of ranks that the length and
/// the group size fix: at least `sure_at_most` elements are at or below it
/// and at least `sure_at_least` elements at or above it. The part that
/// quicksort sorts below the pivot leaves out the latter, the part above it
/// the former.
pub proof fn lemma_pivot_sides<T: Ord>(s: Seq<T>, r: nat)
    requires
        total_order::<T>(),
        s.len() > 0,
    ensures
        count_at_most(s, pivot_of(s, r)) >= sure_at_most(s.len(), r),
        count_at_least(s, pivot_of(s, r)) >= sure_at_least(s.len(), r),
    decreases s.len(),
{
    if s.len() <= r || r < 2 {
        lemma_median_sides(s);
    } else {
        let g = group_medians(s, r);
        let p = pivot_of(g, r);
        lemma_group_medians_len(s, r);
        lemma_group_medians_count(s, r);
        lemma_pivot_sides(g, r);
        lemma_groups_at_most(s, r, p);
        lemma_groups_at_least(s, r, p);
        lemma_sure_of_grows(sure_at_most(g.len(), r), count_at_most(g, p), r / 2 + 1);
        lemma_sure_of_grows(sure_at_least(g.len(), r), count_at_least(g, p), (r - r / 2) as nat);
    }
}

/// Neither of the two parts that quicksort sorts on its own holds all but a
/// few elements: the elements below the pivot leave room for the
/// `sure_at_least` elements that are not below it, the elements above it for
/// the `sure_at_most` elements that are not above it.
pub proof fn lemma_partition_sizes<T: Ord>(s: Seq<T>, r: nat)
    requires
        total_order::<T>(),
        s.len() > 0,
    ensures
        rank(s, pivot_of(s, r)) + sure_at_least(s.len(), r) <= s.len(),
        count_above(s, pivot_of(s, r)) + sure_at_most(s.len(), r) <= s.len(),
{
    let p = pivot_of(s, r);
    lemma_total_order::<T>();
    lemma_pivot_sides(s, r);
    lemma_filter_complement(s, |y: T| lt(y, p), |y: T| le(p, y));
    lemma_filter_complement(s, |y: T| lt(p, y), |y: T| le(y, p));
}

} // verus!
