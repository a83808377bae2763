//! Insertion sort, the median of a small group, median-of-medians pivot
//! selection and the quicksort built on them.

use vstd::prelude::*;
use vstd::slice::slice_to_vec;
use vstd::relations::sorted_by;
use vstd::seq_lib::{lemma_sorted_unique, to_multiset_contains, to_multiset_len};
use crate::order::{le, leq, less, lt, same, total_order, lemma_total_order};

verus! {

/// `s` is non-decreasing.
pub open spec fn sorted<T: Ord>(s: Seq<T>) -> bool {
    forall|i: int, j: int| 0 <= i < j < s.len() ==> le(#[trigger] s[i], #[trigger] s[j])
}

/// The elements of `s` in non-decreasing order.
pub open spec fn sorted_of<T: Ord>(s: Seq<T>) -> Seq<T> {
    s.sort_by(leq::<T>())
}

/// `sorted_of(s)` is non-decreasing and holds the elements of `s`, each as
/// often as `s` does.
pub proof fn lemma_sorted_of<T: Ord>(s: Seq<T>)
    requires
        total_order::<T>(),
    ensures
        sorted(sorted_of(s)),
        sorted_of(s).to_multiset() == s.to_multiset(),
        sorted_of(s).len() == s.len(),
{
    lemma_total_order::<T>();
    s.lemma_sort_by_ensures(leq::<T>());
    let t = sorted_of(s);
    assert(sorted_by(t, leq::<T>()));
    assert forall|i: int, j: int| 0 <= i < j < t.len() implies le(#[trigger] t[i], #[trigger] t[j]) by {
        assert(leq::<T>()(t[i], t[j]));
    }
    s.to_multiset_ensures();
    t.to_multiset_ensures();
}

/// A non-decreasing sequence with the elements of `s` is `sorted_of(s)`:
/// there is one way only to put the elements of a sequence in order.
pub proof fn lemma_sorted_is_sorted_of<T: Ord>(s: Seq<T>, t: Seq<T>)
    requires
        total_order::<T>(),
        sorted(t),
        t.to_multiset() == s.to_multiset(),
    ensures
        t == sorted_of(s),
{
    lemma_total_order::<T>();
    lemma_sorted_of(s);
    let u = sorted_of(s);
    assert(sorted_by(t, leq::<T>())) by {
        assert forall|i: int, j: int| 0 <= i < j < t.len() implies #[trigger] leq::<T>()(t[i], t[j]) by {
            assert(le(t[i], t[j]));
        }
    }
    s.lemma_sort_by_ensures(leq::<T>());
    lemma_sorted_unique(t, u, leq::<T>());
}

/// Decides `sorted`.
pub fn is_sorted<T>(arr: &[T]) -> (yes: bool) where T: Ord + Copy
    requires
        total_order::<T>(),
    ensures
        yes == sorted(arr@),
{
    let n = arr.len();
    let mut k: usize = 1;
    while k < n
        invariant
            total_order::<T>(),
            n == arr@.len(),
            1 <= k,
            forall|p: int, q: int| 0 <= p < q < k && q < n ==> le(#[trigger] arr@[p], #[trigger] arr@[q]),
        decreases n - k,
    {
        proof {
            lemma_total_order::<T>();
        }
        if less(&arr[k], &arr[k - 1]) {
            assert(!le(arr@[k - 1], arr@[k as int]));
            return false;
        }
        k += 1;
    }
    true
}

/// Exchanging two elements keeps the elements.
proof fn lemma_swap_keeps_elements<T>(s: Seq<T>, i: int, j: int)
    requires
        0 <= i < s.len(),
        0 <= j < s.len(),
    ensures
        s.update(i, s[j]).update(j, s[i]).to_multiset() == s.to_multiset(),
{
    broadcast use vstd::seq_lib::group_to_multiset_ensures;
    let s1 = s.update(i, s[j]);
    assert(s1.to_multiset() == s.to_multiset().insert(s[j]).remove(s[i]));
    assert(s1.update(j, s[i]).to_multiset() == s1.to_multiset().insert(s[i]).remove(s1[j]));
    assert(s.to_multiset().count(s[i]) > 0);
    assert(s.to_multiset().count(s[j]) > 0);
    assert(s1.update(j, s[i]).to_multiset() =~= s.to_multiset());
}

/// Sorts `arr` in place by insertion.
pub fn insertion_sort<T>(arr: &mut [T]) where T: Ord + Copy
    requires
        total_order::<T>(),
    ensures
        final(arr)@ == sorted_of(old(arr)@),
        sorted(final(arr)@),
        final(arr)@.to_multiset() == old(arr)@.to_multiset(),
{
    let n = arr.len();
    let mut i: usize = 1;
    while i < n
        invariant
            total_order::<T>(),
            n == arr@.len(),
            1 <= i,
            arr@.to_multiset() == old(arr)@.to_multiset(),
            forall|p: int, q: int| 0 <= p < q < i && q < n ==> le(#[trigger] arr@[p], #[trigger] arr@[q]),
        decreases n - i,
    {
        let mut j: usize = i;
        while j > 0 && less(&arr[j], &arr[j - 1])
            invariant
                total_order::<T>(),
                n == arr@.len(),
                j <= i < n,
                arr@.to_multiset() == old(arr)@.to_multiset(),
                forall|p: int, q: int| 0 <= p < q <= i && q != j ==> le(#[trigger] arr@[p], #[trigger] arr@[q]),
            decreases j,
        {
            let ghost before = arr@;
            let upper = arr[j];
            let lower = arr[j - 1];
            arr[j] = lower;
            arr[j - 1] = upper;
            proof {
                lemma_swap_keeps_elements(before, j as int, j - 1);
                assert(arr@ == before.update(j as int, before[j - 1]).update(j - 1, before[j as int]));
            }
            j -= 1;
        }
        proof {
            lemma_total_order::<T>();
        }
        i += 1;
    }
    proof {
        lemma_sorted_is_sorted_of(old(arr)@, arr@);
    }
}

/// The median of `s`: the element in the middle of `sorted_of(s)`, the upper
/// of the two middle ones where the length is even.
pub open spec fn median_of<T: Ord>(s: Seq<T>) -> T {
    sorted_of(s)[(s.len() / 2) as int]
}

/// The medians of the consecutive groups of `r` elements of `s`, in the order
/// of the groups; the last group holds what is left, at least one element.
pub open spec fn group_medians<T: Ord>(s: Seq<T>, r: nat) -> Seq<T>
    decreases s.len(),
{
    if s.len() == 0 || r == 0 {
        Seq::empty()
    } else if s.len() <= r {
        seq![median_of(s)]
    } else {
        seq![median_of(s.take(r as int))] + group_medians(s.skip(r as int), r)
    }
}

/// The median of medians of `s` for groups of `r`: the median of `s` itself
/// where one group holds all of it, else the median of medians of its group
/// medians.
pub open spec fn pivot_of<T: Ord>(s: Seq<T>, r: nat) -> T
    decreases s.len(),
    via pivot_of_decreases::<T>
{
    if s.len() <= r || r < 2 {
        median_of(s)
    } else {
        pivot_of(group_medians(s, r), r)
    }
}

#[via_fn]
proof fn pivot_of_decreases<T: Ord>(s: Seq<T>, r: nat) {
    if !(s.len() <= r || r < 2) {
        lemma_group_medians_len(s, r);
    }
}

/// There is one median for each group: no more medians than elements, fewer
/// where a group holds two elements or more, and at least one where there is
/// an element.
pub proof fn lemma_group_medians_len<T: Ord>(s: Seq<T>, r: nat)
    requires
        r >= 1,
    ensures
        group_medians(s, r).len() <= s.len(),
        s.len() > r >= 2 ==> group_medians(s, r).len() < s.len(),
        s.len() > 0 ==> group_medians(s, r).len() > 0,
    decreases s.len(),
{
    if s.len() > r {
        lemma_group_medians_len(s.skip(r as int), r);
    }
}

/// Two sequences with the same elements have the same length and contain the
/// same values.
proof fn lemma_same_elements<T>(a: Seq<T>, b: Seq<T>)
    requires
        a.to_multiset() == b.to_multiset(),
    ensures
        a.len() == b.len(),
        forall|x: T| a.contains(x) <==> b.contains(x),
{
    to_multiset_len(a);
    to_multiset_len(b);
    assert forall|x: T| a.contains(x) <==> b.contains(x) by {
        to_multiset_contains(a, x);
        to_multiset_contains(b, x);
    }
}

/// The median of a sequence that is not empty is one of its elements.
pub proof fn lemma_median_of_is_element<T: Ord>(s: Seq<T>)
    requires
        total_order::<T>(),
        s.len() > 0,
    ensures
        s.contains(median_of(s)),
{
    lemma_sorted_of(s);
    lemma_same_elements(sorted_of(s), s);
    assert(sorted_of(s).contains(sorted_of(s)[(s.len() / 2) as int]));
}

/// Every group median of `s` is an element of `s`.
pub proof fn lemma_group_medians_are_elements<T: Ord>(s: Seq<T>, r: nat)
    requires
        total_order::<T>(),
    ensures
        forall|k: int| 0 <= k < group_medians(s, r).len() ==> s.contains(#[trigger] group_medians(s, r)[k]),
    decreases s.len(),
{
    if s.len() == 0 || r == 0 {
    } else if s.len() <= r {
        lemma_median_of_is_element(s);
    } else {
        let head = s.take(r as int);
        let rest = s.skip(r as int);
        lemma_median_of_is_element(head);
        lemma_group_medians_are_elements(rest, r);
        let g = group_medians(s, r);
        assert forall|k: int| 0 <= k < g.len() implies s.contains(#[trigger] g[k]) by {
            if k == 0 {
                let at = choose|at: int| 0 <= at < head.len() && head[at] == median_of(head);
                assert(s[at] == g[k]);
            } else {
                let m = group_medians(rest, r)[k - 1];
                assert(g[k] == m);
                let at = choose|at: int| 0 <= at < rest.len() && rest[at] == m;
                assert(s[at + r] == m);
            }
        }
    }
}

/// The median of medians of a sequence that is not empty is one of its
/// elements.
pub proof fn lemma_pivot_of_is_element<T: Ord>(s: Seq<T>, r: nat)
    requires
        total_order::<T>(),
        s.len() > 0,
    ensures
        s.contains(pivot_of(s, r)),
    decreases s.len(),
{
    if s.len() <= r || r < 2 {
        lemma_median_of_is_element(s);
    } else {
        let g = group_medians(s, r);
        lemma_group_medians_len(s, r);
        lemma_group_medians_are_elements(s, r);
        lemma_pivot_of_is_element(g, r);
        let at = choose|at: int| 0 <= at < g.len() && g[at] == pivot_of(g, r);
        assert(s.contains(g[at]));
    }
}

/// Sorts `arr` in place and returns its median.
pub fn median<T>(arr: &mut [T]) -> (m: T) where T: Ord + Copy
    requires
        total_order::<T>(),
        old(arr)@.len() > 0,
    ensures
        m == median_of(old(arr)@),
        final(arr)@ == sorted_of(old(arr)@),
        sorted(final(arr)@),
        final(arr)@.to_multiset() == old(arr)@.to_multiset(),
{
    insertion_sort(arr);
    proof {
        lemma_same_elements(arr@, old(arr)@);
    }
    arr[arr.len() / 2]
}

/// The median of `arr`, which is left as it is.
pub fn immut_median<T>(arr: &[T]) -> (m: T) where T: Ord + Copy
    requires
        total_order::<T>(),
        arr@.len() > 0,
    ensures
        m == median_of(arr@),
{
    let mut temp = slice_to_vec(arr);
    median(temp.as_mut_slice())
}

/// The median of medians of `arr` for groups of `r` elements: the pivot that
/// quicksort partitions by. `arr` is left as it is.
///
/// With groups of one element the group medians are the elements themselves
/// and the selection would never end, so `r` is at least 2 unless one group
/// holds the whole of `arr`.
pub fn median_of_medians<T>(arr: &mut [T], r: usize) -> (pivot: T) where T: Ord + Copy
    requires
        total_order::<T>(),
        old(arr)@.len() > 0,
        r >= 2 || old(arr)@.len() <= r,
    ensures
        pivot == pivot_of(old(arr)@, r as nat),
        old(arr)@.contains(pivot),
        final(arr)@ == old(arr)@,
    decreases old(arr)@.len(),
{
    proof {
        lemma_pivot_of_is_element(arr@, r as nat);
    }
    let n = arr.len();
    if n <= r {
        return immut_median(arr);
    }
    let mut medians: Vec<T> = Vec::new();
    let mut start: usize = 0;
    proof {
        assert(arr@.skip(0) == arr@);
        assert(medians@ + group_medians(arr@, r as nat) == group_medians(arr@, r as nat));
    }
    while start < n
        invariant
            total_order::<T>(),
            arr@ == old(arr)@,
            n == arr@.len(),
            r >= 2,
            start <= n,
            group_medians(arr@, r as nat) == medians@ + group_medians(arr@.skip(start as int), r as nat),
        decreases n - start,
    {
        let end: usize = if n - start <= r { n } else { start + r };
        let ghost rest = arr@.skip(start as int);
        let m = immut_median(&arr[start..end]);
        proof {
            if n - start <= r {
                assert(arr@.subrange(start as int, end as int) == rest);
                assert(arr@.skip(end as int).len() == 0);
            } else {
                assert(arr@.subrange(start as int, end as int) == rest.take(r as int));
                assert(arr@.skip(end as int) == rest.skip(r as int));
            }
            assert(group_medians(rest, r as nat) == seq![m] + group_medians(arr@.skip(end as int), r as nat));
        }
        medians.push(m);
        start = end;
    }
    proof {
        assert(medians@ == group_medians(arr@, r as nat));
        lemma_group_medians_len(arr@, r as nat);
    }
    median_of_medians(medians.as_mut_slice(), r)
}

/// The group size that serves where the caller has no reason to choose one.
pub const DEFAULT_GROUP_SIZE: usize = 5;

/// The cutoff that serves where the caller has no reason to choose one.
pub const DEFAULT_CUTOFF: usize = 12;

/// Group size and cutoff with which quicksort finishes on a sequence of `len`
/// elements: the pivot is only selected for a sequence longer than one
/// element and longer than the cutoff, and selecting it takes groups of two
/// elements or more.
pub open spec fn valid_parameters(len: nat, r: nat, cutoff: nat) -> bool {
    len <= 1 || len <= cutoff || r >= 2
}

/// Decides `valid_parameters`.
pub fn parameters_are_valid(len: usize, r: usize, cutoff: usize) -> (valid: bool)
    ensures
        valid == valid_parameters(len as nat, r as nat, cutoff as nat),
{
    len <= 1 || len <= cutoff || r >= 2
}

/// Elements below a pivot, then copies of the pivot, then elements above it
/// are in order when the two outer parts are.
proof fn lemma_three_parts_sorted<T: Ord>(below: Seq<T>, equal: Seq<T>, above: Seq<T>, pivot: T)
    requires
        total_order::<T>(),
        sorted(below),
        sorted(above),
        forall|k: int| 0 <= k < below.len() ==> lt(#[trigger] below[k], pivot),
        forall|k: int| 0 <= k < equal.len() ==> #[trigger] equal[k] == pivot,
        forall|k: int| 0 <= k < above.len() ==> lt(pivot, #[trigger] above[k]),
    ensures
        sorted(below + equal + above),
{
    lemma_total_order::<T>();
    let whole = below + equal + above;
    assert forall|i: int, j: int| 0 <= i < j < whole.len() implies le(#[trigger] whole[i], #[trigger] whole[j]) by {
        let b = below.len() as int;
        let e = equal.len() as int;
        if j < b {
            assert(whole[i] == below[i] && whole[j] == below[j]);
        } else if j < b + e {
            assert(whole[j] == equal[j - b]);
            if i < b {
                assert(whole[i] == below[i]);
            } else {
                assert(whole[i] == equal[i - b]);
            }
        } else {
            assert(whole[j] == above[j - b - e]);
            if i < b {
                assert(whole[i] == below[i]);
                assert(lt(below[i], pivot) && lt(pivot, above[j - b - e]));
            } else if i < b + e {
                assert(whole[i] == equal[i - b]);
            } else {
                assert(whole[i] == above[i - b - e]);
            }
        }
    }
}

/// What holds of every element of a sequence holds of every element of a
/// rearrangement of it.
proof fn lemma_rearranged_elements<T>(a: Seq<T>, b: Seq<T>, holds: spec_fn(T) -> bool)
    requires
        a.to_multiset() == b.to_multiset(),
        forall|k: int| 0 <= k < a.len() ==> holds(#[trigger] a[k]),
    ensures
        forall|k: int| 0 <= k < b.len() ==> holds(#[trigger] b[k]),
{
    lemma_same_elements(a, b);
    assert forall|k: int| 0 <= k < b.len() implies holds(#[trigger] b[k]) by {
        assert(b.contains(b[k]));
        let at = choose|at: int| 0 <= at < a.len() && a[at] == b[k];
        assert(holds(a[at]));
    }
}

/// Overwrites the elements of `dst` from index `at` on with those of `src`.
fn copy_into<T: Copy>(dst: &mut [T], at: usize, src: &Vec<T>)
    requires
        at + src@.len() <= old(dst)@.len(),
    ensures
        final(dst)@ == old(dst)@.take(at as int) + src@ + old(dst)@.skip(at + src@.len()),
{
    let n = dst.len();
    let mut k: usize = 0;
    while k < src.len()
        invariant
            k <= src@.len(),
            at + src@.len() <= n,
            n == dst@.len(),
            n == old(dst)@.len(),
            dst@ == old(dst)@.take(at as int) + src@.take(k as int) + old(dst)@.skip(at + k),
        decreases src@.len() - k,
    {
        dst[at + k] = src[k];
        k += 1;
    }
}

/// Sorts `arr` in place: by insertion where it is no longer than `cutoff`,
/// else by partitioning it around its median of medians for groups of `r`
/// into the elements below the pivot, those equal to it and those above it,
/// and sorting the two outer parts in the same way.
pub fn quicksort<T>(arr: &mut [T], r: usize, cutoff: usize) where T: Ord + Copy
    requires
        total_order::<T>(),
        valid_parameters(old(arr)@.len(), r as nat, cutoff as nat),
    ensures
        final(arr)@ == sorted_of(old(arr)@),
        sorted(final(arr)@),
        final(arr)@.to_multiset() == old(arr)@.to_multiset(),
    decreases old(arr)@.len(),
{
    let n = arr.len();
    if n <= 1 {
        proof {
            lemma_sorted_is_sorted_of(arr@, arr@);
        }
        return;
    }
    if n <= cutoff {
        insertion_sort(arr);
        return;
    }
    let pivot = median_of_medians(arr, r);

    let mut left: Vec<T> = Vec::new();
    let mut pivots: Vec<T> = Vec::new();
    let mut right: Vec<T> = Vec::new();
    let mut i: usize = 0;
    proof {
        lemma_total_order::<T>();
        assert(arr@.take(0).to_multiset() =~= left@.to_multiset().add(pivots@.to_multiset()).add(right@.to_multiset())) by {
            broadcast use vstd::seq_lib::group_to_multiset_ensures;
            assert(arr@.take(0).to_multiset().len() == 0);
        }
    }
    while i < n
        invariant
            total_order::<T>(),
            arr@ == old(arr)@,
            n == arr@.len(),
            i <= n,
            left@.len() + pivots@.len() + right@.len() == i,
            forall|k: int| 0 <= k < left@.len() ==> lt(#[trigger] left@[k], pivot),
            forall|k: int| 0 <= k < pivots@.len() ==> #[trigger] pivots@[k] == pivot,
            forall|k: int| 0 <= k < right@.len() ==> lt(pivot, #[trigger] right@[k]),
            forall|k: int| 0 <= k < i && arr@[k] == pivot ==> pivots@.len() > 0,
            arr@.take(i as int).to_multiset() == left@.to_multiset().add(pivots@.to_multiset()).add(
                right@.to_multiset(),
            ),
        decreases n - i,
    {
        let x = arr[i];
        proof {
            lemma_total_order::<T>();
        }
        if less(&x, &pivot) {
            left.push(x);
        } else if same(&x, &pivot) {
            pivots.push(x);
        } else {
            right.push(x);
        }
        proof {
            broadcast use vstd::seq_lib::group_to_multiset_ensures;
            assert(arr@.take(i + 1) == arr@.take(i as int).push(x));
            assert(arr@.take(i + 1).to_multiset() =~= left@.to_multiset().add(pivots@.to_multiset()).add(
                right@.to_multiset(),
            ));
        }
        i += 1;
    }
    let ghost l0 = left@;
    let ghost r0 = right@;
    proof {
        assert(arr@.take(n as int) == arr@);
        assert(old(arr)@.contains(pivot));
        assert(pivots@.len() > 0);
    }
    quicksort(left.as_mut_slice(), r, cutoff);
    quicksort(right.as_mut_slice(), r, cutoff);
    proof {
        lemma_same_elements(l0, left@);
        lemma_same_elements(r0, right@);
    }
    copy_into(arr, 0, &left);
    copy_into(arr, left.len(), &pivots);
    copy_into(arr, left.len() + pivots.len(), &right);
    proof {
        assert(arr@ == left@ + pivots@ + right@);
        lemma_rearranged_elements(l0, left@, |x: T| lt(x, pivot));
        lemma_rearranged_elements(r0, right@, |x: T| lt(pivot, x));
        lemma_three_parts_sorted(left@, pivots@, right@, pivot);
        assert(arr@.to_multiset() =~= old(arr)@.to_multiset()) by {
            vstd::seq_lib::lemma_multiset_commutative(left@ + pivots@, right@);
            vstd::seq_lib::lemma_multiset_commutative(left@, pivots@);
        }
        lemma_sorted_is_sorted_of(old(arr)@, arr@);
    }
}

} // verus!
