//! Counting the elements of a sequence that meet a condition, and what
//! rearranging, splitting and widening do to such a count.

use vstd::prelude::*;
use vstd::seq_lib::{to_multiset_build, to_multiset_len};
use crate::order::{le, lt};

verus! {

/// The number of elements of `s` that are strictly below `x`.
pub open spec fn rank<T: Ord>(s: Seq<T>, x: T) -> nat {
    s.filter(|y: T| lt(y, x)).len()
}

/// The number of elements of `s` that are strictly above `x`.
pub open spec fn count_above<T: Ord>(s: Seq<T>, x: T) -> nat {
    s.filter(|y: T| lt(x, y)).len()
}

/// The number of elements of `s` that are at most `x`.
pub open spec fn count_at_most<T: Ord>(s: Seq<T>, x: T) -> nat {
    s.filter(|y: T| le(y, x)).len()
}

/// The number of elements of `s` that are at least `x`.
pub open spec fn count_at_least<T: Ord>(s: Seq<T>, x: T) -> nat {
    s.filter(|y: T| le(x, y)).len()
}

/// Filtering a sequence and counting its elements afterwards is filtering
/// its elements as a multiset.
pub(crate) proof fn lemma_filter_elements<T>(s: Seq<T>, keep: spec_fn(T) -> bool)
    ensures
        s.filter(keep).to_multiset() == s.to_multiset().filter(keep),
    decreases s.len(),
{
    reveal(Seq::filter);
    if s.len() == 0 {
        assert(s.filter(keep).to_multiset() =~= s.to_multiset().filter(keep)) by {
            to_multiset_len(s);
            assert(s.to_multiset().len() == 0);
        }
    } else {
        let init = s.drop_last();
        let last = s.last();
        lemma_filter_elements(init, keep);
        assert(s == init.push(last));
        to_multiset_build(init, last);
        to_multiset_build(init.filter(keep), last);
        assert(s.filter(keep).to_multiset() =~= s.to_multiset().filter(keep));
    }
}

/// Where a condition holds of the first `k` elements of a sequence and of no
/// other, filtering by it keeps those `k` elements.
pub(crate) proof fn lemma_filter_keeps_prefix<T>(s: Seq<T>, keep: spec_fn(T) -> bool, k: int)
    requires
        0 <= k <= s.len(),
        forall|i: int| 0 <= i < k ==> keep(#[trigger] s[i]),
        forall|i: int| k <= i < s.len() ==> !keep(#[trigger] s[i]),
    ensures
        s.filter(keep) == s.take(k),
    decreases s.len(),
{
    reveal(Seq::filter);
    if s.len() == 0 {
        assert(s.filter(keep) == s.take(k));
    } else {
        let init = s.drop_last();
        if k == s.len() {
            lemma_filter_keeps_prefix(init, keep, k - 1);
            assert(init.take(k - 1).push(s.last()) == s.take(k));
        } else {
            lemma_filter_keeps_prefix(init, keep, k);
            assert(init.take(k) == s.take(k));
        }
    }
}

/// Filtering by a condition that holds of every element keeps them all.
pub(crate) proof fn lemma_filter_keeps_all<T>(s: Seq<T>, keep: spec_fn(T) -> bool)
    requires
        forall|i: int| 0 <= i < s.len() ==> keep(#[trigger] s[i]),
    ensures
        s.filter(keep) == s,
{
    lemma_filter_keeps_prefix(s, keep, s.len() as int);
    assert(s.take(s.len() as int) == s);
}

/// A wider condition keeps no fewer elements.
pub(crate) proof fn lemma_filter_wider<T>(s: Seq<T>, narrow: spec_fn(T) -> bool, wide: spec_fn(T) -> bool)
    requires
        forall|x: T| #[trigger] narrow(x) ==> wide(x),
    ensures
        s.filter(narrow).len() <= s.filter(wide).len(),
    decreases s.len(),
{
    reveal(Seq::filter);
    if s.len() > 0 {
        lemma_filter_wider(s.drop_last(), narrow, wide);
    }
}

/// Filtering a single element keeps it or leaves nothing.
pub(crate) proof fn lemma_filter_one<T>(x: T, keep: spec_fn(T) -> bool)
    ensures
        seq![x].filter(keep).len() == if keep(x) { 1nat } else { 0nat },
{
    reveal(Seq::filter);
    let one = seq![x];
    assert(one.drop_last().len() == 0);
    assert(one.drop_last().filter(keep).len() == 0);
    assert(one.last() == x);
}

/// Rearranging a sequence does not change how many elements a condition
/// keeps.
pub(crate) proof fn lemma_filter_rearranged<T>(a: Seq<T>, b: Seq<T>, keep: spec_fn(T) -> bool)
    requires
        a.to_multiset() == b.to_multiset(),
    ensures
        a.filter(keep).len() == b.filter(keep).len(),
{
    lemma_filter_elements(a, keep);
    lemma_filter_elements(b, keep);
    to_multiset_len(a.filter(keep));
    to_multiset_len(b.filter(keep));
}

/// Of two conditions of which each element meets exactly one, the one keeps
/// what the other drops.
pub(crate) proof fn lemma_filter_complement<T>(s: Seq<T>, keep: spec_fn(T) -> bool, drop: spec_fn(T) -> bool)
    requires
        forall|x: T| #[trigger] keep(x) != drop(x),
    ensures
        s.filter(keep).len() + s.filter(drop).len() == s.len(),
    decreases s.len(),
{
    reveal(Seq::filter);
    if s.len() > 0 {
        lemma_filter_complement(s.drop_last(), keep, drop);
        assert(keep(s.last()) != drop(s.last()));
    }
}

} // verus!
