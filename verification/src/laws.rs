//! Laws relating the algorithms of this crate, stated over the spec
//! vocabulary their contracts share and proved once.

use vstd::prelude::*;

use crate::intro_to_algos::search_outcome;
use crate::quicksort::seq_sum;
use crate::total_order::TotalOrder;
use crate::total_order::has_value;
use crate::total_order::same_value;
use crate::total_order::sorted;

verus! {

broadcast use vstd::seq_lib::group_to_multiset_ensures, vstd::multiset::group_multiset_axioms;

/// A search on a list holding the target finds it: every result that meets
/// the searches' common contract is an index whose element carries the
/// target's value.
pub proof fn lemma_search_finds_present<T: TotalOrder>(s: Seq<T>, item: T, r: Option<usize>)
    requires
        search_outcome(s, item, r),
        has_value(s, item),
    ensures
        r matches Some(i) && i < s.len() && same_value(s[i as int], item),
{
    if r is None {
        let w = choose|w: int| 0 <= w < s.len() && s[w].deep_view() == item.deep_view();
        assert(!same_value(s[w], item));
    }
}

/// A search on a list without the target reports "not found": every result
/// that meets the searches' common contract is `None`.
pub proof fn lemma_search_misses_absent<T: TotalOrder>(s: Seq<T>, item: T, r: Option<usize>)
    requires
        search_outcome(s, item, r),
        !has_value(s, item),
    ensures
        r is None,
{
}

/// Any two searches agree on the same list and target: results that meet the
/// common contract are either both an index or both "not found".
pub proof fn lemma_searches_agree<T: TotalOrder>(
    s: Seq<T>,
    item: T,
    r1: Option<usize>,
    r2: Option<usize>,
)
    requires
        search_outcome(s, item, r1),
        search_outcome(s, item, r2),
    ensures
        r1 is Some <==> r2 is Some,
{
    if r1 is Some && r2 is None {
        let i = r1->0;
        assert(!same_value(s[i as int], item));
    }
    if r2 is Some && r1 is None {
        let i = r2->0;
        assert(!same_value(s[i as int], item));
    }
}

/// The deep views of a sequence's elements, in order.
pub open spec fn views_of<T: DeepView>(s: Seq<T>) -> Seq<T::V> {
    s.map_values(|x: T| x.deep_view())
}

/// Sequences holding the same elements have views that are rearrangements of
/// one another.
proof fn lemma_views_permuted<T: TotalOrder>(s1: Seq<T>, s2: Seq<T>)
    requires
        s1.to_multiset() == s2.to_multiset(),
    ensures
        views_of(s1).to_multiset() == views_of(s2).to_multiset(),
    decreases s1.len(),
{
    if s1.len() == 0 {
        assert(s1.to_multiset().len() == s1.len());
        assert(s2.to_multiset().len() == s2.len());
        assert(s2.len() == 0);
        assert(views_of(s1) =~= views_of(s2));
    } else {
        let x = s1[0];
        assert(s1.contains(x));
        assert(s2.to_multiset().count(x) > 0);
        assert(s2.contains(x));
        let k = choose|k: int| 0 <= k < s2.len() && s2[k] == x;
        let t1 = s1.remove(0);
        let t2 = s2.remove(k);
        assert(t1.to_multiset() =~= t2.to_multiset());
        lemma_views_permuted(t1, t2);
        assert(views_of(t1) =~= views_of(s1).remove(0));
        assert(views_of(t2) =~= views_of(s2).remove(k));
        let xv = x.deep_view();
        assert(views_of(s1)[0] == xv);
        assert(views_of(s2)[k] == xv);
        assert(views_of(s1).remove(0).to_multiset() == views_of(s1).to_multiset().remove(xv));
        assert(views_of(s2).remove(k).to_multiset() == views_of(s2).to_multiset().remove(xv));
        assert(views_of(s1).to_multiset().count(xv) > 0) by {
            assert(views_of(s1).contains(xv));
        }
        assert(views_of(s2).to_multiset().count(xv) > 0) by {
            assert(views_of(s2).contains(xv));
        }
        assert(views_of(s1).to_multiset().remove(xv) =~= views_of(s2).to_multiset().remove(xv));
        assert forall|y: T::V|
            views_of(s1).to_multiset().count(y) == views_of(s2).to_multiset().count(y) by {
            assert(views_of(s1).to_multiset().remove(xv).count(y) == views_of(
                s2,
            ).to_multiset().remove(xv).count(y));
        }
        assert(views_of(s1).to_multiset() =~= views_of(s2).to_multiset());
    }
}

/// Sorting is idempotent, and more generally a sorted arrangement of given
/// elements is unique: two sorted sequences holding the same elements carry
/// the same value at every position. Applied to a sorted input and a sort's
/// output, it says the sort returns the input unchanged.
pub proof fn lemma_sorted_arrangement_unique<T: TotalOrder>(s1: Seq<T>, s2: Seq<T>)
    requires
        sorted(s1),
        sorted(s2),
        s1.to_multiset() == s2.to_multiset(),
    ensures
        views_of(s1) == views_of(s2),
{
    let leq = |a: T::V, b: T::V| T::le(a, b);
    assert forall|a: T::V| #[trigger] leq(a, a) by {
        T::lemma_le_total(a, a);
    }
    assert forall|a: T::V, b: T::V| #[trigger] leq(a, b) && #[trigger] leq(b, a) implies a == b by {
        T::lemma_le_antisymmetric(a, b);
    }
    assert forall|a: T::V, b: T::V, c: T::V|
        #[trigger] leq(a, b) && #[trigger] leq(b, c) implies leq(a, c) by {
        T::lemma_le_transitive(a, b, c);
    }
    assert forall|a: T::V, b: T::V| #[trigger] leq(a, b) || #[trigger] leq(b, a) by {
        T::lemma_le_total(a, b);
    }
    assert(vstd::relations::total_ordering(leq));
    assert(vstd::relations::sorted_by(views_of(s1), leq));
    assert(vstd::relations::sorted_by(views_of(s2), leq));
    lemma_views_permuted(s1, s2);
    vstd::seq_lib::lemma_sorted_unique(views_of(s1), views_of(s2), leq);
    assert(views_of(s1) =~= views_of(s2));
}

/// `seq_sum` is the standard reduction-sum: folding addition over the
/// sequence from the left, starting at zero, yields the same total.
pub proof fn lemma_seq_sum_is_fold(s: Seq<u64>)
    ensures
        seq_sum(s) == s.fold_left(0, |acc: int, x: u64| acc + x),
    decreases s.len(),
{
    let f = |acc: int, x: u64| acc + x;
    if s.len() == 0 {
    } else {
        lemma_seq_sum_is_fold(s.drop_first());
        s.lemma_fold_left_alt(0, f);
        s.drop_first().lemma_fold_left_alt(f(0, s[0]), f);
        assert(s.fold_left_alt(0, f) == s.drop_first().fold_left_alt(f(0, s[0]), f));
        lemma_fold_left_sum_shift(s.drop_first(), s[0] as int);
    }
}

/// Folding addition starting from `base` is the fold from zero plus `base`.
proof fn lemma_fold_left_sum_shift(s: Seq<u64>, base: int)
    ensures
        s.fold_left(base, |acc: int, x: u64| acc + x) == base + s.fold_left(
            0,
            |acc: int, x: u64| acc + x,
        ),
    decreases s.len(),
{
    if s.len() == 0 {
    } else {
        lemma_fold_left_sum_shift(s.drop_last(), base);
    }
}

} // verus!
