//! Selection sort: repeatedly find the minimum of the unsorted tail and
//! exchange it into place.

use vstd::multiset::Multiset;
use vstd::prelude::*;

use crate::total_order::TotalOrder;
use crate::total_order::lt_by_order;
use crate::total_order::sorted;

verus! {

broadcast use vstd::seq_lib::group_to_multiset_ensures, vstd::multiset::group_multiset_axioms;

/// Exchanges the elements at positions `i` and `j`.
fn exchange<T>(list: &mut Vec<T>, i: usize, j: usize)
    requires
        i < old(list)@.len(),
        j < old(list)@.len(),
    ensures
        final(list)@ == old(list)@.update(i as int, old(list)@[j as int]).update(
            j as int,
            old(list)@[i as int],
        ),
        final(list)@.to_multiset() == old(list)@.to_multiset(),
{
    let ghost before = list@;
    if i != j {
        let (a, b) = if i < j { (i, j) } else { (j, i) };
        let x = list.remove(b);
        let ghost v1 = list@;
        let y = list.remove(a);
        let ghost v2 = list@;
        list.insert(a, x);
        let ghost v3 = list@;
        list.insert(b, y);
        proof {
            assert(list@ =~= before.update(i as int, before[j as int]).update(
                j as int,
                before[i as int],
            ));
            assert(v1.to_multiset() =~= before.to_multiset().remove(x));
            assert(v2.to_multiset() =~= v1.to_multiset().remove(y));
            assert(v3.remove(a as int) =~= v2);
            assert(v3.to_multiset().remove(v3[a as int]) =~= v2.to_multiset());
            assert(v3.to_multiset().count(x) > 0) by {
                assert(v3[a as int] == x);
                assert(v3.contains(x));
            }
            assert(v3.to_multiset() =~= v2.to_multiset().insert(x));
            assert(list@.remove(b as int) =~= v3);
            assert(list@.to_multiset().remove(list@[b as int]) =~= v3.to_multiset());
            assert(list@.to_multiset().count(y) > 0) by {
                assert(list@[b as int] == y);
                assert(list@.contains(y));
            }
            assert(list@.to_multiset() =~= v3.to_multiset().insert(y));
            assert(list@.to_multiset() =~= before.to_multiset()) by {
                assert(before.to_multiset().count(x) > 0) by {
                    assert(before[b as int] == x);
                    assert(before.contains(x));
                }
                assert(v1.to_multiset().count(y) > 0) by {
                    assert(v1[a as int] == y);
                    assert(v1.contains(y));
                }
            }
        }
    } else {
        proof {
            assert(list@ =~= before.update(i as int, before[j as int]).update(
                j as int,
                before[i as int],
            ));
        }
    }
}

/// A selection sort.
///
/// Reorders the list ascending in place: for each position, scan the
/// positions after it for the index of the least remaining element, then
/// exchange that element into the position. After `k` rounds the first `k`
/// positions hold the `k` least elements in order. `O(n * n)`.
pub fn selection_sort<T: TotalOrder>(list: &mut Vec<T>)
    ensures
        sorted(final(list)@),
        final(list)@.to_multiset() == old(list)@.to_multiset(),
{
    let len = list.len();
    let mut i: usize = 0;
    while i < len
        invariant
            len == list@.len(),
            i <= len,
            list@.to_multiset() == old(list)@.to_multiset(),
            forall|p: int, q: int|
                0 <= p <= q < i ==> T::le(
                    #[trigger] list@[p].deep_view(),
                    #[trigger] list@[q].deep_view(),
                ),
            forall|p: int, q: int|
                0 <= p < i <= q < len ==> T::le(
                    #[trigger] list@[p].deep_view(),
                    #[trigger] list@[q].deep_view(),
                ),
        decreases len - i,
    {
        let ghost at_round_start = list@;
        let mut j: usize = i + 1;
        let mut current_min: usize = i;
        proof {
            T::lemma_le_total(list@[i as int].deep_view(), list@[i as int].deep_view());
        }
        while j < len
            invariant
                len == list@.len(),
                list@ == at_round_start,
                i < len,
                i < j,
                j <= len,
                i <= current_min < j,
                forall|t: int|
                    i <= t < j ==> T::le(
                        list@[current_min as int].deep_view(),
                        #[trigger] list@[t].deep_view(),
                    ),
            decreases len - j,
        {
            if lt_by_order(&list[j], &list[current_min]) {
                proof {
                    assert forall|t: int| i <= t < j + 1 implies T::le(
                        list@[j as int].deep_view(),
                        #[trigger] list@[t].deep_view(),
                    ) by {
                        if t < j {
                            T::lemma_le_transitive(
                                list@[j as int].deep_view(),
                                list@[current_min as int].deep_view(),
                                list@[t].deep_view(),
                            );
                        } else {
                            T::lemma_le_total(list@[j as int].deep_view(), list@[t].deep_view());
                        }
                    }
                }
                current_min = j;
            }
            j = j + 1;
        }
        let ghost before = list@;
        exchange(list, i, current_min);
        proof {
            assert forall|p: int, q: int| 0 <= p <= q < i + 1 implies T::le(
                #[trigger] list@[p].deep_view(),
                #[trigger] list@[q].deep_view(),
            ) by {
                if q == i {
                    assert(list@[q] == before[current_min as int]);
                    if p < i {
                        assert(T::le(before[p].deep_view(), before[current_min as int].deep_view()));
                    } else {
                        T::lemma_le_total(list@[p].deep_view(), list@[q].deep_view());
                    }
                }
            }
            assert forall|p: int, q: int| 0 <= p < i + 1 && i + 1 <= q < len implies T::le(
                #[trigger] list@[p].deep_view(),
                #[trigger] list@[q].deep_view(),
            ) by {
                let qv = list@[q].deep_view();
                assert(q == current_min ==> list@[q] == before[i as int]);
                assert(q != current_min ==> list@[q] == before[q]);
                if p < i {
                    assert(T::le(before[p].deep_view(), qv));
                } else {
                    assert(list@[p] == before[current_min as int]);
                    assert(T::le(before[current_min as int].deep_view(), qv));
                }
            }
        }
        i = i + 1;
    }
}

} // verus!
