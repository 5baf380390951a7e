//! Quicksort, together with the recursive aggregates `sum`, `count` and
//! `find_max`, which share its divide-and-conquer shape.

use vstd::multiset::Multiset;
use vstd::prelude::*;
use vstd::slice::slice_subrange;

use crate::total_order::TotalOrder;
use crate::total_order::lt_by_order;
use crate::total_order::sorted;

verus! {

broadcast use vstd::seq_lib::group_to_multiset_ensures, vstd::multiset::group_multiset_axioms;

/// The sum of a sequence of unsigned integers.
pub open spec fn seq_sum(s: Seq<u64>) -> nat
    decreases s.len(),
{
    if s.len() == 0 {
        0
    } else {
        s[0] as nat + seq_sum(s.drop_first())
    }
}

/// A recursive sum.
///
/// Decomposes the list into its first element and the rest: the sum of an
/// empty list is zero, and otherwise the first element plus the sum of the
/// rest. `O(n)`, with recursion as deep as the list is long.
pub fn sum(list: &[u64]) -> (r: u64)
    requires
        seq_sum(list@) <= u64::MAX,
    ensures
        r as nat == seq_sum(list@),
    decreases list@.len(),
{
    if list.len() == 0 {
        0
    } else {
        let rest = slice_subrange(list, 1, list.len());
        proof {
            assert(rest@ =~= list@.drop_first());
        }
        let rest_sum = sum(rest);
        list[0] + rest_sum
    }
}

/// A recursive count.
///
/// The count of an empty list is zero, and otherwise one plus the count of
/// the rest. `O(n)`.
pub fn count<T>(list: &[T]) -> (r: u64)
    ensures
        r == list@.len(),
    decreases list@.len(),
{
    if list.len() == 0 {
        0
    } else {
        let rest = slice_subrange(list, 1, list.len());
        proof {
            assert(rest@ =~= list@.drop_first());
        }
        1 + count(rest)
    }
}

/// A recursive max.
///
/// The max of an empty list is `None` — a legitimate result, not an error;
/// otherwise it is the greater of the first element and the max of the rest.
/// The `index` argument is bookkeeping carried by the recursion and has no
/// bearing on the result; `find_max` supplies it. `O(n)`.
pub fn _find_max<T: TotalOrder>(list: &[T], index: usize) -> (r: Option<&T>)
    ensures
        match r {
            Some(m) => list@.len() > 0 && list@.contains(*m) && forall|k: int|
                0 <= k < list@.len() ==> T::le(#[trigger] list@[k].deep_view(), m.deep_view()),
            None => list@.len() == 0,
        },
    decreases list@.len(),
{
    if list.len() == 0 {
        return None;
    }
    let next_index = if index == 0 {
        list.len() - 1
    } else {
        index - 1
    };
    let rest = slice_subrange(list, 1, list.len());
    proof {
        assert(rest@ =~= list@.drop_first());
    }
    let rest_max = _find_max(rest, next_index);
    let first = &list[0];
    let candidate = match rest_max {
        None => first,
        Some(m) => m,
    };
    let best = if lt_by_order(candidate, first) {
        first
    } else {
        candidate
    };
    proof {
        assert(list@[0] == *first);
        assert(list@.contains(list@[0]));
        if let Some(m) = rest_max {
            let w = choose|w: int| 0 <= w < rest@.len() && rest@[w] == *m;
            assert(list@[w + 1] == *m);
            assert(list@.contains(*m));
        }
        assert forall|k: int| 0 <= k < list@.len() implies T::le(
            #[trigger] list@[k].deep_view(),
            best.deep_view(),
        ) by {
            T::lemma_le_total(first.deep_view(), first.deep_view());
            if let Some(m) = rest_max {
                T::lemma_le_total(m.deep_view(), m.deep_view());
                if k >= 1 {
                    assert(list@[k] == rest@[k - 1]);
                    assert(T::le(rest@[k - 1].deep_view(), m.deep_view()));
                    if *best == *first {
                        T::lemma_le_transitive(
                            list@[k].deep_view(),
                            m.deep_view(),
                            first.deep_view(),
                        );
                    }
                }
            }
        }
    }
    Some(best)
}

/// The entry point of the recursive max: hands `_find_max` its starting
/// bookkeeping index and returns its result.
pub fn find_max<T: TotalOrder>(list: &[T]) -> (r: Option<&T>)
    ensures
        match r {
            Some(m) => list@.len() > 0 && list@.contains(*m) && forall|k: int|
                0 <= k < list@.len() ==> T::le(#[trigger] list@[k].deep_view(), m.deep_view()),
            None => list@.len() == 0,
        },
{
    let index = if list.len() == 0 {
        0
    } else {
        list.len() - 1
    };
    _find_max(list, index)
}

/// A quicksort.
///
/// Consumes a list and returns a new one holding the same elements in
/// ascending order. The first element serves as the pivot; the remaining
/// elements are split into those strictly below it and the rest, each part is
/// sorted recursively, and the three pieces are joined.
///
/// Average `O(n log n)`; `O(n * n)` in the worst case, since the pivot is
/// always taken from the front.
pub fn quick_sort<T: TotalOrder>(list: Vec<T>) -> (r: Vec<T>)
    ensures
        sorted(r@),
        r@.to_multiset() == list@.to_multiset(),
    decreases list@.len(),
{
    let mut rest = list;
    if rest.len() == 0 {
        return rest;
    }
    let ghost input_seq = rest@;
    let pivot = rest.remove(0);
    let ghost tail_seq = rest@;
    proof {
        assert(input_seq.to_multiset().count(pivot) > 0);
        assert(input_seq.to_multiset() =~= tail_seq.to_multiset().insert(pivot));
    }
    let mut smaller: Vec<T> = Vec::new();
    let mut not_smaller: Vec<T> = Vec::new();
    proof {
        assert(smaller@.to_multiset().add(not_smaller@.to_multiset()).add(rest@.to_multiset())
            =~= tail_seq.to_multiset());
    }
    while rest.len() > 0
        invariant
            smaller@.to_multiset().add(not_smaller@.to_multiset()).add(rest@.to_multiset())
                == tail_seq.to_multiset(),
            forall|k: int|
                0 <= k < smaller@.len() ==> !T::le(
                    pivot.deep_view(),
                    #[trigger] smaller@[k].deep_view(),
                ),
            forall|k: int|
                0 <= k < not_smaller@.len() ==> T::le(
                    pivot.deep_view(),
                    #[trigger] not_smaller@[k].deep_view(),
                ),
        decreases rest@.len(),
    {
        let ghost rest_before = rest@;
        let x = rest.pop().unwrap();
        proof {
            assert(rest@ =~= rest_before.remove(rest_before.len() - 1));
            assert(rest_before.to_multiset().count(x) > 0);
            assert(rest_before.to_multiset() =~= rest@.to_multiset().insert(x));
        }
        let ghost smaller_before = smaller@;
        let ghost not_smaller_before = not_smaller@;
        if lt_by_order(&x, &pivot) {
            smaller.push(x);
        } else {
            not_smaller.push(x);
        }
        proof {
            assert(smaller@.to_multiset().add(not_smaller@.to_multiset()).add(rest@.to_multiset())
                =~= smaller_before.to_multiset().add(not_smaller_before.to_multiset()).add(
                rest_before.to_multiset(),
            ));
        }
    }
    proof {
        assert(rest@.to_multiset() =~= Multiset::<T>::empty());
        assert(smaller@.to_multiset().add(not_smaller@.to_multiset()) =~= tail_seq.to_multiset());
        assert(smaller@.to_multiset().len() == smaller@.len());
        assert(not_smaller@.to_multiset().len() == not_smaller@.len());
        assert(smaller@.to_multiset().add(not_smaller@.to_multiset()).len()
            == smaller@.to_multiset().len() + not_smaller@.to_multiset().len());
        assert(tail_seq.to_multiset().len() == tail_seq.len());
        assert(smaller@.len() + not_smaller@.len() == tail_seq.len());
    }
    let ghost smaller_seq = smaller@;
    let ghost not_smaller_seq = not_smaller@;
    let mut sorted_low = quick_sort(smaller);
    let mut sorted_high = quick_sort(not_smaller);
    let ghost low_seq = sorted_low@;
    let ghost high_seq = sorted_high@;
    proof {
        assert forall|k: int| 0 <= k < low_seq.len() implies !T::le(
            pivot.deep_view(),
            #[trigger] low_seq[k].deep_view(),
        ) by {
            assert(low_seq.contains(low_seq[k]));
            assert(smaller_seq.to_multiset().count(low_seq[k]) > 0);
            assert(smaller_seq.contains(low_seq[k]));
        }
        assert forall|k: int| 0 <= k < high_seq.len() implies T::le(
            pivot.deep_view(),
            #[trigger] high_seq[k].deep_view(),
        ) by {
            assert(high_seq.contains(high_seq[k]));
            assert(not_smaller_seq.to_multiset().count(high_seq[k]) > 0);
            assert(not_smaller_seq.contains(high_seq[k]));
        }
    }
    sorted_low.push(pivot);
    sorted_low.append(&mut sorted_high);
    let result = sorted_low;
    proof {
        let out = result@;
        assert(out =~= low_seq.push(pivot) + high_seq);
        assert forall|i: int, j: int| 0 <= i <= j < out.len() implies T::le(
            #[trigger] out[i].deep_view(),
            #[trigger] out[j].deep_view(),
        ) by {
            let n_low = low_seq.len() as int;
            if i <= j < n_low {
                assert(T::le(low_seq[i].deep_view(), low_seq[j].deep_view()));
            } else if i < n_low {
                T::lemma_le_total(out[i].deep_view(), pivot.deep_view());
                if j > n_low {
                    T::lemma_le_transitive(
                        out[i].deep_view(),
                        pivot.deep_view(),
                        out[j].deep_view(),
                    );
                }
            } else if i == n_low {
                assert(out[i] == pivot);
                if j > n_low {
                    assert(T::le(pivot.deep_view(), high_seq[j - n_low - 1].deep_view()));
                } else {
                    T::lemma_le_total(pivot.deep_view(), pivot.deep_view());
                }
            } else {
                assert(T::le(high_seq[i - n_low - 1].deep_view(), high_seq[j - n_low - 1].deep_view()));
            }
        }
        assert(out.to_multiset() =~= low_seq.push(pivot).to_multiset().add(
            high_seq.to_multiset(),
        )) by {
            vstd::seq_lib::lemma_multiset_commutative(low_seq.push(pivot), high_seq);
        }
        assert(out.to_multiset() =~= input_seq.to_multiset());
    }
    result
}

} // verus!
