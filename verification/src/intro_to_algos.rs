//! Introductory search algorithms: a linear scan and two binary searches over
//! a sorted sequence, one iterative and one recursive.
//!
//! A search yields `Some(i)` with the index of an element carrying the
//! searched-for value, and `None` when no element carries it; "not found" is
//! an ordinary result, never a fault or a sentinel index.

use vstd::prelude::*;

use crate::total_order::TotalOrder;
use crate::total_order::eq_by_order;
use crate::total_order::same_value;
use crate::total_order::sorted;

verus! {

/// What every search in this module promises: a returned index holds the
/// searched-for value, and `None` means no element holds it.
pub open spec fn search_outcome<T: TotalOrder>(s: Seq<T>, item: T, r: Option<usize>) -> bool {
    match r {
        Some(i) => i < s.len() && same_value(s[i as int], item),
        None => forall|j: int| 0 <= j < s.len() ==> !same_value(#[trigger] s[j], item),
    }
}

/// A linear search.
///
/// Scans the list front to back and returns the index of the first element
/// equal to `item`, or `None` when the scan finds no match. The list need not
/// be sorted. `O(n)`.
pub fn linear_search<T: TotalOrder>(list: &[T], item: T) -> (r: Option<usize>)
    ensures
        search_outcome(list@, item, r),
        r matches Some(i) ==> forall|j: int| 0 <= j < i ==> !same_value(#[trigger] list@[j], item),
{
    let len = list.len();
    let mut i: usize = 0;
    while i < len
        invariant
            len == list@.len(),
            i <= len,
            forall|j: int| 0 <= j < i ==> !same_value(#[trigger] list@[j], item),
        decreases len - i,
    {
        if eq_by_order(&list[i], &item) {
            return Some(i);
        }
        i = i + 1;
    }
    None
}

/// An iterative binary search.
///
/// Keeps a half-open window of candidate indices and halves it each round:
/// the element in the middle either matches, or tells which half may still
/// hold the value. Requires the list to be sorted ascending. `O(log n)`.
pub fn iterative_binary_search<T: TotalOrder>(list: &[T], item: T) -> (r: Option<usize>)
    requires
        sorted(list@),
    ensures
        search_outcome(list@, item, r),
{
    let mut low: usize = 0;
    let mut high: usize = list.len();
    while low < high
        invariant
            high <= list@.len(),
            sorted(list@),
            forall|j: int| 0 <= j < low ==> !same_value(#[trigger] list@[j], item),
            forall|j: int| high <= j < list@.len() ==> !same_value(#[trigger] list@[j], item),
        decreases high - low,
    {
        let mid = low + (high - low) / 2;
        let le_item_mid = item.le_exec(&list[mid]);
        let le_mid_item = list[mid].le_exec(&item);
        if le_item_mid && le_mid_item {
            proof {
                T::lemma_le_antisymmetric(item.deep_view(), list@[mid as int].deep_view());
            }
            return Some(mid);
        } else if le_item_mid {
            proof {
                assert forall|j: int| mid <= j < list@.len() implies !same_value(
                    #[trigger] list@[j],
                    item,
                ) by {
                    if list@[j].deep_view() == item.deep_view() {
                        T::lemma_le_transitive(
                            list@[mid as int].deep_view(),
                            list@[j].deep_view(),
                            item.deep_view(),
                        );
                    }
                }
            }
            high = mid;
        } else {
            proof {
                T::lemma_le_total(item.deep_view(), list@[mid as int].deep_view());
                assert forall|j: int| 0 <= j <= mid implies !same_value(
                    #[trigger] list@[j],
                    item,
                ) by {
                    if list@[j].deep_view() == item.deep_view() {
                        T::lemma_le_transitive(
                            item.deep_view(),
                            list@[j].deep_view(),
                            list@[mid as int].deep_view(),
                        );
                    }
                }
            }
            low = mid + 1;
        }
    }
    None
}

/// A recursive binary search.
///
/// The same contract as the iterative variant, with the candidate window
/// `[low, high]` passed as arguments instead of mutated in a loop; callers
/// start it on the whole list with `low = 0` and `high = list.len()`. The
/// window may only exclude indices that are known not to hold the value.
/// `O(log n)` deep.
pub fn recursive_binary_search<T: TotalOrder>(
    list: &[T],
    item: T,
    low: usize,
    high: usize,
) -> (r: Option<usize>)
    requires
        sorted(list@),
        high <= list@.len(),
        forall|j: int| 0 <= j < low ==> !same_value(#[trigger] list@[j], item),
        forall|j: int| high < j < list@.len() ==> !same_value(#[trigger] list@[j], item),
    ensures
        search_outcome(list@, item, r),
    decreases high - low,
{
    if list.len() == 0 {
        return None;
    }
    if low > high {
        return None;
    }
    let mid = low + (high - low) / 2;
    if mid >= list.len() {
        return None;
    }
    let le_item_mid = item.le_exec(&list[mid]);
    let le_mid_item = list[mid].le_exec(&item);
    if le_item_mid && le_mid_item {
        proof {
            T::lemma_le_antisymmetric(item.deep_view(), list@[mid as int].deep_view());
        }
        return Some(mid);
    }
    if le_item_mid {
        proof {
            assert forall|j: int| mid <= j < list@.len() implies !same_value(
                #[trigger] list@[j],
                item,
            ) by {
                if list@[j].deep_view() == item.deep_view() {
                    T::lemma_le_transitive(
                        list@[mid as int].deep_view(),
                        list@[j].deep_view(),
                        item.deep_view(),
                    );
                }
            }
        }
        if mid == low {
            None
        } else {
            recursive_binary_search(list, item, low, mid - 1)
        }
    } else {
        proof {
            T::lemma_le_total(item.deep_view(), list@[mid as int].deep_view());
            assert forall|j: int| 0 <= j <= mid implies !same_value(#[trigger] list@[j], item) by {
                if list@[j].deep_view() == item.deep_view() {
                    T::lemma_le_transitive(
                        item.deep_view(),
                        list@[j].deep_view(),
                        list@[mid as int].deep_view(),
                    );
                }
            }
        }
        if mid == high {
            None
        } else {
            recursive_binary_search(list, item, mid + 1, high)
        }
    }
}

} // verus!
