use algos::intro_to_algos::iterative_binary_search;
use algos::intro_to_algos::linear_search;
use algos::intro_to_algos::recursive_binary_search;
use algos::quicksort::count;
use algos::quicksort::find_max;
use algos::quicksort::quick_sort;
use algos::quicksort::sum;
use algos::selection_sort::selection_sort;

#[test]
fn binary_search_variants_agree_and_find_present_target() {
    let v: Vec<u64> = vec![1, 3, 3, 7, 9, 12, 40];
    for target in [1u64, 3, 7, 9, 12, 40] {
        let iterative = iterative_binary_search(&v, target);
        let recursive = recursive_binary_search(&v, target, 0, v.len());
        let found = iterative.expect("present target must be found");
        assert_eq!(v[found], target);
        let found_rec = recursive.expect("present target must be found");
        assert_eq!(v[found_rec], target);
        assert_eq!(iterative.is_some(), recursive.is_some());
    }
}

#[test]
fn all_searches_miss_absent_target() {
    let v: Vec<u64> = vec![1, 3, 3, 7, 9, 12, 40];
    for target in [0u64, 2, 8, 41] {
        assert_eq!(linear_search(&v, target), None);
        assert_eq!(iterative_binary_search(&v, target), None);
        assert_eq!(recursive_binary_search(&v, target, 0, v.len()), None);
    }
}

#[test]
fn sorting_a_sorted_list_changes_nothing() {
    let sorted_in: Vec<i64> = vec![-4, -1, 0, 2, 2, 5, 9];
    assert_eq!(quick_sort(sorted_in.clone()), sorted_in);
    let mut v = sorted_in.clone();
    selection_sort(&mut v);
    assert_eq!(v, sorted_in);
}

#[test]
fn sorts_return_a_permutation_of_the_input() {
    let input: Vec<i64> = vec![9, -3, 7, 7, 0, -3, 12, 1];
    let mut reference = input.clone();
    reference.sort();
    assert_eq!(quick_sort(input.clone()), reference);
    let mut v = input.clone();
    selection_sort(&mut v);
    assert_eq!(v, reference);
}

#[test]
fn sort_outputs_are_pairwise_ordered() {
    let input: Vec<i64> = vec![5, 4, 3, 2, 1, 0, -1];
    let quick_sorted = quick_sort(input.clone());
    let mut selection_sorted = input.clone();
    selection_sort(&mut selection_sorted);
    for out in [&quick_sorted, &selection_sorted] {
        for i in 0..out.len() {
            for j in i..out.len() {
                assert!(out[i] <= out[j]);
            }
        }
    }
}

#[test]
fn sum_and_count_match_builtin_reductions() {
    let v: Vec<u64> = vec![13, 0, 7, 7, 1000000, 21];
    let builtin_sum: u64 = v.iter().sum();
    assert_eq!(sum(&v), builtin_sum);
    assert_eq!(count(&v), v.len() as u64);
}

#[test]
fn max_matches_builtin_maximum() {
    let v: Vec<i64> = vec![-9, -2, -40, -2, -31];
    assert_eq!(find_max(&v), v.iter().max());
    let empty: Vec<i64> = Vec::new();
    assert_eq!(find_max(&empty), None);
}

#[test]
fn searches_handle_duplicates_consistently() {
    let v: Vec<u64> = vec![2, 2, 2, 2];
    let linear = linear_search(&v, 2);
    assert_eq!(linear, Some(0));
    let found = iterative_binary_search(&v, 2).expect("present target must be found");
    assert_eq!(v[found], 2);
    let found_rec = recursive_binary_search(&v, 2, 0, v.len()).expect("present target must be found");
    assert_eq!(v[found_rec], 2);
}

#[test]
fn sorts_handle_single_element_and_reverse_sorted_input() {
    let single: Vec<u64> = vec![42];
    assert_eq!(quick_sort(single.clone()), single);
    let mut reversed: Vec<u64> = vec![5, 4, 3, 2, 1];
    selection_sort(&mut reversed);
    assert_eq!(reversed, vec![1, 2, 3, 4, 5]);
    assert_eq!(quick_sort(vec![5u64, 4, 3, 2, 1]), vec![1, 2, 3, 4, 5]);
}

#[test]
fn string_searches_compare_by_content() {
    let v: Vec<String> = vec![
        "apple".to_string(),
        "banana".to_string(),
        "cherry".to_string(),
    ];
    assert_eq!(linear_search(&v, "banana".to_string()), Some(1));
    assert_eq!(iterative_binary_search(&v, "cherry".to_string()), Some(2));
    assert_eq!(iterative_binary_search(&v, "durian".to_string()), None);
}
