use algos::quicksort::count;
use algos::quicksort::find_max;
use algos::quicksort::quick_sort;
use algos::quicksort::sum;

#[test]
fn sum_of_empty_list_returns_zero() {
    let v: Vec<u64> = Vec::new();
    assert_eq!(sum(&v), 0)
}

#[test]
fn sum_of_non_empty_list_returns_non_zero_sum_value() {
    let v: Vec<u64> = (0..5).collect();
    assert_eq!(sum(&v), 10);
}

#[test]
fn sum_of_non_empty_list_returns_value_equal_to_builtin_sum() {
    let v: Vec<u64> = (0..5).collect();
    let sum_of_v = sum(&v);
    let builtin_sum_of_v = v.iter().sum();
    assert_eq!(sum_of_v, builtin_sum_of_v);
}

#[test]
fn count_of_empty_list_returns_zero() {
    let v: Vec<u64> = Vec::new();
    assert_eq!(count(&v), 0)
}

#[test]
fn count_of_non_empty_list_returns_non_zero_count_value() {
    let v: Vec<u64> = (0..5).collect();
    assert_eq!(count(&v), 5);
}

#[test]
fn count_of_non_empty_list_returns_value_equal_to_builtin_len() {
    let v: Vec<u64> = (0..5).collect();
    let count_of_v = count(&v);
    let builtin_count_of_v = v.len() as u64;
    assert_eq!(count_of_v, builtin_count_of_v);
}

#[test]
fn max_of_empty_list_returns_none() {
    let v: Vec<u64> = Vec::new();
    assert_eq!(find_max(&v), None)
}

#[test]
fn max_of_list_returns_expected_value() {
    let v: Vec<u64> = vec![0, 25, 4, 2, 10, 1, 20];
    assert_eq!(find_max(&v), Some(&25))
}

#[test]
fn max_of_list_with_negative_values_returns_expected_value() {
    let v: Vec<i64> = vec![0, 25, -4, -2, 10, 1, 20];
    assert_eq!(find_max(&v), Some(&25))
}

#[test]
fn max_of_list_with_single_value_returns_expected_value() {
    let v: Vec<i64> = vec![3];
    assert_eq!(find_max(&v), Some(&3))
}

#[test]
fn max_of_empty_list_returns_value_equal_to_builtin_max() {
    let v: Vec<u64> = Vec::new();
    let builtin_max = v.iter().max();
    assert_eq!(builtin_max, find_max(&v))
}

#[test]
fn max_of_list_returns_value_equal_to_builtin_max() {
    let v: Vec<u64> = vec![0, 25, 4, 2, 10, 1, 20];
    let builtin_max = v.iter().max();
    assert_eq!(builtin_max, find_max(&v))
}

#[test]
fn quick_sort_of_empty_list() {
    let v: Vec<u64> = Vec::new();
    assert_eq!(quick_sort(v.clone()), v)
}

#[test]
fn quick_sort_of_one_element_list() {
    let v: Vec<u64> = vec![1];
    assert_eq!(quick_sort(v.clone()), v)
}

#[test]
fn quick_sort_of_four_element_list() {
    let v: Vec<u64> = vec![2, 1, 4, 0, 3, 5];
    assert_eq!(quick_sort(v.clone()), vec![0, 1, 2, 3, 4, 5])
}

#[test]
fn quick_sort_of_four_element_list_with_negative_values() {
    let v: Vec<i64> = vec![2, 1, 4, 0, 3, -5];
    assert_eq!(quick_sort(v.clone()), vec![-5, 0, 1, 2, 3, 4])
}

#[test]
fn quick_sort_of_four_element_list_with_str_values() {
    let v: Vec<String> = vec![
        "mangoes".to_string(),
        "apple".to_string(),
        "apples".to_string(),
        "bananas".to_string(),
    ];
    assert_eq!(
        quick_sort(v.clone()),
        vec![
            "apple".to_string(),
            "apples".to_string(),
            "bananas".to_string(),
            "mangoes".to_string(),
        ]
    )
}

#[test]
fn quick_sort_of_repeated_values() {
    let v: Vec<u64> = vec![5, 2, 4, 1, 0, 1, 3, 4];
    assert_eq!(quick_sort(v.clone()), vec![0, 1, 1, 2, 3, 4, 4, 5])
}
