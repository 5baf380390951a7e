use algos::selection_sort::selection_sort;

#[test]
fn selection_sort_returns_none_if_provided_empty_list() {
    let mut v: Vec<String> = Vec::new();
    selection_sort(&mut v);
    assert_eq!(v, Vec::<String>::new())
}

#[test]
fn selection_sort_correctly_sort_unordered_list() {
    let mut v: Vec<i32> = vec![2, 1, 3, 0, 4];
    selection_sort(&mut v);
    assert_eq!(v, vec![0, 1, 2, 3, 4]);
}

#[test]
fn selection_sort_returns_existing_ordered_list() {
    let mut v: Vec<i32> = vec![0, 1, 2, 3, 4];
    selection_sort(&mut v);
    assert_eq!(v, vec![0, 1, 2, 3, 4])
}

#[test]
fn selection_sort_handles_repeating_values() {
    let mut v: Vec<i32> = vec![5, 3, 0, 2, 1, 3, 4, 5];
    selection_sort(&mut v);
    assert_eq!(v, vec![0, 1, 2, 3, 3, 4, 5, 5])
}

#[test]
fn selection_sort_works_over_list_of_strings() {
    let mut v: Vec<String> = vec![
        "cat".to_string(),
        "apple".to_string(),
        "zebra".to_string(),
        "banana".to_string(),
    ];
    selection_sort(&mut v);
    assert_eq!(
        v,
        vec![
            "apple".to_string(),
            "banana".to_string(),
            "cat".to_string(),
            "zebra".to_string(),
        ]
    )
}
