use algos::recursion::factorial;

#[test]
fn finds_factorial_for_max_input() {
    assert_eq!(factorial(20), 2432902008176640000)
}

#[test]
fn finds_factorial_for_input() {
    assert_eq!(factorial(5), 120)
}

#[test]
fn finds_factorial_for_one() {
    assert_eq!(factorial(1), 1)
}

#[test]
fn find_factorial_for_zero() {
    assert_eq!(factorial(0), 1);
}
