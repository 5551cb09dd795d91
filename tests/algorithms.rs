use exercises::algorithms::{bin_search, is_prime, max, min, nth_prime};

#[test]
fn max_and_min_of_sorted_array() {
    let array = [1, 2, 3, 4, 5, 6, 7, 8, 9, 10];
    assert_eq!(max(&array), 10);
    assert_eq!(min(&array), 1);
}

#[test]
fn max_and_min_of_mixed_array() {
    let array = [3, -7, 12, 0, 12, -7, 5, 1, 9, -2];
    assert_eq!(max(&array), 12);
    assert_eq!(min(&array), -7);
}

#[test]
fn primes_are_recognised() {
    assert!(is_prime(&2));
    assert!(is_prime(&29));
    assert!(!is_prime(&4));
    assert!(!is_prime(&49));
    assert!(is_prime(&2147483647));
}

#[test]
fn tenth_prime() {
    assert_eq!(nth_prime(10), Some(29));
    assert_eq!(nth_prime(1), Some(2));
}

#[test]
fn bin_search_finds_first_greater() {
    let array = [1, 2, 3, 4, 5, 6, 7, 8, 9, 10];
    assert_eq!(bin_search(&array, &5, 0, 10), 5);
    assert_eq!(bin_search(&array, &10, 0, 10), 10);
    assert_eq!(bin_search(&array, &0, 0, 10), 1);
}
