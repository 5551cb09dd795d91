use exercises::sublist::{compare, Comparison};

#[test]
fn test() {
    assert_eq!(compare(&[1, 2, 3], &[1, 2, 3]), Comparison::Equal);
    assert_eq!(compare(&[], &[1, 2, 3]), Comparison::Sublist);
    assert_eq!(compare(&[1, 2, 3], &[]), Comparison::Superlist);
    assert_eq!(compare(&[1, 2], &[1, 2, 3]), Comparison::Sublist);
    assert_eq!(compare(&[1, 2, 3], &[1, 2]), Comparison::Superlist);
    assert_eq!(compare(&[1, 2, 3, 4, 5], &[2, 3, 4]), Comparison::Superlist);
    assert_eq!(compare(&[1, 2, 3, 4, 5], &[3, 4, 5]), Comparison::Superlist);
    assert_eq!(compare(&[1, 2, 3, 4, 5], &[2, 4, 5]), Comparison::Other);
    assert_eq!(compare(&[2, 3], &[1, 2, 3, 4, 5]), Comparison::Sublist);
}

#[test]
fn empty_lists_are_equal() {
    let empty: [u8; 0] = [];
    assert_eq!(compare(&empty, &empty), Comparison::Equal);
}

#[test]
fn same_length_different_is_other() {
    assert_eq!(compare(&[1, 2, 3], &[1, 2, 4]), Comparison::Other);
    assert_eq!(compare(&['a', 'b'], &['b', 'a']), Comparison::Other);
}

#[test]
fn repeated_prefix_is_found() {
    assert_eq!(compare(&[1, 1, 2], &[1, 1, 1, 2]), Comparison::Sublist);
}
