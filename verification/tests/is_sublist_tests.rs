use phone_encoding::is_sublist::{compare, Comparison};

#[test]
fn test_equal_lists() {
    let a = [1, 2, 3, 4, 1];
    assert_eq!(compare(&a, &a), Comparison::Equal);

    let a: [i32; 0] = [];
    assert_eq!(compare(&a, &a), Comparison::Equal);
}

#[test]
fn test_equal_sets_but_not_lists() {
    let a = [1, 2, 3];
    let b = [3, 2, 1];

    assert_eq!(compare(&a, &b), Comparison::Other);
}

#[test]
fn test_non_equal() {
    let a = [1, 2, 3];
    let b = [3, 2, 1, 4, 5];

    assert_eq!(compare(&a, &b), Comparison::Other);
}

#[test]
fn test_sublist_and_superlist() {
    let a = [1, 2, 3];
    let b = [1, 2, 3, 4, 5];
    assert_eq!(compare(&a, &b), Comparison::Sublist);
    assert_eq!(compare(&b, &a), Comparison::Superlist);

    let a = [3, 4, 5];
    let b = [1, 2, 3, 4, 5];
    assert_eq!(compare(&a, &b), Comparison::Sublist);
    assert_eq!(compare(&b, &a), Comparison::Superlist);

    let a = [3, 4];
    let b = [1, 2, 3, 4, 5];
    assert_eq!(compare(&a, &b), Comparison::Sublist);
    assert_eq!(compare(&b, &a), Comparison::Superlist);

    let a = [];
    let b = [1, 2, 3, 4, 5];
    assert_eq!(compare(&a, &b), Comparison::Sublist);
    assert_eq!(compare(&b, &a), Comparison::Superlist);
}

#[test]
fn test_sublist_in_middle() {
    let a = [2, 3];
    let b = [1, 2, 3, 4];
    assert_eq!(compare(&a, &b), Comparison::Sublist);
    assert_eq!(compare(&b, &a), Comparison::Superlist);
}
