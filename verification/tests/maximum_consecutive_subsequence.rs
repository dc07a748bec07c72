use manber::maximum_consecutive_subsequence::{
    max_consecutive_subsequence, max_consecutive_subsequence_naive,
};

#[test]
fn maximum_consecutive_subsequence_test_empty_array() {
    let arr = [];
    let expected = 0;
    assert_eq!(max_consecutive_subsequence(&arr), expected);
    assert_eq!(max_consecutive_subsequence_naive(&arr), expected);
}

#[test]
fn test_single_positive_element() {
    let arr = [5];
    let expected = 5;
    assert_eq!(max_consecutive_subsequence(&arr), expected);
    assert_eq!(max_consecutive_subsequence_naive(&arr), expected);
}

#[test]
fn test_single_negative_element() {
    let arr = [-3];
    let expected = 0; // empty subsequence
    assert_eq!(max_consecutive_subsequence(&arr), expected);
    assert_eq!(max_consecutive_subsequence_naive(&arr), expected);
}

#[test]
fn test_all_positive_elements() {
    let arr = [1, 2, 3, 4, 5];
    let expected = 15;
    assert_eq!(max_consecutive_subsequence(&arr), expected);
    assert_eq!(max_consecutive_subsequence_naive(&arr), expected);
}

#[test]
fn test_all_negative_elements() {
    let arr = [-5, -2, -8, -1];
    let expected = 0; // empty subsequence
    assert_eq!(max_consecutive_subsequence(&arr), expected);
    assert_eq!(max_consecutive_subsequence_naive(&arr), expected);
}

#[test]
fn test_mixed_positive_negative() {
    let arr = [-2, 1, -3, 4, -1, 2, 1, -5, 4];
    let expected = 6; // [4, -1, 2, 1]
    assert_eq!(max_consecutive_subsequence(&arr), expected);
    assert_eq!(max_consecutive_subsequence_naive(&arr), expected);
}

#[test]
fn test_negative_followed_by_positive() {
    let arr = [-1, -2, 3, 4];
    let expected = 7; // [3, 4]
    assert_eq!(max_consecutive_subsequence(&arr), expected);
    assert_eq!(max_consecutive_subsequence_naive(&arr), expected);
}

#[test]
fn test_positive_followed_by_negative() {
    let arr = [3, 4, -1, -2];
    let expected = 7; // [3, 4]
    assert_eq!(max_consecutive_subsequence(&arr), expected);
    assert_eq!(max_consecutive_subsequence_naive(&arr), expected);
}

#[test]
fn maximum_consecutive_subsequence_test_alternating_pattern() {
    let arr = [1, -3, 2, 1, -1];
    let expected = 3; // [2, 1]
    assert_eq!(max_consecutive_subsequence(&arr), expected);
    assert_eq!(max_consecutive_subsequence_naive(&arr), expected);
}

#[test]
fn test_zero_included() {
    let arr = [-1, 0, 2, -1, 3];
    let expected = 4; // [0, 2, -1, 3]
    assert_eq!(max_consecutive_subsequence(&arr), expected);
    assert_eq!(max_consecutive_subsequence_naive(&arr), expected);
}

#[test]
fn test_large_negative_gap() {
    let arr = [5, -10, 3, 4];
    let expected = 7; // [3, 4]
    assert_eq!(max_consecutive_subsequence(&arr), expected);
    assert_eq!(max_consecutive_subsequence_naive(&arr), expected);
}

#[test]
fn test_kadane_classic_example() {
    let arr = [-2, -3, 4, -1, -2, 1, 5, -3];
    let expected = 7; // [4, -1, -2, 1, 5]
    assert_eq!(max_consecutive_subsequence(&arr), expected);
    assert_eq!(max_consecutive_subsequence_naive(&arr), expected);
}
