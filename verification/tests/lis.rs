use manber::lis::longest_increasing_subsequence;

#[test]
fn lis_test_empty_array() {
    let arr = [];
    let expected = 0;
    assert_eq!(longest_increasing_subsequence(&arr), expected);
}

#[test]
fn test_single_element() {
    let arr = [5];
    let expected = 1;
    assert_eq!(longest_increasing_subsequence(&arr), expected);
}

#[test]
fn test_all_increasing() {
    let arr = [1, 2, 3, 4, 5];
    let expected = 5;
    assert_eq!(longest_increasing_subsequence(&arr), expected);
}

#[test]
fn test_all_decreasing() {
    let arr = [5, 4, 3, 2, 1];
    let expected = 1;
    assert_eq!(longest_increasing_subsequence(&arr), expected);
}

#[test]
fn test_all_equal() {
    let arr = [3, 3, 3, 3];
    let expected = 1;
    assert_eq!(longest_increasing_subsequence(&arr), expected);
}

#[test]
fn test_mixed_sequence() {
    let arr = [10, 9, 2, 5, 3, 7, 101, 18];
    let expected = 4; // [2, 3, 7, 18] or [2, 5, 7, 18] or [2, 3, 7, 101]
    assert_eq!(longest_increasing_subsequence(&arr), expected);
}

#[test]
fn test_duplicates_with_increasing() {
    let arr = [1, 3, 6, 7, 9, 4, 10, 5, 6];
    let expected = 6; // [1, 3, 4, 5, 6, 10] or [1, 3, 6, 7, 9, 10]
    assert_eq!(longest_increasing_subsequence(&arr), expected);
}

#[test]
fn test_two_element_increasing() {
    let arr = [1, 2];
    let expected = 2;
    assert_eq!(longest_increasing_subsequence(&arr), expected);
}

#[test]
fn test_two_element_decreasing() {
    let arr = [2, 1];
    let expected = 1;
    assert_eq!(longest_increasing_subsequence(&arr), expected);
}

#[test]
fn lis_test_alternating_pattern() {
    let arr = [1, 4, 2, 3, 5, 1, 6];
    let expected = 5; // [1, 2, 3, 5, 6]
    assert_eq!(longest_increasing_subsequence(&arr), expected);
}

#[test]
fn test_negative_numbers() {
    let arr = [-10, -3, 0, 5, -1, 2, 8];
    let expected = 5; // [-10, -3, 0, 2, 8]
    assert_eq!(longest_increasing_subsequence(&arr), expected);
}

#[test]
fn test_classic_example() {
    let arr = [0, 1, 0, 3, 2, 3];
    let expected = 4; // [0, 1, 2, 3]
    assert_eq!(longest_increasing_subsequence(&arr), expected);
}

#[test]
fn test_large_numbers() {
    let arr = [10, 22, 9, 33, 21, 50, 41, 60];
    let expected = 5; // [10, 22, 33, 50, 60]
    assert_eq!(longest_increasing_subsequence(&arr), expected);
}
