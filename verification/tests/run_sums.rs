use manber::maximum_consecutive_subsequence::{
    max_consecutive_subsequence, max_consecutive_subsequence_naive,
};

fn next(state: &mut u64) -> u64 {
    *state = state
        .wrapping_mul(6364136223846793005)
        .wrapping_add(1442695040888963407);
    *state >> 33
}

#[test]
fn run_engines_agree_on_generated_sequences() {
    let mut state = 0xabcdef_u64;
    for _ in 0..300 {
        let len = (next(&mut state) % 40) as usize;
        let arr: Vec<i32> = (0..len)
            .map(|_| (next(&mut state) % 2001) as i32 - 1000)
            .collect();
        assert_eq!(
            max_consecutive_subsequence(&arr),
            max_consecutive_subsequence_naive(&arr),
            "on {:?}",
            arr
        );
    }
}

#[test]
fn run_sum_is_never_negative() {
    assert_eq!(max_consecutive_subsequence(&[-1]), 0);
    assert_eq!(max_consecutive_subsequence_naive(&[-1]), 0);
    assert_eq!(max_consecutive_subsequence(&[i32::MIN]), 0);
    assert_eq!(max_consecutive_subsequence_naive(&[i32::MIN]), 0);
}

#[test]
fn run_sum_of_zeros_is_zero() {
    assert_eq!(max_consecutive_subsequence(&[0, 0, 0]), 0);
    assert_eq!(max_consecutive_subsequence_naive(&[0, 0, 0]), 0);
}

#[test]
fn run_sum_reaches_the_greatest_value() {
    assert_eq!(max_consecutive_subsequence(&[i32::MAX]), i32::MAX);
    assert_eq!(max_consecutive_subsequence_naive(&[i32::MAX]), i32::MAX);
    assert_eq!(max_consecutive_subsequence(&[i32::MAX - 1, 1, -5]), i32::MAX);
    assert_eq!(
        max_consecutive_subsequence_naive(&[i32::MAX - 1, 1, -5]),
        i32::MAX
    );
}

#[test]
fn single_pass_takes_runs_whose_sum_lies_far_below_zero() {
    // The exhaustive engine would have to hold the sum of the first two.
    assert_eq!(max_consecutive_subsequence(&[i32::MIN, i32::MIN, 7]), 7);
}

#[test]
fn run_sum_whole_input_is_the_best_run() {
    assert_eq!(max_consecutive_subsequence(&[2, -1, 2, -1, 2]), 4);
    assert_eq!(max_consecutive_subsequence_naive(&[2, -1, 2, -1, 2]), 4);
}
