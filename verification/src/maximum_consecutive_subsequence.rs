//! The greatest sum of a run of consecutive elements.
//!
//! The empty run counts, with sum 0, so the answer is never negative. Two
//! engines compute it: one tries every run, the other reads the input once
//! and keeps the best run that ends at the current element.

use vstd::prelude::*;

verus! {

/// The sum of the elements of `s` from position `from` up to, but not
/// including, position `to`.
pub open spec fn run_sum(s: Seq<i32>, from: int, to: int) -> int
    decreases to - from,
{
    if to <= from {
        0
    } else {
        run_sum(s, from, to - 1) + s[to - 1]
    }
}

/// Every run of consecutive elements of `s` has a sum that an `i32` holds.
pub open spec fn run_sums_fit(s: Seq<i32>) -> bool {
    forall|from: int, to: int|
        0 <= from <= to <= s.len() ==> i32::MIN <= #[trigger] run_sum(s, from, to) <= i32::MAX
}

/// No run of consecutive elements of `s` has a sum above what an `i32`
/// holds.
pub open spec fn run_sums_fit_above(s: Seq<i32>) -> bool {
    forall|from: int, to: int|
        0 <= from <= to <= s.len() ==> #[trigger] run_sum(s, from, to) <= i32::MAX
}

/// `m` is the greatest sum of a run of consecutive elements of `s`: some
/// run, possibly empty, sums to `m`, and none sums to more.
pub open spec fn is_max_run_sum(s: Seq<i32>, m: int) -> bool {
    &&& exists|from: int, to: int| 0 <= from <= to <= s.len() && #[trigger] run_sum(s, from, to) == m
    &&& forall|from: int, to: int| 0 <= from <= to <= s.len() ==> #[trigger] run_sum(s, from, to) <= m
}

/// The greatest sum of a run of consecutive elements of `s`.
pub open spec fn max_run_sum(s: Seq<i32>) -> int {
    choose|m: int| is_max_run_sum(s, m)
}

/// At most one number is the greatest run sum, so whoever exhibits one has
/// found `max_run_sum`.
pub proof fn lemma_max_run_sum_unique(s: Seq<i32>, m: int)
    requires
        is_max_run_sum(s, m),
    ensures
        max_run_sum(s) == m,
{
    let c = max_run_sum(s);
    assert(is_max_run_sum(s, c));
    let (a, b) = choose|from: int, to: int|
        0 <= from <= to <= s.len() && #[trigger] run_sum(s, from, to) == m;
    let (a2, b2) = choose|from: int, to: int|
        0 <= from <= to <= s.len() && #[trigger] run_sum(s, from, to) == c;
    assert(run_sum(s, a, b) <= c);
    assert(run_sum(s, a2, b2) <= m);
}

/// The exhaustive engine and the single-pass engine return the same
/// number on every input.
pub proof fn lemma_run_engines_agree(s: Seq<i32>, exhaustive: int, single_pass: int)
    requires
        is_max_run_sum(s, exhaustive),
        is_max_run_sum(s, single_pass),
    ensures
        exhaustive == single_pass,
{
    lemma_max_run_sum_unique(s, exhaustive);
    lemma_max_run_sum_unique(s, single_pass);
}

/// The greatest run sum is never negative: the empty run sums to 0.
pub proof fn lemma_max_run_sum_not_negative(s: Seq<i32>, m: int)
    requires
        is_max_run_sum(s, m),
    ensures
        m >= 0,
{
    assert(run_sum(s, 0, 0) == 0);
}

/// A run of elements that all lie within `bound` of zero sums to a number
/// within the length of the run times `bound` of zero.
pub proof fn lemma_run_sum_bounded(s: Seq<i32>, from: int, to: int, bound: nat)
    requires
        0 <= from <= to <= s.len(),
        forall|k: int| 0 <= k < s.len() ==> -bound <= #[trigger] s[k] <= bound,
    ensures
        -((to - from) * bound) <= run_sum(s, from, to) <= (to - from) * bound,
    decreases to - from,
{
    if from < to {
        lemma_run_sum_bounded(s, from, to - 1, bound);
        assert((to - from) * bound == (to - 1 - from) * bound + bound) by (nonlinear_arith);
    } else {
        assert((to - from) * bound == 0) by (nonlinear_arith)
            requires
                to - from == 0,
        ;
    }
}

/// Where all elements lie within `bound` of zero and the length of `s`
/// times `bound` is within what an `i32` holds, every run sum fits.
pub proof fn lemma_small_elements_fit(s: Seq<i32>, bound: nat)
    requires
        forall|k: int| 0 <= k < s.len() ==> -bound <= #[trigger] s[k] <= bound,
        s.len() * bound <= i32::MAX,
    ensures
        run_sums_fit(s),
        run_sums_fit_above(s),
{
    assert forall|from: int, to: int| 0 <= from <= to <= s.len() implies i32::MIN
        <= #[trigger] run_sum(s, from, to) <= i32::MAX by {
        lemma_run_sum_bounded(s, from, to, bound);
        assert((to - from) * bound <= s.len() * bound) by (nonlinear_arith)
            requires
                0 <= to - from <= s.len(),
        ;
    }
}

/// The greatest sum of a run of consecutive elements of `arr`, found by
/// summing every run. Quadratic in the length of `arr`.
pub fn max_consecutive_subsequence_naive(arr: &[i32]) -> (r: i32)
    requires
        run_sums_fit(arr@),
    ensures
        is_max_run_sum(arr@, r as int),
        r as int == max_run_sum(arr@),
        r >= 0,
{
    let n: usize = arr.len();
    let mut global_max: i32 = 0;
    let ghost mut at: (int, int) = (0, 0);
    let mut i: usize = 0;
    assert(run_sum(arr@, 0, 0) == 0);
    while i < n
        invariant
            n == arr.len(),
            i <= n,
            run_sums_fit(arr@),
            0 <= at.0 <= at.1 <= n,
            run_sum(arr@, at.0, at.1) == global_max,
            global_max >= 0,
            forall|from: int, to: int|
                0 <= from < i && from <= to <= n ==> #[trigger] run_sum(arr@, from, to) <= global_max,
        decreases n - i,
    {
        let mut partial_sum: i32 = 0;
        let mut j: usize = i;
        assert(run_sum(arr@, i as int, i as int) == 0);
        while j < n
            invariant
                n == arr.len(),
                i <= j <= n,
                run_sums_fit(arr@),
                partial_sum == run_sum(arr@, i as int, j as int),
                0 <= at.0 <= at.1 <= n,
                run_sum(arr@, at.0, at.1) == global_max,
                global_max >= 0,
                forall|from: int, to: int|
                    0 <= from < i && from <= to <= n ==> #[trigger] run_sum(arr@, from, to)
                        <= global_max,
                forall|to: int| i <= to <= j ==> #[trigger] run_sum(arr@, i as int, to) <= global_max,
            decreases n - j,
        {
            assert(run_sum(arr@, i as int, j + 1) == partial_sum + arr[j as int]);
            partial_sum = partial_sum + arr[j];
            if partial_sum > global_max {
                global_max = partial_sum;
                proof {
                    at = (i as int, j + 1);
                }
            }
            j += 1;
        }
        i += 1;
    }
    proof {
        assert forall|from: int, to: int| 0 <= from <= to <= n implies #[trigger] run_sum(
            arr@,
            from,
            to,
        ) <= global_max by {
            if from == n {
                assert(run_sum(arr@, from, to) == 0);
            }
        }
        lemma_max_run_sum_unique(arr@, global_max as int);
    }
    global_max
}

/// The greatest sum of a run of consecutive elements of `arr`, found in
/// one pass that keeps, beside the best sum so far, the best sum of a run
/// that ends at the element just read.
pub fn max_consecutive_subsequence(arr: &[i32]) -> (r: i32)
    requires
        run_sums_fit_above(arr@),
    ensures
        is_max_run_sum(arr@, r as int),
        r as int == max_run_sum(arr@),
        r >= 0,
{
    let n: usize = arr.len();
    let mut global_max: i32 = 0;
    let mut suffix_max: i32 = 0;
    let ghost mut at: (int, int) = (0, 0);
    let ghost mut start: int = 0;
    let mut i: usize = 0;
    assert(run_sum(arr@, 0, 0) == 0);
    while i < n
        invariant
            n == arr.len(),
            i <= n,
            run_sums_fit_above(arr@),
            0 <= at.0 <= at.1 <= i,
            run_sum(arr@, at.0, at.1) == global_max,
            0 <= start <= i,
            run_sum(arr@, start, i as int) == suffix_max,
            0 <= suffix_max <= global_max,
            forall|from: int| 0 <= from <= i ==> #[trigger] run_sum(arr@, from, i as int) <= suffix_max,
            forall|from: int, to: int|
                0 <= from <= to <= i ==> #[trigger] run_sum(arr@, from, to) <= global_max,
        decreases n - i,
    {
        let x: i32 = arr[i];
        proof {
            assert(run_sum(arr@, start, i + 1) == suffix_max + x);
            assert forall|from: int| 0 <= from <= i implies #[trigger] run_sum(arr@, from, i + 1)
                <= suffix_max + x by {
                assert(run_sum(arr@, from, i + 1) == run_sum(arr@, from, i as int) + x);
            }
            assert(run_sum(arr@, i + 1, i + 1) == 0);
        }
        if suffix_max + x > global_max {
            global_max = suffix_max + x;
            suffix_max = suffix_max + x;
            proof {
                at = (start, i + 1);
            }
        } else if suffix_max + x > 0 {
            suffix_max = suffix_max + x;
        } else {
            suffix_max = 0;
            proof {
                start = i + 1;
            }
        }
        i += 1;
    }
    proof {
        lemma_max_run_sum_unique(arr@, global_max as int);
    }
    global_max
}

} // verus!
