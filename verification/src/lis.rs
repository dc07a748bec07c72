//! The quadratic engine: one table entry per position, filled left to right.

use vstd::prelude::*;
use crate::increasing::{
    ends_at, is_increasing_subsequence, is_lis_length, lemma_drop_last, lemma_extend,
    lemma_length_bounded, lemma_lis_len_unique, lemma_position_at_least_rank, lemma_single,
    lis_len,
};

verus! {

/// `m` is the length of a longest increasing subsequence of `s` that ends
/// exactly at position `k`.
pub open spec fn is_lis_length_ending_at(s: Seq<i32>, k: int, m: nat) -> bool {
    &&& exists|idx: Seq<int>| ends_at(s, idx, k) && #[trigger] idx.len() == m
    &&& forall|idx: Seq<int>| ends_at(s, idx, k) ==> #[trigger] idx.len() <= m
}

/// The length of the longest strictly increasing subsequence of `arr`,
/// found by filling a table whose entry `i` is the length of the longest
/// increasing subsequence that ends exactly at position `i`.
///
/// Quadratic in the length of `arr`. The empty slice gives 0.
pub fn longest_increasing_subsequence(arr: &[i32]) -> (r: usize)
    ensures
        is_lis_length(arr@, r as nat),
        r as nat == lis_len(arr@),
        r <= arr.len(),
        (r == 0) == (arr.len() == 0),
{
    let n: usize = arr.len();
    if n == 0 {
        proof {
            let e = Seq::<int>::empty();
            assert(is_increasing_subsequence(arr@, e) && e.len() == 0);
            assert forall|idx: Seq<int>| is_increasing_subsequence(arr@, idx) implies #[trigger] idx.len() <= 0 by {
                lemma_length_bounded(arr@, idx);
            }
            lemma_lis_len_unique(arr@, 0);
        }
        return 0;
    }
    let mut dp: Vec<usize> = vec![1; n];
    proof {
        let s = arr@;
        lemma_single(s, 0);
        assert(ends_at(s, seq![0int], 0) && seq![0int].len() == 1);
        assert forall|idx: Seq<int>| ends_at(s, idx, 0) implies #[trigger] idx.len() <= 1 by {
            lemma_position_at_least_rank(s, idx, idx.len() - 1);
        }
    }
    let mut i: usize = 1;
    while i < n
        invariant
            n == arr.len(),
            1 <= i <= n,
            dp.len() == n,
            forall|k: int| 0 <= k < i ==> 1 <= #[trigger] dp[k] <= k + 1,
            forall|k: int| i <= k < n ==> #[trigger] dp[k] == 1,
            forall|k: int| 0 <= k < i ==> is_lis_length_ending_at(arr@, k, #[trigger] dp[k] as nat),
        decreases n - i,
    {
        let mut prev_max: usize = 0;
        let ghost mut best: int = 0;
        let mut j: usize = 0;
        while j < i
            invariant
                n == arr.len(),
                i < n,
                j <= i,
                dp.len() == n,
                forall|k: int| 0 <= k < i ==> 1 <= #[trigger] dp[k] <= k + 1,
                prev_max <= i + 1,
                prev_max == 0 || (0 <= best < j && arr[best] < arr[i as int] && prev_max == dp[best]
                    + 1),
                forall|k: int|
                    0 <= k < j && arr[k] < arr[i as int] ==> #[trigger] dp[k] + 1 <= prev_max,
            decreases i - j,
        {
            if arr[j] < arr[i] {
                let extended: usize = dp[j] + 1;
                if extended > prev_max {
                    prev_max = extended;
                    proof {
                        best = j as int;
                    }
                }
            }
            j += 1;
        }
        let entry: usize = if prev_max > dp[i] {
            prev_max
        } else {
            dp[i]
        };
        proof {
            let s = arr@;
            let ii = i as int;
            if prev_max == 0 {
                lemma_single(s, ii);
                assert(ends_at(s, seq![ii], ii) && seq![ii].len() == 1);
            } else {
                let w = choose|idx: Seq<int>|
                    ends_at(s, idx, best) && #[trigger] idx.len() == dp[best] as nat;
                lemma_extend(s, w, best, ii);
                assert(ends_at(s, w.push(ii), ii) && w.push(ii).len() == entry as nat);
            }
            assert forall|idx: Seq<int>| ends_at(s, idx, ii) implies #[trigger] idx.len()
                <= entry as nat by {
                if idx.len() >= 2 {
                    lemma_drop_last(s, idx);
                    let k = idx[idx.len() - 2];
                    assert(0 <= k < ii);
                    assert(is_lis_length_ending_at(s, k, dp[k] as nat));
                    assert(idx.drop_last().len() <= dp[k] as nat);
                }
            }
        }
        dp.set(i, entry);
        i += 1;
    }
    let mut best_len: usize = dp[0];
    let ghost mut at: int = 0;
    let mut k: usize = 1;
    while k < n
        invariant
            n == arr.len(),
            dp.len() == n,
            1 <= k <= n,
            0 <= at < k,
            best_len == dp[at],
            forall|m: int| 0 <= m < k ==> #[trigger] dp[m] <= best_len,
        decreases n - k,
    {
        if dp[k] > best_len {
            best_len = dp[k];
            proof {
                at = k as int;
            }
        }
        k += 1;
    }
    proof {
        let s = arr@;
        assert(is_lis_length_ending_at(s, at, dp[at] as nat));
        let w = choose|idx: Seq<int>| ends_at(s, idx, at) && #[trigger] idx.len() == dp[at] as nat;
        assert(is_increasing_subsequence(s, w) && w.len() == best_len as nat);
        assert forall|idx: Seq<int>| is_increasing_subsequence(s, idx) implies #[trigger] idx.len() <= best_len as nat by {
            if idx.len() > 0 {
                let e = idx.last();
                assert(idx[idx.len() - 1] == e);
                assert(ends_at(s, idx, e));
                assert(is_lis_length_ending_at(s, e, dp[e] as nat));
            }
        }
        lemma_lis_len_unique(s, best_len as nat);
    }
    best_len
}

/// The quadratic engine under the name by which the log-linear engine is
/// held against it: the same table, the same result.
pub fn lis_length_naive(arr: &[i32]) -> (r: usize)
    ensures
        is_lis_length(arr@, r as nat),
        r as nat == lis_len(arr@),
        r <= arr.len(),
        (r == 0) == (arr.len() == 0),
{
    longest_increasing_subsequence(arr)
}

} // verus!
