//! The mathematical model of increasing subsequences.
//!
//! A subsequence of `s` is named by the positions it keeps, an ascending
//! sequence of indices into `s`. Everything the engines promise is stated
//! over this model.

use vstd::prelude::*;

verus! {

/// `idx` names an increasing subsequence of `s`: every entry is a position
/// of `s`, the positions ascend, and so do the values found there, both
/// strictly.
pub open spec fn is_increasing_subsequence(s: Seq<i32>, idx: Seq<int>) -> bool {
    &&& forall|k: int| 0 <= k < idx.len() ==> 0 <= #[trigger] idx[k] < s.len()
    &&& forall|a: int, b: int|
        #![trigger idx[a], idx[b]]
        0 <= a < b < idx.len() ==> idx[a] < idx[b] && s[idx[a]] < s[idx[b]]
}

/// The values of `t` ascend strictly.
pub open spec fn strictly_increasing(t: Seq<i32>) -> bool {
    forall|a: int, b: int| 0 <= a < b < t.len() ==> t[a] < t[b]
}

/// The values of `t` descend strictly.
pub open spec fn strictly_decreasing(t: Seq<i32>) -> bool {
    forall|a: int, b: int| 0 <= a < b < t.len() ==> t[a] > t[b]
}

/// All values of `t` are the same.
pub open spec fn all_equal(t: Seq<i32>) -> bool {
    forall|a: int, b: int| 0 <= a < t.len() && 0 <= b < t.len() ==> t[a] == t[b]
}

/// The values of `s` at the positions `idx`, in that order.
pub open spec fn select(s: Seq<i32>, idx: Seq<int>) -> Seq<i32> {
    Seq::new(idx.len(), |k: int| s[idx[k]])
}

/// `idx` names a non-empty increasing subsequence of `s` whose last
/// position is `k`.
pub open spec fn ends_at(s: Seq<i32>, idx: Seq<int>, k: int) -> bool {
    &&& is_increasing_subsequence(s, idx)
    &&& idx.len() > 0
    &&& idx.last() == k
}

/// `n` is the length of a longest increasing subsequence of `s`: some
/// increasing subsequence has `n` elements and none has more.
pub open spec fn is_lis_length(s: Seq<i32>, n: nat) -> bool {
    &&& exists|idx: Seq<int>| is_increasing_subsequence(s, idx) && #[trigger] idx.len() == n
    &&& forall|idx: Seq<int>| is_increasing_subsequence(s, idx) ==> #[trigger] idx.len() <= n
}

/// The length of a longest increasing subsequence of `s`.
pub open spec fn lis_len(s: Seq<i32>) -> nat {
    choose|n: nat| is_lis_length(s, n)
}

/// `out` is a longest increasing subsequence of `s`: it is the selection
/// of `s` at the positions of some increasing subsequence, and no
/// increasing subsequence of `s` is longer.
pub open spec fn is_longest_increasing_subsequence(s: Seq<i32>, out: Seq<i32>) -> bool {
    &&& is_lis_length(s, out.len())
    &&& exists|idx: Seq<int>| is_increasing_subsequence(s, idx) && out == #[trigger] select(s, idx)
}

/// At most one number is the length of a longest increasing subsequence,
/// so whoever exhibits one has found `lis_len`.
pub proof fn lemma_lis_len_unique(s: Seq<i32>, n: nat)
    requires
        is_lis_length(s, n),
    ensures
        lis_len(s) == n,
{
    let m = lis_len(s);
    assert(is_lis_length(s, m));
    let a = choose|idx: Seq<int>| is_increasing_subsequence(s, idx) && #[trigger] idx.len() == n;
    let b = choose|idx: Seq<int>| is_increasing_subsequence(s, idx) && #[trigger] idx.len() == m;
    assert(a.len() <= m);
    assert(b.len() <= n);
}

/// The positions of an increasing subsequence ascend from zero, so the
/// entry at place `k` is at least `k`.
pub proof fn lemma_position_at_least_rank(s: Seq<i32>, idx: Seq<int>, k: int)
    requires
        is_increasing_subsequence(s, idx),
        0 <= k < idx.len(),
    ensures
        idx[k] >= k,
    decreases k,
{
    if k > 0 {
        lemma_position_at_least_rank(s, idx, k - 1);
        assert(idx[k - 1] < idx[k]);
    }
}

/// No increasing subsequence is longer than the sequence it is taken from.
pub proof fn lemma_length_bounded(s: Seq<i32>, idx: Seq<int>)
    requires
        is_increasing_subsequence(s, idx),
    ensures
        idx.len() <= s.len(),
{
    if idx.len() > 0 {
        lemma_position_at_least_rank(s, idx, idx.len() - 1);
        assert(idx[idx.len() - 1] < s.len());
    }
}

/// Dropping the last position of an increasing subsequence of two or more
/// elements leaves one that ends at the position before it.
pub proof fn lemma_drop_last(s: Seq<i32>, idx: Seq<int>)
    requires
        is_increasing_subsequence(s, idx),
        idx.len() >= 2,
    ensures
        ends_at(s, idx.drop_last(), idx[idx.len() - 2]),
        idx[idx.len() - 2] < idx.last(),
        s[idx[idx.len() - 2]] < s[idx.last()],
{
    let d = idx.drop_last();
    assert forall|k: int| 0 <= k < d.len() implies 0 <= #[trigger] d[k] < s.len() by {
        assert(d[k] == idx[k]);
    }
    assert forall|a: int, b: int|
        #![trigger d[a], d[b]]
        0 <= a < b < d.len() implies d[a] < d[b] && s[d[a]] < s[d[b]] by {
        assert(d[a] == idx[a] && d[b] == idx[b]);
    }
    assert(idx[idx.len() - 2] < idx[idx.len() - 1]);
}

/// An increasing subsequence that ends at `j` can be continued by any later
/// position `i` that holds a greater value.
pub proof fn lemma_extend(s: Seq<i32>, idx: Seq<int>, j: int, i: int)
    requires
        ends_at(s, idx, j),
        j < i < s.len(),
        s[j] < s[i],
    ensures
        ends_at(s, idx.push(i), i),
{
    let e = idx.push(i);
    assert forall|a: int, b: int|
        #![trigger e[a], e[b]]
        0 <= a < b < e.len() implies e[a] < e[b] && s[e[a]] < s[e[b]] by {
        assert(e[a] == idx[a]);
        if b < idx.len() {
            assert(e[b] == idx[b]);
        } else {
            if a < idx.len() - 1 {
                assert(idx[a] < idx[idx.len() - 1]);
            }
        }
    }
    assert forall|k: int| 0 <= k < e.len() implies 0 <= #[trigger] e[k] < s.len() by {
        if k < idx.len() {
            assert(e[k] == idx[k]);
        }
    }
}

/// A single position is an increasing subsequence by itself.
pub proof fn lemma_single(s: Seq<i32>, i: int)
    requires
        0 <= i < s.len(),
    ensures
        ends_at(s, seq![i], i),
{
}

/// Two engines that both return the length of a longest increasing
/// subsequence of one sequence return the same number.
pub proof fn lemma_engines_agree(s: Seq<i32>, quadratic: nat, log_linear: nat)
    requires
        is_lis_length(s, quadratic),
        is_lis_length(s, log_linear),
    ensures
        quadratic == log_linear,
{
    lemma_lis_len_unique(s, quadratic);
    lemma_lis_len_unique(s, log_linear);
}

/// The values selected by an increasing subsequence ascend strictly, and
/// there are as many of them as positions.
pub proof fn lemma_selection_ascends(s: Seq<i32>, idx: Seq<int>)
    requires
        is_increasing_subsequence(s, idx),
    ensures
        strictly_increasing(select(s, idx)),
        select(s, idx).len() == idx.len(),
{
    let out = select(s, idx);
    assert forall|a: int, b: int| 0 <= a < b < out.len() implies out[a] < out[b] by {
        assert(idx[a] < idx[b] && s[idx[a]] < s[idx[b]]);
    }
}

/// The longest increasing subsequence of the empty sequence has length 0.
pub proof fn lemma_lis_len_empty(s: Seq<i32>)
    requires
        s.len() == 0,
    ensures
        lis_len(s) == 0,
{
    let e = Seq::<int>::empty();
    assert(is_increasing_subsequence(s, e) && e.len() == 0);
    assert forall|idx: Seq<int>| is_increasing_subsequence(s, idx) implies #[trigger] idx.len()
        <= 0 by {
        lemma_length_bounded(s, idx);
    }
    lemma_lis_len_unique(s, 0);
}

/// A sequence that never ascends, and is not empty, has a longest
/// increasing subsequence of one element.
pub proof fn lemma_lis_len_never_ascending(s: Seq<i32>)
    requires
        s.len() > 0,
        forall|a: int, b: int| 0 <= a < b < s.len() ==> s[a] >= s[b],
    ensures
        lis_len(s) == 1,
{
    lemma_single(s, 0);
    assert(is_increasing_subsequence(s, seq![0int]) && seq![0int].len() == 1);
    assert forall|idx: Seq<int>| is_increasing_subsequence(s, idx) implies #[trigger] idx.len()
        <= 1 by {
        if idx.len() >= 2 {
            assert(idx[0] < idx[1] && s[idx[0]] < s[idx[1]]);
            assert(0 <= idx[0] && idx[1] < s.len());
        }
    }
    lemma_lis_len_unique(s, 1);
}

/// The longest increasing subsequence of a one-element sequence has
/// length 1, whatever the element.
pub proof fn lemma_lis_len_single(s: Seq<i32>)
    requires
        s.len() == 1,
    ensures
        lis_len(s) == 1,
{
    lemma_lis_len_never_ascending(s);
}

/// In a strictly decreasing sequence that is not empty, no two elements
/// can follow each other: the longest increasing subsequence has length 1.
pub proof fn lemma_lis_len_strictly_decreasing(s: Seq<i32>)
    requires
        s.len() > 0,
        strictly_decreasing(s),
    ensures
        lis_len(s) == 1,
{
    lemma_lis_len_never_ascending(s);
}

/// Equal values never extend a subsequence: where all elements are the
/// same and there is at least one, the longest increasing subsequence has
/// length 1.
pub proof fn lemma_lis_len_all_equal(s: Seq<i32>)
    requires
        s.len() > 0,
        all_equal(s),
    ensures
        lis_len(s) == 1,
{
    lemma_lis_len_never_ascending(s);
}

/// A strictly increasing sequence is its own longest increasing
/// subsequence.
pub proof fn lemma_lis_len_strictly_increasing(s: Seq<i32>)
    requires
        strictly_increasing(s),
    ensures
        lis_len(s) == s.len(),
{
    let all = Seq::new(s.len(), |k: int| k);
    assert(is_increasing_subsequence(s, all) && all.len() == s.len());
    assert forall|idx: Seq<int>| is_increasing_subsequence(s, idx) implies #[trigger] idx.len()
        <= s.len() by {
        lemma_length_bounded(s, idx);
    }
    lemma_lis_len_unique(s, s.len());
}

} // verus!
