//! The log-linear engine: patience sorting over an array of tails.
//!
//! While the input is read left to right, `tails[l]` is the smallest value
//! on which an increasing subsequence of `l + 1` elements can end. The array
//! ascends strictly, so the place of each new element is found by binary
//! search. Recording which input position holds each tail, and which
//! position came before it, lets one longest subsequence be read back.

use vstd::prelude::*;
use crate::increasing::{
    ends_at, is_increasing_subsequence, is_lis_length, is_longest_increasing_subsequence,
    lemma_drop_last, lemma_extend, lemma_length_bounded, lemma_lis_len_unique,
    lemma_selection_ascends, lemma_single, lis_len, select, strictly_increasing,
};

verus! {

/// The values of `t` never descend.
pub open spec fn is_sorted(t: Seq<i32>) -> bool {
    forall|a: int, b: int| 0 <= a < b < t.len() ==> t[a] <= t[b]
}

/// `p` is the leftmost place of `t` whose value is not less than `x`, or
/// the length of `t` where every value is less.
pub open spec fn is_lower_bound(t: Seq<i32>, x: i32, p: int) -> bool {
    &&& 0 <= p <= t.len()
    &&& forall|k: int| 0 <= k < p ==> t[k] < x
    &&& forall|k: int| p <= k < t.len() ==> t[k] >= x
}

/// `t` with `x` put at place `p`: appended where `p` is the length of `t`,
/// written over the old entry otherwise.
pub open spec fn placed<T>(t: Seq<T>, p: int, x: T) -> Seq<T> {
    if p == t.len() {
        t.push(x)
    } else {
        t.update(p, x)
    }
}

/// The positions that lead to input position `i` when it takes tail place
/// `p`: the chain of the element that held place `p - 1`, then `i`.
pub open spec fn chain_through(tail_index: Seq<int>, chains: Seq<Seq<int>>, p: int, i: int) -> Seq<
    int,
> {
    if p == 0 {
        seq![i]
    } else {
        chains[tail_index[p - 1]].push(i)
    }
}

/// What holds after the first `i` elements of `s` have been placed.
///
/// `tail_index[l]` is the input position whose value is `tails[l]`, and
/// `chains[k]` is the increasing subsequence that the predecessor links
/// spell out for input position `k`. The last clause is what makes the
/// length of `tails` the answer: an increasing subsequence of `m` elements
/// taken from the first `i` never ends below `tails[m - 1]`.
pub open spec fn patience_inv(
    s: Seq<i32>,
    i: int,
    tails: Seq<i32>,
    tail_index: Seq<int>,
    chains: Seq<Seq<int>>,
) -> bool {
    &&& 0 <= i <= s.len()
    &&& tail_index.len() == tails.len()
    &&& chains.len() == i
    &&& strictly_increasing(tails)
    &&& forall|l: int|
        0 <= l < tails.len() ==> {
            &&& 0 <= #[trigger] tail_index[l] < i
            &&& s[tail_index[l]] == tails[l]
            &&& chains[tail_index[l]].len() == l + 1
        }
    &&& forall|k: int| 0 <= k < i ==> ends_at(s, #[trigger] chains[k], k)
    &&& forall|idx: Seq<int>|
        #[trigger] is_increasing_subsequence(s, idx) && idx.len() > 0 && idx.last() < i ==> idx.len()
            <= tails.len() && tails[idx.len() - 1] <= s[idx.last()]
}

/// Placing element `i` at its lower bound keeps the invariant.
pub proof fn lemma_patience_step(
    s: Seq<i32>,
    i: int,
    tails: Seq<i32>,
    tail_index: Seq<int>,
    chains: Seq<Seq<int>>,
    p: int,
)
    requires
        patience_inv(s, i, tails, tail_index, chains),
        i < s.len(),
        is_lower_bound(tails, s[i], p),
    ensures
        patience_inv(
            s,
            i + 1,
            placed(tails, p, s[i]),
            placed(tail_index, p, i),
            chains.push(chain_through(tail_index, chains, p, i)),
        ),
{
    let x = s[i];
    let tails2 = placed(tails, p, x);
    let index2 = placed(tail_index, p, i);
    let link = chain_through(tail_index, chains, p, i);
    let chains2 = chains.push(link);

    assert(tails2.len() == index2.len());
    assert(tails2.len() >= p + 1);
    assert(tails2[p] == x);
    assert(index2[p] == i);
    assert forall|l: int| 0 <= l < tails2.len() && l != p implies tails2[l] == tails[l] && index2[l]
        == tail_index[l] by {}

    assert(strictly_increasing(tails2)) by {
        assert forall|a: int, b: int| 0 <= a < b < tails2.len() implies tails2[a] < tails2[b] by {
            if a == p {
                assert(tails[p] < tails[b]);
            }
        }
    }

    if p == 0 {
        lemma_single(s, i);
    } else {
        let j = tail_index[p - 1];
        assert(ends_at(s, chains[j], j));
        assert(s[j] == tails[p - 1]);
        lemma_extend(s, chains[j], j, i);
    }
    assert(ends_at(s, link, i));
    assert(link.len() == p + 1);

    assert forall|k: int| 0 <= k < i + 1 implies ends_at(s, #[trigger] chains2[k], k) by {
        if k < i {
            assert(chains2[k] == chains[k]);
        }
    }

    assert forall|l: int| 0 <= l < tails2.len() implies {
        &&& 0 <= #[trigger] index2[l] < i + 1
        &&& s[index2[l]] == tails2[l]
        &&& chains2[index2[l]].len() == l + 1
    } by {
        if l != p {
            assert(index2[l] == tail_index[l]);
            assert(chains2[tail_index[l]] == chains[tail_index[l]]);
        }
    }

    assert forall|idx: Seq<int>|
        #[trigger] is_increasing_subsequence(s, idx) && idx.len() > 0 && idx.last() < i + 1 implies idx.len()
        <= tails2.len() && tails2[idx.len() - 1] <= s[idx.last()] by {
        let m = idx.len() as int;
        if idx.last() < i {
            assert(m <= tails.len() && tails[m - 1] <= s[idx.last()]);
            if m - 1 == p {
                assert(tails[p] >= x);
            }
        } else {
            assert(idx.last() == i);
            if m >= 2 {
                lemma_drop_last(s, idx);
                let d = idx.drop_last();
                assert(is_increasing_subsequence(s, d));
                assert(d.last() == idx[m - 2]);
                assert(d.len() <= tails.len() && tails[d.len() - 1] <= s[d.last()]);
                assert(tails[m - 2] < x);
                assert(m - 2 < p);
            }
            if m - 1 < p {
                assert(tails[m - 1] < x);
            }
        }
    }
}

/// Once the whole input has been placed, the number of tails is the length
/// of a longest increasing subsequence.
pub proof fn lemma_patience_done(
    s: Seq<i32>,
    tails: Seq<i32>,
    tail_index: Seq<int>,
    chains: Seq<Seq<int>>,
)
    requires
        patience_inv(s, s.len() as int, tails, tail_index, chains),
    ensures
        is_lis_length(s, tails.len()),
        lis_len(s) == tails.len(),
        tails.len() <= s.len(),
        (tails.len() == 0) == (s.len() == 0),
        tails.len() > 0 ==> ends_at(s, chains[tail_index.last()], tail_index.last())
            && chains[tail_index.last()].len() == tails.len(),
{
    let n = tails.len();
    if n == 0 {
        let e = Seq::<int>::empty();
        assert(is_increasing_subsequence(s, e) && e.len() == n);
        if s.len() > 0 {
            lemma_single(s, 0);
            assert(is_increasing_subsequence(s, seq![0int]));
            assert(seq![0int].last() < s.len());
        }
    } else {
        let k = tail_index[n - 1];
        assert(tail_index.last() == k);
        assert(ends_at(s, chains[k], k));
        assert(is_increasing_subsequence(s, chains[k]) && chains[k].len() == n);
        lemma_length_bounded(s, chains[k]);
    }
    assert forall|idx: Seq<int>| is_increasing_subsequence(s, idx) implies #[trigger] idx.len()
        <= n by {
        if idx.len() > 0 {
            assert(idx.last() == idx[idx.len() - 1]);
        }
    }
    lemma_lis_len_unique(s, n);
}

/// The leftmost place of `tails` whose value is not less than `x`, found
/// by binary search; the length of `tails` where every value is less.
///
/// Equal values count as "not less": that is what keeps equal elements from
/// extending a subsequence.
pub fn lower_bound(tails: &[i32], x: i32) -> (p: usize)
    requires
        is_sorted(tails@),
    ensures
        is_lower_bound(tails@, x, p as int),
{
    let mut lo: usize = 0;
    let mut hi: usize = tails.len();
    while lo < hi
        invariant
            is_sorted(tails@),
            lo <= hi <= tails.len(),
            forall|k: int| 0 <= k < lo ==> tails[k] < x,
            forall|k: int| hi <= k < tails.len() ==> tails[k] >= x,
        decreases hi - lo,
    {
        let mid: usize = lo + (hi - lo) / 2;
        if tails[mid] < x {
            lo = mid + 1;
        } else {
            hi = mid;
        }
    }
    lo
}

/// Puts `x` into `tails` at its lower bound and returns that place: `x` is
/// appended where it exceeds every tail, and replaces the first tail that
/// is not less than it otherwise. The tails ascend strictly afterwards as
/// they did before.
pub fn place_tail(tails: &mut Vec<i32>, x: i32) -> (p: usize)
    requires
        strictly_increasing(old(tails)@),
    ensures
        is_lower_bound(old(tails)@, x, p as int),
        final(tails)@ == placed(old(tails)@, p as int, x),
        strictly_increasing(final(tails)@),
{
    let p: usize = lower_bound(tails.as_slice(), x);
    if p == tails.len() {
        tails.push(x);
    } else {
        tails.set(p, x);
    }
    proof {
        let before = old(tails)@;
        let after = tails@;
        assert(after == placed(before, p as int, x));
        assert forall|a: int, b: int| 0 <= a < b < after.len() implies after[a] < after[b] by {
            if a == p {
                assert(before[p as int] < before[b]);
            }
        }
    }
    p
}

/// The length of the longest strictly increasing subsequence of `arr`, by
/// patience sorting: log-linear in the length of `arr`. The empty slice
/// gives 0.
pub fn lis_length(arr: &[i32]) -> (r: usize)
    ensures
        is_lis_length(arr@, r as nat),
        r as nat == lis_len(arr@),
        r <= arr.len(),
        (r == 0) == (arr.len() == 0),
{
    let n: usize = arr.len();
    let mut tails: Vec<i32> = Vec::new();
    let ghost mut tail_index: Seq<int> = Seq::empty();
    let ghost mut chains: Seq<Seq<int>> = Seq::empty();
    let mut i: usize = 0;
    while i < n
        invariant
            n == arr.len(),
            patience_inv(arr@, i as int, tails@, tail_index, chains),
        decreases n - i,
    {
        let ghost before = tails@;
        let p: usize = place_tail(&mut tails, arr[i]);
        proof {
            lemma_patience_step(arr@, i as int, before, tail_index, chains, p as int);
            chains = chains.push(chain_through(tail_index, chains, p as int, i as int));
            tail_index = placed(tail_index, p as int, i as int);
        }
        i += 1;
    }
    proof {
        lemma_patience_done(arr@, tails@, tail_index, chains);
    }
    tails.len()
}

/// The table of tail positions as mathematical integers.
pub open spec fn positions(v: Seq<usize>) -> Seq<int> {
    v.map_values(|k: usize| k as int)
}

/// The predecessor entry of input position `k` agrees with its chain: no
/// entry where the chain is `k` alone, and otherwise an earlier position
/// whose own chain, followed by `k`, is the chain of `k`.
pub open spec fn link_spells_chain(link: Option<usize>, chains: Seq<Seq<int>>, k: int) -> bool {
    match link {
        None => chains[k] == seq![k],
        Some(j) => j < k && chains[k] == chains[j as int].push(k),
    }
}

/// One longest strictly increasing subsequence of `arr`, by patience
/// sorting with predecessor links: log-linear in the length of `arr`.
///
/// Where several subsequences share the greatest length, which of them is
/// returned follows from the order in which tails were overwritten; callers
/// may rely on no more than that the result is one of them.
pub fn lis_reconstruct(arr: &[i32]) -> (out: Vec<i32>)
    ensures
        is_longest_increasing_subsequence(arr@, out@),
        out.len() == lis_len(arr@),
        strictly_increasing(out@),
{
    let n: usize = arr.len();
    let mut tails: Vec<i32> = Vec::new();
    let mut tail_index: Vec<usize> = Vec::new();
    let mut predecessor: Vec<Option<usize>> = Vec::new();
    let ghost mut chains: Seq<Seq<int>> = Seq::empty();
    let mut i: usize = 0;
    while i < n
        invariant
            n == arr.len(),
            patience_inv(arr@, i as int, tails@, positions(tail_index@), chains),
            predecessor.len() == i,
            forall|k: int| 0 <= k < i ==> link_spells_chain(#[trigger] predecessor[k], chains, k),
        decreases n - i,
    {
        let ghost before = tails@;
        let ghost index_before = positions(tail_index@);
        let ghost chains_before = chains;
        let p: usize = place_tail(&mut tails, arr[i]);
        let link: Option<usize> = if p > 0 {
            Some(tail_index[p - 1])
        } else {
            None
        };
        if p == tail_index.len() {
            tail_index.push(i);
        } else {
            tail_index.set(p, i);
        }
        predecessor.push(link);
        proof {
            lemma_patience_step(arr@, i as int, before, index_before, chains, p as int);
            chains = chains.push(chain_through(index_before, chains, p as int, i as int));
            assert(positions(tail_index@) =~= placed(index_before, p as int, i as int));
            if p > 0 {
                assert(index_before[p - 1] < i);
            }
            assert forall|k: int| 0 <= k < i + 1 implies link_spells_chain(
                #[trigger] predecessor[k],
                chains,
                k,
            ) by {
                if k < i {
                    assert(link_spells_chain(predecessor[k], chains_before, k));
                    assert(chains[k] == chains_before[k]);
                    match predecessor[k] {
                        None => {},
                        Some(j) => {
                            assert(chains[j as int] == chains_before[j as int]);
                        },
                    }
                } else if p > 0 {
                    assert(chains[index_before[p - 1]] == chains_before[index_before[p - 1]]);
                }
            }
        }
        i += 1;
    }
    proof {
        lemma_patience_done(arr@, tails@, positions(tail_index@), chains);
    }
    let len: usize = tails.len();
    let mut out: Vec<i32> = Vec::new();
    if len == 0 {
        proof {
            let e = Seq::<int>::empty();
            assert(is_increasing_subsequence(arr@, e));
            assert(out@ =~= select(arr@, e));
            lemma_selection_ascends(arr@, e);
        }
        return out;
    }
    let mut cur: usize = tail_index[len - 1];
    let ghost full: Seq<int> = chains[cur as int];
    assert(positions(tail_index@).last() == cur);
    let mut backwards: Vec<usize> = Vec::new();
    loop
        invariant_except_break
            cur < n,
            chains[cur as int].len() + backwards.len() == len,
            chains[cur as int] =~= full.subrange(0, chains[cur as int].len() as int),
        invariant
            n == arr.len(),
            predecessor.len() == n,
            chains.len() == n,
            full.len() == len,
            forall|k: int| 0 <= k < n ==> ends_at(arr@, #[trigger] chains[k], k),
            forall|k: int| 0 <= k < n ==> link_spells_chain(#[trigger] predecessor[k], chains, k),
            forall|j: int| 0 <= j < backwards.len() ==> backwards[j] == full[len - 1 - j],
        ensures
            backwards.len() == len,
        decreases chains[cur as int].len(),
    {
        proof {
            assert(ends_at(arr@, chains[cur as int], cur as int));
            assert(link_spells_chain(predecessor[cur as int], chains, cur as int));
            assert(full[chains[cur as int].len() - 1] == chains[cur as int].last());
        }
        backwards.push(cur);
        let link: Option<usize> = predecessor[cur];
        match link {
            None => {
                break ;
            },
            Some(j) => {
                proof {
                    let c = chains[cur as int];
                    let d = chains[j as int];
                    assert(d =~= c.drop_last());
                    assert(d =~= full.subrange(0, d.len() as int));
                }
                cur = j;
            },
        }
    }
    let mut m: usize = len;
    while m > 0
        invariant
            n == arr.len(),
            m <= len,
            backwards.len() == len,
            full.len() == len,
            is_increasing_subsequence(arr@, full),
            out.len() == len - m,
            forall|j: int| 0 <= j < len ==> backwards[j] == full[len - 1 - j],
            forall|j: int| 0 <= j < out.len() ==> out[j] == arr[full[j]],
        decreases m,
    {
        m -= 1;
        proof {
            assert(backwards[m as int] == full[len - 1 - m]);
            assert(0 <= full[len - 1 - m] < n);
        }
        out.push(arr[backwards[m]]);
    }
    proof {
        assert(out@ =~= select(arr@, full));
        lemma_selection_ascends(arr@, full);
    }
    out
}

} // verus!
