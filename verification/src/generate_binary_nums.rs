//! All binary numerals of a given number of digits, in ascending order.

use vstd::arithmetic::div_mod::lemma_div_denominator;
use vstd::arithmetic::power::lemma_pow0;
use vstd::arithmetic::power2::{lemma_pow2_pos, lemma_pow2_unfold, pow2};
use vstd::prelude::*;
use vstd::string::StringExecFns;
use crate::words::words;

verus! {

/// The digit that stands for the parity of `k`.
pub open spec fn low_digit(k: int) -> char {
    if k % 2 == 0 {
        '0'
    } else {
        '1'
    }
}

/// The binary numerals of `n` digits, in ascending order: each numeral of
/// `n - 1` digits gives two of `n` digits, first with `0` and then with `1`
/// behind it. There is one numeral of no digits, the empty word.
pub open spec fn binary_words(n: nat) -> Seq<Seq<char>>
    decreases n,
{
    if n == 0 {
        seq![Seq::<char>::empty()]
    } else {
        let shorter = binary_words((n - 1) as nat);
        Seq::new(2 * shorter.len(), |k: int| shorter[k / 2].push(low_digit(k)))
    }
}

/// There are two to the power `n` binary numerals of `n` digits, and each
/// has `n` digits.
pub proof fn lemma_binary_words_count(n: nat)
    ensures
        binary_words(n).len() == pow2(n),
        forall|k: int| 0 <= k < binary_words(n).len() ==> (#[trigger] binary_words(n)[k]).len() == n,
    decreases n,
{
    if n == 0 {
        lemma_pow0(2);
    } else {
        lemma_binary_words_count((n - 1) as nat);
        lemma_pow2_unfold(n);
    }
}

/// The numeral at place `k` of the list is `k` written in binary: its digit
/// `j`, counted from the left, is the parity of `k` divided by two to the
/// power of the number of digits that follow.
pub proof fn lemma_binary_word_digit(n: nat, k: int, j: int)
    requires
        0 <= k < pow2(n),
        0 <= j < n,
    ensures
        binary_words(n).len() == pow2(n),
        binary_words(n)[k].len() == n,
        binary_words(n)[k][j] == low_digit(k / (pow2((n - 1 - j) as nat) as int)),
    decreases n,
{
    lemma_binary_words_count(n);
    lemma_binary_words_count((n - 1) as nat);
    lemma_pow2_unfold(n);
    let shorter = binary_words((n - 1) as nat);
    assert(binary_words(n)[k] == shorter[k / 2].push(low_digit(k)));
    if j == n - 1 {
        lemma_pow0(2);
        assert(((n - 1 - j) as nat) == 0);
        assert(k / 1 == k);
    } else {
        let e = (n - 2 - j) as nat;
        lemma_binary_word_digit((n - 1) as nat, k / 2, j);
        assert(binary_words(n)[k][j] == shorter[k / 2][j]);
        lemma_pow2_unfold((n - 1 - j) as nat);
        lemma_pow2_pos(e);
        lemma_div_denominator(k, 2, pow2(e) as int);
        assert(pow2((n - 1 - j) as nat) == 2 * pow2(e));
        assert((k / 2) / (pow2(e) as int) == k / (2 * (pow2(e) as int)));
    }
}

/// The binary numerals of `n` digits as strings of `0` and `1`, in
/// ascending order.
pub fn generate_binary_nums(n: usize) -> (res: Vec<String>)
    ensures
        words(res@) == binary_words(n as nat),
        res.len() == pow2(n as nat),
    decreases n,
{
    proof {
        lemma_binary_words_count(n as nat);
    }
    if n == 0 {
        let mut res: Vec<String> = Vec::new();
        res.push(String::new());
        assert(words(res@) =~= binary_words(0));
        return res;
    }
    let binary_nums: Vec<String> = generate_binary_nums(n - 1);
    let ghost shorter = binary_words((n - 1) as nat);
    let suffixes: [&str; 2] = ["0", "1"];
    proof {
        reveal_strlit("0");
        reveal_strlit("1");
    }
    let mut res: Vec<String> = Vec::new();
    let mut i: usize = 0;
    while i < binary_nums.len()
        invariant
            i <= binary_nums.len(),
            words(binary_nums@) == shorter,
            suffixes[0]@ == seq!['0'],
            suffixes[1]@ == seq!['1'],
            res.len() == 2 * i,
            forall|k: int|
                0 <= k < res.len() ==> (#[trigger] res[k])@ == shorter[k / 2].push(low_digit(k)),
        decreases binary_nums.len() - i,
    {
        let mut j: usize = 0;
        while j < 2
            invariant
                i < binary_nums.len(),
                j <= 2,
                words(binary_nums@) == shorter,
                suffixes[0]@ == seq!['0'],
                suffixes[1]@ == seq!['1'],
                res.len() == 2 * i + j,
                forall|k: int|
                    0 <= k < res.len() ==> (#[trigger] res[k])@ == shorter[k / 2].push(
                        low_digit(k),
                    ),
            decreases 2 - j,
        {
            let mut num: String = binary_nums[i].clone();
            num.append(suffixes[j]);
            proof {
                let k = 2 * i + j;
                assert(k / 2 == i);
                assert(k % 2 == j);
                assert(shorter[i as int] == binary_nums[i as int]@);
                assert(num@ =~= shorter[k / 2].push(low_digit(k)));
            }
            res.push(num);
            j += 1;
        }
        i += 1;
    }
    proof {
        assert(shorter.len() == binary_nums.len());
        assert(words(res@) =~= binary_words(n as nat));
    }
    res
}

} // verus!
