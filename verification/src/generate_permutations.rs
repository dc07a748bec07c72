//! The rearrangements of a word, built by taking one letter out, arranging
//! the rest, and putting the letter back at every place.

use vstd::prelude::*;
use vstd::seq_lib::{to_multiset_contains, to_multiset_insert, to_multiset_remove};
use vstd::string::{is_ascii_spec_bytes, StrSliceExecFns, StringExecFns};
use vstd::utf8::is_ascii_chars;
use crate::words::{lemma_words_add, words};

verus! {

/// `String::push` appends the given character to the end of the string.
/// This is taken from the documentation of the standard library and is not
/// proved here.
pub assume_specification[ String::push ](s: &mut String, ch: char)
    ensures
        final(s)@ == old(s)@.push(ch),
;

/// The words made by inserting `ch` into `w` at each place in turn, from
/// before the first letter to behind the last.
pub open spec fn insertions(ch: char, w: Seq<char>) -> Seq<Seq<char>> {
    Seq::new((w.len() + 1) as nat, |i: int| w.insert(i, ch))
}

/// The insertions of `ch` into each word of `list`, one word's after the
/// other's.
pub open spec fn all_insertions(ch: char, list: Seq<Seq<char>>) -> Seq<Seq<char>>
    decreases list.len(),
{
    if list.len() == 0 {
        Seq::empty()
    } else {
        all_insertions(ch, list.drop_last()) + insertions(ch, list.last())
    }
}

/// The rearrangements of `w` that come from moving its letters at the
/// positions 1 to `pos`: the letter at `pos` is taken out, the shorter word
/// is rearranged up to `pos - 1`, and the letter is inserted at every place
/// of every result. With `pos` 0 the word itself is the only entry; with
/// `pos` the last position every letter has been moved everywhere.
pub open spec fn permutations(w: Seq<char>, pos: nat) -> Seq<Seq<char>>
    decreases pos,
{
    if pos == 0 {
        seq![w]
    } else {
        all_insertions(w[pos as int], permutations(w.remove(pos as int), (pos - 1) as nat))
    }
}

/// Every word of `list` is made of ASCII characters.
pub open spec fn all_ascii(list: Seq<Seq<char>>) -> bool {
    forall|k: int| 0 <= k < list.len() ==> is_ascii_chars(#[trigger] list[k])
}

/// The number of entries of `permutations` for a word of `len` letters
/// and a position `pos`: the product of `len`, `len - 1` and so on, `pos`
/// factors in all.
pub open spec fn arrangements(len: nat, pos: nat) -> nat
    decreases pos,
{
    if pos == 0 {
        1
    } else {
        len * arrangements((len - 1) as nat, (pos - 1) as nat)
    }
}

/// The product of the numbers from 1 to `n`.
pub open spec fn factorial(n: nat) -> nat
    decreases n,
{
    if n == 0 {
        1
    } else {
        n * factorial((n - 1) as nat)
    }
}

/// Every entry of `all_insertions` is one word of the list with `ch`
/// inserted at one of its places. Returns the word's index and the place.
pub proof fn lemma_all_insertions_entry(ch: char, list: Seq<Seq<char>>, k: int) -> (at: (int, int))
    requires
        0 <= k < all_insertions(ch, list).len(),
    ensures
        0 <= at.0 < list.len(),
        0 <= at.1 <= list[at.0].len(),
        all_insertions(ch, list)[k] == list[at.0].insert(at.1, ch),
    decreases list.len(),
{
    let head = all_insertions(ch, list.drop_last());
    if k < head.len() {
        lemma_all_insertions_entry(ch, list.drop_last(), k)
    } else {
        (list.len() - 1, k - head.len())
    }
}

/// Where every word of `list` has `len` letters, `all_insertions` has
/// `len + 1` entries for each of them.
pub proof fn lemma_all_insertions_count(ch: char, list: Seq<Seq<char>>, len: nat)
    requires
        forall|k: int| 0 <= k < list.len() ==> (#[trigger] list[k]).len() == len,
    ensures
        all_insertions(ch, list).len() == list.len() * (len + 1),
    decreases list.len(),
{
    if list.len() > 0 {
        lemma_all_insertions_count(ch, list.drop_last(), len);
        assert(list.last().len() == len);
        assert(list.len() * (len + 1) == (list.len() - 1) * (len + 1) + (len + 1))
            by (nonlinear_arith);
    } else {
        assert(list.len() * (len + 1) == 0) by (nonlinear_arith)
            requires
                list.len() == 0,
        ;
    }
}

/// Inserting an ASCII character into ASCII words gives ASCII words.
pub proof fn lemma_all_insertions_ascii(ch: char, list: Seq<Seq<char>>)
    requires
        all_ascii(list),
        '\0' <= ch <= '\u{7f}',
    ensures
        all_ascii(all_insertions(ch, list)),
{
    let all = all_insertions(ch, list);
    assert forall|k: int| 0 <= k < all.len() implies is_ascii_chars(#[trigger] all[k]) by {
        let at = lemma_all_insertions_entry(ch, list, k);
        let w = list[at.0];
        let v = w.insert(at.1, ch);
        assert(is_ascii_chars(w));
        assert forall|i: int| 0 <= i < v.len() implies '\0' <= #[trigger] v[i] <= '\u{7f}' by {
            if i < at.1 {
                assert(v[i] == w[i]);
            } else if i > at.1 {
                assert(v[i] == w[i - 1]);
            }
        }
    }
}

/// The list has `arrangements` entries, and each is a rearrangement of the
/// word: it has the same letters, each as often as the word has it.
pub proof fn lemma_permutations_rearrange(w: Seq<char>, pos: nat)
    requires
        pos == 0 || pos < w.len(),
    ensures
        permutations(w, pos).len() == arrangements(w.len(), pos),
        forall|k: int|
            0 <= k < permutations(w, pos).len() ==> {
                &&& (#[trigger] permutations(w, pos)[k]).len() == w.len()
                &&& permutations(w, pos)[k].to_multiset() == w.to_multiset()
            },
    decreases pos,
{
    if pos > 0 {
        let ch = w[pos as int];
        let smaller = w.remove(pos as int);
        let list = permutations(smaller, (pos - 1) as nat);
        let all = permutations(w, pos);
        lemma_permutations_rearrange(smaller, (pos - 1) as nat);
        lemma_all_insertions_count(ch, list, smaller.len());
        w.remove_ensures(pos as int);
        assert(list.len() * (smaller.len() + 1) == w.len() * arrangements(
            smaller.len(),
            (pos - 1) as nat,
        )) by (nonlinear_arith)
            requires
                list.len() == arrangements(smaller.len(), (pos - 1) as nat),
                smaller.len() + 1 == w.len(),
        ;
        assert(smaller.to_multiset().insert(ch) =~= w.to_multiset()) by {
            broadcast use vstd::multiset::group_multiset_axioms;

            to_multiset_remove(w, pos as int);
            w.to_multiset_ensures();
            assert(w.contains(ch));
        }
        assert forall|k: int| 0 <= k < all.len() implies {
            &&& (#[trigger] all[k]).len() == w.len()
            &&& all[k].to_multiset() == w.to_multiset()
        } by {
            let at = lemma_all_insertions_entry(ch, list, k);
            to_multiset_insert(list[at.0], at.1, ch);
            list[at.0].insert_ensures(at.1, ch);
        }
    }
}

/// Taken to the last position of a word of `n` letters, the list has as
/// many entries as `n` letters have orders.
pub proof fn lemma_arrangements_of_whole_word(n: nat)
    requires
        n >= 1,
    ensures
        arrangements(n, (n - 1) as nat) == factorial(n),
    decreases n,
{
    if n >= 2 {
        lemma_arrangements_of_whole_word((n - 1) as nat);
    } else {
        assert(factorial(1) == 1 * factorial(0));
    }
}

/// Where every word of `list` has `len` letters, the entry that inserts
/// `ch` at place `t` of word `i` stands at place `i * (len + 1) + t` of
/// `all_insertions`, and every entry stands at such a place.
pub proof fn lemma_all_insertions_place(ch: char, list: Seq<Seq<char>>, len: nat, k: int) -> (at: (
    int,
    int,
))
    requires
        forall|i: int| 0 <= i < list.len() ==> (#[trigger] list[i]).len() == len,
        0 <= k < all_insertions(ch, list).len(),
    ensures
        0 <= at.0 < list.len(),
        0 <= at.1 <= len,
        k == at.0 * (len + 1) + at.1,
        all_insertions(ch, list)[k] == list[at.0].insert(at.1, ch),
    decreases list.len(),
{
    let head = all_insertions(ch, list.drop_last());
    lemma_all_insertions_count(ch, list.drop_last(), len);
    if k < head.len() {
        lemma_all_insertions_place(ch, list.drop_last(), len, k)
    } else {
        assert(list.last().len() == len);
        (list.len() - 1, k - head.len())
    }
}

/// A letter that occurs in neither of two words, inserted into both, gives
/// the same word only where the two words and the two places are the same.
pub proof fn lemma_insert_injective(p: Seq<char>, q: Seq<char>, s: int, t: int, ch: char)
    requires
        0 <= s <= p.len(),
        0 <= t <= q.len(),
        !p.contains(ch),
        !q.contains(ch),
        p.insert(s, ch) == q.insert(t, ch),
    ensures
        s == t,
        p == q,
{
    let v = p.insert(s, ch);
    let u = q.insert(t, ch);
    p.insert_ensures(s, ch);
    q.insert_ensures(t, ch);
    assert(v[s] == ch);
    assert(u[t] == ch);
    if s < t {
        assert(u[s] == q[s]);
        assert(q.contains(q[s]));
    } else if t < s {
        assert(v[t] == p[t]);
        assert(p.contains(p[t]));
    }
    assert forall|i: int| 0 <= i < p.len() implies p[i] == q[i] by {
        if i < s {
            assert(v[i] == p[i] && u[i] == q[i]);
        } else {
            assert(v[i + 1] == p[i] && u[i + 1] == q[i]);
        }
    }
    assert(p =~= q);
}

/// Where no letter occurs twice in the word, no rearrangement occurs twice
/// in the list.
pub proof fn lemma_permutations_distinct(w: Seq<char>, pos: nat)
    requires
        w.no_duplicates(),
        pos == 0 || pos < w.len(),
    ensures
        permutations(w, pos).no_duplicates(),
    decreases pos,
{
    if pos > 0 {
        let ch = w[pos as int];
        let smaller = w.remove(pos as int);
        let list = permutations(smaller, (pos - 1) as nat);
        let all = permutations(w, pos);
        w.remove_ensures(pos as int);
        assert forall|i: int, j: int|
            0 <= i < smaller.len() && 0 <= j < smaller.len() && i != j implies smaller[i]
            != smaller[j] by {
            let a = if i < pos { i } else { i + 1 };
            let b = if j < pos { j } else { j + 1 };
            assert(smaller[i] == w[a] && smaller[j] == w[b]);
        }
        assert(!smaller.contains(ch)) by {
            if smaller.contains(ch) {
                let i = choose|i: int| 0 <= i < smaller.len() && smaller[i] == ch;
                let a = if i < pos { i } else { i + 1 };
                assert(smaller[i] == w[a]);
            }
        }
        lemma_permutations_distinct(smaller, (pos - 1) as nat);
        lemma_permutations_rearrange(smaller, (pos - 1) as nat);
        to_multiset_contains(smaller, ch);
        assert forall|a: int, b: int| 0 <= a < all.len() && 0 <= b < all.len() && a != b implies all[a]
            != all[b] by {
            let x = lemma_all_insertions_place(ch, list, smaller.len(), a);
            let y = lemma_all_insertions_place(ch, list, smaller.len(), b);
            to_multiset_contains(list[x.0], ch);
            to_multiset_contains(list[y.0], ch);
            if all[a] == all[b] {
                lemma_insert_injective(list[x.0], list[y.0], x.1, y.1, ch);
            }
        }
    }
}

/// A word with one letter taken out is ASCII where the word was.
pub proof fn lemma_remove_ascii(w: Seq<char>, pos: int)
    requires
        is_ascii_chars(w),
        0 <= pos < w.len(),
    ensures
        is_ascii_chars(w.remove(pos)),
        w.remove(pos).len() == w.len() - 1,
{
    let r = w.remove(pos);
    assert forall|i: int| 0 <= i < r.len() implies '\0' <= #[trigger] r[i] <= '\u{7f}' by {
        if i < pos {
            assert(r[i] == w[i]);
        } else {
            assert(r[i] == w[i + 1]);
        }
    }
}

/// The rearrangements of an ASCII word are ASCII words.
pub proof fn lemma_permutations_ascii(w: Seq<char>, pos: nat)
    requires
        is_ascii_chars(w),
        pos == 0 || pos < w.len(),
    ensures
        all_ascii(permutations(w, pos)),
    decreases pos,
{
    if pos > 0 {
        lemma_remove_ascii(w, pos as int);
        lemma_permutations_ascii(w.remove(pos as int), (pos - 1) as nat);
        lemma_all_insertions_ascii(
            w[pos as int],
            permutations(w.remove(pos as int), (pos - 1) as nat),
        );
    }
}

/// The words made by inserting `ch` into `word` at each place in turn:
/// first before the first letter, last behind the last letter.
pub fn interpolate(ch: char, word: &str) -> (res: Vec<String>)
    requires
        word.is_ascii(),
    ensures
        words(res@) == insertions(ch, word@),
        res.len() == word@.len() + 1,
{
    let len: usize = word.as_bytes().len();
    proof {
        is_ascii_spec_bytes(word);
    }
    let mut res: Vec<String> = Vec::new();
    let mut i: usize = 0;
    loop
        invariant_except_break
            i <= len,
            res.len() == i,
        invariant
            word.is_ascii(),
            len == word@.len(),
            forall|k: int| 0 <= k < res.len() ==> (#[trigger] res[k])@ == word@.insert(k, ch),
        ensures
            res.len() == len + 1,
        decreases len - i,
    {
        let mut interpolation: String = String::from_str(word.substring_ascii(0, i));
        interpolation.push(ch);
        interpolation.append(word.substring_ascii(i, len));
        res.push(interpolation);
        if i == len {
            break ;
        }
        i += 1;
    }
    assert(words(res@) =~= insertions(ch, word@));
    res
}

/// The rearrangements of the first `pos + 1` letters of `word`, each
/// followed by the letters behind `pos`. With `pos` the last position of
/// the word these are all its permutations; with `pos` 0 the word itself
/// is the only entry.
pub fn generate_permutations(word: &str, pos: usize) -> (res: Vec<String>)
    requires
        pos == 0 || (word.is_ascii() && pos < word@.len()),
    ensures
        words(res@) == permutations(word@, pos as nat),
        res.len() == arrangements(word@.len(), pos as nat),
    decreases pos,
{
    proof {
        lemma_permutations_rearrange(word@, pos as nat);
    }
    if pos == 0 {
        let mut res: Vec<String> = Vec::new();
        res.push(String::from_str(word));
        assert(words(res@) =~= permutations(word@, 0));
        return res;
    }
    let len: usize = word.as_bytes().len();
    proof {
        is_ascii_spec_bytes(word);
    }
    let mut smaller_word: String = String::from_str(word.substring_ascii(0, pos));
    smaller_word.append(word.substring_ascii(pos + 1, len));
    proof {
        assert(smaller_word@ =~= word@.remove(pos as int));
        lemma_remove_ascii(word@, pos as int);
        lemma_permutations_ascii(smaller_word@, (pos - 1) as nat);
    }
    let perms: Vec<String> = generate_permutations(smaller_word.as_str(), pos - 1);
    let ch: char = word.get_char(pos);
    let ghost list = words(perms@);
    let mut res: Vec<String> = Vec::new();
    let mut i: usize = 0;
    assert(list.subrange(0, 0) =~= Seq::<Seq<char>>::empty());
    while i < perms.len()
        invariant
            i <= perms.len(),
            list == words(perms@),
            all_ascii(list),
            words(res@) == all_insertions(ch, list.subrange(0, i as int)),
        decreases perms.len() - i,
    {
        assert(is_ascii_chars(list[i as int]));
        let ghost before = res@;
        let mut interpolations: Vec<String> = interpolate(ch, perms[i].as_str());
        proof {
            lemma_words_add(before, interpolations@);
            let upto = list.subrange(0, i + 1);
            assert(upto.drop_last() =~= list.subrange(0, i as int));
            assert(upto.last() == perms[i as int]@);
        }
        res.append(&mut interpolations);
        i += 1;
    }
    assert(list.subrange(0, perms.len() as int) =~= list);
    res
}

} // verus!
