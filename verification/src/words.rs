//! Lists of words as mathematical sequences of characters.

use vstd::prelude::*;

verus! {

/// The characters of each word of `list`, in the order of the list.
pub open spec fn words(list: Seq<String>) -> Seq<Seq<char>> {
    Seq::new(list.len(), |i: int| list[i]@)
}

/// The view of two lists joined is the two views joined.
pub proof fn lemma_words_add(a: Seq<String>, b: Seq<String>)
    ensures
        words(a + b) =~= words(a) + words(b),
{
}

} // verus!
