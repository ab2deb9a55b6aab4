//! Word lookup in a lexicon: the position of a word among the lexicon's
//! words, which also indexes its anchor.

use vstd::prelude::*;

verus! {

/// The index of the first entry of `words` equal to `word`, or `None` when
/// the word is not in the lexicon.
pub fn word_index(words: &Vec<String>, word: &str) -> (r: Option<usize>)
    ensures
        match r {
            Some(i) => i < words.len() && words@[i as int]@ == word@ && forall|j: int|
                0 <= j < i ==> #[trigger] words@[j]@ != word@,
            None => forall|j: int| 0 <= j < words.len() ==> #[trigger] words@[j]@ != word@,
        },
{
    let target: String = word.to_owned();
    let mut i: usize = 0;
    while i < words.len()
        invariant
            i <= words.len(),
            target@ == word@,
            forall|j: int| 0 <= j < i ==> #[trigger] words@[j]@ != word@,
        decreases words.len() - i,
    {
        if words[i] == target {
            return Some(i);
        }
        i = i + 1;
    }
    None
}

} // verus!
