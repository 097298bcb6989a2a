use vstd::prelude::*;

pub mod anagram;
mod word;

pub use crate::word::{
    alpha_spec, alphatize, lemma_alpha_spec, lemma_letter_from_lidx, lemma_sorted_is_alpha,
    lemma_to_multiset_insert, letter_from, letter_le, lidx, sorted, word_clone, word_eq, Id,
    Letter, LetterIter, Word, WordDatum,
};

verus! {

/// A loaded dictionary: the words in ingestion order, each carrying the
/// zero-based identifier that all query results refer back to.
pub struct Verve {
    pub word_data: Vec<WordDatum>,
}

impl Verve {
    /// Every entry's stored identifier is its position in the dictionary.
    pub open spec fn wf(self) -> bool {
        forall|i: int|
            0 <= i < self.word_data@.len() ==> (#[trigger] self.word_data@[i]).id == i
    }

    /// The dictionary as a sequence of letter sequences, in ingestion order.
    pub open spec fn words(self) -> Seq<Seq<Letter>> {
        Seq::new(self.word_data@.len(), |i: int| self.word_data@[i].word@)
    }

    /// Takes ownership of an ordered word list and numbers it from zero.
    pub fn new(dictionary: Vec<Word>) -> (r: Verve)
        ensures
            r.wf(),
            r.words().len() == dictionary@.len(),
            forall|i: int| 0 <= i < dictionary@.len() ==> r.words()[i] == dictionary@[i]@,
    {
        let mut word_data: Vec<WordDatum> = Vec::new();
        let mut i: usize = 0;
        while i < dictionary.len()
            invariant
                i <= dictionary@.len(),
                word_data@.len() == i,
                forall|j: int| 0 <= j < i ==> (#[trigger] word_data@[j]).id == j,
                forall|j: int| 0 <= j < i ==> (#[trigger] word_data@[j]).word@ == dictionary@[j]@,
            decreases dictionary@.len() - i,
        {
            word_data.push(WordDatum { word: word_clone(&dictionary[i]), id: i });
            i = i + 1;
        }
        Verve { word_data }
    }

    /// The display text behind an identifier returned by a query.
    pub fn word(&self, id: usize) -> (r: &Word)
        requires
            self.wf(),
            id < self.word_data@.len(),
        ensures
            r@ == self.words()[id as int],
    {
        let word_datum = &self.word_data[id];
        &word_datum.word
    }
}

} // verus!
