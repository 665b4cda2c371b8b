//! The words that are left out of the keyword statistics.

use vstd::prelude::*;
use stopwords::Stopwords;
use crate::text::texts_of;

verus! {

/// Whether a word is on the English stopword list of NLTK.
pub uninterp spec fn nltk_english_stopword(word: Seq<char>) -> bool;

/// `NLTK::stopwords(Language::English)` of the `stopwords` crate hands out
/// a fixed list of words; the result says whether `word` is one of its
/// elements. The list itself is not spelled out here.
#[verifier::external_body]
fn on_nltk_english_list(word: &str) -> (r: bool)
    ensures
        r == nltk_english_stopword(word@),
{
    match stopwords::NLTK::stopwords(stopwords::Language::English) {
        Some(list) => list.contains(&word),
        None => false,
    }
}

/// A set of stopwords: the English list of NLTK, or a list of the caller's
/// own. Words are matched as they stand, so a list meant for lowercased
/// keywords holds lowercase words.
pub enum StopwordList {
    NltkEnglish,
    Custom(Vec<String>),
}

impl View for StopwordList {
    type V = Set<Seq<char>>;

    /// The words of the list, as a set.
    open spec fn view(&self) -> Set<Seq<char>> {
        Set::new(|word: Seq<char>| self.lists(word))
    }
}

impl StopwordList {
    /// Whether the list holds `word`.
    pub open spec fn lists(&self, word: Seq<char>) -> bool {
        match self {
            StopwordList::NltkEnglish => nltk_english_stopword(word),
            StopwordList::Custom(list) => texts_of(list@).contains(word),
        }
    }

    /// Whether `word` is a stopword.
    pub fn contains(&self, word: &String) -> (r: bool)
        ensures
            r == self@.contains(word@),
    {
        match self {
            StopwordList::NltkEnglish => on_nltk_english_list(word.as_str()),
            StopwordList::Custom(list) => holds_word(list, word),
        }
    }
}

/// Whether `word` is an element of `list`.
fn holds_word(list: &Vec<String>, word: &String) -> (r: bool)
    ensures
        r == texts_of(list@).contains(word@),
{
    let mut i: usize = 0;
    while i < list.len()
        invariant
            i <= list.len(),
            forall|j: int| 0 <= j < i ==> texts_of(list@)[j] != word@,
        decreases list.len() - i,
    {
        if list[i] == *word {
            assert(texts_of(list@)[i as int] == word@);
            return true;
        }
        i = i + 1;
    }
    false
}

} // verus!
