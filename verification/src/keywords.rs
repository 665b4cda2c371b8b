//! Keywords of a message: its alphabetic words, lowercased, without the
//! stopwords.

use vstd::prelude::*;
use vstd::string::*;
use crate::stopword::StopwordList;
use crate::text::{texts_of, trimmed, unicode_alphabetic, unicode_lowercase};

verus! {

/// The length of the run of alphabetic characters at the start of a text.
pub open spec fn word_len(s: Seq<char>) -> nat
    decreases s.len(),
{
    if s.len() > 0 && unicode_alphabetic(s[0]) {
        1 + word_len(s.drop_first())
    } else {
        0
    }
}

/// The leading run is part of the text.
pub proof fn lemma_word_len_bound(s: Seq<char>)
    ensures
        word_len(s) <= s.len(),
    decreases s.len(),
{
    if s.len() > 0 && unicode_alphabetic(s[0]) {
        lemma_word_len_bound(s.drop_first());
    }
}

/// The words of a text: its maximal runs of alphabetic characters, in the
/// order in which they occur. Every other character separates words.
pub open spec fn words(s: Seq<char>) -> Seq<Seq<char>>
    decreases s.len(),
    via words_decreases
{
    if s.len() == 0 {
        Seq::empty()
    } else if word_len(s) == 0 {
        words(s.drop_first())
    } else {
        seq![s.take(word_len(s) as int)] + words(s.skip(word_len(s) as int))
    }
}

#[via_fn]
proof fn words_decreases(s: Seq<char>) {
    lemma_word_len_bound(s);
}

/// Whether a lowercased word is counted as a keyword: it is not empty, it
/// is no stopword, and something is left of it after trimming.
pub open spec fn is_keyword(word: Seq<char>, stopwords: Set<Seq<char>>) -> bool {
    word.len() > 0 && !stopwords.contains(word) && trimmed(word).len() > 0
}

/// Whether a text is the lowercase form of some text.
pub open spec fn is_lowercase_form(text: Seq<char>) -> bool {
    exists|word: Seq<char>| text == #[trigger] unicode_lowercase(word)
}

/// The test that `is_keyword` makes against a set of stopwords.
pub open spec fn keyword_test(stopwords: Set<Seq<char>>) -> spec_fn(Seq<char>) -> bool {
    |word: Seq<char>| is_keyword(word, stopwords)
}

/// Each of the given words in lowercase.
pub open spec fn lowercased(words: Seq<Seq<char>>) -> Seq<Seq<char>> {
    Seq::new(words.len(), |i: int| unicode_lowercase(words[i]))
}

/// The keywords of a message, one for each occurrence: the words of the
/// message in lowercase, without those that are not counted.
pub open spec fn keywords(message: Seq<char>, stopwords: Set<Seq<char>>) -> Seq<Seq<char>> {
    lowercased(words(message)).filter(keyword_test(stopwords))
}

/// Every keyword of a message passes the keyword test and is the
/// lowercase form of one of the words of the message.
pub proof fn lemma_keywords_are_keywords(
    message: Seq<char>,
    stopwords: Set<Seq<char>>,
    key: Seq<char>,
)
    requires
        keywords(message, stopwords).contains(key),
    ensures
        is_keyword(key, stopwords),
        is_lowercase_form(key),
{
    let all = lowercased(words(message));
    let found = keywords(message, stopwords);
    let i = choose|i: int| 0 <= i < found.len() && found[i] == key;
    all.lemma_filter_pred(keyword_test(stopwords), i);
    all.lemma_filter_contains_rev(keyword_test(stopwords), key);
    let j = choose|j: int| 0 <= j < all.len() && all[j] == key;
    assert(key == unicode_lowercase(words(message)[j]));
}

/// A run of alphabetic characters that is followed by the end of the text
/// or by a separator is the first word of the text.
proof fn lemma_words_after_run(run: Seq<char>, rest: Seq<char>)
    requires
        forall|i: int| 0 <= i < run.len() ==> unicode_alphabetic(#[trigger] run[i]),
        rest.len() == 0 || !unicode_alphabetic(rest[0]),
    ensures
        word_len(run + rest) == run.len(),
        run.len() > 0 ==> words(run + rest) == seq![run] + words(rest),
    decreases run.len(),
{
    let s = run + rest;
    if run.len() == 0 {
        assert(s =~= rest);
    } else {
        assert(s[0] == run[0]);
        assert(s.drop_first() =~= run.drop_first() + rest);
        lemma_words_after_run(run.drop_first(), rest);
        assert(s.take(run.len() as int) =~= run);
        assert(s.skip(run.len() as int) =~= rest);
    }
}

/// The words of a message.
pub fn message_words(message: &str) -> (out: Vec<String>)
    ensures
        texts_of(out@) == words(message@),
{
    let mut out: Vec<String> = Vec::new();
    let mut current: String = String::new();
    proof {
        assert(current@ + message@.skip(0) =~= message@);
        assert(texts_of(out@) + words(message@) =~= words(message@));
    }
    for c in it: message.chars()
        invariant
            it.seq() == message@,
            forall|i: int| 0 <= i < current@.len() ==> unicode_alphabetic(#[trigger] current@[i]),
            words(message@) == texts_of(out@) + words(current@ + message@.skip(it.index() as int)),
    {
        let ghost rest = message@.skip(it.index() as int);
        let ghost done = texts_of(out@);
        assert(rest.len() > 0 && rest[0] == c);
        let ghost next = message@.skip(it.index() + 1);
        assert(rest.drop_first() =~= next);
        if c.is_alphabetic() {
            let ghost run = current@;
            current.push(c);
            assert(current@ + next =~= run + rest);
            assert(words(message@) == texts_of(out@) + words(current@ + next));
        } else if current.as_str().is_empty() {
            assert(current@ + rest =~= rest);
            assert(current@ + next =~= next);
            assert(words(message@) == texts_of(out@) + words(current@ + next));
        } else {
            proof {
                lemma_words_after_run(current@, rest);
                assert(seq![current@] + words(rest) =~= seq![current@] + words(rest.drop_first()));
            }
            out.push(current);
            current = String::new();
            assert(texts_of(out@) =~= done + seq![out@[out@.len() - 1]@]);
            assert(current@ + rest.drop_first() =~= rest.drop_first());
            assert(texts_of(out@) + words(rest.drop_first()) =~= done + (seq![out@[out@.len() - 1]@]
                + words(rest.drop_first())));
            assert(words(message@) == texts_of(out@) + words(current@ + next));
        }
    }
    proof {
        assert(message@.skip(message@.len() as int) =~= Seq::<char>::empty());
        lemma_words_after_run(current@, Seq::<char>::empty());
    }
    if !current.as_str().is_empty() {
        let ghost done = texts_of(out@);
        out.push(current);
        assert(texts_of(out@) =~= done + seq![out@[out@.len() - 1]@]);
    } else {
        assert(current@ + Seq::<char>::empty() =~= Seq::<char>::empty());
        assert(texts_of(out@) + Seq::<Seq<char>>::empty() =~= texts_of(out@));
    }
    out
}

/// Whether a lowercased word is counted as a keyword.
pub fn counts_as_keyword(word: &String, stopwords: &StopwordList) -> (counted: bool)
    ensures
        counted == is_keyword(word@, stopwords@),
{
    !word.as_str().is_empty() && !stopwords.contains(word) && !word.as_str().trim().is_empty()
}

/// The keywords of a message, one for each occurrence.
pub fn message_keywords(message: &str, stopwords: &StopwordList) -> (out: Vec<String>)
    ensures
        texts_of(out@) == keywords(message@, stopwords@),
{
    let found = message_words(message);
    let ghost all = texts_of(found@);
    let ghost test = keyword_test(stopwords@);
    let mut out: Vec<String> = Vec::new();
    let mut i: usize = 0;
    proof {
        reveal(Seq::filter);
        assert(texts_of(out@) =~= lowercased(all.take(0)).filter(test));
    }
    while i < found.len()
        invariant
            i <= found.len(),
            all == texts_of(found@),
            test == keyword_test(stopwords@),
            texts_of(out@) == lowercased(all.take(i as int)).filter(test),
        decreases found.len() - i,
    {
        let lower: String = found[i].as_str().to_lowercase();
        let ghost before = lowercased(all.take(i as int));
        let ghost listed = texts_of(out@);
        proof {
            assert(lowercased(all.take(i + 1)) =~= before.push(lower@));
            before.lemma_filter_push(lower@, test);
        }
        if counts_as_keyword(&lower, stopwords) {
            out.push(lower);
            assert(texts_of(out@) =~= listed.push(out@[out@.len() - 1]@));
        }
        i = i + 1;
    }
    assert(all.take(found.len() as int) =~= all);
    out
}

} // verus!
