//! Documents: the words of a text, each listed once with the number of times
//! it occurs, in the order in which the words first appear.

use vstd::prelude::*;
use crate::counting::{
    distinct, lemma_distinct_contains, lemma_distinct_no_duplicates, lemma_occurrences_bounded,
    lemma_occurrences_push, lemma_occurrences_zero, occurrences,
};
use crate::text::str_eq;

verus! {

/// A word, as the sequence of its characters.
pub type Word = Seq<char>;

/// A document, as its pairs of word and count.
pub type DocModel = Seq<(Seq<char>, usize)>;

/// The words of a document, in its order.
pub open spec fn doc_words(d: DocModel) -> Seq<Word> {
    Seq::new(d.len(), |k: int| d[k].0)
}

/// A document lists no word twice.
pub open spec fn is_document(d: DocModel) -> bool {
    doc_words(d).no_duplicates()
}

/// The count that a document gives for a word: that of the first pair which
/// holds the word, and zero where no pair does.
pub open spec fn term_count(d: DocModel, w: Word) -> nat
    decreases d.len(),
{
    if d.len() == 0 {
        0
    } else if d[0].0 == w {
        d[0].1 as nat
    } else {
        term_count(d.drop_first(), w)
    }
}

/// `d` is the document of a text of the words `words`: it lists the distinct
/// words in the order of their first appearance, each with the number of its
/// occurrences.
pub open spec fn is_document_of(d: DocModel, words: Seq<Word>) -> bool {
    &&& doc_words(d) == distinct(words)
    &&& forall|k: int| 0 <= k < d.len() ==> (#[trigger] d[k]).1 == occurrences(words, d[k].0)
}

/// The count of a word that stands at `k`, and at no earlier place, is the
/// count of the pair at `k`.
pub proof fn lemma_term_count_at(d: DocModel, w: Word, k: int)
    requires
        0 <= k < d.len(),
        d[k].0 == w,
        forall|j: int| 0 <= j < k ==> (#[trigger] d[j]).0 != w,
    ensures
        term_count(d, w) == d[k].1,
    decreases k,
{
    if k > 0 {
        assert(d[0].0 != w);
        let rest = d.drop_first();
        assert forall|j: int| 0 <= j < k - 1 implies (#[trigger] rest[j]).0 != w by {
            assert(d[j + 1].0 != w);
        }
        lemma_term_count_at(rest, w, k - 1);
    }
}

/// A word that no pair holds has the count zero.
pub proof fn lemma_term_count_absent(d: DocModel, w: Word)
    requires
        forall|j: int| 0 <= j < d.len() ==> (#[trigger] d[j]).0 != w,
    ensures
        term_count(d, w) == 0,
    decreases d.len(),
{
    if d.len() > 0 {
        assert(d[0].0 != w);
        let rest = d.drop_first();
        assert forall|j: int| 0 <= j < rest.len() implies (#[trigger] rest[j]).0 != w by {
            assert(d[j + 1].0 != w);
        }
        lemma_term_count_absent(rest, w);
    }
}

/// The document of a text lists no word twice, and gives every word the
/// number of times that the text holds it.
pub proof fn lemma_document_counts(d: DocModel, words: Seq<Word>, w: Word)
    requires
        is_document_of(d, words),
    ensures
        is_document(d),
        term_count(d, w) == occurrences(words, w),
{
    lemma_distinct_no_duplicates(words);
    lemma_distinct_contains(words, w);
    let listed = doc_words(d);
    if listed.contains(w) {
        let k = choose|k: int| 0 <= k < listed.len() && listed[k] == w;
        assert forall|j: int| 0 <= j < k implies (#[trigger] d[j]).0 != w by {
            assert(listed[j] == d[j].0);
        }
        assert(d[k].0 == listed[k]);
        lemma_term_count_at(d, w, k);
    } else {
        assert forall|j: int| 0 <= j < d.len() implies (#[trigger] d[j]).0 != w by {
            assert(listed[j] == d[j].0);
        }
        lemma_term_count_absent(d, w);
        lemma_occurrences_zero(words, w);
    }
}

/// The place of the first pair of `doc` that holds `word`, if there is one.
pub fn find_word(doc: &Vec<(String, usize)>, word: &str) -> (place: Option<usize>)
    ensures
        match place {
            Some(k) => {
                &&& k < doc@.len()
                &&& doc@[k as int].0@ == word@
                &&& forall|j: int| 0 <= j < k ==> (#[trigger] doc@[j]).0@ != word@
            },
            None => forall|j: int| 0 <= j < doc@.len() ==> (#[trigger] doc@[j]).0@ != word@,
        },
{
    let mut k: usize = 0;
    while k < doc.len()
        invariant
            k <= doc@.len(),
            forall|j: int| 0 <= j < k ==> (#[trigger] doc@[j]).0@ != word@,
        decreases doc@.len() - k,
    {
        if str_eq(doc[k].0.as_str(), word) {
            return Some(k);
        }
        k = k + 1;
    }
    None
}

/// The number of times that `doc` records for `word`; zero for a word that
/// the document does not list.
pub fn term_frequency(doc: &Vec<(String, usize)>, word: &str) -> (count: usize)
    ensures
        count == term_count(doc.deep_view(), word@),
{
    let place = find_word(doc, word);
    let ghost d = doc.deep_view();
    match place {
        Some(k) => {
            proof {
                assert forall|j: int| 0 <= j < k implies (#[trigger] d[j]).0 != word@ by {
                    assert(d[j].0 == doc@[j].0@);
                }
                assert(d[k as int] == (doc@[k as int].0@, doc@[k as int].1));
                lemma_term_count_at(d, word@, k as int);
            }
            doc[k].1
        },
        None => {
            proof {
                assert forall|j: int| 0 <= j < d.len() implies (#[trigger] d[j]).0 != word@ by {
                    assert(d[j].0 == doc@[j].0@);
                }
                lemma_term_count_absent(d, word@);
            }
            0
        },
    }
}

/// Builds the document of a text from its words.
pub fn words_to_doc(words: &[&str]) -> (doc: Vec<(String, usize)>)
    ensures
        is_document_of(doc.deep_view(), words.deep_view()),
{
    let ghost all = words.deep_view();
    let mut doc: Vec<(String, usize)> = Vec::new();
    let mut i: usize = 0;
    proof {
        assert(all.take(0) =~= Seq::<Word>::empty());
        assert(doc_words(doc.deep_view()) =~= distinct(all.take(0)));
    }
    while i < words.len()
        invariant
            i <= words@.len(),
            all == words.deep_view(),
            is_document_of(doc.deep_view(), all.take(i as int)),
        decreases words@.len() - i,
    {
        let word: &str = words[i];
        let ghost seen = all.take(i as int);
        let ghost before = doc.deep_view();
        let ghost pairs = doc@;
        proof {
            assert(all[i as int] == word@);
            assert(all.take(i + 1) =~= seen.push(word@));
            assert(all.take(i + 1).drop_last() =~= seen);
            lemma_occurrences_bounded(seen, word@);
            assert forall|w: Word| occurrences(all.take(i + 1), w) == occurrences(seen, w) + if word@
                == w {
                1nat
            } else {
                0nat
            } by {
                lemma_occurrences_push(seen, word@, w);
            }
        }
        match find_word(&doc, word) {
            Some(k) => {
                proof {
                    assert(before[k as int].0 == word@);
                    assert(doc_words(before)[k as int] == word@);
                }
                doc[k].1 = doc[k].1 + 1;
                proof {
                    let after = doc.deep_view();
                    assert(doc_words(after) =~= doc_words(before));
                    assert forall|j: int| 0 <= j < after.len() implies (#[trigger] after[j]).1
                        == occurrences(all.take(i + 1), after[j].0) by {
                        assert(after[j] == (doc@[j].0@, doc@[j].1));
                        assert(before[j] == (pairs[j].0@, pairs[j].1));
                        if j != k {
                            lemma_distinct_no_duplicates(seen);
                            assert(doc_words(before)[j] == before[j].0);
                            assert(doc_words(before)[k as int] == before[k as int].0);
                        }
                    }
                }
            },
            None => {
                proof {
                    assert forall|j: int| 0 <= j < before.len() implies doc_words(before)[j]
                        != word@ by {
                        assert(before[j].0 == doc@[j].0@);
                    }
                    assert(!doc_words(before).contains(word@));
                    lemma_distinct_contains(seen, word@);
                    lemma_occurrences_zero(seen, word@);
                }
                doc.push((word.to_owned(), 1));
                proof {
                    let after = doc.deep_view();
                    assert(after.len() == before.len() + 1);
                    assert forall|j: int| 0 <= j < before.len() implies after[j] == before[j] by {
                        assert(doc@[j] == pairs[j]);
                    }
                    assert(doc_words(after) =~= doc_words(before).push(word@));
                }
            },
        }
        i = i + 1;
    }
    proof {
        assert(all.take(i as int) =~= all);
    }
    doc
}

} // verus!
