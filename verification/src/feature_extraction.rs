//! The extractors that turn the fields of posts into numeric features: codes
//! and counts, one row for each post, and the TF-IDF matrix of the texts to
//! score against a corpus.
//!
//! Texts that are read word by word are given by their words, and the texts
//! that are scored by their documents: splitting a text into words is the
//! caller's work, and the same splitting has to serve the vocabulary, the
//! documents and the word counts, or their columns do not fit together.

use vstd::prelude::*;
use crate::counting::{
    distinct, lemma_distinct_contains, lemma_distinct_no_duplicates, lemma_distinct_prefix,
    lemma_occurrences_zero, occurrences,
};
use crate::document::{
    is_document_of, lemma_document_counts, term_count, term_frequency, words_to_doc,
};
use crate::symbols::{char_counts, SYMBOLS};
use crate::text::borrow_words;
use crate::tfidf_matrix::{borrow_docs, can_score, is_score_matrix, is_score_row, tfidf_row};
use crate::vocabulary::position_of;

verus! {

/// The numeric code of the self-post flag: `0` for a self post, `1` otherwise.
pub open spec fn is_self_code(b: bool) -> u8 {
    if b {
        0u8
    } else {
        1u8
    }
}

/// Encodes the self-post flag as a number.
pub fn convert_is_self(b: bool) -> (code: u8)
    ensures
        code == is_self_code(b),
{
    if b {
        0
    } else {
        1
    }
}

/// Counts, for each author of `rust_authors`, the posts of the data set that
/// the author wrote. `authors` holds the author of every post of the data
/// set; entry `j` of the result is the number of times that
/// `rust_authors[j]` stands in it, zero for an author who wrote none.
pub fn convert_author_to_popularity(authors: &[&str], rust_authors: &[&str]) -> (freqs: Vec<usize>)
    ensures
        freqs@.len() == rust_authors@.len(),
        forall|j: int|
            0 <= j < rust_authors@.len() ==> #[trigger] freqs@[j] == occurrences(
                authors.deep_view(),
                rust_authors@[j]@,
            ),
        forall|j: int|
            0 <= j < rust_authors@.len() && !authors.deep_view().contains(rust_authors@[j]@)
                ==> #[trigger] freqs@[j] == 0,
{
    let auth_count = words_to_doc(authors);
    let mut freqs: Vec<usize> = Vec::with_capacity(rust_authors.len());
    let mut j: usize = 0;
    while j < rust_authors.len()
        invariant
            j <= rust_authors@.len(),
            freqs@.len() == j,
            is_document_of(auth_count.deep_view(), authors.deep_view()),
            forall|k: int|
                0 <= k < j ==> #[trigger] freqs@[k] == occurrences(
                    authors.deep_view(),
                    rust_authors@[k]@,
                ),
        decreases rust_authors@.len() - j,
    {
        let author_freq: usize = term_frequency(&auth_count, rust_authors[j]);
        proof {
            lemma_document_counts(
                auth_count.deep_view(),
                authors.deep_view(),
                rust_authors@[j as int]@,
            );
        }
        freqs.push(author_freq);
        j = j + 1;
    }
    proof {
        assert forall|j: int|
            0 <= j < rust_authors@.len() && !authors.deep_view().contains(
                rust_authors@[j]@,
            ) implies #[trigger] freqs@[j] == 0 by {
            lemma_occurrences_zero(authors.deep_view(), rust_authors@[j]@);
        }
    }
    freqs
}

/// Builds the document of every text. A text is given by its words, in
/// order; document `i` of the result is that of text `i`.
pub fn text_to_docs(texts: &[Vec<String>]) -> (docs: Vec<Vec<(String, usize)>>)
    ensures
        docs@.len() == texts@.len(),
        forall|i: int|
            0 <= i < texts@.len() ==> is_document_of(
                (#[trigger] docs@[i]).deep_view(),
                texts@[i].deep_view(),
            ),
{
    let mut docs: Vec<Vec<(String, usize)>> = Vec::with_capacity(texts.len());
    let mut i: usize = 0;
    while i < texts.len()
        invariant
            i <= texts@.len(),
            docs@.len() == i,
            forall|r: int|
                0 <= r < i ==> is_document_of(
                    (#[trigger] docs@[r]).deep_view(),
                    texts@[r].deep_view(),
                ),
        decreases texts@.len() - i,
    {
        let words = borrow_words(texts[i].as_slice());
        docs.push(words_to_doc(words.as_slice()));
        i = i + 1;
    }
    docs
}

/// Builds the TF-IDF matrix of the texts to score: row `i` belongs to
/// `self_texts[i]`, column `j` to `words[j]`, and the cell holds the result of
/// `score` on that word, the document of that text and the whole corpus
/// `docs`. A text to score is given by its document. The corpus is the
/// background against which a word is rare or common; it may hold more
/// documents than there are texts to score, and it decides nothing about the
/// number of rows. Neither the texts nor the words are reordered.
pub fn tfidf_reduce_selftext<S, F: Fn(&str, &Vec<(&str, usize)>, &Vec<Vec<(&str, usize)>>) -> S>(
    self_texts: &[Vec<(String, usize)>],
    words: &[&str],
    docs: &[Vec<(String, usize)>],
    score: F,
) -> (matrix: Vec<Vec<S>>)
    requires
        can_score(score, words.deep_view(), self_texts.deep_view(), docs.deep_view()),
    ensures
        matrix@.len() == self_texts@.len(),
        forall|i: int| 0 <= i < self_texts@.len() ==> (#[trigger] matrix@[i])@.len() == words@.len(),
        is_score_matrix(
            score,
            words.deep_view(),
            self_texts.deep_view(),
            docs.deep_view(),
            matrix@,
        ),
{
    let scored = borrow_docs(self_texts);
    let corpus = borrow_docs(docs);
    let mut matrix: Vec<Vec<S>> = Vec::with_capacity(scored.len());
    let mut i: usize = 0;
    proof {
        assert(scored.deep_view().len() == scored@.len());
        assert(self_texts.deep_view().len() == self_texts@.len());
        assert(words.deep_view().len() == words@.len());
    }
    while i < scored.len()
        invariant
            i <= scored@.len(),
            scored@.len() == self_texts@.len(),
            words.deep_view().len() == words@.len(),
            scored.deep_view() == self_texts.deep_view(),
            corpus.deep_view() == docs.deep_view(),
            can_score(score, words.deep_view(), scored.deep_view(), corpus.deep_view()),
            matrix@.len() == i,
            forall|r: int|
                0 <= r < i ==> is_score_row(
                    score,
                    words.deep_view(),
                    scored.deep_view()[r],
                    corpus.deep_view(),
                    (#[trigger] matrix@[r])@,
                ),
        decreases scored@.len() - i,
    {
        proof {
            assert(scored.deep_view()[i as int] == scored@[i as int].deep_view());
        }
        let row = tfidf_row(words, &scored[i], &corpus, &score);
        matrix.push(row);
        i = i + 1;
    }
    matrix
}

/// Counts, for every text and every symbol of `symbols`, the characters of
/// the text that are that symbol. Row `i` of the result belongs to text `i`,
/// column `j` to `symbols[j]`.
pub fn symbol_counts_with(self_texts: &[&str], symbols: &[char]) -> (freqs: Vec<Vec<usize>>)
    ensures
        freqs@.len() == self_texts@.len(),
        forall|i: int|
            0 <= i < self_texts@.len() ==> (#[trigger] freqs@[i])@.len() == symbols@.len(),
        forall|i: int, j: int|
            0 <= i < self_texts@.len() && 0 <= j < symbols@.len() ==> #[trigger] freqs@[i]@[j]
                == occurrences(self_texts@[i]@, symbols@[j]),
{
    let mut freqs: Vec<Vec<usize>> = Vec::with_capacity(self_texts.len());
    let mut i: usize = 0;
    while i < self_texts.len()
        invariant
            i <= self_texts@.len(),
            freqs@.len() == i,
            forall|r: int| 0 <= r < i ==> (#[trigger] freqs@[r])@.len() == symbols@.len(),
            forall|r: int, j: int|
                0 <= r < i && 0 <= j < symbols@.len() ==> #[trigger] freqs@[r]@[j] == occurrences(
                    self_texts@[r]@,
                    symbols@[j],
                ),
        decreases self_texts@.len() - i,
    {
        freqs.push(char_counts(self_texts[i], symbols));
        i = i + 1;
    }
    freqs
}

/// Counts, for every text, the characters that are each of the symbols of
/// `SYMBOLS`. Row `i` of the result belongs to text `i`, column `j` to
/// `SYMBOLS[j]`.
pub fn symbol_counts(self_texts: &[&str]) -> (freqs: Vec<Vec<usize>>)
    ensures
        freqs@.len() == self_texts@.len(),
        forall|i: int| 0 <= i < self_texts@.len() ==> (#[trigger] freqs@[i])@.len() == 27,
        forall|i: int, j: int|
            0 <= i < self_texts@.len() && 0 <= j < 27 ==> #[trigger] freqs@[i]@[j] == occurrences(
                self_texts@[i]@,
                SYMBOLS@[j],
            ),
{
    let symbols = SYMBOLS;
    symbol_counts_with(self_texts, symbols.as_slice())
}

/// The count that `doc` gives for each word of `wanted`, in the order of
/// `wanted`.
pub fn counts_of_words(doc: &Vec<(String, usize)>, wanted: &[String]) -> (counts: Vec<usize>)
    ensures
        counts@.len() == wanted@.len(),
        forall|j: int|
            0 <= j < wanted@.len() ==> #[trigger] counts@[j] == term_count(
                doc.deep_view(),
                wanted@[j]@,
            ),
{
    let mut counts: Vec<usize> = Vec::with_capacity(wanted.len());
    let mut j: usize = 0;
    while j < wanted.len()
        invariant
            j <= wanted@.len(),
            counts@.len() == j,
            forall|k: int|
                0 <= k < j ==> #[trigger] counts@[k] == term_count(doc.deep_view(), wanted@[k]@),
        decreases wanted@.len() - j,
    {
        counts.push(term_frequency(doc, wanted[j].as_str()));
        j = j + 1;
    }
    counts
}

/// Counts, for every text and every word of interest, how often the word
/// occurs among the words of the text. A text is given by its words, in
/// order; row `i` of the result belongs to text `i`, column `j` to
/// `spec_words[j]`.
pub fn interesting_word_freq(text_words: &[Vec<String>], spec_words: &[String]) -> (freqs: Vec<
    Vec<usize>,
>)
    ensures
        freqs@.len() == text_words@.len(),
        forall|i: int|
            0 <= i < text_words@.len() ==> (#[trigger] freqs@[i])@.len() == spec_words@.len(),
        forall|i: int, j: int|
            0 <= i < text_words@.len() && 0 <= j < spec_words@.len() ==> #[trigger] freqs@[i]@[j]
                == occurrences(text_words@[i].deep_view(), spec_words@[j]@),
{
    let mut freqs: Vec<Vec<usize>> = Vec::with_capacity(text_words.len());
    let mut i: usize = 0;
    while i < text_words.len()
        invariant
            i <= text_words@.len(),
            freqs@.len() == i,
            forall|r: int| 0 <= r < i ==> (#[trigger] freqs@[r])@.len() == spec_words@.len(),
            forall|r: int, j: int|
                0 <= r < i && 0 <= j < spec_words@.len() ==> #[trigger] freqs@[r]@[j]
                    == occurrences(text_words@[r].deep_view(), spec_words@[j]@),
        decreases text_words@.len() - i,
    {
        let words = borrow_words(text_words[i].as_slice());
        let doc = words_to_doc(words.as_slice());
        let row = counts_of_words(&doc, spec_words);
        proof {
            let text = text_words@[i as int].deep_view();
            assert(words.deep_view() == text);
            assert forall|j: int| 0 <= j < spec_words@.len() implies #[trigger] row@[j]
                == occurrences(text, spec_words@[j]@) by {
                lemma_document_counts(doc.deep_view(), text, spec_words@[j]@);
            }
        }
        freqs.push(row);
        i = i + 1;
    }
    freqs
}

/// `ids` numbers the categories of `subs` in the order of their first
/// appearance: entry `i` is the place of `subs[i]` among the distinct
/// categories.
pub open spec fn is_ordinal_encoding(subs: Seq<Seq<char>>, ids: Seq<usize>) -> bool {
    &&& ids.len() == subs.len()
    &&& forall|i: int|
        0 <= i < subs.len() ==> (#[trigger] ids[i]) < distinct(subs).len() && distinct(
            subs,
        )[ids[i] as int] == subs[i]
}

/// Two places hold the same category exactly when they have the same number.
pub proof fn lemma_ordinal_same_category(subs: Seq<Seq<char>>, ids: Seq<usize>, i: int, j: int)
    requires
        is_ordinal_encoding(subs, ids),
        0 <= i < subs.len(),
        0 <= j < subs.len(),
    ensures
        subs[i] == subs[j] <==> ids[i] == ids[j],
{
    lemma_distinct_no_duplicates(subs);
}

/// A category that stands at `i` and at no earlier place has, as its number,
/// the number of distinct categories before `i`.
pub proof fn lemma_ordinal_first_seen(subs: Seq<Seq<char>>, ids: Seq<usize>, i: int)
    requires
        is_ordinal_encoding(subs, ids),
        0 <= i < subs.len(),
        !subs.take(i).contains(subs[i]),
    ensures
        ids[i] == distinct(subs.take(i)).len(),
{
    let before = distinct(subs.take(i));
    lemma_distinct_no_duplicates(subs);
    lemma_distinct_prefix(subs, i + 1);
    lemma_distinct_contains(subs.take(i), subs[i]);
    assert(subs.take(i + 1).drop_last() =~= subs.take(i));
    assert(subs.take(i + 1).last() == subs[i]);
    assert(distinct(subs.take(i + 1)) == before.push(subs[i]));
    assert(distinct(subs)[before.len() as int] == before.push(subs[i])[before.len() as int]);
}

/// Gives each category a number: the first category gets 0, and each
/// category not seen before gets the next number. Entry `i` of the result is
/// the number of `subs[i]`.
pub fn subs_to_float(subs: &[&str]) -> (sub_floats: Vec<usize>)
    ensures
        is_ordinal_encoding(subs.deep_view(), sub_floats@),
        forall|i: int, j: int|
            0 <= i < subs@.len() && 0 <= j < subs@.len() ==> (subs@[i]@ == subs@[j]@
                <==> #[trigger] sub_floats@[i] == #[trigger] sub_floats@[j]),
        forall|i: int|
            0 <= i < subs@.len() && !subs.deep_view().take(i).contains(subs@[i]@)
                ==> #[trigger] sub_floats@[i] == distinct(subs.deep_view().take(i)).len(),
{
    let ghost all = subs.deep_view();
    let mut seen: Vec<&str> = Vec::new();
    let mut sub_floats: Vec<usize> = Vec::with_capacity(subs.len());
    let mut i: usize = 0;
    proof {
        assert(all.take(0) =~= Seq::<Seq<char>>::empty());
        assert(seen.deep_view() =~= distinct(all.take(0)));
    }
    while i < subs.len()
        invariant
            i <= subs@.len(),
            all == subs.deep_view(),
            seen.deep_view() == distinct(all.take(i as int)),
            sub_floats@.len() == i,
            forall|r: int|
                0 <= r < i ==> (#[trigger] sub_floats@[r]) < seen@.len() && seen@[sub_floats@[r] as int]@
                    == all[r],
        decreases subs@.len() - i,
    {
        let sub: &str = subs[i];
        let ghost before = seen.deep_view();
        let ghost held = seen@;
        proof {
            assert(all[i as int] == sub@);
            assert(all.take(i + 1).drop_last() =~= all.take(i as int));
            assert(all.take(i + 1).last() == sub@);
        }
        let f: usize = match position_of(&seen, sub) {
            Some(k) => {
                proof {
                    assert(before[k as int] == sub@);
                    assert(before.contains(sub@));
                }
                k
            },
            None => {
                proof {
                    assert forall|j: int| 0 <= j < before.len() implies before[j] != sub@ by {
                        assert(before[j] == held[j]@);
                    }
                    assert(!before.contains(sub@));
                }
                let c: usize = seen.len();
                seen.push(sub);
                proof {
                    assert(seen.deep_view() =~= before.push(sub@));
                    assert forall|r: int| 0 <= r < i implies seen@[sub_floats@[r] as int]@
                        == all[r] by {
                        assert(seen@[sub_floats@[r] as int] == held[sub_floats@[r] as int]);
                    }
                }
                c
            },
        };
        sub_floats.push(f);
        i = i + 1;
    }
    proof {
        assert(all.take(i as int) =~= all);
        assert forall|r: int| 0 <= r < all.len() implies (#[trigger] sub_floats@[r]) < distinct(
            all,
        ).len() && distinct(all)[sub_floats@[r] as int] == all[r] by {
            assert(seen.deep_view()[sub_floats@[r] as int] == seen@[sub_floats@[r] as int]@);
        }
        assert forall|i: int, j: int| 0 <= i < subs@.len() && 0 <= j < subs@.len() implies (
        subs@[i]@ == subs@[j]@ <==> #[trigger] sub_floats@[i] == #[trigger] sub_floats@[j]) by {
            lemma_ordinal_same_category(all, sub_floats@, i, j);
        }
        assert forall|i: int|
            0 <= i < subs@.len() && !all.take(i).contains(
                subs@[i]@,
            ) implies #[trigger] sub_floats@[i] == distinct(all.take(i)).len() by {
            lemma_ordinal_first_seen(all, sub_floats@, i);
        }
    }
    sub_floats
}

} // verus!
