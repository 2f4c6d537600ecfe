//! The TF-IDF matrix: one row for each text to score, one column for each
//! word of the vocabulary. The score of a cell is computed by a scoring
//! function that the caller supplies, from the word, the document of the text
//! and the documents of the whole corpus; this module fixes what the function
//! is applied to and where its result goes.

use vstd::prelude::*;
use crate::document::{DocModel, Word};

verus! {

/// `value` is a score that `score` gives for `word` in `doc` against `corpus`:
/// a result of a call of the function on arguments that hold these words and
/// counts.
pub open spec fn is_score_of<S, F: Fn(&str, &Vec<(&str, usize)>, &Vec<Vec<(&str, usize)>>) -> S>(
    score: F,
    word: Word,
    doc: DocModel,
    corpus: Seq<DocModel>,
    value: S,
) -> bool {
    exists|w: &str, d: &Vec<(&str, usize)>, ds: &Vec<Vec<(&str, usize)>>|
        w@ == word && d.deep_view() == doc && ds.deep_view() == corpus && #[trigger] score.ensures(
            (w, d, ds),
            value,
        )
}

/// `score` can be called on each word of `words` with the document `doc`
/// and the corpus `corpus`.
pub open spec fn can_score_row<S, F: Fn(&str, &Vec<(&str, usize)>, &Vec<Vec<(&str, usize)>>) -> S>(
    score: F,
    words: Seq<Word>,
    doc: DocModel,
    corpus: Seq<DocModel>,
) -> bool {
    forall|w: &str, d: &Vec<(&str, usize)>, ds: &Vec<Vec<(&str, usize)>>|
        words.contains(w@) && d.deep_view() == doc && ds.deep_view() == corpus
            ==> #[trigger] score.requires((w, d, ds))
}

/// `score` can be called on each word of `words` with each document of
/// `scored` and the corpus `corpus`.
pub open spec fn can_score<S, F: Fn(&str, &Vec<(&str, usize)>, &Vec<Vec<(&str, usize)>>) -> S>(
    score: F,
    words: Seq<Word>,
    scored: Seq<DocModel>,
    corpus: Seq<DocModel>,
) -> bool {
    forall|i: int| 0 <= i < scored.len() ==> can_score_row(score, words, #[trigger] scored[i], corpus)
}

/// `row` holds, for each word of `words` in order, a score of the word in
/// `doc` against `corpus`.
pub open spec fn is_score_row<S, F: Fn(&str, &Vec<(&str, usize)>, &Vec<Vec<(&str, usize)>>) -> S>(
    score: F,
    words: Seq<Word>,
    doc: DocModel,
    corpus: Seq<DocModel>,
    row: Seq<S>,
) -> bool {
    &&& row.len() == words.len()
    &&& forall|j: int|
        0 <= j < words.len() ==> is_score_of(score, words[j], doc, corpus, #[trigger] row[j])
}

/// `matrix` holds, for each document of `scored` in order, the row of the
/// scores of that document against `corpus`.
pub open spec fn is_score_matrix<
    S,
    F: Fn(&str, &Vec<(&str, usize)>, &Vec<Vec<(&str, usize)>>) -> S,
>(
    score: F,
    words: Seq<Word>,
    scored: Seq<DocModel>,
    corpus: Seq<DocModel>,
    matrix: Seq<Vec<S>>,
) -> bool {
    &&& matrix.len() == scored.len()
    &&& forall|i: int|
        0 <= i < scored.len() ==> is_score_row(score, words, scored[i], corpus, (#[trigger] matrix[i])@)
}

/// The cells of a matrix, row by row.
pub open spec fn matrix_cells<S>(matrix: Seq<Vec<S>>) -> Seq<Seq<S>> {
    Seq::new(matrix.len(), |i: int| matrix[i]@)
}

/// A document with its words borrowed.
pub fn borrow_doc<'a>(doc: &'a Vec<(String, usize)>) -> (borrowed: Vec<(&'a str, usize)>)
    ensures
        borrowed.deep_view() == doc.deep_view(),
{
    let mut borrowed: Vec<(&'a str, usize)> = Vec::with_capacity(doc.len());
    let mut k: usize = 0;
    while k < doc.len()
        invariant
            k <= doc@.len(),
            borrowed@.len() == k,
            forall|j: int|
                0 <= j < k ==> (#[trigger] borrowed@[j]).0@ == doc@[j].0@ && borrowed@[j].1
                    == doc@[j].1,
        decreases doc@.len() - k,
    {
        borrowed.push((doc[k].0.as_str(), doc[k].1));
        k = k + 1;
    }
    proof {
        assert(borrowed.deep_view() =~= doc.deep_view());
    }
    borrowed
}

/// The documents of a corpus with their words borrowed.
pub fn borrow_docs<'a>(docs: &'a [Vec<(String, usize)>]) -> (borrowed: Vec<Vec<(&'a str, usize)>>)
    ensures
        borrowed.deep_view() == docs.deep_view(),
{
    let mut borrowed: Vec<Vec<(&'a str, usize)>> = Vec::with_capacity(docs.len());
    let mut i: usize = 0;
    while i < docs.len()
        invariant
            i <= docs@.len(),
            borrowed@.len() == i,
            forall|r: int| 0 <= r < i ==> (#[trigger] borrowed@[r]).deep_view() == docs@[r].deep_view(),
        decreases docs@.len() - i,
    {
        borrowed.push(borrow_doc(&docs[i]));
        i = i + 1;
    }
    proof {
        assert(borrowed.deep_view() =~= docs.deep_view());
    }
    borrowed
}

/// Scores every word of the vocabulary in one document: column `j` of the
/// row is the result of `score` on `words[j]`, `doc` and `corpus`. The rows
/// of a matrix do not depend on each other, so that they can be computed in
/// any order or side by side.
pub fn tfidf_row<S, F: Fn(&str, &Vec<(&str, usize)>, &Vec<Vec<(&str, usize)>>) -> S>(
    words: &[&str],
    doc: &Vec<(&str, usize)>,
    corpus: &Vec<Vec<(&str, usize)>>,
    score: &F,
) -> (row: Vec<S>)
    requires
        can_score_row(*score, words.deep_view(), doc.deep_view(), corpus.deep_view()),
    ensures
        is_score_row(*score, words.deep_view(), doc.deep_view(), corpus.deep_view(), row@),
{
    let mut row: Vec<S> = Vec::with_capacity(words.len());
    let mut j: usize = 0;
    while j < words.len()
        invariant
            j <= words@.len(),
            row@.len() == j,
            can_score_row(*score, words.deep_view(), doc.deep_view(), corpus.deep_view()),
            forall|k: int|
                0 <= k < j ==> is_score_of(
                    *score,
                    words@[k]@,
                    doc.deep_view(),
                    corpus.deep_view(),
                    #[trigger] row@[k],
                ),
        decreases words@.len() - j,
    {
        proof {
            assert(words.deep_view()[j as int] == words@[j as int]@);
            assert(words.deep_view().contains(words@[j as int]@));
        }
        let value = score(words[j], doc, corpus);
        proof {
            assert(score.ensures((words@[j as int], doc, corpus), value));
        }
        row.push(value);
        j = j + 1;
    }
    row
}

/// Two rows of scores for the same words, document and corpus are the same
/// row, where the scoring function gives one score for one word, document
/// and corpus.
pub proof fn lemma_score_row_unique<
    S,
    F: Fn(&str, &Vec<(&str, usize)>, &Vec<Vec<(&str, usize)>>) -> S,
>(score: F, words: Seq<Word>, doc: DocModel, corpus: Seq<DocModel>, a: Seq<S>, b: Seq<S>)
    requires
        is_score_row(score, words, doc, corpus, a),
        is_score_row(score, words, doc, corpus, b),
        forall|w: Word, d: DocModel, ds: Seq<DocModel>, x: S, y: S|
            is_score_of(score, w, d, ds, x) && is_score_of(score, w, d, ds, y) ==> x == y,
    ensures
        a == b,
{
    assert forall|j: int| 0 <= j < a.len() implies a[j] == b[j] by {
        assert(is_score_of(score, words[j], doc, corpus, a[j]));
        assert(is_score_of(score, words[j], doc, corpus, b[j]));
    }
    assert(a =~= b);
}

/// Two matrices of scores for the same vocabulary and the same documents to
/// score have the same shape: as many rows as documents to score, and in
/// every row as many cells as words. This holds of every scoring function.
pub proof fn lemma_score_matrix_same_shape<
    S,
    F: Fn(&str, &Vec<(&str, usize)>, &Vec<Vec<(&str, usize)>>) -> S,
>(
    score: F,
    words: Seq<Word>,
    scored: Seq<DocModel>,
    corpus: Seq<DocModel>,
    a: Seq<Vec<S>>,
    b: Seq<Vec<S>>,
)
    requires
        is_score_matrix(score, words, scored, corpus, a),
        is_score_matrix(score, words, scored, corpus, b),
    ensures
        a.len() == scored.len(),
        b.len() == scored.len(),
        forall|i: int|
            0 <= i < scored.len() ==> (#[trigger] a[i])@.len() == words.len() && b[i]@.len()
                == words.len(),
{
    assert forall|i: int| 0 <= i < scored.len() implies (#[trigger] a[i])@.len() == words.len()
        && b[i]@.len() == words.len() by {
        assert(is_score_row(score, words, scored[i], corpus, a[i]@));
        assert(is_score_row(score, words, scored[i], corpus, b[i]@));
    }
}

/// Scoring is repeatable: two matrices of scores for the same vocabulary,
/// the same documents to score and the same corpus, in the same order, hold
/// the same cells, where the scoring function gives one score for one word,
/// document and corpus.
pub proof fn lemma_score_matrix_unique<
    S,
    F: Fn(&str, &Vec<(&str, usize)>, &Vec<Vec<(&str, usize)>>) -> S,
>(
    score: F,
    words: Seq<Word>,
    scored: Seq<DocModel>,
    corpus: Seq<DocModel>,
    a: Seq<Vec<S>>,
    b: Seq<Vec<S>>,
)
    requires
        is_score_matrix(score, words, scored, corpus, a),
        is_score_matrix(score, words, scored, corpus, b),
        forall|w: Word, d: DocModel, ds: Seq<DocModel>, x: S, y: S|
            is_score_of(score, w, d, ds, x) && is_score_of(score, w, d, ds, y) ==> x == y,
    ensures
        matrix_cells(a) == matrix_cells(b),
{
    assert forall|i: int| 0 <= i < a.len() implies a[i]@ == b[i]@ by {
        lemma_score_row_unique(score, words, scored[i], corpus, a[i]@, b[i]@);
    }
    assert(matrix_cells(a) =~= matrix_cells(b));
}

} // verus!
