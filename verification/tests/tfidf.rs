use playrust_alert::feature_extraction::{symbol_counts, text_to_docs, tfidf_reduce_selftext};
use playrust_alert::reddit::{dedup_by_title, RawPostFeatures};
use playrust_alert::tfidf_matrix::{borrow_doc, borrow_docs, tfidf_row};
use playrust_alert::vocabulary::vocabulary;
use tfidf::{TfIdf, TfIdfDefault};

fn words(text: &str) -> Vec<String> {
    text.split_whitespace().map(String::from).collect()
}

fn score(word: &str, doc: &Vec<(&str, usize)>, corpus: &Vec<Vec<(&str, usize)>>) -> f64 {
    TfIdfDefault::tfidf(word, doc, corpus.iter())
}

fn label(word: &str, doc: &Vec<(&str, usize)>, corpus: &Vec<Vec<(&str, usize)>>) -> String {
    format!("{}|{:?}|{}", word, doc, corpus.len())
}

fn bits(matrix: &Vec<Vec<f64>>) -> Vec<Vec<u64>> {
    matrix.iter().map(|row| row.iter().map(|x| x.to_bits()).collect()).collect()
}

fn corpus() -> Vec<Vec<(String, usize)>> {
    text_to_docs(&[words("a a a b b c c c c"), words("a a d d d d d")])
}

#[test]
fn matrix_has_a_row_for_each_text_and_a_column_for_each_word() {
    let docs = corpus();
    let matrix = tfidf_reduce_selftext(&docs, &["a", "b", "c", "d", "e"], &docs, score);
    assert_eq!(matrix.len(), 2);
    assert_eq!(matrix[0].len(), 5);
    assert_eq!(matrix[1].len(), 5);
}

#[test]
fn matrix_cells_are_the_scores_of_word_document_and_corpus() {
    let docs = corpus();
    let matrix = tfidf_reduce_selftext(&docs, &["c", "a"], &docs, label);
    let first = "[(\"a\", 3), (\"b\", 2), (\"c\", 4)]";
    let second = "[(\"a\", 2), (\"d\", 5)]";
    assert_eq!(
        matrix,
        vec![
            vec![format!("c|{}|2", first), format!("a|{}|2", first)],
            vec![format!("c|{}|2", second), format!("a|{}|2", second)],
        ]
    );
}

#[test]
fn matrix_scores_use_the_formula_of_the_scoring_function() {
    let docs = corpus();
    let matrix = tfidf_reduce_selftext(&docs, &["a", "c"], &docs, score);
    assert_eq!(matrix[0][0], 0f64);
    assert_eq!(matrix[1][0], 0f64);
    let expected = (0.5f64 + 0.5f64 * (4f64 / 4f64)) * (2f64 / 1f64).ln();
    assert!((matrix[0][1] - expected).abs() < 1e-12);
    assert!(matrix[0][1] > 0.5);
}

#[test]
fn matrix_is_the_same_on_a_second_run() {
    let docs = corpus();
    let vocab = ["d", "a", "c", "b"];
    let first = tfidf_reduce_selftext(&docs, &vocab, &docs, score);
    let second = tfidf_reduce_selftext(&docs, &vocab, &docs, score);
    assert_eq!(bits(&first), bits(&second));
}

#[test]
fn scores_are_not_negative() {
    let docs = text_to_docs(&[words("a b b c"), words("a c c d"), words("a e")]);
    let vocab = vocabulary(&[words("a b b c"), words("a c c d"), words("a e")]);
    let vocab: Vec<&str> = vocab.iter().map(|w| w.as_str()).collect();
    let matrix = tfidf_reduce_selftext(&docs, &vocab, &docs, score);
    for row in &matrix {
        for cell in row {
            assert!(*cell >= 0f64);
        }
    }
}

#[test]
fn a_word_of_every_document_scores_no_more_than_a_word_of_one() {
    let docs = text_to_docs(&[words("a b"), words("a c"), words("a d")]);
    let matrix = tfidf_reduce_selftext(&docs, &["a", "b"], &docs, score);
    assert!(matrix[0][0] <= matrix[0][1]);
    assert_eq!(matrix[0][0], 0f64);
}

#[test]
fn a_word_absent_from_a_document_has_term_frequency_zero() {
    let docs = text_to_docs(&[words("a b"), words("c")]);
    let raw = |word: &str, doc: &Vec<(&str, usize)>, _: &Vec<Vec<(&str, usize)>>| -> usize {
        doc.iter().find(|p| p.0 == word).map(|p| p.1).unwrap_or(0)
    };
    let matrix = tfidf_reduce_selftext(&docs, &["a", "c"], &docs, raw);
    assert_eq!(matrix, vec![vec![1, 0], vec![0, 1]]);
}

#[test]
fn matrix_of_no_texts_and_no_corpus_has_no_rows() {
    let docs: Vec<Vec<(String, usize)>> = Vec::new();
    let matrix = tfidf_reduce_selftext(&docs, &["a"], &docs, score);
    assert!(matrix.is_empty());
}

#[test]
fn matrix_of_no_texts_has_no_rows_whatever_the_corpus() {
    let none: Vec<Vec<(String, usize)>> = Vec::new();
    let docs = corpus();
    let matrix = tfidf_reduce_selftext(&none, &["a", "b"], &docs, score);
    assert!(matrix.is_empty());
}

#[test]
fn matrix_with_no_words_has_empty_rows() {
    let docs = corpus();
    let none: [&str; 0] = [];
    let matrix = tfidf_reduce_selftext(&docs, &none, &docs, score);
    assert_eq!(matrix, vec![Vec::<f64>::new(), Vec::new()]);
}

#[test]
fn matrix_rows_follow_the_texts_to_score_and_not_the_corpus() {
    let docs = text_to_docs(&[words("a b"), words("a c"), words("a d"), words("e")]);
    let scored = text_to_docs(&[words("a c")]);
    let matrix = tfidf_reduce_selftext(&scored, &["a", "c", "e"], &docs, label);
    assert_eq!(
        matrix,
        vec![vec![
            String::from("a|[(\"a\", 1), (\"c\", 1)]|4"),
            String::from("c|[(\"a\", 1), (\"c\", 1)]|4"),
            String::from("e|[(\"a\", 1), (\"c\", 1)]|4"),
        ]]
    );
}

#[test]
fn matrix_scores_a_text_against_a_larger_corpus() {
    let docs = text_to_docs(&[words("a b"), words("a c"), words("a d"), words("e")]);
    let scored = text_to_docs(&[words("a b"), words("a c")]);
    let matrix = tfidf_reduce_selftext(&scored, &["a", "b"], &docs, score);
    assert_eq!(matrix.len(), 2);
    let of_a = (0.5f64 + 0.5f64 * (1f64 / 1f64)) * (4f64 / 3f64).ln();
    let of_b = (0.5f64 + 0.5f64 * (1f64 / 1f64)) * (4f64 / 1f64).ln();
    assert!((matrix[0][0] - of_a).abs() < 1e-12);
    assert!((matrix[0][1] - of_b).abs() < 1e-12);
    assert!((matrix[1][0] - of_a).abs() < 1e-12);
    assert!((matrix[1][1] - 0.5f64 * (4f64 / 1f64).ln()).abs() < 1e-12);
}

#[test]
fn matrix_scores_texts_that_outnumber_the_corpus() {
    let docs = text_to_docs(&[words("a b")]);
    let scored = text_to_docs(&[words("a"), words("b"), words("c")]);
    let matrix = tfidf_reduce_selftext(&scored, &["a"], &docs, label);
    assert_eq!(matrix.len(), 3);
    assert_eq!(matrix[2], vec![String::from("a|[(\"c\", 1)]|1")]);
}

#[test]
fn row_scores_each_word_in_order() {
    let docs = corpus();
    let borrowed = borrow_docs(&docs);
    let row = tfidf_row(&["c", "zzz", "a"], &borrowed[0], &borrowed, &label);
    let first = "[(\"a\", 3), (\"b\", 2), (\"c\", 4)]";
    assert_eq!(
        row,
        vec![format!("c|{}|2", first), format!("zzz|{}|2", first), format!("a|{}|2", first)]
    );
}

#[test]
fn borrowed_documents_hold_the_same_words_and_counts() {
    let docs = corpus();
    assert_eq!(borrow_doc(&docs[1]), vec![("a", 2), ("d", 5)]);
    assert_eq!(
        borrow_docs(&docs),
        vec![vec![("a", 3), ("b", 2), ("c", 4)], vec![("a", 2), ("d", 5)]]
    );
}

#[test]
fn from_raw_posts_to_matrices() {
    let raw = |title: &str, body: &str| RawPostFeatures {
        is_self: true,
        author: String::from("someone"),
        selftext: String::from(body),
        subreddit: String::from("rust"),
        title: String::from(title),
    };
    let posts = vec![raw("A", "fn f() {}"), raw("A", "fn g() {}"), raw("B", "plain text;")];
    let kept = dedup_by_title(posts);
    assert_eq!(kept.len(), 2);
    assert_eq!(kept[0].title, "A");
    assert_eq!(kept[1].title, "B");

    let bodies: Vec<&str> = kept.iter().map(|p| p.selftext.as_str()).collect();
    let symbols = symbol_counts(&bodies);
    assert_eq!(symbols.len(), 2);
    assert_eq!(symbols[0][0], 1);
    assert_eq!(symbols[1][0], 0);
    assert_eq!(symbols[1][6], 1);

    let tokens: Vec<Vec<String>> = bodies.iter().map(|b| words(b)).collect();
    let docs = text_to_docs(&tokens);
    let vocab = vocabulary(&tokens);
    let vocab: Vec<&str> = vocab.iter().map(|w| w.as_str()).collect();
    let matrix = tfidf_reduce_selftext(&docs, &vocab, &docs, score);
    assert_eq!(matrix.len(), 2);
    assert_eq!(matrix[0].len(), vocab.len());
    assert_eq!(matrix[1].len(), vocab.len());
    let plain = vocab.iter().position(|w| *w == "plain").unwrap();
    assert!(matrix[1][plain] > 0f64);
    assert!(matrix[0][plain] < matrix[1][plain]);
}
