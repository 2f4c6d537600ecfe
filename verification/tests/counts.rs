use playrust_alert::document::{find_word, term_frequency, words_to_doc};
use playrust_alert::feature_extraction::{
    interesting_word_freq, symbol_counts, symbol_counts_with, text_to_docs,
};
use playrust_alert::symbols::{char_counts, char_map, SYMBOLS};
use playrust_alert::text::{borrow_words, char_len_bound};
use playrust_alert::vocabulary::{distinct_words, position_of, vocabulary, word_freqs};

fn words(text: &str) -> Vec<String> {
    text.split_whitespace().map(String::from).collect()
}

fn pair(word: &str, count: usize) -> (String, usize) {
    (String::from(word), count)
}

#[test]
fn symbol_counts_of_brackets() {
    let freqs = symbol_counts_with(&["a(b)c(d)"], &['(', ')']);
    assert_eq!(freqs, vec![vec![2, 2]]);
}

#[test]
fn symbol_counts_count_repeats_and_not_presence() {
    let freqs = symbol_counts_with(&["!!!?", "", "?"], &['!', '?', '.']);
    assert_eq!(freqs, vec![vec![3, 1, 0], vec![0, 0, 0], vec![0, 1, 0]]);
}

#[test]
fn symbol_counts_are_case_sensitive() {
    assert_eq!(symbol_counts_with(&["aAaA a"], &['a', 'A']), vec![vec![3, 2]]);
}

#[test]
fn symbol_counts_take_characters_one_by_one() {
    assert_eq!(symbol_counts_with(&["a->b => c"], &['-', '>', '=']), vec![vec![1, 2, 1]]);
}

#[test]
fn symbol_counts_see_characters_of_several_bytes() {
    assert_eq!(symbol_counts_with(&["\u{e9}t\u{e9} \u{4e2d}"], &['\u{e9}', 't', '\u{4e2d}']), vec![vec![2, 1, 1]]);
}

#[test]
fn symbol_counts_with_an_empty_alphabet_give_empty_rows() {
    let none: [char; 0] = [];
    assert_eq!(symbol_counts_with(&["abc", "def"], &none), vec![Vec::<usize>::new(), Vec::new()]);
}

#[test]
fn symbol_counts_of_no_texts_are_empty() {
    let none: [&str; 0] = [];
    assert!(symbol_counts(&none).is_empty());
    assert!(symbol_counts_with(&none, &['a']).is_empty());
}

#[test]
fn symbol_counts_use_the_default_alphabet() {
    let freqs = symbol_counts(&["fn main() { let x = a[0] + b; }", "plain words"]);
    assert_eq!(freqs.len(), 2);
    assert_eq!(freqs[0].len(), 27);
    assert_eq!(freqs[1], vec![0; 27]);
    let at = |c: char| SYMBOLS.iter().position(|s| *s == c).unwrap();
    assert_eq!(freqs[0][at('{')], 1);
    assert_eq!(freqs[0][at('}')], 1);
    assert_eq!(freqs[0][at('(')], 1);
    assert_eq!(freqs[0][at(')')], 1);
    assert_eq!(freqs[0][at('[')], 1);
    assert_eq!(freqs[0][at(']')], 1);
    assert_eq!(freqs[0][at(';')], 1);
    assert_eq!(freqs[0][at('=')], 1);
    assert_eq!(freqs[0][at('+')], 1);
    assert_eq!(freqs[0][at('%')], 0);
}

#[test]
fn default_alphabet_is_the_documented_one() {
    let expected: Vec<char> = "{}()<>;.,&[]:?*=!/\\$-+|`_~%".chars().collect();
    assert_eq!(SYMBOLS.to_vec(), expected);
}

#[test]
fn char_counts_of_one_text() {
    assert_eq!(char_counts("a(b)c(d)", &['(', ')', 'a', 'z']), vec![2, 2, 1, 0]);
}

#[test]
fn char_counts_with_a_repeated_symbol() {
    assert_eq!(char_counts("x.y.z", &['.', '.']), vec![2, 2]);
}

#[test]
fn char_len_bound_is_the_byte_length() {
    assert_eq!(char_len_bound("abc"), 3);
    assert_eq!(char_len_bound("\u{e9}"), 2);
    assert!(char_len_bound("\u{4e2d}\u{6587}") >= 2);
}

#[test]
fn targeted_word_frequencies() {
    let freqs = interesting_word_freq(&[words("rust is rust")], &[String::from("rust"), String::from("go")]);
    assert_eq!(freqs, vec![vec![2, 0]]);
}

#[test]
fn targeted_word_frequencies_row_by_row() {
    let texts = vec![words("a b a c"), words(""), words("c c c")];
    let wanted = vec![String::from("c"), String::from("a"), String::from("c")];
    let freqs = interesting_word_freq(&texts, &wanted);
    assert_eq!(freqs, vec![vec![1, 2, 1], vec![0, 0, 0], vec![3, 0, 3]]);
}

#[test]
fn targeted_word_frequencies_of_no_texts_are_empty() {
    let none: Vec<Vec<String>> = Vec::new();
    assert!(interesting_word_freq(&none, &[String::from("a")]).is_empty());
}

#[test]
fn targeted_word_frequencies_with_no_words_give_empty_rows() {
    let freqs = interesting_word_freq(&[words("a b"), words("c")], &[]);
    assert_eq!(freqs, vec![Vec::<usize>::new(), Vec::new()]);
}

#[test]
fn document_lists_words_in_first_appearance_order_with_counts() {
    let doc = words_to_doc(&["b", "a", "b", "c", "b", "a"]);
    assert_eq!(doc, vec![pair("b", 3), pair("a", 2), pair("c", 1)]);
}

#[test]
fn document_of_no_words_is_empty() {
    let none: [&str; 0] = [];
    assert!(words_to_doc(&none).is_empty());
}

#[test]
fn text_to_docs_builds_one_document_for_each_text() {
    let docs = text_to_docs(&[words("x y x"), words(""), words("y")]);
    assert_eq!(docs, vec![vec![pair("x", 2), pair("y", 1)], vec![], vec![pair("y", 1)]]);
}

#[test]
fn text_to_docs_of_no_texts_is_empty() {
    let none: Vec<Vec<String>> = Vec::new();
    assert!(text_to_docs(&none).is_empty());
}

#[test]
fn term_frequency_reads_the_count_of_a_word() {
    let doc = vec![pair("a", 3), pair("b", 1)];
    assert_eq!(term_frequency(&doc, "a"), 3);
    assert_eq!(term_frequency(&doc, "b"), 1);
    assert_eq!(term_frequency(&doc, "c"), 0);
}

#[test]
fn term_frequency_goes_by_the_first_pair_of_a_word() {
    let doc = vec![pair("a", 3), pair("a", 7)];
    assert_eq!(term_frequency(&doc, "a"), 3);
}

#[test]
fn find_word_gives_the_first_place() {
    let doc = vec![pair("a", 1), pair("b", 1), pair("a", 1)];
    assert_eq!(find_word(&doc, "a"), Some(0));
    assert_eq!(find_word(&doc, "b"), Some(1));
    assert_eq!(find_word(&doc, "ab"), None);
    assert_eq!(find_word(&Vec::new(), "a"), None);
}

#[test]
fn position_of_finds_a_word_that_is_there() {
    let seen = vec!["x", "y"];
    assert_eq!(position_of(&seen, "y"), Some(1));
    assert_eq!(position_of(&seen, "z"), None);
}

#[test]
fn distinct_words_keep_first_appearances() {
    assert_eq!(distinct_words(&["b", "a", "b", "c", "a"]), vec!["b", "a", "c"]);
}

#[test]
fn borrow_words_keeps_the_words() {
    let owned = words("one two");
    assert_eq!(borrow_words(&owned), vec!["one", "two"]);
}

#[test]
fn vocabulary_is_taken_over_all_texts_together() {
    let vocab = vocabulary(&[words("b a b"), words("c a"), words(""), words("d b")]);
    assert_eq!(vocab, vec!["b", "a", "c", "d"]);
}

#[test]
fn vocabulary_has_no_duplicates() {
    let vocab = vocabulary(&[words("a a a"), words("a b a"), words("b b")]);
    assert_eq!(vocab, vec!["a", "b"]);
}

#[test]
fn vocabulary_of_no_texts_is_empty() {
    let none: Vec<Vec<String>> = Vec::new();
    assert!(vocabulary(&none).is_empty());
}

#[test]
fn word_freqs_count_the_texts_that_hold_a_word() {
    let table = word_freqs(&[words("a a b"), words("b c"), words("a b b b")]);
    assert_eq!(table, vec![pair("a", 2), pair("b", 3), pair("c", 1)]);
}

#[test]
fn word_freqs_of_no_texts_are_empty() {
    let none: Vec<Vec<String>> = Vec::new();
    assert!(word_freqs(&none).is_empty());
}

#[test]
fn char_map_counts_every_character_by_code_point() {
    let map = char_map("a(b)c(d)");
    assert_eq!(map.len(), 6);
    assert_eq!(map.get(&('(' as u32)), Some(&2));
    assert_eq!(map.get(&(')' as u32)), Some(&2));
    assert_eq!(map.get(&('a' as u32)), Some(&1));
    assert_eq!(map.get(&('z' as u32)), None);
}

#[test]
fn char_map_of_an_empty_text_is_empty() {
    assert!(char_map("").is_empty());
}
