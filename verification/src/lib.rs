//! Feature extraction for text posts, with machine-checked contracts.
//!
//! Raw posts are freed of repeats (`reddit`), and their fields are turned
//! into numeric features (`feature_extraction`): codes and counts for the
//! categorical fields, counts of symbols and of chosen words for the texts,
//! and a TF-IDF matrix over a shared vocabulary (`vocabulary`, `document`,
//! `tfidf_matrix`). Every extractor reads its input only, keeps the order of
//! its rows and columns, and gives an empty result for an empty input.
//!
//! Counts are whole numbers. The scores of the TF-IDF matrix are whatever the
//! scoring function returns that the caller supplies.

pub mod counting;
pub mod text;
pub mod document;
pub mod vocabulary;
pub mod symbols;
pub mod tfidf_matrix;
pub mod reddit;
pub mod feature_extraction;
