//! Unsupervised keyword extraction from a single text.
//!
//! The core is `yake`: the text is cut into sentences, candidate phrases
//! are gathered, the occurrences and neighbours of every term are
//! counted, and scored keywords are ranked with near-duplicates left out.
//! `tokenizer` cuts a text into words, sentences, phrases and paragraphs;
//! `co_occurrence`, `rake`, `tf_idf` and `text_rank` count what their
//! rankings are computed from. Scores are real numbers and are computed
//! outside of this library, which takes and ranks the whole numbers that
//! stand for them.

pub mod co_occurrence;
pub mod common;
pub mod rake;
pub mod simplified_yake;
pub mod text_rank;
pub mod tf_idf;
pub mod tokenizer;
pub mod yake;
