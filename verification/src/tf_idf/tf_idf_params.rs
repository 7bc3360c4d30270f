//! What documents a term-frequency analysis is made of.

use crate::common::default_punctuation_marks;
use crate::common::text::{clone_strings, views};
use crate::tf_idf::document_processor::{document_string, DocumentProcessor};
use crate::tokenizer::{paragraph_strings, phrase_strings, sentence_strings, Exclusions, Tokenizer};
use vstd::prelude::*;

verus! {

/// How a text is cut into documents.
pub enum TextSplit {
    Sentences,
    Paragraphs,
    Phrases,
}

/// Where the documents come from.
pub enum TfIdfParams<'a> {
    /// Documents as they were written, with the stop words and the
    /// punctuation if it is not that of ASCII.
    UnprocessedDocuments(&'a Vec<String>, &'a Vec<String>, Option<&'a Vec<String>>),
    /// Documents that are ready.
    ProcessedDocuments(&'a Vec<String>),
    /// A text, with the stop words, the punctuation if it is not that of
    /// ASCII, and how to cut the text.
    TextBlock(&'a str, &'a Vec<String>, Option<&'a Vec<String>>, TextSplit),
}

/// The punctuation that is meant.
pub open spec fn punctuation_or_default(punctuation: Option<&Vec<String>>) -> Seq<Seq<char>> {
    match punctuation {
        Some(p) => views(p@),
        None => default_punctuation_marks(),
    }
}

impl<'a> TfIdfParams<'a> {
    /// The documents that the parameters stand for.
    pub open spec fn documents(&self) -> Seq<Seq<char>> {
        match *self {
            TfIdfParams::UnprocessedDocuments(documents, stopwords, punctuation) => views(
                documents@,
            ).map_values(
                |d: Seq<char>|
                    document_string(d, views(stopwords@), punctuation_or_default(punctuation)),
            ),
            TfIdfParams::ProcessedDocuments(documents) => views(documents@),
            TfIdfParams::TextBlock(text, stop_words, punctuation, split) => {
                let x = Exclusions {
                    stopwords: views(stop_words@),
                    punctuation: punctuation_or_default(punctuation),
                };
                match split {
                    TextSplit::Sentences => sentence_strings(text@, x),
                    TextSplit::Paragraphs => paragraph_strings(text@, x),
                    TextSplit::Phrases => phrase_strings(text@, x, None),
                }
            },
        }
    }

    /// The documents to be analysed.
    pub fn get_documents(&self) -> (r: Vec<String>)
        ensures
            views(r@) == self.documents(),
    {
        match self {
            TfIdfParams::UnprocessedDocuments(documents, stopwords, punctuation) => {
                DocumentProcessor::new(documents, stopwords, *punctuation).process_documents()
            },
            TfIdfParams::ProcessedDocuments(documents) => clone_strings(documents),
            TfIdfParams::TextBlock(text, stop_words, punctuation, split) => {
                let tokenizer = Tokenizer::new(text, stop_words, *punctuation);
                match split {
                    TextSplit::Sentences => tokenizer.split_into_sentences(),
                    TextSplit::Paragraphs => tokenizer.split_into_paragraphs(),
                    TextSplit::Phrases => tokenizer.split_into_phrases(None),
                }
            },
        }
    }
}

} // verus!
