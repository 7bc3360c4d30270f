//! Sentences: the words of each, as written and in lower case. Every piece
//! between two word bounds that is more than white space is a word here,
//! punctuation too: what is no term is told apart later, by those who
//! gather candidates and occurrences.

use crate::common::text::{
    lowercased, split_word_bounds, to_lowercase, trim, trimmed, views, word_bounds,
};
use crate::yake::text_pre_processor::{processed_text, TextPreProcessor};
use crate::yake::yake_tokenizer::{tokenized, YakeTokenizer};
use vstd::prelude::*;

verus! {

/// One sentence: its words as written, their lower-case forms, and their
/// number.
pub struct Sentence {
    pub words: Vec<String>,
    pub stemmed: Vec<String>,
    pub length: usize,
}

/// What a sentence holds, as sequences of characters.
pub struct SentenceView {
    pub words: Seq<Seq<char>>,
    pub stemmed: Seq<Seq<char>>,
    pub length: int,
}

impl View for Sentence {
    type V = SentenceView;

    open spec fn view(&self) -> SentenceView {
        SentenceView {
            words: views(self.words@),
            stemmed: views(self.stemmed@),
            length: self.length as int,
        }
    }
}

/// The views of a list of sentences.
pub open spec fn sentence_views(sentences: Seq<Sentence>) -> Seq<SentenceView> {
    sentences.map_values(|s: Sentence| s@)
}

/// A piece of text as a word: the piece without its outer white space, or
/// nothing if that leaves it empty.
pub open spec fn word_of_piece(piece: Seq<char>) -> Option<Seq<char>> {
    let t = trimmed(piece);
    if t.len() == 0 {
        None
    } else {
        Some(t)
    }
}

/// The words of a sentence: the trimmed pieces between its word bounds,
/// those left out that are empty.
pub open spec fn sentence_words(s: Seq<char>) -> Seq<Seq<char>> {
    word_bounds(s).filter_map(|piece: Seq<char>| word_of_piece(piece))
}

/// The sentence that a piece of text makes.
pub open spec fn sentence_of(s: Seq<char>) -> SentenceView {
    SentenceView {
        words: sentence_words(s),
        stemmed: sentence_words(s).map_values(|w: Seq<char>| lowercased(w)),
        length: sentence_words(s).len() as int,
    }
}

/// The sentences of a text: the text is cleaned, cut at its sentence bounds,
/// and each part trimmed and cut into words.
pub open spec fn sentences_of(text: Seq<char>) -> Seq<SentenceView> {
    tokenized(processed_text(text))
}

fn process_piece(piece: &str) -> (r: Option<String>)
    ensures
        r.is_some() == word_of_piece(piece@).is_some(),
        r.is_some() ==> r.unwrap()@ == word_of_piece(piece@).unwrap(),
{
    let t = trim(piece);
    if t.as_str().is_empty() {
        None
    } else {
        Some(t)
    }
}

impl Sentence {
    /// The two lists are as long as `length` says.
    pub open spec fn wf(&self) -> bool {
        self.words.len() == self.length && self.stemmed.len() == self.length
    }

    /// Cuts a piece of text into the words of one sentence.
    pub fn new(s: &str) -> (r: Self)
        ensures
            r@ == sentence_of(s@),
            r.wf(),
    {
        let pieces = split_word_bounds(s);
        let ghost all = views(pieces@);
        let ghost f = |piece: Seq<char>| word_of_piece(piece);
        let mut words: Vec<String> = Vec::new();
        let mut stemmed: Vec<String> = Vec::new();
        let mut i: usize = 0;
        while i < pieces.len()
            invariant
                i <= pieces.len(),
                all == views(pieces@),
                f == |piece: Seq<char>| word_of_piece(piece),
                views(words@) == all.take(i as int).filter_map(f),
                words.len() == stemmed.len(),
                forall|k: int|
                    0 <= k < words.len() ==> #[trigger] stemmed@[k]@ == lowercased(words@[k]@),
            decreases pieces.len() - i,
        {
            proof {
                all.lemma_filter_map_take_succ(f, i as int);
            }
            match process_piece(pieces[i].as_str()) {
                Some(w) => {
                    let low = to_lowercase(w.as_str());
                    let ghost before = words@;
                    words.push(w);
                    stemmed.push(low);
                    assert(views(words@) =~= views(before).push(w@));
                },
                None => {},
            }
            i += 1;
        }
        proof {
            assert(all.take(pieces.len() as int) =~= all);
            assert(views(stemmed@) =~= views(words@).map_values(|w: Seq<char>| lowercased(w)));
        }
        let length = words.len();
        Sentence { words, stemmed, length }
    }

    /// The words as written.
    pub fn get_words(&self) -> (r: &Vec<String>)
        ensures
            r == self.words,
    {
        &self.words
    }

    /// The words in lower case.
    pub fn get_stemmed(&self) -> (r: &Vec<String>)
        ensures
            r == self.stemmed,
    {
        &self.stemmed
    }

    /// The number of words.
    pub fn get_length(&self) -> (r: usize)
        ensures
            r == self.length,
    {
        self.length
    }
}

/// Every sentence of the list is well formed.
pub open spec fn all_wf(sentences: Seq<Sentence>) -> bool {
    forall|i: int| 0 <= i < sentences.len() ==> (#[trigger] sentences[i]).wf()
}

/// The cutting of a text into sentences.
pub struct SentencesBuilder;

impl SentencesBuilder {
    /// Cleans the text and cuts it into sentences; an empty text has none.
    pub fn build_sentences(text: &str) -> (r: Vec<Sentence>)
        ensures
            sentence_views(r@) == sentences_of(text@),
            all_wf(r@),
            text@.len() == 0 ==> r@.len() == 0,
    {
        let pre_processed_text = TextPreProcessor::process_text(text);
        YakeTokenizer::new(pre_processed_text.as_str()).0
    }
}

} // verus!
