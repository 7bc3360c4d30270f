//! The sentences of a text that was cleaned before.

use crate::common::text::{split_unicode_sentences, trim, trimmed, unicode_sentences, views};
use crate::yake::sentences_builder::{all_wf, sentence_of, sentence_views, Sentence, SentenceView};
use vstd::prelude::*;

verus! {

/// The sentences of a text as it stands: it is cut at its sentence bounds,
/// and each part trimmed and cut into words.
pub open spec fn tokenized(text: Seq<char>) -> Seq<SentenceView> {
    unicode_sentences(text).map_values(|s: Seq<char>| sentence_of(trimmed(s)))
}

/// The sentences of a text.
pub struct YakeTokenizer(pub Vec<Sentence>);

impl YakeTokenizer {
    /// Cuts a cleaned text into sentences; an empty text has none.
    pub fn new(pre_processed_text: &str) -> (r: Self)
        ensures
            sentence_views(r.0@) == tokenized(pre_processed_text@),
            all_wf(r.0@),
            pre_processed_text@.len() == 0 ==> r.0@.len() == 0,
    {
        let parts = split_unicode_sentences(pre_processed_text);
        let mut r: Vec<Sentence> = Vec::new();
        let mut i: usize = 0;
        while i < parts.len()
            invariant
                i <= parts.len(),
                r.len() == i,
                all_wf(r@),
                forall|k: int| 0 <= k < i ==> (#[trigger] r@[k])@ == sentence_of(trimmed(parts@[k]@)),
            decreases parts.len() - i,
        {
            let sentence = Sentence::new(trim(parts[i].as_str()).as_str());
            r.push(sentence);
            i += 1;
        }
        proof {
            assert(sentence_views(r@) =~= views(parts@).map_values(
                |s: Seq<char>| sentence_of(trimmed(s)),
            ));
        }
        YakeTokenizer(r)
    }

    /// The sentences.
    pub fn get_sentences(&self) -> (r: &Vec<Sentence>)
        ensures
            r == self.0,
    {
        &self.0
    }
}

} // verus!
