//! Documents cut at white space into words, each cleaned, in lower case,
//! and without stop words and punctuation.

use crate::common::text::{clone_strings, join, joined, split_whitespace, views, whitespace_words};
use crate::common::{default_punctuation, default_punctuation_marks};
use crate::common::{process_word, processed_word};
use vstd::prelude::*;

verus! {

/// A document as one string: its words, cleaned, those left out that are
/// punctuation or stop words, joined by spaces.
pub open spec fn document_string(
    document: Seq<char>,
    stopwords: Seq<Seq<char>>,
    punctuation: Seq<Seq<char>>,
) -> Seq<char> {
    joined(
        whitespace_words(document).filter_map(
            |w: Seq<char>| processed_word(w, stopwords, punctuation),
        ),
    )
}

/// Documents with the stop words and the punctuation to leave out.
pub struct DocumentProcessor<'a> {
    pub documents: &'a Vec<String>,
    pub stopwords: Vec<String>,
    pub punctuation: Vec<String>,
}

impl<'a> DocumentProcessor<'a> {
    /// Takes the documents and the stop words, and the punctuation if it
    /// is not that of ASCII.
    pub fn new(
        documents: &'a Vec<String>,
        stopwords: &Vec<String>,
        punctuation: Option<&Vec<String>>,
    ) -> (r: Self)
        ensures
            r.documents == documents,
            views(r.stopwords@) == views(stopwords@),
            views(r.punctuation@) == match punctuation {
                Some(p) => views(p@),
                None => default_punctuation_marks(),
            },
    {
        DocumentProcessor {
            documents,
            stopwords: clone_strings(stopwords),
            punctuation: match punctuation {
                Some(p) => clone_strings(p),
                None => default_punctuation(),
            },
        }
    }

    fn process_document(&self, document: &str) -> (r: String)
        ensures
            r@ == document_string(document@, views(self.stopwords@), views(self.punctuation@)),
    {
        let words = split_whitespace(document);
        let ghost all = views(words@);
        let ghost f = |w: Seq<char>|
            processed_word(w, views(self.stopwords@), views(self.punctuation@));
        let mut kept: Vec<String> = Vec::new();
        let mut i: usize = 0;
        assert(views(kept@) =~= Seq::<Seq<char>>::empty());
        while i < words.len()
            invariant
                i <= words.len(),
                all == views(words@),
                f == |w: Seq<char>|
                    processed_word(w, views(self.stopwords@), views(self.punctuation@)),
                views(kept@) == all.take(i as int).filter_map(f),
            decreases words.len() - i,
        {
            proof {
                all.lemma_filter_map_take_succ(f, i as int);
            }
            match process_word(words[i].as_str(), &self.stopwords, &self.punctuation) {
                Some(w) => {
                    let ghost before = kept@;
                    kept.push(w);
                    assert(views(kept@) =~= views(before).push(w@));
                },
                None => {},
            }
            i += 1;
        }
        assert(all.take(words.len() as int) =~= all);
        join(&kept)
    }

    /// Every document as one string of its kept words.
    pub fn process_documents(&self) -> (r: Vec<String>)
        ensures
            views(r@) == views(self.documents@).map_values(
                |d: Seq<char>|
                    document_string(d, views(self.stopwords@), views(self.punctuation@)),
            ),
    {
        let mut r: Vec<String> = Vec::new();
        let mut i: usize = 0;
        while i < self.documents.len()
            invariant
                i <= self.documents.len(),
                r.len() == i,
                forall|k: int|
                    0 <= k < i ==> (#[trigger] r@[k])@ == document_string(
                        self.documents@[k]@,
                        views(self.stopwords@),
                        views(self.punctuation@),
                    ),
            decreases self.documents.len() - i,
        {
            r.push(self.process_document(self.documents[i].as_str()));
            i += 1;
        }
        assert(views(r@) =~= views(self.documents@).map_values(
            |d: Seq<char>| document_string(d, views(self.stopwords@), views(self.punctuation@)),
        ));
        r
    }
}

} // verus!
