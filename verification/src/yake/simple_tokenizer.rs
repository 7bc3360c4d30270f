//! Words and sentences of a text without stop words and punctuation.

use crate::common::text::{
    contains_str, split_unicode_sentences, split_unicode_words, trim, trimmed, unicode_sentences,
    unicode_words, views,
};
use crate::common::{default_punctuation, default_punctuation_marks};
use crate::common::{is_punctuation, punctuation_mark};
use vstd::prelude::*;
use vstd::string::StringExecFns;

verus! {

/// Whether a word is kept: it is neither punctuation nor a stop word.
pub open spec fn kept_word(
    word: Seq<char>,
    stopwords: Seq<Seq<char>>,
    punctuation: Seq<Seq<char>>,
) -> bool {
    !punctuation_mark(word, punctuation) && !stopwords.contains(word)
}

/// The words of a text that are kept.
pub open spec fn kept_words(
    text: Seq<char>,
    stopwords: Seq<Seq<char>>,
    punctuation: Seq<Seq<char>>,
) -> Seq<Seq<char>> {
    unicode_words(text).filter(|w: Seq<char>| kept_word(w, stopwords, punctuation))
}

/// The kept words of each sentence of a text.
pub open spec fn kept_sentences(
    text: Seq<char>,
    stopwords: Seq<Seq<char>>,
    punctuation: Seq<Seq<char>>,
) -> Seq<Seq<Seq<char>>> {
    unicode_sentences(text).map_values(
        |s: Seq<char>| kept_words(trimmed(s), stopwords, punctuation),
    )
}

/// The word, unless it is punctuation or a stop word.
pub fn process_word<'a>(word: &'a str, stopwords: &Vec<String>, punctuation: &Vec<String>) -> (r:
    Option<&'a str>)
    ensures
        r.is_some() == kept_word(word@, views(stopwords@), views(punctuation@)),
        r.is_some() ==> r.unwrap()@ == word@,
{
    if is_punctuation(word, punctuation) || contains_str(stopwords, word) {
        return None;
    }
    Some(word)
}

fn filter_words(text: &str, stopwords: &Vec<String>, punctuation: &Vec<String>) -> (r: Vec<String>)
    ensures
        views(r@) == kept_words(text@, views(stopwords@), views(punctuation@)),
{
    let words = split_unicode_words(text);
    let ghost all = views(words@);
    let ghost keep = |w: Seq<char>| kept_word(w, views(stopwords@), views(punctuation@));
    let mut r: Vec<String> = Vec::new();
    let mut i: usize = 0;
    proof {
        reveal(Seq::filter);
        assert(all.take(0) =~= Seq::<Seq<char>>::empty());
        assert(views(r@) =~= Seq::<Seq<char>>::empty());
    }
    while i < words.len()
        invariant
            i <= words.len(),
            all == views(words@),
            keep == |w: Seq<char>| kept_word(w, views(stopwords@), views(punctuation@)),
            views(r@) == all.take(i as int).filter(keep),
        decreases words.len() - i,
    {
        proof {
            assert(all.take(i + 1) =~= all.take(i as int).push(all[i as int]));
            all.take(i as int).lemma_filter_push(all[i as int], keep);
        }
        match process_word(words[i].as_str(), stopwords, punctuation) {
            Some(w) => {
                let ghost before = r@;
                r.push(String::from_str(w));
                assert(views(r@) =~= views(before).push(w@));
            },
            None => {},
        }
        i += 1;
    }
    assert(all.take(words.len() as int) =~= all);
    r
}

/// A text with the stop words and the punctuation to leave out.
pub struct SimpleTokenizer {
    pub text: String,
    pub stopwords: Vec<String>,
    pub punctuation: Vec<String>,
}

impl SimpleTokenizer {
    /// Takes the text and the stop words, and the punctuation if it is not
    /// that of ASCII.
    pub fn new(text: &str, stopwords: &Vec<String>, punctuation: Option<&Vec<String>>) -> (r: Self)
        ensures
            r.text@ == text@,
            views(r.stopwords@) == views(stopwords@),
            views(r.punctuation@) == match punctuation {
                Some(p) => views(p@),
                None => default_punctuation_marks(),
            },
    {
        SimpleTokenizer {
            text: String::from_str(text),
            stopwords: crate::common::text::clone_strings(stopwords),
            punctuation: match punctuation {
                Some(p) => crate::common::text::clone_strings(p),
                None => default_punctuation(),
            },
        }
    }

    /// The words of the text that are neither stop words nor punctuation.
    pub fn split_into_words(&self) -> (r: Vec<String>)
        ensures
            views(r@) == kept_words(self.text@, views(self.stopwords@), views(self.punctuation@)),
    {
        filter_words(self.text.as_str(), &self.stopwords, &self.punctuation)
    }

    /// The kept words of each sentence of the text.
    pub fn split_into_sentences(&self) -> (r: Vec<Vec<String>>)
        ensures
            crate::common::text::deep_views(r@) == kept_sentences(
                self.text@,
                views(self.stopwords@),
                views(self.punctuation@),
            ),
    {
        let parts = split_unicode_sentences(self.text.as_str());
        let mut r: Vec<Vec<String>> = Vec::new();
        let mut i: usize = 0;
        while i < parts.len()
            invariant
                i <= parts.len(),
                r.len() == i,
                forall|k: int|
                    0 <= k < i ==> views((#[trigger] r@[k])@) == kept_words(
                        trimmed(parts@[k]@),
                        views(self.stopwords@),
                        views(self.punctuation@),
                    ),
            decreases parts.len() - i,
        {
            let words = filter_words(
                trim(parts[i].as_str()).as_str(),
                &self.stopwords,
                &self.punctuation,
            );
            r.push(words);
            i += 1;
        }
        proof {
            assert(crate::common::text::deep_views(r@) =~= views(parts@).map_values(
                |s: Seq<char>|
                    kept_words(trimmed(s), views(self.stopwords@), views(self.punctuation@)),
            ));
        }
        r
    }
}

} // verus!
