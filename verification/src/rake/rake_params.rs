//! The parameters of a phrase ranking.

use vstd::prelude::*;

verus! {

/// The parameters of a phrase ranking.
pub enum RakeParams<'a> {
    /// The text and the stop words. The punctuation is that of ASCII, and
    /// a phrase may have any length.
    WithDefaults(&'a str, &'a Vec<String>),
    /// The text, the stop words, and the greatest number of words of a
    /// phrase if there is one. The punctuation is that of ASCII.
    WithDefaultsAndPhraseLength(&'a str, &'a Vec<String>, Option<usize>),
    /// The text, the stop words, the punctuation if it is not that of
    /// ASCII, and the greatest number of words of a phrase if there is one.
    All(&'a str, &'a Vec<String>, Option<&'a Vec<String>>, Option<usize>),
}

impl<'a> RakeParams<'a> {
    /// The text, the stop words, the punctuation if one is named, and the
    /// greatest number of words of a phrase if one is named.
    pub fn get_rake_params(self) -> (r: (
        &'a str,
        &'a Vec<String>,
        Option<&'a Vec<String>>,
        Option<usize>,
    ))
        ensures
            match self {
                RakeParams::WithDefaults(text, stop_words) => {
                    &&& r.0 == text
                    &&& r.1 == stop_words
                    &&& r.2.is_none()
                    &&& r.3.is_none()
                },
                RakeParams::WithDefaultsAndPhraseLength(text, stop_words, phrase_length) => {
                    &&& r.0 == text
                    &&& r.1 == stop_words
                    &&& r.2.is_none()
                    &&& r.3 == phrase_length
                },
                RakeParams::All(text, stop_words, punctuation, phrase_length) => r == (
                    text,
                    stop_words,
                    punctuation,
                    phrase_length,
                ),
            },
    {
        match self {
            RakeParams::WithDefaults(text, stop_words) => (text, stop_words, None, None),
            RakeParams::WithDefaultsAndPhraseLength(text, stop_words, phrase_length) => (
                text,
                stop_words,
                None,
                phrase_length,
            ),
            RakeParams::All(text, stop_words, punctuation, phrase_length) => (
                text,
                stop_words,
                punctuation,
                phrase_length,
            ),
        }
    }
}

} // verus!
