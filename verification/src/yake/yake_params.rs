//! The parameters of an extraction, and what makes them acceptable.

use crate::yake::levenshtein::Threshold;
use vstd::prelude::*;

verus! {

/// The threshold that is used where none is given: 17 / 20.
pub fn default_threshold() -> (r: Threshold)
    ensures
        r.num == 17,
        r.den == 20,
        r.valid(),
{
    Threshold { num: 17, den: 20 }
}

/// Why parameters were turned down.
#[derive(Clone, Copy, Debug, PartialEq, Eq, Structural)]
pub enum YakeError {
    /// The greatest number of words of a candidate is zero.
    ZeroNgram,
    /// The window size is zero.
    ZeroWindowSize,
    /// The threshold is zero, or greater than one.
    InvalidThreshold,
}

impl YakeError {
    /// What went wrong, in words.
    pub fn message(&self) -> (r: &'static str)
        ensures
            r@ == match self {
                YakeError::ZeroNgram => "the n-gram size must be at least 1"@,
                YakeError::ZeroWindowSize => "the window size must be at least 1"@,
                YakeError::InvalidThreshold => "the threshold must be greater than 0 and at most 1"@,
            },
    {
        match self {
            YakeError::ZeroNgram => "the n-gram size must be at least 1",
            YakeError::ZeroWindowSize => "the window size must be at least 1",
            YakeError::InvalidThreshold => "the threshold must be greater than 0 and at most 1",
        }
    }
}

/// The first fault of the three parameters, if any.
pub open spec fn first_fault(threshold: Threshold, ngram: int, window_size: int) -> Option<
    YakeError,
> {
    if ngram == 0 {
        Some(YakeError::ZeroNgram)
    } else if window_size == 0 {
        Some(YakeError::ZeroWindowSize)
    } else if !threshold.valid() {
        Some(YakeError::InvalidThreshold)
    } else {
        None
    }
}

/// Accepts the parameters, or names their first fault.
pub fn check_params(threshold: &Threshold, ngram: usize, window_size: usize) -> (r: Result<
    (),
    YakeError,
>)
    ensures
        match first_fault(*threshold, ngram as int, window_size as int) {
            Some(e) => r == Err::<(), YakeError>(e),
            None => r.is_ok(),
        },
{
    if ngram == 0 {
        Err(YakeError::ZeroNgram)
    } else if window_size == 0 {
        Err(YakeError::ZeroWindowSize)
    } else if !(0 < threshold.num && threshold.num <= threshold.den) {
        Err(YakeError::InvalidThreshold)
    } else {
        Ok(())
    }
}

/// The parameters of an extraction.
pub enum YakeParams<'a> {
    /// The text and the stop words. The punctuation is that of ASCII, the
    /// threshold 17 / 20, a candidate has at most 3 words, and the window
    /// size is 2.
    WithDefaults(&'a str, &'a Vec<String>),
    /// The text, the stop words, the punctuation if it is not that of
    /// ASCII, the threshold, the greatest number of words of a candidate,
    /// and the window size.
    All(&'a str, &'a Vec<String>, Option<&'a Vec<String>>, Threshold, usize, usize),
}

impl<'a> YakeParams<'a> {
    /// The text to read.
    pub open spec fn text(&self) -> Seq<char> {
        match *self {
            YakeParams::WithDefaults(text, _) => text@,
            YakeParams::All(text, _, _, _, _, _) => text@,
        }
    }

    /// The stop words.
    pub open spec fn stop_words(&self) -> Seq<Seq<char>> {
        match *self {
            YakeParams::WithDefaults(_, stop_words) => crate::common::text::views(stop_words@),
            YakeParams::All(_, stop_words, _, _, _, _) => crate::common::text::views(stop_words@),
        }
    }

    /// The punctuation: that of ASCII where none is named.
    pub open spec fn punctuation(&self) -> Seq<Seq<char>> {
        match *self {
            YakeParams::All(_, _, Some(punctuation), _, _, _) => crate::common::text::views(
                punctuation@,
            ),
            _ => crate::common::default_punctuation_marks(),
        }
    }

    /// The threshold: 17 / 20 where none is named.
    pub open spec fn threshold(&self) -> Threshold {
        match *self {
            YakeParams::WithDefaults(_, _) => Threshold { num: 17, den: 20 },
            YakeParams::All(_, _, _, threshold, _, _) => threshold,
        }
    }

    /// The greatest number of words of a candidate: 3 where none is named.
    pub open spec fn ngram(&self) -> usize {
        match *self {
            YakeParams::WithDefaults(_, _) => 3,
            YakeParams::All(_, _, _, _, ngram, _) => ngram,
        }
    }

    /// The window size: 2 where none is named.
    pub open spec fn window_size(&self) -> usize {
        match *self {
            YakeParams::WithDefaults(_, _) => 2,
            YakeParams::All(_, _, _, _, _, window_size) => window_size,
        }
    }

    /// The six parameters, with the defaults for those that are not named.
    pub fn get_params(&self) -> (r: (
        &'a str,
        &'a Vec<String>,
        Option<&'a Vec<String>>,
        Threshold,
        usize,
        usize,
    ))
        ensures
            match *self {
                YakeParams::WithDefaults(text, stop_words) => {
                    &&& r.0 == text
                    &&& r.1 == stop_words
                    &&& r.2.is_none()
                    &&& r.3 == (Threshold { num: 17, den: 20 })
                    &&& r.4 == 3
                    &&& r.5 == 2
                },
                YakeParams::All(text, stop_words, punctuation, threshold, ngram, window_size) => {
                    r == (text, stop_words, punctuation, threshold, ngram, window_size)
                },
            },
    {
        match self {
            YakeParams::WithDefaults(text, stop_words) => (
                *text,
                *stop_words,
                None,
                default_threshold(),
                3,
                2,
            ),
            YakeParams::All(text, stop_words, punctuation, threshold, ngram, window_size) => (
                *text,
                *stop_words,
                *punctuation,
                *threshold,
                *ngram,
                *window_size,
            ),
        }
    }
}

} // verus!
