//! What a phrase ranking counts: the phrases of a text as lists of words,
//! how often each word stands in them, and the degree of each word, which
//! is the number of other words that stand with it in a phrase, summed over
//! its occurrences.

use crate::common::default_punctuation_marks;
use crate::common::tally::{add_amount, tallied, tally_views, Amount, Tally};
use crate::common::text::{deep_views, split_whitespace, views, whitespace_words};
use crate::tokenizer::{phrase_strings, Exclusions, Tokenizer};
use vstd::prelude::*;

verus! {

/// Each word of the phrase with the same amount.
pub open spec fn with_amount(phrase: Seq<Seq<char>>, amount: int) -> Seq<Amount> {
    phrase.map_values(|w: Seq<char>| (w, amount))
}

/// Each word of each phrase, once for each time it stands there.
pub open spec fn frequency_events(phrases: Seq<Seq<Seq<char>>>) -> Seq<Amount> {
    phrases.flat_map(|p: Seq<Seq<char>>| with_amount(p, 1))
}

/// Each word of each phrase with the number of the other words of the
/// phrase.
pub open spec fn degree_events(phrases: Seq<Seq<Seq<char>>>) -> Seq<Amount> {
    phrases.flat_map(|p: Seq<Seq<char>>| with_amount(p, p.len() - 1))
}

/// The phrases of a text, each as the list of its words.
pub open spec fn phrase_lists(text: Seq<char>, x: Exclusions, length: Option<int>) -> Seq<
    Seq<Seq<char>>,
> {
    phrase_strings(text, x, length).map_values(|p: Seq<char>| whitespace_words(p))
}

/// Adds `amount` under each word of the phrase.
pub(crate) fn tally_phrase(t: &mut Tally, phrase: &Vec<String>, amount: u64, Ghost(done): Ghost<Seq<Amount>>)
    requires
        tally_views(old(t)@) == tallied(done),
    ensures
        tally_views(final(t)@) == tallied(done + with_amount(views(phrase@), amount as int)),
{
    let ghost events = with_amount(views(phrase@), amount as int);
    let mut j: usize = 0;
    assert(done + events.take(0) =~= done);
    while j < phrase.len()
        invariant
            j <= phrase.len(),
            events == with_amount(views(phrase@), amount as int),
            tally_views(t@) == tallied(done + events.take(j as int)),
        decreases phrase.len() - j,
    {
        proof {
            let next = done + events.take(j + 1);
            assert(next.drop_last() =~= done + events.take(j as int));
            assert(next.last() == (phrase@[j as int]@, amount as int));
        }
        add_amount(t, phrase[j].as_str(), amount);
        j += 1;
    }
    assert(events.take(phrase.len() as int) =~= events);
}

/// What a phrase ranking counts.
pub struct RakeCounts {
    /// The phrases, each as the list of its words.
    pub phrases: Vec<Vec<String>>,
    /// How often each word stands in the phrases.
    pub word_frequency: Tally,
    /// The degree of each word.
    pub word_degree: Tally,
}

/// The counting behind a phrase ranking.
pub struct RakeLogic;

impl RakeLogic {
    /// The phrases of the text, each as the list of its words.
    pub fn split_into_phrases(
        text: &str,
        stopwords: &Vec<String>,
        punctuation: Option<&Vec<String>>,
        length: Option<usize>,
    ) -> (r: Vec<Vec<String>>)
        ensures
            deep_views(r@) == phrase_lists(
                text@,
                Exclusions {
                    stopwords: views(stopwords@),
                    punctuation: match punctuation {
                        Some(p) => views(p@),
                        None => default_punctuation_marks(),
                    },
                },
                match length {
                    Some(l) => Some(l as int),
                    None => None,
                },
            ),
    {
        let phrases = Tokenizer::new(text, stopwords, punctuation).split_into_phrases(length);
        let mut r: Vec<Vec<String>> = Vec::new();
        let mut i: usize = 0;
        while i < phrases.len()
            invariant
                i <= phrases.len(),
                r.len() == i,
                forall|k: int|
                    0 <= k < i ==> views((#[trigger] r@[k])@) == whitespace_words(phrases@[k]@),
            decreases phrases.len() - i,
        {
            r.push(split_whitespace(phrases[i].as_str()));
            i += 1;
        }
        assert(deep_views(r@) =~= views(phrases@).map_values(|p: Seq<char>| whitespace_words(p)));
        r
    }

    /// How often each word stands in the phrases.
    pub fn generate_word_frequency(phrases: &Vec<Vec<String>>) -> (r: Tally)
        ensures
            tally_views(r@) == tallied(frequency_events(deep_views(phrases@))),
    {
        let ghost all = deep_views(phrases@);
        let ghost f = |p: Seq<Seq<char>>| with_amount(p, 1);
        let mut t: Tally = Vec::new();
        let mut i: usize = 0;
        proof {
            assert(tally_views(t@) =~= Seq::<Amount>::empty());
            assert(all.take(0).flat_map(f) =~= Seq::<Amount>::empty());
        }
        while i < phrases.len()
            invariant
                i <= phrases.len(),
                all == deep_views(phrases@),
                f == |p: Seq<Seq<char>>| with_amount(p, 1),
                tally_views(t@) == tallied(all.take(i as int).flat_map(f)),
            decreases phrases.len() - i,
        {
            proof {
                all.lemma_flat_map_take_append(f, i as int);
            }
            tally_phrase(&mut t, &phrases[i], 1, Ghost(all.take(i as int).flat_map(f)));
            i += 1;
        }
        assert(all.take(phrases.len() as int) =~= all);
        t
    }

    /// The degree of each word.
    pub fn generate_word_degree(phrases: &Vec<Vec<String>>) -> (r: Tally)
        ensures
            tally_views(r@) == tallied(degree_events(deep_views(phrases@))),
    {
        let ghost all = deep_views(phrases@);
        let ghost f = |p: Seq<Seq<char>>| with_amount(p, p.len() - 1);
        let mut t: Tally = Vec::new();
        let mut i: usize = 0;
        proof {
            assert(tally_views(t@) =~= Seq::<Amount>::empty());
            assert(all.take(0).flat_map(f) =~= Seq::<Amount>::empty());
        }
        while i < phrases.len()
            invariant
                i <= phrases.len(),
                all == deep_views(phrases@),
                f == |p: Seq<Seq<char>>| with_amount(p, p.len() - 1),
                tally_views(t@) == tallied(all.take(i as int).flat_map(f)),
            decreases phrases.len() - i,
        {
            proof {
                all.lemma_flat_map_take_append(f, i as int);
            }
            let len = phrases[i].len();
            if len > 0 {
                tally_phrase(
                    &mut t,
                    &phrases[i],
                    (len - 1) as u64,
                    Ghost(all.take(i as int).flat_map(f)),
                );
            } else {
                assert(f(all[i as int]) =~= Seq::<Amount>::empty());
                assert(all.take(i as int).flat_map(f) + f(all[i as int]) =~= all.take(
                    i as int,
                ).flat_map(f));
            }
            i += 1;
        }
        assert(all.take(phrases.len() as int) =~= all);
        t
    }

    /// The phrases of the text with the frequency and the degree of each
    /// of their words.
    pub fn build_rake(
        text: &str,
        stopwords: &Vec<String>,
        punctuation: Option<&Vec<String>>,
        phrase_len: Option<usize>,
    ) -> (r: RakeCounts)
        ensures
            deep_views(r.phrases@) == phrase_lists(
                text@,
                Exclusions {
                    stopwords: views(stopwords@),
                    punctuation: match punctuation {
                        Some(p) => views(p@),
                        None => default_punctuation_marks(),
                    },
                },
                match phrase_len {
                    Some(l) => Some(l as int),
                    None => None,
                },
            ),
            tally_views(r.word_frequency@) == tallied(frequency_events(deep_views(r.phrases@))),
            tally_views(r.word_degree@) == tallied(degree_events(deep_views(r.phrases@))),
    {
        let phrases = Self::split_into_phrases(text, stopwords, punctuation, phrase_len);
        let word_frequency = Self::generate_word_frequency(&phrases);
        let word_degree = Self::generate_word_degree(&phrases);
        RakeCounts { phrases, word_frequency, word_degree }
    }
}

} // verus!
