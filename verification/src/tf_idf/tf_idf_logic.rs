//! What a term-frequency analysis counts: how often each word stands in
//! the documents, and in how many documents it stands.

use crate::common::entry_keys;
use crate::common::tally::{add_amount, tallied, tally_views, Amount, Tally};
use crate::common::text::{split_whitespace, views, whitespace_words};
use crate::rake::rake_logic::{tally_phrase, with_amount};
use vstd::prelude::*;

verus! {

/// Each word of each document, once for each time it stands there.
pub open spec fn word_events(documents: Seq<Seq<char>>) -> Seq<Amount> {
    documents.flat_map(|d: Seq<char>| with_amount(whitespace_words(d), 1))
}

/// The different words of a document, in the order in which they first
/// stand there.
pub open spec fn different_words(document: Seq<char>) -> Seq<Seq<char>> {
    entry_keys(tallied(with_amount(whitespace_words(document), 1)))
}

/// Each word of each document, once for each document in which it stands.
pub open spec fn unique_word_events(documents: Seq<Seq<char>>) -> Seq<Amount> {
    documents.flat_map(|d: Seq<char>| with_amount(different_words(d), 1))
}

/// What a term-frequency analysis counts.
pub struct TfIdfCounts {
    /// The number of documents.
    pub documents_len: usize,
    /// How often each word stands in the documents.
    pub word_counts: Tally,
    /// In how many documents each word stands.
    pub document_counts: Tally,
}

/// The counting behind a term-frequency analysis.
pub struct TfIdfLogic;

impl TfIdfLogic {
    /// How often each word stands in the documents.
    pub fn generate_word_hashmap(documents: &Vec<String>) -> (r: Tally)
        ensures
            tally_views(r@) == tallied(word_events(views(documents@))),
    {
        let ghost all = views(documents@);
        let ghost f = |d: Seq<char>| with_amount(whitespace_words(d), 1);
        let mut t: Tally = Vec::new();
        let mut i: usize = 0;
        proof {
            assert(tally_views(t@) =~= Seq::<Amount>::empty());
            assert(all.take(0).flat_map(f) =~= Seq::<Amount>::empty());
        }
        while i < documents.len()
            invariant
                i <= documents.len(),
                all == views(documents@),
                f == |d: Seq<char>| with_amount(whitespace_words(d), 1),
                tally_views(t@) == tallied(all.take(i as int).flat_map(f)),
            decreases documents.len() - i,
        {
            proof {
                all.lemma_flat_map_take_append(f, i as int);
            }
            let words = split_whitespace(documents[i].as_str());
            tally_phrase(&mut t, &words, 1, Ghost(all.take(i as int).flat_map(f)));
            i += 1;
        }
        assert(all.take(documents.len() as int) =~= all);
        t
    }

    /// In how many documents each word stands.
    pub fn generate_unique_word_hashmap(documents: &Vec<String>) -> (r: Tally)
        ensures
            tally_views(r@) == tallied(unique_word_events(views(documents@))),
    {
        let ghost all = views(documents@);
        let ghost f = |d: Seq<char>| with_amount(different_words(d), 1);
        let mut t: Tally = Vec::new();
        let mut i: usize = 0;
        proof {
            assert(tally_views(t@) =~= Seq::<Amount>::empty());
            assert(all.take(0).flat_map(f) =~= Seq::<Amount>::empty());
        }
        while i < documents.len()
            invariant
                i <= documents.len(),
                all == views(documents@),
                f == |d: Seq<char>| with_amount(different_words(d), 1),
                tally_views(t@) == tallied(all.take(i as int).flat_map(f)),
            decreases documents.len() - i,
        {
            proof {
                all.lemma_flat_map_take_append(f, i as int);
            }
            let words = split_whitespace(documents[i].as_str());
            let mut local: Tally = Vec::new();
            assert(tally_views(local@) =~= tallied(Seq::<Amount>::empty()));
            tally_phrase(&mut local, &words, 1, Ghost(Seq::<Amount>::empty()));
            assert(Seq::<Amount>::empty() + with_amount(views(words@), 1) =~= with_amount(
                views(words@),
                1,
            ));
            let ghost done = all.take(i as int).flat_map(f);
            let ghost different = different_words(all[i as int]);
            let ghost events = with_amount(different, 1);
            assert(different == entry_keys(tally_views(local@)));
            let mut k: usize = 0;
            assert(done + events.take(0) =~= done);
            while k < local.len()
                invariant
                    k <= local.len(),
                    different == entry_keys(tally_views(local@)),
                    events == with_amount(different, 1),
                    tally_views(t@) == tallied(done + events.take(k as int)),
                decreases local.len() - k,
            {
                proof {
                    let next = done + events.take(k + 1);
                    assert(next.drop_last() =~= done + events.take(k as int));
                    assert(next.last() == (local@[k as int].0@, 1int));
                }
                add_amount(&mut t, local[k].0.as_str(), 1);
                k += 1;
            }
            assert(events.take(local.len() as int) =~= events);
            i += 1;
        }
        assert(all.take(documents.len() as int) =~= all);
        t
    }

    /// The counts that the scores of the words are computed from.
    pub fn build_tfidf(documents: &Vec<String>) -> (r: TfIdfCounts)
        ensures
            r.documents_len == documents.len(),
            tally_views(r.word_counts@) == tallied(word_events(views(documents@))),
            tally_views(r.document_counts@) == tallied(unique_word_events(views(documents@))),
    {
        TfIdfCounts {
            documents_len: documents.len(),
            word_counts: Self::generate_word_hashmap(documents),
            document_counts: Self::generate_unique_word_hashmap(documents),
        }
    }
}

} // verus!
