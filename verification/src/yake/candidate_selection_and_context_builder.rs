//! Candidates, counts, occurrences and neighbours in one call.

pub use crate::yake::candidate_selection::Candidate;

use crate::common::text::views;
use crate::yake::candidate_selection::{
    selected, selection_view, selection_wf, CandidateSelection, Candidates, DedupMap, WordFilter,
};
use crate::yake::context_builder::{
    context_views, contexts_of, contexts_wf, ContextBuilder, LeftRightContext,
};
use crate::yake::occurrences_builder::{occurrence_views, occurrences_of, occurrences_wf, Occurrences};
use crate::yake::sentences_builder::{all_wf, sentence_views, Sentence};
use vstd::prelude::*;

verus! {

/// The gathering of candidates, occurrences and neighbours.
pub struct CandidateSelectionAndContextBuilder;

impl CandidateSelectionAndContextBuilder {
    /// Gathers the candidates of the sentences with the counts of their
    /// words, and the occurrences and neighbours of every term.
    pub fn select_candidates_and_build_context(
        sentences: &Vec<Sentence>,
        ngram: usize,
        window_size: usize,
        stop_words: &Vec<String>,
        punctuation: &Vec<String>,
    ) -> (r: (Candidates, DedupMap, Occurrences, LeftRightContext))
        requires
            all_wf(sentences@),
        ensures
            selection_view(r.0@, r.1@) == selected(
                sentence_views(sentences@),
                ngram as int,
                WordFilter { punctuation: views(punctuation@), stop_words: views(stop_words@) },
            ),
            selection_wf(
                selection_view(r.0@, r.1@),
                ngram as int,
                WordFilter { punctuation: views(punctuation@), stop_words: views(stop_words@) },
            ),
            occurrence_views(r.2@) == occurrences_of(
                sentence_views(sentences@),
                views(punctuation@),
            ),
            occurrences_wf(
                occurrence_views(r.2@),
                sentence_views(sentences@),
                views(punctuation@),
                sentences.len() as int,
                0,
            ),
            context_views(r.3@) == contexts_of(sentence_views(sentences@), window_size as int),
            contexts_wf(context_views(r.3@)),
    {
        let (candidates, dedup) = CandidateSelection::select_candidates(
            sentences,
            ngram,
            stop_words,
            punctuation,
        );
        let (occurrences, contexts) = ContextBuilder::build_context(
            sentences,
            window_size,
            punctuation,
        );
        (candidates, dedup, occurrences, contexts)
    }
}

} // verus!
