//! The extraction as a whole, up to the point where weights are computed:
//! sentences, candidates, counts, the candidates that survive the
//! comparison with earlier ones, and for each of these what its score is
//! to be computed from.

use crate::common::text::views;
use crate::common::{
    default_punctuation, entry_keys, find_key, invalid_word, keys, lemma_position, position,
};
use crate::yake::candidate_selection::{
    candidate_views, dedup_views, is_lexical_of, lemma_selection_sound, lexical_from_window,
    selected, selection_view, selection_wf, CandidateView, Candidates, DedupMap, WordFilter,
};
use crate::yake::candidate_selection_and_context_builder::CandidateSelectionAndContextBuilder;
use crate::yake::context_builder::contexts_of;
use crate::yake::feature_extraction::{
    feature_views, is_tf_max, tf_sum, word_features, FeatureExtractor, TermFeatures,
    WordFeatures,
};
use crate::yake::levenshtein::Threshold;
use crate::yake::occurrences_builder::{
    lemma_occurrences_complete, occurrence_at, occurrence_views, occurrences_of,
};
use crate::yake::sentences_builder::{
    sentence_views, sentences_of, SentenceView, SentencesBuilder,
};
use crate::yake::yake_params::{first_fault, YakeError, YakeParams};
use crate::yake::{surviving, survivors};
use vstd::prelude::*;

verus! {

/// What the score of one candidate is computed from.
pub struct CandidatePlan {
    /// The candidate's key.
    pub key: String,
    /// The count that the key itself has as a word of candidates of several
    /// words, or one where it has none.
    pub boost: u128,
    /// The number of the candidate's surface forms.
    pub tf: usize,
    /// For each word of the candidate, the place of its counts among the
    /// terms, or `None` where it has none.
    pub terms: Vec<Option<usize>>,
}

/// A plan with its key as a character sequence and its numbers as integers.
pub struct CandidatePlanView {
    pub key: Seq<char>,
    pub boost: int,
    pub tf: int,
    pub terms: Seq<Option<int>>,
}

impl View for CandidatePlan {
    type V = CandidatePlanView;

    open spec fn view(&self) -> CandidatePlanView {
        CandidatePlanView {
            key: self.key@,
            boost: self.boost as int,
            tf: self.tf as int,
            terms: self.terms@.map_values(
                |t: Option<usize>|
                    match t {
                        Some(p) => Some(p as int),
                        None => None,
                    },
            ),
        }
    }
}

/// The plans with their keys as character sequences.
pub open spec fn plan_views(p: Seq<CandidatePlan>) -> Seq<CandidatePlanView> {
    p.map_values(|x: CandidatePlan| x@)
}

/// The count of `key` among the counted words, or one.
pub open spec fn boost_of(dedup: Seq<(Seq<char>, int)>, key: Seq<char>) -> int {
    let p = position(entry_keys(dedup), key);
    if p >= 0 {
        dedup[p].1
    } else {
        1
    }
}

/// The place of the term `w` among the terms, if it is one.
pub open spec fn term_index(terms: Seq<Seq<char>>, w: Seq<char>) -> Option<int> {
    let p = position(terms, w);
    if p >= 0 {
        Some(p)
    } else {
        None
    }
}

/// The plan of one candidate.
pub open spec fn plan_of(
    key: Seq<char>,
    c: CandidateView,
    dedup: Seq<(Seq<char>, int)>,
    terms: Seq<Seq<char>>,
) -> CandidatePlanView {
    CandidatePlanView {
        key,
        boost: boost_of(dedup, key),
        tf: c.surface_forms.len() as int,
        terms: c.lexical_form.map_values(|w: Seq<char>| term_index(terms, w)),
    }
}

/// The plans of all candidates, in their order.
pub open spec fn plans_of(
    candidates: Seq<(Seq<char>, CandidateView)>,
    dedup: Seq<(Seq<char>, int)>,
    terms: Seq<Seq<char>>,
) -> Seq<CandidatePlanView> {
    candidates.map_values(|e: (Seq<char>, CandidateView)| plan_of(e.0, e.1, dedup, terms))
}

/// What an extraction finds before any weight is computed.
pub struct Extraction {
    /// The number of sentences.
    pub sentences_len: usize,
    /// The candidates under their keys.
    pub candidates: Candidates,
    /// The counts of the words of candidates of several words.
    pub dedup: DedupMap,
    /// The counts of every term.
    pub features: WordFeatures,
    /// The places of the candidates that survive: those whose key is not
    /// similar to the key of an earlier candidate that survives.
    pub survivors: Vec<usize>,
    /// For each surviving candidate, what its score is computed from.
    pub plans: Vec<CandidatePlan>,
}

/// The candidates that survive, in their order.
pub open spec fn surviving_candidates(
    candidates: Seq<(Seq<char>, CandidateView)>,
    threshold: Threshold,
) -> Seq<(Seq<char>, CandidateView)> {
    survivors(entry_keys(candidates), candidates.len() as int, threshold).map_values(
        |i: int| candidates[i],
    )
}

/// Whether `e` is what the text gives under the parameters.
pub open spec fn extraction_of(
    e: Extraction,
    text: Seq<char>,
    stop_words: Seq<Seq<char>>,
    punctuation: Seq<Seq<char>>,
    threshold: Threshold,
    ngram: int,
    window_size: int,
) -> bool {
    let sentences = sentences_of(text);
    let filter = WordFilter { punctuation, stop_words };
    let found = selected(sentences, ngram, filter);
    let features = word_features(
        occurrences_of(sentences, punctuation),
        contexts_of(sentences, window_size),
    );
    &&& e.sentences_len == sentences.len()
    &&& selection_view(e.candidates@, e.dedup@) == found
    &&& selection_wf(found, ngram, filter)
    &&& feature_views(e.features.terms@) == features
    &&& e.features.tf_total == tf_sum(features, features.len() as int)
    &&& is_tf_max(features, e.features.tf_max as int)
    &&& e.survivors@.map_values(|i: usize| i as int) == survivors(
        entry_keys(found.candidates),
        found.candidates.len() as int,
        threshold,
    )
    &&& plan_views(e.plans@) == plans_of(
        surviving_candidates(found.candidates, threshold),
        found.dedup,
        entry_keys(features),
    )
}

/// Every word of every candidate is a term with counts of its own: the
/// word stands in a sentence and is no punctuation, so its occurrences are
/// recorded.
pub proof fn lemma_candidate_words_are_terms(
    sentences: Seq<SentenceView>,
    punctuation: Seq<Seq<char>>,
    stop_words: Seq<Seq<char>>,
    ngram: int,
    window_size: int,
    p: int,
    t: int,
)
    requires
        0 <= ngram,
        forall|i: int|
            0 <= i < sentences.len() ==> (#[trigger] sentences[i]).words.len()
                == sentences[i].stemmed.len(),
        0 <= p < selected(sentences, ngram, WordFilter { punctuation, stop_words }).candidates.len(),
        0 <= t < selected(
            sentences,
            ngram,
            WordFilter { punctuation, stop_words },
        ).candidates[p].1.lexical_form.len(),
    ensures
        term_index(
            entry_keys(
                word_features(
                    occurrences_of(sentences, punctuation),
                    contexts_of(sentences, window_size),
                ),
            ),
            selected(
                sentences,
                ngram,
                WordFilter { punctuation, stop_words },
            ).candidates[p].1.lexical_form[t],
        ).is_some(),
{
    let filter = WordFilter { punctuation, stop_words };
    let found = selected(sentences, ngram, filter);
    let lexical = found.candidates[p].1.lexical_form;
    let n = sentences.len() as int;
    lemma_selection_sound(sentences, n, ngram, filter);
    assert(lexical_from_window(sentences, ngram, filter, found.candidates[p].1.lexical_form));
    let (i, j, k) = choose|i: int, j: int, k: int| #[trigger]
        is_lexical_of(sentences, ngram, filter, i, j, k, lexical);
    let stems = sentences[i].stemmed.subrange(j, k);
    assert(stems[t] == sentences[i].stemmed[j + t]);
    assert(!invalid_word(stems[t], punctuation, stop_words));
    lemma_occurrences_complete(sentences, n, punctuation, i, j + t);
    let occs = occurrences_of(sentences, punctuation);
    let word = sentences[i].stemmed[j + t];
    let (x, y) = choose|x: int, y: int|
        0 <= x < occs.len() && 0 <= y < occs[x].1.len() && occs[x].0 == word
            && #[trigger] occs[x].1[y] == occurrence_at(sentences, i, j + t);
    let terms = entry_keys(word_features(occs, contexts_of(sentences, window_size)));
    assert(terms =~= entry_keys(occs));
    assert(entry_keys(occs)[x] == word);
    lemma_position(terms, word);
}

/// Two extractions from the same text under the same parameters hold the
/// same candidates, counts, survivors and plans.
pub proof fn lemma_extraction_repeatable(
    a: Extraction,
    b: Extraction,
    text: Seq<char>,
    stop_words: Seq<Seq<char>>,
    punctuation: Seq<Seq<char>>,
    threshold: Threshold,
    ngram: int,
    window_size: int,
)
    requires
        extraction_of(a, text, stop_words, punctuation, threshold, ngram, window_size),
        extraction_of(b, text, stop_words, punctuation, threshold, ngram, window_size),
    ensures
        a.sentences_len == b.sentences_len,
        selection_view(a.candidates@, a.dedup@) == selection_view(b.candidates@, b.dedup@),
        feature_views(a.features.terms@) == feature_views(b.features.terms@),
        a.features.tf_total == b.features.tf_total,
        a.features.tf_max == b.features.tf_max,
        a.survivors@ == b.survivors@,
        plan_views(a.plans@) == plan_views(b.plans@),
{
    let features = feature_views(a.features.terms@);
    if features.len() > 0 {
        let p = choose|p: int|
            0 <= p < features.len() && (#[trigger] features[p]).1.tf == a.features.tf_max;
        let q = choose|q: int|
            0 <= q < features.len() && (#[trigger] features[q]).1.tf == b.features.tf_max;
        assert(features[p].1.tf <= b.features.tf_max);
        assert(features[q].1.tf <= a.features.tf_max);
    }
    let x = a.survivors@.map_values(|i: usize| i as int);
    let y = b.survivors@.map_values(|i: usize| i as int);
    assert(x.len() == a.survivors@.len() && y.len() == b.survivors@.len());
    assert forall|k: int| 0 <= k < a.survivors@.len() implies a.survivors@[k]
        == b.survivors@[k] by {
        assert(x[k] == a.survivors@[k] as int);
        assert(y[k] == b.survivors@[k] as int);
    }
    assert(a.survivors@ =~= b.survivors@);
}

/// The extraction up to the point where weights are computed.
pub struct YakeLogic;

impl YakeLogic {
    /// For each of the candidates at the given places, what its score is
    /// computed from.
    pub fn plan_candidates(
        candidates: &Candidates,
        places: &Vec<usize>,
        dedup: &DedupMap,
        terms: &Vec<(String, TermFeatures)>,
    ) -> (r: Vec<CandidatePlan>)
        requires
            forall|k: int| 0 <= k < places.len() ==> #[trigger] places@[k] < candidates.len(),
        ensures
            plan_views(r@) == plans_of(
                places@.map_values(|i: usize| candidate_views(candidates@)[i as int]),
                dedup_views(dedup@),
                entry_keys(feature_views(terms@)),
            ),
    {
        let ghost cv = candidate_views(candidates@);
        let ghost dv = dedup_views(dedup@);
        let ghost tk = entry_keys(feature_views(terms@));
        proof {
            assert(keys(dedup@) =~= entry_keys(dv));
            assert(keys(terms@) =~= tk);
        }
        let mut plans: Vec<CandidatePlan> = Vec::new();
        let mut i: usize = 0;
        while i < places.len()
            invariant
                i <= places.len(),
                forall|k: int| 0 <= k < places.len() ==> #[trigger] places@[k] < candidates.len(),
                cv == candidate_views(candidates@),
                dv == dedup_views(dedup@),
                tk == entry_keys(feature_views(terms@)),
                keys(dedup@) == entry_keys(dv),
                keys(terms@) == tk,
                plans.len() == i,
                forall|k: int|
                    0 <= k < i ==> (#[trigger] plans@[k])@ == plan_of(
                        cv[places@[k] as int].0,
                        cv[places@[k] as int].1,
                        dv,
                        tk,
                    ),
            decreases places.len() - i,
        {
            assert(places@[i as int] < candidates.len());
            let at = places[i];
            let key = &candidates[at].0;
            let candidate = &candidates[at].1;
            let boost: u128 = match find_key(dedup, key.as_str()) {
                Some(p) => dedup[p].1,
                None => 1,
            };
            let ghost lex = cv[at as int].1.lexical_form;
            assert(lex == views(candidate.lexical_form@));
            let mut found: Vec<Option<usize>> = Vec::new();
            let mut t: usize = 0;
            while t < candidate.lexical_form.len()
                invariant
                    t <= candidate.lexical_form.len(),
                    lex == views(candidate.lexical_form@),
                    keys(terms@) == tk,
                    found.len() == t,
                    forall|k: int|
                        0 <= k < t ==> (match #[trigger] found@[k] {
                            Some(p) => Some(p as int),
                            None => None,
                        }) == term_index(tk, lex[k]),
                decreases candidate.lexical_form.len() - t,
            {
                let at_term = find_key(terms, candidate.lexical_form[t].as_str());
                found.push(at_term);
                t += 1;
            }
            let plan = CandidatePlan {
                key: key.clone(),
                boost,
                tf: candidate.surface_forms.len(),
                terms: found,
            };
            proof {
                assert(plan@.terms =~= lex.map_values(|w: Seq<char>| term_index(tk, w)));
                assert(plan@.tf == cv[at as int].1.surface_forms.len());
            }
            plans.push(plan);
            i += 1;
        }
        assert(plan_views(plans@) =~= plans_of(
            places@.map_values(|i: usize| cv[i as int]),
            dv,
            tk,
        ));
        plans
    }

    /// Reads the text and gathers what the scores are computed from. A
    /// size of zero and a threshold outside of the range from above zero
    /// to one are turned down.
    pub fn build_yake(
        text: &str,
        stop_words: &Vec<String>,
        punctuation: &Vec<String>,
        threshold: &Threshold,
        ngram: usize,
        window_size: usize,
    ) -> (r: Result<Extraction, YakeError>)
        ensures
            match first_fault(*threshold, ngram as int, window_size as int) {
                Some(e) => r == Err::<Extraction, YakeError>(e),
                None => r.is_ok() && extraction_of(
                    r.unwrap(),
                    text@,
                    views(stop_words@),
                    views(punctuation@),
                    *threshold,
                    ngram as int,
                    window_size as int,
                ),
            },
            r.is_ok() && text@.len() == 0 ==> {
                &&& r.unwrap().sentences_len == 0
                &&& r.unwrap().candidates@.len() == 0
                &&& r.unwrap().dedup@.len() == 0
                &&& r.unwrap().features.terms@.len() == 0
                &&& r.unwrap().survivors@.len() == 0
                &&& r.unwrap().plans@.len() == 0
            },
    {
        if ngram == 0 {
            return Err(YakeError::ZeroNgram);
        }
        if window_size == 0 {
            return Err(YakeError::ZeroWindowSize);
        }
        if !(0 < threshold.num && threshold.num <= threshold.den) {
            return Err(YakeError::InvalidThreshold);
        }
        let sentences = SentencesBuilder::build_sentences(text);
        let (candidates, dedup, occurrences, contexts) =
            CandidateSelectionAndContextBuilder::select_candidates_and_build_context(
            &sentences,
            ngram,
            window_size,
            stop_words,
            punctuation,
        );
        let features = FeatureExtractor::count_words(&occurrences, &contexts);
        let mut names: Vec<String> = Vec::new();
        let mut i: usize = 0;
        while i < candidates.len()
            invariant
                i <= candidates.len(),
                names.len() == i,
                forall|k: int| 0 <= k < i ==> (#[trigger] names@[k])@ == candidates@[k].0@,
            decreases candidates.len() - i,
        {
            names.push(candidates[i].0.clone());
            i += 1;
        }
        assert(views(names@) =~= entry_keys(candidate_views(candidates@)));
        let survivors = surviving(&names, threshold);
        let plans = Self::plan_candidates(&candidates, &survivors, &dedup, &features.terms);
        proof {
            let cv = candidate_views(candidates@);
            assert(survivors@.map_values(|i: usize| cv[i as int]) =~= surviving_candidates(
                cv,
                *threshold,
            ));
            if text@.len() == 0 {
                let none = sentence_views(sentences@);
                assert(none.len() == 0);
                assert(cv.len() == 0);
                assert(dedup_views(dedup@).len() == 0);
                assert(occurrence_views(occurrences@).len() == 0);
                assert(feature_views(features.terms@).len() == 0);
                assert(survivors@.map_values(|i: usize| i as int).len() == 0);
                assert(plan_views(plans@).len() == 0);
            }
        }
        Ok(
            Extraction {
                sentences_len: sentences.len(),
                candidates,
                dedup,
                features,
                survivors,
                plans,
            },
        )
    }

    /// Reads the text of the parameters, with the punctuation of ASCII
    /// where they name none.
    pub fn extract(params: &YakeParams) -> (r: Result<Extraction, YakeError>)
        ensures
            match first_fault(params.threshold(), params.ngram() as int, params.window_size() as int) {
                Some(e) => r == Err::<Extraction, YakeError>(e),
                None => r.is_ok() && extraction_of(
                    r.unwrap(),
                    params.text(),
                    params.stop_words(),
                    params.punctuation(),
                    params.threshold(),
                    params.ngram() as int,
                    params.window_size() as int,
                ),
            },
    {
        let (text, stop_words, punctuation, threshold, ngram, window_size) = params.get_params();
        match punctuation {
            Some(p) => Self::build_yake(text, stop_words, p, &threshold, ngram, window_size),
            None => {
                let marks = default_punctuation();
                Self::build_yake(text, stop_words, &marks, &threshold, ngram, window_size)
            },
        }
    }
}

} // verus!
