//! Candidate phrases: every run of up to `ngram` neighbouring words of a
//! sentence that holds no punctuation, stop word or number, gathered under
//! the run's lower-case form.

use crate::common::text::{
    clone_range, deep_views, join_range, joined, lemma_joined_tells_apart, lowercased, space_free,
    views, without_space,
};
use crate::common::{
    entry_keys, find_key, invalid_word, is_invalid_word, keys, lemma_position, lemma_push_new,
    position,
};
use crate::yake::sentences_builder::{all_wf, sentence_views, Sentence, SentenceView};
use vstd::prelude::*;
use vstd::string::StringExecFns;

verus! {

/// A candidate: its lower-case words, and each run of words as written that
/// was found for it.
pub struct Candidate {
    pub lexical_form: Vec<String>,
    pub surface_forms: Vec<Vec<String>>,
}

/// What a candidate holds, as sequences of characters.
pub struct CandidateView {
    pub lexical_form: Seq<Seq<char>>,
    pub surface_forms: Seq<Seq<Seq<char>>>,
}

impl View for Candidate {
    type V = CandidateView;

    open spec fn view(&self) -> CandidateView {
        CandidateView {
            lexical_form: views(self.lexical_form@),
            surface_forms: deep_views(self.surface_forms@),
        }
    }
}

impl Candidate {
    /// A candidate with the given lower-case words and no surface form yet.
    pub fn new(stems: Vec<String>) -> (r: Self)
        ensures
            r.lexical_form == stems,
            r.surface_forms@.len() == 0,
            r@.lexical_form == views(stems@),
            r@.surface_forms == Seq::<Seq<Seq<char>>>::empty(),
    {
        let r = Candidate { lexical_form: stems, surface_forms: Vec::new() };
        assert(r@.surface_forms =~= Seq::<Seq<Seq<char>>>::empty());
        r
    }

    /// Puts one more surface form at the end.
    pub fn add(&mut self, words: Vec<String>)
        ensures
            final(self).lexical_form == old(self).lexical_form,
            final(self).surface_forms@ == old(self).surface_forms@.push(words),
            final(self)@.lexical_form == old(self)@.lexical_form,
            final(self)@.surface_forms == old(self)@.surface_forms.push(views(words@)),
    {
        self.surface_forms.push(words);
        assert(self@.surface_forms =~= old(self)@.surface_forms.push(views(words@)));
    }
}

/// What the selection has gathered: the candidates under their keys, in the
/// order in which each key first came up, and for each word of a candidate
/// of several words the number of times such a candidate brought it.
pub struct SelectionView {
    pub candidates: Seq<(Seq<char>, CandidateView)>,
    pub dedup: Seq<(Seq<char>, int)>,
}

/// The punctuation marks and stop words that the selection goes by.
pub struct WordFilter {
    pub punctuation: Seq<Seq<char>>,
    pub stop_words: Seq<Seq<char>>,
}

/// The candidates with their keys and words as character sequences.
pub open spec fn candidate_views(c: Seq<(String, Candidate)>) -> Seq<(Seq<char>, CandidateView)> {
    c.map_values(|e: (String, Candidate)| (e.0@, e.1@))
}

/// The counts with their words as character sequences.
pub open spec fn dedup_views(d: Seq<(String, u128)>) -> Seq<(Seq<char>, int)> {
    d.map_values(|e: (String, u128)| (e.0@, e.1 as int))
}

/// Counts `w` once more.
pub open spec fn bump(dedup: Seq<(Seq<char>, int)>, w: Seq<char>) -> Seq<(Seq<char>, int)> {
    let p = position(entry_keys(dedup), w);
    if p >= 0 {
        dedup.update(p, (w, dedup[p].1 + 1))
    } else {
        dedup.push((w, 1))
    }
}

/// Counts each of `stems` once more, from the first to the last.
pub open spec fn bump_all(dedup: Seq<(Seq<char>, int)>, stems: Seq<Seq<char>>) -> Seq<
    (Seq<char>, int),
>
    decreases stems.len(),
{
    if stems.len() == 0 {
        dedup
    } else {
        bump(bump_all(dedup, stems.drop_last()), stems.last())
    }
}

/// The selection after one more accepted run: a known key gets one more
/// surface form; a new key gets an entry at the end, and if it has several
/// words each of them is counted.
pub open spec fn accept(state: SelectionView, stems: Seq<Seq<char>>, words: Seq<Seq<char>>) -> SelectionView {
    let key = joined(stems);
    let p = position(entry_keys(state.candidates), key);
    if p >= 0 {
        let c = state.candidates[p].1;
        SelectionView {
            candidates: state.candidates.update(
                p,
                (
                    key,
                    CandidateView {
                        lexical_form: c.lexical_form,
                        surface_forms: c.surface_forms.push(words),
                    },
                ),
            ),
            dedup: state.dedup,
        }
    } else {
        SelectionView {
            candidates: state.candidates.push(
                (key, CandidateView { lexical_form: stems, surface_forms: seq![words] }),
            ),
            dedup: if stems.len() > 1 {
                bump_all(state.dedup, stems)
            } else {
                state.dedup
            },
        }
    }
}

/// Whether one of the words is punctuation, a stop word or a number.
pub open spec fn any_invalid(stems: Seq<Seq<char>>, filter: WordFilter) -> bool {
    exists|t: int|
        0 <= t < stems.len() && invalid_word(#[trigger] stems[t], filter.punctuation, filter.stop_words)
}

/// The selection after the run of words `j..k` of a sentence was looked at.
pub open spec fn window_step(
    state: SelectionView,
    s: SentenceView,
    j: int,
    k: int,
    filter: WordFilter,
) -> SelectionView {
    let stems = s.stemmed.subrange(j, k);
    if any_invalid(stems, filter) {
        state
    } else {
        accept(state, stems, s.words.subrange(j, k))
    }
}

/// The selection after the runs that start at `j` and end at `j + 1`, ...,
/// `k` were looked at, shortest first.
pub open spec fn after_windows(
    state: SelectionView,
    s: SentenceView,
    j: int,
    k: int,
    filter: WordFilter,
) -> SelectionView
    decreases k - j,
{
    if k <= j {
        state
    } else {
        window_step(after_windows(state, s, j, k - 1, filter), s, j, k, filter)
    }
}

/// Where the longest run that starts at `j` ends, in a sentence of `len`
/// words.
pub open spec fn window_end(len: int, j: int, ngram: int) -> int {
    if j + ngram < len {
        j + ngram
    } else {
        len
    }
}

/// The selection after all runs that start before `j` were looked at.
pub open spec fn after_starts(
    state: SelectionView,
    s: SentenceView,
    j: int,
    ngram: int,
    filter: WordFilter,
) -> SelectionView
    decreases j,
{
    if j <= 0 {
        state
    } else {
        after_windows(
            after_starts(state, s, j - 1, ngram, filter),
            s,
            j - 1,
            window_end(s.words.len() as int, j - 1, ngram),
            filter,
        )
    }
}

/// The selection after the first `n` sentences.
pub open spec fn selection(
    sentences: Seq<SentenceView>,
    n: int,
    ngram: int,
    filter: WordFilter,
) -> SelectionView
    decreases n,
{
    if n <= 0 {
        SelectionView { candidates: Seq::empty(), dedup: Seq::empty() }
    } else {
        let s = sentences[n - 1];
        after_starts(
            selection(sentences, n - 1, ngram, filter),
            s,
            s.words.len() as int,
            ngram,
            filter,
        )
    }
}

/// One candidate is well formed: its key is its lower-case words joined by
/// spaces; these are one to `ngram` words, none of them punctuation, a stop
/// word or a number; and each of its surface forms, of which there is at
/// least one, has one to `ngram` words.
pub open spec fn candidate_wf(key: Seq<char>, c: CandidateView, ngram: int, filter: WordFilter) -> bool {
    &&& key == joined(c.lexical_form)
    &&& 1 <= c.lexical_form.len() <= ngram
    &&& !any_invalid(c.lexical_form, filter)
    &&& c.surface_forms.len() >= 1
    &&& forall|f: int|
        0 <= f < c.surface_forms.len() ==> 1 <= (#[trigger] c.surface_forms[f]).len() <= ngram
}

/// The whole selection is well formed: no key stands twice, every candidate
/// is well formed, and every count is at least one and at most `ngram` times
/// the number of candidates.
pub open spec fn selection_wf(state: SelectionView, ngram: int, filter: WordFilter) -> bool {
    &&& entry_keys(state.candidates).no_duplicates()
    &&& forall|p: int|
        0 <= p < state.candidates.len() ==> candidate_wf(
            (#[trigger] state.candidates[p]).0,
            state.candidates[p].1,
            ngram,
            filter,
        )
    &&& entry_keys(state.dedup).no_duplicates()
    &&& counts_within(state.dedup, state.candidates.len() * ngram)
}

/// Every count is at least one and at most `bound`.
pub open spec fn counts_within(dedup: Seq<(Seq<char>, int)>, bound: int) -> bool {
    forall|p: int| 0 <= p < dedup.len() ==> 1 <= (#[trigger] dedup[p]).1 <= bound
}

proof fn lemma_bump(dedup: Seq<(Seq<char>, int)>, w: Seq<char>, bound: int)
    requires
        entry_keys(dedup).no_duplicates(),
        counts_within(dedup, bound),
        0 <= bound,
    ensures
        entry_keys(bump(dedup, w)).no_duplicates(),
        counts_within(bump(dedup, w), bound + 1),
{
    let ks = entry_keys(dedup);
    lemma_position(ks, w);
    let p = position(ks, w);
    let after = bump(dedup, w);
    if p >= 0 {
        assert(ks[p] == w);
        assert(entry_keys(after) =~= ks);
        assert forall|q: int| 0 <= q < after.len() implies 1 <= (#[trigger] after[q]).1 <= bound
            + 1 by {
            if q != p {
                assert(after[q] == dedup[q]);
            } else {
                assert(1 <= dedup[p].1 <= bound);
            }
        }
    } else {
        assert(entry_keys(after) =~= ks.push(w));
        lemma_push_new(ks, w);
        assert forall|q: int| 0 <= q < after.len() implies 1 <= (#[trigger] after[q]).1 <= bound
            + 1 by {
            if q < dedup.len() {
                assert(after[q] == dedup[q]);
            }
        }
    }
}

proof fn lemma_bump_all(dedup: Seq<(Seq<char>, int)>, stems: Seq<Seq<char>>, bound: int)
    requires
        entry_keys(dedup).no_duplicates(),
        counts_within(dedup, bound),
        0 <= bound,
    ensures
        entry_keys(bump_all(dedup, stems)).no_duplicates(),
        counts_within(bump_all(dedup, stems), bound + stems.len()),
    decreases stems.len(),
{
    if stems.len() > 0 {
        lemma_bump_all(dedup, stems.drop_last(), bound);
        lemma_bump(bump_all(dedup, stems.drop_last()), stems.last(), bound + stems.len() - 1);
    }
}

/// Accepting a run of one to `ngram` valid words keeps the selection well
/// formed.
proof fn lemma_accept_wf(
    state: SelectionView,
    stems: Seq<Seq<char>>,
    words: Seq<Seq<char>>,
    ngram: int,
    filter: WordFilter,
)
    requires
        selection_wf(state, ngram, filter),
        1 <= stems.len() <= ngram,
        words.len() == stems.len(),
        !any_invalid(stems, filter),
    ensures
        selection_wf(accept(state, stems, words), ngram, filter),
{
    let key = joined(stems);
    let ks = entry_keys(state.candidates);
    lemma_position(ks, key);
    let p = position(ks, key);
    let after = accept(state, stems, words);
    if p >= 0 {
        assert(ks[p] == key);
        assert(entry_keys(after.candidates) =~= ks);
        let c = state.candidates[p].1;
        assert(candidate_wf(state.candidates[p].0, c, ngram, filter));
        assert forall|q: int| 0 <= q < after.candidates.len() implies candidate_wf(
            (#[trigger] after.candidates[q]).0,
            after.candidates[q].1,
            ngram,
            filter,
        ) by {
            if q != p {
                assert(after.candidates[q] == state.candidates[q]);
            } else {
                let nc = after.candidates[p].1;
                assert forall|f: int| 0 <= f < nc.surface_forms.len() implies 1 <= (
                #[trigger] nc.surface_forms[f]).len() <= ngram by {
                    if f < c.surface_forms.len() {
                        assert(nc.surface_forms[f] == c.surface_forms[f]);
                    }
                }
            }
        }
    } else {
        assert(entry_keys(after.candidates) =~= ks.push(key));
        lemma_push_new(ks, key);
        assert forall|q: int| 0 <= q < after.candidates.len() implies candidate_wf(
            (#[trigger] after.candidates[q]).0,
            after.candidates[q].1,
            ngram,
            filter,
        ) by {
            if q < state.candidates.len() {
                assert(after.candidates[q] == state.candidates[q]);
            }
        }
        let bound = state.candidates.len() * ngram;
        assert(0 <= bound) by (nonlinear_arith)
            requires
                bound == state.candidates.len() * ngram,
                ngram >= 1,
        ;
        assert(bound + ngram == (state.candidates.len() + 1) * ngram) by (nonlinear_arith)
            requires
                bound == state.candidates.len() * ngram,
        ;
        if stems.len() > 1 {
            lemma_bump_all(state.dedup, stems, bound);
        }
        assert forall|q: int| 0 <= q < after.dedup.len() implies 1 <= (#[trigger] after.dedup[q]).1
            <= after.candidates.len() * ngram by {}
    }
}

/// Whether the selection holds `words` as a surface form under `key`.
pub open spec fn has_form(state: SelectionView, key: Seq<char>, words: Seq<Seq<char>>) -> bool {
    exists|p: int, f: int|
        0 <= p < state.candidates.len() && 0 <= f < state.candidates[p].1.surface_forms.len()
            && state.candidates[p].0 == key && #[trigger] state.candidates[p].1.surface_forms[f]
            == words
}

/// Accepting a run loses no surface form, and the run's own words stand
/// under its key afterwards.
proof fn lemma_accept_has(
    state: SelectionView,
    stems: Seq<Seq<char>>,
    words: Seq<Seq<char>>,
    key0: Seq<char>,
    words0: Seq<Seq<char>>,
)
    ensures
        has_form(state, key0, words0) ==> has_form(accept(state, stems, words), key0, words0),
        has_form(accept(state, stems, words), joined(stems), words),
{
    let key = joined(stems);
    let ks = entry_keys(state.candidates);
    lemma_position(ks, key);
    let at = position(ks, key);
    let after = accept(state, stems, words);
    if at >= 0 {
        assert(ks[at] == key);
        let last = state.candidates[at].1.surface_forms.len() as int;
        assert(after.candidates[at].0 == key);
        assert(after.candidates[at].1.surface_forms[last] == words);
    } else {
        let end = state.candidates.len() as int;
        assert(after.candidates[end].0 == key);
        assert(after.candidates[end].1.surface_forms[0] == words);
    }
    if has_form(state, key0, words0) {
        let (p, f) = choose|p: int, f: int|
            0 <= p < state.candidates.len() && 0 <= f < state.candidates[p].1.surface_forms.len()
                && state.candidates[p].0 == key0
                && #[trigger] state.candidates[p].1.surface_forms[f] == words0;
        if at >= 0 && p == at {
            assert(after.candidates[p].1.surface_forms[f] == words0);
        } else {
            assert(after.candidates[p] == state.candidates[p]);
            assert(after.candidates[p].1.surface_forms[f] == words0);
        }
    }
}

/// Looking at more runs from the same start loses no surface form.
proof fn lemma_after_windows_keeps(
    state: SelectionView,
    s: SentenceView,
    j: int,
    k: int,
    filter: WordFilter,
    key0: Seq<char>,
    words0: Seq<Seq<char>>,
)
    requires
        has_form(state, key0, words0),
    ensures
        has_form(after_windows(state, s, j, k, filter), key0, words0),
    decreases k - j,
{
    if k > j {
        lemma_after_windows_keeps(state, s, j, k - 1, filter, key0, words0);
        let prev = after_windows(state, s, j, k - 1, filter);
        lemma_accept_has(prev, s.stemmed.subrange(j, k), s.words.subrange(j, k), key0, words0);
    }
}

/// Every run from `j` up to `k` that holds no invalid word stands in the
/// selection afterwards.
proof fn lemma_after_windows_has(
    state: SelectionView,
    s: SentenceView,
    j: int,
    k: int,
    filter: WordFilter,
    k0: int,
)
    requires
        j < k0 <= k,
        !any_invalid(s.stemmed.subrange(j, k0), filter),
    ensures
        has_form(
            after_windows(state, s, j, k, filter),
            joined(s.stemmed.subrange(j, k0)),
            s.words.subrange(j, k0),
        ),
    decreases k - j,
{
    let prev = after_windows(state, s, j, k - 1, filter);
    if k0 == k {
        lemma_accept_has(
            prev,
            s.stemmed.subrange(j, k),
            s.words.subrange(j, k),
            joined(s.stemmed.subrange(j, k)),
            s.words.subrange(j, k),
        );
    } else {
        lemma_after_windows_has(state, s, j, k - 1, filter, k0);
        lemma_accept_has(
            prev,
            s.stemmed.subrange(j, k),
            s.words.subrange(j, k),
            joined(s.stemmed.subrange(j, k0)),
            s.words.subrange(j, k0),
        );
    }
}

/// Looking at the runs of more starts loses no surface form.
proof fn lemma_after_starts_keeps(
    state: SelectionView,
    s: SentenceView,
    j: int,
    ngram: int,
    filter: WordFilter,
    key0: Seq<char>,
    words0: Seq<Seq<char>>,
)
    requires
        has_form(state, key0, words0),
    ensures
        has_form(after_starts(state, s, j, ngram, filter), key0, words0),
    decreases j,
{
    if j > 0 {
        lemma_after_starts_keeps(state, s, j - 1, ngram, filter, key0, words0);
        lemma_after_windows_keeps(
            after_starts(state, s, j - 1, ngram, filter),
            s,
            j - 1,
            window_end(s.words.len() as int, j - 1, ngram),
            filter,
            key0,
            words0,
        );
    }
}

/// Every run of at most `ngram` words that starts before `j` and holds no
/// invalid word stands in the selection afterwards.
proof fn lemma_after_starts_has(
    state: SelectionView,
    s: SentenceView,
    j: int,
    ngram: int,
    filter: WordFilter,
    j0: int,
    k0: int,
)
    requires
        0 <= j0 < j,
        j0 < k0 <= window_end(s.words.len() as int, j0, ngram),
        !any_invalid(s.stemmed.subrange(j0, k0), filter),
    ensures
        has_form(
            after_starts(state, s, j, ngram, filter),
            joined(s.stemmed.subrange(j0, k0)),
            s.words.subrange(j0, k0),
        ),
    decreases j,
{
    let prev = after_starts(state, s, j - 1, ngram, filter);
    if j0 == j - 1 {
        lemma_after_windows_has(
            prev,
            s,
            j0,
            window_end(s.words.len() as int, j0, ngram),
            filter,
            k0,
        );
    } else {
        lemma_after_starts_has(state, s, j - 1, ngram, filter, j0, k0);
        lemma_after_windows_keeps(
            prev,
            s,
            j - 1,
            window_end(s.words.len() as int, j - 1, ngram),
            filter,
            joined(s.stemmed.subrange(j0, k0)),
            s.words.subrange(j0, k0),
        );
    }
}

/// Nothing is left out: every run of one to `ngram` neighbouring words of
/// a sentence that holds no punctuation, stop word or number stands among
/// the candidates, its words as a surface form under its key.
pub proof fn lemma_selection_complete(
    sentences: Seq<SentenceView>,
    n: int,
    ngram: int,
    filter: WordFilter,
    i0: int,
    j0: int,
    k0: int,
)
    requires
        0 <= i0 < n <= sentences.len(),
        0 <= j0 < k0 <= sentences[i0].words.len(),
        k0 - j0 <= ngram,
        !any_invalid(sentences[i0].stemmed.subrange(j0, k0), filter),
    ensures
        has_form(
            selection(sentences, n, ngram, filter),
            joined(sentences[i0].stemmed.subrange(j0, k0)),
            sentences[i0].words.subrange(j0, k0),
        ),
    decreases n,
{
    let s = sentences[n - 1];
    let prev = selection(sentences, n - 1, ngram, filter);
    if i0 == n - 1 {
        lemma_after_starts_has(prev, s, s.words.len() as int, ngram, filter, j0, k0);
    } else {
        lemma_selection_complete(sentences, n - 1, ngram, filter, i0, j0, k0);
        lemma_after_starts_keeps(
            prev,
            s,
            s.words.len() as int,
            ngram,
            filter,
            joined(sentences[i0].stemmed.subrange(j0, k0)),
            sentences[i0].words.subrange(j0, k0),
        );
    }
}

/// Whether `j..k` is a run of sentence `i` of at most `ngram` words that
/// holds no invalid word.
pub open spec fn is_window(
    sentences: Seq<SentenceView>,
    ngram: int,
    filter: WordFilter,
    i: int,
    j: int,
    k: int,
) -> bool {
    &&& 0 <= i < sentences.len()
    &&& 0 <= j < k <= sentences[i].words.len()
    &&& k - j <= ngram
    &&& !any_invalid(sentences[i].stemmed.subrange(j, k), filter)
}

/// Whether `form` is the words of the run `j..k` of sentence `i`, and `key`
/// the run's lower-case forms joined by spaces.
pub open spec fn is_form_of(
    sentences: Seq<SentenceView>,
    ngram: int,
    filter: WordFilter,
    i: int,
    j: int,
    k: int,
    key: Seq<char>,
    form: Seq<Seq<char>>,
) -> bool {
    &&& is_window(sentences, ngram, filter, i, j, k)
    &&& key == joined(sentences[i].stemmed.subrange(j, k))
    &&& form == sentences[i].words.subrange(j, k)
}

/// Whether `lexical` is the lower-case forms of the run `j..k` of sentence
/// `i`.
pub open spec fn is_lexical_of(
    sentences: Seq<SentenceView>,
    ngram: int,
    filter: WordFilter,
    i: int,
    j: int,
    k: int,
    lexical: Seq<Seq<char>>,
) -> bool {
    &&& is_window(sentences, ngram, filter, i, j, k)
    &&& lexical == sentences[i].stemmed.subrange(j, k)
}

/// Whether `form` is the words of some run of the sentences whose
/// lower-case forms joined by spaces are `key`.
pub open spec fn form_from_window(
    sentences: Seq<SentenceView>,
    ngram: int,
    filter: WordFilter,
    key: Seq<char>,
    form: Seq<Seq<char>>,
) -> bool {
    exists|i: int, j: int, k: int| #[trigger]
        is_form_of(sentences, ngram, filter, i, j, k, key, form)
}

/// Whether `lexical` is the lower-case forms of some run of the sentences.
pub open spec fn lexical_from_window(
    sentences: Seq<SentenceView>,
    ngram: int,
    filter: WordFilter,
    lexical: Seq<Seq<char>>,
) -> bool {
    exists|i: int, j: int, k: int| #[trigger]
        is_lexical_of(sentences, ngram, filter, i, j, k, lexical)
}

/// Whether every surface form of every candidate comes from a run of the
/// sentences, a run whose lower-case forms joined by spaces are the
/// candidate's key; and the lower-case words of every candidate are those
/// of such a run, and joined by spaces they are the candidate's key.
pub open spec fn all_from_windows(
    state: SelectionView,
    sentences: Seq<SentenceView>,
    ngram: int,
    filter: WordFilter,
) -> bool {
    &&& forall|p: int, f: int|
        0 <= p < state.candidates.len() && 0 <= f < state.candidates[p].1.surface_forms.len()
            ==> form_from_window(
            sentences,
            ngram,
            filter,
            state.candidates[p].0,
            #[trigger] state.candidates[p].1.surface_forms[f],
        )
    &&& forall|p: int|
        0 <= p < state.candidates.len() ==> lexical_from_window(
            sentences,
            ngram,
            filter,
            (#[trigger] state.candidates[p]).1.lexical_form,
        )
    &&& forall|p: int|
        0 <= p < state.candidates.len() ==> (#[trigger] state.candidates[p]).0 == joined(
            state.candidates[p].1.lexical_form,
        )
}

/// Accepting a run of the sentences adds nothing that does not come from a
/// run of the sentences.
proof fn lemma_accept_sound(
    state: SelectionView,
    sentences: Seq<SentenceView>,
    ngram: int,
    filter: WordFilter,
    i: int,
    j: int,
    k: int,
)
    requires
        all_from_windows(state, sentences, ngram, filter),
        is_window(sentences, ngram, filter, i, j, k),
    ensures
        all_from_windows(
            accept(state, sentences[i].stemmed.subrange(j, k), sentences[i].words.subrange(j, k)),
            sentences,
            ngram,
            filter,
        ),
{
    let stems = sentences[i].stemmed.subrange(j, k);
    let words = sentences[i].words.subrange(j, k);
    let key = joined(stems);
    let ks = entry_keys(state.candidates);
    lemma_position(ks, key);
    let at = position(ks, key);
    let after = accept(state, stems, words);
    assert(is_form_of(sentences, ngram, filter, i, j, k, key, words));
    assert(is_lexical_of(sentences, ngram, filter, i, j, k, stems));
    assert forall|p: int, f: int|
        0 <= p < after.candidates.len() && 0 <= f < after.candidates[p].1.surface_forms.len()
        implies form_from_window(
        sentences,
        ngram,
        filter,
        after.candidates[p].0,
        #[trigger] after.candidates[p].1.surface_forms[f],
    ) by {
        if at >= 0 && p == at {
            assert(ks[at] == key);
            if f < state.candidates[p].1.surface_forms.len() {
                assert(after.candidates[p].1.surface_forms[f]
                    == state.candidates[p].1.surface_forms[f]);
            }
        } else if p < state.candidates.len() {
            assert(after.candidates[p] == state.candidates[p]);
            assert(form_from_window(
                sentences,
                ngram,
                filter,
                state.candidates[p].0,
                state.candidates[p].1.surface_forms[f],
            ));
        }
    }
    assert forall|p: int| 0 <= p < after.candidates.len() implies lexical_from_window(
        sentences,
        ngram,
        filter,
        (#[trigger] after.candidates[p]).1.lexical_form,
    ) by {
        if p < state.candidates.len() {
            assert(lexical_from_window(
                sentences,
                ngram,
                filter,
                state.candidates[p].1.lexical_form,
            ));
            if !(at >= 0 && p == at) {
                assert(after.candidates[p] == state.candidates[p]);
            }
        }
    }
    assert forall|p: int| 0 <= p < after.candidates.len() implies (
    #[trigger] after.candidates[p]).0 == joined(after.candidates[p].1.lexical_form) by {
        if p < state.candidates.len() {
            assert(state.candidates[p].0 == joined(state.candidates[p].1.lexical_form));
            if at >= 0 && p == at {
                assert(ks[at] == key);
            } else {
                assert(after.candidates[p] == state.candidates[p]);
            }
        }
    }
}

/// Looking at the runs of a sentence from the start `j` adds nothing that
/// does not come from a run of the sentences.
proof fn lemma_after_windows_sound(
    state: SelectionView,
    sentences: Seq<SentenceView>,
    ngram: int,
    filter: WordFilter,
    i: int,
    j: int,
    k: int,
)
    requires
        all_from_windows(state, sentences, ngram, filter),
        0 <= i < sentences.len(),
        0 <= j <= k <= sentences[i].words.len(),
        k - j <= ngram,
    ensures
        all_from_windows(after_windows(state, sentences[i], j, k, filter), sentences, ngram, filter),
    decreases k - j,
{
    if k > j {
        lemma_after_windows_sound(state, sentences, ngram, filter, i, j, k - 1);
        let prev = after_windows(state, sentences[i], j, k - 1, filter);
        if !any_invalid(sentences[i].stemmed.subrange(j, k), filter) {
            lemma_accept_sound(prev, sentences, ngram, filter, i, j, k);
        }
    }
}

/// Looking at the runs of a sentence adds nothing that does not come from a
/// run of the sentences.
proof fn lemma_after_starts_sound(
    state: SelectionView,
    sentences: Seq<SentenceView>,
    ngram: int,
    filter: WordFilter,
    i: int,
    j: int,
)
    requires
        all_from_windows(state, sentences, ngram, filter),
        0 <= i < sentences.len(),
        0 <= j <= sentences[i].words.len(),
        0 <= ngram,
    ensures
        all_from_windows(
            after_starts(state, sentences[i], j, ngram, filter),
            sentences,
            ngram,
            filter,
        ),
    decreases j,
{
    if j > 0 {
        lemma_after_starts_sound(state, sentences, ngram, filter, i, j - 1);
        lemma_after_windows_sound(
            after_starts(state, sentences[i], j - 1, ngram, filter),
            sentences,
            ngram,
            filter,
            i,
            j - 1,
            window_end(sentences[i].words.len() as int, j - 1, ngram),
        );
    }
}

/// Nothing is made up: every surface form of every candidate is a run of
/// words of a sentence, at most `ngram` words without punctuation, stop
/// word or number, whose lower-case forms joined by spaces are the
/// candidate's key; and the lower-case words of the candidate are those of
/// such a run.
pub proof fn lemma_selection_sound(
    sentences: Seq<SentenceView>,
    n: int,
    ngram: int,
    filter: WordFilter,
)
    requires
        0 <= n <= sentences.len(),
        0 <= ngram,
    ensures
        all_from_windows(selection(sentences, n, ngram, filter), sentences, ngram, filter),
    decreases n,
{
    if n > 0 {
        lemma_selection_sound(sentences, n - 1, ngram, filter);
        lemma_after_starts_sound(
            selection(sentences, n - 1, ngram, filter),
            sentences,
            ngram,
            filter,
            n - 1,
            sentences[n - 1].words.len() as int,
        );
    }
}

/// Whether every lower-case form of every sentence is the lower-case form
/// of the word at its place.
pub open spec fn in_lower_case(sentences: Seq<SentenceView>) -> bool {
    forall|i: int, j: int|
        0 <= i < sentences.len() && 0 <= j < sentences[i].words.len() ==> #[trigger] sentences[i].stemmed[j]
            == lowercased(sentences[i].words[j])
}

/// Where no lower-case form of the sentences holds a space, every surface
/// form of a candidate has as many words as the candidate's lexical form;
/// and where the lower-case forms are those of the words, every surface
/// form in lower case is the lexical form.
pub proof fn lemma_forms_match_lexical(
    sentences: Seq<SentenceView>,
    ngram: int,
    filter: WordFilter,
    p: int,
    f: int,
)
    requires
        0 <= ngram,
        forall|i: int|
            0 <= i < sentences.len() ==> (#[trigger] sentences[i]).words.len()
                == sentences[i].stemmed.len() && space_free(sentences[i].stemmed),
        0 <= p < selected(sentences, ngram, filter).candidates.len(),
        0 <= f < selected(sentences, ngram, filter).candidates[p].1.surface_forms.len(),
    ensures
        selected(sentences, ngram, filter).candidates[p].1.surface_forms[f].len() == selected(
            sentences,
            ngram,
            filter,
        ).candidates[p].1.lexical_form.len(),
        in_lower_case(sentences) ==> selected(
            sentences,
            ngram,
            filter,
        ).candidates[p].1.surface_forms[f].map_values(|w: Seq<char>| lowercased(w)) == selected(
            sentences,
            ngram,
            filter,
        ).candidates[p].1.lexical_form,
{
    let found = selected(sentences, ngram, filter);
    let key = found.candidates[p].0;
    let lexical = found.candidates[p].1.lexical_form;
    let form = found.candidates[p].1.surface_forms[f];
    lemma_selection_sound(sentences, sentences.len() as int, ngram, filter);
    assert(form_from_window(sentences, ngram, filter, key, form));
    assert(lexical_from_window(sentences, ngram, filter, found.candidates[p].1.lexical_form));
    let (i, j, k) = choose|i: int, j: int, k: int| #[trigger]
        is_form_of(sentences, ngram, filter, i, j, k, key, form);
    let (x, y, z) = choose|x: int, y: int, z: int| #[trigger]
        is_lexical_of(sentences, ngram, filter, x, y, z, lexical);
    let stems = sentences[i].stemmed.subrange(j, k);
    assert(space_free(sentences[i].stemmed));
    assert(space_free(sentences[x].stemmed));
    assert forall|t: int| 0 <= t < stems.len() implies without_space(#[trigger] stems[t]) by {
        assert(stems[t] == sentences[i].stemmed[j + t]);
    }
    assert forall|t: int| 0 <= t < lexical.len() implies without_space(#[trigger] lexical[t]) by {
        assert(lexical[t] == sentences[x].stemmed[y + t]);
    }
    lemma_joined_tells_apart(stems, lexical);
    if in_lower_case(sentences) {
        assert(form.map_values(|w: Seq<char>| lowercased(w)) =~= stems) by {
            assert forall|t: int| 0 <= t < form.len() implies lowercased(#[trigger] form[t])
                == stems[t] by {
                assert(form[t] == sentences[i].words[j + t]);
                assert(stems[t] == sentences[i].stemmed[j + t]);
            }
        }
    }
}

/// The number of surface forms that stand under `key`, zero where the key
/// is no candidate.
pub open spec fn forms_under(state: SelectionView, key: Seq<char>) -> int {
    let p = position(entry_keys(state.candidates), key);
    if p >= 0 {
        state.candidates[p].1.surface_forms.len() as int
    } else {
        0
    }
}

/// One if the run `j..k` of the sentence holds no invalid word and has the
/// key `key`, else zero.
pub open spec fn window_hit(s: SentenceView, j: int, k: int, filter: WordFilter, key: Seq<char>) -> int {
    let stems = s.stemmed.subrange(j, k);
    if !any_invalid(stems, filter) && joined(stems) == key {
        1
    } else {
        0
    }
}

/// The number of runs from `j` that end at `j + 1`, ..., `k`, hold no
/// invalid word and have the key `key`.
pub open spec fn window_hits(s: SentenceView, j: int, k: int, filter: WordFilter, key: Seq<char>) -> int
    decreases k - j,
{
    if k <= j {
        0
    } else {
        window_hits(s, j, k - 1, filter, key) + window_hit(s, j, k, filter, key)
    }
}

/// The number of such runs of at most `ngram` words that start before `j`.
pub open spec fn start_hits(
    s: SentenceView,
    j: int,
    ngram: int,
    filter: WordFilter,
    key: Seq<char>,
) -> int
    decreases j,
{
    if j <= 0 {
        0
    } else {
        start_hits(s, j - 1, ngram, filter, key) + window_hits(
            s,
            j - 1,
            window_end(s.words.len() as int, j - 1, ngram),
            filter,
            key,
        )
    }
}

/// The number of runs of at most `ngram` words in the first `n` sentences
/// that hold no invalid word and have the key `key`.
pub open spec fn sentence_hits(
    sentences: Seq<SentenceView>,
    n: int,
    ngram: int,
    filter: WordFilter,
    key: Seq<char>,
) -> int
    decreases n,
{
    if n <= 0 {
        0
    } else {
        sentence_hits(sentences, n - 1, ngram, filter, key) + start_hits(
            sentences[n - 1],
            sentences[n - 1].words.len() as int,
            ngram,
            filter,
            key,
        )
    }
}

/// Accepting a run adds one surface form under the run's key and none
/// under any other.
proof fn lemma_accept_counts(
    state: SelectionView,
    stems: Seq<Seq<char>>,
    words: Seq<Seq<char>>,
    key: Seq<char>,
)
    requires
        entry_keys(state.candidates).no_duplicates(),
    ensures
        entry_keys(accept(state, stems, words).candidates).no_duplicates(),
        forms_under(accept(state, stems, words), key) == forms_under(state, key) + if joined(stems)
            == key {
            1int
        } else {
            0int
        },
{
    let own = joined(stems);
    let ks = entry_keys(state.candidates);
    let after = accept(state, stems, words);
    let ka = entry_keys(after.candidates);
    lemma_position(ks, own);
    lemma_position(ks, key);
    let at = position(ks, own);
    if at >= 0 {
        assert(ks[at] == own);
        assert(ka =~= ks);
        let q = position(ks, key);
        if q >= 0 && q != at {
            assert(after.candidates[q] == state.candidates[q]);
        }
    } else {
        assert(ka =~= ks.push(own));
        lemma_push_new(ks, own);
        lemma_position(ka, key);
        let q = position(ks, key);
        if q >= 0 {
            assert(ks[q] == key);
            assert(ka[q] == key);
            assert(after.candidates[q] == state.candidates[q]);
        } else if own == key {
            assert(ka[ks.len() as int] == key);
        } else {
            if ka.contains(key) {
                let x = choose|x: int| 0 <= x < ka.len() && ka[x] == key;
                if x < ks.len() {
                    assert(ks[x] == key);
                }
            }
        }
    }
}

proof fn lemma_after_windows_counts(
    state: SelectionView,
    s: SentenceView,
    j: int,
    k: int,
    filter: WordFilter,
    key: Seq<char>,
)
    requires
        entry_keys(state.candidates).no_duplicates(),
    ensures
        entry_keys(after_windows(state, s, j, k, filter).candidates).no_duplicates(),
        forms_under(after_windows(state, s, j, k, filter), key) == forms_under(state, key)
            + window_hits(s, j, k, filter, key),
    decreases k - j,
{
    if k > j {
        lemma_after_windows_counts(state, s, j, k - 1, filter, key);
        lemma_accept_counts(
            after_windows(state, s, j, k - 1, filter),
            s.stemmed.subrange(j, k),
            s.words.subrange(j, k),
            key,
        );
    }
}

proof fn lemma_after_starts_counts(
    state: SelectionView,
    s: SentenceView,
    j: int,
    ngram: int,
    filter: WordFilter,
    key: Seq<char>,
)
    requires
        entry_keys(state.candidates).no_duplicates(),
    ensures
        entry_keys(after_starts(state, s, j, ngram, filter).candidates).no_duplicates(),
        forms_under(after_starts(state, s, j, ngram, filter), key) == forms_under(state, key)
            + start_hits(s, j, ngram, filter, key),
    decreases j,
{
    if j > 0 {
        lemma_after_starts_counts(state, s, j - 1, ngram, filter, key);
        lemma_after_windows_counts(
            after_starts(state, s, j - 1, ngram, filter),
            s,
            j - 1,
            window_end(s.words.len() as int, j - 1, ngram),
            filter,
            key,
        );
    }
}

/// Nothing is counted twice or left out: a candidate has as many surface
/// forms as there are runs of at most `ngram` words in the sentences that
/// hold no invalid word and have its key; and what is no candidate's key
/// is the key of no such run.
pub proof fn lemma_selection_counts(
    sentences: Seq<SentenceView>,
    n: int,
    ngram: int,
    filter: WordFilter,
    key: Seq<char>,
)
    ensures
        entry_keys(selection(sentences, n, ngram, filter).candidates).no_duplicates(),
        forms_under(selection(sentences, n, ngram, filter), key) == sentence_hits(
            sentences,
            n,
            ngram,
            filter,
            key,
        ),
    decreases n,
{
    if n > 0 {
        lemma_selection_counts(sentences, n - 1, ngram, filter, key);
        lemma_after_starts_counts(
            selection(sentences, n - 1, ngram, filter),
            sentences[n - 1],
            sentences[n - 1].words.len() as int,
            ngram,
            filter,
            key,
        );
    } else {
        let none = selection(sentences, n, ngram, filter);
        assert(entry_keys(none.candidates) =~= Seq::<Seq<char>>::empty());
        lemma_position(entry_keys(none.candidates), key);
    }
}

/// How often `w` stands in the list.
pub open spec fn times_in(list: Seq<Seq<char>>, w: Seq<char>) -> int
    decreases list.len(),
{
    if list.len() == 0 {
        0
    } else {
        times_in(list.drop_last(), w) + if list.last() == w {
            1int
        } else {
            0int
        }
    }
}

/// The count that stands under `w`, zero where none does.
pub open spec fn count_under(dedup: Seq<(Seq<char>, int)>, w: Seq<char>) -> int {
    let p = position(entry_keys(dedup), w);
    if p >= 0 {
        dedup[p].1
    } else {
        0
    }
}

/// How often `w` stands in the lower-case words of the first `n`
/// candidates, those of one word left aside.
pub open spec fn times_in_phrases(
    candidates: Seq<(Seq<char>, CandidateView)>,
    n: int,
    w: Seq<char>,
) -> int
    decreases n,
{
    if n <= 0 {
        0
    } else {
        times_in_phrases(candidates, n - 1, w) + if candidates[n - 1].1.lexical_form.len() > 1 {
            times_in(candidates[n - 1].1.lexical_form, w)
        } else {
            0
        }
    }
}

proof fn lemma_bump_counts(dedup: Seq<(Seq<char>, int)>, x: Seq<char>, w: Seq<char>)
    requires
        entry_keys(dedup).no_duplicates(),
    ensures
        entry_keys(bump(dedup, x)).no_duplicates(),
        count_under(bump(dedup, x), w) == count_under(dedup, w) + if x == w {
            1int
        } else {
            0int
        },
{
    let ks = entry_keys(dedup);
    let after = bump(dedup, x);
    let ka = entry_keys(after);
    lemma_position(ks, x);
    lemma_position(ks, w);
    let at = position(ks, x);
    if at >= 0 {
        assert(ks[at] == x);
        assert(ka =~= ks);
        let q = position(ks, w);
        if q >= 0 && q != at {
            assert(after[q] == dedup[q]);
        }
    } else {
        assert(ka =~= ks.push(x));
        lemma_push_new(ks, x);
        lemma_position(ka, w);
        let q = position(ks, w);
        if q >= 0 {
            assert(ks[q] == w);
            assert(ka[q] == w);
            assert(after[q] == dedup[q]);
        } else if x == w {
            assert(ka[ks.len() as int] == w);
        } else {
            if ka.contains(w) {
                let y = choose|y: int| 0 <= y < ka.len() && ka[y] == w;
                if y < ks.len() {
                    assert(ks[y] == w);
                }
            }
        }
    }
}

proof fn lemma_bump_all_counts(dedup: Seq<(Seq<char>, int)>, stems: Seq<Seq<char>>, w: Seq<char>)
    requires
        entry_keys(dedup).no_duplicates(),
    ensures
        entry_keys(bump_all(dedup, stems)).no_duplicates(),
        count_under(bump_all(dedup, stems), w) == count_under(dedup, w) + times_in(stems, w),
    decreases stems.len(),
{
    if stems.len() > 0 {
        lemma_bump_all_counts(dedup, stems.drop_last(), w);
        lemma_bump_counts(bump_all(dedup, stems.drop_last()), stems.last(), w);
    }
}

proof fn lemma_times_in_phrases_same(
    a: Seq<(Seq<char>, CandidateView)>,
    b: Seq<(Seq<char>, CandidateView)>,
    n: int,
    w: Seq<char>,
)
    requires
        0 <= n <= a.len(),
        n <= b.len(),
        forall|p: int| 0 <= p < n ==> (#[trigger] a[p]).1.lexical_form == b[p].1.lexical_form,
    ensures
        times_in_phrases(a, n, w) == times_in_phrases(b, n, w),
    decreases n,
{
    if n > 0 {
        lemma_times_in_phrases_same(a, b, n - 1, w);
    }
}

/// Whether the count under every word is the number of times the word
/// stands in the candidates of several words.
pub open spec fn counts_match(state: SelectionView) -> bool {
    &&& entry_keys(state.candidates).no_duplicates()
    &&& entry_keys(state.dedup).no_duplicates()
    &&& forall|w: Seq<char>| #[trigger]
        count_under(state.dedup, w) == times_in_phrases(
            state.candidates,
            state.candidates.len() as int,
            w,
        )
}

/// Accepting a run keeps the counts in step with the candidates.
proof fn lemma_accept_counts_match(
    state: SelectionView,
    stems: Seq<Seq<char>>,
    words: Seq<Seq<char>>,
)
    requires
        counts_match(state),
    ensures
        counts_match(accept(state, stems, words)),
{
    let key = joined(stems);
    let ks = entry_keys(state.candidates);
    lemma_position(ks, key);
    let at = position(ks, key);
    let after = accept(state, stems, words);
    lemma_accept_counts(state, stems, words, key);
    let n = state.candidates.len() as int;
    assert forall|w: Seq<char>| #[trigger]
        count_under(after.dedup, w) == times_in_phrases(
            after.candidates,
            after.candidates.len() as int,
            w,
        ) by {
        assert(count_under(state.dedup, w) == times_in_phrases(state.candidates, n, w));
        if at >= 0 {
            lemma_times_in_phrases_same(state.candidates, after.candidates, n, w);
        } else {
            lemma_times_in_phrases_same(state.candidates, after.candidates, n, w);
            if stems.len() > 1 {
                lemma_bump_all_counts(state.dedup, stems, w);
            }
        }
    }
    if at < 0 && stems.len() > 1 {
        lemma_bump_all_counts(state.dedup, stems, joined(stems));
    }
}

proof fn lemma_after_windows_counts_match(
    state: SelectionView,
    s: SentenceView,
    j: int,
    k: int,
    filter: WordFilter,
)
    requires
        counts_match(state),
    ensures
        counts_match(after_windows(state, s, j, k, filter)),
    decreases k - j,
{
    if k > j {
        lemma_after_windows_counts_match(state, s, j, k - 1, filter);
        lemma_accept_counts_match(
            after_windows(state, s, j, k - 1, filter),
            s.stemmed.subrange(j, k),
            s.words.subrange(j, k),
        );
    }
}

proof fn lemma_after_starts_counts_match(
    state: SelectionView,
    s: SentenceView,
    j: int,
    ngram: int,
    filter: WordFilter,
)
    requires
        counts_match(state),
    ensures
        counts_match(after_starts(state, s, j, ngram, filter)),
    decreases j,
{
    if j > 0 {
        lemma_after_starts_counts_match(state, s, j - 1, ngram, filter);
        lemma_after_windows_counts_match(
            after_starts(state, s, j - 1, ngram, filter),
            s,
            j - 1,
            window_end(s.words.len() as int, j - 1, ngram),
            filter,
        );
    }
}

/// The count under a word is the number of times the word stands in the
/// lower-case words of the candidates of several words; a word that
/// stands in none of them has no count.
pub proof fn lemma_selection_counts_match(
    sentences: Seq<SentenceView>,
    n: int,
    ngram: int,
    filter: WordFilter,
)
    ensures
        counts_match(selection(sentences, n, ngram, filter)),
    decreases n,
{
    if n > 0 {
        lemma_selection_counts_match(sentences, n - 1, ngram, filter);
        lemma_after_starts_counts_match(
            selection(sentences, n - 1, ngram, filter),
            sentences[n - 1],
            sentences[n - 1].words.len() as int,
            ngram,
            filter,
        );
    } else {
        let none = selection(sentences, n, ngram, filter);
        assert(entry_keys(none.candidates) =~= Seq::<Seq<char>>::empty());
        assert(entry_keys(none.dedup) =~= Seq::<Seq<char>>::empty());
        assert forall|w: Seq<char>| #[trigger]
            count_under(none.dedup, w) == times_in_phrases(
                none.candidates,
                none.candidates.len() as int,
                w,
            ) by {
            lemma_position(entry_keys(none.dedup), w);
        }
    }
}

/// The candidates under their keys, in the order in which each key first
/// came up.
pub type Candidates = Vec<(String, Candidate)>;

/// For each word of a candidate of several words, how many times such a
/// candidate brought it.
pub type DedupMap = Vec<(String, u128)>;

/// Candidates and counts together, as character sequences and integers.
pub open spec fn selection_view(
    candidates: Seq<(String, Candidate)>,
    dedup: Seq<(String, u128)>,
) -> SelectionView {
    SelectionView { candidates: candidate_views(candidates), dedup: dedup_views(dedup) }
}

/// The candidates and counts that the sentences give.
pub open spec fn selected(sentences: Seq<SentenceView>, ngram: int, filter: WordFilter) -> SelectionView {
    selection(sentences, sentences.len() as int, ngram, filter)
}

fn bump_word(dedup: &mut DedupMap, w: &str, Ghost(bound): Ghost<int>)
    requires
        counts_within(dedup_views(old(dedup)@), bound),
        bound < u128::MAX,
    ensures
        dedup_views(final(dedup)@) == bump(dedup_views(old(dedup)@), w@),
{
    let ghost before = dedup_views(dedup@);
    assert(keys(dedup@) =~= entry_keys(before));
    match find_key(dedup, w) {
        Some(p) => {
            proof {
                lemma_position(entry_keys(before), w@);
                assert(entry_keys(before)[p as int] == w@);
                assert(1 <= before[p as int].1 <= bound);
            }
            dedup[p].1 += 1;
            assert(dedup_views(dedup@) =~= before.update(p as int, (w@, before[p as int].1 + 1)));
        },
        None => {
            dedup.push((String::from_str(w), 1));
            assert(dedup_views(dedup@) =~= before.push((w@, 1)));
        },
    }
}

fn bump_words(dedup: &mut DedupMap, stems: &Vec<String>, Ghost(bound): Ghost<int>)
    requires
        entry_keys(dedup_views(old(dedup)@)).no_duplicates(),
        counts_within(dedup_views(old(dedup)@), bound),
        0 <= bound,
        bound + stems.len() < u128::MAX,
    ensures
        dedup_views(final(dedup)@) == bump_all(dedup_views(old(dedup)@), views(stems@)),
{
    let ghost start = dedup_views(dedup@);
    let ghost all = views(stems@);
    let mut t: usize = 0;
    assert(all.take(0) =~= Seq::<Seq<char>>::empty());
    while t < stems.len()
        invariant
            t <= stems.len(),
            all == views(stems@),
            0 <= bound,
            bound + stems.len() < u128::MAX,
            entry_keys(start).no_duplicates(),
            counts_within(start, bound),
            dedup_views(dedup@) == bump_all(start, all.take(t as int)),
        decreases stems.len() - t,
    {
        proof {
            lemma_bump_all(start, all.take(t as int), bound);
            assert(all.take(t + 1).drop_last() =~= all.take(t as int));
            assert(all.take(t + 1).last() == stems@[t as int]@);
        }
        bump_word(dedup, stems[t].as_str(), Ghost(bound + t));
        t += 1;
    }
    assert(all.take(stems.len() as int) =~= all);
}

fn accept_window(
    candidates: &mut Candidates,
    dedup: &mut DedupMap,
    sentence: &Sentence,
    j: usize,
    k: usize,
    Ghost(ngram): Ghost<int>,
    Ghost(filter): Ghost<WordFilter>,
)
    requires
        sentence.wf(),
        j < k <= sentence.length,
        k - j <= ngram <= usize::MAX,
        selection_wf(selection_view(old(candidates)@, old(dedup)@), ngram, filter),
        !any_invalid(sentence@.stemmed.subrange(j as int, k as int), filter),
    ensures
        selection_view(final(candidates)@, final(dedup)@) == accept(
            selection_view(old(candidates)@, old(dedup)@),
            sentence@.stemmed.subrange(j as int, k as int),
            sentence@.words.subrange(j as int, k as int),
        ),
        selection_wf(selection_view(final(candidates)@, final(dedup)@), ngram, filter),
{
    let ghost before = selection_view(candidates@, dedup@);
    let ghost stems_view = sentence@.stemmed.subrange(j as int, k as int);
    let ghost words_view = sentence@.words.subrange(j as int, k as int);
    proof {
        lemma_accept_wf(before, stems_view, words_view, ngram, filter);
        assert(keys(candidates@) =~= entry_keys(before.candidates));
        lemma_position(entry_keys(before.candidates), joined(stems_view));
    }
    let key = join_range(&sentence.stemmed, j, k);
    let words = clone_range(&sentence.words, j, k);
    match find_key(candidates, key.as_str()) {
        Some(p) => {
            assert(entry_keys(before.candidates)[p as int] == key@);
            candidates[p].1.add(words);
            assert(candidate_views(candidates@) =~= before.candidates.update(
                p as int,
                (
                    key@,
                    CandidateView {
                        lexical_form: before.candidates[p as int].1.lexical_form,
                        surface_forms: before.candidates[p as int].1.surface_forms.push(words_view),
                    },
                ),
            ));
        },
        None => {
            let stems = clone_range(&sentence.stemmed, j, k);
            if k - j > 1 {
                let ghost bound = before.candidates.len() * ngram;
                proof {
                    assert(before.candidates.len() == candidates.len());
                    assert(0 <= bound && bound + ngram <= usize::MAX * usize::MAX + usize::MAX)
                        by (nonlinear_arith)
                        requires
                            bound == before.candidates.len() * ngram,
                            0 <= before.candidates.len() <= usize::MAX,
                            1 <= ngram <= usize::MAX,
                    ;
                }
                bump_words(dedup, &stems, Ghost(bound));
            }
            let mut c = Candidate::new(stems);
            c.add(words);
            assert(c@.surface_forms =~= seq![words_view]);
            candidates.push((key, c));
            assert(candidate_views(candidates@) =~= before.candidates.push(
                (key@, CandidateView { lexical_form: stems_view, surface_forms: seq![words_view] }),
            ));
        },
    }
}

fn process_sentence(
    candidates: &mut Candidates,
    dedup: &mut DedupMap,
    sentence: &Sentence,
    ngram: usize,
    stop_words: &Vec<String>,
    punctuation: &Vec<String>,
)
    requires
        sentence.wf(),
        selection_wf(
            selection_view(old(candidates)@, old(dedup)@),
            ngram as int,
            WordFilter { punctuation: views(punctuation@), stop_words: views(stop_words@) },
        ),
    ensures
        selection_view(final(candidates)@, final(dedup)@) == after_starts(
            selection_view(old(candidates)@, old(dedup)@),
            sentence@,
            sentence.length as int,
            ngram as int,
            WordFilter { punctuation: views(punctuation@), stop_words: views(stop_words@) },
        ),
        selection_wf(
            selection_view(final(candidates)@, final(dedup)@),
            ngram as int,
            WordFilter { punctuation: views(punctuation@), stop_words: views(stop_words@) },
        ),
{
    let ghost filter = WordFilter {
        punctuation: views(punctuation@),
        stop_words: views(stop_words@),
    };
    let ghost start = selection_view(candidates@, dedup@);
    let ghost s = sentence@;
    let len = sentence.length;
    let mut j: usize = 0;
    while j < len
        invariant
            sentence.wf(),
            len == sentence.length,
            s == sentence@,
            j <= len,
            filter == (WordFilter {
                punctuation: views(punctuation@),
                stop_words: views(stop_words@),
            }),
            selection_view(candidates@, dedup@) == after_starts(
                start,
                s,
                j as int,
                ngram as int,
                filter,
            ),
            selection_wf(selection_view(candidates@, dedup@), ngram as int, filter),
        decreases len - j,
    {
        let hi: usize = if ngram < len - j {
            j + ngram
        } else {
            len
        };
        assert(hi == window_end(s.words.len() as int, j as int, ngram as int));
        let ghost row = selection_view(candidates@, dedup@);
        let mut k: usize = j;
        let mut blocked = false;
        while k < hi
            invariant
                sentence.wf(),
                len == sentence.length,
                s == sentence@,
                j <= k <= hi <= len,
                hi - j <= ngram,
                filter == (WordFilter {
                    punctuation: views(punctuation@),
                    stop_words: views(stop_words@),
                }),
                blocked == any_invalid(s.stemmed.subrange(j as int, k as int), filter),
                selection_view(candidates@, dedup@) == after_windows(
                    row,
                    s,
                    j as int,
                    k as int,
                    filter,
                ),
                selection_wf(selection_view(candidates@, dedup@), ngram as int, filter),
            decreases hi - k,
        {
            let invalid = is_invalid_word(sentence.stemmed[k].as_str(), punctuation, stop_words);
            proof {
                let shorter = s.stemmed.subrange(j as int, k as int);
                let longer = s.stemmed.subrange(j as int, k + 1);
                assert(longer[k - j] == s.stemmed[k as int]);
                if any_invalid(shorter, filter) {
                    let t = choose|t: int|
                        0 <= t < shorter.len() && invalid_word(
                            #[trigger] shorter[t],
                            filter.punctuation,
                            filter.stop_words,
                        );
                    assert(longer[t] == shorter[t]);
                }
                if any_invalid(longer, filter) {
                    let t = choose|t: int|
                        0 <= t < longer.len() && invalid_word(
                            #[trigger] longer[t],
                            filter.punctuation,
                            filter.stop_words,
                        );
                    if t < k - j {
                        assert(longer[t] == shorter[t]);
                    }
                }
            }
            blocked = blocked || invalid;
            k += 1;
            if !blocked {
                accept_window(candidates, dedup, sentence, j, k, Ghost(ngram as int), Ghost(filter));
            }
        }
        j += 1;
    }
}

/// The gathering of candidates.
pub struct CandidateSelection;

impl CandidateSelection {
    /// Gathers the candidates of the sentences and counts the words of the
    /// candidates of several words.
    pub fn select_candidates(
        sentences: &Vec<Sentence>,
        ngram: usize,
        stop_words: &Vec<String>,
        punctuation: &Vec<String>,
    ) -> (r: (Candidates, DedupMap))
        requires
            all_wf(sentences@),
        ensures
            selection_view(r.0@, r.1@) == selected(
                sentence_views(sentences@),
                ngram as int,
                WordFilter { punctuation: views(punctuation@), stop_words: views(stop_words@) },
            ),
            selection_wf(
                selection_view(r.0@, r.1@),
                ngram as int,
                WordFilter { punctuation: views(punctuation@), stop_words: views(stop_words@) },
            ),
    {
        let ghost filter = WordFilter {
            punctuation: views(punctuation@),
            stop_words: views(stop_words@),
        };
        let ghost all = sentence_views(sentences@);
        let mut candidates: Candidates = Vec::new();
        let mut dedup: DedupMap = Vec::new();
        let mut i: usize = 0;
        proof {
            assert(candidate_views(candidates@) =~= Seq::empty());
            assert(dedup_views(dedup@) =~= Seq::empty());
            assert(entry_keys(candidate_views(candidates@)) =~= Seq::empty());
            assert(entry_keys(dedup_views(dedup@)) =~= Seq::empty());
        }
        while i < sentences.len()
            invariant
                i <= sentences.len(),
                all_wf(sentences@),
                all == sentence_views(sentences@),
                filter == (WordFilter {
                    punctuation: views(punctuation@),
                    stop_words: views(stop_words@),
                }),
                selection_view(candidates@, dedup@) == selection(
                    all,
                    i as int,
                    ngram as int,
                    filter,
                ),
                selection_wf(selection_view(candidates@, dedup@), ngram as int, filter),
            decreases sentences.len() - i,
        {
            assert(sentences@[i as int].wf());
            assert(all[i as int] == sentences@[i as int]@);
            process_sentence(
                &mut candidates,
                &mut dedup,
                &sentences[i],
                ngram,
                stop_words,
                punctuation,
            );
            i += 1;
        }
        (candidates, dedup)
    }
}

} // verus!
