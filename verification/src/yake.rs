//! Keyword extraction from one text, and its outcome: scored keywords and
//! terms, ranked, with near-duplicate keywords left out.

pub mod candidate_selection;
pub mod candidate_selection_and_context_builder;
pub mod context_builder;
pub mod feature_extraction;
pub mod levenshtein;
pub mod occurrences_builder;
pub mod sentences_builder;
pub mod simple_tokenizer;
pub mod text_pre_processor;
pub mod yake_logic;
pub mod yake_params;
pub mod yake_tokenizer;

pub use yake_params::{YakeError, YakeParams};

use crate::common::ranking::{
    get_ranked_scores, get_ranked_strings, get_score, lemma_ranked, lemma_ranked_places,
    rank_views, ranked, score_of, terms_of, top_ranked, Entry,
};
use crate::common::text::views;
use crate::yake::levenshtein::{is_similar, lemma_similar_symmetric, similar, Threshold};
use vstd::prelude::*;

verus! {

/// The strings at the given places.
pub open spec fn chosen(keys: Seq<Seq<char>>, places: Seq<int>) -> Seq<Seq<char>> {
    places.map_values(|i: int| keys[i])
}

/// Whether `term` is similar to one of the strings.
pub open spec fn similar_to_any(kept: Seq<Seq<char>>, term: Seq<char>, threshold: Threshold) -> bool {
    exists|k: int| 0 <= k < kept.len() && similar(#[trigger] kept[k], term, threshold)
}

/// Whether `term` gives way to the strings that are kept: it is one of
/// them, or similar to one of them.
pub open spec fn gives_way(kept: Seq<Seq<char>>, term: Seq<char>, threshold: Threshold) -> bool {
    kept.contains(term) || similar_to_any(kept, term, threshold)
}

/// The places of the strings that survive among the first `m`: going
/// through the strings in their order, each survives that is neither the
/// same as nor similar to one that survived before it.
pub open spec fn survivors(keys: Seq<Seq<char>>, m: int, threshold: Threshold) -> Seq<int>
    decreases m,
{
    if m <= 0 {
        Seq::empty()
    } else {
        let before = survivors(keys, m - 1, threshold);
        if gives_way(chosen(keys, before), keys[m - 1], threshold) {
            before
        } else {
            before.push(m - 1)
        }
    }
}

/// The entries that survive, in their order.
pub open spec fn kept_entries(entries: Seq<Entry>, threshold: Threshold) -> Seq<Entry> {
    survivors(terms_of(entries), entries.len() as int, threshold).map_values(|i: int| entries[i])
}

/// Whether no two of the entries have the same term or similar terms.
pub open spec fn all_apart(entries: Seq<Entry>, threshold: Threshold) -> bool {
    forall|a: int, b: int|
        0 <= a < entries.len() && 0 <= b < entries.len() && a != b ==> {
            &&& (#[trigger] entries[a]).0 != (#[trigger] entries[b]).0
            &&& !similar(entries[a].0, entries[b].0, threshold)
        }
}

/// Where no two entries have the same term, no term stands twice, and the
/// score that is found for the term of an entry is the score of that entry.
pub proof fn lemma_apart_lookup(entries: Seq<Entry>, threshold: Threshold, p: int)
    requires
        all_apart(entries, threshold),
        0 <= p < entries.len(),
    ensures
        terms_of(entries).no_duplicates(),
        score_of(entries, entries[p].0) == entries[p].1,
{
    let terms = terms_of(entries);
    assert forall|a: int, b: int|
        0 <= a < terms.len() && 0 <= b < terms.len() && a != b implies terms[a] != terms[b] by {
        assert(terms[a] == entries[a].0 && terms[b] == entries[b].0);
    }
    crate::common::lemma_position(terms, entries[p].0);
    assert(terms[p] == entries[p].0);
    let at = crate::common::position(terms, entries[p].0);
    assert(terms[at] == entries[at].0);
}

/// The places of the survivors rise and lie before `m`, and no two of the
/// survivors are the same or similar.
pub proof fn lemma_survivors(keys: Seq<Seq<char>>, m: int, threshold: Threshold)
    requires
        0 <= m <= keys.len(),
    ensures
        survivors(keys, m, threshold).len() <= m,
        forall|k: int|
            0 <= k < survivors(keys, m, threshold).len() ==> 0 <= #[trigger] survivors(
                keys,
                m,
                threshold,
            )[k] < m,
        forall|a: int, b: int|
            0 <= a < b < survivors(keys, m, threshold).len() ==> #[trigger] survivors(
                keys,
                m,
                threshold,
            )[a] < #[trigger] survivors(keys, m, threshold)[b],
        forall|a: int, b: int|
            0 <= a < b < survivors(keys, m, threshold).len() ==> {
                &&& keys[#[trigger] survivors(keys, m, threshold)[a]] != keys[#[trigger] survivors(
                    keys,
                    m,
                    threshold,
                )[b]]
                &&& !similar(
                    keys[survivors(keys, m, threshold)[a]],
                    keys[survivors(keys, m, threshold)[b]],
                    threshold,
                )
            },
    decreases m,
{
    if m > 0 {
        lemma_survivors(keys, m - 1, threshold);
        let before = survivors(keys, m - 1, threshold);
        let after = survivors(keys, m, threshold);
        if !gives_way(chosen(keys, before), keys[m - 1], threshold) {
            assert forall|a: int, b: int| 0 <= a < b < after.len() implies {
                &&& keys[#[trigger] after[a]] != keys[#[trigger] after[b]]
                &&& !similar(keys[after[a]], keys[after[b]], threshold)
            } by {
                if b < before.len() {
                    assert(after[a] == before[a] && after[b] == before[b]);
                } else {
                    assert(after[a] == before[a]);
                    assert(chosen(keys, before)[a] == keys[before[a]]);
                    assert(chosen(keys, before).contains(keys[before[a]]));
                }
            }
            assert forall|a: int, b: int| 0 <= a < b < after.len() implies #[trigger] after[a]
                < #[trigger] after[b] by {
                if b < before.len() {
                    assert(after[a] == before[a] && after[b] == before[b]);
                } else {
                    assert(after[a] == before[a]);
                }
            }
        }
    }
}

/// The survivors among fewer strings are the first of the survivors among
/// more, and a string survives if and only if it is neither the same as
/// nor similar to a survivor among the strings before it.
pub proof fn lemma_survivors_grow(keys: Seq<Seq<char>>, i: int, m: int, threshold: Threshold)
    requires
        0 <= i < m <= keys.len(),
    ensures
        survivors(keys, i, threshold).len() <= survivors(keys, m, threshold).len(),
        survivors(keys, i, threshold) == survivors(keys, m, threshold).take(
            survivors(keys, i, threshold).len() as int,
        ),
        survivors(keys, m, threshold).contains(i) == !gives_way(
            chosen(keys, survivors(keys, i, threshold)),
            keys[i],
            threshold,
        ),
    decreases m - i,
{
    let small = survivors(keys, i, threshold);
    let before = survivors(keys, m - 1, threshold);
    let after = survivors(keys, m, threshold);
    lemma_survivors(keys, m - 1, threshold);
    if i == m - 1 {
        assert(small =~= after.take(small.len() as int));
        if gives_way(chosen(keys, small), keys[i], threshold) {
            if after.contains(i) {
                let k = choose|k: int| 0 <= k < after.len() && after[k] == i;
                assert(before[k] < m - 1);
            }
        } else {
            assert(after[before.len() as int] == i);
        }
    } else {
        lemma_survivors_grow(keys, i, m - 1, threshold);
        assert(small =~= after.take(small.len() as int));
        if before.contains(i) {
            let k = choose|k: int| 0 <= k < before.len() && before[k] == i;
            assert(after[k] == i);
        }
        if after.contains(i) {
            let k = choose|k: int| 0 <= k < after.len() && after[k] == i;
            if k < before.len() {
                assert(before[k] == i);
            }
        }
    }
}

/// No two of the entries that survive have the same term or similar terms.
pub proof fn lemma_kept_entries_apart(entries: Seq<Entry>, threshold: Threshold)
    ensures
        all_apart(kept_entries(entries, threshold), threshold),
        kept_entries(entries, threshold).len() <= entries.len(),
{
    let keys = terms_of(entries);
    let places = survivors(keys, entries.len() as int, threshold);
    let kept = kept_entries(entries, threshold);
    lemma_survivors(keys, entries.len() as int, threshold);
    assert forall|a: int, b: int|
        0 <= a < kept.len() && 0 <= b < kept.len() && a != b implies {
        &&& (#[trigger] kept[a]).0 != (#[trigger] kept[b]).0
        &&& !similar(kept[a].0, kept[b].0, threshold)
    } by {
        assert(kept[a].0 == keys[places[a]]);
        assert(kept[b].0 == keys[places[b]]);
        if a < b {
            assert(!similar(keys[places[a]], keys[places[b]], threshold));
        } else {
            assert(!similar(keys[places[b]], keys[places[a]], threshold));
            lemma_similar_symmetric(keys[places[a]], keys[places[b]], threshold);
        }
    }
}

/// Ranking keeps entries apart: where no two entries have the same term or
/// similar terms, no two of the ranked entries have.
pub proof fn lemma_ranked_apart(entries: Seq<Entry>, threshold: Threshold)
    requires
        all_apart(entries, threshold),
    ensures
        all_apart(ranked(entries), threshold),
{
    let places = lemma_ranked_places(entries);
    let sorted = ranked(entries);
    assert forall|a: int, b: int|
        0 <= a < sorted.len() && 0 <= b < sorted.len() && a != b implies {
        &&& (#[trigger] sorted[a]).0 != (#[trigger] sorted[b]).0
        &&& !similar(sorted[a].0, sorted[b].0, threshold)
    } by {
        assert(sorted[a] == entries[places[a]]);
        assert(sorted[b] == entries[places[b]]);
        assert(places[a] != places[b]);
    }
}

/// The score that is found for a ranked term is the score it is ranked by.
pub proof fn lemma_ranked_lookup(entries: Seq<Entry>, threshold: Threshold, k: int)
    requires
        all_apart(entries, threshold),
        0 <= k < entries.len(),
    ensures
        score_of(entries, ranked(entries)[k].0) == ranked(entries)[k].1,
{
    let places = lemma_ranked_places(entries);
    assert(ranked(entries)[k] == entries[places[k]]);
    lemma_apart_lookup(entries, threshold, places[k]);
}

/// Asking twice for the same number of keywords gives the same keywords:
/// whatever meets the contract of the ranking is one and the same list.
pub proof fn lemma_reranking_gives_the_same(
    first: Seq<Entry>,
    second: Seq<Entry>,
    entries: Seq<Entry>,
    n: int,
)
    requires
        first == top_ranked(entries, n),
        second == top_ranked(entries, n),
    ensures
        first == second,
        terms_of(first) == terms_of(second),
{
}

/// The places of the strings that survive: each string survives that is
/// neither the same as nor similar to one that survived before it.
pub fn surviving(keys: &Vec<String>, threshold: &Threshold) -> (r: Vec<usize>)
    ensures
        r@.map_values(|i: usize| i as int) == survivors(
            views(keys@),
            keys.len() as int,
            *threshold,
        ),
        forall|k: int| 0 <= k < r.len() ==> #[trigger] r@[k] < keys.len(),
{
    let ghost all = views(keys@);
    let mut kept: Vec<usize> = Vec::new();
    let mut m: usize = 0;
    assert(kept@.map_values(|i: usize| i as int) =~= Seq::<int>::empty());
    while m < keys.len()
        invariant
            m <= keys.len(),
            all == views(keys@),
            kept@.map_values(|i: usize| i as int) == survivors(all, m as int, *threshold),
            forall|k: int| 0 <= k < kept.len() ==> #[trigger] kept@[k] < m,
        decreases keys.len() - m,
    {
        let ghost before = survivors(all, m as int, *threshold);
        let mut found = false;
        let mut k: usize = 0;
        while k < kept.len() && !found
            invariant
                m < keys.len(),
                all == views(keys@),
                before == kept@.map_values(|i: usize| i as int),
                forall|x: int| 0 <= x < kept.len() ==> #[trigger] kept@[x] < m,
                k <= kept.len(),
                found ==> gives_way(chosen(all, before), all[m as int], *threshold),
                !found ==> forall|x: int|
                    0 <= x < k ==> {
                        &&& #[trigger] chosen(all, before)[x] != all[m as int]
                        &&& !similar(chosen(all, before)[x], all[m as int], *threshold)
                    },
            decreases kept.len() - k + if found { 0int } else { 1int },
        {
            assert(kept@[k as int] < m);
            assert(chosen(all, before)[k as int] == all[before[k as int]]);
            if keys[kept[k]] == keys[m] || is_similar(
                keys[kept[k]].as_str(),
                keys[m].as_str(),
                threshold,
            ) {
                found = true;
                proof {
                    if all[before[k as int]] == all[m as int] {
                        assert(chosen(all, before).contains(all[m as int]));
                    } else {
                        assert(similar(chosen(all, before)[k as int], all[m as int], *threshold));
                    }
                }
            }
            k += 1;
        }
        proof {
            if !found && chosen(all, before).contains(all[m as int]) {
                let x = choose|x: int|
                    0 <= x < chosen(all, before).len() && chosen(all, before)[x] == all[m as int];
                assert(chosen(all, before)[x] != all[m as int]);
            }
        }
        if !found {
            kept.push(m);
            assert(kept@.map_values(|i: usize| i as int) =~= before.push(m as int));
        }
        m += 1;
    }
    kept
}

/// Scored keywords and terms. Of keywords that are the same or similar to
/// each other only the one that was given first is held.
pub struct Yake {
    keyword_rank: Vec<(String, u64)>,
    term_rank: Vec<(String, u64)>,
    size: usize,
    threshold: Threshold,
}

impl Yake {
    #[verifier::type_invariant]
    spec fn wf(&self) -> bool {
        &&& self.size == self.keyword_rank.len()
        &&& self.threshold.valid()
        &&& all_apart(rank_views(self.keyword_rank@), self.threshold)
        &&& terms_of(rank_views(self.keyword_rank@)).no_duplicates()
    }

    /// The keywords that are held, with their scores, in the order in
    /// which they were given.
    pub closed spec fn keywords(&self) -> Seq<Entry> {
        rank_views(self.keyword_rank@)
    }

    /// The terms with their scores, as they were given.
    pub closed spec fn terms(&self) -> Seq<Entry> {
        rank_views(self.term_rank@)
    }

    /// The threshold from which on two keywords count as similar.
    pub closed spec fn threshold(&self) -> Threshold {
        self.threshold
    }

    /// Takes the scored keywords, in the order in which the text brought
    /// them up, and the scored terms. A score is an unsigned number, the
    /// higher the better. A keyword that is the same as, or similar to, one
    /// given before it and held is left out, so that no keyword is held
    /// twice. A threshold that is zero or greater than one is turned down.
    pub fn new(
        keyword_rank: Vec<(String, u64)>,
        term_rank: Vec<(String, u64)>,
        threshold: Threshold,
    ) -> (r: Result<Yake, YakeError>)
        ensures
            r.is_ok() == threshold.valid(),
            !threshold.valid() ==> r == Err::<Yake, YakeError>(YakeError::InvalidThreshold),
            r.is_ok() ==> {
                &&& r.unwrap().keywords() == kept_entries(rank_views(keyword_rank@), threshold)
                &&& r.unwrap().terms() == rank_views(term_rank@)
                &&& r.unwrap().threshold() == threshold
                &&& all_apart(r.unwrap().keywords(), threshold)
                &&& terms_of(r.unwrap().keywords()).no_duplicates()
            },
    {
        if !(0 < threshold.num && threshold.num <= threshold.den) {
            return Err(YakeError::InvalidThreshold);
        }
        let ghost given = rank_views(keyword_rank@);
        let mut keys: Vec<String> = Vec::new();
        let mut i: usize = 0;
        while i < keyword_rank.len()
            invariant
                i <= keyword_rank.len(),
                keys.len() == i,
                forall|k: int| 0 <= k < i ==> (#[trigger] keys@[k])@ == keyword_rank@[k].0@,
            decreases keyword_rank.len() - i,
        {
            keys.push(keyword_rank[i].0.clone());
            i += 1;
        }
        assert(views(keys@) =~= terms_of(given));
        let places = surviving(&keys, &threshold);
        let ghost chosen_places = places@.map_values(|i: usize| i as int);
        let mut held: Vec<(String, u64)> = Vec::new();
        let mut k: usize = 0;
        while k < places.len()
            invariant
                k <= places.len(),
                keys.len() == keyword_rank.len(),
                given == rank_views(keyword_rank@),
                chosen_places == places@.map_values(|i: usize| i as int),
                forall|x: int| 0 <= x < places.len() ==> #[trigger] places@[x] < keys.len(),
                held.len() == k,
                forall|x: int|
                    0 <= x < k ==> #[trigger] rank_views(held@)[x] == given[chosen_places[x]],
            decreases places.len() - k,
        {
            assert(places@[k as int] < keys.len());
            let at = places[k];
            let ghost before = held@;
            held.push((keyword_rank[at].0.clone(), keyword_rank[at].1));
            proof {
                assert(chosen_places[k as int] == at);
                assert(rank_views(held@) =~= rank_views(before).push(given[at as int]));
                assert forall|x: int| 0 <= x < k + 1 implies #[trigger] rank_views(held@)[x]
                    == given[chosen_places[x]] by {
                    if x < k {
                        assert(rank_views(held@)[x] == rank_views(before)[x]);
                    }
                }
            }
            k += 1;
        }
        proof {
            assert(rank_views(held@) =~= kept_entries(given, threshold));
            lemma_kept_entries_apart(given, threshold);
            if held.len() > 0 {
                lemma_apart_lookup(rank_views(held@), threshold, 0);
            } else {
                assert(terms_of(rank_views(held@)) =~= Seq::<Seq<char>>::empty());
            }
        }
        let size = held.len();
        Ok(Yake { keyword_rank: held, term_rank, size, threshold })
    }

    /// The score of a keyword, zero where it is not held.
    pub fn get_keyword_score(&self, keyword: &str) -> (r: u64)
        ensures
            r == score_of(self.keywords(), keyword@),
    {
        get_score(&self.keyword_rank, keyword)
    }

    /// The score of a single term, zero where it has none.
    pub fn get_word_score(&self, word: &str) -> (r: u64)
        ensures
            r == score_of(self.terms(), word@),
    {
        get_score(&self.term_rank, word)
    }

    /// The `n` best keywords with their scores, best first: no earlier
    /// one has the lower score, no keyword stands twice, no two of them
    /// are similar, and each stands with the score that is found for it.
    pub fn get_ranked_keyword_scores(&self, n: usize) -> (r: Vec<(String, u64)>)
        ensures
            rank_views(r@) == top_ranked(self.keywords(), n as int),
            r.len() == if n < self.keywords().len() {
                n as int
            } else {
                self.keywords().len() as int
            },
            forall|i: int, j: int|
                0 <= i <= j < r.len() ==> #[trigger] r@[i].1 >= #[trigger] r@[j].1,
            all_apart(rank_views(r@), self.threshold()),
            terms_of(rank_views(r@)).no_duplicates(),
            forall|i: int|
                0 <= i < r.len() ==> score_of(self.keywords(), (#[trigger] r@[i]).0@) == r@[i].1,
    {
        proof {
            use_type_invariant(self);
        }
        let r = get_ranked_scores(&self.keyword_rank, n);
        proof {
            let entries = self.keywords();
            lemma_ranked(entries);
            lemma_ranked_apart(entries, self.threshold);
            let top = rank_views(r@);
            assert forall|a: int, b: int|
                0 <= a < top.len() && 0 <= b < top.len() && a != b implies {
                &&& (#[trigger] top[a]).0 != (#[trigger] top[b]).0
                &&& !similar(top[a].0, top[b].0, self.threshold)
            } by {
                assert(top[a] == ranked(entries)[a]);
                assert(top[b] == ranked(entries)[b]);
            }
            if top.len() > 0 {
                lemma_apart_lookup(top, self.threshold, 0);
            } else {
                assert(terms_of(top) =~= Seq::<Seq<char>>::empty());
            }
            assert forall|i: int| 0 <= i < r.len() implies score_of(
                entries,
                (#[trigger] r@[i]).0@,
            ) == r@[i].1 by {
                assert(top[i] == ranked(entries)[i]);
                lemma_ranked_lookup(entries, self.threshold, i);
            }
        }
        r
    }

    /// The `n` best keywords, best first, none of them twice and no two of
    /// them similar.
    pub fn get_ranked_keywords(&self, n: usize) -> (r: Vec<String>)
        ensures
            views(r@) == terms_of(top_ranked(self.keywords(), n as int)),
            r.len() == if n < self.keywords().len() {
                n as int
            } else {
                self.keywords().len() as int
            },
            views(r@).no_duplicates(),
            forall|a: int, b: int|
                0 <= a < r.len() && 0 <= b < r.len() && a != b ==> !similar(
                    (#[trigger] r@[a])@,
                    (#[trigger] r@[b])@,
                    self.threshold(),
                ),
    {
        let scored = self.get_ranked_keyword_scores(n);
        let mut r: Vec<String> = Vec::new();
        let mut i: usize = 0;
        while i < scored.len()
            invariant
                i <= scored.len(),
                r.len() == i,
                forall|k: int| 0 <= k < i ==> (#[trigger] r@[k])@ == scored@[k].0@,
            decreases scored.len() - i,
        {
            r.push(scored[i].0.clone());
            i += 1;
        }
        proof {
            assert(views(r@) =~= terms_of(rank_views(scored@)));
            assert forall|a: int, b: int|
                0 <= a < r.len() && 0 <= b < r.len() && a != b implies !similar(
                (#[trigger] r@[a])@,
                (#[trigger] r@[b])@,
                self.threshold(),
            ) by {
                assert(rank_views(scored@)[a].0 == r@[a]@);
                assert(rank_views(scored@)[b].0 == r@[b]@);
            }
        }
        r
    }

    /// The `n` best terms, best first.
    pub fn get_ranked_terms(&self, n: usize) -> (r: Vec<String>)
        ensures
            views(r@) == terms_of(top_ranked(self.terms(), n as int)),
    {
        get_ranked_strings(&self.term_rank, n)
    }

    /// The `n` best terms with their scores, best first.
    pub fn get_ranked_term_scores(&self, n: usize) -> (r: Vec<(String, u64)>)
        ensures
            rank_views(r@) == top_ranked(self.terms(), n as int),
            forall|i: int, j: int|
                0 <= i <= j < r.len() ==> #[trigger] r@[i].1 >= #[trigger] r@[j].1,
    {
        get_ranked_scores(&self.term_rank, n)
    }

    /// The keywords that are held, with their scores.
    pub fn get_keyword_scores_map(&self) -> (r: &Vec<(String, u64)>)
        ensures
            rank_views(r@) == self.keywords(),
    {
        &self.keyword_rank
    }

    /// The terms with their scores, as they were given.
    pub fn get_term_scores_map(&self) -> (r: &Vec<(String, u64)>)
        ensures
            rank_views(r@) == self.terms(),
    {
        &self.term_rank
    }
}

} // verus!
