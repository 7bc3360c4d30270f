//! Candidates of a simpler kind: the runs of one to `n` words of each
//! phrase, without those that are too similar to an earlier one.

use crate::common::text::{join_range, joined, split_whitespace, views, whitespace_words};
use crate::yake::levenshtein::{grapheme_distance, grapheme_max_len, Levenshtein, Threshold};
use vstd::prelude::*;

verus! {

/// The runs of `n` words of a phrase, each joined by spaces; the phrase
/// itself where it has fewer than `n` words.
pub open spec fn ngrams_of(phrase: Seq<char>, n: int) -> Seq<Seq<char>> {
    let words = whitespace_words(phrase);
    if words.len() < n {
        seq![phrase]
    } else {
        Seq::new((words.len() - n + 1) as nat, |k: int| joined(words.subrange(k, k + n)))
    }
}

/// The runs of `n` words of every phrase.
pub open spec fn ngrams(phrases: Seq<Seq<char>>, n: int) -> Seq<Seq<char>> {
    phrases.flat_map(|p: Seq<char>| ngrams_of(p, n))
}

/// The runs of one word of every phrase, then those of two words, and so on
/// up to `n` words.
pub open spec fn candidates_upto(phrases: Seq<Seq<char>>, n: int) -> Seq<Seq<char>>
    decreases n,
{
    if n <= 0 {
        Seq::empty()
    } else {
        candidates_upto(phrases, n - 1) + ngrams(phrases, n)
    }
}

/// Whether the similarity of two strings is above the threshold.
pub open spec fn too_similar(a: Seq<char>, b: Seq<char>, threshold: Threshold) -> bool {
    let of = grapheme_max_len(a, b);
    of > 0 && (of - grapheme_distance(a, b)) * threshold.den > threshold.num * of
}

/// Whether `candidate` is too similar to one of the strings.
pub open spec fn too_similar_to_any(
    candidate: Seq<char>,
    kept: Seq<Seq<char>>,
    threshold: Threshold,
) -> bool {
    exists|k: int| 0 <= k < kept.len() && too_similar(candidate, #[trigger] kept[k], threshold)
}

/// The first `m` candidates without those that are too similar to one kept
/// before.
pub open spec fn without_similar(
    candidates: Seq<Seq<char>>,
    m: int,
    threshold: Threshold,
) -> Seq<Seq<char>>
    decreases m,
{
    if m <= 0 {
        Seq::empty()
    } else {
        let kept = without_similar(candidates, m - 1, threshold);
        if too_similar_to_any(candidates[m - 1], kept, threshold) {
            kept
        } else {
            kept.push(candidates[m - 1])
        }
    }
}

/// No two of the kept candidates are too similar.
pub proof fn lemma_without_similar(candidates: Seq<Seq<char>>, m: int, threshold: Threshold)
    requires
        0 <= m <= candidates.len(),
    ensures
        without_similar(candidates, m, threshold).len() <= m,
        forall|a: int, b: int|
            0 <= a < b < without_similar(candidates, m, threshold).len() ==> !too_similar(
                #[trigger] without_similar(candidates, m, threshold)[b],
                #[trigger] without_similar(candidates, m, threshold)[a],
                threshold,
            ),
    decreases m,
{
    if m > 0 {
        lemma_without_similar(candidates, m - 1, threshold);
        let kept = without_similar(candidates, m - 1, threshold);
        let after = without_similar(candidates, m, threshold);
        assert forall|a: int, b: int| 0 <= a < b < after.len() implies !too_similar(
            #[trigger] after[b],
            #[trigger] after[a],
            threshold,
        ) by {
            if b < kept.len() {
                assert(after[a] == kept[a] && after[b] == kept[b]);
            } else {
                assert(after[a] == kept[a]);
            }
        }
    }
}

/// The runs of `n` words of every phrase.
pub fn generate_ngrams(phrases: &Vec<String>, n: usize) -> (r: Vec<String>)
    requires
        n >= 1,
    ensures
        views(r@) == ngrams(views(phrases@), n as int),
{
    let ghost all = views(phrases@);
    let ghost f = |p: Seq<char>| ngrams_of(p, n as int);
    let mut r: Vec<String> = Vec::new();
    let mut i: usize = 0;
    proof {
        assert(views(r@) =~= Seq::<Seq<char>>::empty());
        assert(all.take(0).flat_map(f) =~= Seq::<Seq<char>>::empty());
    }
    while i < phrases.len()
        invariant
            n >= 1,
            i <= phrases.len(),
            all == views(phrases@),
            f == |p: Seq<char>| ngrams_of(p, n as int),
            views(r@) == all.take(i as int).flat_map(f),
        decreases phrases.len() - i,
    {
        proof {
            all.lemma_flat_map_take_append(f, i as int);
        }
        let ghost done = views(r@);
        let words = split_whitespace(phrases[i].as_str());
        if words.len() < n {
            let ghost before = r@;
            r.push(phrases[i].clone());
            assert(views(r@) =~= views(before).push(all[i as int]));
            assert(views(before).push(all[i as int]) =~= done + seq![all[i as int]]);
        } else {
            let count = words.len() - n + 1;
            let ghost grams = ngrams_of(all[i as int], n as int);
            let mut k: usize = 0;
            assert(done + grams.take(0) =~= done);
            while k < count
                invariant
                    n >= 1,
                    words.len() >= n,
                    count == words.len() - n + 1,
                    k <= count,
                    grams == Seq::new(
                        count as nat,
                        |x: int| joined(views(words@).subrange(x, x + n)),
                    ),
                    views(r@) == done + grams.take(k as int),
                decreases count - k,
            {
                let ghost before = r@;
                r.push(join_range(&words, k, k + n));
                proof {
                    assert(views(r@) =~= views(before).push(grams[k as int]));
                    assert(done + grams.take(k + 1) =~= (done + grams.take(k as int)).push(
                        grams[k as int],
                    ));
                }
                k += 1;
            }
            assert(grams.take(count as int) =~= grams);
        }
        i += 1;
    }
    assert(all.take(phrases.len() as int) =~= all);
    r
}

/// The runs of one to `n` words of every phrase.
pub fn generate_candidates(phrases: &Vec<String>, n: usize) -> (r: Vec<String>)
    ensures
        views(r@) == candidates_upto(views(phrases@), n as int),
{
    let mut r: Vec<String> = Vec::new();
    let mut k: usize = 0;
    assert(views(r@) =~= Seq::<Seq<char>>::empty());
    while k < n
        invariant
            k <= n,
            views(r@) == candidates_upto(views(phrases@), k as int),
        decreases n - k,
    {
        k += 1;
        let mut grams = generate_ngrams(phrases, k);
        let ghost before = r@;
        let ghost added = grams@;
        r.append(&mut grams);
        assert(views(r@) =~= views(before) + views(added));
    }
    r
}

/// Whether the similarity of the candidate and one of the strings is above
/// the threshold.
pub fn is_similar(candidate: &str, filtered_candidates: &Vec<String>, threshold: &Threshold) -> (r:
    bool)
    ensures
        r == too_similar_to_any(candidate@, views(filtered_candidates@), *threshold),
{
    let mut k: usize = 0;
    while k < filtered_candidates.len()
        invariant
            k <= filtered_candidates.len(),
            forall|x: int|
                0 <= x < k ==> !too_similar(
                    candidate@,
                    #[trigger] views(filtered_candidates@)[x],
                    *threshold,
                ),
        decreases filtered_candidates.len() - k,
    {
        let ratio = Levenshtein::new(candidate, filtered_candidates[k].as_str()).ratio();
        if ratio.above(threshold) {
            assert(too_similar(candidate@, views(filtered_candidates@)[k as int], *threshold));
            return true;
        }
        k += 1;
    }
    false
}

/// The candidates without those that are too similar to one kept before.
pub fn remove_similar_candidates(candidates: Vec<String>, threshold: &Threshold) -> (r: Vec<String>)
    ensures
        views(r@) == without_similar(views(candidates@), candidates.len() as int, *threshold),
{
    let mut kept: Vec<String> = Vec::new();
    let mut m: usize = 0;
    assert(views(kept@) =~= Seq::<Seq<char>>::empty());
    while m < candidates.len()
        invariant
            m <= candidates.len(),
            views(kept@) == without_similar(views(candidates@), m as int, *threshold),
        decreases candidates.len() - m,
    {
        if !is_similar(candidates[m].as_str(), &kept, threshold) {
            let ghost before = kept@;
            kept.push(candidates[m].clone());
            assert(views(kept@) =~= views(before).push(candidates@[m as int]@));
        }
        m += 1;
    }
    kept
}

/// The candidates of a list of phrases.
pub struct CandidateSelection(pub Vec<String>);

impl CandidateSelection {
    /// Gathers the runs of one to `n` words of the phrases and leaves out
    /// those that are too similar to an earlier one.
    pub fn new(phrases: &Vec<String>, n: usize, threshold: Threshold) -> (r: Self)
        ensures
            views(r.0@) == without_similar(
                candidates_upto(views(phrases@), n as int),
                candidates_upto(views(phrases@), n as int).len() as int,
                threshold,
            ),
    {
        let candidates = generate_candidates(phrases, n);
        assert(candidates.len() == views(candidates@).len());
        CandidateSelection(remove_similar_candidates(candidates, &threshold))
    }

    /// The candidates that were kept.
    pub fn get_candidates(&self) -> (r: &Vec<String>)
        ensures
            r == self.0,
    {
        &self.0
    }
}

} // verus!
