//! What is counted of each term before any weight is computed: how often it
//! occurs, how often in capitals, where its middle occurrence lies, how many
//! neighbours it has and how many different ones, and over how many
//! sentences it is spread.

use crate::common::text::{
    chars_of, grapheme_clusters, graphemes, is_uppercase, lowercased, str_eq, string_of,
    to_lowercase, to_uppercase, uppercase_letter, uppercased, views,
};
use crate::common::{entry_keys, find_key, keys, lemma_position, position};
use crate::yake::context_builder::{context_views, LeftRightContext, Neighbours};
use crate::yake::occurrences_builder::{
    occurrence_list, occurrence_views, Occurrence, OccurrenceView, Occurrences,
};
use vstd::prelude::*;

verus! {

/// The number of different elements among the first `n` of `s`, counted as
/// the elements that no earlier place holds.
pub open spec fn distinct_upto<A>(s: Seq<A>, n: int) -> int
    decreases n,
{
    if n <= 0 {
        0
    } else {
        distinct_upto(s, n - 1) + if s.take(n - 1).contains(s[n - 1]) {
            0int
        } else {
            1int
        }
    }
}

/// Counting the elements that stand at their first place counts the set of
/// the elements.
pub proof fn lemma_distinct_upto<A>(s: Seq<A>, n: int)
    requires
        0 <= n <= s.len(),
    ensures
        distinct_upto(s, n) == s.take(n).to_set().len(),
        0 <= distinct_upto(s, n) <= n,
    decreases n,
{
    broadcast use vstd::set::group_set_axioms;
    broadcast use vstd::seq_lib::seq_to_set_is_finite;

    if n == 0 {
        assert(s.take(0).to_set() =~= Set::<A>::empty());
    } else {
        lemma_distinct_upto(s, n - 1);
        let before = s.take(n - 1);
        assert(s.take(n) =~= before.push(s[n - 1]));
        before.lemma_push_to_set_commute(s[n - 1]);
        assert(before.to_set().contains(s[n - 1]) == before.contains(s[n - 1]));
    }
}

/// The number of different elements of `s`.
pub open spec fn distinct_count<A>(s: Seq<A>) -> int {
    s.to_set().len() as int
}

/// A word stands in capitals if it has more than one grapheme cluster and
/// is its own upper-case form.
pub open spec fn is_upper_word(w: Seq<char>) -> bool {
    grapheme_clusters(w).len() > 1 && uppercased(w) == w
}

/// A word is capitalised if its first character is an upper-case letter and
/// the rest is its own lower-case form.
pub open spec fn is_capitalized_word(w: Seq<char>) -> bool {
    w.len() > 0 && uppercase_letter(w[0]) && lowercased(w.skip(1)) == w.skip(1)
}

/// An occurrence counts as capitalised if its word is, and it does not
/// open its sentence.
pub open spec fn counts_as_capitalized(o: OccurrenceView) -> bool {
    o.position != 0 && is_capitalized_word(o.word)
}

/// The sentence indices of the two middle occurrences; of the one in the
/// middle, twice, where their number is odd; zeros where there is none.
pub open spec fn median_pair(occs: Seq<OccurrenceView>) -> (int, int) {
    let n = occs.len() as int;
    if n == 0 {
        (0, 0)
    } else if n % 2 == 1 {
        (occs[n / 2].sentence_index, occs[n / 2].sentence_index)
    } else {
        (occs[n / 2 - 1].sentence_index, occs[n / 2].sentence_index)
    }
}

/// The left and right neighbours of a term, none where it has no entry.
pub open spec fn neighbours_of(ctx: Seq<(Seq<char>, Neighbours)>, key: Seq<char>) -> Neighbours {
    let p = position(entry_keys(ctx), key);
    if p >= 0 {
        ctx[p].1
    } else {
        (Seq::empty(), Seq::empty())
    }
}

/// What is counted of one term.
pub struct TermFeatures {
    /// The number of occurrences.
    pub tf: usize,
    /// The number of occurrences in capitals.
    pub tf_upper: usize,
    /// The number of capitalised occurrences that do not open a sentence.
    pub tf_capitalized: usize,
    /// The sentence indices of the two middle occurrences.
    pub median: (usize, usize),
    /// The number of left neighbours, and of different ones.
    pub left_total: usize,
    pub left_distinct: usize,
    /// The number of right neighbours, and of different ones.
    pub right_total: usize,
    pub right_distinct: usize,
    /// The number of sentences in which the term occurs.
    pub sentence_spread: usize,
}

/// The counts of one term, as mathematical integers.
pub struct TermFeaturesView {
    pub tf: int,
    pub tf_upper: int,
    pub tf_capitalized: int,
    pub median: (int, int),
    pub left_total: int,
    pub left_distinct: int,
    pub right_total: int,
    pub right_distinct: int,
    pub sentence_spread: int,
}

impl View for TermFeatures {
    type V = TermFeaturesView;

    open spec fn view(&self) -> TermFeaturesView {
        TermFeaturesView {
            tf: self.tf as int,
            tf_upper: self.tf_upper as int,
            tf_capitalized: self.tf_capitalized as int,
            median: (self.median.0 as int, self.median.1 as int),
            left_total: self.left_total as int,
            left_distinct: self.left_distinct as int,
            right_total: self.right_total as int,
            right_distinct: self.right_distinct as int,
            sentence_spread: self.sentence_spread as int,
        }
    }
}

/// The sentence indices of a list of occurrences.
pub open spec fn sentence_indices(occs: Seq<OccurrenceView>) -> Seq<int> {
    occs.map_values(|o: OccurrenceView| o.sentence_index)
}

/// The counts of the term `key` with the occurrences `occs`.
pub open spec fn term_features(
    key: Seq<char>,
    occs: Seq<OccurrenceView>,
    ctx: Seq<(Seq<char>, Neighbours)>,
) -> TermFeaturesView {
    let near = neighbours_of(ctx, key);
    TermFeaturesView {
        tf: occs.len() as int,
        tf_upper: occs.filter(|o: OccurrenceView| is_upper_word(o.word)).len() as int,
        tf_capitalized: occs.filter(|o: OccurrenceView| counts_as_capitalized(o)).len() as int,
        median: median_pair(occs),
        left_total: near.0.len() as int,
        left_distinct: distinct_count(near.0),
        right_total: near.1.len() as int,
        right_distinct: distinct_count(near.1),
        sentence_spread: distinct_count(sentence_indices(occs)),
    }
}

/// The counts of every term, in the order of the occurrences.
pub open spec fn word_features(
    occurrences: Seq<(Seq<char>, Seq<OccurrenceView>)>,
    ctx: Seq<(Seq<char>, Neighbours)>,
) -> Seq<(Seq<char>, TermFeaturesView)> {
    occurrences.map_values(
        |e: (Seq<char>, Seq<OccurrenceView>)| (e.0, term_features(e.0, e.1, ctx)),
    )
}

/// The sum of the first `n` terms' numbers of occurrences.
pub open spec fn tf_sum(features: Seq<(Seq<char>, TermFeaturesView)>, n: int) -> int
    decreases n,
{
    if n <= 0 {
        0
    } else {
        tf_sum(features, n - 1) + features[n - 1].1.tf
    }
}

/// Whether `m` is the greatest number of occurrences of any term, or zero
/// where there is no term.
pub open spec fn is_tf_max(features: Seq<(Seq<char>, TermFeaturesView)>, m: int) -> bool {
    &&& forall|p: int| 0 <= p < features.len() ==> (#[trigger] features[p]).1.tf <= m
    &&& if features.len() == 0 {
        m == 0
    } else {
        exists|p: int| 0 <= p < features.len() && (#[trigger] features[p]).1.tf == m
    }
}

/// The counts of the terms, with the terms as character sequences.
pub open spec fn feature_views(f: Seq<(String, TermFeatures)>) -> Seq<(Seq<char>, TermFeaturesView)> {
    f.map_values(|e: (String, TermFeatures)| (e.0@, e.1@))
}

/// The counts of all terms, with their sum and their greatest.
pub struct WordFeatures {
    pub terms: Vec<(String, TermFeatures)>,
    pub tf_total: u128,
    pub tf_max: usize,
}

/// Whether `word` stands in capitals.
pub fn is_upper(word: &str) -> (r: bool)
    ensures
        r == is_upper_word(word@),
{
    graphemes(word).len() > 1 && str_eq(to_uppercase(word).as_str(), word)
}

/// Whether `word` is capitalised.
pub fn is_capitalized(word: &str) -> (r: bool)
    ensures
        r == is_capitalized_word(word@),
{
    let cs = chars_of(word);
    let n = cs.len();
    if n == 0 {
        return false;
    }
    if !is_uppercase(cs[0]) {
        return false;
    }
    let rest = string_of(&cs, 1, n);
    assert(rest@ =~= word@.skip(1));
    str_eq(to_lowercase(rest.as_str()).as_str(), rest.as_str())
}

/// Values that are told apart by a key.
pub trait Keyed<K> {
    /// What the value is told apart by.
    spec fn key(&self) -> K;

    /// Whether two values have the same key.
    fn same_key(&self, other: &Self) -> (r: bool)
        ensures
            r == (self.key() == other.key()),
    ;
}

impl Keyed<Seq<char>> for String {
    open spec fn key(&self) -> Seq<char> {
        self@
    }

    fn same_key(&self, other: &Self) -> (r: bool) {
        *self == *other
    }
}

impl Keyed<int> for Occurrence {
    open spec fn key(&self) -> int {
        self.sentence_index as int
    }

    fn same_key(&self, other: &Self) -> (r: bool) {
        self.sentence_index == other.sentence_index
    }
}

/// The keys of a list of values.
pub open spec fn keys_of<K, T: Keyed<K>>(list: Seq<T>) -> Seq<K> {
    list.map_values(|t: T| t.key())
}

/// The number of different keys in the list.
pub fn count_distinct<K, T: Keyed<K>>(list: &Vec<T>) -> (r: usize)
    ensures
        r == distinct_count(keys_of::<K, T>(list@)),
{
    let ghost all = keys_of::<K, T>(list@);
    let mut count: usize = 0;
    let mut k: usize = 0;
    while k < list.len()
        invariant
            k <= list.len(),
            all == keys_of::<K, T>(list@),
            count == distinct_upto(all, k as int),
            count <= k,
        decreases list.len() - k,
    {
        let mut seen = false;
        let mut j: usize = 0;
        while j < k && !seen
            invariant
                j <= k < list.len(),
                all == keys_of::<K, T>(list@),
                seen ==> all.take(k as int).contains(all[k as int]),
                !seen ==> forall|m: int| 0 <= m < j ==> all[m] != all[k as int],
            decreases k - j + if seen { 0int } else { 1int },
        {
            if list[j].same_key(&list[k]) {
                seen = true;
                assert(all.take(k as int)[j as int] == all[k as int]);
            }
            j += 1;
        }
        proof {
            if !seen {
                if all.take(k as int).contains(all[k as int]) {
                    let m = choose|m: int|
                        0 <= m < all.take(k as int).len() && all.take(k as int)[m] == all[k as int];
                    assert(all[m] == all[k as int]);
                }
            }
        }
        if !seen {
            count += 1;
        }
        k += 1;
    }
    proof {
        lemma_distinct_upto(all, list.len() as int);
        assert(all.take(list.len() as int) =~= all);
    }
    count
}

/// The number of different strings in the list.
pub fn count_distinct_strings(list: &Vec<String>) -> (r: usize)
    ensures
        r == distinct_count(views(list@)),
{
    assert(keys_of::<Seq<char>, String>(list@) =~= views(list@));
    count_distinct(list)
}

/// The number of different sentences among the occurrences.
pub fn count_sentences(occs: &Vec<Occurrence>) -> (r: usize)
    ensures
        r == distinct_count(sentence_indices(occurrence_list(occs@))),
{
    assert(keys_of::<int, Occurrence>(occs@) =~= sentence_indices(occurrence_list(occs@)));
    count_distinct(occs)
}

/// Counts what there is to count of one term.
pub fn extract_feature(contexts: &LeftRightContext, word: &str, occurrence: &Vec<Occurrence>) -> (r:
    TermFeatures)
    ensures
        r@ == term_features(word@, occurrence_list(occurrence@), context_views(contexts@)),
{
    let ghost occs = occurrence_list(occurrence@);
    let ghost upper = |o: OccurrenceView| is_upper_word(o.word);
    let ghost capital = |o: OccurrenceView| counts_as_capitalized(o);
    let n = occurrence.len();
    let mut tf_upper: usize = 0;
    let mut tf_capitalized: usize = 0;
    let mut i: usize = 0;
    proof {
        assert(occs.take(0) =~= Seq::<OccurrenceView>::empty());
        reveal(Seq::filter);
    }
    while i < n
        invariant
            n == occurrence.len(),
            i <= n,
            occs == occurrence_list(occurrence@),
            upper == |o: OccurrenceView| is_upper_word(o.word),
            capital == |o: OccurrenceView| counts_as_capitalized(o),
            tf_upper == occs.take(i as int).filter(upper).len(),
            tf_capitalized == occs.take(i as int).filter(capital).len(),
            tf_upper <= i,
            tf_capitalized <= i,
        decreases n - i,
    {
        proof {
            assert(occs.take(i + 1) =~= occs.take(i as int).push(occs[i as int]));
            occs.take(i as int).lemma_filter_push(occs[i as int], upper);
            occs.take(i as int).lemma_filter_push(occs[i as int], capital);
        }
        let w = occurrence[i].word.as_str();
        if is_upper(w) {
            tf_upper += 1;
        }
        if occurrence[i].position != 0 && is_capitalized(w) {
            tf_capitalized += 1;
        }
        i += 1;
    }
    assert(occs.take(n as int) =~= occs);
    let median: (usize, usize) = if n == 0 {
        (0, 0)
    } else if n % 2 == 1 {
        (occurrence[n / 2].sentence_index, occurrence[n / 2].sentence_index)
    } else {
        (occurrence[n / 2 - 1].sentence_index, occurrence[n / 2].sentence_index)
    };
    let ghost ctx = context_views(contexts@);
    proof {
        assert(keys(contexts@) =~= entry_keys(ctx));
        lemma_position(entry_keys(ctx), word@);
    }
    let (left_total, left_distinct, right_total, right_distinct) = match find_key(contexts, word) {
        Some(p) => {
            let left = &contexts[p].1.0;
            let right = &contexts[p].1.1;
            (
                left.len(),
                count_distinct_strings(left),
                right.len(),
                count_distinct_strings(right),
            )
        },
        None => {
            proof {
                assert(Seq::<Seq<char>>::empty().to_set() =~= Set::<Seq<char>>::empty());
            }
            (0, 0, 0, 0)
        },
    };
    let sentence_spread = count_sentences(occurrence);
    TermFeatures {
        tf: n,
        tf_upper,
        tf_capitalized,
        median,
        left_total,
        left_distinct,
        right_total,
        right_distinct,
        sentence_spread,
    }
}

/// The counting of what the weights of the terms are computed from.
pub struct FeatureExtractor;

impl FeatureExtractor {
    /// Counts what there is to count of every term, and adds up and
    /// compares the numbers of occurrences.
    pub fn count_words(occurrences: &Occurrences, contexts: &LeftRightContext) -> (r: WordFeatures)
        ensures
            feature_views(r.terms@) == word_features(
                occurrence_views(occurrences@),
                context_views(contexts@),
            ),
            r.tf_total == tf_sum(feature_views(r.terms@), r.terms.len() as int),
            is_tf_max(feature_views(r.terms@), r.tf_max as int),
    {
        let ghost occs = occurrence_views(occurrences@);
        let ghost ctx = context_views(contexts@);
        let mut terms: Vec<(String, TermFeatures)> = Vec::new();
        let mut tf_total: u128 = 0;
        let mut tf_max: usize = 0;
        let mut i: usize = 0;
        while i < occurrences.len()
            invariant
                i <= occurrences.len(),
                occs == occurrence_views(occurrences@),
                ctx == context_views(contexts@),
                terms.len() == i,
                forall|p: int|
                    0 <= p < i ==> (#[trigger] feature_views(terms@)[p]) == (
                        occs[p].0,
                        term_features(occs[p].0, occs[p].1, ctx),
                    ),
                tf_total == tf_sum(feature_views(terms@), i as int),
                tf_total <= i * usize::MAX,
                is_tf_max(feature_views(terms@), tf_max as int),
            decreases occurrences.len() - i,
        {
            let key = &occurrences[i].0;
            let features = extract_feature(contexts, key.as_str(), &occurrences[i].1);
            let ghost before = feature_views(terms@);
            proof {
                assert(i * usize::MAX + usize::MAX <= usize::MAX * usize::MAX + usize::MAX)
                    by (nonlinear_arith)
                    requires
                        0 <= i <= usize::MAX,
                ;
                assert((i + 1) * usize::MAX == i * usize::MAX + usize::MAX) by (nonlinear_arith);
            }
            tf_total = tf_total + (features.tf as u128);
            let ghost old_max = tf_max as int;
            let ghost new_tf = features.tf as int;
            if features.tf > tf_max {
                tf_max = features.tf;
            }
            terms.push((key.clone(), features));
            i += 1;
            proof {
                let after = feature_views(terms@);
                assert(after =~= before.push((occs[i - 1].0, term_features(occs[i - 1].0, occs[i - 1].1, ctx))));
                lemma_tf_sum_prefix(before, after, i - 1);
                assert forall|p: int| 0 <= p < after.len() implies (#[trigger] after[p]).1.tf
                    <= tf_max by {
                    if p < before.len() {
                        assert(after[p] == before[p]);
                    }
                }
                if new_tf > old_max {
                    assert(after[i - 1].1.tf == tf_max);
                } else if before.len() > 0 {
                    let p = choose|p: int|
                        0 <= p < before.len() && (#[trigger] before[p]).1.tf == old_max;
                    assert(after[p] == before[p]);
                } else {
                    assert(after[i - 1].1.tf == tf_max);
                }
            }
        }
        proof {
            assert(feature_views(terms@) =~= word_features(occs, ctx));
        }
        WordFeatures { terms, tf_total, tf_max }
    }
}

/// The sum of the first `n` numbers is the same in two lists that agree on
/// their first `n` entries.
proof fn lemma_tf_sum_prefix(
    a: Seq<(Seq<char>, TermFeaturesView)>,
    b: Seq<(Seq<char>, TermFeaturesView)>,
    n: int,
)
    requires
        0 <= n <= a.len(),
        n <= b.len(),
        forall|p: int| 0 <= p < n ==> a[p] == b[p],
    ensures
        tf_sum(a, n) == tf_sum(b, n),
    decreases n,
{
    if n > 0 {
        lemma_tf_sum_prefix(a, b, n - 1);
    }
}

} // verus!
