//! Where each term occurs: for every lower-case word that is not
//! punctuation, the places at which it stands, in reading order.

use crate::common::text::views;
use crate::common::{
    entry_keys, find_key, is_punctuation, keys, lemma_position, lemma_push_new, position,
    punctuation_mark,
};
use crate::yake::sentences_builder::{all_wf, sentence_views, Sentence, SentenceView};
use vstd::prelude::*;

verus! {

/// One occurrence of a term: the word as written, the index of its sentence,
/// its place among the words of that sentence, and its place among the
/// words of the whole text.
pub struct Occurrence {
    pub word: String,
    pub sentence_index: usize,
    pub position: usize,
    pub offset: u128,
}

/// What an occurrence holds, with the word as a sequence of characters.
pub struct OccurrenceView {
    pub word: Seq<char>,
    pub sentence_index: int,
    pub position: int,
    pub offset: int,
}

impl View for Occurrence {
    type V = OccurrenceView;

    open spec fn view(&self) -> OccurrenceView {
        OccurrenceView {
            word: self.word@,
            sentence_index: self.sentence_index as int,
            position: self.position as int,
            offset: self.offset as int,
        }
    }
}

impl Occurrence {
    /// An occurrence of `word` at place `position` of the sentence with the
    /// index `sentence_index`, which is place `offset` of the whole text.
    pub fn new(word: &str, sentence_index: usize, position: usize, offset: u128) -> (r: Self)
        ensures
            r@ == (OccurrenceView {
                word: word@,
                sentence_index: sentence_index as int,
                position: position as int,
                offset: offset as int,
            }),
    {
        Occurrence { word: word.to_owned(), sentence_index, position, offset }
    }
}

/// The occurrences of each term, the terms in the order in which each first
/// came up.
pub type Occurrences = Vec<(String, Vec<Occurrence>)>;

/// A list of occurrences with their words as character sequences.
pub open spec fn occurrence_list(l: Seq<Occurrence>) -> Seq<OccurrenceView> {
    l.map_values(|o: Occurrence| o@)
}

/// The occurrences of all terms, as character sequences and integers.
pub open spec fn occurrence_views(o: Seq<(String, Vec<Occurrence>)>) -> Seq<
    (Seq<char>, Seq<OccurrenceView>),
> {
    o.map_values(|e: (String, Vec<Occurrence>)| (e.0@, occurrence_list(e.1@)))
}

/// The occurrences after one more was recorded under `key`: a known term
/// gets it at the end of its list, a new term gets an entry at the end.
pub open spec fn record(
    occs: Seq<(Seq<char>, Seq<OccurrenceView>)>,
    key: Seq<char>,
    o: OccurrenceView,
) -> Seq<(Seq<char>, Seq<OccurrenceView>)> {
    let p = position(entry_keys(occs), key);
    if p >= 0 {
        occs.update(p, (key, occs[p].1.push(o)))
    } else {
        occs.push((key, seq![o]))
    }
}

/// The number of words in the sentences before sentence `i`.
pub open spec fn words_before(sentences: Seq<SentenceView>, i: int) -> int
    decreases i,
{
    if i <= 0 {
        0
    } else {
        words_before(sentences, i - 1) + sentences[i - 1].words.len()
    }
}

/// The occurrence of word `j` of sentence `i`, a sentence that starts at
/// place `base` of the text.
pub open spec fn occurrence_in(s: SentenceView, i: int, j: int, base: int) -> OccurrenceView {
    OccurrenceView { word: s.words[j], sentence_index: i, position: j, offset: base + j }
}

/// The occurrences after word `j` of sentence `i` was looked at: it is
/// recorded under its lower-case form unless that is punctuation.
pub open spec fn token_step(
    occs: Seq<(Seq<char>, Seq<OccurrenceView>)>,
    s: SentenceView,
    i: int,
    j: int,
    base: int,
    punctuation: Seq<Seq<char>>,
) -> Seq<(Seq<char>, Seq<OccurrenceView>)> {
    if punctuation_mark(s.stemmed[j], punctuation) {
        occs
    } else {
        record(occs, s.stemmed[j], occurrence_in(s, i, j, base))
    }
}

/// The occurrences after the first `j` words of sentence `i`.
pub open spec fn after_tokens(
    occs: Seq<(Seq<char>, Seq<OccurrenceView>)>,
    s: SentenceView,
    i: int,
    j: int,
    base: int,
    punctuation: Seq<Seq<char>>,
) -> Seq<(Seq<char>, Seq<OccurrenceView>)>
    decreases j,
{
    if j <= 0 {
        occs
    } else {
        token_step(
            after_tokens(occs, s, i, j - 1, base, punctuation),
            s,
            i,
            j - 1,
            base,
            punctuation,
        )
    }
}

/// The occurrences in the first `n` sentences.
pub open spec fn occurrences_in(
    sentences: Seq<SentenceView>,
    n: int,
    punctuation: Seq<Seq<char>>,
) -> Seq<(Seq<char>, Seq<OccurrenceView>)>
    decreases n,
{
    if n <= 0 {
        Seq::empty()
    } else {
        after_tokens(
            occurrences_in(sentences, n - 1, punctuation),
            sentences[n - 1],
            n - 1,
            sentences[n - 1].words.len() as int,
            words_before(sentences, n - 1),
            punctuation,
        )
    }
}

/// The occurrences of every term of the sentences.
pub open spec fn occurrences_of(sentences: Seq<SentenceView>, punctuation: Seq<Seq<char>>) -> Seq<
    (Seq<char>, Seq<OccurrenceView>),
> {
    occurrences_in(sentences, sentences.len() as int, punctuation)
}

/// Whether `a` stands before `b` in reading order.
pub open spec fn reads_before(a: OccurrenceView, b: OccurrenceView) -> bool {
    a.sentence_index < b.sentence_index || (a.sentence_index == b.sentence_index && a.position
        < b.position)
}

/// Whether `o` stands before the place `(i, j)`.
pub open spec fn stands_before(o: OccurrenceView, i: int, j: int) -> bool {
    0 <= o.sentence_index && 0 <= o.position && (o.sentence_index < i || (o.sentence_index == i
        && o.position < j))
}

/// An occurrence under `key` is sound: at its place in the sentences stands
/// its word, whose lower-case form is the key and no punctuation, and its
/// place in the text is the number of words before it.
pub open spec fn occurrence_sound(
    key: Seq<char>,
    o: OccurrenceView,
    sentences: Seq<SentenceView>,
    punctuation: Seq<Seq<char>>,
) -> bool {
    &&& 0 <= o.sentence_index < sentences.len()
    &&& 0 <= o.position < sentences[o.sentence_index].words.len()
    &&& o.word == sentences[o.sentence_index].words[o.position]
    &&& key == sentences[o.sentence_index].stemmed[o.position]
    &&& !punctuation_mark(key, punctuation)
    &&& o.offset == words_before(sentences, o.sentence_index) + o.position
}

/// The occurrences gathered up to the place `(i, j)` are well formed: no
/// term stands twice; every list has an entry; every occurrence is sound
/// and stands before `(i, j)`; and each list is in reading order.
pub open spec fn occurrences_wf(
    occs: Seq<(Seq<char>, Seq<OccurrenceView>)>,
    sentences: Seq<SentenceView>,
    punctuation: Seq<Seq<char>>,
    i: int,
    j: int,
) -> bool {
    &&& entry_keys(occs).no_duplicates()
    &&& forall|p: int| 0 <= p < occs.len() ==> (#[trigger] occs[p]).1.len() >= 1
    &&& forall|p: int, q: int|
        0 <= p < occs.len() && 0 <= q < occs[p].1.len() ==> {
            &&& occurrence_sound(occs[p].0, #[trigger] occs[p].1[q], sentences, punctuation)
            &&& stands_before(occs[p].1[q], i, j)
        }
    &&& forall|p: int, a: int, b: int|
        0 <= p < occs.len() && 0 <= a < b < occs[p].1.len() ==> reads_before(
            #[trigger] occs[p].1[a],
            #[trigger] occs[p].1[b],
        )
}

/// Looking at the word at `(i, j)` keeps the occurrences well formed, now
/// up to the place after it.
proof fn lemma_token_step_wf(
    occs: Seq<(Seq<char>, Seq<OccurrenceView>)>,
    sentences: Seq<SentenceView>,
    punctuation: Seq<Seq<char>>,
    i: int,
    j: int,
)
    requires
        occurrences_wf(occs, sentences, punctuation, i, j),
        0 <= i < sentences.len(),
        0 <= j < sentences[i].words.len(),
        sentences[i].words.len() == sentences[i].stemmed.len(),
    ensures
        occurrences_wf(
            token_step(occs, sentences[i], i, j, words_before(sentences, i), punctuation),
            sentences,
            punctuation,
            i,
            j + 1,
        ),
{
    let s = sentences[i];
    let key = s.stemmed[j];
    let after = token_step(occs, s, i, j, words_before(sentences, i), punctuation);
    if punctuation_mark(key, punctuation) {
    } else {
        let o = occurrence_in(s, i, j, words_before(sentences, i));
        let ks = entry_keys(occs);
        lemma_position(ks, key);
        let p = position(ks, key);
        if p >= 0 {
            assert(ks[p] == key);
            assert(entry_keys(after) =~= ks);
            assert forall|x: int, q: int|
                0 <= x < after.len() && 0 <= q < after[x].1.len() implies {
                &&& occurrence_sound(after[x].0, #[trigger] after[x].1[q], sentences, punctuation)
                &&& stands_before(after[x].1[q], i, j + 1)
            } by {
                if x != p {
                    assert(after[x] == occs[x]);
                    assert(stands_before(occs[x].1[q], i, j));
                } else if q < occs[p].1.len() {
                    assert(after[p].1[q] == occs[p].1[q]);
                    assert(stands_before(occs[p].1[q], i, j));
                }
            }
            assert forall|x: int, a: int, b: int|
                0 <= x < after.len() && 0 <= a < b < after[x].1.len() implies reads_before(
                #[trigger] after[x].1[a],
                #[trigger] after[x].1[b],
            ) by {
                if x != p {
                    assert(after[x] == occs[x]);
                } else {
                    assert(after[p].1[a] == occs[p].1[a]);
                    assert(stands_before(occs[p].1[a], i, j));
                    if b < occs[p].1.len() {
                        assert(after[p].1[b] == occs[p].1[b]);
                    }
                }
            }
            assert forall|x: int| 0 <= x < after.len() implies (#[trigger] after[x]).1.len()
                >= 1 by {
                if x != p {
                    assert(after[x] == occs[x]);
                }
            }
        } else {
            assert(entry_keys(after) =~= ks.push(key));
            lemma_push_new(ks, key);
            assert forall|x: int, q: int|
                0 <= x < after.len() && 0 <= q < after[x].1.len() implies {
                &&& occurrence_sound(after[x].0, #[trigger] after[x].1[q], sentences, punctuation)
                &&& stands_before(after[x].1[q], i, j + 1)
            } by {
                if x < occs.len() {
                    assert(after[x] == occs[x]);
                    assert(stands_before(occs[x].1[q], i, j));
                }
            }
            assert forall|x: int, a: int, b: int|
                0 <= x < after.len() && 0 <= a < b < after[x].1.len() implies reads_before(
                #[trigger] after[x].1[a],
                #[trigger] after[x].1[b],
            ) by {
                if x < occs.len() {
                    assert(after[x] == occs[x]);
                }
            }
            assert forall|x: int| 0 <= x < after.len() implies (#[trigger] after[x]).1.len()
                >= 1 by {
                if x < occs.len() {
                    assert(after[x] == occs[x]);
                }
            }
        }
    }
}

/// Occurrences that are well formed up to the end of sentence `i` are so up
/// to the start of the next.
proof fn lemma_next_sentence_wf(
    occs: Seq<(Seq<char>, Seq<OccurrenceView>)>,
    sentences: Seq<SentenceView>,
    punctuation: Seq<Seq<char>>,
    i: int,
    j: int,
)
    requires
        occurrences_wf(occs, sentences, punctuation, i, j),
    ensures
        occurrences_wf(occs, sentences, punctuation, i + 1, 0),
{
    assert forall|p: int, q: int| 0 <= p < occs.len() && 0 <= q < occs[p].1.len() implies {
        &&& occurrence_sound(occs[p].0, #[trigger] occs[p].1[q], sentences, punctuation)
        &&& stands_before(occs[p].1[q], i + 1, 0)
    } by {
        assert(stands_before(occs[p].1[q], i, j));
    }
}

/// Whether the occurrence stands in the list of `key`.
pub open spec fn recorded(
    occs: Seq<(Seq<char>, Seq<OccurrenceView>)>,
    key: Seq<char>,
    o: OccurrenceView,
) -> bool {
    exists|p: int, q: int|
        0 <= p < occs.len() && 0 <= q < occs[p].1.len() && occs[p].0 == key
            && #[trigger] occs[p].1[q] == o
}

/// The occurrence of the word at place `j` of sentence `i`.
pub open spec fn occurrence_at(sentences: Seq<SentenceView>, i: int, j: int) -> OccurrenceView {
    occurrence_in(sentences[i], i, j, words_before(sentences, i))
}

/// Recording an occurrence loses none, and the new one stands under its
/// key afterwards.
proof fn lemma_record_has(
    occs: Seq<(Seq<char>, Seq<OccurrenceView>)>,
    key: Seq<char>,
    o: OccurrenceView,
    key0: Seq<char>,
    o0: OccurrenceView,
)
    ensures
        recorded(occs, key0, o0) ==> recorded(record(occs, key, o), key0, o0),
        recorded(record(occs, key, o), key, o),
{
    let ks = entry_keys(occs);
    lemma_position(ks, key);
    let at = position(ks, key);
    let after = record(occs, key, o);
    if at >= 0 {
        assert(ks[at] == key);
        assert(after[at].0 == key);
        assert(after[at].1[occs[at].1.len() as int] == o);
    } else {
        assert(after[occs.len() as int].0 == key);
        assert(after[occs.len() as int].1[0] == o);
    }
    if recorded(occs, key0, o0) {
        let (p, q) = choose|p: int, q: int|
            0 <= p < occs.len() && 0 <= q < occs[p].1.len() && occs[p].0 == key0
                && #[trigger] occs[p].1[q] == o0;
        if at >= 0 && p == at {
            assert(after[p].1[q] == o0);
        } else {
            assert(after[p] == occs[p]);
            assert(after[p].1[q] == o0);
        }
    }
}

/// Looking at more words of a sentence loses no occurrence.
proof fn lemma_after_tokens_keeps(
    occs: Seq<(Seq<char>, Seq<OccurrenceView>)>,
    s: SentenceView,
    i: int,
    j: int,
    base: int,
    punctuation: Seq<Seq<char>>,
    key0: Seq<char>,
    o0: OccurrenceView,
)
    requires
        recorded(occs, key0, o0),
    ensures
        recorded(after_tokens(occs, s, i, j, base, punctuation), key0, o0),
    decreases j,
{
    if j > 0 {
        lemma_after_tokens_keeps(occs, s, i, j - 1, base, punctuation, key0, o0);
        lemma_record_has(
            after_tokens(occs, s, i, j - 1, base, punctuation),
            s.stemmed[j - 1],
            occurrence_in(s, i, j - 1, base),
            key0,
            o0,
        );
    }
}

/// Every word before `j` whose lower-case form is no punctuation is
/// recorded afterwards.
proof fn lemma_after_tokens_has(
    occs: Seq<(Seq<char>, Seq<OccurrenceView>)>,
    s: SentenceView,
    i: int,
    j: int,
    base: int,
    punctuation: Seq<Seq<char>>,
    j0: int,
)
    requires
        0 <= j0 < j,
        !punctuation_mark(s.stemmed[j0], punctuation),
    ensures
        recorded(
            after_tokens(occs, s, i, j, base, punctuation),
            s.stemmed[j0],
            occurrence_in(s, i, j0, base),
        ),
    decreases j,
{
    let prev = after_tokens(occs, s, i, j - 1, base, punctuation);
    let o0 = occurrence_in(s, i, j0, base);
    if j0 == j - 1 {
        lemma_record_has(prev, s.stemmed[j0], o0, s.stemmed[j0], o0);
    } else {
        lemma_after_tokens_has(occs, s, i, j - 1, base, punctuation, j0);
        lemma_record_has(
            prev,
            s.stemmed[j - 1],
            occurrence_in(s, i, j - 1, base),
            s.stemmed[j0],
            o0,
        );
    }
}

/// Nothing is left out: every word of the sentences whose lower-case form
/// is no punctuation is recorded under that form, with its sentence and
/// its place.
pub proof fn lemma_occurrences_complete(
    sentences: Seq<SentenceView>,
    n: int,
    punctuation: Seq<Seq<char>>,
    i0: int,
    j0: int,
)
    requires
        0 <= i0 < n <= sentences.len(),
        0 <= j0 < sentences[i0].words.len(),
        !punctuation_mark(sentences[i0].stemmed[j0], punctuation),
    ensures
        recorded(
            occurrences_in(sentences, n, punctuation),
            sentences[i0].stemmed[j0],
            occurrence_at(sentences, i0, j0),
        ),
    decreases n,
{
    let s = sentences[n - 1];
    let prev = occurrences_in(sentences, n - 1, punctuation);
    if i0 == n - 1 {
        lemma_after_tokens_has(
            prev,
            s,
            n - 1,
            s.words.len() as int,
            words_before(sentences, n - 1),
            punctuation,
            j0,
        );
    } else {
        lemma_occurrences_complete(sentences, n - 1, punctuation, i0, j0);
        lemma_after_tokens_keeps(
            prev,
            s,
            n - 1,
            s.words.len() as int,
            words_before(sentences, n - 1),
            punctuation,
            sentences[i0].stemmed[j0],
            occurrence_at(sentences, i0, j0),
        );
    }
}

fn record_occurrence(occurrences: &mut Occurrences, key: &str, o: Occurrence)
    ensures
        occurrence_views(final(occurrences)@) == record(
            occurrence_views(old(occurrences)@),
            key@,
            o@,
        ),
{
    let ghost before = occurrence_views(occurrences@);
    assert(keys(occurrences@) =~= entry_keys(before));
    proof {
        lemma_position(entry_keys(before), key@);
    }
    match find_key(occurrences, key) {
        Some(p) => {
            assert(entry_keys(before)[p as int] == key@);
            let ghost list = occurrences@[p as int].1@;
            occurrences[p].1.push(o);
            assert(occurrence_list(occurrences@[p as int].1@) =~= occurrence_list(list).push(o@));
            assert(occurrence_views(occurrences@) =~= before.update(
                p as int,
                (key@, before[p as int].1.push(o@)),
            ));
        },
        None => {
            let mut list: Vec<Occurrence> = Vec::new();
            list.push(o);
            assert(occurrence_list(list@) =~= seq![o@]);
            occurrences.push((key.to_owned(), list));
            assert(occurrence_views(occurrences@) =~= before.push((key@, seq![o@])));
        },
    }
}

/// The gathering of occurrences.
pub struct OccurrencesBuilder;

impl OccurrencesBuilder {
    /// Gathers, for each term of the sentences, the places where it occurs.
    pub fn build_occurrences(sentences: &Vec<Sentence>, punctuation: &Vec<String>) -> (r:
        Occurrences)
        requires
            all_wf(sentences@),
        ensures
            occurrence_views(r@) == occurrences_of(sentence_views(sentences@), views(punctuation@)),
            occurrences_wf(
                occurrence_views(r@),
                sentence_views(sentences@),
                views(punctuation@),
                sentences.len() as int,
                0,
            ),
    {
        let ghost all = sentence_views(sentences@);
        let ghost marks = views(punctuation@);
        let mut occurrences: Occurrences = Vec::new();
        proof {
            assert(occurrence_views(occurrences@) =~= Seq::empty());
            assert(entry_keys(occurrence_views(occurrences@)) =~= Seq::empty());
        }
        let mut base: u128 = 0;
        let mut i: usize = 0;
        while i < sentences.len()
            invariant
                i <= sentences.len(),
                all_wf(sentences@),
                all == sentence_views(sentences@),
                marks == views(punctuation@),
                base == words_before(all, i as int),
                base <= i * usize::MAX,
                occurrence_views(occurrences@) == occurrences_in(all, i as int, marks),
                occurrences_wf(occurrence_views(occurrences@), all, marks, i as int, 0),
            decreases sentences.len() - i,
        {
            let sentence = &sentences[i];
            assert(sentence.wf());
            let ghost s = sentence@;
            assert(all[i as int] == s);
            let ghost start = occurrence_views(occurrences@);
            proof {
                assert(i * usize::MAX + usize::MAX <= usize::MAX * usize::MAX + usize::MAX)
                    by (nonlinear_arith)
                    requires
                        0 <= i <= usize::MAX,
                ;
                assert((i + 1) * usize::MAX == i * usize::MAX + usize::MAX) by (nonlinear_arith);
            }
            let mut j: usize = 0;
            while j < sentence.length
                invariant
                    i < sentences.len(),
                    all.len() == sentences.len(),
                    sentence.wf(),
                    s == sentence@,
                    all[i as int] == s,
                    marks == views(punctuation@),
                    base == words_before(all, i as int),
                    base + usize::MAX <= u128::MAX,
                    j <= sentence.length,
                    occurrence_views(occurrences@) == after_tokens(
                        start,
                        s,
                        i as int,
                        j as int,
                        base as int,
                        marks,
                    ),
                    occurrences_wf(occurrence_views(occurrences@), all, marks, i as int, j as int),
                decreases sentence.length - j,
            {
                proof {
                    lemma_token_step_wf(
                        occurrence_views(occurrences@),
                        all,
                        marks,
                        i as int,
                        j as int,
                    );
                }
                let key = sentence.stemmed[j].as_str();
                if !is_punctuation(key, punctuation) {
                    record_occurrence(
                        &mut occurrences,
                        key,
                        Occurrence::new(sentence.words[j].as_str(), i, j, base + (j as u128)),
                    );
                }
                j += 1;
            }
            proof {
                lemma_next_sentence_wf(
                    occurrence_views(occurrences@),
                    all,
                    marks,
                    i as int,
                    sentence.length as int,
                );
            }
            base = base + (sentence.length as u128);
            i += 1;
        }
        occurrences
    }
}

} // verus!
