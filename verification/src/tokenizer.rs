//! A text cut into words, sentences, phrases or paragraphs, each cleaned,
//! in lower case, and without stop words and punctuation.

use crate::common::text::{
    clone_strings, contains_str, join, joined, lines, split_unicode_sentences, split_whitespace,
    split_word_bounds, text_lines, trim, trimmed, unicode_sentences, views, whitespace_words,
    word_bounds,
};
use crate::common::{
    clean_word, cleaned_word, is_punctuation, process_word, processed_word, punctuation_mark,
};
use crate::common::{default_punctuation, default_punctuation_marks};
use vstd::prelude::*;
use vstd::string::StringExecFns;

verus! {

/// The stop words and punctuation that a tokenizer leaves out.
pub struct Exclusions {
    pub stopwords: Seq<Seq<char>>,
    pub punctuation: Seq<Seq<char>>,
}

/// The words of a text: the pieces between its word bounds, cleaned, those
/// left out that are punctuation or stop words.
pub open spec fn words_of(text: Seq<char>, x: Exclusions) -> Seq<Seq<char>> {
    word_bounds(text).filter_map(
        |piece: Seq<char>| processed_word(piece, x.stopwords, x.punctuation),
    )
}

/// A sentence as one string: its words joined by spaces.
pub open spec fn sentence_string(s: Seq<char>, x: Exclusions) -> Seq<char> {
    joined(words_of(s, x))
}

/// The sentences of a text, each as one string.
pub open spec fn sentence_strings(text: Seq<char>, x: Exclusions) -> Seq<Seq<char>> {
    unicode_sentences(text).map_values(|s: Seq<char>| sentence_string(s, x))
}

/// A line as a paragraph: its sentences joined by spaces, or nothing if the
/// line holds white space only.
pub open spec fn paragraph_string(line: Seq<char>, x: Exclusions) -> Option<Seq<char>> {
    if trimmed(line).len() == 0 {
        None
    } else {
        Some(joined(sentence_strings(line, x)))
    }
}

/// The paragraphs of a text, one for each line that is not blank.
pub open spec fn paragraph_strings(text: Seq<char>, x: Exclusions) -> Seq<Seq<char>> {
    text_lines(text).filter_map(|line: Seq<char>| paragraph_string(line, x))
}

/// The phrases found so far, and the phrase that is being put together.
pub struct PhraseState {
    pub phrases: Seq<Seq<char>>,
    pub phrase: Seq<char>,
}

/// The state after the phrase in the making was closed.
pub open spec fn close_phrase(state: PhraseState) -> PhraseState {
    PhraseState { phrases: state.phrases.push(state.phrase), phrase: Seq::empty() }
}

/// The state after one more piece of text: punctuation changes nothing; a
/// stop word closes a phrase that has begun; any other word joins the
/// phrase. After that, a phrase that has reached `length` words is closed.
pub open spec fn phrase_step(
    state: PhraseState,
    piece: Seq<char>,
    x: Exclusions,
    length: Option<int>,
) -> PhraseState {
    let word = cleaned_word(piece);
    let next = if punctuation_mark(word, x.punctuation) {
        state
    } else if x.stopwords.contains(word) {
        if state.phrase.len() > 0 {
            close_phrase(state)
        } else {
            state
        }
    } else {
        PhraseState {
            phrases: state.phrases,
            phrase: if state.phrase.len() > 0 {
                state.phrase + seq![' '] + word
            } else {
                word
            },
        }
    };
    match length {
        Some(l) => if whitespace_words(next.phrase).len() >= l {
            close_phrase(next)
        } else {
            next
        },
        None => next,
    }
}

/// The state after the first `n` pieces.
pub open spec fn phrases_after(
    pieces: Seq<Seq<char>>,
    n: int,
    x: Exclusions,
    length: Option<int>,
) -> PhraseState
    decreases n,
{
    if n <= 0 {
        PhraseState { phrases: Seq::empty(), phrase: Seq::empty() }
    } else {
        phrase_step(phrases_after(pieces, n - 1, x, length), pieces[n - 1], x, length)
    }
}

/// The phrases of a text: the runs of words between stop words, each of at
/// most `length` words where a length is given.
pub open spec fn phrase_strings(text: Seq<char>, x: Exclusions, length: Option<int>) -> Seq<
    Seq<char>,
> {
    let pieces = word_bounds(text);
    let last = phrases_after(pieces, pieces.len() as int, x, length);
    if last.phrase.len() > 0 {
        last.phrases.push(last.phrase)
    } else {
        last.phrases
    }
}

/// A text with the stop words and the punctuation to leave out.
pub struct Tokenizer {
    pub text: String,
    pub stopwords: Vec<String>,
    pub punctuation: Vec<String>,
}

fn process_sentences(sentence: &str, punctuation: &Vec<String>, stopwords: &Vec<String>) -> (r:
    String)
    ensures
        r@ == sentence_string(
            sentence@,
            Exclusions { stopwords: views(stopwords@), punctuation: views(punctuation@) },
        ),
{
    let words = split_words(sentence, punctuation, stopwords);
    join(&words)
}

fn split_words(text: &str, punctuation: &Vec<String>, stopwords: &Vec<String>) -> (r: Vec<String>)
    ensures
        views(r@) == words_of(
            text@,
            Exclusions { stopwords: views(stopwords@), punctuation: views(punctuation@) },
        ),
{
    let pieces = split_word_bounds(text);
    let ghost all = views(pieces@);
    let ghost f = |piece: Seq<char>| processed_word(piece, views(stopwords@), views(punctuation@));
    let mut r: Vec<String> = Vec::new();
    let mut i: usize = 0;
    assert(views(r@) =~= Seq::<Seq<char>>::empty());
    while i < pieces.len()
        invariant
            i <= pieces.len(),
            all == views(pieces@),
            f == |piece: Seq<char>| processed_word(piece, views(stopwords@), views(punctuation@)),
            views(r@) == all.take(i as int).filter_map(f),
        decreases pieces.len() - i,
    {
        proof {
            all.lemma_filter_map_take_succ(f, i as int);
        }
        match process_word(pieces[i].as_str(), stopwords, punctuation) {
            Some(w) => {
                let ghost before = r@;
                r.push(w);
                assert(views(r@) =~= views(before).push(w@));
            },
            None => {},
        }
        i += 1;
    }
    assert(all.take(pieces.len() as int) =~= all);
    r
}

fn split_sentences(text: &str, punctuation: &Vec<String>, stopwords: &Vec<String>) -> (r: Vec<
    String,
>)
    ensures
        views(r@) == sentence_strings(
            text@,
            Exclusions { stopwords: views(stopwords@), punctuation: views(punctuation@) },
        ),
{
    let ghost x = Exclusions { stopwords: views(stopwords@), punctuation: views(punctuation@) };
    let parts = split_unicode_sentences(text);
    let mut r: Vec<String> = Vec::new();
    let mut i: usize = 0;
    while i < parts.len()
        invariant
            i <= parts.len(),
            x == (Exclusions { stopwords: views(stopwords@), punctuation: views(punctuation@) }),
            r.len() == i,
            forall|k: int| 0 <= k < i ==> (#[trigger] r@[k])@ == sentence_string(parts@[k]@, x),
        decreases parts.len() - i,
    {
        r.push(process_sentences(parts[i].as_str(), punctuation, stopwords));
        i += 1;
    }
    assert(views(r@) =~= views(parts@).map_values(|s: Seq<char>| sentence_string(s, x)));
    r
}

fn process_paragraphs(paragraph: &str, punctuation: &Vec<String>, stopwords: &Vec<String>) -> (r:
    Option<String>)
    ensures
        r.is_some() == paragraph_string(
            paragraph@,
            Exclusions { stopwords: views(stopwords@), punctuation: views(punctuation@) },
        ).is_some(),
        r.is_some() ==> r.unwrap()@ == paragraph_string(
            paragraph@,
            Exclusions { stopwords: views(stopwords@), punctuation: views(punctuation@) },
        ).unwrap(),
{
    if trim(paragraph).as_str().is_empty() {
        return None;
    }
    let sentences = split_sentences(paragraph, punctuation, stopwords);
    Some(join(&sentences))
}

/// Takes in one more piece of text.
fn create_phrase(
    phrases: &mut Vec<String>,
    phrase: &mut String,
    base_word: &str,
    punctuation: &Vec<String>,
    stopwords: &Vec<String>,
    length: Option<usize>,
)
    ensures
        (PhraseState { phrases: views(final(phrases)@), phrase: final(phrase)@ }) == phrase_step(
            PhraseState { phrases: views(old(phrases)@), phrase: old(phrase)@ },
            base_word@,
            Exclusions { stopwords: views(stopwords@), punctuation: views(punctuation@) },
            match length {
                Some(l) => Some(l as int),
                None => None,
            },
        ),
{
    let word = clean_word(base_word);
    if !is_punctuation(word.as_str(), punctuation) {
        if contains_str(stopwords, word.as_str()) {
            if !phrase.as_str().is_empty() {
                close(phrases, phrase);
            }
        } else {
            if !phrase.as_str().is_empty() {
                proof {
                    reveal_strlit(" ");
                    assert(" "@ =~= seq![' ']);
                }
                phrase.append(" ");
            }
            let ghost before = phrase@;
            phrase.append(word.as_str());
            assert(phrase@ =~= before + word@);
            assert(old(phrase)@.len() == 0 ==> phrase@ =~= word@);
        }
    }
    match length {
        Some(l) => {
            if split_whitespace(phrase.as_str()).len() >= l {
                close(phrases, phrase);
            }
        },
        None => {},
    }
}

fn close(phrases: &mut Vec<String>, phrase: &mut String)
    ensures
        views(final(phrases)@) == views(old(phrases)@).push(old(phrase)@),
        final(phrase)@ == Seq::<char>::empty(),
{
    let ghost before = phrases@;
    phrases.push(phrase.clone());
    assert(views(phrases@) =~= views(before).push(phrase@));
    *phrase = String::new();
}

impl Tokenizer {
    /// What the tokenizer leaves out.
    pub open spec fn exclusions(&self) -> Exclusions {
        Exclusions { stopwords: views(self.stopwords@), punctuation: views(self.punctuation@) }
    }

    /// Takes the text and the stop words, and the punctuation if it is not
    /// that of ASCII.
    pub fn new(text: &str, stopwords: &Vec<String>, punctuation: Option<&Vec<String>>) -> (r: Self)
        ensures
            r.text@ == text@,
            views(r.stopwords@) == views(stopwords@),
            views(r.punctuation@) == match punctuation {
                Some(p) => views(p@),
                None => default_punctuation_marks(),
            },
    {
        Tokenizer {
            text: String::from_str(text),
            stopwords: clone_strings(stopwords),
            punctuation: match punctuation {
                Some(p) => clone_strings(p),
                None => default_punctuation(),
            },
        }
    }

    /// The words of the text.
    pub fn split_into_words(&self) -> (r: Vec<String>)
        ensures
            views(r@) == words_of(self.text@, self.exclusions()),
    {
        split_words(self.text.as_str(), &self.punctuation, &self.stopwords)
    }

    /// The words of the text.
    pub fn sync_split_into_words(&self) -> (r: Vec<String>)
        ensures
            views(r@) == words_of(self.text@, self.exclusions()),
    {
        self.split_into_words()
    }

    /// The sentences of the text, each as its words joined by spaces.
    pub fn split_into_sentences(&self) -> (r: Vec<String>)
        ensures
            views(r@) == sentence_strings(self.text@, self.exclusions()),
    {
        split_sentences(self.text.as_str(), &self.punctuation, &self.stopwords)
    }

    /// The sentences of the text, each as its words joined by spaces.
    pub fn sync_split_into_sentences(&self) -> (r: Vec<String>)
        ensures
            views(r@) == sentence_strings(self.text@, self.exclusions()),
    {
        self.split_into_sentences()
    }

    /// The phrases of the text: the runs of words between stop words, of
    /// at most `length` words each where a length is given.
    pub fn split_into_phrases(&self, length: Option<usize>) -> (r: Vec<String>)
        ensures
            views(r@) == phrase_strings(
                self.text@,
                self.exclusions(),
                match length {
                    Some(l) => Some(l as int),
                    None => None,
                },
            ),
    {
        self.basic_phrase_split(length)
    }

    /// The phrases of the text.
    pub fn sync_split_into_phrases(&self, length: Option<usize>) -> (r: Vec<String>)
        ensures
            views(r@) == phrase_strings(
                self.text@,
                self.exclusions(),
                match length {
                    Some(l) => Some(l as int),
                    None => None,
                },
            ),
    {
        self.basic_phrase_split(length)
    }

    fn basic_phrase_split(&self, length: Option<usize>) -> (r: Vec<String>)
        ensures
            views(r@) == phrase_strings(
                self.text@,
                self.exclusions(),
                match length {
                    Some(l) => Some(l as int),
                    None => None,
                },
            ),
    {
        let ghost x = self.exclusions();
        let ghost limit: Option<int> = match length {
            Some(l) => Some(l as int),
            None => None,
        };
        let pieces = split_word_bounds(self.text.as_str());
        let mut phrases: Vec<String> = Vec::new();
        let mut phrase = String::new();
        let mut i: usize = 0;
        assert(views(phrases@) =~= Seq::<Seq<char>>::empty());
        while i < pieces.len()
            invariant
                i <= pieces.len(),
                x == self.exclusions(),
                limit == match length {
                    Some(l) => Some(l as int),
                    None => None,
                },
                (PhraseState { phrases: views(phrases@), phrase: phrase@ }) == phrases_after(
                    views(pieces@),
                    i as int,
                    x,
                    limit,
                ),
            decreases pieces.len() - i,
        {
            create_phrase(
                &mut phrases,
                &mut phrase,
                pieces[i].as_str(),
                &self.punctuation,
                &self.stopwords,
                length,
            );
            i += 1;
        }
        if !phrase.as_str().is_empty() {
            let ghost before = phrases@;
            phrases.push(phrase);
            assert(views(phrases@) =~= views(before).push(phrase@));
        }
        phrases
    }

    /// The paragraphs of the text: one for each line that is not blank,
    /// its sentences joined by spaces.
    pub fn split_into_paragraphs(&self) -> (r: Vec<String>)
        ensures
            views(r@) == paragraph_strings(self.text@, self.exclusions()),
    {
        let ghost x = self.exclusions();
        let all_lines = lines(self.text.as_str());
        let ghost all = views(all_lines@);
        let ghost f = |line: Seq<char>| paragraph_string(line, x);
        let mut r: Vec<String> = Vec::new();
        let mut i: usize = 0;
        assert(views(r@) =~= Seq::<Seq<char>>::empty());
        while i < all_lines.len()
            invariant
                i <= all_lines.len(),
                x == self.exclusions(),
                all == views(all_lines@),
                f == |line: Seq<char>| paragraph_string(line, x),
                views(r@) == all.take(i as int).filter_map(f),
            decreases all_lines.len() - i,
        {
            proof {
                all.lemma_filter_map_take_succ(f, i as int);
            }
            match process_paragraphs(all_lines[i].as_str(), &self.punctuation, &self.stopwords) {
                Some(p) => {
                    let ghost before = r@;
                    r.push(p);
                    assert(views(r@) =~= views(before).push(p@));
                },
                None => {},
            }
            i += 1;
        }
        assert(all.take(all_lines.len() as int) =~= all);
        r
    }

    /// The paragraphs of the text.
    pub fn sync_split_into_paragraphs(&self) -> (r: Vec<String>)
        ensures
            views(r@) == paragraph_strings(self.text@, self.exclusions()),
    {
        self.split_into_paragraphs()
    }
}

} // verus!
