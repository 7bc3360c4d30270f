//! What every stage shares: the two patterns that clean the text, and the
//! tests that tell punctuation, stop words and numbers from terms.

pub mod number;
pub mod ranking;
pub mod tally;
pub mod text;

use crate::common::number::{is_number, reads_as_number};
use crate::common::text::{
    contains_str, grapheme_clusters, graphemes, lowercased, replace_pattern, replaced_or_same,
    to_lowercase, trim, trimmed, views,
};
use vstd::prelude::*;
use vstd::string::StrSliceExecFns;

verus! {

/// The pattern of what is cut out of a word: a possessive `'s`, a comma, a
/// full stop, white space.
pub open spec fn special_char_pattern() -> Seq<char> {
    "('s|,|\\.|\\s)"@
}

/// The pattern of the line breaks and tabs that give way to a space.
pub open spec fn space_pattern() -> Seq<char> {
    "[\\n\\t\\r]"@
}

/// The pattern of what is cut out of a word.
pub fn get_special_char_regex() -> (r: &'static str)
    ensures
        r@ == special_char_pattern(),
{
    "('s|,|\\.|\\s)"
}

/// The pattern of the line breaks and tabs that give way to a space.
pub fn get_space_regex() -> (r: &'static str)
    ensures
        r@ == space_pattern(),
{
    "[\\n\\t\\r]"
}

/// The punctuation marks of ASCII, in code order.
pub open spec fn ascii_punctuation() -> Seq<char> {
    "!\"#$%&'()*+,-./:;<=>?@[\\]^_`{|}~"@
}

/// The punctuation that is used where none is given: each punctuation mark
/// of ASCII as a string of its own.
pub open spec fn default_punctuation_marks() -> Seq<Seq<char>> {
    Seq::new(32, |i: int| ascii_punctuation().subrange(i, i + 1))
}

/// The punctuation that is used where none is given.
pub fn default_punctuation() -> (r: Vec<String>)
    ensures
        views(r@) == default_punctuation_marks(),
{
    let marks = "!\"#$%&'()*+,-./:;<=>?@[\\]^_`{|}~";
    proof {
        reveal_strlit("!\"#$%&'()*+,-./:;<=>?@[\\]^_`{|}~");
    }
    let mut r: Vec<String> = Vec::new();
    let mut i: usize = 0;
    while i < 32
        invariant
            i <= 32,
            marks@ == ascii_punctuation(),
            marks@.len() == 32,
            r.len() == i,
            forall|k: int| 0 <= k < i ==> (#[trigger] r@[k])@ == marks@.subrange(k, k + 1),
        decreases 32 - i,
    {
        r.push(marks.substring_char(i, i + 1).to_owned());
        i += 1;
    }
    assert(views(r@) =~= default_punctuation_marks());
    r
}

/// A word is punctuation if it is empty, or a single grapheme cluster that
/// the punctuation list holds.
pub open spec fn punctuation_mark(word: Seq<char>, punctuation: Seq<Seq<char>>) -> bool {
    word.len() == 0 || (grapheme_clusters(word).len() == 1 && punctuation.contains(word))
}

/// A word is no term if it is punctuation, a stop word or a number.
pub open spec fn invalid_word(
    word: Seq<char>,
    punctuation: Seq<Seq<char>>,
    stop_words: Seq<Seq<char>>,
) -> bool {
    punctuation_mark(word, punctuation) || stop_words.contains(word) || reads_as_number(word)
}

/// Whether the word is punctuation.
pub fn is_punctuation(word: &str, punctuation: &Vec<String>) -> (r: bool)
    ensures
        r == punctuation_mark(word@, views(punctuation@)),
{
    word.is_empty() || (graphemes(word).len() == 1 && contains_str(punctuation, word))
}

/// Whether the word is punctuation, a stop word or a number.
pub fn is_invalid_word(word: &str, punctuation: &Vec<String>, stop_words: &Vec<String>) -> (r: bool)
    ensures
        r == invalid_word(word@, views(punctuation@), views(stop_words@)),
{
    is_punctuation(word, punctuation) || contains_str(stop_words, word) || is_number(word)
}

/// A piece of text as a word: without its outer white space and what the
/// special-character pattern matches, in lower case.
pub open spec fn cleaned_word(w: Seq<char>) -> Seq<char> {
    lowercased(replaced_or_same(special_char_pattern(), trimmed(w), Seq::empty()))
}

/// The cleaned word, unless it is punctuation or a stop word.
pub open spec fn processed_word(
    w: Seq<char>,
    stopwords: Seq<Seq<char>>,
    punctuation: Seq<Seq<char>>,
) -> Option<Seq<char>> {
    let word = cleaned_word(w);
    if punctuation_mark(word, punctuation) || stopwords.contains(word) {
        None
    } else {
        Some(word)
    }
}

/// Cleans a piece of text: trims it, cuts out what the special-character
/// pattern matches, and turns it to lower case.
pub fn clean_word(w: &str) -> (r: String)
    ensures
        r@ == cleaned_word(w@),
{
    let t = trim(w);
    proof {
        reveal_strlit("");
        assert(""@ =~= Seq::<char>::empty());
    }
    match replace_pattern(get_special_char_regex(), t.as_str(), "") {
        Some(v) => to_lowercase(v.as_str()),
        None => to_lowercase(t.as_str()),
    }
}

/// The cleaned word, unless it is punctuation or a stop word.
pub fn process_word(w: &str, stopwords: &Vec<String>, punctuation: &Vec<String>) -> (r: Option<
    String,
>)
    ensures
        r.is_some() == processed_word(w@, views(stopwords@), views(punctuation@)).is_some(),
        r.is_some() ==> r.unwrap()@ == processed_word(
            w@,
            views(stopwords@),
            views(punctuation@),
        ).unwrap(),
{
    let word = clean_word(w);
    if is_punctuation(word.as_str(), punctuation) || contains_str(stopwords, word.as_str()) {
        return None;
    }
    Some(word)
}

/// The index of the first element of `s` that equals `x`, or -1.
pub open spec fn position<A>(s: Seq<A>, x: A) -> int
    decreases s.len(),
{
    if s.len() == 0 {
        -1
    } else {
        let p = position(s.drop_last(), x);
        if p >= 0 {
            p
        } else if s.last() == x {
            s.len() - 1
        } else {
            -1
        }
    }
}

/// `position` finds the first place of `x`, and only misses what is absent.
pub proof fn lemma_position<A>(s: Seq<A>, x: A)
    ensures
        -1 <= position(s, x) < s.len(),
        position(s, x) >= 0 ==> s[position(s, x)] == x,
        forall|k: int| 0 <= k < s.len() && s[k] == x ==> 0 <= position(s, x) <= k,
        position(s, x) == -1 <==> !s.contains(x),
    decreases s.len(),
{
    if s.len() > 0 {
        lemma_position(s.drop_last(), x);
        let p = position(s.drop_last(), x);
        if p >= 0 {
            assert(s.drop_last()[p] == s[p]);
        }
        assert forall|k: int| 0 <= k < s.len() && s[k] == x implies 0 <= position(s, x) <= k by {
            if k < s.len() - 1 {
                assert(s.drop_last()[k] == x);
            }
        }
        if position(s, x) == -1 {
            if s.contains(x) {
                let k = choose|k: int| 0 <= k < s.len() && s[k] == x;
                assert(0 <= position(s, x));
            }
        } else {
            assert(s[position(s, x)] == x);
        }
    }
}

/// The keys of a list of entries, seen as character sequences.
pub open spec fn entry_keys<V>(entries: Seq<(Seq<char>, V)>) -> Seq<Seq<char>> {
    entries.map_values(|e: (Seq<char>, V)| e.0)
}

/// A list without repeats stays so when something new is put at its end.
pub proof fn lemma_push_new<A>(s: Seq<A>, x: A)
    requires
        s.no_duplicates(),
        !s.contains(x),
    ensures
        s.push(x).no_duplicates(),
{
    assert forall|a: int, b: int|
        0 <= a < s.push(x).len() && 0 <= b < s.push(x).len() && a != b implies s.push(x)[a]
        != s.push(x)[b] by {
        if a < s.len() && b < s.len() {
        } else if a < s.len() {
            assert(s.contains(s[a]));
        } else {
            assert(s.contains(s[b]));
        }
    }
}

/// The keys of a list of entries.
pub open spec fn keys<V>(entries: Seq<(String, V)>) -> Seq<Seq<char>> {
    entries.map_values(|e: (String, V)| e.0@)
}

/// The place of `key` among the entries, or `None`. What is gathered under
/// words is kept as a list of entries in the order in which each word first
/// came up, since that order is part of what is stated of it; so a word is
/// found by going through the list.
pub fn find_key<V>(entries: &Vec<(String, V)>, key: &str) -> (r: Option<usize>)
    ensures
        match r {
            Some(i) => i == position(keys(entries@), key@),
            None => position(keys(entries@), key@) == -1,
        },
        r.is_some() ==> r.unwrap() < entries.len(),
{
    let wanted = key.to_owned();
    let mut i: usize = 0;
    while i < entries.len()
        invariant
            wanted@ == key@,
            i <= entries.len(),
            forall|k: int| 0 <= k < i ==> keys(entries@)[k] != key@,
        decreases entries.len() - i,
    {
        if entries[i].0 == wanted {
            proof {
                lemma_position(keys(entries@), key@);
                assert(keys(entries@)[i as int] == key@);
                assert(keys(entries@)[position(keys(entries@), key@)] == key@);
            }
            return Some(i);
        }
        i += 1;
    }
    proof {
        lemma_position(keys(entries@), key@);
        if position(keys(entries@), key@) >= 0 {
            assert(keys(entries@)[position(keys(entries@), key@)] == key@);
        }
    }
    None
}

} // verus!
