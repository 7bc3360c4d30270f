use keyword_extraction::common::number::is_number;
use keyword_extraction::common::ranking::{
    get_ranked_scores, get_ranked_strings, get_score, lex_less_str, sort_ranked_map,
};
use keyword_extraction::common::text::{
    chars_of, clone_range, clone_strings, contains_str, join, join_range, lines, split_whitespace,
    str_eq, trim,
};
use keyword_extraction::common::{
    clean_word, get_space_regex, get_special_char_regex, is_invalid_word, is_punctuation,
    process_word,
};
use keyword_extraction::tf_idf::document_processor::DocumentProcessor;
use keyword_extraction::yake::simple_tokenizer::SimpleTokenizer;
use keyword_extraction::yake::yake_tokenizer::YakeTokenizer;

fn owned(v: &[&str]) -> Vec<String> {
    v.iter().map(|s| s.to_string()).collect()
}

#[test]
fn split_whitespace_matches_std() {
    for s in ["", " ", "a", " a  b\tc\n", "\u{a0}x\u{2003}y z", "one", "  lead", "trail  ", "é ü"] {
        let expected: Vec<String> = s.split_whitespace().map(|w| w.to_string()).collect();
        assert_eq!(split_whitespace(s), expected, "{:?}", s);
    }
}

#[test]
fn lines_matches_std() {
    for s in [
        "", "a", "a\n", "a\nb", "a\r\nb", "a\n\nb", "\n", "\r\n", "a\r", "a\rb\n", "\r\n\r\n",
        "x\n\r\ny", "last\r\n", "é\nü",
    ] {
        let expected: Vec<String> = s.lines().map(|w| w.to_string()).collect();
        assert_eq!(lines(s), expected, "{:?}", s);
    }
}

#[test]
fn strings_are_compared_and_copied() {
    assert!(str_eq("abc", "abc"));
    assert!(!str_eq("abc", "abd"));
    assert!(!str_eq("abc", "ab"));
    assert_eq!(chars_of("héllo"), vec!['h', 'é', 'l', 'l', 'o']);
    let list = owned(&["a", "b", "c", "d"]);
    assert!(contains_str(&list, "c"));
    assert!(!contains_str(&list, "e"));
    assert_eq!(clone_strings(&list), list);
    assert_eq!(clone_range(&list, 1, 3), owned(&["b", "c"]));
    assert_eq!(join(&list), "a b c d");
    assert_eq!(join(&owned(&[])), "");
    assert_eq!(join_range(&list, 2, 3), "c");
    assert_eq!(join_range(&list, 1, 1), "");
}

#[test]
fn strings_are_ordered_as_std_orders_them() {
    let samples = ["", "a", "ab", "b", "B", "é", "z", "zz", "aé", "a b"];
    for a in samples {
        for b in samples {
            assert_eq!(lex_less_str(a, b), a < b, "{:?} {:?}", a, b);
        }
    }
}

#[test]
fn words_are_cleaned() {
    assert_eq!(get_special_char_regex(), r"('s|,|\.|\s)");
    assert_eq!(get_space_regex(), r"[\n\t\r]");
    assert_eq!(clean_word("  Fox's, "), "fox");
    assert_eq!(clean_word("U.S.A."), "usa");
    assert_eq!(clean_word("   "), "");
    let stop = owned(&["the"]);
    let marks = owned(&[".", "!", "-"]);
    assert_eq!(process_word(" The ", &stop, &marks), None);
    assert_eq!(process_word("!", &stop, &marks), None);
    assert_eq!(process_word(" , ", &stop, &marks), None);
    assert_eq!(process_word("Cat", &stop, &marks), Some("cat".to_string()));
    assert_eq!(process_word("?", &stop, &marks), Some("?".to_string()));
    assert!(is_punctuation("", &marks));
    assert!(is_punctuation("-", &marks));
    assert!(!is_punctuation("--", &marks));
    assert!(!is_punctuation("a", &marks));
    assert!(is_invalid_word("the", &marks, &stop));
    assert!(is_invalid_word("12.5", &marks, &stop));
    assert!(is_invalid_word("!", &marks, &stop));
    assert!(!is_invalid_word("cat", &marks, &stop));
}

#[test]
fn a_grapheme_cluster_counts_as_one() {
    let marks = owned(&["e\u{301}", "\r\n"]);
    assert!(is_punctuation("e\u{301}", &marks));
    assert!(is_punctuation("\r\n", &marks));
}

#[test]
fn simple_tokenizer_leaves_out_stop_words() {
    let stop = owned(&["The", "a"]);
    let t = SimpleTokenizer::new("The quick fox. It can't jump a fence!", &stop, None);
    assert_eq!(t.split_into_words(), owned(&["quick", "fox", "It", "can't", "jump", "fence"]));
    assert_eq!(
        t.split_into_sentences(),
        vec![owned(&["quick", "fox"]), owned(&["It", "can't", "jump", "fence"])]
    );
    let marks = owned(&["x"]);
    let other = SimpleTokenizer::new("x y", &stop, Some(&marks));
    assert_eq!(other.split_into_words(), owned(&["y"]));
    assert_eq!(other.punctuation, marks);
}

#[test]
fn yake_tokenizer_cuts_sentences() {
    let t = YakeTokenizer::new("One two. Three's four, five.");
    let words: Vec<Vec<String>> = t.get_sentences().iter().map(|s| s.words.clone()).collect();
    assert_eq!(
        words,
        vec![owned(&["One", "two", "."]), owned(&["Three's", "four", ",", "five", "."])]
    );
    assert_eq!(t.get_sentences()[1].stemmed, owned(&["three's", "four", ",", "five", "."]));
    assert!(YakeTokenizer::new("").get_sentences().is_empty());
}

#[test]
fn documents_are_processed() {
    let docs = owned(&["The Cat, the hat.", "  ", "A dog's   bone !"]);
    let stop = owned(&["the", "a"]);
    let p = DocumentProcessor::new(&docs, &stop, None);
    assert_eq!(p.process_documents(), owned(&["cat hat", "", "dog bone"]));
    assert_eq!(p.stopwords, stop);
    assert_eq!(p.punctuation.len(), 32);
}

#[test]
fn entries_are_ranked() {
    let map: Vec<(String, u64)> =
        vec![("b".to_string(), 1), ("a".to_string(), 1), ("c".to_string(), 2), ("a".to_string(), 1)];
    let sorted = sort_ranked_map(&map);
    let names: Vec<&str> = sorted.iter().map(|e| e.0.as_str()).collect();
    assert_eq!(names, vec!["c", "a", "a", "b"]);
    assert_eq!(get_ranked_strings(&map, 2), owned(&["c", "a"]));
    assert_eq!(get_ranked_strings(&map, 9).len(), 4);
    assert_eq!(get_ranked_scores(&map, 1), vec![("c".to_string(), 2)]);
    assert!(get_ranked_scores(&map, 0).is_empty());
    assert_eq!(get_score(&map, "c"), 2);
    assert_eq!(get_score(&map, "z"), 0);
    let mut other = map.clone();
    other.reverse();
    assert_eq!(sort_ranked_map(&other), sorted);
}

struct Numbers(u64);

impl Numbers {
    fn next(&mut self) -> usize {
        self.0 = self.0.wrapping_mul(6364136223846793005).wrapping_add(1442695040888963407);
        (self.0 >> 33) as usize
    }

    fn string(&mut self, alphabet: &[char], max: usize) -> String {
        let n = self.next() % (max + 1);
        (0..n).map(|_| alphabet[self.next() % alphabet.len()]).collect()
    }
}

#[test]
fn text_functions_agree_with_std_on_many_strings() {
    let mut numbers = Numbers(42);
    let alphabet = [
        'a', 'b', ' ', '\n', '\r', '\t', '\u{a0}', 'é', '\u{2028}', '\u{85}', '\u{3000}', 'Z',
        '\u{0b}', '\u{0c}', '\u{1680}', '\u{200b}', '\u{feff}',
    ];
    for _ in 0..3000 {
        let s = numbers.string(&alphabet, 12);
        assert_eq!(trim(&s), s.trim(), "{:?}", s);
        let words: Vec<String> = s.split_whitespace().map(|x| x.to_string()).collect();
        assert_eq!(split_whitespace(&s), words, "{:?}", s);
        let all: Vec<String> = s.lines().map(|x| x.to_string()).collect();
        assert_eq!(lines(&s), all, "{:?}", s);
        let t = numbers.string(&alphabet, 6);
        assert_eq!(lex_less_str(&s, &t), s < t, "{:?} {:?}", s, t);
    }
    let signs = [
        '0', '1', '9', '.', 'e', 'E', '+', '-', 'i', 'n', 'f', 'a', 'N', 'I', 't', 'y', ' ', '_',
    ];
    for _ in 0..20000 {
        let s = numbers.string(&signs, 9);
        assert_eq!(is_number(&s), s.parse::<f64>().is_ok(), "{:?}", s);
    }
}

#[test]
fn trim_agrees_with_std_on_every_character() {
    for code in 0..=0x10ffff_u32 {
        if let Some(c) = char::from_u32(code) {
            let s = format!("{c}a{c}");
            assert_eq!(trim(&s), s.trim(), "{:?}", c);
            assert_eq!(split_whitespace(&s).len(), s.split_whitespace().count(), "{:?}", c);
        }
    }
}

#[test]
fn white_space_is_what_is_trimmed() {
    let white = |c: char| {
        matches!(
            c,
            '\u{9}'..='\u{d}'
                | ' '
                | '\u{85}'
                | '\u{a0}'
                | '\u{1680}'
                | '\u{2000}'..='\u{200a}'
                | '\u{2028}'
                | '\u{2029}'
                | '\u{202f}'
                | '\u{205f}'
                | '\u{3000}'
        )
    };
    let mut count = 0;
    for code in 0..=0x10ffff_u32 {
        if let Some(c) = char::from_u32(code) {
            assert_eq!(trim(&c.to_string()).is_empty(), white(c), "{:?}", c);
            if white(c) {
                count += 1;
            }
        }
    }
    assert_eq!(count, 25);
    assert_eq!(split_whitespace("a\u{2003}b\u{200b}c"), vec!["a", "b\u{200b}c"]);
}
