use keyword_extraction::common::default_punctuation;
use keyword_extraction::yake::candidate_selection::CandidateSelection;
use keyword_extraction::yake::candidate_selection_and_context_builder::CandidateSelectionAndContextBuilder;
use keyword_extraction::yake::context_builder::{build_left_right_context, ContextBuilder};
use keyword_extraction::yake::feature_extraction::{
    count_distinct_strings, is_capitalized, is_upper, FeatureExtractor,
};
use keyword_extraction::yake::levenshtein::Threshold;
use keyword_extraction::yake::occurrences_builder::OccurrencesBuilder;
use keyword_extraction::yake::sentences_builder::{Sentence, SentencesBuilder};
use keyword_extraction::yake::text_pre_processor::TextPreProcessor;
use keyword_extraction::yake::yake_logic::YakeLogic;
use keyword_extraction::yake::yake_params::{
    check_params, default_threshold, YakeError, YakeParams,
};
use keyword_extraction::yake::{surviving, Yake};

fn owned(v: &[&str]) -> Vec<String> {
    v.iter().map(|s| s.to_string()).collect()
}

fn scored(v: &[(&str, u64)]) -> Vec<(String, u64)> {
    v.iter().map(|(s, n)| (s.to_string(), *n)).collect()
}

#[test]
fn line_breaks_become_spaces() {
    assert_eq!(TextPreProcessor::process_text("  a\nb\tc\rd  "), "a b c d");
    assert_eq!(TextPreProcessor::process_text(" \n\t "), "");
    assert_eq!(TextPreProcessor::process_text(""), "");
}

#[test]
fn sentences_hold_words_and_lower_case_forms() {
    let sentences =
        SentencesBuilder::build_sentences("Mr. Fox's dog jumped, twice.\nThe DOG was 3.5 years old.");
    let words: Vec<Vec<String>> = sentences.iter().map(|s| s.words.clone()).collect();
    assert_eq!(
        words,
        vec![
            owned(&["Mr", "."]),
            owned(&["Fox's", "dog", "jumped", ",", "twice", "."]),
            owned(&["The", "DOG", "was", "3.5", "years", "old", "."]),
        ]
    );
    assert_eq!(sentences[2].stemmed, owned(&["the", "dog", "was", "3.5", "years", "old", "."]));
    assert_eq!(sentences[2].length, 7);
    assert_eq!(sentences[1].get_length(), 6);
    assert_eq!(sentences[1].get_words(), &owned(&["Fox's", "dog", "jumped", ",", "twice", "."]));
    assert_eq!(
        sentences[1].get_stemmed(),
        &owned(&["fox's", "dog", "jumped", ",", "twice", "."])
    );
}

#[test]
fn punctuation_stays_in_the_sentence() {
    let sentences = SentencesBuilder::build_sentences("a, b");
    assert_eq!(sentences.len(), 1);
    assert_eq!(sentences[0].words, owned(&["a", ",", "b"]));
    assert_eq!(sentences[0].stemmed, owned(&["a", ",", "b"]));
    assert_eq!(sentences[0].length, 3);
    let (candidates, dedup, occurrences, contexts) =
        CandidateSelectionAndContextBuilder::select_candidates_and_build_context(
            &sentences,
            3,
            1,
            &owned(&[]),
            &default_punctuation(),
        );
    let keys: Vec<&str> = candidates.iter().map(|c| c.0.as_str()).collect();
    assert_eq!(keys, vec!["a", "b"]);
    assert!(dedup.is_empty());
    let terms: Vec<&str> = occurrences.iter().map(|o| o.0.as_str()).collect();
    assert_eq!(terms, vec!["a", "b"]);
    assert_eq!(occurrences[1].1[0].position, 2);
    let comma = contexts.iter().find(|e| e.0 == ",").unwrap();
    assert_eq!(comma.1, (owned(&["a"]), owned(&["b"])));
    let b = contexts.iter().find(|e| e.0 == "b").unwrap();
    assert_eq!(b.1, (owned(&[","]), owned(&[])));
}

#[test]
fn a_sentence_of_white_space_has_no_words() {
    let s = Sentence::new("   ");
    assert_eq!(s.length, 0);
    assert!(s.words.is_empty());
    let (candidates, dedup) =
        CandidateSelection::select_candidates(&vec![s], 3, &owned(&[]), &default_punctuation());
    assert!(candidates.is_empty());
    assert!(dedup.is_empty());
}

#[test]
fn empty_text_gives_nothing() {
    let found = YakeLogic::build_yake("", &owned(&["the"]), &default_punctuation(), &default_threshold(), 3, 2)
        .unwrap();
    assert_eq!(found.sentences_len, 0);
    assert!(found.candidates.is_empty());
    assert!(found.dedup.is_empty());
    assert!(found.features.terms.is_empty());
    assert!(found.survivors.is_empty());
    assert!(found.plans.is_empty());
    assert_eq!(found.features.tf_total, 0);
    assert_eq!(found.features.tf_max, 0);
    let yake = Yake::new(vec![], vec![], default_threshold()).unwrap();
    assert_eq!(yake.get_keyword_score("anything"), 0);
    assert_eq!(yake.get_word_score("anything"), 0);
    assert!(yake.get_ranked_keywords(10).is_empty());
    assert!(yake.get_ranked_terms(10).is_empty());
}

#[test]
fn candidates_keep_within_the_ngram_bound() {
    let text = "Rust is fast and safe. Safe Rust code is fast code, and fast Rust is fun.";
    for ngram in 1..5usize {
        let sentences = SentencesBuilder::build_sentences(text);
        let (candidates, _) = CandidateSelection::select_candidates(
            &sentences,
            ngram,
            &owned(&["is", "and"]),
            &default_punctuation(),
        );
        assert!(!candidates.is_empty());
        for (key, c) in &candidates {
            assert!(c.lexical_form.len() >= 1 && c.lexical_form.len() <= ngram);
            assert_eq!(*key, c.lexical_form.join(" "));
            assert!(!c.surface_forms.is_empty());
            for form in &c.surface_forms {
                let lower: Vec<String> = form.iter().map(|w| w.to_lowercase()).collect();
                assert_eq!(lower, c.lexical_form);
            }
            for w in &c.lexical_form {
                assert!(w != "is" && w != "and");
            }
        }
    }
}

#[test]
fn candidates_come_in_order_of_first_occurrence() {
    let sentences = SentencesBuilder::build_sentences("Red fox 12 red Fox jumps");
    let (candidates, dedup) =
        CandidateSelection::select_candidates(&sentences, 2, &owned(&[]), &default_punctuation());
    let keys: Vec<&str> = candidates.iter().map(|c| c.0.as_str()).collect();
    assert_eq!(keys, vec!["red", "red fox", "fox", "fox jumps", "jumps"]);
    let red_fox = &candidates[1].1;
    assert_eq!(red_fox.lexical_form, owned(&["red", "fox"]));
    assert_eq!(red_fox.surface_forms, vec![owned(&["Red", "fox"]), owned(&["red", "Fox"])]);
    assert_eq!(candidates[0].1.surface_forms, vec![owned(&["Red"]), owned(&["red"])]);
    assert_eq!(
        dedup,
        vec![("red".to_string(), 1u128), ("fox".to_string(), 2), ("jumps".to_string(), 1)]
    );
}

#[test]
fn numbers_and_punctuation_are_no_candidates() {
    let sentences = vec![Sentence {
        words: owned(&["Pi", "!", "3.14", "", "e"]),
        stemmed: owned(&["pi", "!", "3.14", "", "e"]),
        length: 5,
    }];
    let (candidates, _) =
        CandidateSelection::select_candidates(&sentences, 3, &owned(&[]), &default_punctuation());
    let keys: Vec<&str> = candidates.iter().map(|c| c.0.as_str()).collect();
    assert_eq!(keys, vec!["pi", "e"]);
}

#[test]
fn occurrences_record_stop_words_but_no_punctuation() {
    let sentences = vec![
        Sentence { words: owned(&["The", "cat", "!"]), stemmed: owned(&["the", "cat", "!"]), length: 3 },
        Sentence { words: owned(&["Cat", "the"]), stemmed: owned(&["cat", "the"]), length: 2 },
    ];
    let occurrences = OccurrencesBuilder::build_occurrences(&sentences, &default_punctuation());
    let keys: Vec<&str> = occurrences.iter().map(|o| o.0.as_str()).collect();
    assert_eq!(keys, vec!["the", "cat"]);
    let the: Vec<(&str, usize, usize, u128)> = occurrences[0]
        .1
        .iter()
        .map(|o| (o.word.as_str(), o.sentence_index, o.position, o.offset))
        .collect();
    assert_eq!(the, vec![("The", 0, 0, 0), ("the", 1, 1, 4)]);
    let cat: Vec<(&str, usize, usize, u128)> = occurrences[1]
        .1
        .iter()
        .map(|o| (o.word.as_str(), o.sentence_index, o.position, o.offset))
        .collect();
    assert_eq!(cat, vec![("cat", 0, 1, 1), ("Cat", 1, 0, 3)]);
}

#[test]
fn a_wider_window_links_more_words() {
    let sentences = SentencesBuilder::build_sentences("a b c d");
    let contexts = build_left_right_context(&sentences, 2);
    let keys: Vec<&str> = contexts.iter().map(|c| c.0.as_str()).collect();
    assert_eq!(keys, vec!["b", "a", "c", "d"]);
    let c = contexts.iter().find(|e| e.0 == "c").unwrap();
    assert_eq!(c.1 .0, owned(&["a", "b"]));
    assert_eq!(c.1 .1, owned(&["d"]));
    let d = contexts.iter().find(|e| e.0 == "d").unwrap();
    assert_eq!(d.1 .0, owned(&["b", "c"]));
    assert!(d.1 .1.is_empty());
    let none = build_left_right_context(&sentences, 0);
    assert!(none.is_empty());
}

#[test]
fn neighbours_do_not_cross_sentences() {
    let sentences = vec![
        Sentence { words: owned(&["a", "b"]), stemmed: owned(&["a", "b"]), length: 2 },
        Sentence { words: owned(&["c"]), stemmed: owned(&["c"]), length: 1 },
        Sentence { words: owned(&["B", "a"]), stemmed: owned(&["b", "a"]), length: 2 },
    ];
    let (_, contexts) = ContextBuilder::build_context(&sentences, 3, &default_punctuation());
    let keys: Vec<&str> = contexts.iter().map(|c| c.0.as_str()).collect();
    assert_eq!(keys, vec!["b", "a"]);
    assert_eq!(contexts[0].1, (owned(&["a"]), owned(&["a"])));
    assert_eq!(contexts[1].1, (owned(&["B"]), owned(&["b"])));
}

#[test]
fn capitals_are_told_apart() {
    assert!(is_upper("USA"));
    assert!(!is_upper("Usa"));
    assert!(!is_upper("A"));
    assert!(!is_upper(""));
    assert!(is_capitalized("Rust"));
    assert!(is_capitalized("A"));
    assert!(!is_capitalized("rust"));
    assert!(!is_capitalized("USA"));
    assert!(!is_capitalized("McDonald"));
    assert!(!is_capitalized(""));
}

#[test]
fn different_strings_are_counted_once() {
    assert_eq!(count_distinct_strings(&owned(&[])), 0);
    assert_eq!(count_distinct_strings(&owned(&["a", "b", "a", "c", "b", "a"])), 3);
}

#[test]
fn terms_are_counted() {
    let text = "Rust is fast. The RUST book praises Rust. Fast code is fun, and Rust is fast.";
    let sentences = SentencesBuilder::build_sentences(text);
    assert_eq!(sentences.len(), 3);
    let (_, _, occurrences, contexts) =
        CandidateSelectionAndContextBuilder::select_candidates_and_build_context(
            &sentences,
            2,
            1,
            &owned(&["is", "the", "and"]),
            &default_punctuation(),
        );
    let counted = FeatureExtractor::count_words(&occurrences, &contexts);
    let rust = &counted.terms.iter().find(|t| t.0 == "rust").unwrap().1;
    assert_eq!(rust.tf, 4);
    assert_eq!(rust.tf_upper, 1);
    assert_eq!(rust.tf_capitalized, 2);
    assert_eq!(rust.median, (1, 1));
    assert_eq!(rust.sentence_spread, 3);
    assert_eq!(rust.left_total, 3);
    assert_eq!(rust.left_distinct, 3);
    assert_eq!(rust.right_total, 4);
    assert_eq!(rust.right_distinct, 3);
    let fast = &counted.terms.iter().find(|t| t.0 == "fast").unwrap().1;
    assert_eq!(fast.tf, 3);
    assert_eq!(fast.tf_capitalized, 0);
    assert_eq!(fast.median, (2, 2));
    assert_eq!(fast.sentence_spread, 2);
    let is = &counted.terms.iter().find(|t| t.0 == "is").unwrap().1;
    assert_eq!(is.tf, 3);
    assert_eq!(is.median, (2, 2));
    let total: usize = counted.terms.iter().map(|t| t.1.tf).sum();
    assert_eq!(counted.tf_total, total as u128);
    assert_eq!(counted.tf_max, 4);
    let book = &counted.terms.iter().find(|t| t.0 == "book").unwrap().1;
    assert_eq!((book.tf, book.median, book.sentence_spread), (1, (1, 1), 1));
}

#[test]
fn the_median_of_an_even_number_takes_both_middles() {
    let sentences = vec![
        Sentence { words: owned(&["x"]), stemmed: owned(&["x"]), length: 1 },
        Sentence { words: owned(&["y"]), stemmed: owned(&["y"]), length: 1 },
        Sentence { words: owned(&["x"]), stemmed: owned(&["x"]), length: 1 },
        Sentence { words: owned(&["x", "x"]), stemmed: owned(&["x", "x"]), length: 2 },
    ];
    let (occurrences, contexts) = ContextBuilder::build_context(&sentences, 1, &default_punctuation());
    let counted = FeatureExtractor::count_words(&occurrences, &contexts);
    let x = &counted.terms.iter().find(|t| t.0 == "x").unwrap().1;
    assert_eq!(x.tf, 4);
    assert_eq!(x.median, (2, 3));
    assert_eq!(x.sentence_spread, 3);
    assert_eq!((x.left_total, x.left_distinct, x.right_total, x.right_distinct), (1, 1, 1, 1));
    let y = &counted.terms.iter().find(|t| t.0 == "y").unwrap().1;
    assert_eq!((y.left_total, y.right_total), (0, 0));
}

#[test]
fn plans_name_what_a_score_is_made_of() {
    let found = YakeLogic::build_yake(
        "Red fox. Red fox jumps.",
        &owned(&[]),
        &default_punctuation(),
        &default_threshold(),
        2,
        1,
    )
    .unwrap();
    assert_eq!(found.survivors, vec![0, 1, 2, 3, 4]);
    assert_eq!(found.sentences_len, 2);
    let keys: Vec<&str> = found.plans.iter().map(|p| p.key.as_str()).collect();
    assert_eq!(keys, vec!["red", "red fox", "fox", "fox jumps", "jumps"]);
    let terms: Vec<&str> = found.features.terms.iter().map(|t| t.0.as_str()).collect();
    assert_eq!(terms, vec!["red", "fox", "jumps"]);
    assert_eq!(found.plans[0].boost, 1);
    assert_eq!(found.plans[2].boost, 2);
    assert_eq!(found.plans[4].boost, 1);
    assert_eq!(found.plans[1].boost, 1);
    assert_eq!(found.plans[1].tf, 2);
    assert_eq!(found.plans[1].terms, vec![Some(0), Some(1)]);
    assert_eq!(found.plans[3].terms, vec![Some(1), Some(2)]);
    assert_eq!(found.plans[3].tf, 1);
}

#[test]
fn sizes_of_zero_are_turned_down() {
    let p = default_punctuation();
    let t = default_threshold();
    let bad = Threshold { num: 3, den: 2 };
    let fault = |threshold: &Threshold, ngram: usize, window: usize| {
        YakeLogic::build_yake("a b", &owned(&[]), &p, threshold, ngram, window).err()
    };
    assert_eq!(fault(&t, 0, 2), Some(YakeError::ZeroNgram));
    assert_eq!(fault(&bad, 0, 0), Some(YakeError::ZeroNgram));
    assert_eq!(fault(&bad, 1, 0), Some(YakeError::ZeroWindowSize));
    assert_eq!(fault(&bad, 1, 1), Some(YakeError::InvalidThreshold));
    assert_eq!(fault(&Threshold { num: 0, den: 0 }, 1, 1), Some(YakeError::InvalidThreshold));
    assert_eq!(fault(&t, 1, 1), None);
    let stop = owned(&[]);
    assert_eq!(
        YakeLogic::extract(&YakeParams::All("a b", &stop, None, t, 0, 1)).err(),
        Some(YakeError::ZeroNgram)
    );
    let found = YakeLogic::extract(&YakeParams::WithDefaults("Big data, big plans.", &stop)).unwrap();
    let keys: Vec<&str> = found.candidates.iter().map(|c| c.0.as_str()).collect();
    assert_eq!(keys, vec!["big", "big data", "data", "big plans", "plans"]);
    assert_eq!(check_params(&bad, 1, 1), Err(YakeError::InvalidThreshold));
    assert_eq!(check_params(&Threshold { num: 0, den: 2 }, 1, 1), Err(YakeError::InvalidThreshold));
    assert_eq!(check_params(&bad, 0, 0), Err(YakeError::ZeroNgram));
    assert_eq!(check_params(&bad, 1, 0), Err(YakeError::ZeroWindowSize));
    assert_eq!(check_params(&default_threshold(), 3, 2), Ok(()));
    assert!(Yake::new(vec![], vec![], bad).is_err());
    assert!(Threshold::new(0, 1).is_none());
    assert!(Threshold::new(2, 1).is_none());
    assert!(Threshold::new(1, 1).is_some());
    assert!(!YakeError::ZeroNgram.message().is_empty());
    assert!(YakeError::ZeroWindowSize.message().contains("window"));
    assert!(YakeError::InvalidThreshold.message().contains("threshold"));
}

#[test]
fn defaults_are_filled_in() {
    let stop = owned(&["the"]);
    let (text, stop_words, punctuation, threshold, ngram, window) =
        YakeParams::WithDefaults("some text", &stop).get_params();
    assert_eq!(text, "some text");
    assert_eq!(stop_words, &stop);
    assert!(punctuation.is_none());
    assert_eq!((threshold.num, threshold.den), (17, 20));
    assert_eq!((ngram, window), (3, 2));
    let marks = owned(&["."]);
    let all = YakeParams::All("t", &stop, Some(&marks), Threshold { num: 1, den: 2 }, 4, 5);
    let (_, _, punctuation, threshold, ngram, window) = all.get_params();
    assert_eq!(punctuation, Some(&marks));
    assert_eq!((threshold.num, threshold.den, ngram, window), (1, 2, 4, 5));
    let d = default_punctuation();
    assert_eq!(d.len(), 32);
    assert_eq!(d[0], "!");
    assert_eq!(d[31], "~");
    assert!(d.contains(&".".to_string()) && d.contains(&"\\".to_string()));
}

#[test]
fn near_duplicates_are_left_out() {
    let t = Threshold::new(8, 10).unwrap();
    let yake = Yake::new(
        scored(&[("data store", 5), ("keyword", 7), ("data stores", 6)]),
        vec![],
        t,
    )
    .unwrap();
    assert_eq!(yake.get_ranked_keywords(10), owned(&["keyword", "data store"]));
    assert_eq!(
        yake.get_ranked_keyword_scores(10),
        scored(&[("keyword", 7), ("data store", 5)])
    );
    assert_eq!(yake.get_keyword_score("data store"), 5);
    assert_eq!(yake.get_keyword_score("data stores"), 0);
    assert_eq!(yake.get_keyword_scores_map(), &scored(&[("data store", 5), ("keyword", 7)]));
    let other = Yake::new(scored(&[("data stores", 1), ("data store", 6)]), vec![], t).unwrap();
    assert_eq!(other.get_ranked_keywords(10), owned(&["data stores"]));
    let strict = Yake::new(
        scored(&[("data stores", 1), ("data store", 6)]),
        vec![],
        Threshold::new(95, 100).unwrap(),
    )
    .unwrap();
    assert_eq!(strict.get_ranked_keywords(10), owned(&["data store", "data stores"]));
}

#[test]
fn keywords_are_ranked_by_score_then_by_name() {
    let yake = Yake::new(
        scored(&[("pear", 3), ("apple", 3), ("fig", 9), ("kiwi", 1), ("banana", 3)]),
        scored(&[("b", 2), ("a", 2), ("c", 5)]),
        Threshold::new(1, 1).unwrap(),
    )
    .unwrap();
    let all = yake.get_ranked_keyword_scores(100);
    assert_eq!(all, scored(&[("fig", 9), ("apple", 3), ("banana", 3), ("pear", 3), ("kiwi", 1)]));
    for pair in all.windows(2) {
        assert!(pair[0].1 >= pair[1].1);
    }
    assert_eq!(yake.get_ranked_keywords(2), owned(&["fig", "apple"]));
    assert_eq!(yake.get_ranked_keywords(0), owned(&[]));
    assert_eq!(yake.get_ranked_keywords(2), yake.get_ranked_keywords(2));
    assert_eq!(yake.get_ranked_keywords(5), yake.get_ranked_keywords(500));
    assert_eq!(yake.get_ranked_keywords(500).len(), 5);
    assert_eq!(yake.get_ranked_terms(2), owned(&["c", "a"]));
    assert_eq!(yake.get_ranked_term_scores(10), scored(&[("c", 5), ("a", 2), ("b", 2)]));
    assert_eq!(yake.get_keyword_score("pear"), 3);
    assert_eq!(yake.get_keyword_score("plum"), 0);
    assert_eq!(yake.get_word_score("c"), 5);
    assert_eq!(yake.get_word_score("fig"), 0);
    assert_eq!(yake.get_keyword_scores_map().len(), 5);
    assert_eq!(yake.get_term_scores_map(), &scored(&[("b", 2), ("a", 2), ("c", 5)]));
}

#[test]
fn the_same_text_gives_the_same_outcome() {
    let text = "Keyword extraction finds the key words. Key words matter; keyword tools help.";
    let stop = owned(&["the"]);
    let t = default_threshold();
    let a = YakeLogic::build_yake(text, &stop, &default_punctuation(), &t, 3, 2).unwrap();
    let b = YakeLogic::build_yake(text, &stop, &default_punctuation(), &t, 3, 2).unwrap();
    assert_eq!(a.survivors, b.survivors);
    let keys = |e: &keyword_extraction::yake::yake_logic::Extraction| -> Vec<(String, Vec<Vec<String>>)> {
        e.candidates.iter().map(|c| (c.0.clone(), c.1.surface_forms.clone())).collect()
    };
    assert_eq!(keys(&a), keys(&b));
    assert_eq!(a.dedup, b.dedup);
    assert_eq!(a.features.tf_total, b.features.tf_total);
    let plan = |e: &keyword_extraction::yake::yake_logic::Extraction| -> Vec<(String, u128, usize, Vec<Option<usize>>)> {
        e.plans.iter().map(|p| (p.key.clone(), p.boost, p.tf, p.terms.clone())).collect()
    };
    assert_eq!(plan(&a), plan(&b));
}

#[test]
fn later_candidates_give_way_to_similar_earlier_ones() {
    let t = Threshold::new(8, 10).unwrap();
    let keys = owned(&["data store", "keyword", "data stores", "", "keywords", "", "date store"]);
    assert_eq!(surviving(&keys, &t), vec![0, 1, 3]);
    assert_eq!(surviving(&owned(&["", "a", "", "a", "b"]), &Threshold::new(1, 1).unwrap()), vec![0, 1, 4]);
    assert_eq!(surviving(&owned(&[]), &t), Vec::<usize>::new());
    let found = YakeLogic::build_yake(
        "Data stores keep data. A data store keeps more.",
        &owned(&["a"]),
        &default_punctuation(),
        &t,
        2,
        1,
    )
    .unwrap();
    let kept: Vec<&str> = found.plans.iter().map(|p| p.key.as_str()).collect();
    let all: Vec<&str> = found.candidates.iter().map(|c| c.0.as_str()).collect();
    assert_eq!(
        all,
        vec![
            "data", "data stores", "stores", "stores keep", "keep", "keep data", "data store",
            "store", "store keeps", "keeps", "keeps more", "more"
        ]
    );
    assert_eq!(
        kept,
        vec!["data", "data stores", "stores", "stores keep", "keep", "keep data", "keeps more", "more"]
    );
    assert_eq!(found.survivors, vec![0, 1, 2, 3, 4, 5, 10, 11]);
}

#[test]
fn no_keyword_is_held_twice() {
    let yake = Yake::new(
        scored(&[("", 4), ("pear", 1), ("", 9), ("pear", 7), ("fig", 3)]),
        vec![],
        Threshold::new(1, 1).unwrap(),
    )
    .unwrap();
    assert_eq!(yake.get_keyword_scores_map(), &scored(&[("", 4), ("pear", 1), ("fig", 3)]));
    let ranked = yake.get_ranked_keyword_scores(10);
    assert_eq!(ranked, scored(&[("", 4), ("fig", 3), ("pear", 1)]));
    for (word, score) in &ranked {
        assert_eq!(yake.get_keyword_score(word), *score);
    }
    assert_eq!(yake.get_ranked_keywords(10), owned(&["", "fig", "pear"]));
}
