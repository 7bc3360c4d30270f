use keyword_extraction::common::number::is_number;
use keyword_extraction::common::text::trim;
use keyword_extraction::yake::candidate_selection::CandidateSelection;
use keyword_extraction::yake::context_builder::ContextBuilder;
use keyword_extraction::yake::levenshtein::{calculate_distance, is_similar, Levenshtein, Threshold};
use keyword_extraction::yake::sentences_builder::SentencesBuilder;

fn strings(v: &[&str]) -> Vec<String> {
    v.iter().map(|s| s.to_string()).collect()
}

#[test]
fn trim_matches_std() {
    for s in ["", " ", "  a b \n", "\u{a0}x\u{3000}", "abc", "\t\r\n"] {
        assert_eq!(trim(s), s.trim());
    }
}

#[test]
fn number_matches_std() {
    for s in [
        "", "1", "1.", ".1", ".", "+", "-1e5", "1e", "1e+", "1e+3", "inf", "INF", "Infinity",
        "-nan", "nAn", "infinit", "1.5.2", "e5", "0x10", "1_000", " 1", "1 ", "12abc", "+.5E-3",
        "٣", "1e5.0", "--1", "+-1", "infinityy", "na", "1.e5", ".5e1", "5.", "-.5", "1e-", "1E+5",
        "∞", "+", "-", "+inf", "-Infinity", "1..2", "1e5e5", "0", "00.00", ".e1", "e", "1f",
    ] {
        assert_eq!(is_number(s), s.parse::<f32>().is_ok(), "{:?}", s);
    }
}

#[test]
fn distance_of_known_pairs() {
    assert_eq!(calculate_distance("kitten", "sitting"), 3);
    assert_eq!(calculate_distance("", "abc"), 3);
    assert_eq!(calculate_distance("abc", ""), 3);
    assert_eq!(calculate_distance("", ""), 0);
    assert_eq!(calculate_distance("same", "same"), 0);
    assert_eq!(Levenshtein::new("flaw", "lawn").distance(), 2);
}

#[test]
fn near_duplicates_are_similar() {
    let t = Threshold::new(8, 10).unwrap();
    assert!(is_similar("data store", "data stores", &t));
    assert!(!is_similar("data store", "keyword", &t));
    assert!(!is_similar("", "", &t));
    let r = Levenshtein::new("data store", "data stores").ratio();
    assert_eq!((r.same, r.of), (10, 11));
}

#[test]
fn stop_words_give_no_candidates() {
    let sentences = SentencesBuilder::build_sentences("alpha the beta the gamma");
    let (candidates, dedup) = CandidateSelection::select_candidates(
        &sentences,
        1,
        &strings(&["the"]),
        &strings(&[".", ","]),
    );
    let keys: Vec<&str> = candidates.iter().map(|c| c.0.as_str()).collect();
    assert_eq!(keys, vec!["alpha", "beta", "gamma"]);
    assert!(dedup.is_empty());
}

#[test]
fn window_of_one_links_neighbours() {
    let sentences = SentencesBuilder::build_sentences("a b c d");
    assert_eq!(sentences.len(), 1);
    assert_eq!(sentences[0].words, strings(&["a", "b", "c", "d"]));
    let (_, contexts) = ContextBuilder::build_context(&sentences, 1, &strings(&["."]));
    let b = contexts.iter().find(|e| e.0 == "b").unwrap();
    assert_eq!(b.1 .0, strings(&["a"]));
    assert_eq!(b.1 .1, strings(&["c"]));
    let a = contexts.iter().find(|e| e.0 == "a").unwrap();
    assert!(a.1 .0.is_empty());
    assert_eq!(a.1 .1, strings(&["b"]));
}
