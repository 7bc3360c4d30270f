use keyword_extraction::co_occurrence::{get_window_range, CoOccurrence};
use keyword_extraction::common::tally::{add_amount, get};
use keyword_extraction::rake::rake_logic::RakeLogic;
use keyword_extraction::rake::rake_params::RakeParams;
use keyword_extraction::simplified_yake::candidate_selection::{
    generate_candidates, generate_ngrams, is_similar, remove_similar_candidates,
    CandidateSelection,
};
use keyword_extraction::text_rank::text_rank_logic::TextRankLogic;
use keyword_extraction::tf_idf::tf_idf_logic::TfIdfLogic;
use keyword_extraction::tf_idf::tf_idf_params::{TextSplit, TfIdfParams};
use keyword_extraction::tokenizer::Tokenizer;
use keyword_extraction::yake::levenshtein::Threshold;

fn owned(v: &[&str]) -> Vec<String> {
    v.iter().map(|s| s.to_string()).collect()
}

fn counted(v: &[(&str, u64)]) -> Vec<(String, u64)> {
    v.iter().map(|(s, n)| (s.to_string(), *n)).collect()
}

#[test]
fn tokenizer_cuts_words_sentences_phrases_and_paragraphs() {
    let stop = owned(&["the", "is", "a", "of"]);
    let text = "The Rust book is great. A piece of cake!\n\nThe end, my friend.\n";
    let t = Tokenizer::new(text, &stop, None);
    assert_eq!(
        t.split_into_words(),
        owned(&["rust", "book", "great", "piece", "cake", "end", "my", "friend"])
    );
    assert_eq!(t.sync_split_into_words(), t.split_into_words());
    assert_eq!(
        t.split_into_sentences(),
        owned(&["rust book great", "piece cake", "end my friend"])
    );
    assert_eq!(t.sync_split_into_sentences(), t.split_into_sentences());
    assert_eq!(
        t.split_into_phrases(None),
        owned(&["rust book", "great", "piece", "cake", "end my friend"])
    );
    assert_eq!(
        t.split_into_phrases(Some(2)),
        owned(&["rust book", "great", "piece", "cake", "end my", "friend"])
    );
    assert_eq!(t.sync_split_into_phrases(Some(2)), t.split_into_phrases(Some(2)));
    assert_eq!(
        t.split_into_paragraphs(),
        owned(&["rust book great piece cake", "end my friend"])
    );
    assert_eq!(t.sync_split_into_paragraphs(), t.split_into_paragraphs());
    let marks = owned(&["!"]);
    let u = Tokenizer::new("Stop! Go.", &stop, Some(&marks));
    assert_eq!(u.split_into_words(), owned(&["stop", "go"]));
}

#[test]
fn sums_are_kept_under_words() {
    let mut t: Vec<(String, u64)> = Vec::new();
    add_amount(&mut t, "b", 2);
    add_amount(&mut t, "a", 1);
    add_amount(&mut t, "b", 3);
    add_amount(&mut t, "c", u64::MAX);
    add_amount(&mut t, "c", 5);
    assert_eq!(t, counted(&[("b", 5), ("a", 1), ("c", u64::MAX)]));
    assert_eq!(get(&t, "b"), 5);
    assert_eq!(get(&t, "z"), 0);
}

#[test]
fn rake_counts_frequency_and_degree() {
    let stop = owned(&["is", "and", "the"]);
    let counts = RakeLogic::build_rake("Deep learning is fun and deep work is the deep end", &stop, None, None);
    assert_eq!(
        counts.phrases,
        vec![owned(&["deep", "learning"]), owned(&["fun"]), owned(&["deep", "work"]), owned(&["deep", "end"])]
    );
    assert_eq!(
        counts.word_frequency,
        counted(&[("deep", 3), ("learning", 1), ("fun", 1), ("work", 1), ("end", 1)])
    );
    assert_eq!(
        counts.word_degree,
        counted(&[("deep", 3), ("learning", 1), ("fun", 0), ("work", 1), ("end", 1)])
    );
    let limited = RakeLogic::split_into_phrases("one two three four five", &stop, None, Some(2));
    assert_eq!(limited, vec![owned(&["one", "two"]), owned(&["three", "four"]), owned(&["five"])]);
    assert_eq!(RakeLogic::generate_word_degree(&vec![vec![], owned(&["a", "a", "b"])]), counted(&[("a", 4), ("b", 2)]));
}

#[test]
fn rake_params_are_filled_in() {
    let stop = owned(&["the"]);
    let marks = owned(&["."]);
    let (text, stop_words, punctuation, length) = RakeParams::WithDefaults("t", &stop).get_rake_params();
    assert_eq!((text, stop_words, punctuation, length), ("t", &stop, None, None));
    let (_, _, punctuation, length) =
        RakeParams::WithDefaultsAndPhraseLength("t", &stop, Some(3)).get_rake_params();
    assert_eq!((punctuation, length), (None, Some(3)));
    let (_, _, punctuation, length) = RakeParams::All("t", &stop, Some(&marks), Some(2)).get_rake_params();
    assert_eq!((punctuation, length), (Some(&marks), Some(2)));
}

#[test]
fn tf_idf_counts_words_and_documents() {
    let docs = owned(&["a b a", "b c", "", "a  a"]);
    let counts = TfIdfLogic::build_tfidf(&docs);
    assert_eq!(counts.documents_len, 4);
    assert_eq!(counts.word_counts, counted(&[("a", 4), ("b", 2), ("c", 1)]));
    assert_eq!(counts.document_counts, counted(&[("a", 2), ("b", 2), ("c", 1)]));
}

#[test]
fn tf_idf_params_give_documents() {
    let stop = owned(&["the"]);
    let docs = owned(&["The Cat.", "the dog"]);
    assert_eq!(TfIdfParams::ProcessedDocuments(&docs).get_documents(), docs);
    assert_eq!(
        TfIdfParams::UnprocessedDocuments(&docs, &stop, None).get_documents(),
        owned(&["cat", "dog"])
    );
    let text = "The cat sat. The dog ran.\nThe end.";
    assert_eq!(
        TfIdfParams::TextBlock(text, &stop, None, TextSplit::Sentences).get_documents(),
        owned(&["cat sat", "dog ran", "end"])
    );
    assert_eq!(
        TfIdfParams::TextBlock(text, &stop, None, TextSplit::Paragraphs).get_documents(),
        owned(&["cat sat dog ran", "end"])
    );
    assert_eq!(
        TfIdfParams::TextBlock(text, &stop, None, TextSplit::Phrases).get_documents(),
        owned(&["cat sat", "dog ran", "end"])
    );
}

#[test]
fn text_rank_graph_counts_edges() {
    let words = owned(&["a", "b", "a", "c", "c", "b"]);
    let graph = TextRankLogic::create_graph(&words, 2);
    let nodes: Vec<&str> = graph.iter().map(|n| n.0.as_str()).collect();
    assert_eq!(nodes, vec!["a", "b", "c"]);
    assert_eq!(graph[0].1, counted(&[("b", 2), ("c", 2)]));
    assert_eq!(graph[1].1, counted(&[("a", 2), ("c", 3)]));
    assert_eq!(graph[2].1, counted(&[("b", 3), ("a", 2)]));
    assert!(TextRankLogic::create_graph(&words, 0).is_empty());
    assert!(TextRankLogic::create_graph(&owned(&["a", "a"]), 3).is_empty());
    let mut g = Vec::new();
    TextRankLogic::add_edge(&mut g, "x", "y");
    TextRankLogic::add_edge(&mut g, "x", "y");
    assert_eq!(g, vec![("x".to_string(), counted(&[("y", 2)]))]);
}

#[test]
fn co_occurrence_labels_words_by_their_last_place() {
    let docs = owned(&["a b c a", "c b"]);
    let words = owned(&["a", "b", "a"]);
    let co = CoOccurrence::new(&docs, &words, 1);
    assert_eq!(co.get_label("a"), Some(2));
    assert_eq!(co.get_label("b"), Some(1));
    assert_eq!(co.get_label("c"), None);
    assert_eq!(co.get_word(2), Some("a".to_string()));
    assert_eq!(co.get_word(0), None);
    assert_eq!(co.get_word(3), None);
    assert_eq!(co.get_labels(), &words);
    assert_eq!(co.get_matrix(), &vec![vec![0, 0, 0], vec![0, 0, 1], vec![0, 1, 0]]);
    assert_eq!(co.get_max(), 1);
    assert_eq!(co.get_matrix_row("a"), Some(vec![0, 1, 0]));
    assert_eq!(co.get_matrix_row("z"), None);
    assert_eq!(co.get_relation("a", "b"), Some(1));
    assert_eq!(co.get_relation("b", "b"), Some(0));
    assert_eq!(co.get_relation("a", "z"), None);
    assert_eq!(co.get_relations("a"), Some(vec![("b".to_string(), 1)]));
    assert_eq!(co.get_relations("z"), None);
    let wide = CoOccurrence::new(&docs, &owned(&["a", "b", "c"]), 3);
    assert_eq!(wide.get_matrix(), &vec![vec![2, 2, 2], vec![2, 0, 2], vec![2, 2, 0]]);
    assert_eq!(wide.get_max(), 2);
    let none = CoOccurrence::new(&docs, &owned(&["a", "b"]), 0);
    assert_eq!(none.get_max(), 0);
    assert_eq!(get_window_range(2, 5, 10), (3, 8));
    assert_eq!(get_window_range(2, 1, 10), (0, 4));
    assert_eq!(get_window_range(2, 9, 10), (7, 10));
    assert_eq!(get_window_range(0, 4, 10), (4, 5));
    assert_eq!(get_window_range(usize::MAX, 4, 10), (0, 10));
    assert_eq!(get_window_range(2, 12, 10), (10, 10));
    assert_eq!(get_window_range(2, 0, 0), (0, 0));
}

#[test]
fn simple_candidates_are_runs_of_words() {
    let phrases = owned(&["deep learning rocks", "fun", ""]);
    assert_eq!(generate_ngrams(&phrases, 1), owned(&["deep", "learning", "rocks", "fun", ""]));
    assert_eq!(
        generate_ngrams(&phrases, 2),
        owned(&["deep learning", "learning rocks", "fun", ""])
    );
    assert_eq!(generate_ngrams(&phrases, 4), owned(&["deep learning rocks", "fun", ""]));
    assert_eq!(
        generate_candidates(&phrases, 2),
        owned(&["deep", "learning", "rocks", "fun", "", "deep learning", "learning rocks", "fun", ""])
    );
    assert!(generate_candidates(&phrases, 0).is_empty());
    let t = Threshold::new(8, 10).unwrap();
    assert!(is_similar("data stores", &owned(&["x", "data store"]), &t));
    assert!(!is_similar("data stores", &owned(&["x", "y"]), &t));
    let exact = Threshold::new(1, 1).unwrap();
    assert!(!is_similar("same", &owned(&["same"]), &exact));
    assert_eq!(
        remove_similar_candidates(owned(&["data store", "keyword", "data stores", "keywords"]), &t),
        owned(&["data store", "keyword"])
    );
    let selection = CandidateSelection::new(&owned(&["data store", "data stores"]), 2, t);
    assert_eq!(selection.get_candidates(), &owned(&["data", "store", "data store"]));
}
