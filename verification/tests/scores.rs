use keyword_extraction::common::default_punctuation;
use keyword_extraction::common::ranking::get_ranked_strings;
use keyword_extraction::common::tally;
use keyword_extraction::rake::rake_logic::RakeLogic;
use keyword_extraction::rake::rake_params::RakeParams;
use keyword_extraction::text_rank::text_rank_logic::TextRankLogic;
use keyword_extraction::tf_idf::tf_idf_logic::TfIdfLogic;
use keyword_extraction::tf_idf::tf_idf_params::{TextSplit, TfIdfParams};
use keyword_extraction::tokenizer::Tokenizer;
use keyword_extraction::yake::yake_logic::YakeLogic;
use keyword_extraction::yake::yake_params::YakeParams;
use std::collections::HashMap;
use std::collections::HashSet;
use stop_words::{get, LANGUAGE};

const TEXT: &str = r#"
Title: Junior Rust Developer

Job Description:

We are seeking a talented and motivated Junior Rust Developer to join our growing team. The ideal candidate will have a passion for programming, a strong foundation in Rust, and a desire to learn and grow in a dynamic work environment.

Responsibilities:

Assist in the development and maintenance of our core Rust applications
Write clean, efficient, and well-documented code
Collaborate with the development team to design and implement new features
Actively participate in code reviews and provide constructive feedback
Continuously learn and stay up-to-date with the latest Rust ecosystem trends and technologies

Requirements:

Bachelor's degree in Computer Science or related field, or equivalent experience
Proficiency in Rust programming language
Familiarity with version control systems, preferably Git
Strong problem-solving and debugging skills
Excellent written and verbal communication skills
Ability to work well in a team-oriented environment

Nice-to-Haves:

Experience with other programming languages, such as Python, JavaScript, or C++
Knowledge of database systems, like PostgreSQL or MongoDB
Familiarity with web development frameworks, such as Actix or Rocket

What We Offer:

Competitive salary and benefits package
Opportunity for growth and career advancement
Supportive and collaborative work environment
Chance to work on cutting-edge projects using Rust

If you are passionate about Rust development and looking to kickstart your career in a supportive and dynamic environment, we encourage you to apply!
"#;

fn get_cs_hashset() -> HashSet<String> {
    HashSet::from_iter(vec!["c", "computer"].iter().map(|s| s.to_string()))
}

fn get_stop_words() -> Vec<String> {
    let cs_hashset = get_cs_hashset();
    get(LANGUAGE::English)
        .iter()
        .filter_map(|w| {
            let word = w.replace("\"", "");
            if !cs_hashset.contains(&word) {
                Some(word)
            } else {
                None
            }
        })
        .collect()
}

fn is_percent_in_hashset(vector: &[String], hashset: &HashSet<String>, percent: f64) -> bool {
    let mut count = 0;

    for item in vector {
        if hashset.contains(item) {
            count += 1;
        }
    }

    let percentage = (count as f64 / vector.len() as f64) * 100.0;
    percentage >= percent
}

fn to_key(score: f32) -> u64 {
    if score.is_nan() {
        return 0;
    }
    let bits = score.to_bits();
    let ordered = if bits & 0x8000_0000 != 0 { !bits } else { bits | 0x8000_0000 };
    u64::from(ordered)
}

fn entries(map: &HashMap<String, f32>) -> Vec<(String, u64)> {
    map.iter().map(|(w, s)| (w.clone(), to_key(*s))).collect()
}

struct Rake {
    phrase_scores: HashMap<String, f32>,
}

impl Rake {
    fn new(params: RakeParams) -> Self {
        let (text, stop_words, punctuation, phrase_length) = params.get_rake_params();
        let counts = RakeLogic::build_rake(text, stop_words, punctuation, phrase_length);
        let word_scores: HashMap<String, f32> = counts
            .word_frequency
            .iter()
            .map(|(word, frequency)| {
                let degree = tally::get(&counts.word_degree, word) as f32;
                (word.clone(), degree / *frequency as f32)
            })
            .collect();
        let phrase_scores = counts
            .phrases
            .iter()
            .map(|phrase| {
                let score = phrase.iter().map(|w| word_scores.get(w).unwrap_or(&0.0)).sum::<f32>();
                (phrase.join(" "), score / phrase.len() as f32)
            })
            .collect();
        Self { phrase_scores }
    }

    fn get_ranked_phrases(&self, n: usize) -> Vec<String> {
        get_ranked_strings(&entries(&self.phrase_scores), n)
    }
}

struct TfIdf(HashMap<String, f32>);

impl TfIdf {
    fn new(params: TfIdfParams) -> Self {
        let documents = params.get_documents();
        let counts = TfIdfLogic::build_tfidf(&documents);
        let total_words = counts.word_counts.iter().map(|(_, c)| *c as f32).sum::<f32>();
        let docs_len = counts.documents_len as f32;
        let tf_idf: Vec<(&String, f32)> = counts
            .word_counts
            .iter()
            .map(|(word, count)| {
                let tf = *count as f32 / total_words;
                let documents_with_term =
                    (docs_len + 1.0) / (tally::get(&counts.document_counts, word) as f32 + 1.0);
                (word, tf * (documents_with_term.ln() + 1.0))
            })
            .collect();
        let l2_norm = tf_idf.iter().map(|(_, v)| v * v).sum::<f32>().sqrt();
        Self(tf_idf.into_iter().map(|(w, v)| (w.clone(), v / l2_norm)).collect())
    }

    fn get_ranked_words(&self, n: usize) -> Vec<String> {
        get_ranked_strings(&entries(&self.0), n)
    }
}

struct TextRank {
    word_rank: HashMap<String, f32>,
    phrase_rank: HashMap<String, f32>,
}

impl TextRank {
    fn new(text: &str, stop_words: &Vec<String>, phrase_length: Option<usize>) -> Self {
        let tokenizer = Tokenizer::new(text, stop_words, None);
        let words = tokenizer.sync_split_into_words();
        let phrases = tokenizer.sync_split_into_phrases(phrase_length);
        let graph = TextRankLogic::create_graph(&words, 2);
        let damping = 0.85_f32;
        let tol = 0.00005_f32;
        let node_indexes: HashMap<&str, usize> =
            graph.iter().enumerate().map(|(i, (node, _))| (node.as_str(), i)).collect();
        let outgoing: Vec<f32> =
            graph.iter().map(|(_, edges)| edges.iter().map(|(_, w)| *w as f32).sum()).collect();
        let mut scores = vec![1.0_f32; graph.len()];
        loop {
            let prev = scores.clone();
            scores = graph
                .iter()
                .map(|(_, edges)| {
                    let new_score = edges
                        .iter()
                        .map(|(neighbor, weight)| {
                            let at = node_indexes[neighbor.as_str()];
                            *weight as f32 / outgoing[at] * prev[at]
                        })
                        .sum::<f32>();
                    (1.0 - damping) + damping * new_score
                })
                .collect();
            if scores.iter().zip(prev.iter()).all(|(s, p)| (s - p).abs() < tol) {
                break;
            }
        }
        let word_rank: HashMap<String, f32> =
            graph.iter().zip(scores).map(|((node, _), score)| (node.clone(), score)).collect();
        let phrase_rank = phrases
            .iter()
            .map(|phrase| {
                let ws = phrase.split_whitespace().collect::<Vec<&str>>();
                let score = ws.iter().filter_map(|w| word_rank.get(*w)).sum::<f32>();
                (phrase.to_string(), score / ws.len() as f32)
            })
            .collect();
        Self { word_rank, phrase_rank }
    }

    fn get_ranked_words(&self, n: usize) -> Vec<String> {
        get_ranked_strings(&entries(&self.word_rank), n)
    }

    fn get_ranked_phrases(&self, n: usize) -> Vec<String> {
        get_ranked_strings(&entries(&self.phrase_rank), n)
    }
}

struct Yake {
    keyword_rank: HashMap<String, f32>,
    ranking: keyword_extraction::yake::Yake,
}

impl Yake {
    fn new(params: YakeParams) -> Self {
        let (text, stop_words, punctuation, threshold, ngram, window_size) = params.get_params();
        let punctuation = match punctuation {
            Some(p) => p.clone(),
            None => default_punctuation(),
        };
        let found =
            YakeLogic::build_yake(text, stop_words, &punctuation, &threshold, ngram, window_size)
                .unwrap();
        let sentences_len = found.sentences_len as f32;
        let counts = &found.features;
        let terms = counts.terms.len() as f32;
        let tf_max = counts.tf_max as f32;
        let tf_mean = counts.tf_total as f32 / (terms + f32::EPSILON);
        let tf_std = (counts
            .terms
            .iter()
            .fold(0.0_f32, |a, (_, c)| a + (c.tf as f32 - tf_mean).powi(2))
            / (terms + f32::EPSILON))
            .sqrt();
        let weights: Vec<f32> = counts
            .terms
            .iter()
            .map(|(_, c)| {
                let tf = c.tf as f32;
                let casing = (c.tf_upper as f32).max(c.tf_capitalized as f32) / (1.0 + tf.ln());
                let frequency = tf / (tf_mean + tf_std + f32::EPSILON);
                let median = (c.median.0 as f32 + c.median.1 as f32) / 2.0;
                let position = (3.0 + median).ln().ln();
                let wl = if c.left_total > 0 {
                    c.left_distinct as f32 / (c.left_total as f32 + f32::EPSILON)
                } else {
                    0.0
                };
                let wr = if c.right_total > 0 {
                    c.right_distinct as f32 / (c.right_total as f32 + f32::EPSILON)
                } else {
                    0.0
                };
                let relatedness = 1.0 + (wl + wr) * (tf / tf_max);
                let dispersion = c.sentence_spread as f32 / (sentences_len + f32::EPSILON);
                (relatedness * position)
                    / (casing + frequency / relatedness + dispersion / relatedness)
            })
            .collect();
        let raw: Vec<(String, f32)> = found
            .plans
            .iter()
            .map(|plan| {
                let (prod, sum) =
                    plan.terms.iter().fold((plan.boost as f32, 0.0_f32), |acc, at| {
                        let w = at.and_then(|i| weights.get(i).copied()).unwrap_or(0.0);
                        (acc.0 * w, acc.1 + w)
                    });
                let sum = if sum == -1.0 { 1.0 - f32::EPSILON } else { sum };
                (plan.key.clone(), prod / (plan.tf as f32 * (1.0 + sum)))
            })
            .collect();
        let max = raw.iter().fold(f32::EPSILON, |m, (_, v)| m.max(*v));
        let scored: Vec<(String, f32)> =
            raw.into_iter().map(|(k, v)| (k, 1.0 - v / max)).collect();
        let keys = scored.iter().map(|(k, v)| (k.clone(), to_key(*v))).collect();
        let ranking = keyword_extraction::yake::Yake::new(keys, vec![], threshold).unwrap();
        Self { keyword_rank: scored.into_iter().collect(), ranking }
    }

    fn get_ranked_keywords(&self, n: usize) -> Vec<String> {
        self.ranking.get_ranked_keywords(n)
    }

    fn get_ranked_keyword_scores(&self, n: usize) -> Vec<(String, f32)> {
        self.ranking
            .get_ranked_keywords(n)
            .into_iter()
            .map(|w| {
                let score = *self.keyword_rank.get(&w).unwrap_or(&0.0);
                (w, score)
            })
            .collect()
    }
}

#[test]
fn test_tf_idf() {
    let tf_idf = TfIdf::new(TfIdfParams::TextBlock(
        TEXT,
        &get_stop_words(),
        None,
        TextSplit::Paragraphs,
    ));
    let words_result = tf_idf.get_ranked_words(100);
    let expected_words = vec![
        "rust",
        "development",
        "environment",
        "work",
        "programming",
        "team",
        "career",
        "code",
        "developer",
        "dynamic",
        "experience",
        "familiarity",
        "junior",
        "learn",
        "skills",
        "strong",
        "supportive",
        "systems",
        "to",
        "well",
        "ability",
        "actively",
        "actix",
        "advancement",
        "applications",
        "apply",
        "assist",
        "bachelor",
        "benefits",
        "candidate",
        "chance",
        "clean",
        "collaborate",
        "collaborative",
        "communication",
        "competitive",
        "computer",
        "constructive",
        "continuously",
        "control",
        "core",
        "cutting",
        "database",
        "date",
        "debugging",
        "degree",
        "description",
        "design",
        "desire",
        "documented",
        "ecosystem",
        "edge",
        "efficient",
        "encourage",
        "equivalent",
        "excellent",
        "features",
        "feedback",
        "field",
        "foundation",
        "frameworks",
        "git",
        "grow",
        "growing",
        "growth",
        "haves",
        "ideal",
        "implement",
        "javascript",
        "job",
        "join",
        "kickstart",
        "knowledge",
        "language",
        "languages",
        "latest",
        "like",
        "looking",
        "maintenance",
        "mongodb",
        "motivated",
        "new",
        "nice",
        "offer",
        "opportunity",
        "oriented",
        "package",
        "participate",
        "passion",
        "passionate",
        "postgresql",
        "preferably",
        "problem",
        "proficiency",
        "projects",
        "provide",
        "python",
        "related",
        "requirements",
        "responsibilities",
    ]
    .iter()
    .map(|x| x.to_string())
    .collect::<HashSet<String>>();
    assert!(is_percent_in_hashset(&words_result, &expected_words, 85.0));
}

#[test]
fn test_rake() {
    let rake_result = [
        "core rust applications write clean efficient",
        "version control systems preferably git strong",
        "title junior rust developer job description",
        "provide constructive feedback continuously learn",
        "motivated junior rust developer",
        "debugging skills excellent written",
        "technologies requirements bachelor degree",
        "verbal communication skills ability",
        "team oriented environment nice",
        "rust programming language familiarity",
    ];
    let rake_struct = Rake::new(RakeParams::WithDefaults(TEXT, &get_stop_words()));
    assert!(is_percent_in_hashset(
        &rake_struct.get_ranked_phrases(10),
        &rake_result
            .iter()
            .map(|x| x.to_string())
            .collect::<HashSet<String>>(),
        90.0
    ));

    let limited_rake_struct = Rake::new(RakeParams::WithDefaultsAndPhraseLength(
        TEXT,
        &get_stop_words(),
        Some(3),
    ));
    for phrase in limited_rake_struct.get_ranked_phrases(10) {
        assert!(phrase.split_whitespace().count() <= 3);
    }
}

#[test]
fn test_text_rank() {
    let expected_words = [
        "rust",
        "environment",
        "development",
        "team",
        "programming",
        "code",
        "systems",
        "skills",
        "experience",
        "familiarity",
    ];
    let text_rank = TextRank::new(TEXT, &get_stop_words(), None);
    assert!(is_percent_in_hashset(
        &text_rank.get_ranked_words(10),
        &expected_words
            .iter()
            .map(|x| x.to_string())
            .collect::<HashSet<String>>(),
        90.0
    ));
    assert!(is_percent_in_hashset(
        &text_rank
            .get_ranked_phrases(5)
            .iter()
            .flat_map(|phrases| phrases.split_whitespace().map(|w| w.to_string()))
            .collect::<Vec<String>>(),
        &text_rank
            .get_ranked_words(10)
            .iter()
            .map(|x| x.to_string())
            .collect::<HashSet<String>>(),
        90.0
    ));

    let limited_text_rank = TextRank::new(TEXT, &get_stop_words(), Some(3));
    for phrase in limited_text_rank.get_ranked_phrases(10) {
        assert!(phrase.split_whitespace().count() <= 3);
    }
}

#[test]
fn test_yake() {
    let yake = Yake::new(YakeParams::WithDefaults(TEXT, &get_stop_words()));
    let yake_result = [
        "motivated junior rust",
        "motivated junior",
        "job description",
        "developer job description",
        "rust developer",
        "developer job",
        "junior rust developer",
        "rust developer job",
        "junior rust",
        "rust programming language",
    ];
    println!("{:?}", yake.get_ranked_keyword_scores(20));
    assert!(is_percent_in_hashset(
        &yake.get_ranked_keywords(10),
        &yake_result
            .iter()
            .map(|x| x.to_string())
            .collect::<HashSet<String>>(),
        90.0
    ));
}

