use keyword_extraction::co_occurrence::CoOccurrence;
use keyword_extraction::tokenizer::Tokenizer;
use std::collections::HashSet;
use stop_words::{get, LANGUAGE};

const TEXT: &str = r#"
Title: Junior Rust Developer

Job Description:

We are seeking a talented and motivated Junior Rust Developer to join our growing team. The ideal candidate will have a passion for programming, a strong foundation in Rust, and a desire to learn and grow in a dynamic work environment.

Responsibilities:

Assist in the development and maintenance of our core Rust applications
Write clean, efficient, and well-documented code
Collaborate with the development team to design and implement new features
Actively participate in code reviews and provide constructive feedback
Continuously learn and stay up-to-date with the latest Rust ecosystem trends and technologies

Requirements:

Bachelor's degree in Computer Science or related field, or equivalent experience
Proficiency in Rust programming language
Familiarity with version control systems, preferably Git
Strong problem-solving and debugging skills
Excellent written and verbal communication skills
Ability to work well in a team-oriented environment

Nice-to-Haves:

Experience with other programming languages, such as Python, JavaScript, or C++
Knowledge of database systems, like PostgreSQL or MongoDB
Familiarity with web development frameworks, such as Actix or Rocket

What We Offer:

Competitive salary and benefits package
Opportunity for growth and career advancement
Supportive and collaborative work environment
Chance to work on cutting-edge projects using Rust

If you are passionate about Rust development and looking to kickstart your career in a supportive and dynamic environment, we encourage you to apply!
"#;

fn get_cs_hashset() -> HashSet<String> {
    HashSet::from_iter(vec!["c", "computer"].iter().map(|s| s.to_string()))
}

fn get_stop_words() -> Vec<String> {
    let cs_hashset = get_cs_hashset();
    get(LANGUAGE::English)
        .iter()
        .filter_map(|w| {
            let word = w.replace("\"", "");
            if !cs_hashset.contains(&word) {
                Some(word)
            } else {
                None
            }
        })
        .collect()
}

fn relative(co_occurrence: &CoOccurrence, word: &str) -> Vec<f32> {
    let max = co_occurrence.get_max() as f32;
    co_occurrence.get_matrix_row(word).unwrap().iter().map(|count| *count as f32 / max).collect()
}

#[test]
fn test_co_occurrence() {
    let documents =
        Tokenizer::new(TEXT, &get_stop_words(), None).split_into_paragraphs();
    let word_vec = vec![
        "rust",
        "development",
        "environment",
        "work",
        "programming",
        "team",
        "career",
        "code",
        "developer",
        "dynamic",
    ]
    .iter()
    .map(|x| x.to_string())
    .collect::<Vec<String>>();
    let co_occurrence = CoOccurrence::new(&documents, &word_vec, 10);
    assert_eq!(
        relative(&co_occurrence, "rust"),
        [0.6666667, 0.6666667, 0.6666667, 0.0, 1.0, 0.6666667, 0.33333334, 0.0, 1.0, 0.6666667]
    );
    assert_eq!(
        relative(&co_occurrence, "development"),
        [0.6666667, 0.0, 0.33333334, 0.0, 0.0, 0.33333334, 0.33333334, 0.0, 0.0, 0.33333334]
    );
    assert_eq!(
        relative(&co_occurrence, "developer"),
        [1.0, 0.0, 0.0, 0.0, 0.33333334, 0.33333334, 0.0, 0.0, 0.0, 0.0]
    );
    assert_eq!(
        relative(&co_occurrence, "dynamic"),
        [0.6666667, 0.33333334, 0.6666667, 0.0, 0.33333334, 0.0, 0.33333334, 0.0, 0.0, 0.0]
    );
}

