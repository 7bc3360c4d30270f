use keyword_extraction::tokenizer::Tokenizer;
use std::collections::HashSet;
use stop_words::{get, LANGUAGE};

const TEXT: &str = r#"
Title: Junior Rust Developer

Job Description:

We are seeking a talented and motivated Junior Rust Developer to join our growing team. The ideal candidate will have a passion for programming, a strong foundation in Rust, and a desire to learn and grow in a dynamic work environment.

Responsibilities:

Assist in the development and maintenance of our core Rust applications
Write clean, efficient, and well-documented code
Collaborate with the development team to design and implement new features
Actively participate in code reviews and provide constructive feedback
Continuously learn and stay up-to-date with the latest Rust ecosystem trends and technologies

Requirements:

Bachelor's degree in Computer Science or related field, or equivalent experience
Proficiency in Rust programming language
Familiarity with version control systems, preferably Git
Strong problem-solving and debugging skills
Excellent written and verbal communication skills
Ability to work well in a team-oriented environment

Nice-to-Haves:

Experience with other programming languages, such as Python, JavaScript, or C++
Knowledge of database systems, like PostgreSQL or MongoDB
Familiarity with web development frameworks, such as Actix or Rocket

What We Offer:

Competitive salary and benefits package
Opportunity for growth and career advancement
Supportive and collaborative work environment
Chance to work on cutting-edge projects using Rust

If you are passionate about Rust development and looking to kickstart your career in a supportive and dynamic environment, we encourage you to apply!
"#;

fn get_cs_hashset() -> HashSet<String> {
    HashSet::from_iter(vec!["c", "computer"].iter().map(|s| s.to_string()))
}

fn get_stop_words() -> Vec<String> {
    let cs_hashset = get_cs_hashset();
    get(LANGUAGE::English)
        .iter()
        .filter_map(|w| {
            let word = w.replace("\"", "");
            if !cs_hashset.contains(&word) {
                Some(word)
            } else {
                None
            }
        })
        .collect()
}

fn is_percent_in_hashset(vector: &[String], hashset: &HashSet<String>, percent: f64) -> bool {
    let mut count = 0;

    for item in vector {
        if hashset.contains(item) {
            count += 1;
        }
    }

    let percentage = (count as f64 / vector.len() as f64) * 100.0;
    percentage >= percent
}

#[test]
fn test_tokenize() {
    let tokenizer = Tokenizer::new(TEXT, &get_stop_words(), None);
    let sentence_tokens = tokenizer.split_into_sentences();
    let expected_sentences = vec![
        "title junior rust developer",
        "job description",
        "seeking talented motivated junior rust developer growing team",
        "ideal candidate passion programming strong foundation rust desire learn grow dynamic environment",
        "responsibilities",
        "assist development maintenance core rust applications",
        "write clean efficient documented code",
        "collaborate development team design implement features",
        "actively participate code reviews provide constructive feedback",
        "continuously learn stay rust ecosystem trends technologies",
        "requirements",
        "bachelor degree computer science field equivalent experience",
        "proficiency rust programming language",
        "familiarity version control systems preferably git",
        "strong solving debugging skills",
        "excellent written verbal communication skills",
        "ability team oriented environment",
        "nice haves",
        "experience programming languages python javascript c",
        "knowledge database systems postgresql mongodb",
        "familiarity development frameworks actix rocket",
        "offer",
        "competitive salary benefits package",
        "opportunity growth career advancement",
        "supportive collaborative environment",
        "chance cutting edge projects rust",
        "passionate rust development kickstart career supportive dynamic environment encourage apply",
    ].iter().map(|s| s.to_string()).collect::<HashSet<String>>();

    let word_tokens = tokenizer.split_into_words();
    let expected_words = vec![
        "title",
        "junior",
        "rust",
        "developer",
        "job",
        "description",
        "seeking",
        "talented",
        "motivated",
        "junior",
        "rust",
        "developer",
        "growing",
        "team",
        "ideal",
        "candidate",
        "passion",
        "programming",
        "strong",
        "foundation",
        "rust",
        "desire",
        "learn",
        "grow",
        "dynamic",
        "environment",
        "responsibilities",
        "assist",
        "development",
        "maintenance",
        "core",
        "rust",
        "applications",
        "write",
        "clean",
        "efficient",
        "documented",
        "code",
        "collaborate",
        "development",
        "team",
        "design",
        "implement",
        "features",
        "actively",
        "participate",
        "code",
        "reviews",
        "provide",
        "constructive",
        "feedback",
        "continuously",
        "learn",
        "stay",
        "rust",
        "ecosystem",
        "trends",
        "technologies",
        "requirements",
        "bachelor",
        "degree",
        "computer",
        "science",
        "field",
        "equivalent",
        "experience",
        "proficiency",
        "rust",
        "programming",
        "language",
        "familiarity",
        "version",
        "control",
        "systems",
        "preferably",
        "git",
        "strong",
        "solving",
        "debugging",
        "skills",
        "excellent",
        "written",
        "verbal",
        "communication",
        "skills",
        "ability",
        "team",
        "oriented",
        "environment",
        "nice",
        "haves",
        "experience",
        "programming",
        "languages",
        "python",
        "javascript",
        "c",
        "knowledge",
        "database",
        "systems",
        "postgresql",
        "mongodb",
        "familiarity",
        "development",
        "frameworks",
        "actix",
        "rocket",
        "offer",
        "competitive",
        "salary",
        "benefits",
        "package",
        "opportunity",
        "growth",
        "career",
        "advancement",
        "supportive",
        "collaborative",
        "environment",
        "chance",
        "cutting",
        "edge",
        "projects",
        "rust",
        "passionate",
        "rust",
        "development",
        "kickstart",
        "career",
        "supportive",
        "dynamic",
        "environment",
        "encourage",
        "apply",
    ]
    .iter()
    .map(|s| s.to_string())
    .collect::<HashSet<String>>();

    let paragraph_tokens = tokenizer.split_into_paragraphs();
    let expected_paragraphs = vec![
        "title junior rust developer",
        "job description",
        "seeking talented motivated junior rust developer growing team ideal candidate passion programming strong foundation rust desire learn grow dynamic environment",
        "responsibilities",
        "assist development maintenance core rust applications",
        "write clean efficient documented code",
        "collaborate development team design implement features",
        "actively participate code reviews provide constructive feedback",
        "continuously learn stay rust ecosystem trends technologies",
        "requirements",
        "bachelor degree computer science field equivalent experience",
        "proficiency rust programming language",
        "familiarity version control systems preferably git",
        "strong solving debugging skills",
        "excellent written verbal communication skills",
        "ability team oriented environment",
        "nice haves",
        "experience programming languages python javascript c",
        "knowledge database systems postgresql mongodb",
        "familiarity development frameworks actix rocket",
        "offer", "competitive salary benefits package",
        "opportunity growth career advancement",
        "supportive collaborative environment",
        "chance cutting edge projects rust",
        "passionate rust development kickstart career supportive dynamic environment encourage apply",
    ].iter().map(|s| s.to_string()).collect::<HashSet<String>>();

    assert!(is_percent_in_hashset(
        &sentence_tokens,
        &expected_sentences,
        90.0
    ));
    assert!(is_percent_in_hashset(&word_tokens, &expected_words, 95.0));
    assert!(is_percent_in_hashset(
        &paragraph_tokens,
        &expected_paragraphs,
        95.0
    ));
}

