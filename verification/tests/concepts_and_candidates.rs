use mindmap::{
    chunk_text, finalize_candidates, merge_chunk_concepts, normalize_concept, stem_phrase,
    truncate_at_sentence_boundary, CandidateKeyword, Concept,
};

fn cand(phrase: &str, score: u32) -> CandidateKeyword {
    CandidateKeyword { phrase: phrase.to_string(), score }
}

#[test]
fn test_stem_dedup_merges_variants() {
    // Morphological variants share a stem and collapse to one survivor,
    // which earns a boost over the best variant's score.
    let cands = vec![
        cand("learning", 500),
        cand("learned", 400),
        cand("learns", 300),
        cand("network", 350),
    ];
    let result = finalize_candidates(cands, 20);
    let learnish: Vec<&CandidateKeyword> = result
        .iter()
        .filter(|c| {
            c.phrase == "learning" || c.phrase == "learned" || c.phrase == "learns"
                || c.phrase == "learn"
        })
        .collect();
    assert!(learnish.len() <= 1, "stem dedup left {} variants", learnish.len());
    assert_eq!(learnish[0].phrase, "learning");
    // Best score 500, boosted once by 100 because variants merged.
    assert_eq!(learnish[0].score, 600);
}

#[test]
fn test_candidate_scores_normalized() {
    let cands = vec![cand("alpha beta", 1500), cand("gamma", 900), cand("x", 100)];
    let result = finalize_candidates(cands, 20);
    for c in &result {
        assert!(c.score <= 1000, "score {} out of range", c.score);
        assert!(c.phrase.split_whitespace().count() <= 3);
        assert!(c.phrase.chars().count() >= 2);
    }
    // The out-of-scale score is clamped, the one-character phrase dropped.
    assert!(result.iter().any(|c| c.phrase == "alpha beta" && c.score == 1000));
    assert!(result.iter().all(|c| c.phrase != "x"));
}

#[test]
fn test_candidates_sorted_and_capped() {
    let cands = vec![
        cand("aa", 100),
        cand("bb", 900),
        cand("cc", 500),
        cand("dd", 700),
    ];
    let result = finalize_candidates(cands, 3);
    assert_eq!(result.len(), 3);
    for w in result.windows(2) {
        assert!(w[0].score >= w[1].score);
    }
    assert_eq!(result[0].phrase, "bb");
}

#[test]
fn test_max_phrase_length_filtered() {
    let cands = vec![cand("one two three four", 800), cand("one two three", 700)];
    let result = finalize_candidates(cands, 20);
    assert_eq!(result.len(), 1);
    assert_eq!(result[0].phrase, "one two three");
}

#[test]
fn test_stem_phrase_joins_token_stems() {
    assert_eq!(stem_phrase("learning networks"), "learn network");
    assert_eq!(stem_phrase("  spaced   out  "), "space out");
}

#[test]
fn test_normalize_concept_rules() {
    // More than three tokens: dropped.
    assert!(normalize_concept("one two three four", Some(500)).is_none());
    // Empty: dropped.
    assert!(normalize_concept("   ", Some(500)).is_none());
    // Importance clamped and defaulted; names are lowercased and stemmed.
    let c = normalize_concept("Machine Learning", Some(1500)).unwrap();
    assert_eq!(c.concept, "machin learn");
    assert_eq!(c.importance, 1000);
    let d = normalize_concept("graph", None).unwrap();
    assert_eq!(d.importance, 500);
    assert_eq!(d.concept, "graph");
    // Punctuation cleaned, whitespace collapsed, tokens stemmed.
    let e = normalize_concept("deep,  learning!", Some(800)).unwrap();
    assert_eq!(e.concept, "deep learn");
}

#[test]
fn test_merge_chunk_concepts_keeps_max_importance() {
    // The same concept from several chunks keeps its highest importance.
    let chunks = vec![
        vec![Concept { concept: "x".to_string(), importance: 500 }],
        vec![Concept { concept: "x".to_string(), importance: 600 }],
        vec![Concept { concept: "X".to_string(), importance: 550 }],
        vec![Concept { concept: "y".to_string(), importance: 300 }],
    ];
    let merged = merge_chunk_concepts(chunks);
    assert_eq!(merged.len(), 2);
    let x = merged.iter().find(|c| c.concept.to_lowercase() == "x").unwrap();
    assert_eq!(x.importance, 600);
    let y = merged.iter().find(|c| c.concept == "y").unwrap();
    assert_eq!(y.importance, 300);
}

#[test]
fn test_abbreviation_truncation_scenario() {
    // The period after the honorific is not a sentence end; the cut lands
    // after the real sentence.
    let text = format!("Dr. Smith went to the store for groceries. {}", "a".repeat(460));
    let result = truncate_at_sentence_boundary(&text, 500);
    assert!(result.contains("groceries."));
    assert!(!result.ends_with("Dr...."));
    assert!(result.starts_with("Dr. Smith"));
}

#[test]
fn test_long_text_chunking_scenario() {
    // Ten thousand bytes with the standard chunking parameters give at
    // least five chunks; merging per-chunk concepts keeps the maximum
    // importance for the shared name.
    let sentence = "This sentence fills the body of the document with words. ";
    let mut text = String::new();
    while text.len() < 10_000 {
        text.push_str(sentence);
    }
    let text = &text[..10_000.min(text.len())];
    let chunks = chunk_text(text, 2000, 200);
    assert!(chunks.len() >= 5, "got {} chunks", chunks.len());
    for c in &chunks {
        assert!(c.len() <= 2000);
    }
    let per_chunk: Vec<Vec<Concept>> = chunks
        .iter()
        .enumerate()
        .map(|(i, _)| {
            vec![Concept { concept: "x".to_string(), importance: 500 + 100 * (i as u32 % 5) }]
        })
        .collect();
    let merged = merge_chunk_concepts(per_chunk);
    assert_eq!(merged.len(), 1);
    assert_eq!(merged[0].concept, "x");
    assert_eq!(merged[0].importance, 900);
}

#[test]
fn test_truncate_length_bound() {
    for m in [0usize, 1, 5, 10, 100, 500] {
        let text = "word ".repeat(200);
        let out = truncate_at_sentence_boundary(&text, m);
        assert!(out.len() <= m + 3, "len {} for limit {}", out.len(), m);
    }
}
