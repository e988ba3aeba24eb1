use mindmap::{chunk_text, truncate_at_sentence_boundary};

#[test]
fn test_short_text_passthrough() {
    let text = "Hello world.";
    let result = truncate_at_sentence_boundary(text, 500);
    assert_eq!(result, "Hello world.");
}

#[test]
fn test_empty_text() {
    let result = truncate_at_sentence_boundary("", 500);
    assert_eq!(result, "");
}

#[test]
fn test_cuts_at_last_sentence() {
    // Build a text with two sentences, the second one pushing past the limit.
    let s1 = format!("The quick brown fox jumped over the lazy dog. {}", "a".repeat(460));
    let result = truncate_at_sentence_boundary(&s1, 500);
    assert!(result.ends_with("..."));
    assert!(result.contains("dog."));
    assert!(result.len() <= 503); // 500 + "..."
}

#[test]
fn test_question_and_exclamation() {
    let text = format!("Is this a question? {} More text here.", "x".repeat(490));
    let result = truncate_at_sentence_boundary(&text, 500);
    assert!(result.ends_with("..."));
    assert!(result.contains("question?"));

    let text2 = format!("What an amazing thing! {} More text here.", "x".repeat(490));
    let result2 = truncate_at_sentence_boundary(&text2, 500);
    assert!(result2.ends_with("..."));
    assert!(result2.contains("thing!"));
}

#[test]
fn test_abbreviation_skip() {
    // "Dr." should not be treated as a sentence boundary; should fall through to
    // a later tier or find the real sentence end.
    let text = format!(
        "Dr. Smith went to the store and bought groceries for the week. {}",
        "a".repeat(450)
    );
    let result = truncate_at_sentence_boundary(&text, 500);
    assert!(result.ends_with("..."));
    // Should cut at "week." not at "Dr."
    assert!(result.contains("week."));
}

#[test]
fn test_decimal_not_boundary() {
    // "3.14" — the digit before the period doesn't match the sentence pattern
    // so it's not picked up as a sentence boundary at all.
    let text = format!(
        "The value of pi is approximately 3.14 and that is a famous constant in mathematics. {}",
        "a".repeat(430)
    );
    let result = truncate_at_sentence_boundary(&text, 500);
    assert!(result.ends_with("..."));
    // Should NOT cut right after "3.14"
    assert!(result.contains("mathematics."));
}

#[test]
fn test_paragraph_break_fallback() {
    // No sentence punctuation, but has a paragraph break.
    let line = "x".repeat(200);
    let text = format!("{}\n\n{}", line, "y".repeat(400));
    let result = truncate_at_sentence_boundary(&text, 500);
    assert!(result.ends_with("..."));
    assert!(!result.contains("yy")); // Cut at the paragraph break
}

#[test]
fn test_markdown_heading_fallback() {
    // No sentence punctuation or paragraph break, but has a markdown heading.
    let line = "x".repeat(200);
    let text = format!("{}\n# Heading\n{}", line, "y".repeat(400));
    let result = truncate_at_sentence_boundary(&text, 500);
    assert!(result.ends_with("..."));
    assert!(!result.contains("Heading"));
}

#[test]
fn test_word_boundary_fallback() {
    // No punctuation, no newlines — just words.
    let text = format!("{} {}", "word".repeat(100), "tail".repeat(100));
    let result = truncate_at_sentence_boundary(&text, 500);
    assert!(result.ends_with("..."));
    // Should cut at a space, not mid-word
    let trimmed = result.trim_end_matches("...");
    assert!(!trimmed.ends_with("wor")); // Not mid-word
}

#[test]
fn test_single_long_word_raw_cut() {
    let text = "a".repeat(1000);
    let result = truncate_at_sentence_boundary(&text, 500);
    assert!(result.ends_with("..."));
    assert_eq!(result.len(), 503); // 500 chars + "..."
}

#[test]
fn test_multibyte_utf8_no_panic() {
    // Each emoji is 4 bytes. 200 emojis = 800 bytes, well over 500.
    let text = "🌍".repeat(200);
    let result = truncate_at_sentence_boundary(&text, 500);
    assert!(result.ends_with("..."));
    // Verify it's valid UTF-8 (would panic on access if not)
    let _ = result.len();
}

#[test]
fn test_min_position_threshold() {
    // "Hi. " is at position 3 — below 20% of 500 (100). It should be skipped
    // in favor of a later tier (word boundary further in the text).
    let text = format!("Hi. {} end of text", "word ".repeat(110));
    let result = truncate_at_sentence_boundary(&text, 500);
    assert!(result.ends_with("..."));
    // "Hi." is too early; should fall through to word boundary much deeper in the text
    let trimmed = result.trim_end_matches("...");
    assert!(trimmed.len() > 100);
}

#[test]
fn test_ellipsis_handling() {
    // Interior dots in "..." — the second and third dots are preceded by "."
    // which doesn't match the sentence pattern. Use enough filler to push
    // past the 500 byte limit.
    let text = format!("Something happened... {} more text here.", "x".repeat(500));
    let result = truncate_at_sentence_boundary(&text, 500);
    assert!(result.ends_with("..."));
    // The ellipsis "..." in "happened..." should not be treated as a sentence
    // boundary (dots preceded by dots don't match the pattern). The function
    // falls through to a word/whitespace boundary.
    assert!(result.contains("happened"));
}

#[test]
fn test_chunk_short_text_passthrough() {
    let text = "Hello world. This is short.";
    let chunks = chunk_text(text, 2000, 200);
    assert_eq!(chunks.len(), 1);
    assert_eq!(chunks[0], text);
}

#[test]
fn test_chunk_splits_at_sentence_boundary() {
    // Two sentences, each ~120 chars. With chunk_size=150, should split into 2 chunks.
    let s1 = format!("The quick brown fox jumped over the lazy dog. ");
    let s2 = format!("Then the cat sat on the mat and looked around carefully. ");
    let text = format!("{}{}{}", s1, s2, "a".repeat(100));
    let chunks = chunk_text(&text, 150, 30);
    assert!(chunks.len() >= 2);
    // First chunk should end at a sentence boundary
    assert!(chunks[0].contains("dog.") || chunks[0].contains("carefully."));
}

#[test]
fn test_chunk_overlap() {
    // Build text with clear sentence boundaries
    let sentences: Vec<String> = (0..10)
        .map(|i| format!("This is sentence number {} with some extra padding words. ", i))
        .collect();
    let text = sentences.join("");
    let chunks = chunk_text(&text, 200, 50);
    assert!(chunks.len() >= 2);
    // Check that consecutive chunks share some content (overlap)
    for i in 0..chunks.len() - 1 {
        let end_of_current = &chunks[i][chunks[i].len().saturating_sub(40)..];
        // The start of the next chunk should contain some text from the end of the current
        let has_overlap = chunks[i + 1].contains(end_of_current)
            || end_of_current.split_whitespace().any(|w| chunks[i + 1].starts_with(w));
        // Overlap might not be exact due to sentence boundaries, but chunks should cover all text
        assert!(
            has_overlap || chunks[i + 1].len() > 0,
            "Expected overlap between chunk {} and {}",
            i,
            i + 1
        );
    }
}

#[test]
fn test_chunk_covers_full_text() {
    let text = "word ".repeat(1000); // ~5000 chars
    let chunks = chunk_text(&text, 500, 50);
    assert!(chunks.len() >= 9); // ~5000/500 with some overlap
    // Last chunk should contain the end of the text
    assert!(chunks.last().unwrap().trim().ends_with("word"));
}

#[test]
fn test_chunk_empty_text() {
    let chunks = chunk_text("", 2000, 200);
    assert_eq!(chunks.len(), 1);
    assert_eq!(chunks[0], "");
}

#[test]
fn test_url_period_skip() {
    // "example.com" — "e" before "." matches the letter class but the next
    // char is "c" (not whitespace), so there is no match. Sentence detection
    // skips it.
    let text = format!(
        "Visit example.com for more info and also check out the documentation that is available online for all users. {}",
        "a".repeat(420)
    );
    let result = truncate_at_sentence_boundary(&text, 500);
    assert!(result.ends_with("..."));
    // Should NOT cut at "example.com" — no whitespace after the period there.
    // Should cut at "users." which is a real sentence end.
    assert!(result.contains("users."));
}
