use tektite::chunker::{chunk_note, MAX_TOKENS};
use tektite::markdown::ParsedNote;

fn parse(body: &str) -> ParsedNote {
    tektite::markdown::parse(body)
}

// ----- Heading split fundamentals -----

#[test]
fn empty_note_produces_no_chunks() {
    let chunks = chunk_note("Empty", &parse(""));
    assert!(chunks.is_empty());
}

#[test]
fn note_with_no_headings_produces_a_single_chunk() {
    let note = parse("Just a paragraph of prose with no structure.\n");
    let chunks = chunk_note("Untitled", &note);
    assert_eq!(chunks.len(), 1);
    assert_eq!(chunks[0].heading_path, None);
    assert!(chunks[0].content.contains("Just a paragraph"));
}

#[test]
fn single_heading_yields_one_chunk_with_path() {
    let chunks = chunk_note("T", &parse("# Only\nsome content here.\n"));
    assert_eq!(chunks.len(), 1);
    assert_eq!(chunks[0].heading_path.as_deref(), Some("Only"));
}

#[test]
fn deeply_nested_headings_join_with_slashes() {
    let body = "# A\n## B\n### C\n#### D\n##### E\n###### F\nleaf\n";
    let chunks = chunk_note("Deep", &parse(body));
    // Each heading line on its own opens a new section. Since some
    // sections have only the heading line as content, they may or may
    // not survive — but the deepest section's path must be present.
    let deepest = chunks.last().unwrap();
    assert_eq!(deepest.heading_path.as_deref(), Some("A / B / C / D / E / F"));
}

#[test]
fn fenced_code_block_hashes_are_not_treated_as_headings() {
    let body = "# Real\nprose\n```\n# not a heading\nmore\n```\ntail\n";
    let chunks = chunk_note("T", &parse(body));
    assert_eq!(chunks.len(), 1);
    assert!(chunks[0].content.contains("# not a heading"));
}

// ----- Prefix injection -----

#[test]
fn embed_input_prefixes_title_and_heading_path() {
    let chunks = chunk_note("My Note", &parse("# Section\nbody text here.\n"));
    let chunk = &chunks[0];
    assert!(chunk.embed_input.starts_with("My Note / Section\n\n"));
    assert!(chunk.embed_input.contains("body text here"));
    // Stored content stays clean.
    assert!(!chunk.content.starts_with("My Note"));
}

#[test]
fn embed_input_uses_title_only_when_no_heading_path() {
    let chunks = chunk_note("My Note", &parse("just a paragraph\n"));
    let chunk = &chunks[0];
    assert!(chunk.embed_input.starts_with("My Note\n\n"));
}

// ----- Hash stability + invalidation -----

#[test]
fn content_hash_is_stable_across_invocations() {
    let a = chunk_note("T", &parse("# A\nhello world example\n"));
    let b = chunk_note("T", &parse("# A\nhello world example\n"));
    assert_eq!(a[0].content_hash, b[0].content_hash);
}

#[test]
fn hash_changes_when_title_changes() {
    let a = chunk_note("Title One", &parse("# A\nbody\n"));
    let b = chunk_note("Title Two", &parse("# A\nbody\n"));
    assert_ne!(a[0].content_hash, b[0].content_hash);
}

#[test]
fn hash_changes_when_heading_path_changes() {
    let a = chunk_note("T", &parse("# A\nbody\n"));
    let b = chunk_note("T", &parse("# B\nbody\n"));
    assert_ne!(a[0].content_hash, b[0].content_hash);
}

// ----- Guardrails: sub-split -----

#[test]
fn oversized_chunks_subsplit_on_paragraph_boundaries() {
    // Build content of ~1000 paragraphs of 8 words each → ~8000 words.
    // Approx tokens ≈ chars/4 ≫ MAX_TOKENS, forcing sub-split.
    let para = "alpha beta gamma delta epsilon zeta eta theta";
    let body = (0..200)
        .map(|i| format!("Paragraph {i}: {para}"))
        .collect::<Vec<_>>()
        .join("\n\n");
    let body = format!("# Big\n{body}\n");
    let chunks = chunk_note("T", &parse(&body));
    assert!(
        chunks.len() > 1,
        "expected multiple sub-chunks, got {}",
        chunks.len()
    );
    for c in &chunks {
        assert!(
            c.token_count <= MAX_TOKENS + 8, // small slack for prefix rounding
            "chunk {} exceeded MAX_TOKENS: {}",
            c.chunk_index,
            c.token_count
        );
        assert_eq!(c.heading_path.as_deref(), Some("Big"));
    }
}

#[test]
fn single_paragraph_too_large_is_left_intact() {
    // No paragraph boundaries to split on → one chunk, oversized.
    let blob = "word ".repeat(2000);
    let body = format!("# Solo\n{blob}\n");
    let chunks = chunk_note("T", &parse(&body));
    assert_eq!(chunks.len(), 1);
    assert!(chunks[0].token_count > MAX_TOKENS);
}

// ----- Guardrails: merge -----

#[test]
fn small_chunks_merge_into_next_sibling() {
    // Two tiny adjacent sections — both well under MIN_TOKENS, easily
    // fit together under MAX_TOKENS → one merged chunk.
    let body = "# A\nshort.\n# B\nalso short.\n";
    let chunks = chunk_note("T", &parse(&body));
    assert_eq!(chunks.len(), 1, "two tiny chunks should collapse to one");
    assert_eq!(chunks[0].heading_path.as_deref(), Some("B"));
    assert!(chunks[0].content.contains("short"));
    assert!(chunks[0].content.contains("also short"));
}

#[test]
fn merge_does_not_happen_when_combined_size_exceeds_max() {
    // Tiny first chunk + huge second chunk → don't merge; emit as-is.
    let big = "word ".repeat(2500); // > MAX_TOKENS in a single paragraph
    let body = format!("# A\nshort.\n# B\n{big}\n");
    let chunks = chunk_note("T", &parse(&body));
    assert_eq!(chunks.len(), 2);
    assert_eq!(chunks[0].heading_path.as_deref(), Some("A"));
    assert_eq!(chunks[1].heading_path.as_deref(), Some("B"));
}

#[test]
fn merge_at_end_of_document_leaves_trailing_small_chunk_alone() {
    // Last section is tiny but has no successor → emitted as-is.
    let body = "# A\n".to_string() + &"text ".repeat(100) + "\n# B\nshort.\n";
    let chunks = chunk_note("T", &parse(&body));
    assert!(chunks.last().unwrap().heading_path.as_deref() == Some("B"));
}

// ----- Token count is stored -----

#[test]
fn token_count_is_populated() {
    let chunks = chunk_note("T", &parse("# A\nhello world\n"));
    assert!(chunks[0].token_count > 0);
}

// ----- heading_text / heading_level -----

#[test]
fn heading_text_and_level_match_leaf_of_path() {
    let body = "# A\n## B\n### C\nleaf body text here with content\n";
    let chunks = chunk_note("T", &parse(body));
    let last = chunks.last().unwrap();
    assert_eq!(last.heading_path.as_deref(), Some("A / B / C"));
    assert_eq!(last.heading_text.as_deref(), Some("C"));
    assert_eq!(last.heading_level, Some(3));
}

#[test]
fn heading_text_is_none_for_headingless_chunk() {
    let chunks = chunk_note("T", &parse("just prose with no headings at all\n"));
    assert_eq!(chunks[0].heading_path, None);
    assert_eq!(chunks[0].heading_text, None);
    assert_eq!(chunks[0].heading_level, None);
}

#[test]
fn merged_chunk_inherits_next_siblings_heading_text() {
    let body = "# A\nshort.\n# B\nalso short.\n";
    let chunks = chunk_note("T", &parse(body));
    assert_eq!(chunks.len(), 1);
    assert_eq!(chunks[0].heading_text.as_deref(), Some("B"));
    assert_eq!(chunks[0].heading_level, Some(1));
}

#[test]
fn unheaded_intro_comes_before_headed_sections() {
    let body = format!("{}\n\n# A\n{}\n\n## B\n{}\n", "intro ".repeat(80), "alpha ".repeat(80), "beta ".repeat(80));
    let chunks = chunk_note("T", &parse(&body));
    assert_eq!(chunks.len(), 3);
    assert_eq!(chunks[0].heading_path, None);
    assert_eq!(chunks[1].heading_path.as_deref(), Some("A"));
    assert_eq!(chunks[2].heading_path.as_deref(), Some("A / B"));
    assert!(chunks.iter().all(|c| !c.content.is_empty()));
}

#[test]
fn chunks_keep_every_non_whitespace_character_in_order() {
    let body = format!(
        "lead in\n\n# A\n{}\n\n{}\n\n```\n# not a heading\n```\n## B\ntiny\n### C\n{}\n",
        "alpha beta ".repeat(120),
        "gamma delta ".repeat(120),
        "omega ".repeat(30)
    );
    let chunks = chunk_note("T", &parse(&body));
    let ink = |s: &str| s.chars().filter(|c| !c.is_whitespace()).collect::<String>();
    let joined: String = chunks.iter().map(|c| ink(&c.content)).collect();
    assert_eq!(joined, ink(&body));
    assert!(chunks.len() >= 3);
}
