use tektite::chunker::{chunk_note, MAX_TOKENS, MIN_TOKENS};
use tektite::markdown::parse;

#[test]
fn content_hash_is_lower_hex_sha256_of_embed_input() {
    let chunks = chunk_note("T", &parse("# A\nhello world example\n"));
    assert_eq!(chunks.len(), 1);
    assert_eq!(chunks[0].embed_input, "T / A\n\n# A\nhello world example");
    assert_eq!(
        chunks[0].content_hash,
        "aac3ecf77cc7c651e1f54cd42e5233d3929e18f418d8a9d96fc14032c73899d0"
    );
    // ceil(30 / 4)
    assert_eq!(chunks[0].token_count, 8);
}

#[test]
fn chunk_indices_count_from_zero() {
    let big = "word ".repeat(700);
    let body = format!("# A\n{big}\n# B\n{big}\n# C\n{big}\n");
    let chunks = chunk_note("T", &parse(&body));
    assert_eq!(chunks.len(), 3);
    for (i, c) in chunks.iter().enumerate() {
        assert_eq!(c.chunk_index, i);
    }
}

#[test]
fn heading_fields_come_together() {
    let body = "intro text before any heading that is long enough to stand alone\n# A\nsection\n";
    let chunks = chunk_note("T", &parse(body));
    for c in &chunks {
        assert_eq!(c.heading_path.is_some(), c.heading_text.is_some());
        assert_eq!(c.heading_text.is_some(), c.heading_level.is_some());
    }
}

#[test]
fn closing_hashes_and_indentation_are_stripped_from_headings() {
    let body = "   ## Title ##  \ntext under the heading\n";
    let chunks = chunk_note("N", &parse(body));
    assert_eq!(chunks[0].heading_text.as_deref(), Some("Title"));
    assert_eq!(chunks[0].heading_level, Some(2));
}

#[test]
fn seven_hashes_are_not_a_heading() {
    let chunks = chunk_note("N", &parse("####### not a heading\n"));
    assert_eq!(chunks.len(), 1);
    assert_eq!(chunks[0].heading_path, None);
}

#[test]
fn tilde_fences_also_hide_headings() {
    let body = "# Real\n~~~\n# hidden\n~~~\n";
    let chunks = chunk_note("T", &parse(body));
    assert_eq!(chunks.len(), 1);
    assert!(chunks[0].content.contains("# hidden"));
}

#[test]
fn sibling_heading_replaces_deeper_path() {
    let body = "# A\n## B\n## C\nbody of c that is here\n";
    let chunks = chunk_note("T", &parse(body));
    assert_eq!(chunks.last().unwrap().heading_path.as_deref(), Some("A / C"));
}

#[test]
fn merged_content_keeps_a_blank_line_between_parts() {
    let chunks = chunk_note("T", &parse("# A\nshort.\n# B\nalso short.\n"));
    assert_eq!(chunks.len(), 1);
    assert_eq!(chunks[0].content, "# A\nshort.\n\n# B\nalso short.");
}

#[test]
fn guardrail_bounds_are_ordered() {
    assert!(MIN_TOKENS < MAX_TOKENS);
}
