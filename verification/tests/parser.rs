use tektite::markdown::{parse, tag_role_of, ParsedHeading, TagRole, MARKDOWN_OPTIONS};
use tektite::syntax::ParsedLink;
use pulldown_cmark::Options;

fn links(src: &str) -> Vec<ParsedLink> {
    parse(src).links
}

fn tags(src: &str) -> Vec<String> {
    parse(src).tags
}

fn link(target: &str, fragment: Option<&str>, alias: Option<&str>) -> ParsedLink {
    ParsedLink {
        target: target.to_string(),
        fragment: fragment.map(str::to_string),
        alias: alias.map(str::to_string),
    }
}

// -----------------------------------------------------------------------
// A1: AST-aware extraction — code block exclusion
// -----------------------------------------------------------------------

#[test]
fn wiki_link_in_fenced_code_block_is_not_extracted() {
    let src = "```\n[[note]]\n```\n";
    assert!(links(src).is_empty());
}

#[test]
fn wiki_link_in_indented_code_block_is_not_extracted() {
    // pulldown-cmark treats 4-space-indented blocks as code.
    let src = "    [[note]]\n";
    assert!(links(src).is_empty());
}

#[test]
fn wiki_link_in_inline_code_is_not_extracted() {
    let src = "Text with `[[note]]` inline code.\n";
    assert!(links(src).is_empty());
}

#[test]
fn tag_in_fenced_code_block_is_not_extracted() {
    let src = "```\n#mytag\n```\n";
    assert!(tags(src).is_empty());
}

#[test]
fn tag_in_inline_code_is_not_extracted() {
    let src = "Use `#tag` for tagging.\n";
    assert!(tags(src).is_empty());
}

#[test]
fn wiki_link_in_normal_text_is_extracted() {
    let src = "See [[my-note]] for details.\n";
    assert_eq!(links(src), vec![link("my-note", None, None)]);
}

#[test]
fn tag_in_normal_text_is_extracted() {
    let src = "This is #important work.\n";
    assert_eq!(tags(src), vec!["important".to_string()]);
}

#[test]
fn wiki_link_in_heading_is_extracted() {
    let src = "## See [[related-note]]\n";
    assert_eq!(links(src), vec![link("related-note", None, None)]);
}

#[test]
fn tag_in_heading_is_extracted() {
    let src = "## Meeting #project-alpha\n";
    assert_eq!(tags(src), vec!["project-alpha".to_string()]);
}

#[test]
fn wiki_link_in_blockquote_is_extracted() {
    let src = "> See [[note-in-quote]]\n";
    assert_eq!(links(src), vec![link("note-in-quote", None, None)]);
}

#[test]
fn wiki_link_in_list_item_is_extracted() {
    let src = "- [[list-note]]\n";
    assert_eq!(links(src), vec![link("list-note", None, None)]);
}

#[test]
fn multiple_links_and_tags_outside_code_extracted() {
    let src = "[[a]] #tag1 and [[b]] #tag2\n```\n[[c]] #tag3\n```\n";
    let note = parse(src);
    assert_eq!(
        note.links,
        vec![link("a", None, None), link("b", None, None)]
    );
    assert_eq!(note.tags, vec!["tag1".to_string(), "tag2".to_string()]);
}

// -----------------------------------------------------------------------
// A2: Robust frontmatter fence detection
// -----------------------------------------------------------------------

#[test]
fn frontmatter_lf_parses_correctly() {
    let src = "---\ntitle: Hello\n---\nBody text\n";
    let note = parse(src);
    assert_eq!(
        note.frontmatter.get("title").and_then(|v| v.as_str()),
        Some("Hello")
    );
    assert_eq!(note.body.trim(), "Body text");
}

#[test]
fn frontmatter_crlf_parses_correctly() {
    let src = "---\r\ntitle: Hello\r\n---\r\nBody text\r\n";
    let note = parse(src);
    assert_eq!(
        note.frontmatter.get("title").and_then(|v| v.as_str()),
        Some("Hello")
    );
}

#[test]
fn frontmatter_closing_fence_with_trailing_whitespace_is_recognized() {
    let src = "---\ntitle: Test\n---   \nBody\n";
    let note = parse(src);
    assert_eq!(
        note.frontmatter.get("title").and_then(|v| v.as_str()),
        Some("Test")
    );
    assert!(note.body.contains("Body"));
}

#[test]
fn frontmatter_closing_fence_with_trailing_non_whitespace_is_not_a_fence() {
    // "---x" is not a valid fence; frontmatter goes unclosed → empty map.
    let src = "---\ntitle: Test\n---x\nBody\n";
    let note = parse(src);
    assert!(note.frontmatter.is_empty());
}

#[test]
fn missing_closing_fence_returns_empty_frontmatter() {
    let src = "---\ntitle: No closing fence\nBody\n";
    let note = parse(src);
    assert!(note.frontmatter.is_empty());
}

#[test]
fn no_frontmatter_returns_empty_map() {
    let src = "# Just a heading\n";
    let note = parse(src);
    assert!(note.frontmatter.is_empty());
}

#[test]
fn body_text_after_frontmatter_is_correctly_separated() {
    let src = "---\ntitle: A\n---\n# My Heading\n\nParagraph.\n";
    let note = parse(src);
    assert!(!note.body.contains("title: A"));
    assert!(note.body.contains("My Heading"));
    assert!(note.body.contains("Paragraph"));
}

#[test]
fn frontmatter_aliases_array_is_parsed() {
    let src = "---\naliases:\n  - Alias One\n  - Alias Two\n---\n";
    let note = parse(src);
    let aliases = note
        .frontmatter
        .get("aliases")
        .and_then(|v| v.as_sequence());
    assert!(aliases.is_some());
    assert_eq!(aliases.unwrap().len(), 2);
}

// -----------------------------------------------------------------------
// A3: [[note#heading]] fragment parsing
// -----------------------------------------------------------------------

#[test]
fn plain_wiki_link_has_no_fragment() {
    let src = "[[note]]\n";
    assert_eq!(links(src), vec![link("note", None, None)]);
}

#[test]
fn wiki_link_with_heading_fragment_is_parsed() {
    let src = "[[note#Introduction]]\n";
    assert_eq!(links(src), vec![link("note", Some("Introduction"), None)]);
}

#[test]
fn wiki_link_fragment_preserves_spaces() {
    let src = "[[note#Some Heading Text]]\n";
    assert_eq!(
        links(src),
        vec![link("note", Some("Some Heading Text"), None)]
    );
}

#[test]
fn wiki_link_fragment_and_alias_are_both_parsed() {
    let src = "[[note#heading|display text]]\n";
    assert_eq!(
        links(src),
        vec![link("note", Some("heading"), Some("display text"))]
    );
}

#[test]
fn wiki_link_alias_without_fragment_still_works() {
    let src = "[[note|display]]\n";
    assert_eq!(links(src), vec![link("note", None, Some("display"))]);
}

#[test]
fn wiki_link_path_qualified_with_fragment() {
    let src = "[[folder/note#heading]]\n";
    assert_eq!(links(src), vec![link("folder/note", Some("heading"), None)]);
}

// -----------------------------------------------------------------------
// Headings
// -----------------------------------------------------------------------

#[test]
fn headings_are_extracted_at_correct_levels() {
    let src = "# H1\n## H2\n### H3\n";
    let note = parse(src);
    assert_eq!(note.headings.len(), 3);
    assert_eq!(
        note.headings[0],
        ParsedHeading {
            level: 1,
            text: "H1".into()
        }
    );
    assert_eq!(
        note.headings[1],
        ParsedHeading {
            level: 2,
            text: "H2".into()
        }
    );
    assert_eq!(
        note.headings[2],
        ParsedHeading {
            level: 3,
            text: "H3".into()
        }
    );
}

#[test]
fn heading_plain_text_is_extracted_from_heading_with_inline_markup() {
    let src = "## **Bold** and *italic*\n";
    let note = parse(src);
    assert_eq!(note.headings[0].text, "Bold and italic");
}

// -----------------------------------------------------------------------
// Tasks
// -----------------------------------------------------------------------

#[test]
fn unchecked_task_is_extracted() {
    let src = "- [ ] Do the thing\n";
    let note = parse(src);
    assert_eq!(note.tasks.len(), 1);
    assert_eq!(note.tasks[0].text, "Do the thing");
    assert!(!note.tasks[0].done);
}

#[test]
fn checked_task_is_extracted_as_done() {
    let src = "- [x] Done already\n";
    let note = parse(src);
    assert!(note.tasks[0].done);
}

// -----------------------------------------------------------------------
// Round-trip smoke test
// -----------------------------------------------------------------------

#[test]
fn full_parse_round_trip() {
    let src = "---\ntitle: Full Test\naliases:\n  - Test Note\n---\n# Introduction\n\nSee [[other-note#section|other]] and #research.\n\n```rust\n[[not-a-link]] #not-a-tag\n```\n\n- [ ] Unchecked task\n- [x] Checked task\n";
    let note = parse(src);

    assert_eq!(
        note.frontmatter.get("title").and_then(|v| v.as_str()),
        Some("Full Test")
    );
    assert_eq!(note.headings[0].text, "Introduction");
    assert_eq!(
        note.links,
        vec![link("other-note", Some("section"), Some("other"))]
    );
    assert_eq!(note.tags, vec!["research".to_string()]);
    assert_eq!(note.tasks.len(), 2);
    assert!(!note.tasks[0].done);
    assert!(note.tasks[1].done);
}

#[test]
fn title_and_aliases_are_read_from_frontmatter() {
    let note = parse("---\ntitle: My Title\naliases:\n  - One\n  - 7\n  - Two\n---\nBody\n");
    assert_eq!(note.title.as_deref(), Some("My Title"));
    assert_eq!(note.aliases, vec!["One".to_string(), "Two".to_string()]);
}

#[test]
fn title_and_aliases_absent_without_frontmatter() {
    let note = parse("title: not frontmatter\n");
    assert_eq!(note.title, None);
    assert!(note.aliases.is_empty());
    let numeric = parse("---\ntitle: 42\naliases: single\n---\n");
    assert_eq!(numeric.title, None);
    assert!(numeric.aliases.is_empty());
}

#[test]
fn malformed_frontmatter_gives_no_title() {
    let note = parse("---\ntitle: [unclosed\n---\nBody\n");
    assert_eq!(note.title, None);
    assert!(note.frontmatter.is_empty());
}

#[test]
fn tag_roles_follow_tag_names() {
    assert!(matches!(tag_role_of("CodeBlock"), TagRole::CodeBlock));
    assert!(matches!(tag_role_of("Paragraph"), TagRole::Block));
    assert!(matches!(tag_role_of("BlockQuote(None)"), TagRole::Block));
    assert!(matches!(tag_role_of("Item"), TagRole::Item));
    assert!(matches!(tag_role_of("Heading(H3)"), TagRole::Heading(3)));
    assert!(matches!(tag_role_of("Heading(H7)"), TagRole::Other));
    assert!(matches!(tag_role_of("Emphasis"), TagRole::Other));
}

#[test]
fn block_quote_edges_close_prose_runs() {
    let note = parse("> [[quoted\n\nnot]] here #tag\n");
    assert!(note.links.is_empty());
    assert_eq!(note.tags, vec!["tag".to_string()]);
}

#[test]
fn headings_and_tasks_from_events() {
    let note = parse("## Second *level*\n\n- [x] done task\n- [ ] open\n- plain\n");
    assert_eq!(note.headings, vec![ParsedHeading { level: 2, text: "Second level".to_string() }]);
    assert_eq!(note.tasks.len(), 2);
    assert!(note.tasks[0].done);
    assert_eq!(note.tasks[1].text, "open");
}

#[test]
fn markdown_options_are_tables_strikethrough_and_task_lists() {
    let expected = Options::ENABLE_TABLES | Options::ENABLE_STRIKETHROUGH | Options::ENABLE_TASKLISTS;
    assert_eq!(MARKDOWN_OPTIONS, expected.bits());
}

#[test]
fn frontmatter_map_holds_the_top_level_keys() {
    let note = parse("---\ntitle: T\ntags: [a, b]\nmeta:\n  nested: 1\n---\nBody\n");
    let mut keys: Vec<&str> = note.frontmatter.keys().map(|k| k.as_str()).collect();
    keys.sort();
    assert_eq!(keys, vec!["meta", "tags", "title"]);
    let broken = parse("---\ntitle: [oops\n---\nbody\n");
    assert!(broken.frontmatter.is_empty());
    assert_eq!(broken.body, "body\n");
    assert!(broken.headings.is_empty());
}
