use tektite::markdown::parse;
use tektite::rename::{
    dedup_edits, determine_new_target, format_wiki_link, is_file_rename, moved_path,
    normalize_dir_prefix, plan_file_edits, rewrite_content, LinkRow, RenameEdit,
};
use tektite::rename::{files_to_rewrite, same_edits};

fn edit(file: &str, before: &str, after: &str) -> RenameEdit {
    RenameEdit { file_path: file.to_string(), before: before.to_string(), after: after.to_string() }
}

fn row(source: &str, target: &str, fragment: Option<&str>, alias: Option<&str>) -> LinkRow {
    LinkRow {
        source_path: source.to_string(),
        target: target.to_string(),
        fragment: fragment.map(str::to_string),
        alias: alias.map(str::to_string),
    }
}

#[test]
fn format_wiki_link_writes_all_parts() {
    assert_eq!(format_wiki_link("note", None, None), "[[note]]");
    assert_eq!(format_wiki_link("note", Some("h"), None), "[[note#h]]");
    assert_eq!(format_wiki_link("note", None, Some("a")), "[[note|a]]");
    assert_eq!(format_wiki_link("dir/note", Some("h"), Some("a")), "[[dir/note#h|a]]");
}

#[test]
fn formatted_link_parses_back_to_its_parts() {
    let text = format_wiki_link("dir/note", Some("Some Heading"), Some("shown"));
    let note = parse(&text);
    assert_eq!(note.links.len(), 1);
    assert_eq!(note.links[0].target, "dir/note");
    assert_eq!(note.links[0].fragment.as_deref(), Some("Some Heading"));
    assert_eq!(note.links[0].alias.as_deref(), Some("shown"));
}

#[test]
fn rewrite_replaces_every_occurrence_for_the_path_only() {
    let edits = vec![
        edit("a.md", "[[old]]", "[[new]]"),
        edit("b.md", "[[old]]", "[[other]]"),
    ];
    let out = rewrite_content("x [[old]] y [[old]]", "a.md", &edits);
    assert_eq!(out, "x [[new]] y [[new]]");
    let untouched = rewrite_content("x [[old]]", "c.md", &edits);
    assert_eq!(untouched, "x [[old]]");
}

#[test]
fn rewrite_applies_edits_in_order() {
    let edits = vec![edit("a.md", "[[a]]", "[[b]]"), edit("a.md", "[[b]]", "[[c]]")];
    assert_eq!(rewrite_content("[[a]] [[b]]", "a.md", &edits), "[[c]] [[c]]");
}

#[test]
fn rewrite_with_empty_pattern_matches_between_characters() {
    let edits = vec![edit("a.md", "", "-")];
    assert_eq!(rewrite_content("ab", "a.md", &edits), "-a-b-");
}

#[test]
fn rewrite_does_not_overlap_matches() {
    let edits = vec![edit("a.md", "aa", "b")];
    assert_eq!(rewrite_content("aaa", "a.md", &edits), "ba");
}

#[test]
fn new_target_for_plain_stem_uses_new_stem() {
    let none: Vec<String> = vec![];
    let t = determine_new_target("Old", "old", "new", "notes/old.md", "notes/new.md", &none);
    assert_eq!(t, "new");
}

#[test]
fn new_target_is_path_qualified_when_new_stem_collides() {
    let others = vec!["other/new.md".to_string()];
    let t = determine_new_target("old", "old", "new", "notes/old.md", "notes/new.md", &others);
    assert_eq!(t, "notes/new");
}

#[test]
fn new_target_for_path_qualified_link_keeps_path() {
    let none: Vec<String> = vec![];
    let t = determine_new_target("Notes/Old", "old", "new", "notes/old.md", "notes/new.md", &none);
    assert_eq!(t, "notes/new");
    let same = determine_new_target("unrelated", "old", "new", "notes/old.md", "notes/new.md", &none);
    assert_eq!(same, "unrelated");
}

#[test]
fn plan_keeps_fragment_and_alias_and_skips_alias_links() {
    let aliases = vec!["Nickname".to_string()];
    let links = vec![
        row("z.md", "old", Some("sec"), Some("shown")),
        row("a.md", "nickname", None, None),
        row("a.md", "old", None, None),
    ];
    let none: Vec<String> = vec![];
    let edits = plan_file_edits("old.md", "new.md", &aliases, &links, &none);
    assert_eq!(
        edits,
        vec![edit("a.md", "[[old]]", "[[new]]"), edit("z.md", "[[old#sec|shown]]", "[[new#sec|shown]]")]
    );
}

#[test]
fn dedup_keeps_first_edit_per_file_and_text_sorted() {
    let edits = vec![
        edit("b.md", "[[x]]", "[[y]]"),
        edit("a.md", "[[x]]", "[[1]]"),
        edit("a.md", "[[x]]", "[[2]]"),
        edit("a.md", "[[w]]", "[[v]]"),
    ];
    assert_eq!(
        dedup_edits(&edits),
        vec![edit("a.md", "[[w]]", "[[v]]"), edit("a.md", "[[x]]", "[[1]]"), edit("b.md", "[[x]]", "[[y]]")]
    );
}

#[test]
fn dir_prefix_and_moved_paths() {
    assert_eq!(normalize_dir_prefix("notes//"), "notes/");
    assert_eq!(normalize_dir_prefix("notes"), "notes/");
    assert_eq!(moved_path("notes/a/b.md", "notes/", "archive/"), "archive/a/b.md");
    assert!(is_file_rename("a/b.md"));
    assert!(!is_file_rename("a/b"));
}

#[test]
fn stale_plans_are_detected_edit_by_edit() {
    let one = vec![edit("a.md", "[[x]]", "[[y]]"), edit("b.md", "[[x]]", "[[y]]")];
    let same = vec![edit("a.md", "[[x]]", "[[y]]"), edit("b.md", "[[x]]", "[[y]]")];
    let other = vec![edit("a.md", "[[x]]", "[[z]]"), edit("b.md", "[[x]]", "[[y]]")];
    assert!(same_edits(&one, &same));
    assert!(!same_edits(&one, &other));
    assert!(!same_edits(&one, &one[..1].to_vec()));
    let files = files_to_rewrite(&vec![
        edit("b.md", "[[x]]", "[[y]]"),
        edit("a.md", "[[x]]", "[[y]]"),
        edit("b.md", "[[x|t]]", "[[y|t]]"),
    ]);
    assert_eq!(files, vec!["b.md".to_string(), "a.md".to_string()]);
}
