use std::cmp::Ordering;
use tektite::vault::{build_level, build_tree, compare_entry_names, DirEntryInfo};

fn info(name: &str, is_dir: bool) -> DirEntryInfo {
    DirEntryInfo { name: name.to_string(), is_dir }
}

#[test]
fn build_tree_skips_hidden_entries_and_marks_markdown_files() {
    // Vault root: docs/ (with Note.md and image.png), .git/, .env
    let root = vec![info("docs", true), info(".git", true), info(".env", false)];
    let mut tree = build_tree(&root);
    let docs = vec![info("Note.md", false), info("image.png", false)];
    let docs_path = tree[0].path.clone();
    tree[0].children = build_level(&docs_path, &docs);

    assert_eq!(tree.len(), 1);
    assert_eq!(tree[0].path, "docs");
    assert!(tree[0].is_dir);
    assert!(!tree[0].is_markdown);
    assert_eq!(tree[0].children.len(), 2);
    assert_eq!(tree[0].children[0].name, "image.png");
    assert!(!tree[0].children[0].is_markdown);
    assert_eq!(tree[0].children[1].name, "Note.md");
    assert!(tree[0].children[1].is_markdown);
}

#[test]
fn build_tree_sorts_case_insensitively_with_directories_first() {
    let root = vec![
        info("beta", true),
        info("Zoo", true),
        info("alpha.md", false),
        info("Notes.txt", false),
    ];
    let tree = build_tree(&root);
    let names: Vec<_> = tree.iter().map(|entry| entry.name.as_str()).collect();

    assert_eq!(names, vec!["beta", "Zoo", "alpha.md", "Notes.txt"]);
}

#[test]
fn nested_entries_get_paths_under_their_directory() {
    let entries = vec![info("b.md", false), info("A.MD", false), info("sub", true)];
    let level = build_level("notes/2024", &entries);
    let paths: Vec<_> = level.iter().map(|e| e.path.as_str()).collect();
    assert_eq!(paths, vec!["notes/2024/sub", "notes/2024/A.MD", "notes/2024/b.md"]);
    assert!(level[1].is_markdown);
    assert!(!level[0].is_markdown);
}

#[test]
fn names_equal_ignoring_case_sort_by_exact_name() {
    let entries = vec![info("note.md", false), info("Note.md", false)];
    let level = build_level("", &entries);
    let names: Vec<_> = level.iter().map(|e| e.name.as_str()).collect();
    assert_eq!(names, vec!["Note.md", "note.md"]);
}

#[test]
fn entry_names_compare_case_insensitively_then_exactly() {
    assert_eq!(compare_entry_names("alpha", "Beta"), Ordering::Less);
    assert_eq!(compare_entry_names("Beta", "alpha"), Ordering::Greater);
    assert_eq!(compare_entry_names("Alpha", "alpha"), Ordering::Less);
    assert_eq!(compare_entry_names("same", "same"), Ordering::Equal);
}
