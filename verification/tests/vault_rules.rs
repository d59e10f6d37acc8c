use tektite::vault::{needs_indexing, reindex_paths, slash_path};
use tektite::markdown::parse;
use tektite::rename::RenameEdit;
use tektite::vault::{
    changed_paths, check_rename, is_hidden_name, move_under, normalize_rel_path, note_title,
    title_for, RelPathError, RenameRejection,
};

#[test]
fn relative_paths_are_normalised_or_refused() {
    assert_eq!(normalize_rel_path("  notes\\today.md "), Ok("notes/today.md".to_string()));
    assert_eq!(normalize_rel_path("   "), Err(RelPathError::Empty));
    assert_eq!(normalize_rel_path("a//b"), Err(RelPathError::EmptySegment));
    assert_eq!(normalize_rel_path("/abs"), Err(RelPathError::EmptySegment));
    assert_eq!(normalize_rel_path("../escape.md"), Err(RelPathError::Navigation));
    assert_eq!(normalize_rel_path("a/./b"), Err(RelPathError::Navigation));
    assert_eq!(normalize_rel_path("a/../b//c"), Err(RelPathError::Navigation));
    assert_eq!(
        RelPathError::Navigation.message("../x"),
        "path cannot contain navigation segments: ../x"
    );
}

#[test]
fn rename_checks_come_in_order() {
    assert_eq!(check_rename("a.md", "a.md", true, true, true), Err(RenameRejection::SameName));
    assert_eq!(check_rename("a.md", "b.md", false, true, true), Err(RenameRejection::SourceMissing));
    assert_eq!(check_rename("a.md", "b.md", true, true, true), Err(RenameRejection::DestinationExists));
    assert_eq!(check_rename("a.md", "b.txt", true, false, true), Err(RenameRejection::ExtensionMismatch));
    assert_eq!(check_rename("dir", "dir2.md", true, false, false), Err(RenameRejection::ExtensionMismatch));
    assert_eq!(check_rename("a.md", "b.md", true, false, true), Ok(()));
    assert_eq!(
        RenameRejection::DestinationExists.message("b.md"),
        "destination already exists: b.md"
    );
}

#[test]
fn changed_paths_are_unique_and_sorted() {
    let edits = vec![
        RenameEdit { file_path: "z.md".into(), before: "a".into(), after: "b".into() },
        RenameEdit { file_path: "b.md".into(), before: "a".into(), after: "b".into() },
        RenameEdit { file_path: "z.md".into(), before: "c".into(), after: "d".into() },
    ];
    let extra = vec!["new.md".to_string(), "b.md".to_string()];
    assert_eq!(changed_paths(&edits, &extra), vec!["b.md", "new.md", "z.md"]);
}

#[test]
fn notes_move_under_the_new_prefix() {
    assert_eq!(move_under("old/a/b.md", "old/", "new/"), Some("new/a/b.md".to_string()));
    assert_eq!(move_under("older/b.md", "old/", "new/"), None);
}

#[test]
fn titles_prefer_frontmatter() {
    assert_eq!(title_for("notes/x.md", Some("  Hello ".to_string())), "Hello");
    assert_eq!(title_for("notes/x.md", Some("   ".to_string())), "x");
    assert_eq!(title_for("notes/x.md", None), "x");
    let note = parse("---\ntitle: Frontmatter Title\n---\nbody\n");
    assert_eq!(note_title("notes/x.md", &note), "Frontmatter Title");
    let plain = parse("body\n");
    assert_eq!(note_title("notes/x.md", &plain), "x");
}

#[test]
fn hidden_names_start_with_a_dot() {
    assert!(is_hidden_name(".git"));
    assert!(!is_hidden_name("docs"));
}

#[test]
fn scan_reindexes_changed_or_unchunked_files() {
    assert!(!needs_indexing(Some(5), 5, None));
    assert!(!needs_indexing(Some(5), 5, Some(true)));
    assert!(needs_indexing(Some(5), 5, Some(false)));
    assert!(needs_indexing(Some(4), 5, Some(true)));
    assert!(needs_indexing(None, 5, None));
}

#[test]
fn backslashes_become_forward_slashes() {
    assert_eq!(slash_path("a\\b\\c.md"), "a/b/c.md");
    assert_eq!(slash_path("plain/path.md"), "plain/path.md");
}

#[test]
fn reindex_list_puts_moved_files_first() {
    let moved = vec!["new/a.md".to_string(), "new/b.md".to_string()];
    let rewritten = vec!["x.md".to_string(), "new/a.md".to_string(), "y.md".to_string()];
    assert_eq!(
        reindex_paths(&moved, &rewritten),
        vec!["new/a.md", "new/b.md", "x.md", "y.md"]
    );
}

#[test]
fn normalising_a_normal_path_changes_nothing() {
    for raw in ["  notes\\today.md ", "a/b/c.md", "x\\y"] {
        let once = normalize_rel_path(raw).unwrap();
        assert_eq!(normalize_rel_path(&once), Ok(once.clone()));
    }
}
