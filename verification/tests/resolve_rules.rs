use tektite::resolve::stem_matches;
use tektite::paths::{file_stem_or_path, is_markdown, parent_dir_of, stem_from_path, stem_from_target};
use tektite::resolve::{
    alias_matches, is_target_path, needs_path_tier, path_distance, proximity_winner, resolve_by_tiers, resolve_candidates,
    FileRecord, LinkResolution,
};

fn rec(id: &str, path: &str) -> FileRecord {
    FileRecord { id: id.to_string(), path: path.to_string(), mtime_secs: 0 }
}

#[test]
fn stems_and_parents() {
    assert_eq!(stem_from_path("notes/my-note.md"), "my-note");
    assert_eq!(stem_from_path("root.md"), "root");
    assert_eq!(stem_from_path("notes/readme"), "readme");
    assert_eq!(stem_from_target("folder/note"), "note");
    assert_eq!(stem_from_target("note"), "note");
    assert_eq!(parent_dir_of("a/b/c.md"), "a/b");
    assert_eq!(parent_dir_of("c.md"), "");
}

#[test]
fn path_rules_follow_std_path() {
    assert!(is_markdown("notes/A.MD"));
    assert!(!is_markdown("notes/.md"));
    assert!(!is_markdown("notes/readme"));
    assert_eq!(file_stem_or_path("a/.bashrc"), ".bashrc");
    assert_eq!(file_stem_or_path("a/b.tar.gz"), "b.tar");
    assert_eq!(file_stem_or_path("a/b/."), "b");
    assert_eq!(file_stem_or_path(".."), "..");
}

#[test]
fn distance_counts_differing_components() {
    assert_eq!(path_distance("a/b", "a/c"), 2);
    assert_eq!(path_distance("", "x/y"), 2);
    assert_eq!(path_distance("A/b", "a/b"), 0);
    assert_eq!(path_distance("", ""), 0);
}

#[test]
fn proximity_picks_unique_closest() {
    let cands = vec![rec("1", "far/away/n.md"), rec("2", "here/n.md")];
    assert_eq!(proximity_winner(&cands, "here/src.md"), Some("2".to_string()));
    let tie = vec![rec("1", "x/n.md"), rec("2", "y/n.md")];
    assert_eq!(proximity_winner(&tie, "src.md"), None);
}

#[test]
fn candidates_resolve_by_count_and_proximity() {
    assert_eq!(resolve_candidates(vec![], Some("a.md"), true), None);
    assert_eq!(
        resolve_candidates(vec![rec("1", "n.md")], None, false),
        Some(LinkResolution::Resolved("1".to_string()))
    );
    let two = vec![rec("1", "far/away/n.md"), rec("2", "here/n.md")];
    assert_eq!(
        resolve_candidates(two.clone(), Some("here/src.md"), false),
        Some(LinkResolution::Ambiguous(vec!["1".to_string(), "2".to_string()]))
    );
    assert_eq!(
        resolve_candidates(two, Some("here/src.md"), true),
        Some(LinkResolution::Resolved("2".to_string()))
    );
}

#[test]
fn path_tier_only_for_qualified_targets() {
    assert!(needs_path_tier("a/b"));
    assert!(!needs_path_tier("b"));
}

#[test]
fn stems_match_case_insensitively() {
    assert!(stem_matches("notes/Project.md", "project"));
    assert!(stem_matches("Project.md", "PROJECT"));
    assert!(!stem_matches("notes/project-x.md", "project"));
    assert!(!stem_matches("notes/project.md/other.md", "project"));
}

#[test]
fn plain_targets_go_by_stem_then_alias() {
    let by_stem = vec![rec("s", "notes/target.md")];
    let by_alias = vec![rec("a", "notes/aliased.md")];
    assert_eq!(
        resolve_by_tiers("target", by_stem.clone(), by_alias.clone(), vec![], None, false),
        LinkResolution::Resolved("s".to_string())
    );
    assert_eq!(
        resolve_by_tiers("My Alias", vec![], by_alias, vec![], None, false),
        LinkResolution::Resolved("a".to_string())
    );
    assert_eq!(resolve_by_tiers("nonexistent", vec![], vec![], vec![], None, false), LinkResolution::Unresolved);
}

#[test]
fn path_qualified_targets_never_fall_back_to_a_plain_stem() {
    let by_stem = vec![rec("plain", "note.md")];
    assert_eq!(
        resolve_by_tiers("missing/note", by_stem.clone(), vec![], vec![], None, false),
        LinkResolution::Unresolved
    );
    assert_eq!(
        resolve_by_tiers("folder/note", by_stem, vec![], vec![rec("p", "Folder/Note.md")], None, false),
        LinkResolution::Resolved("p".to_string())
    );
}

#[test]
fn path_tier_needs_the_exact_path() {
    assert!(is_target_path("Folder/Note.md", "folder/note"));
    assert!(is_target_path("folder/note.md", "/folder/note/"));
    assert!(!is_target_path("folder/note-long.md", "folder/note"));
    assert!(!is_target_path("other/folder/note.md", "folder/note"));
}

#[test]
fn ambiguous_tier_keeps_candidate_order() {
    let two = vec![rec("1", "a/note.md"), rec("2", "b/note.md")];
    assert_eq!(
        resolve_by_tiers("note", two, vec![], vec![], None, true),
        LinkResolution::Ambiguous(vec!["1".to_string(), "2".to_string()])
    );
}

#[test]
fn aliases_match_ignoring_ascii_case() {
    assert!(alias_matches("My Alias", "my alias"));
    assert!(alias_matches("My Alias", "MY ALIAS"));
    assert!(!alias_matches("My Alias", "My Alia"));
    assert!(!alias_matches("Ärger", "ärger"));
}
