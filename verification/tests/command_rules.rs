use tektite::commands::{
    append_wiki_link_text, continuation_for, file_completions, hash_filters, sorted_paths,
    update_recent_vaults, vault_display_name, VaultEntry,
};
use tektite::graph::{nodes_by_path, GraphNode, clamp_depth, needs_tags, node_passes_filter, nodes_to_prune, GraphFilters};

fn entry(path: &str, name: &str) -> VaultEntry {
    VaultEntry { path: path.to_string(), name: name.to_string() }
}

#[test]
fn recent_vaults_move_the_opened_vault_to_the_front() {
    let mut vaults: Vec<VaultEntry> = (0..12).map(|i| entry(&format!("/v{i}"), &format!("v{i}"))).collect();
    vaults[3] = entry("/open", "open");
    let out = update_recent_vaults(&vaults, &entry("/open", "open"));
    assert_eq!(out.len(), 10);
    assert_eq!(out[0].path, "/open");
    assert_eq!(out.iter().filter(|v| v.path == "/open").count(), 1);
    assert_eq!(out[1].path, "/v0");
    assert_eq!(out[3].path, "/v2");
    assert_eq!(out[4].path, "/v4");
}

#[test]
fn vault_name_is_last_component() {
    assert_eq!(vault_display_name("/home/me/Notes"), "Notes");
    assert_eq!(vault_display_name("/"), "Vault");
}

#[test]
fn appended_link_is_separated_by_a_blank_line() {
    assert_eq!(append_wiki_link_text("text", "dir/Target.md"), Some("text\n\n[[Target]]\n".to_string()));
    assert_eq!(append_wiki_link_text("text\n", "T.md"), Some("text\n\n[[T]]\n".to_string()));
    assert_eq!(append_wiki_link_text("text\n\n", "T.md"), Some("text\n\n[[T]]\n".to_string()));
    assert_eq!(append_wiki_link_text("", "T.md"), Some("[[T]]\n".to_string()));
    assert_eq!(append_wiki_link_text("x", ".."), None);
}

#[test]
fn completions_list_markdown_files_with_stems() {
    let paths = vec!["a/One.md".to_string(), "b/img.png".to_string(), "Two.md".to_string()];
    let out = file_completions(&paths);
    let pairs: Vec<_> = out.iter().map(|e| (e.path.as_str(), e.name.as_str())).collect();
    assert_eq!(pairs, vec![("a/One.md", "One"), ("Two.md", "Two")]);
}

#[test]
fn paths_sort_lexicographically() {
    let sorted = sorted_paths(vec!["b".to_string(), "B".to_string(), "a".to_string(), "b".to_string()]);
    assert_eq!(sorted, vec!["B", "a", "b", "b"]);
}

#[test]
fn filter_hash_ignores_tag_order() {
    let f1 = GraphFilters {
        tags: Some(vec!["x".to_string(), "y".to_string()]),
        folder: Some("notes".to_string()),
        modified_after: Some(5),
    };
    let f2 = GraphFilters {
        tags: Some(vec!["y".to_string(), "x".to_string()]),
        folder: Some("notes".to_string()),
        modified_after: Some(5),
    };
    let f3 = GraphFilters { tags: Some(vec!["x".to_string()]), folder: None, modified_after: None };
    assert_eq!(hash_filters(&f1), hash_filters(&f2));
    assert_ne!(hash_filters(&f1), hash_filters(&f3));
}

#[test]
fn continuation_depends_on_sentence_end() {
    assert!(continuation_for("Done. ").starts_with("The thought unfurls"));
    assert!(continuation_for("").starts_with("The thought unfurls"));
    assert!(continuation_for("and then").starts_with('\u{2026}'));
}

#[test]
fn graph_filters_and_cap() {
    let none = GraphFilters::default();
    assert!(node_passes_filter("a.md", 0, &vec![], &none));
    let f = GraphFilters {
        tags: Some(vec!["t".to_string()]),
        folder: Some("notes/".to_string()),
        modified_after: Some(10),
    };
    assert!(needs_tags(&f));
    assert!(node_passes_filter("notes/a.md", 10, &vec!["t".to_string()], &f));
    assert!(!node_passes_filter("other/a.md", 10, &vec!["t".to_string()], &f));
    assert!(!node_passes_filter("notes/a.md", 9, &vec!["t".to_string()], &f));
    assert!(!node_passes_filter("notes/a.md", 10, &vec!["u".to_string()], &f));
    assert_eq!(clamp_depth(0), 1);
    assert_eq!(clamp_depth(9), 3);
    let cands = vec![("a".to_string(), 5u32), ("b".to_string(), 1), ("c".to_string(), 5), ("d".to_string(), 0)];
    assert_eq!(nodes_to_prune(&cands, 3), vec!["d", "b", "a"]);
}

fn node(id: &str, path: &str) -> GraphNode {
    GraphNode {
        id: id.to_string(),
        path: path.to_string(),
        title: id.to_string(),
        tags: Vec::new(),
        modified: 0,
        link_count: 0,
        has_embedding: false,
    }
}

#[test]
fn graph_nodes_come_in_path_order() {
    let nodes = vec![node("3", "b/z.md"), node("1", "a.md"), node("2", "b/a.md"), node("4", "a.md")];
    let ids: Vec<String> = nodes_by_path(nodes).into_iter().map(|n| n.id).collect();
    assert_eq!(ids, vec!["1", "4", "2", "3"]);
}
