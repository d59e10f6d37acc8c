use tektite::index::{finish_unresolved_report, group_unresolved, UnresolvedTargetKind};
use tektite::resolve::LinkResolution;
use tektite::schema::{migrations, pending_migrations, schema_action, SchemaAction, SCHEMA_VERSION};

fn pair(t: &str, s: &str) -> (String, String) {
    (t.to_string(), s.to_string())
}

#[test]
fn unresolved_links_group_case_insensitively_with_samples() {
    let raw = vec![
        pair("Ghost", "a.md"),
        pair("ghost", "b.md"),
        pair("other", "a.md"),
        pair("GHOST", "c.md"),
        pair("ghost", "d.md"),
    ];
    let rows = group_unresolved(&raw);
    assert_eq!(rows.len(), 2);
    assert_eq!(rows[0].target, "Ghost");
    assert_eq!(rows[0].reference_count, 4);
    assert_eq!(rows[0].sample_sources, vec!["a.md", "b.md", "c.md"]);
    assert!(rows[0].has_more_sources);
    assert_eq!(rows[1].reference_count, 1);
    assert!(!rows[1].has_more_sources);
}

#[test]
fn report_sorts_by_count_then_target_and_keeps_total() {
    let raw = vec![pair("b", "x.md"), pair("a", "x.md"), pair("c", "x.md"), pair("c", "y.md")];
    let rows = group_unresolved(&raw);
    let resolutions = vec![
        LinkResolution::Unresolved,
        LinkResolution::Ambiguous(vec!["1".to_string(), "2".to_string()]),
        LinkResolution::Unresolved,
    ];
    let report = finish_unresolved_report(rows, &resolutions, 2);
    assert_eq!(report.total_count, 3);
    let targets: Vec<_> = report.rows.iter().map(|r| r.target.as_str()).collect();
    assert_eq!(targets, vec!["c", "a"]);
    assert_eq!(report.rows[1].kind, UnresolvedTargetKind::Ambiguous);
    assert_eq!(report.rows[0].kind, UnresolvedTargetKind::Unresolved);
}

#[test]
fn schema_actions_and_pending_migrations() {
    assert_eq!(schema_action(SCHEMA_VERSION), SchemaAction::UpToDate);
    assert_eq!(schema_action(SCHEMA_VERSION + 1), SchemaAction::Rebuild);
    assert_eq!(schema_action(0), SchemaAction::MigrateFrom(0));
    let all = migrations();
    assert_eq!(all.iter().map(|m| m.0).collect::<Vec<_>>(), vec![1, 2, 3]);
    let pending = pending_migrations(2);
    assert_eq!(pending.len(), 1);
    assert_eq!(pending[0].0, 3);
    assert!(pending[0].1.contains("heading_text"));
}
