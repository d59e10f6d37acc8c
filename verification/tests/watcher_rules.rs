use tektite::watcher::{classify, external_events, RawEventKind, WatchEventKind, WriteTokenSet, TOKEN_TTL_MS};

#[test]
fn token_is_consumed_once_before_expiry() {
    let mut tokens = WriteTokenSet::new();
    tokens.insert("/v/a.md".to_string(), 1000);
    assert!(tokens.consume("/v/a.md", 1000 + TOKEN_TTL_MS - 1));
    assert!(!tokens.consume("/v/a.md", 1000 + TOKEN_TTL_MS - 1));
}

#[test]
fn expired_tokens_are_not_consumed() {
    let mut tokens = WriteTokenSet::new();
    tokens.insert("/v/a.md".to_string(), 0);
    assert!(!tokens.consume("/v/a.md", TOKEN_TTL_MS));
}

#[test]
fn reinserting_refreshes_the_expiry() {
    let mut tokens = WriteTokenSet::new();
    tokens.insert("/v/a.md".to_string(), 0);
    tokens.insert("/v/a.md".to_string(), 5000);
    assert!(tokens.consume("/v/a.md", 6000));
}

#[test]
fn only_unsuppressed_relevant_events_are_reported() {
    let mut tokens = WriteTokenSet::new();
    tokens.insert("/v/self.md".to_string(), 0);
    let paths = vec!["/v/self.md".to_string(), "/v/other.md".to_string()];
    let mut out = Vec::new();
    external_events(&mut tokens, RawEventKind::Modify, &paths, 10, &mut out);
    assert_eq!(out.len(), 1);
    assert_eq!(out[0].path, "/v/other.md");
    assert_eq!(out[0].kind, WatchEventKind::Modify);
    external_events(&mut tokens, RawEventKind::Access, &paths, 10, &mut out);
    assert_eq!(out.len(), 1);
    assert_eq!(classify(RawEventKind::Other), None);
    assert_eq!(classify(RawEventKind::Remove), Some(WatchEventKind::Remove));
}
