use agent_sessions::agent::{is_transcript_user_text_visible, AgentProviderSourceEntry, CandidateRole};

#[test]
fn only_primary_candidates_are_history() {
    assert!(CandidateRole::Primary.is_history());
    assert!(!CandidateRole::Subagent.is_history());
}

#[test]
fn new_entry_has_only_a_path() {
    let entry = AgentProviderSourceEntry::new("/tmp/session.jsonl".to_string());
    assert_eq!(entry.path(), "/tmp/session.jsonl");
    assert_eq!(entry.name, None);
    assert_eq!(entry.kind, None);
    assert_eq!(entry.media_type, None);
    assert_eq!(entry.inline_data, None);
}

#[test]
fn builders_set_one_field_each() {
    let entry = AgentProviderSourceEntry::new("p".to_string())
        .named("main".to_string())
        .with_kind("transcript".to_string())
        .with_media_type("application/json".to_string())
        .with_inline_data(vec![1, 2, 3]);
    assert_eq!(entry.path(), "p");
    assert_eq!(entry.name.as_deref(), Some("main"));
    assert_eq!(entry.kind.as_deref(), Some("transcript"));
    assert_eq!(entry.media_type.as_deref(), Some("application/json"));
    assert_eq!(entry.inline_data, Some(vec![1, 2, 3]));
}

#[test]
fn blank_user_text_is_not_visible() {
    assert!(!is_transcript_user_text_visible(""));
    assert!(!is_transcript_user_text_visible(" \n\t\u{3000}"));
    assert!(is_transcript_user_text_visible("  hi "));
}
