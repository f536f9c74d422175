use agent_sessions::selection::ParseSelection;
use agent_sessions::session::{
    earliest_timestamp, event, filter_selection, latest_timestamp, summarize_models,
    text_from_blocks, Actor, AgentKind, Body, ContentBlock, Event, ImageBlock, Operation,
    OperationKind, OperationPhase, Prompt, Response, Session, SessionMeta, SessionModelMeta,
    Snapshot, State, TextBlock, Unknown, Usage, VersionKind,
};

fn usage(model: Option<&str>, input: u64, output: u64, total: u64) -> Body {
    Body::Usage(Usage {
        model: model.map(String::from),
        input_tokens: input,
        output_tokens: output,
        cache_creation_tokens: 1,
        cache_read_tokens: 2,
        cached_tokens: 3,
        reasoning_tokens: 4,
        tool_tokens: 5,
        total_tokens: total,
        web_search_requests: 6,
        speed: None,
    })
}

fn response(model: Option<&str>, text: &str) -> Body {
    Body::Response(Response {
        model: model.map(String::from),
        phase: None,
        text: Some(text.to_string()),
        blocks: Vec::new(),
    })
}

fn prompt(text: &str) -> Body {
    Body::Prompt(Prompt { text: Some(text.to_string()), blocks: Vec::new() })
}

fn operation() -> Body {
    Body::Operation(Operation {
        kind: OperationKind::Shell,
        phase: OperationPhase::Completed,
        name: "bash".to_string(),
        input_json: None,
        output_json: None,
        command: Some("ls".to_string()),
        file_path: None,
        lines_added: 0,
        lines_removed: 0,
        is_error: false,
        duration_seconds_bits: Some(1.5f64.to_bits()),
        extra_json: None,
    })
}

fn at(actor: Actor, body: Body, ts: Option<&str>) -> Event {
    event(actor, body, ts.map(String::from))
}

#[test]
fn event_sets_only_actor_body_and_timestamp() {
    let e = event(Actor::User, prompt("hi"), Some("2024-01-01".to_string()));
    assert_eq!(e.actor, Actor::User);
    assert_eq!(e.timestamp.as_deref(), Some("2024-01-01"));
    assert_eq!(e.id, None);
    assert_eq!(e.turn_id, None);
    assert_eq!(e.op_id, None);
    assert_eq!(e.parent_op_id, None);
    assert_eq!(e.body, prompt("hi"));
}

#[test]
fn summarizes_models_in_name_order_with_summed_usage() {
    let events = vec![
        at(Actor::Assistant, response(Some("zeta"), "ok"), None),
        at(Actor::System, usage(Some("alpha"), 10, 20, 30), None),
        at(Actor::User, response(Some("ignored-user-model"), "x"), None),
        at(Actor::System, usage(Some("zeta"), 1, 2, 3), None),
        at(Actor::System, usage(Some("alpha"), 5, 6, 11), None),
        at(Actor::System, usage(None, 100, 100, 100), None),
        at(Actor::Assistant, response(None, "no model"), None),
        at(Actor::Tool, operation(), None),
    ];
    let summary = summarize_models(&events);
    assert_eq!(summary.len(), 2);
    assert_eq!(summary[0].model, "alpha");
    assert_eq!(summary[0].input_tokens, 15);
    assert_eq!(summary[0].output_tokens, 26);
    assert_eq!(summary[0].cache_creation_tokens, 2);
    assert_eq!(summary[0].cache_read_tokens, 4);
    assert_eq!(summary[0].cached_tokens, 6);
    assert_eq!(summary[0].reasoning_tokens, 8);
    assert_eq!(summary[0].tool_tokens, 10);
    assert_eq!(summary[0].total_tokens, 41);
    assert_eq!(summary[0].web_search_requests, 12);
    assert_eq!(summary[1].model, "zeta");
    assert_eq!(summary[1].input_tokens, 1);
    assert_eq!(summary[1].total_tokens, 3);
}

#[test]
fn assistant_model_without_usage_has_zero_counters() {
    let events = vec![at(Actor::Assistant, response(Some("m"), "hi"), None)];
    let summary = summarize_models(&events);
    assert_eq!(summary, vec![SessionModelMeta::zero("m".to_string())]);
}

#[test]
fn no_models_gives_empty_summary() {
    let events = vec![at(Actor::User, prompt("hello"), None)];
    assert!(summarize_models(&events).is_empty());
    assert!(summarize_models(&[]).is_empty());
}

#[test]
fn model_names_order_by_code_point() {
    let events = vec![
        at(Actor::System, usage(Some("b"), 1, 1, 1), None),
        at(Actor::System, usage(Some("B"), 1, 1, 1), None),
        at(Actor::System, usage(Some("ab"), 1, 1, 1), None),
        at(Actor::System, usage(Some("a"), 1, 1, 1), None),
    ];
    let names: Vec<String> = summarize_models(&events).into_iter().map(|m| m.model).collect();
    assert_eq!(names, vec!["B", "a", "ab", "b"]);
}

#[test]
fn zero_summary_has_model_and_no_usage() {
    let m = SessionModelMeta::zero("gpt".to_string());
    assert_eq!(m.model, "gpt");
    assert_eq!(
        (m.input_tokens, m.output_tokens, m.total_tokens, m.web_search_requests),
        (0, 0, 0, 0)
    );
}

fn text(t: &str) -> ContentBlock {
    ContentBlock::Text(TextBlock { text: t.to_string() })
}

#[test]
fn text_from_blocks_joins_non_empty_texts() {
    let blocks = vec![
        text("hello"),
        ContentBlock::Image(ImageBlock { image_url: "u".to_string() }),
        text(""),
        text("world"),
    ];
    assert_eq!(text_from_blocks(&blocks).as_deref(), Some("hello world"));
}

#[test]
fn text_from_blocks_without_text_is_none() {
    let blocks = vec![
        text(""),
        ContentBlock::Image(ImageBlock { image_url: "u".to_string() }),
    ];
    assert_eq!(text_from_blocks(&blocks), None);
    assert_eq!(text_from_blocks(&[]), None);
}

#[test]
fn text_from_single_block_has_no_space() {
    assert_eq!(text_from_blocks(&[text("only")]).as_deref(), Some("only"));
}

#[test]
fn timestamps_give_earliest_and_latest() {
    let events = vec![
        at(Actor::User, prompt("a"), Some("2024-05-02T10:00:00Z")),
        at(Actor::User, prompt("b"), None),
        at(Actor::User, prompt("c"), Some("2024-05-01T09:00:00Z")),
        at(Actor::User, prompt("d"), Some("2024-05-03T00:00:00Z")),
    ];
    assert_eq!(earliest_timestamp(&events).as_deref(), Some("2024-05-01T09:00:00Z"));
    assert_eq!(latest_timestamp(&events).as_deref(), Some("2024-05-03T00:00:00Z"));
}

#[test]
fn timestamps_absent_without_any() {
    let events = vec![at(Actor::User, prompt("a"), None)];
    assert_eq!(earliest_timestamp(&events), None);
    assert_eq!(latest_timestamp(&events), None);
    assert_eq!(earliest_timestamp(&[]), None);
}

#[test]
fn earliest_is_not_after_latest() {
    let events = vec![
        at(Actor::User, prompt("a"), Some("b")),
        at(Actor::User, prompt("b"), Some("a")),
        at(Actor::User, prompt("c"), Some("c")),
    ];
    let first = earliest_timestamp(&events).unwrap();
    let last = latest_timestamp(&events).unwrap();
    assert!(first <= last);
    assert_eq!((first.as_str(), last.as_str()), ("a", "c"));
}

fn sample_session() -> Session {
    let mut meta = SessionMeta::default();
    meta.title = Some("title".to_string());
    meta.session_id = Some("id".to_string());
    Session {
        agent: AgentKind::new("codex".to_string()),
        version: VersionKind::new("v1".to_string()),
        meta,
        events: vec![
            at(Actor::User, prompt("p"), None),
            at(Actor::Assistant, response(Some("m"), "r"), None),
            at(Actor::Tool, operation(), None),
            at(Actor::System, usage(Some("m"), 1, 1, 2), None),
            at(
                Actor::System,
                Body::State(State { kind: "k".to_string(), value_json: None }),
                None,
            ),
            at(
                Actor::System,
                Body::Snapshot(Snapshot { kind: "s".to_string(), value_json: "{}".to_string() }),
                None,
            ),
            at(
                Actor::Other("x".to_string()),
                Body::Unknown(Unknown { kind: "u".to_string(), raw_json: "{}".to_string() }),
                None,
            ),
        ],
    }
}

#[test]
fn full_selection_keeps_session() {
    let session = sample_session();
    assert!(ParseSelection::full().is_full());
    assert_eq!(filter_selection(session.clone(), ParseSelection::full()), session);
}

#[test]
fn selection_keeps_chosen_event_kinds_and_blanks_meta() {
    let selection = ParseSelection {
        meta: false,
        messages: true,
        operations: false,
        usage: true,
        state: false,
        snapshots: false,
        raw_unknown: true,
    };
    assert!(!selection.is_full());
    let kept = filter_selection(sample_session(), selection);
    assert_eq!(kept.agent.as_str(), "codex");
    assert_eq!(kept.version.as_str(), "v1");
    assert_eq!(kept.meta, SessionMeta::default());
    let kinds: Vec<&str> = kept
        .events
        .iter()
        .map(|e| match &e.body {
            Body::Prompt(_) => "prompt",
            Body::Response(_) => "response",
            Body::Operation(_) => "operation",
            Body::Usage(_) => "usage",
            Body::State(_) => "state",
            Body::Snapshot(_) => "snapshot",
            Body::Unknown(_) => "unknown",
        })
        .collect();
    assert_eq!(kinds, vec!["prompt", "response", "usage", "unknown"]);
}

#[test]
fn selection_keeping_meta_keeps_it() {
    let selection = ParseSelection {
        meta: true,
        messages: false,
        operations: true,
        usage: false,
        state: true,
        snapshots: true,
        raw_unknown: false,
    };
    let session = sample_session();
    let kept = filter_selection(session.clone(), selection);
    assert_eq!(kept.meta, session.meta);
    assert_eq!(kept.events.len(), 3);
    assert!(selection.includes_body(&operation()));
    assert!(!selection.includes_body(&prompt("p")));
}

#[test]
fn selecting_twice_is_selecting_once() {
    let selection = ParseSelection {
        meta: false,
        messages: true,
        operations: true,
        usage: false,
        state: false,
        snapshots: true,
        raw_unknown: false,
    };
    let once = filter_selection(sample_session(), selection);
    let twice = filter_selection(once.clone(), selection);
    assert_eq!(once, twice);
}

#[test]
fn kinds_hold_their_names() {
    assert_eq!(AgentKind::new("gemini".to_string()).as_str(), "gemini");
    assert_eq!(VersionKind::new("2".to_string()).as_str(), "2");
}

#[test]
fn summary_ignores_event_order() {
    let events = vec![
        at(Actor::Assistant, response(Some("m2"), "r"), None),
        at(Actor::System, usage(Some("m1"), 3, 4, 7), None),
        at(Actor::System, usage(Some("m2"), 1, 1, 2), None),
        at(Actor::System, usage(Some("m1"), 5, 6, 11), None),
    ];
    let mut reversed = events.clone();
    reversed.reverse();
    assert_eq!(summarize_models(&events), summarize_models(&reversed));
}

#[test]
fn timestamps_of_joined_lists() {
    let a = vec![
        at(Actor::User, prompt("a"), Some("2024-01-02")),
        at(Actor::User, prompt("b"), Some("2024-01-05")),
    ];
    let b = vec![
        at(Actor::User, prompt("c"), Some("2024-01-03")),
        at(Actor::User, prompt("d"), None),
    ];
    let joined = [a.clone(), b.clone()].concat();
    assert_eq!(latest_timestamp(&joined), latest_timestamp(&a).max(latest_timestamp(&b)));
    assert_eq!(latest_timestamp(&joined).as_deref(), Some("2024-01-05"));
    assert_eq!(earliest_timestamp(&joined).as_deref(), Some("2024-01-02"));
    assert_eq!(latest_timestamp(&[a.clone(), Vec::new()].concat()), latest_timestamp(&a));
}

#[test]
fn empty_selection_keeps_nothing() {
    let none = ParseSelection::empty();
    assert!(!none.is_full());
    assert!(!none.includes_meta());
    assert!(!none.includes_messages());
    assert!(!none.includes_operations());
    assert!(!none.includes_usage());
    assert!(!none.includes_state());
    assert!(!none.includes_snapshots());
    assert!(!none.includes_raw_unknown());
    let kept = filter_selection(sample_session(), none);
    assert!(kept.events.is_empty());
    assert_eq!(kept.meta, SessionMeta::default());
}

#[test]
fn meta_only_selection_keeps_meta_and_no_event() {
    let session = sample_session();
    let selection = ParseSelection::meta_only();
    assert!(selection.includes_meta());
    assert!(!selection.includes_messages());
    assert!(!selection.includes_usage());
    let kept = filter_selection(session.clone(), selection);
    assert_eq!(kept.meta, session.meta);
    assert!(kept.events.is_empty());
}

#[test]
fn with_messages_adds_prompts_and_responses() {
    let selection = ParseSelection::meta_only().with_messages();
    assert!(selection.includes_meta());
    assert!(selection.includes_messages());
    assert!(!selection.includes_operations());
    assert!(selection.includes_body(&prompt("p")));
    assert!(!selection.includes_body(&operation()));
    let expected = ParseSelection {
        meta: true,
        messages: true,
        operations: false,
        usage: false,
        state: false,
        snapshots: false,
        raw_unknown: false,
    };
    assert_eq!(selection, expected);
}
