use forgetmenot::routes::{series_key, split, ContextRoute, MemoryRoute};

#[test]
fn the_branch_is_two_segments_and_the_third_is_the_sub_resource() {
    let (branch, action) = split("tx/alpha-session-1-1").expect("a branch with no action");
    assert_eq!(branch.as_str(), "tx/alpha-session-1-1");
    assert_eq!(action, None);

    let (branch, action) = split("tx/alpha-session-1-1/diff").expect("a branch and an action");
    assert_eq!(branch.as_str(), "tx/alpha-session-1-1");
    assert_eq!(action.as_deref(), Some("diff"));

    assert!(split("tx").is_err(), "one segment names no branch");
    assert!(split("main/land").is_err(), "a branch outside the prefix is not a transaction");
}

#[test]
fn the_trailing_segment_selects_the_action_and_the_rest_is_the_context_key() {
    assert_eq!(ContextRoute::of("alpha/session-1/prompt"), ContextRoute::Prompt("alpha/session-1".to_string()));
    assert_eq!(
        ContextRoute::of("alpha/session-1/agent-7/prompt"),
        ContextRoute::Prompt("alpha/session-1/agent-7".to_string())
    );
    assert_eq!(ContextRoute::of("alpha/session-1"), ContextRoute::Unknown);
    assert_eq!(ContextRoute::of("prompt"), ContextRoute::Unknown);
    assert_eq!(ContextRoute::of(""), ContextRoute::Unknown);
}

#[test]
fn the_trailing_segments_select_the_sub_resource_and_the_rest_is_the_id() {
    assert_eq!(
        MemoryRoute::of("sessions/alpha/session-1/notes"),
        MemoryRoute::Document("sessions/alpha/session-1/notes".to_string())
    );
    assert_eq!(MemoryRoute::of("bench-power/history"), MemoryRoute::History("bench-power".to_string()));
    assert_eq!(
        MemoryRoute::of("sessions/alpha/session-1/notes/history"),
        MemoryRoute::History("sessions/alpha/session-1/notes".to_string())
    );
    assert_eq!(
        MemoryRoute::of("bench-power/history/abc123"),
        MemoryRoute::HistoryEntry { id: "bench-power".to_string(), oid: "abc123".to_string() }
    );
    assert_eq!(MemoryRoute::of(""), MemoryRoute::Unknown);
}

#[test]
fn the_trailing_segment_selects_the_series_and_the_rest_is_the_context_key() {
    assert_eq!(series_key("alpha/session-1/series"), Some("alpha/session-1".to_string()));
    assert_eq!(series_key("alpha/session-1/agent-7/series"), Some("alpha/session-1/agent-7".to_string()));
    assert_eq!(series_key("alpha/session-1"), None);
    assert_eq!(series_key("series"), None);
    assert_eq!(series_key(""), None);
}

#[test]
fn a_branch_name_outside_the_prefix_is_refused_with_the_form_it_must_take() {
    let refused = split("main/land").expect_err("not a transaction");
    assert_eq!(refused.status, 400);
}
