use forgetmenot::catalog::{Catalog, MemoryEntry, MemoryKind, ScopeEntry, Settings};
use forgetmenot::context::{
    outdated_versions, previous_texts, ContextKey, ContextState, Delivered, Form, ReadVersion, Shown,
};
use forgetmenot::operations::{scope_references, OperationError};
use forgetmenot::report::{
    column_widths, pad, report_lines, table_lines, DenyDayRow, LatencyRow, MemoryStatsRow, SessionBytesRow, StatsReport,
    TriggerStatsRow,
};
use forgetmenot::context::compute_needs;
use forgetmenot::sessions::{
    is_known_scope, note_own_writes, session_inherit, session_scope_off, session_scope_on, session_scopes_of,
};

fn scope(id: &str, implies: &[&str], forget: Option<u64>) -> ScopeEntry {
    ScopeEntry {
        message: None,
        id: id.to_string(),
        implies: implies.iter().map(|s| s.to_string()).collect(),
        triggers: Vec::new(),
        forget,
        version: format!("s-{id}"),
    }
}

fn memory(id: &str, kind: MemoryKind, scopes: &[&str], version: &str) -> MemoryEntry {
    MemoryEntry {
        id: id.to_string(),
        kind,
        scopes: scopes.iter().map(|s| s.to_string()).collect(),
        version: version.to_string(),
        name: id.to_string(),
        title: id.to_string(),
        description: format!("about {id}"),
        source: "user".to_string(),
        modified: None,
        body: format!("the body of {id}"),
        message_of: None,
    }
}

fn catalog() -> Catalog {
    Catalog {
        memories: vec![
            memory("bench-power", MemoryKind::Critical, &["global"], "v1"),
            memory("solder-notes", MemoryKind::Knowledge, &["soldering", "machine:alpha"], "v7"),
        ],
        scopes: vec![
            scope("electronics", &[], None),
            scope("soldering", &["electronics"], Some(5_000)),
            scope("widgets", &[], None),
        ],
        settings: Settings::defaults(),
    }
}

fn strings(items: &[&str]) -> Vec<String> {
    items.iter().map(|s| s.to_string()).collect()
}

fn context() -> ContextState {
    let mut state = ContextState::fresh(strings(&["global", "machine:alpha", "session:alpha/one"]), None, 0);
    state.tokens = Some(1_200);
    state
}

#[test]
fn turning_a_scope_on_brings_what_it_implies() {
    let catalog = catalog();
    let mut state = context();
    let answer = session_scope_on(&mut state, &strings(&["soldering"]), &catalog, 40).expect("known");
    assert_eq!(
        answer.active,
        strings(&["electronics", "global", "machine:alpha", "session:alpha/one", "soldering"])
    );
    assert_eq!(answer.available, strings(&["widgets"]));
    assert_eq!(state.active, answer.active);
    assert_eq!(state.last_seen, 40);
    // Only a scope with a forget rule counts its activation.
    assert_eq!(state.activated_at.len(), 1);
    assert_eq!(state.activated_at[0].scope, "soldering");
    assert_eq!(state.activated_at[0].tokens, 1_200);
}

#[test]
fn a_list_naming_an_unknown_scope_turns_nothing_on() {
    let catalog = catalog();
    let mut state = context();
    let before = state.clone();
    match session_scope_on(&mut state, &strings(&["widgets", "gardening", "painting"]), &catalog, 40) {
        Err(OperationError::UnknownScope { id }) => assert_eq!(id, "gardening"),
        other => panic!("expected an unknown scope, got {other:?}"),
    }
    assert_eq!(state.active, before.active);
    assert_eq!(state.last_seen, before.last_seen);
}

#[test]
fn an_empty_list_is_refused() {
    let catalog = catalog();
    let mut state = context();
    assert!(matches!(
        session_scope_on(&mut state, &Vec::new(), &catalog, 1),
        Err(OperationError::EmptyScopeList)
    ));
    assert!(matches!(
        session_scope_off(&mut state, &Vec::new(), &catalog, 1),
        Err(OperationError::EmptyScopeList)
    ));
    assert_eq!(state.last_seen, 0);
}

#[test]
fn a_scope_is_known_by_its_file_or_by_a_file_that_names_it() {
    let catalog = catalog();
    assert!(is_known_scope(&catalog, &"global".to_string()));
    assert!(is_known_scope(&catalog, &"widgets".to_string()));
    assert!(is_known_scope(&catalog, &"machine:alpha".to_string()));
    assert!(!is_known_scope(&catalog, &"machine:beta".to_string()));
    assert!(!is_known_scope(&catalog, &"gardening".to_string()));
}

#[test]
fn turning_a_scope_off_leaves_what_it_implied_on() {
    let catalog = catalog();
    let mut state = context();
    session_scope_on(&mut state, &strings(&["soldering"]), &catalog, 40).expect("known");
    let answer = session_scope_off(&mut state, &strings(&["soldering"]), &catalog, 50).expect("defined");
    assert_eq!(answer.active, strings(&["electronics", "global", "machine:alpha", "session:alpha/one"]));
    assert_eq!(answer.available, strings(&["soldering", "widgets"]));
    assert_eq!(state.last_seen, 50);
}

#[test]
fn the_implicit_scopes_cannot_be_turned_off() {
    let catalog = catalog();
    let mut state = context();
    match session_scope_off(&mut state, &strings(&["widgets", "machine:alpha"]), &catalog, 9) {
        Err(OperationError::ImplicitScope { id }) => assert_eq!(id, "machine:alpha"),
        other => panic!("expected an implicit scope, got {other:?}"),
    }
    assert_eq!(state.active, context().active);
    let refusal = OperationError::ImplicitScope { id: "global".to_string() };
    assert_eq!(refusal.message(), "`global` is always on for a session and cannot be turned off");
    assert_eq!(refusal.status(), 400);
}

#[test]
fn inheriting_takes_the_other_session_s_scopes_and_its_own_scope() {
    let catalog = catalog();
    let mut state = context();
    let mut other = ContextState::fresh(strings(&["global", "machine:beta", "widgets"]), None, 0);
    other.tokens = None;
    let from = ContextKey::parse("beta/two").expect("a key");
    let answer = session_inherit(&mut state, &from, Some(&other), &catalog, 77).expect("seen");
    assert_eq!(
        answer.active,
        strings(&["global", "machine:alpha", "machine:beta", "session:alpha/one", "session:beta/two", "widgets"])
    );
    assert_eq!(answer.available, strings(&["electronics", "soldering"]));
    assert_eq!(state.last_seen, 77);
}

#[test]
fn inheriting_from_a_session_nobody_has_seen_is_refused() {
    let catalog = catalog();
    let mut state = context();
    let from = ContextKey::parse("beta/ghost").expect("a key");
    match session_inherit(&mut state, &from, None, &catalog, 77) {
        Err(error @ OperationError::UnknownSession { .. }) => {
            assert_eq!(error.message(), "no session `beta/ghost` has been seen by this server");
        }
        other => panic!("expected an unknown session, got {other:?}"),
    }
    assert_eq!(state.last_seen, 0);
}

#[test]
fn the_available_scopes_are_the_files_not_active() {
    let catalog = catalog();
    let answer = session_scopes_of(&catalog, strings(&["global", "widgets"]));
    assert_eq!(answer.available, strings(&["electronics", "soldering"]));
    assert_eq!(answer.active, strings(&["global", "widgets"]));
}

#[test]
fn refusals_say_what_was_refused_and_answer_with_a_status() {
    let unknown = OperationError::UnknownScope { id: "gardening".to_string() };
    assert_eq!(unknown.message(), "`gardening` is not a scope in this store");
    assert_eq!(unknown.status(), 400);
    let missing = OperationError::NotFound { what: "the memory `x`".to_string() };
    assert_eq!(missing.message(), "the memory `x` does not exist");
    assert_eq!(missing.status(), 404);
    let no_file = OperationError::ScopeHasNoFile { id: "global".to_string() };
    assert_eq!(no_file.message(), "the scope `global` has no file to read");
    assert_eq!(no_file.status(), 404);
    assert_eq!(OperationError::EmptyScopeList.message(), "the list names no scope to change");
}

fn delivered(id: &str, version: &str, form: Form) -> Delivered {
    Delivered { id: id.to_string(), shown: Shown { version: version.to_string(), form, tokens: Some(10) } }
}

#[test]
fn only_memories_held_at_another_version_are_outdated() {
    let catalog = catalog();
    let mut state = context();
    state.delivered = vec![
        delivered("bench-power", "v1", Form::Full),
        delivered("gone", "v3", Form::Full),
        delivered("solder-notes", "v6", Form::Index),
    ];
    let outdated = outdated_versions(&state, &catalog);
    assert_eq!(outdated.len(), 1);
    assert_eq!(outdated[0].id, "solder-notes");
    assert_eq!(outdated[0].version, "v6");
    assert_eq!(outdated[0].kind, MemoryKind::Knowledge);
}

#[test]
fn an_earlier_text_of_another_kind_is_not_kept() {
    let catalog = catalog();
    let mut state = context();
    state.delivered = vec![delivered("bench-power", "v0", Form::Full), delivered("solder-notes", "v6", Form::Index)];
    let outdated = outdated_versions(&state, &catalog);
    assert_eq!(outdated.len(), 2);
    let read = vec![
        Some(ReadVersion { kind: MemoryKind::Knowledge, text: "was a reference".to_string() }),
        Some(ReadVersion { kind: MemoryKind::Knowledge, text: "about solder".to_string() }),
    ];
    let texts = previous_texts(&outdated, &read);
    assert_eq!(texts.len(), 1);
    assert_eq!(texts[0].id, "solder-notes");
    assert_eq!(texts[0].text, "about solder");
    let none = previous_texts(&outdated, &vec![None, None]);
    assert!(none.is_empty());
}

#[test]
fn each_column_is_as_wide_as_its_widest_cell() {
    let headers = strings(&["scope_id", "activations"]);
    let rows = vec![strings(&["electronics", "3"]), strings(&["widgets", "12"])];
    assert_eq!(column_widths(&headers, &rows), vec![11, 11]);
    let widths = vec![11, 11];
    assert_eq!(pad(&strings(&["widgets", "12"]), &widths), "widgets      12");
    assert_eq!(pad(&strings(&["électronique", ""]), &widths), "électronique");
}

#[test]
fn a_table_is_its_name_its_header_its_rows_and_an_empty_line() {
    let headers = strings(&["day", "denies", "events"]);
    let rows = vec![strings(&["2025-03-01", "2", "40"]), strings(&["2025-03-02", "0", "7"])];
    let lines = table_lines("denies", &headers, &rows);
    assert_eq!(
        lines,
        strings(&[
            "denies",
            "  day         denies  events",
            "  2025-03-01  2       40",
            "  2025-03-02  0       7",
            "",
        ])
    );
}

#[test]
fn a_scope_still_named_by_a_memory_or_implied_by_another_scope_lists_each_file() {
    let catalog = catalog();
    let problems = scope_references(&catalog, &"soldering".to_string());
    assert_eq!(problems.len(), 1);
    assert_eq!(problems[0].path, "memories/solder-notes.md");
    assert_eq!(problems[0].message, "is in the scope `soldering`, which cannot be deleted while a memory is in it");
    let problems = scope_references(&catalog, &"electronics".to_string());
    assert_eq!(problems.len(), 1);
    assert_eq!(problems[0].path, "scopes/soldering.yaml");
    assert_eq!(problems[0].message, "implies the scope `electronics`, which cannot be deleted while a scope implies it");
    assert!(scope_references(&catalog, &"widgets".to_string()).is_empty());
}

#[test]
fn a_writer_is_not_delivered_its_own_write_or_told_of_its_own_deletion() {
    let mut catalog = catalog();
    let mut state = context();
    state.delivered = vec![delivered("bench-power", "v0", Form::Full), delivered("gone", "v3", Form::Full)];
    catalog.memories[0].version = "v2".to_string();
    note_own_writes(&mut state, &strings(&["bench-power", "gone"]), &catalog, 99);
    assert_eq!(state.delivered.len(), 1);
    assert_eq!(state.delivered[0].id, "bench-power");
    assert_eq!(state.delivered[0].shown.version, "v2");
    assert_eq!(state.delivered[0].shown.tokens, None);
    assert_eq!(state.last_seen, 99);
    let needs = compute_needs(&catalog, &state, Some(50_000), &Vec::new());
    let written = "bench-power".to_string();
    assert!(!needs.new.contains(&written) && !needs.changed.contains(&written) && !needs.stale.contains(&written));
    assert!(needs.retracted.iter().all(|r| r.id != "gone"));
    // A memory the writer did not write is delivered as usual.
    assert_eq!(needs.new, strings(&["solder-notes"]));
}

#[test]
fn a_refused_document_tells_the_model_each_problem_on_a_line_of_its_own() {
    let catalog = catalog();
    let refusal = OperationError::Invalid { errors: scope_references(&catalog, &"soldering".to_string()) };
    assert_eq!(refusal.status(), 422);
    assert_eq!(refusal.message(), "the write was refused: 1 problem(s) in the document");
    assert_eq!(
        refusal.tool_failure(),
        "the write was refused: 1 problem(s) in the document\n\
         memories/solder-notes.md: is in the scope `soldering`, which cannot be deleted while a memory is in it"
    );
    let unknown = OperationError::UnknownScope { id: "gardening".to_string() };
    assert_eq!(unknown.tool_failure(), unknown.message());
}

#[test]
fn the_statistics_report_is_one_table_per_aggregate() {
    let report = StatsReport {
        memories: vec![MemoryStatsRow {
            memory: "bench-power".to_string(),
            shown_index: 0,
            shown_full_new: 3,
            shown_full_changed: 1,
            shown_full_stale: 12,
            fetched_full: 0,
            retracted: 0,
            last_shown: None,
        }],
        triggers: vec![TriggerStatsRow {
            scope_id: "widgets".to_string(),
            field: "any".to_string(),
            pattern: "widget".to_string(),
            fires: 40,
            new_activations: 2,
            deny_share: "0.25".to_string(),
        }],
        scopes: Vec::new(),
        denies: vec![DenyDayRow { day: "2025-03-01".to_string(), denies: 2, events: 40 }],
        latency: vec![LatencyRow {
            event: "PreToolUse".to_string(),
            count: 9,
            p50_us: 410,
            p90_us: 900,
            p99_us: 1500,
            max_us: 2048,
        }],
        sessions: vec![SessionBytesRow { session_key: "alpha/one".to_string(), bytes_full: 5120, bytes_index: 300 }],
    };
    let lines = report_lines(&report);
    assert_eq!(
        lines,
        strings(&[
            "memories",
            "  memory       shown_index  shown_full_new  shown_full_changed  shown_full_stale  fetched_full  retracted  last_shown",
            "  bench-power  0            3               1                   12                0             0",
            "",
            "triggers",
            "  scope_id  field  pattern  fires  new_activations  deny_share",
            "  widgets   any    widget   40     2                0.25",
            "",
            "scopes",
            "  scope_id  activations",
            "",
            "denies",
            "  day         denies  events",
            "  2025-03-01  2       40",
            "",
            "latency",
            "  event       count  p50_us  p90_us  p99_us  max_us",
            "  PreToolUse  9      410     900     1500    2048",
            "",
            "sessions",
            "  session_key  bytes_full  bytes_index",
            "  alpha/one    5120        300",
            "",
        ])
    );
}

#[test]
fn a_session_with_notes_in_the_store_is_a_scope_that_can_be_turned_on() {
    let mut catalog = catalog();
    catalog.memories.push(memory("sessions/beta/s9/todo", MemoryKind::Knowledge, &["global"], "v1"));
    assert!(is_known_scope(&catalog, &"session:beta/s9".to_string()));
    assert!(!is_known_scope(&catalog, &"session:beta/s10".to_string()));
    let mut state = context();
    let answer = session_scope_on(&mut state, &strings(&["session:beta/s9"]), &catalog, 5).expect("known");
    assert!(answer.active.contains(&"session:beta/s9".to_string()));
}
