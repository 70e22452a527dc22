use forgetmenot::catalog::{Catalog, MemoryEntry, MemoryKind, ScopeEntry, Settings, Trigger};
use forgetmenot::context::ContextKey;
use forgetmenot::events::TriggerField;
use forgetmenot::operations::{
    memory_index, memory_index_for, scope_get, scope_index, write_mode, OperationError, WriteMode,
};
use forgetmenot::params::{parse_session_key, MemoryIndexParams, RequestedKind};
use forgetmenot::registry::{Creation, Inheritance};
use forgetmenot::routes::MemoryFilter;

#[test]
fn a_session_key_with_three_parts_names_a_subagent() {
    let key = parse_session_key("alpha/session-1/agent-7").expect("three parts are a key");
    assert_eq!(key, ContextKey::subagent("alpha", "session-1", "agent-7"));
    let main = parse_session_key("alpha/session-1").expect("two parts are a key");
    assert_eq!(main, ContextKey::main("alpha", "session-1"));
}

#[test]
fn a_session_key_with_a_missing_or_extra_part_is_refused() {
    for key in ["", "alpha", "alpha/", "/session-1", "alpha//agent", "a/b/c/d"] {
        assert!(parse_session_key(key).is_err(), "`{key}` names no context and must be refused");
    }
}

#[test]
fn a_refused_session_key_is_named_in_the_refusal() {
    let refused = parse_session_key("alpha").expect_err("one part names no context");
    assert_eq!(
        refused.message,
        "session_key must be `machine/session-id`, or `machine/session-id/agent-id` inside a subagent, not `alpha`"
    );
}

#[test]
fn a_subagent_inherits_what_the_store_says() {
    let mut settings = Settings::defaults();
    assert_eq!(Inheritance::of(&settings), Inheritance::FromParent);
    settings.subagents_inherit_scopes = false;
    assert_eq!(Inheritance::of(&settings), Inheritance::ImplicitOnly);
    let created = Creation::in_session(&settings);
    assert_eq!(created.inheritance, Inheritance::ImplicitOnly);
    assert!(created.parent.is_none());
    let spawned = Creation::spawned_by(&settings, Some(ContextKey::main("alpha", "session-1")));
    assert_eq!(spawned.parent, Some(ContextKey::main("alpha", "session-1")));
}

fn memory(id: &str, kind: MemoryKind, scopes: &[&str]) -> MemoryEntry {
    MemoryEntry {
        id: id.to_string(),
        kind,
        scopes: scopes.iter().map(|s| s.to_string()).collect(),
        version: format!("v-{id}"),
        name: format!("name of {id}"),
        title: format!("title of {id}"),
        description: format!("about {id}"),
        source: "assistant".to_string(),
        modified: Some("2026-01-02T03:04:05Z".to_string()),
        body: "body".to_string(),
        message_of: None,
    }
}

fn catalog() -> Catalog {
    Catalog {
        memories: vec![
            memory("bench-power", MemoryKind::Critical, &["global", "workshop"]),
            memory("reading-list", MemoryKind::Knowledge, &["global"]),
            memory("widget-naming", MemoryKind::Critical, &["widgets"]),
        ],
        scopes: vec![ScopeEntry {
            message: None,
            id: "widgets".to_string(),
            implies: vec!["workshop".to_string()],
            triggers: vec![Trigger { on: Some(TriggerField::UserMessage), pattern: "widget".to_string(), machine: None }],
            forget: None,
            version: "s1".to_string(),
        }],
        
        settings: Settings::defaults(),
    }
}

#[test]
fn the_index_lists_what_the_filter_asks_for_in_id_order() {
    let catalog = catalog();
    let all = memory_index(&catalog, &MemoryFilter { scope: None, kind: None });
    assert_eq!(all.iter().map(|s| s.id.as_str()).collect::<Vec<_>>(), vec!["bench-power", "reading-list", "widget-naming"]);
    assert_eq!(all[0].scopes, vec!["global".to_string(), "workshop".to_string()]);
    assert_eq!(all[0].modified.as_deref(), Some("2026-01-02T03:04:05Z"));
    let critical = memory_index(&catalog, &MemoryFilter { scope: Some("global".to_string()), kind: Some(MemoryKind::Critical) });
    assert_eq!(critical.iter().map(|s| s.id.as_str()).collect::<Vec<_>>(), vec!["bench-power"]);
}

#[test]
fn the_index_tool_keeps_the_memories_carrying_a_scope_asked_for() {
    let catalog = catalog();
    let listed = memory_index_for(
        &catalog,
        &MemoryIndexParams { scopes: Some(vec!["workshop".to_string(), "widgets".to_string()]), kind: None },
    );
    assert_eq!(listed.iter().map(|s| s.id.as_str()).collect::<Vec<_>>(), vec!["bench-power", "widget-naming"]);
    let knowledge = memory_index_for(&catalog, &MemoryIndexParams { scopes: None, kind: Some(RequestedKind::Knowledge) });
    assert_eq!(knowledge.iter().map(|s| s.id.as_str()).collect::<Vec<_>>(), vec!["reading-list"]);
    assert_eq!(RequestedKind::Critical.memory_kind(), MemoryKind::Critical);
}

#[test]
fn a_write_without_a_version_creates_only_where_nothing_is_overwritten() {
    let catalog = catalog();
    assert_eq!(write_mode(&catalog, &"new-rule".to_string(), &None), WriteMode::Create);
    assert_eq!(write_mode(&catalog, &"bench-power".to_string(), &None), WriteMode::Update);
    assert_eq!(write_mode(&catalog, &"new-rule".to_string(), &Some("abc".to_string())), WriteMode::Update);
}

#[test]
fn a_scope_is_read_from_its_file_and_an_implicit_one_has_none() {
    let catalog = catalog();
    let doc = scope_get(&catalog, &"widgets".to_string()).expect("the scope has a file");
    assert_eq!(doc.implies, vec!["workshop".to_string()]);
    assert_eq!(doc.triggers[0].pattern, "widget");
    match scope_get(&catalog, &"global".to_string()) {
        Err(OperationError::ScopeHasNoFile { id }) => assert_eq!(id, "global"),
        other => panic!("global has no file, got {other:?}"),
    }
    match scope_get(&catalog, &"paperwork".to_string()) {
        Err(OperationError::NotFound { what }) => assert_eq!(what, "the scope `paperwork`"),
        other => panic!("paperwork is not in the store, got {other:?}"),
    }
    assert_eq!(scope_index(&catalog).len(), 1);
}
