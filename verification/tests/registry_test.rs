use forgetmenot::catalog::Settings;
use forgetmenot::context::{ContextKey, ContextState};
use forgetmenot::engine::sorted_insert;
use forgetmenot::registry::{
    contexts, machine_names, scope_index, to_current, ContextRecord, ContextRegistry, Creation, Inheritance,
    RegistrySnapshot, CURRENT_VERSION,
};
use forgetmenot::catalog::{Catalog, MemoryEntry, MemoryKind, ScopeEntry};
use forgetmenot::scopes::ScopeKind;

/// The directory the harness was started in, which these tests follow from the
/// session that reported it to the places that must still have it.
const STARTED_IN: &str = "/start/project";

const NOW: i64 = 1_750_000_000;

/// A context created by a caller that names no spawner, under a store that
/// asks for a subagent to start with its parent's scopes.
fn under_a_session() -> Creation {
    Creation { inheritance: Inheritance::FromParent, parent: None }
}

/// The same, for a subagent `parent` spawned.
fn spawned_by(parent: &ContextKey) -> Creation {
    Creation { inheritance: Inheritance::FromParent, parent: Some(parent.clone()) }
}

fn turn_on(registry: &mut ContextRegistry, at: usize, scope: &str) {
    sorted_insert(&mut registry.contexts[at].state.active, &scope.to_string());
}

fn holds(active: &[String], scope: &str) -> bool {
    active.iter().any(|s| s == scope)
}

#[test]
fn a_subagent_starts_with_the_session_directory_of_the_session_it_runs_in() {
    let mut registry = ContextRegistry::new(0, None);
    let session = ContextKey::main("alpha", "session-1");
    let at = registry.handle(&session, NOW, &under_a_session());
    registry.contexts[at].state.session_directory = Some(STARTED_IN.to_string());
    turn_on(&mut registry, at, "widgets");

    let child = ContextKey::subagent("alpha", "session-1", "agent-7");
    let at = registry.handle(&child, NOW, &Creation { inheritance: Inheritance::ImplicitOnly, parent: None });
    let state = &registry.contexts[at].state;

    assert_eq!(
        state.session_directory.as_deref(),
        Some(STARTED_IN),
        "the subagent runs in the session that began in {STARTED_IN}"
    );
    assert!(
        !holds(&state.active, "widgets"),
        "this store starts a subagent from the implicit scopes, so the directory cannot have come with \
         the scopes, got {:?}",
        state.active
    );
}

#[test]
fn a_snapshot_keeps_the_directory_each_session_was_started_in() {
    let key = ContextKey::main("alpha", "session-1");
    let mut registry = ContextRegistry::new(0, None);
    let at = registry.handle(&key, NOW, &under_a_session());
    registry.contexts[at].state.session_directory = Some(STARTED_IN.to_string());

    let snapshot = registry.snapshot(NOW);
    let mut loaded = ContextRegistry::from_snapshot(snapshot, 0, None, NOW);

    let at = loaded.handle(&key, NOW, &under_a_session());
    assert_eq!(
        loaded.contexts[at].state.session_directory.as_deref(),
        Some(STARTED_IN),
        "a session picked up after a restart began where it began"
    );
}

#[test]
fn a_subagent_inherits_from_the_agent_that_spawned_it_rather_than_from_its_session() {
    let mut registry = ContextRegistry::new(0, None);
    let session = ContextKey::main("alpha", "session-1");
    let at = registry.handle(&session, NOW, &under_a_session());
    turn_on(&mut registry, at, "paint");
    let child = ContextKey::subagent("alpha", "session-1", "agent-1");
    let at = registry.handle(&child, NOW, &under_a_session());
    turn_on(&mut registry, at, "lathe");

    let grandchild = ContextKey::subagent("alpha", "session-1", "agent-1-1");
    let at = registry.handle(&grandchild, NOW, &spawned_by(&child));
    let inherited = registry.contexts[at].state.active.clone();
    let recorded = registry.contexts[at].state.parent.clone();
    let sibling = ContextKey::subagent("alpha", "session-1", "agent-2");
    let at = registry.handle(&sibling, NOW, &under_a_session());
    let by_the_session = registry.contexts[at].state.active.clone();

    assert!(
        holds(&inherited, "paint") && holds(&inherited, "lathe"),
        "the grandchild starts with the scopes the agent that spawned it was working in, got {inherited:?}"
    );
    assert_eq!(recorded, Some(child), "the context a subagent inherited from is the one recorded as its parent");
    assert!(
        holds(&by_the_session, "paint") && !holds(&by_the_session, "lathe"),
        "a subagent the session spawned starts with the session's scopes and not with another subagent's, \
         got {by_the_session:?}"
    );
}

#[test]
fn a_subagent_first_seen_by_a_call_that_names_no_spawner_is_recorded_under_its_session() {
    let mut registry = ContextRegistry::new(0, None);
    let key = ContextKey::subagent("alpha", "session-1", "agent-1");

    let at = registry.handle(&key, NOW, &Creation::in_session(&Settings::defaults()));

    assert_eq!(
        registry.contexts[at].state.parent,
        Some(ContextKey::main("alpha", "session-1")),
        "the session the subagent runs in is all its key says, so it is the parent"
    );
    // The session itself was made on the way, from the implicit scopes.
    assert_eq!(registry.contexts.len(), 2);
}

#[test]
fn a_session_seen_for_the_first_time_starts_in_the_three_implicit_scopes() {
    let mut registry = ContextRegistry::new(0, None);
    let key = ContextKey::main("alpha", "session-9");
    let at = registry.handle(&key, NOW, &under_a_session());
    let state = &registry.contexts[at].state;
    assert_eq!(state.active, vec!["global", "machine:alpha", "session:alpha/session-9"]);
    assert_eq!(state.parent, None);
    assert_eq!(state.last_seen, NOW);
    // Seen again, it is the same context.
    let again = registry.handle(&key, NOW + 5, &under_a_session());
    assert_eq!(again, at);
    assert_eq!(registry.contexts[again].state.last_seen, NOW);
}

#[test]
fn a_context_unseen_for_longer_than_the_retention_is_dropped() {
    let day: i64 = 24 * 60 * 60;
    let mut registry = ContextRegistry::new(0, Some(2));
    assert_eq!(registry.retention, Some(2 * 86_400));
    let old = ContextKey::main("alpha", "old");
    let recent = ContextKey::main("alpha", "recent");
    registry.handle(&old, NOW - 3 * day, &under_a_session());
    registry.handle(&recent, NOW - day, &under_a_session());

    let snapshot = registry.snapshot(NOW);
    assert_eq!(snapshot.version, CURRENT_VERSION);
    assert_eq!(snapshot.contexts.len(), 1);
    assert_eq!(snapshot.contexts[0].key, recent);

    let exactly = ContextState::fresh(vec!["global".to_string()], None, NOW - 2 * day);
    assert!(!registry.is_expired(&exactly, NOW), "an age equal to the window is kept");
    let future = ContextState::fresh(vec!["global".to_string()], None, NOW + day);
    assert!(!registry.is_expired(&future, NOW), "a last sighting in the future is no age");
    let keep_all = ContextRegistry::new(0, None);
    assert!(!keep_all.is_expired(&ContextState::fresh(Vec::new(), None, 0), NOW));
}

#[test]
fn a_snapshot_lists_the_contexts_in_key_order() {
    let mut registry = ContextRegistry::new(0, None);
    for key in [
        ContextKey::main("beta", "s"),
        ContextKey::subagent("alpha", "s", "agent-2"),
        ContextKey::main("alpha", "s"),
    ] {
        registry.handle(&key, NOW, &under_a_session());
    }
    let keys: Vec<String> = registry.snapshot(NOW).contexts.iter().map(|r| r.key.to_string()).collect();
    assert_eq!(keys, vec!["alpha/s/agent-2", "alpha/s", "beta/s"]);
}

#[test]
fn a_version_zero_snapshot_gives_each_orphan_subagent_its_session() {
    let orphan = ContextKey::subagent("alpha", "s", "agent-3");
    let spawned = ContextKey::subagent("alpha", "s", "agent-4");
    let spawner = ContextKey::subagent("alpha", "s", "agent-3");
    let mut snapshot = RegistrySnapshot {
        version: 0,
        contexts: vec![
            ContextRecord { key: orphan.clone(), state: ContextState::fresh(Vec::new(), None, NOW) },
            ContextRecord { key: spawned.clone(), state: ContextState::fresh(Vec::new(), Some(spawner.clone()), NOW) },
        ],
    };
    to_current(&mut snapshot);
    assert_eq!(snapshot.version, 1);
    assert_eq!(snapshot.contexts[0].state.parent, Some(ContextKey::main("alpha", "s")));
    assert_eq!(snapshot.contexts[1].state.parent, Some(spawner));

    // A snapshot already current is read as it stands.
    let mut current = RegistrySnapshot {
        version: 1,
        contexts: vec![ContextRecord { key: orphan, state: ContextState::fresh(Vec::new(), None, NOW) }],
    };
    to_current(&mut current);
    assert_eq!(current.contexts[0].state.parent, None);
}

#[test]
fn the_contexts_page_lists_the_most_recently_seen_first_and_ties_by_key() {
    let mut registry = ContextRegistry::new(0, None);
    let a = ContextKey::main("alpha", "a");
    let b = ContextKey::main("alpha", "b");
    let c = ContextKey::subagent("alpha", "a", "agent-1");
    registry.handle(&a, NOW, &under_a_session());
    registry.handle(&b, NOW + 10, &under_a_session());
    let at = registry.handle(&c, NOW, &under_a_session());
    registry.contexts[at].state.task = Some("  sand the   panel ".to_string());

    let rows = contexts(&registry.snapshot(NOW + 10));
    let keys: Vec<&str> = rows.iter().map(|r| r.key.as_str()).collect();
    assert_eq!(keys, vec!["alpha/b", "alpha/a/agent-1", "alpha/a"]);
    let child = &rows[1];
    assert_eq!(child.name, "sand the panel");
    assert_eq!(child.parent.as_deref(), Some("alpha/a"));
    assert_eq!(child.last_seen, NOW);
    assert_eq!(child.delivered_count, 0);
    assert_eq!(rows[0].active_scopes, vec!["global", "machine:alpha", "session:alpha/b"]);
}

#[test]
fn the_machines_are_the_recorded_ones_and_those_with_contexts_each_once() {
    let mut registry = ContextRegistry::new(0, None);
    registry.handle(&ContextKey::main("gamma", "s"), NOW, &under_a_session());
    registry.handle(&ContextKey::main("alpha", "s"), NOW, &under_a_session());
    registry.handle(&ContextKey::subagent("alpha", "s", "agent-1"), NOW, &under_a_session());
    let recorded = vec!["beta".to_string(), "alpha".to_string()];
    assert_eq!(machine_names(&registry.snapshot(NOW), &recorded), vec!["alpha", "beta", "gamma"]);
}

fn scope_file(id: &str, implies: &[&str]) -> ScopeEntry {
    ScopeEntry {
        message: None,
        id: id.to_string(),
        implies: implies.iter().map(|s| s.to_string()).collect(),
        triggers: Vec::new(),
        forget: None,
        version: format!("s-{id}"),
    }
}

fn note(id: &str, scopes: &[&str]) -> MemoryEntry {
    MemoryEntry {
        id: id.to_string(),
        kind: MemoryKind::Knowledge,
        scopes: scopes.iter().map(|s| s.to_string()).collect(),
        version: "v1".to_string(),
        name: id.to_string(),
        title: id.to_string(),
        description: format!("about {id}"),
        source: "user".to_string(),
        modified: None,
        body: String::new(),
        message_of: None,
    }
}

#[test]
fn the_scope_index_holds_every_scope_that_exists_and_no_other() {
    let catalog = Catalog {
        memories: vec![
            note("bench-power", &["global", "paperwork"]),
            note("sessions/beta/s9/todo", &["session:beta/s9"]),
            note("solder-notes", &["soldering", "machine:alpha"]),
        ],
        scopes: vec![scope_file("electronics", &[]), scope_file("soldering", &["electronics"]), scope_file("widgets", &[])],
        settings: Settings::defaults(),
    };
    let mut registry = ContextRegistry::new(0, None);
    let at = registry.handle(&ContextKey::main("alpha", "one"), NOW, &under_a_session());
    registry.contexts[at].state.session_title = Some("Bench   work".to_string());
    registry.handle(&ContextKey::subagent("alpha", "one", "agent-1"), NOW, &under_a_session());
    let rows = scope_index(&catalog, &registry.snapshot(NOW), &vec!["gamma".to_string()]);
    let ids: Vec<&str> = rows.iter().map(|r| r.id.as_str()).collect();
    assert_eq!(
        ids,
        vec![
            "electronics",
            "global",
            "machine:alpha",
            "machine:gamma",
            "session:alpha/one",
            "session:beta/s9",
            "soldering",
            "widgets",
        ],
        "`paperwork` has no file, so naming it makes no scope"
    );
    assert_eq!(rows[0].kind, ScopeKind::Defined);
    assert_eq!(rows[0].file.as_ref().map(|d| d.version.as_str()), Some("s-electronics"));
    assert_eq!(rows[1].kind, ScopeKind::Global);
    assert!(rows[1].file.is_none());
    assert_eq!(rows[4].kind, ScopeKind::Session);
    assert_eq!(rows[4].name.as_deref(), Some("Bench work"));
    assert_eq!(rows[5].name, None);
}
