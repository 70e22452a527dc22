use forgetmenot::catalog::{Catalog, MemoryEntry, MemoryKind, ScopeEntry, Settings};
use forgetmenot::context::ContextKey;
use forgetmenot::operations::{review, scope_get, OperationError, ValidationMessage, WriteMode};
use forgetmenot::sessions::tool_call_row;
use forgetmenot::writes::{
    commit_step, link_text_for, rename_plan, scope_write_check, settings_write_check, CommitStep, FileChange,
};

const V1: &str = "1111111111111111111111111111111111111111";
const V2: &str = "2222222222222222222222222222222222222222";

fn memory(id: &str, kind: MemoryKind, scopes: &[&str], version: &str) -> MemoryEntry {
    MemoryEntry {
        id: id.to_string(),
        kind,
        scopes: scopes.iter().map(|s| s.to_string()).collect(),
        version: version.to_string(),
        name: id.rsplit('/').next().unwrap_or(id).to_string(),
        title: id.to_string(),
        description: id.to_string(),
        source: "user".to_string(),
        modified: None,
        body: String::new(),
        message_of: None,
    }
}

fn scope(id: &str, version: &str) -> ScopeEntry {
    ScopeEntry {
        id: id.to_string(),
        implies: vec![],
        triggers: vec![],
        forget: Some(5000),
        message: Some("Keep the bench tidy.".to_string()),
        version: version.to_string(),
    }
}

fn catalog(memories: Vec<MemoryEntry>) -> Catalog {
    Catalog { memories, scopes: vec![scope("bench", V1)], settings: Settings::defaults() }
}

fn conflict_version(error: &OperationError) -> Option<&str> {
    match error {
        OperationError::Conflict { version, .. } => version.as_deref(),
        _ => None,
    }
}

fn problems(error: &OperationError) -> Vec<(String, String)> {
    match error {
        OperationError::Invalid { errors } => errors.iter().map(|e| (e.path.clone(), e.message.clone())).collect(),
        other => panic!("expected a refusal with problems, got {other:?}"),
    }
}

#[test]
fn a_scope_document_carries_its_message_and_its_forget_rule() {
    let store = catalog(vec![]);
    let doc = scope_get(&store, &"bench".to_string()).expect("the scope has a file");
    assert_eq!(doc.message.as_deref(), Some("Keep the bench tidy."));
    assert_eq!(doc.forget, Some(5000));
    assert_eq!(doc.version, V1);
}

#[test]
fn a_scope_write_replaces_the_version_it_was_read_from_or_is_refused() {
    let store = catalog(vec![]);
    let bench = "bench".to_string();
    let other = "other".to_string();

    let taken = scope_write_check(&store, &bench, WriteMode::Create, &None).unwrap_err();
    assert_eq!(conflict_version(&taken), Some(V1));
    assert_eq!(taken.status(), 409);
    assert_eq!(taken.message(), "the scope `bench` has changed since it was read");
    assert_eq!(scope_write_check(&store, &other, WriteMode::Create, &None).unwrap(), None);

    match scope_write_check(&store, &other, WriteMode::Update, &Some(V1.to_string())) {
        Err(OperationError::NotFound { what }) => assert_eq!(what, "the scope `other`"),
        result => panic!("expected a missing scope, got {result:?}"),
    }
    let unversioned = scope_write_check(&store, &bench, WriteMode::Update, &None).unwrap_err();
    assert_eq!(
        problems(&unversioned),
        vec![(
            "scopes/bench.yaml".to_string(),
            format!(
                "base_version is required: a write replaces the version it was read from; the current version is {V1}"
            )
        )]
    );
    assert_eq!(scope_write_check(&store, &bench, WriteMode::Update, &Some(V1.to_string())).unwrap(), Some(V1.to_string()));
    let stale = scope_write_check(&store, &bench, WriteMode::Update, &Some(V2.to_string())).unwrap_err();
    assert_eq!(conflict_version(&stale), Some(V1));
    let unreadable = scope_write_check(&store, &bench, WriteMode::Update, &Some("not a version".to_string())).unwrap_err();
    assert_eq!(
        problems(&unreadable),
        vec![("scopes/bench.yaml".to_string(), "base_version is not a version of this document".to_string())]
    );
}

#[test]
fn a_commit_is_refused_retried_or_made_in_that_order() {
    let title = "memory: bench-power".to_string();
    let expected = vec![("memories/a.md".to_string(), Some(V1.to_string())), ("memories/b.md".to_string(), None)];
    let matching = vec![Some(V1.to_string()), None];
    let moved = vec![Some(V1.to_string()), Some(V2.to_string())];

    assert!(matches!(commit_step(&"two\nlines".to_string(), &expected, &matching, 0, false), CommitStep::BadMessage));
    assert!(matches!(commit_step(&title, &expected, &matching, 0, false), CommitStep::Commit));
    match commit_step(&title, &expected, &moved, 0, false) {
        CommitStep::VersionMismatch { path, current } => {
            assert_eq!(path, "memories/b.md");
            assert_eq!(current.as_deref(), Some(V2));
        }
        other => panic!("expected a mismatch, got {other:?}"),
    }
    assert!(matches!(commit_step(&title, &expected, &matching, 0, true), CommitStep::Retry));
    assert!(matches!(commit_step(&title, &expected, &matching, 1, true), CommitStep::Conflict));
}

#[test]
fn a_rename_moves_the_file_and_rewrites_every_link_to_it() {
    let store = catalog(vec![
        memory("bench-power", MemoryKind::Critical, &["global"], V1),
        memory("rig-notes", MemoryKind::Knowledge, &["bench"], V2),
        memory("wiring", MemoryKind::Knowledge, &["bench"], V1),
    ]);
    let from = "bench-power".to_string();
    let to = "bench-safety".to_string();
    let links = vec![
        ("wiring".to_string(), vec!["bench-power".to_string()]),
        ("rig-notes".to_string(), vec!["bench-power".to_string(), "[[bench-power]]".to_string()]),
    ];
    let plan = rename_plan(&store, &from, &to, &None, &"rename bench-power".to_string(), &links).expect("a plan");
    let paths: Vec<&str> = plan.files.iter().map(|f| f.path.as_str()).collect();
    assert_eq!(paths, vec!["memories/bench-safety.md", "memories/bench-power.md", "memories/rig-notes.md", "memories/wiring.md"]);
    assert!(matches!(&plan.files[0].change, FileChange::Moved { from } if from == "memories/bench-power.md"));
    assert!(matches!(plan.files[1].change, FileChange::Removed));
    match &plan.files[2].change {
        FileChange::Rewritten { targets, replacement } => {
            assert_eq!(targets.len(), 2);
            assert_eq!(replacement, "bench-safety");
        }
        other => panic!("expected a rewrite, got {other:?}"),
    }
    assert_eq!(plan.expected[0], ("memories/bench-safety.md".to_string(), None));
    assert_eq!(plan.expected[1], ("memories/bench-power.md".to_string(), Some(V1.to_string())));
    assert_eq!(plan.expected[2], ("memories/rig-notes.md".to_string(), Some(V2.to_string())));

    match rename_plan(&store, &"missing".to_string(), &to, &None, &"m".to_string(), &links) {
        Err(OperationError::NotFound { what }) => assert_eq!(what, "the memory `missing`"),
        other => panic!("expected a missing memory, got {other:?}"),
    }
    let same = rename_plan(&store, &from, &from, &None, &"m".to_string(), &links).unwrap_err();
    assert_eq!(
        problems(&same),
        vec![(
            "memories/bench-power.md".to_string(),
            "the memory already has this id, so there is nothing to move".to_string()
        )]
    );
    let stale = rename_plan(&store, &from, &to, &Some(V2.to_string()), &"m".to_string(), &links).unwrap_err();
    assert_eq!(conflict_version(&stale), Some(V1));
}

#[test]
fn a_rename_into_a_silo_is_refused_for_every_memory_outside_it() {
    let store = catalog(vec![
        memory("bench-power", MemoryKind::Critical, &["global"], V1),
        memory("wiring", MemoryKind::Knowledge, &["bench"], V1),
    ]);
    let links = vec![("wiring".to_string(), vec!["bench-power".to_string()])];
    let refused = rename_plan(
        &store,
        &"bench-power".to_string(),
        &"sessions/alpha/session-1/power".to_string(),
        &None,
        &"two\nlines".to_string(),
        &links,
    )
    .unwrap_err();
    assert_eq!(
        problems(&refused),
        vec![
            (
                "memories/sessions/alpha/session-1/power.md".to_string(),
                "the commit message must be one non-empty line of at most 72 characters".to_string()
            ),
            (
                "memories/wiring.md".to_string(),
                "links to `bench-power`, which the rename would move into session silo `alpha/session-1`; only memories in that silo may link to it"
                    .to_string()
            ),
        ]
    );
    assert_eq!(
        link_text_for(&"sessions/alpha/session-1/notes".to_string(), &"sessions/alpha/session-1/power".to_string()),
        "power"
    );
    assert_eq!(link_text_for(&"wiring".to_string(), &"sessions/alpha/session-1/power".to_string()), "sessions/alpha/session-1/power");
}

#[test]
fn the_review_lists_the_critical_memories_scoped_to_global() {
    let store = catalog(vec![
        memory("bench-power", MemoryKind::Critical, &["global"], V1),
        memory("rig-notes", MemoryKind::Knowledge, &["global"], V1),
        memory("wiring", MemoryKind::Critical, &["bench"], V1),
    ]);
    let warning = ValidationMessage { path: "notes.txt".to_string(), message: "not a memory".to_string() };
    let report = review(&store, vec![], vec![warning]);
    assert_eq!(report.global_only_critical, vec!["bench-power".to_string()]);
    assert!(report.errors.is_empty());
    assert_eq!(report.warnings.len(), 1);
}

#[test]
fn a_refused_session_call_is_recorded_as_not_ok() {
    let key = ContextKey::main("alpha", "session-1");
    let row = tool_call_row("session_scope_off", &key, &vec!["global".to_string(), "bench".to_string()], false);
    assert_eq!(row.tool, "session_scope_off");
    assert_eq!(row.session_key, "alpha/session-1");
    assert_eq!(row.scope.as_deref(), Some("global, bench"));
    assert!(!row.ok);
    assert_eq!(tool_call_row("session_scopes", &key, &vec![], true).scope, None);
}

#[test]
fn a_version_names_its_object_whatever_the_case_of_its_digits() {
    let version = "abcdef0123456789abcdef0123456789abcdef01";
    let mut store = catalog(vec![]);
    store.scopes[0].version = version.to_string();
    let bench = "bench".to_string();
    let upper = version.to_uppercase();
    assert_eq!(
        scope_write_check(&store, &bench, WriteMode::Update, &Some(upper)).unwrap(),
        Some(version.to_string())
    );
    let expected = vec![("scopes/bench.yaml".to_string(), Some(version.to_uppercase()))];
    assert!(matches!(
        commit_step(&"scope: bench".to_string(), &expected, &vec![Some(version.to_string())], 0, false),
        CommitStep::Commit
    ));
}

#[test]
fn a_settings_write_replaces_the_version_it_was_read_from_or_is_refused() {
    let title = "settings: reminders".to_string();
    let current = Some(V1.to_string());
    assert_eq!(settings_write_check(&current, &None, &title).unwrap(), Some(V1.to_string()));
    assert_eq!(settings_write_check(&None, &None, &title).unwrap(), None);
    assert_eq!(settings_write_check(&current, &Some(V1.to_string()), &title).unwrap(), Some(V1.to_string()));
    let stale = settings_write_check(&current, &Some(V2.to_string()), &title).unwrap_err();
    assert_eq!(conflict_version(&stale), Some(V1));
    assert_eq!(stale.message(), "config.yml has changed since it was read");
    let first = settings_write_check(&None, &Some(V1.to_string()), &title).unwrap_err();
    assert!(matches!(first, OperationError::Conflict { version: None, .. }));
    assert_eq!(
        problems(&settings_write_check(&current, &Some("v1".to_string()), &title).unwrap_err()),
        vec![("config.yml".to_string(), "base_version is not a version of this document".to_string())]
    );
    assert_eq!(
        problems(&settings_write_check(&current, &None, &"two\nlines".to_string()).unwrap_err()),
        vec![(
            "config.yml".to_string(),
            "the commit message must be one non-empty line of at most 72 characters".to_string()
        )]
    );
}
