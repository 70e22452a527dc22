use forgetmenot::catalog::{Catalog, MemoryEntry, MemoryKind, ScopeEntry, Settings, Trigger};
use forgetmenot::context::{ContextState, Delivered, Form, Shown};
use forgetmenot::engine::{
    apply, closure, deliveries_of, handle_event, prompt_needs, verdict, Decision, Outcome, SessionName, DENY_REASON,
};
use forgetmenot::operations::OperationError;
use forgetmenot::prompt::context_prompt;
use forgetmenot::registry::ContextRegistry;
use forgetmenot::events::{plan, EventPlan, HookCommon, HookEvent, Json, TriggerField};
use forgetmenot::patterns::{trigger_test, validate_pattern, PatternRequest, TriggerTestRequest};
use forgetmenot::render::{render, Delivery};
use forgetmenot::routes::PromptMode;

const THRESHOLD: u64 = 1_000;
const START: u64 = 10_000;
const PASSING: &str = "passing";
const RAIL: &str = "the rail";

fn scope(id: &str, implies: &[&str], triggers: Vec<Trigger>, forget: Option<u64>) -> ScopeEntry {
    ScopeEntry {
        message: None,
        id: id.to_string(),
        implies: implies.iter().map(|s| s.to_string()).collect(),
        triggers,
        forget,
        version: format!("s-{id}"),
    }
}

fn trigger(on: Option<TriggerField>, pattern: &str) -> Trigger {
    Trigger { on, pattern: pattern.to_string(), machine: None }
}

fn bench_power() -> MemoryEntry {
    MemoryEntry {
        id: "bench-power".to_string(),
        kind: MemoryKind::Critical,
        scopes: vec!["global".to_string()],
        version: "v1".to_string(),
        name: "bench-power".to_string(),
        title: "Cut bench power at the wall".to_string(),
        description: "Cut bench power at the wall".to_string(),
        source: "user".to_string(),
        modified: None,
        body: "# Cut bench power before rewiring\n\nSwitch the supply off at the wall.".to_string(),
        message_of: None,
    }
}

fn catalog() -> Catalog {
    let mut settings = Settings::defaults();
    settings.reminder_tokens = Some(THRESHOLD);
    Catalog {
        memories: vec![bench_power()],
        scopes: vec![scope(PASSING, &[], vec![trigger(Some(TriggerField::UserMessage), RAIL)], Some(THRESHOLD))],
        settings,
    }
}

fn common(cwd: Option<&str>) -> HookCommon {
    HookCommon { session_id: "session-1".to_string(), agent_id: None, cwd: cwd.map(str::to_string) }
}

fn prompt_plan(catalog: &Catalog, text: &str) -> EventPlan {
    let event = HookEvent::UserPromptSubmit { common: common(None), prompt: text.to_string() };
    plan(&event, "alpha", None, None, &catalog.settings).expect("the event is known")
}

fn quiet_event(catalog: &Catalog) -> EventPlan {
    prompt_plan(catalog, "carry on where we left off")
}

fn answer(context: &mut ContextState, catalog: &Catalog, plan: &EventPlan, tokens: Option<u64>) -> Outcome {
    let named = SessionName { title: None, first_prompt: None };
    apply(context, plan, catalog, tokens, 0, &named, &Vec::new())
}

fn at_tokens(context: &mut ContextState, catalog: &Catalog, tokens: u64) -> Outcome {
    answer(context, catalog, &quiet_event(catalog), Some(tokens))
}

#[test]
fn a_delivery_recorded_without_a_size_goes_stale_from_the_first_event_that_carries_one() {
    let catalog = catalog();
    let mut context = ContextState::fresh(vec!["global".to_string()], None, 0);
    context.delivered.push(Delivered {
        id: "bench-power".to_string(),
        shown: Shown { version: "v1".to_string(), form: Form::Full, tokens: None },
    });

    let first = at_tokens(&mut context, &catalog, START);
    assert!(first.needs.stale.is_empty(), "got {:?}", first.needs.stale);
    let short = at_tokens(&mut context, &catalog, START + THRESHOLD - 1);
    assert!(short.needs.stale.is_empty(), "got {:?}", short.needs.stale);
    let reached = at_tokens(&mut context, &catalog, START + THRESHOLD);
    assert_eq!(reached.needs.stale, vec!["bench-power".to_string()]);
}

#[test]
fn a_scope_with_no_recorded_activation_is_forgotten_from_the_first_sized_event() {
    let catalog = catalog();
    let mut context = ContextState::fresh(vec!["global".to_string(), PASSING.to_string()], None, 0);
    assert!(context.activated_at.is_empty());

    let first = at_tokens(&mut context, &catalog, START);
    assert!(first.forgotten.is_empty() && context.active.contains(&PASSING.to_string()));
    let short = at_tokens(&mut context, &catalog, START + THRESHOLD - 1);
    assert!(short.forgotten.is_empty() && context.active.contains(&PASSING.to_string()));
    let reached = at_tokens(&mut context, &catalog, START + THRESHOLD);
    assert_eq!(reached.forgotten.iter().map(|f| f.scope_id.as_str()).collect::<Vec<_>>(), vec![PASSING]);
    assert_eq!(reached.forgotten[0].tokens_since_trigger, THRESHOLD);
    assert_eq!(reached.forgotten[0].tokens_at, START + THRESHOLD);
    assert!(!context.active.contains(&PASSING.to_string()));
}

#[test]
fn a_trigger_that_fires_after_a_forgetting_counts_as_an_activation_of_its_own() {
    let catalog = catalog();
    let mut context = ContextState::fresh(vec!["global".to_string()], None, 0);
    let remark = prompt_plan(&catalog, &format!("a passing remark about {RAIL}"));

    let first = answer(&mut context, &catalog, &remark, Some(START));
    assert_eq!(first.fires.iter().map(|f| (f.scope_id.as_str(), f.activated_new)).collect::<Vec<_>>(), vec![(PASSING, true)]);
    assert_eq!(first.fires[0].field, "user_message");
    assert_eq!(first.activated, vec![PASSING.to_string()]);

    let again = answer(&mut context, &catalog, &remark, Some(START + THRESHOLD));
    assert_eq!(again.forgotten.iter().map(|f| f.scope_id.as_str()).collect::<Vec<_>>(), vec![PASSING]);
    assert_eq!(again.fires.iter().map(|f| (f.scope_id.as_str(), f.activated_new)).collect::<Vec<_>>(), vec![(PASSING, true)]);
    assert!(context.active.contains(&PASSING.to_string()));
}

#[test]
fn the_session_directory_a_trigger_matches_is_the_first_events_and_does_not_follow_the_shell() {
    const STARTED_IN: &str = "/start/project";
    const MOVED_TO: &str = "/moved/elsewhere";
    let catalog = Catalog {
        memories: Vec::new(),
        scopes: vec![
            scope("bench", &[], vec![trigger(Some(TriggerField::SessionDirectory), "/start(/|$)")], None),
            scope("shed", &[], vec![trigger(Some(TriggerField::ShellDirectory), "/start(/|$)")], None),
        ],
        settings: Settings::defaults(),
    };
    let mut context = ContextState::fresh(vec!["global".to_string()], None, 0);
    let mut prompt = quiet_event(&catalog);
    prompt.cwd = Some(STARTED_IN.to_string());
    answer(&mut context, &catalog, &prompt, Some(START));
    assert_eq!(context.session_directory.as_deref(), Some(STARTED_IN));

    let call = plan(
        &HookEvent::PreToolUse {
            common: common(Some(MOVED_TO)),
            tool_name: "Read".to_string(),
            tool_input: Json::Object(vec![("file_path".to_string(), Json::Text("/home/dev/notes/README.md".to_string()))]),
        },
        "alpha",
        None,
        None,
        &catalog.settings,
    )
    .expect("PreToolUse");
    let moved = answer(&mut context, &catalog, &call, Some(START));
    assert!(moved.activated.contains(&"bench".to_string()), "got {:?}", moved.activated);
    assert!(!moved.activated.contains(&"shed".to_string()), "got {:?}", moved.activated);
}

#[test]
fn a_scope_turned_on_brings_every_scope_it_implies_through_others() {
    let catalog = Catalog {
        memories: Vec::new(),
        scopes: vec![
            scope("rocketry", &["workshop"], Vec::new(), None),
            scope("widgets", &["rocketry"], vec![trigger(None, r"\bwidgets?\b")], None),
            scope("workshop", &[], Vec::new(), None),
        ],
        settings: Settings::defaults(),
    };
    let mut context = ContextState::fresh(vec!["global".to_string()], None, 0);
    let outcome = answer(&mut context, &catalog, &prompt_plan(&catalog, "rename the widget brackets"), Some(START));
    assert_eq!(outcome.activated, vec!["rocketry".to_string(), "widgets".to_string(), "workshop".to_string()]);
    assert_eq!(context.active, vec!["global".to_string(), "rocketry".to_string(), "widgets".to_string(), "workshop".to_string()]);
    let all = closure(&catalog, &vec!["widgets".to_string()]);
    assert_eq!(all, vec!["rocketry".to_string(), "widgets".to_string(), "workshop".to_string()]);
}

#[test]
fn a_session_start_begins_the_record_afresh_and_keeps_the_scopes() {
    let catalog = catalog();
    let mut context = ContextState::fresh(vec!["global".to_string()], None, 0);
    let first = at_tokens(&mut context, &catalog, START);
    assert_eq!(first.needs.new, vec!["bench-power".to_string()]);
    assert!(at_tokens(&mut context, &catalog, START).needs.is_empty());

    let start = plan(&HookEvent::SessionStart { common: common(Some("/work")) }, "alpha", None, None, &catalog.settings)
        .expect("SessionStart");
    let named = SessionName { title: Some("the rig".to_string()), first_prompt: None };
    let again = apply(&mut context, &start, &catalog, Some(START), 7, &named, &Vec::new());
    assert_eq!(again.needs.new, vec!["bench-power".to_string()]);
    assert_eq!(context.session_title.as_deref(), Some("the rig"));
    assert_eq!(context.session_directory.as_deref(), Some("/work"));
    assert_eq!(context.last_seen, 7);
    assert_eq!(context.active, vec!["global".to_string()]);
}

#[test]
fn a_critical_arrival_holds_a_call_and_the_rows_say_what_was_sent() {
    let catalog = catalog();
    let mut context = ContextState::fresh(vec!["global".to_string()], None, 0);
    let call = plan(
        &HookEvent::PreToolUse {
            common: common(None),
            tool_name: "Bash".to_string(),
            tool_input: Json::Object(vec![("command".to_string(), Json::Text("ls".to_string()))]),
        },
        "alpha",
        None,
        None,
        &catalog.settings,
    )
    .expect("PreToolUse");
    let outcome = answer(&mut context, &catalog, &call, Some(START));
    let key = call.key.clone();
    let activated = outcome.activated.clone();
    let delivery = Delivery {
        key: &key,
        catalog: &catalog,
        needs: &outcome.needs,
        active: &context.active,
        activated: &activated,
        announce_empty_scopes: false,
        session_start: false,
        answer_file_threshold: None,
    };
    let announced = delivery.announced_scopes();
    let v = verdict(&call, &catalog, &outcome.needs, &announced);
    assert!(v.deny && v.answered);
    assert_eq!(v.decision, Decision::Deny);
    assert!(DENY_REASON.starts_with("This tool call was not executed."));

    let rendered = render(&delivery);
    let rows = deliveries_of(&outcome.needs, &catalog, Some(&rendered));
    assert_eq!(rows.len(), 1);
    assert_eq!(rows[0].memory, "bench-power");
    assert_eq!(rows[0].kind, "critical");
    assert_eq!(rows[0].form, "full");
    assert_eq!(rows[0].reason, "new");
    assert_eq!(rows[0].scope, "global");
    assert_eq!(rows[0].chars, rendered.sections[0].memories[0].chars);

    let quiet = verdict(&quiet_event(&catalog), &catalog, &outcome.needs, &announced);
    assert!(!quiet.deny);
    assert_eq!(quiet.decision, Decision::Context);
}

#[test]
fn a_withdrawal_row_names_why_with_dashes() {
    let catalog = catalog();
    let mut needs = forgetmenot::context::Needs::none();
    needs.retracted = vec![forgetmenot::context::Retraction {
        id: "gone".to_string(),
        reason: forgetmenot::context::RetractReason::NoActiveScope,
    }];
    let rows = deliveries_of(&needs, &catalog, None);
    assert_eq!(rows[0].reason, "retracted:no-longer-in-an-active-scope");
    assert_eq!(rows[0].form, "none");
    assert_eq!(rows[0].kind, "knowledge");
}

#[test]
fn a_trigger_limited_to_a_machine_fires_only_there_and_a_bad_pattern_is_named() {
    let catalog = Catalog {
        memories: Vec::new(),
        scopes: vec![scope(
            "widgets",
            &[],
            vec![Trigger { on: None, pattern: r"\bwidgets?\b".to_string(), machine: Some("alpha".to_string()) }],
            None,
        )],
        settings: Settings::defaults(),
    };
    let here = trigger_test(
        &catalog,
        &TriggerTestRequest { field: TriggerField::ToolResult, text: "two widgets".to_string(), machine: "alpha".to_string() },
    );
    assert_eq!(here.fired.len(), 1);
    assert_eq!(here.fired[0].scope_id, "widgets");
    let elsewhere = trigger_test(
        &catalog,
        &TriggerTestRequest { field: TriggerField::ToolResult, text: "two widgets".to_string(), machine: "beta".to_string() },
    );
    assert!(elsewhere.fired.is_empty());

    assert!(validate_pattern(&PatternRequest { pattern: r"\bwidget".to_string() }).ok);
    let bad = validate_pattern(&PatternRequest { pattern: "foo(bar".to_string() });
    assert!(!bad.ok && bad.error.is_some());
    assert_eq!(TriggerField::SessionDirectory.as_str(), "session_directory");
}

#[test]
fn the_due_text_is_what_the_next_event_carries_and_all_is_everything_in_scope() {
    let catalog = catalog();
    let mut context = ContextState::fresh(vec!["global".to_string()], None, 0);
    at_tokens(&mut context, &catalog, START);
    let due = prompt_needs(&catalog, &context, PromptMode::Due, &Vec::new());
    assert!(due.new.is_empty() && due.changed.is_empty() && due.stale.is_empty());
    let all = prompt_needs(&catalog, &context, PromptMode::All, &Vec::new());
    assert_eq!(all.new, vec!["bench-power".to_string()]);
    assert!(all.retracted.is_empty());
}

#[test]
fn an_event_for_an_unseen_session_creates_its_context_and_answers_from_it() {
    let catalog = catalog();
    let mut registry = ContextRegistry::new(0, None);
    let named = SessionName { title: None, first_prompt: None };
    let first = quiet_event(&catalog);
    let outcome = handle_event(&mut registry, &first, &catalog, Some(START), 11, &named, &Vec::new());
    assert_eq!(outcome.needs.new, vec!["bench-power".to_string()]);
    assert_eq!(registry.contexts.len(), 1);
    let record = &registry.contexts[0];
    assert_eq!(record.key, first.key);
    assert_eq!(
        record.state.active,
        vec!["global".to_string(), "machine:alpha".to_string(), "session:alpha/session-1".to_string()]
    );
    assert_eq!(record.state.last_seen, 11);
    assert_eq!(record.state.tokens, Some(START));

    let again = handle_event(&mut registry, &first, &catalog, Some(START + 10), 12, &named, &Vec::new());
    assert!(again.needs.is_empty());
    assert_eq!(registry.contexts.len(), 1);
    assert_eq!(registry.contexts[0].state.last_seen, 12);
}

#[test]
fn a_prompt_is_read_from_the_snapshot_and_an_unseen_key_is_refused() {
    let catalog = catalog();
    let mut registry = ContextRegistry::new(0, None);
    let named = SessionName { title: None, first_prompt: None };
    let first = quiet_event(&catalog);
    let none = Vec::new();

    let before = registry.snapshot(5);
    match context_prompt(&before, &first.key, &catalog, PromptMode::Due, &none) {
        Err(error @ OperationError::UnknownContext { .. }) => {
            assert_eq!(error.message(), "no context `alpha/session-1` has been seen by this server");
            assert_eq!(error.status(), 400);
        }
        other => panic!("expected an unknown context, got {other:?}"),
    }

    let mut fresh = ContextRegistry::new(0, None);
    let at = fresh.handle(&first.key, 5, &forgetmenot::registry::Creation {
        inheritance: forgetmenot::registry::Inheritance::FromParent,
        parent: None,
    });
    assert_eq!(at, 0);
    let owed = context_prompt(&fresh.snapshot(6), &first.key, &catalog, PromptMode::Due, &none).expect("seen");
    assert_eq!(owed.key, "alpha/session-1");
    assert_eq!(owed.mode, PromptMode::Due);
    assert!(owed.text.contains("Cut bench power before rewiring"));
    assert_eq!(owed.bytes, owed.text.len() as u64);
    assert_eq!(owed.chars, owed.text.encode_utf16().count() as u64);

    handle_event(&mut registry, &first, &catalog, Some(START), 7, &named, &Vec::new());
    let after = registry.snapshot(8);
    let due = context_prompt(&after, &first.key, &catalog, PromptMode::Due, &none).expect("seen");
    assert_eq!(due.text, "");
    assert_eq!(due.bytes, 0);
    assert_eq!(due.chars, 0);
    let all = context_prompt(&after, &first.key, &catalog, PromptMode::All, &none).expect("seen");
    assert_eq!(all.mode, PromptMode::All);
    assert!(all.text.contains("Cut bench power before rewiring"));
    assert_eq!(all.chars, all.text.encode_utf16().count() as u64);
}

#[test]
fn the_scopes_every_context_has_outlast_any_number_of_tokens() {
    let catalog = catalog();
    let implicit = vec!["global".to_string(), "machine:alpha".to_string(), "session:alpha/session-1".to_string()];
    let mut active = implicit.clone();
    active.push(PASSING.to_string());
    active.sort();
    let mut context = ContextState::fresh(active, None, 0);
    at_tokens(&mut context, &catalog, START);
    let far = at_tokens(&mut context, &catalog, START + 100 * THRESHOLD);
    assert_eq!(far.forgotten.iter().map(|f| f.scope_id.as_str()).collect::<Vec<_>>(), vec![PASSING]);
    assert_eq!(context.active, implicit);
}
