use forgetmenot::catalog::{Catalog, MemoryEntry, MemoryKind, Settings};
use forgetmenot::context::{
    compute_needs, initial_active, record_delivery, shrinks, ContextKey, ContextState, Delivered,
    Form, Needs, PreviousText, RetractReason, Retraction, Shown,
};

/// The growth in context after which a delivery is out of the model's reach.
const REMINDER: u64 = 1_000;

/// The context size the first delivery was made at.
const START: u64 = 10_000;

const THREE_RULES: &str = "# Cut bench power before rewiring\n\n\
                           Switch the bench supply off at the wall.\n\
                           Confirm on the meter that the rail reads zero.\n\
                           Label the supply before leaving the bench.\n";

const TWO_RULES: &str = "# Cut bench power before rewiring\n\n\
                         Switch the bench supply off at the wall.\n\
                         Confirm on the meter that the rail reads zero.\n";

const THREE_RULES_REWORDED: &str = "# Cut bench power before rewiring\n\n\
                                    Switch the bench supply off at the wall.\n\
                                    Confirm on the meter that the rail reads zero.\n\
                                    Leave the supply labelled for the next person.\n";

const BINDER: &str = "The workshop references are all on paper in the binder";

fn memory(
    id: &str,
    kind: MemoryKind,
    scopes: &[&str],
    description: &str,
    body: &str,
    version: &str,
) -> MemoryEntry {
    MemoryEntry {
        id: id.to_string(),
        kind,
        scopes: scopes.iter().map(|s| s.to_string()).collect(),
        version: version.to_string(),
        name: id.to_string(),
        title: description.to_string(),
        description: description.to_string(),
        source: "user".to_string(),
        modified: None,
        body: body.trim_end().to_string(),
        message_of: None,
    }
}

fn settings_with(reminder: Option<u64>, knowledge_index: bool) -> Settings {
    let mut settings = Settings::defaults();
    settings.reminder_tokens = reminder;
    settings.deliver_knowledge_index = knowledge_index;
    settings
}

/// A store with one critical and one knowledge memory in `global`, one
/// critical memory in `widgets`, with `bench-power` at `bench_body`.
fn catalog_with(bench_body: &str, bench_version: &str, reading_body: &str, reading_version: &str, settings: Settings) -> Catalog {
    Catalog {
        memories: vec![
            memory(
                "bench-power",
                MemoryKind::Critical,
                &["global"],
                "Cut bench power at the wall before rewiring",
                bench_body,
                bench_version,
            ),
            memory(
                "reading-list",
                MemoryKind::Knowledge,
                &["global"],
                BINDER,
                reading_body,
                reading_version,
            ),
            memory(
                "widget-naming",
                MemoryKind::Critical,
                &["widgets"],
                "A widget part number is never reused",
                "# Widget part numbers are immutable\n\nDownstream drawings cite them.\n",
                "c3",
            ),
        ],
        scopes: Vec::new(),
        
        settings,
    }
}

fn catalog() -> Catalog {
    catalog_with(
        THREE_RULES,
        "a1",
        "# The binder\n\nThe bench notes and the parts catalogue are in it.\n",
        "b1",
        settings_with(Some(REMINDER), true),
    )
}

fn find<'a>(catalog: &'a Catalog, id: &str) -> &'a MemoryEntry {
    catalog
        .memories
        .iter()
        .find(|m| m.id == id)
        .unwrap_or_else(|| panic!("{id} must be in the store"))
}

fn implicit() -> Vec<String> {
    initial_active("alpha", "session-1")
}

fn state_holding(catalog: &Catalog, active: Vec<String>, delivered: &[&str], tokens: Option<u64>) -> ContextState {
    let mut state = ContextState::fresh(active, None, 0);
    for name in delivered {
        state.note_shown(find(catalog, name), tokens);
    }
    state.tokens = tokens;
    state
}

fn ids(v: &[&str]) -> Vec<String> {
    v.iter().map(|s| s.to_string()).collect()
}

#[test]
fn a_context_begins_in_the_global_the_machine_and_its_own_session_scope_and_no_other() {
    assert_eq!(
        initial_active("alpha", "session-1"),
        vec![
            "global".to_string(),
            "machine:alpha".to_string(),
            "session:alpha/session-1".to_string(),
        ]
    );
}

#[test]
fn a_memory_out_of_every_active_scope_is_withdrawn_as_such_and_a_deleted_one_as_deleted() {
    let catalog = catalog();
    let mut state = state_holding(&catalog, implicit(), &["widget-naming"], Some(START));
    state.delivered.insert(
        0,
        Delivered {
            id: "bench-vice".to_string(),
            shown: Shown { version: "0".repeat(40), form: Form::Full, tokens: Some(START) },
        },
    );

    let needs = compute_needs(&catalog, &state, Some(START), &Vec::new());

    assert_eq!(
        needs.retracted,
        vec![
            Retraction { id: "bench-vice".to_string(), reason: RetractReason::Deleted },
            Retraction { id: "widget-naming".to_string(), reason: RetractReason::NoActiveScope },
        ],
        "each withdrawal must name the reason the model can act on"
    );
}

#[test]
fn a_knowledge_memory_is_sent_again_when_its_version_changes() {
    let catalog = catalog();
    let mut state = state_holding(&catalog, implicit(), &["bench-power", "reading-list"], Some(START));
    assert!(
        compute_needs(&catalog, &state, Some(START), &Vec::new()).is_empty(),
        "nothing is owed while the delivered version is current"
    );

    for delivered in state.delivered.iter_mut() {
        if delivered.id == "reading-list" {
            delivered.shown.version = "0".repeat(40);
        }
    }
    let needs = compute_needs(&catalog, &state, Some(START), &Vec::new());

    assert_eq!(needs.changed, ids(&["reading-list"]), "a memory delivered at another version must count as changed");
}

#[test]
fn staleness_is_not_judged_without_the_context_size_of_the_delivery() {
    let catalog = catalog();
    let state = state_holding(&catalog, implicit(), &["bench-power"], None);

    let needs = compute_needs(&catalog, &state, Some(START * 100), &Vec::new());

    assert!(needs.stale.is_empty(), "without the size at delivery nothing may be called stale, got {:?}", needs.stale);
}

#[test]
fn a_delivery_of_either_form_goes_stale_at_the_stores_threshold_and_not_a_token_before() {
    let catalog = catalog();
    let state = state_holding(&catalog, implicit(), &["bench-power", "reading-list"], Some(START));

    let short = compute_needs(&catalog, &state, Some(START + REMINDER - 1), &Vec::new());
    assert!(short.stale.is_empty(), "999 tokens on, everything delivered is still within reach, got {:?}", short.stale);

    let reached = compute_needs(&catalog, &state, Some(START + REMINDER), &Vec::new());
    assert_eq!(reached.stale, ids(&["bench-power", "reading-list"]), "at the threshold every form delivered is owed again");
}

#[test]
fn nothing_goes_stale_when_the_store_asks_for_no_reminder() {
    let catalog = catalog_with(THREE_RULES, "a1", "# The binder\n", "b1", settings_with(None, true));
    let state = state_holding(&catalog, implicit(), &["bench-power"], Some(START));

    let needs = compute_needs(&catalog, &state, Some(START + 100 * REMINDER), &Vec::new());

    assert!(needs.stale.is_empty(), "with no reminder asked for, nothing may be repeated, got {:?}", needs.stale);
}

#[test]
fn no_knowledge_memory_is_owed_when_the_store_turns_the_index_off() {
    let catalog = catalog_with(THREE_RULES, "a1", "# The binder\n", "b1", settings_with(None, false));
    let state = ContextState::fresh(implicit(), None, 0);

    let needs = compute_needs(&catalog, &state, Some(START), &Vec::new());

    assert_eq!(needs.new, ids(&["bench-power"]), "only the memories delivered in full may be owed");
}

#[test]
fn a_version_that_only_lost_lines_is_shrunk_while_a_reworded_line_is_changed() {
    let before = catalog();
    let state = state_holding(&before, implicit(), &["bench-power"], Some(START));
    let previous = vec![PreviousText { id: "bench-power".to_string(), text: THREE_RULES.trim_end().to_string() }];

    let after = catalog_with(TWO_RULES, "a2", "# The binder\n", "b1", settings_with(Some(REMINDER), true));
    let shorter = compute_needs(&after, &state, Some(START), &previous);
    assert_eq!(shorter.shrunk, ids(&["bench-power"]), "every line of the new text was already given, so nothing is owed");
    assert!(shorter.changed.is_empty(), "a shrink must not also count as a change, got {:?}", shorter.changed);

    let reworded = catalog_with(THREE_RULES_REWORDED, "a3", "# The binder\n", "b1", settings_with(Some(REMINDER), true));
    let needs = compute_needs(&reworded, &state, Some(START), &previous);
    assert_eq!(needs.changed, ids(&["bench-power"]), "a reworded line is text the context has not been given");
}

#[test]
fn a_shrunk_version_is_recorded_as_seen_so_only_a_later_change_is_owed() {
    let before = catalog();
    let mut state = state_holding(&before, implicit(), &["bench-power", "reading-list"], Some(START));
    let previous = vec![PreviousText { id: "bench-power".to_string(), text: THREE_RULES.trim_end().to_string() }];

    let catalog = catalog_with(
        TWO_RULES,
        "a2",
        "# The binder\n\nThe bench notes and the parts catalogue are in it.\n",
        "b1",
        settings_with(Some(REMINDER), true),
    );
    let needs = compute_needs(&catalog, &state, Some(START), &previous);
    record_delivery(&mut state, &needs, &catalog, Some(START));

    assert!(
        compute_needs(&catalog, &state, Some(START), &Vec::new()).is_empty(),
        "the shrunk version is what the context holds, so nothing is owed at the next event"
    );

    let grown = catalog_with(
        &format!("{TWO_RULES}Keep the meter on the bench.\n"),
        "a4",
        "# The binder\n\nThe bench notes and the parts catalogue are in it.\n",
        "b1",
        settings_with(Some(REMINDER), true),
    );
    let later = compute_needs(&grown, &state, Some(START), &Vec::new());
    assert_eq!(later.changed, ids(&["bench-power"]), "a later version that adds a line is still owed");
}

#[test]
fn a_knowledge_memory_whose_body_lost_lines_is_still_owed_because_only_its_description_was_given() {
    let before = catalog();
    let state = state_holding(&before, implicit(), &["reading-list"], Some(START));
    let previous = vec![PreviousText { id: "reading-list".to_string(), text: BINDER.to_string() }];

    let after = catalog_with(THREE_RULES, "a1", "# The binder\n", "b2", settings_with(Some(REMINDER), true));
    let needs = compute_needs(&after, &state, Some(START), &previous);

    assert_eq!(needs.changed, ids(&["reading-list"]), "the index line is what was delivered, and its version has moved");
    assert!(needs.shrunk.is_empty(), "nothing the context was given lost a line, got {:?}", needs.shrunk);
}

#[test]
fn only_a_new_or_changed_critical_memory_counts_as_a_critical_arrival() {
    let catalog = catalog();
    let mut arrive_new = Needs::none();
    arrive_new.new = ids(&["bench-power"]);
    let mut arrive_changed = Needs::none();
    arrive_changed.changed = ids(&["bench-power"]);
    for needs in [arrive_new, arrive_changed] {
        assert!(needs.has_critical_arrival(&catalog), "a critical memory the context has not been given must stop the call, got {needs:?}");
    }

    let mut reference = Needs::none();
    reference.new = ids(&["reading-list"]);
    let mut reminder = Needs::none();
    reminder.stale = ids(&["bench-power"]);
    for needs in [reference, reminder] {
        assert!(!needs.has_critical_arrival(&catalog), "nothing the model has not read arrives here, got {needs:?}");
    }
}

#[test]
fn context_keys_print_the_session_key_mcp_tools_take() {
    assert_eq!(ContextKey::main("alpha", "session-1").to_string(), "alpha/session-1");
    assert_eq!(ContextKey::subagent("alpha", "session-1", "agent-7").to_string(), "alpha/session-1/agent-7");
}

#[test]
fn only_a_text_whose_lines_all_appeared_in_order_before_counts_as_shrunk() {
    let old = "first line\nsecond line\nthird line";
    assert!(shrinks(old, "first line\nthird line"), "a text with one line removed is the old text with lines taken out");
    assert!(!shrinks(old, "first line\nsecond line rewritten\nthird line"), "a reworded line is text the context has not been given");
    assert!(!shrinks(old, old), "an unchanged text has not shrunk; there is nothing to record");
    assert!(!shrinks(old, "third line\nfirst line"), "the same lines in another order are not the old text with lines taken out");
    assert!(!shrinks(old, "first line\nsecond line\nthird line\nfourth line"), "a line added is text the context has not been given");
}

#[test]
fn emptying_a_text_shrinks_it_and_filling_an_empty_one_does_not() {
    assert!(shrinks("first line\nsecond line", ""), "a text emptied has had every line removed");
    assert!(!shrinks("", "first line"), "a text that was empty has only gained a line");
    assert!(!shrinks("", ""), "two empty texts are the same text");
}

#[test]
fn a_trailing_newline_alone_is_not_a_shrink() {
    assert!(!shrinks("first line\nsecond line\n", "first line\nsecond line"));
    assert!(!shrinks("first line\nsecond line", "first line\nsecond line\n"));
}

#[test]
fn a_subagent_keys_parent_is_its_own_session() {
    let child = ContextKey::subagent("alpha", "session-1", "agent-7");
    assert!(child.is_subagent());
    assert_eq!(child.session_context(), ContextKey::main("alpha", "session-1"));
    assert!(!child.session_context().is_subagent());
}

#[test]
fn a_key_is_read_back_as_the_context_it_was_printed_for() {
    for key in [ContextKey::main("alpha", "session-1"), ContextKey::subagent("alpha", "session-1", "agent-7")] {
        assert_eq!(ContextKey::parse(&key.to_string()).expect("a printed key parses"), key);
    }
    let refused = ContextKey::parse("alpha/").expect_err("a key with a part missing names nothing");
    assert_eq!(
        refused.message(),
        "a context key is `machine/session-id`, or `machine/session-id/agent-id` for a subagent, not `alpha/`"
    );
}

#[test]
fn recording_what_was_owed_leaves_nothing_owed_at_the_same_size() {
    let catalog = catalog();
    let mut state = ContextState::fresh(implicit(), None, 0);
    let needs = compute_needs(&catalog, &state, Some(START), &Vec::new());
    assert_eq!(needs.new, ids(&["bench-power", "reading-list"]));
    record_delivery(&mut state, &needs, &catalog, Some(START));
    assert!(compute_needs(&catalog, &state, Some(START), &Vec::new()).is_empty());
}

#[test]
fn a_withdrawn_memory_is_forgotten_by_the_context() {
    let catalog = catalog();
    let mut state = state_holding(&catalog, implicit(), &["widget-naming"], Some(START));
    let needs = compute_needs(&catalog, &state, Some(START), &Vec::new());
    record_delivery(&mut state, &needs, &catalog, Some(START));
    assert!(state.delivered.iter().all(|d| d.id != "widget-naming"));
}

#[test]
fn the_form_and_the_reasons_print_as_the_statistics_name_them() {
    assert_eq!(Form::for_kind(MemoryKind::Critical).as_str(), "full");
    assert_eq!(Form::for_kind(MemoryKind::Knowledge).as_str(), "index");
    assert_eq!(RetractReason::Deleted.as_str(), "deleted");
    assert_eq!(RetractReason::NoActiveScope.as_str(), "no longer in an active scope");
}

#[test]
fn a_delivery_recorded_without_a_size_counts_from_the_first_size_reported() {
    let catalog = catalog();
    let mut state = state_holding(&catalog, implicit(), &["bench-power"], None);
    state.note_tokens(START, &catalog);
    assert_eq!(state.tokens, Some(START));
    assert_eq!(state.delivered[0].shown.tokens, Some(START));
    state.note_tokens(START + 5, &catalog);
    assert_eq!(state.delivered[0].shown.tokens, Some(START));
}
