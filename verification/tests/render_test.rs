use forgetmenot::catalog::{Catalog, MemoryEntry, MemoryKind, Settings};
use forgetmenot::context::{ContextKey, Needs, RetractReason, Retraction};
use forgetmenot::render::{file_notice, render, Delivery, Rendered};

const RULE_BODY: &str = "Switch the bench supply off at the wall.";
const BINDER: &str = "The workshop references are all on paper in the binder";
const BROAD_EXCEPT: &str = "Do not catch Exception broadly; catch the exception type the code can handle.";
const ANSWER_MARKER: &str = "[forgetmenot] context ";

fn memory(id: &str, kind: MemoryKind, scopes: &[&str], description: &str, body: &str) -> MemoryEntry {
    MemoryEntry {
        id: id.to_string(),
        kind,
        scopes: scopes.iter().map(|s| s.to_string()).collect(),
        version: format!("v-{id}"),
        name: id.to_string(),
        title: description.to_string(),
        description: description.to_string(),
        source: "user".to_string(),
        modified: None,
        body: body.trim_end().to_string(),
        message_of: None,
    }
}

fn catalog_of(mut memories: Vec<MemoryEntry>) -> Catalog {
    memories.sort_by(|a, b| a.id.cmp(&b.id));
    Catalog { memories, scopes: Vec::new(),  settings: Settings::defaults() }
}

/// The message `broad-except`'s file carries, as the catalog holds it.
const MESSAGE_ID: &str = "broad-except.message";

fn store() -> Catalog {
    let mut message = memory(MESSAGE_ID, MemoryKind::Critical, &["broad-except"], "", BROAD_EXCEPT);
    message.message_of = Some("broad-except".to_string());
    catalog_of(vec![
        memory(
            "bench-power",
            MemoryKind::Critical,
            &["global", "workshop"],
            "Cut bench power at the wall before rewiring",
            &format!("# Cut bench power before rewiring\n\n{RULE_BODY}\n"),
        ),
        memory(
            "reading-list",
            MemoryKind::Knowledge,
            &["global"],
            BINDER,
            "# The binder\n\nThe bench notes and the parts catalogue are in it.\n",
        ),
        message,
    ])
}

fn key() -> ContextKey {
    ContextKey::main("alpha", "session-1")
}

fn strings(v: &[&str]) -> Vec<String> {
    v.iter().map(|s| s.to_string()).collect()
}

/// Every character of the text belongs to exactly one place.
fn assert_accounted(rendered: &Rendered) {
    let sections: u64 = rendered.sections.iter().map(|section| section.chars).sum();
    assert_eq!(rendered.overhead_chars + sections, rendered.chars(), "got {:?}", rendered.text);
    for section in &rendered.sections {
        let memories: u64 = section.memories.iter().map(|memory| memory.chars).sum();
        assert!(memories <= section.chars, "a section's memories must fit inside it, got {memories} in {section:?}");
    }
}

fn render_of(catalog: &Catalog, needs: &Needs, active: &[&str], activated: &[&str], announce: bool) -> Rendered {
    let key = key();
    let active = strings(active);
    let activated = strings(activated);
    let rendered = render(&Delivery {
        key: &key,
        catalog,
        needs,
        active: &active,
        activated: &activated,
        announce_empty_scopes: announce,
        session_start: false,
        answer_file_threshold: None,
    });
    assert_accounted(&rendered);
    rendered
}

fn text_of(catalog: &Catalog, needs: &Needs, active: &[&str], activated: &[&str], announce: bool) -> String {
    render_of(catalog, needs, active, activated, announce).text
}

fn owed(new: &[&str]) -> Needs {
    let mut needs = Needs::none();
    needs.new = strings(new);
    needs
}

#[test]
fn a_critical_memory_arrives_in_full_and_a_knowledge_memory_as_its_id_and_description() {
    let catalog = store();
    let text = text_of(&catalog, &owed(&["bench-power", "reading-list"]), &["global"], &[], false);
    assert!(text.contains("-- critical: bench-power --") && text.contains(RULE_BODY), "got {text:?}");
    assert!(text.contains(&format!("- reading-list: {BINDER}")), "got {text:?}");
    assert!(!text.contains("The bench notes and the parts catalogue"), "got {text:?}");
}

#[test]
fn the_rules_to_act_on_come_before_the_index_and_the_withdrawals_come_after_both() {
    let catalog = store();
    let mut needs = owed(&["bench-power", "reading-list"]);
    needs.retracted = vec![Retraction { id: "bench-vice".to_string(), reason: RetractReason::Deleted }];
    let text = text_of(&catalog, &needs, &["global"], &[], false);
    let rule = text.find(RULE_BODY).expect("the rule is rendered");
    let index = text.find(BINDER).expect("the index line is rendered");
    let withdrawn = text.find("bench-vice").expect("the withdrawal is rendered");
    assert!(rule < index && index < withdrawn, "got {text:?}");
    assert!(text.contains(&format!("- bench-vice ({})", RetractReason::Deleted.as_str())), "got {text:?}");
}

#[test]
fn a_scope_message_is_printed_in_its_scopes_section_and_offers_no_id_to_fetch_it_by() {
    let catalog = store();
    let rendered = render_of(&catalog, &owed(&[MESSAGE_ID]), &["broad-except"], &[], false);
    assert!(
        rendered.text.contains("== scope: broad-except ==")
            && rendered.text.contains("-- message --")
            && rendered.text.contains(BROAD_EXCEPT),
        "got {:?}",
        rendered.text
    );
    assert!(!rendered.text.contains("-- critical:"), "got {:?}", rendered.text);
    let sections: Vec<(String, Vec<String>)> = rendered
        .sections
        .iter()
        .map(|section| (section.scope.clone(), section.memories.iter().map(|m| m.id.clone()).collect()))
        .collect();
    assert_eq!(sections, vec![("broad-except".to_string(), vec![MESSAGE_ID.to_string()])]);
}

#[test]
fn a_memory_in_two_active_scopes_is_printed_once_under_the_first_of_them() {
    let catalog = store();
    let rendered = render_of(&catalog, &owed(&["bench-power"]), &["global", "workshop"], &[], false);
    assert_eq!(rendered.text.matches(RULE_BODY).count(), 1, "got {:?}", rendered.text);
    let scopes: Vec<String> = rendered.sections.iter().map(|s| s.scope.clone()).collect();
    assert_eq!(scopes, vec!["global".to_string()]);
    assert!(!rendered.text.contains("workshop"), "got {:?}", rendered.text);
}

#[test]
fn sections_are_printed_with_global_first_and_the_rest_in_scope_id_order() {
    let catalog = catalog_of(vec![
        memory("global-rule", MemoryKind::Critical, &["global"], "A rule for every session", "# Global\n\nThe global rule.\n"),
        memory("alpha-rule", MemoryKind::Critical, &["alpha-scope"], "A rule for alpha", "# Alpha\n\nThe alpha rule.\n"),
        memory("zeta-rule", MemoryKind::Critical, &["zeta-scope"], "A rule for zeta", "# Zeta\n\nThe zeta rule.\n"),
    ]);
    let rendered = render_of(
        &catalog,
        &owed(&["alpha-rule", "global-rule", "zeta-rule"]),
        &["alpha-scope", "global", "zeta-scope"],
        &[],
        false,
    );
    let scopes: Vec<String> = rendered.sections.iter().map(|s| s.scope.clone()).collect();
    assert_eq!(scopes, strings(&["global", "alpha-scope", "zeta-scope"]));
    let printed: Vec<usize> = ["global", "alpha-scope", "zeta-scope"]
        .into_iter()
        .map(|scope| rendered.text.find(&format!("== scope: {scope} ==")).expect("the section is rendered"))
        .collect();
    assert!(printed[0] < printed[1] && printed[1] < printed[2], "got {:?}", rendered.text);
}

#[test]
fn an_activated_scope_is_named_only_when_the_store_asks_and_only_if_it_delivered_nothing() {
    let catalog = store();
    let active = ["global", "paperwork"];
    let silent = text_of(&catalog, &Needs::none(), &active, &["paperwork"], false);
    assert!(!silent.contains("paperwork"), "got {silent:?}");

    let announced = text_of(&catalog, &Needs::none(), &active, &["paperwork"], true);
    assert!(
        announced.contains("== scopes activated ==") && announced.lines().any(|line| line == "paperwork"),
        "got {announced:?}"
    );

    let delivering = text_of(&catalog, &owed(&["bench-power"]), &active, &["global"], true);
    assert!(!delivering.contains("== scopes activated =="), "got {delivering:?}");
}

fn answer_of(body: &str, threshold: Option<u64>) -> Rendered {
    let catalog = catalog_of(vec![memory(
        "long-rule",
        MemoryKind::Critical,
        &["global"],
        "A rule long enough to test the answer notice",
        body,
    )]);
    let key = key();
    let active = strings(&["global"]);
    let activated = Vec::new();
    let rendered = render(&Delivery {
        key: &key,
        catalog: &catalog,
        needs: &owed(&["long-rule"]),
        active: &active,
        activated: &activated,
        announce_empty_scopes: false,
        session_start: false,
        answer_file_threshold: threshold,
    });
    assert_accounted(&rendered);
    rendered
}

#[test]
fn an_answer_past_the_threshold_opens_with_the_notice_and_still_carries_the_whole_text() {
    let body = "Stop the run and read the log. ".repeat(20);
    let text = answer_of(&body, Some(200)).text;
    let opening = text.lines().next().unwrap_or_default();
    assert!(opening.contains("READ THE FILE FIRST") && opening.contains("Read tool"), "got {opening:?}");
    assert!(text.contains(body.trim_end()), "got {text:?}");
}

#[test]
fn the_notice_is_overhead_and_leaves_what_the_scope_cost_where_it_was() {
    let body = "Stop the run and read the log. ".repeat(20);
    let without = answer_of(&body, None);
    let with = answer_of(&body, Some(200));
    assert!(with.text.len() > without.text.len());
    assert_eq!(
        with.sections.iter().map(|s| s.chars).collect::<Vec<_>>(),
        without.sections.iter().map(|s| s.chars).collect::<Vec<_>>()
    );
    assert_eq!(with.overhead_chars - without.overhead_chars, with.chars() - without.chars());
}

#[test]
fn no_notice_opens_an_answer_within_the_threshold_or_one_the_store_wants_none_for() {
    let long = "Stop the run and read the log. ".repeat(20);
    let within = answer_of("Stop the run and read the log.", Some(100_000)).text;
    assert!(!within.contains("READ THE FILE"), "got {within:?}");
    assert!(within.starts_with(ANSWER_MARKER), "got {within:?}");
    let turned_off = answer_of(&long, None).text;
    assert!(!turned_off.contains("READ THE FILE"), "got {turned_off:?}");
}

#[test]
fn the_threshold_is_counted_in_the_code_units_claude_code_measures_not_in_bytes() {
    let body = "\u{20AC}".repeat(120);
    let whole = answer_of(&body, None);
    let code_units = whole.chars();
    assert!(whole.text.len() as u64 > code_units);
    let at_its_length = answer_of(&body, Some(code_units));
    assert!(!at_its_length.text.contains("READ THE FILE"), "got {:?}", at_its_length.text);
}

#[test]
fn the_notice_names_the_length_and_the_threshold() {
    let notice = file_notice(12345, 10000);
    assert!(notice.starts_with("[forgetmenot] READ THE FILE FIRST. This hook answer is 12345 characters, more than the 10000 "));
}

#[test]
fn the_notice_is_one_line_that_says_where_the_whole_answer_is() {
    let notice = file_notice(12000, 10000);
    assert!(notice.starts_with(
        "[forgetmenot] READ THE FILE FIRST. This hook answer is 12000 characters, more than the 10000 that the harness shows in full. The harness has saved the whole answer to the file named above (\"Full output saved to\") and shows only a preview of it here."
    ));
    assert!(notice.contains("Read tool"));
    assert!(!notice.contains('\n'));
}

#[test]
fn a_session_start_tells_the_model_its_session_key() {
    let catalog = store();
    let key = key();
    let active = strings(&["global"]);
    let activated = Vec::new();
    let needs = owed(&["bench-power"]);
    let rendered = render(&Delivery {
        key: &key,
        catalog: &catalog,
        needs: &needs,
        active: &active,
        activated: &activated,
        announce_empty_scopes: false,
        session_start: true,
        answer_file_threshold: None,
    });
    assert!(rendered.text.starts_with("[forgetmenot] context alpha/session-1\n"), "got {:?}", rendered.text);
    assert!(rendered.text.contains("alpha/session-1"));
    assert_accounted(&rendered);
}
