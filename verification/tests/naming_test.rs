use forgetmenot::context::{ContextKey, ContextState};
use forgetmenot::naming::{
    collapse_whitespace, commit_body, context_name, cut_at_word_boundary, is_valid_message_title,
    with_final_newline, DocumentKind, MAX_MESSAGE_TITLE, NAME_CHARACTERS,
};

fn session_record() -> (ContextKey, ContextState) {
    (ContextKey::main("alpha", "session-1"), ContextState::fresh(Vec::new(), None, 0))
}

fn subagent_record() -> (ContextKey, ContextState) {
    let parent = ContextKey::main("alpha", "session-1");
    (ContextKey::subagent("alpha", "session-1", "agent-7f3a"), ContextState::fresh(Vec::new(), Some(parent), 0))
}

#[test]
fn message_titles_the_history_cannot_show_are_rejected() {
    assert!(is_valid_message_title("record the widget rule"));
    assert!(!is_valid_message_title(""));
    assert!(!is_valid_message_title("   "));
    assert!(!is_valid_message_title("first line\nsecond line"));
    assert!(is_valid_message_title(&"a".repeat(MAX_MESSAGE_TITLE)));
    assert!(!is_valid_message_title(&"a".repeat(MAX_MESSAGE_TITLE + 1)));
}

#[test]
fn a_session_the_user_named_is_named_by_that_title_whole() {
    let title = "Rebuild the vacuum former thermocouple rig and write up what the old one did wrong";
    assert!(title.chars().count() > NAME_CHARACTERS);
    let (key, mut state) = session_record();
    state.session_title = Some(title.to_string());
    state.first_prompt = Some("Prüfe die Späne am Drehbankbett".to_string());
    assert_eq!(context_name(&key, &state), title);
}

#[test]
fn a_session_nobody_named_is_named_by_its_first_prompt_cut_at_a_word_boundary() {
    let prompt = "Prüfe die Späne am Drehbankbett und melde jeden Wert über neunzig Grad \
                  sofort der Werkstatt weiter";
    let (key, mut state) = session_record();
    state.first_prompt = Some(prompt.to_string());
    assert_eq!(
        context_name(&key, &state),
        "Prüfe die Späne am Drehbankbett und melde jeden Wert über neunzig Grad sofort…"
    );
}

#[test]
fn a_subagent_is_named_by_its_task_and_by_its_kind_when_no_task_was_read() {
    let session_title = "Rebuild the vacuum former thermocouple rig";
    let task = "Survey the rocketry crate and list its public functions";

    let (key, mut tasked) = subagent_record();
    tasked.session_title = Some(session_title.to_string());
    tasked.task = Some(task.to_string());
    tasked.agent_type = Some("general-purpose".to_string());
    assert_eq!(context_name(&key, &tasked), task);

    let (key, mut untasked) = subagent_record();
    untasked.session_title = Some(session_title.to_string());
    untasked.agent_type = Some("general-purpose".to_string());
    assert_eq!(context_name(&key, &untasked), "general-purpose");

    let (key, unknown) = subagent_record();
    assert_eq!(context_name(&key, &unknown), "");
}

#[test]
fn a_name_collapses_the_whitespace_of_the_text_it_comes_from() {
    let (key, mut state) = session_record();
    state.session_title = Some("  the thermocouple\n\trig,\n\nsecond attempt  ".into());
    assert_eq!(context_name(&key, &state), "the thermocouple rig, second attempt");
}

#[test]
fn a_cut_without_a_space_keeps_the_first_characters_whole() {
    assert_eq!(cut_at_word_boundary("abcdefghij", 4), "abcd…");
    assert_eq!(cut_at_word_boundary("abc", 4), "abc");
    assert_eq!(collapse_whitespace("  a \t b\n"), "a b");
}

#[test]
fn a_body_ends_in_exactly_the_newline_it_needs() {
    assert_eq!(with_final_newline("text"), "text\n");
    assert_eq!(with_final_newline("text\n"), "text\n");
}

#[test]
fn documents_live_at_their_kinds_path_and_are_named_by_kind() {
    assert_eq!(DocumentKind::Memory.repository_path("bench-power"), "memories/bench-power.md");
    assert_eq!(DocumentKind::Scope.repository_path("widgets"), "scopes/widgets.yaml");
    assert_eq!(DocumentKind::Memory.describe("bench-power"), "the memory `bench-power`");
    assert_eq!(DocumentKind::Scope.describe("widgets"), "the scope `widgets`");
    assert_eq!(commit_body("memory", "bench-power", "alpha/session-1"), "memory: bench-power\nauthor: alpha/session-1");
}
