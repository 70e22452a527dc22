use forgetmenot::catalog::Settings;
use forgetmenot::context::ContextKey;
use forgetmenot::events::{
    carries_own_answer, plan, string_leaves, triggers_exempt, EventPlan, HookCommon, HookEvent, Json,
    TriggerField,
};

fn text(s: &str) -> Json {
    Json::Text(s.to_string())
}

fn object(fields: Vec<(&str, Json)>) -> Json {
    Json::Object(fields.into_iter().map(|(k, v)| (k.to_string(), v)).collect())
}

fn common(cwd: Option<&str>, agent_id: Option<&str>) -> HookCommon {
    HookCommon {
        session_id: "session-1".to_string(),
        agent_id: agent_id.map(str::to_string),
        cwd: cwd.map(str::to_string),
    }
}

fn plan_of(event: &HookEvent, machine: &str) -> Option<EventPlan> {
    plan(event, machine, None, None, &Settings::defaults())
}

fn tool_result(tool: &str, output: &str) -> HookEvent {
    HookEvent::PostToolUse {
        common: common(Some("/home/dev/widgets"), None),
        tool_name: tool.to_string(),
        tool_output: text(output),
    }
}

fn texts_on(plan: &EventPlan, field: TriggerField) -> Vec<&str> {
    plan.texts.iter().filter(|(each, _)| *each == field).map(|(_, text)| text.as_str()).collect()
}

#[test]
fn every_string_in_a_tool_input_is_matched_against_triggers() {
    let text = string_leaves(
        &object(vec![
            ("command", text("cargo test")),
            ("timeout", Json::Number(Some(120))),
            ("paths", Json::Array(vec![text("crates/widgets"), text("crates/rocketry")])),
            ("nested", object(vec![("description", text("rebuild the widgets"))])),
        ]),
        usize::MAX,
    );
    for expected in ["cargo test", "crates/widgets", "crates/rocketry", "rebuild the widgets"] {
        assert!(text.lines().any(|line| line == expected), "{expected:?} must be one of the matched lines, got {text:?}");
    }
}

#[test]
fn a_large_tool_result_is_capped_and_stays_valid_text() {
    let payload = object(vec![("stdout", text(&"e\u{00e9}".repeat(1000)))]);
    let text = string_leaves(&payload, 9);
    assert!(text.len() <= 9, "the text must respect the cap, got {}", text.len());
    assert!("e\u{00e9}".repeat(1000).starts_with(&text), "got {text:?}");
}

#[test]
fn the_stores_own_tools_contribute_no_text_whatever_server_name_they_carry() {
    let scopes = "active:\n- widgets\navailable:\n- rocketry\n";
    for tool in ["mcp__forgetmenot__session_scopes", "mcp__memory__session_scopes"] {
        let plan = plan_of(&tool_result(tool, scopes), "alpha").expect("PostToolUse is known");
        assert!(plan.texts.is_empty(), "{tool} is this server's own tool, got {:?}", plan.texts);
    }
    for tool in ["session_scopes", "Bash"] {
        let plan = plan_of(&tool_result(tool, scopes), "alpha").expect("PostToolUse is known");
        assert_eq!(texts_on(&plan, TriggerField::ToolResult), vec![scopes], "{tool} is not this server's tool");
    }
    let write = plan_of(
        &HookEvent::PreToolUse {
            common: common(Some("/home/dev/widgets"), None),
            tool_name: "mcp__forgetmenot__memory_put".to_string(),
            tool_input: object(vec![("id", text("widget-naming")), ("body", text("the widgets rule"))]),
        },
        "alpha",
    )
    .expect("PreToolUse is known");
    assert!(
        texts_on(&write, TriggerField::ToolInput).is_empty() && texts_on(&write, TriggerField::ToolName).is_empty(),
        "got {:?}",
        write.texts
    );
}

#[test]
fn a_tool_the_store_exempts_contributes_no_text_while_another_still_does() {
    let mut settings = Settings::defaults();
    settings.trigger_exempt_tools = vec!["Read".to_string()];
    let output = "the widgets rule is in the binder";
    let exempt = plan(&tool_result("Read", output), "alpha", None, None, &settings).expect("PostToolUse is known");
    let matched = plan(&tool_result("Grep", output), "alpha", None, None, &settings).expect("PostToolUse is known");
    assert!(exempt.texts.is_empty(), "got {:?}", exempt.texts);
    assert_eq!(texts_on(&matched, TriggerField::ToolResult), vec![output]);
}

#[test]
fn the_answer_read_back_through_a_tool_contributes_no_text_while_other_results_still_do() {
    let answer = "     1\t[forgetmenot] READ THE FILE FIRST. This hook answer is long.\n     \
                  2\t\n     3\t[forgetmenot] context alpha/session-1\n     4\t== scope: \
                  rocketry ==\n     5\t-- critical: rocket-stages --\n";
    let read_back = plan_of(&tool_result("Read", answer), "alpha").expect("PostToolUse is known");
    assert!(read_back.texts.is_empty(), "got {:?}", read_back.texts);

    let mention = "forgetmenot: the rocket stages are in the binder";
    let work = plan_of(&tool_result("Read", mention), "alpha").expect("PostToolUse is known");
    assert_eq!(texts_on(&work, TriggerField::ToolResult), vec![mention]);
}

#[test]
fn a_tool_result_is_matched_only_up_to_the_limit_the_store_set() {
    let limit = 64;
    let mut settings = Settings::defaults();
    settings.tool_result_match_limit = limit;
    let output = "SUPERNOVA in the log. ".repeat(20);
    let plan = plan(&tool_result("Bash", &output), "alpha", None, None, &settings).expect("PostToolUse is known");
    let matched = texts_on(&plan, TriggerField::ToolResult);
    assert_eq!(matched.len(), 1, "one result is one text, got {matched:?}");
    assert_eq!(matched[0].len() as u64, limit as u64, "got {:?}", matched[0]);
    assert!(output.starts_with(matched[0]), "got {:?}", matched[0]);
}

#[test]
fn the_shell_directory_a_plan_matches_is_the_one_its_event_reports() {
    for event in [
        HookEvent::SessionStart { common: common(Some("/start/project"), None) },
        HookEvent::PreToolUse {
            common: common(Some("/start/project"), None),
            tool_name: "Read".to_string(),
            tool_input: object(vec![("file_path", text("/home/dev/notes/README.md"))]),
        },
    ] {
        let plan = plan_of(&event, "alpha").expect("the event is known");
        assert_eq!(texts_on(&plan, TriggerField::ShellDirectory), vec!["/start/project"], "got {:?}", plan.texts);
        assert!(texts_on(&plan, TriggerField::SessionDirectory).is_empty(), "got {:?}", plan.texts);
    }
}

#[test]
fn only_a_tool_call_about_to_run_may_be_stopped() {
    let call = plan_of(
        &HookEvent::PreToolUse {
            common: common(None, None),
            tool_name: "Bash".to_string(),
            tool_input: object(vec![("command", text("cargo test"))]),
        },
        "alpha",
    )
    .expect("PreToolUse is known");
    assert!(call.may_deny, "a call about to run can still be stopped");
    assert_eq!(call.tool_name.as_deref(), Some("Bash"));

    for event in [
        HookEvent::UserPromptSubmit { common: common(None, None), prompt: "rename the widget brackets".to_string() },
        HookEvent::SessionStart { common: common(None, None) },
        HookEvent::Stop { common: common(None, None), last_assistant_message: Some("done".to_string()) },
    ] {
        let plan = plan_of(&event, "alpha").expect("the event is known");
        assert!(!plan.may_deny && plan.tool_name.is_none(), "a {} has no call to stop", plan.event_name);
    }

    let finished = plan_of(&tool_result("Bash", "ok"), "alpha").expect("PostToolUse is known");
    assert!(!finished.may_deny);
}

#[test]
fn cwd_changed_matches_the_directory_now_in_force() {
    let plan = plan_of(
        &HookEvent::CwdChanged { common: common(Some("/work/before"), None), cwd: "/work/after".to_string() },
        "alpha",
    )
    .expect("CwdChanged is a known event");
    assert_eq!(plan.texts, vec![(TriggerField::ShellDirectory, "/work/after".to_string())]);
    assert_eq!(plan.cwd.as_deref(), Some("/work/after"));
}

fn subagent_start() -> HookEvent {
    HookEvent::SubagentStart {
        common: common(None, None),
        agent_id: "agent-7".to_string(),
        agent_type: Some("general-purpose".to_string()),
    }
}

#[test]
fn subagent_start_acts_on_the_child_context_and_matches_the_task_it_was_given() {
    let plan = plan(&subagent_start(), "alpha", Some("survey the widgets crate"), None, &Settings::defaults())
        .expect("SubagentStart is a known event");
    assert_eq!(plan.key, ContextKey::subagent("alpha", "session-1", "agent-7"));
    assert_eq!(plan.texts, vec![(TriggerField::UserMessage, "survey the widgets crate".to_string())]);
    assert_eq!(plan.agent_type.as_deref(), Some("general-purpose"));
}

#[test]
fn a_subagent_start_is_spawned_by_the_agent_the_request_names_and_by_the_session_otherwise() {
    let event = subagent_start();
    let nested = plan(&event, "alpha", Some("survey the widgets crate"), Some("agent-3"), &Settings::defaults())
        .expect("SubagentStart is a known event");
    assert_eq!(nested.parent, Some(ContextKey::subagent("alpha", "session-1", "agent-3")));
    let top_level = plan(&event, "alpha", Some("survey the widgets crate"), None, &Settings::defaults())
        .expect("SubagentStart is a known event");
    assert_eq!(top_level.parent, Some(ContextKey::main("alpha", "session-1")));
}

#[test]
fn an_event_inside_a_subagent_spawns_nothing() {
    let plan = plan(
        &HookEvent::UserPromptSubmit { common: common(None, Some("agent-7")), prompt: "start with the rail".to_string() },
        "alpha",
        Some("survey the widgets crate"),
        Some("agent-3"),
        &Settings::defaults(),
    )
    .expect("UserPromptSubmit is a known event");
    assert_eq!(plan.parent, None);
    assert_eq!(plan.key, ContextKey::subagent("alpha", "session-1", "agent-7"));
}

#[test]
fn only_a_subagent_start_reports_a_size_that_is_not_its_contexts_own() {
    let started = plan(&subagent_start(), "alpha", Some("survey the widgets crate"), None, &Settings::defaults())
        .expect("SubagentStart is a known event");
    assert!(started.tokens_are_the_parents);
    let inside = plan_of(
        &HookEvent::UserPromptSubmit { common: common(None, Some("agent-7")), prompt: "start with the rail".to_string() },
        "alpha",
    )
    .expect("UserPromptSubmit is a known event");
    assert!(!inside.tokens_are_the_parents);
}

#[test]
fn an_event_this_server_does_not_act_on_has_no_plan() {
    assert!(plan_of(&HookEvent::Unknown, "alpha").is_none());
    assert!(plan_of(&HookEvent::PostCompact { common: common(None, None) }, "alpha").is_none());
}

#[test]
fn an_agent_id_of_main_is_the_sessions_own_context() {
    let plan = plan_of(
        &HookEvent::UserPromptSubmit { common: common(None, Some("main")), prompt: "hello".to_string() },
        "alpha",
    )
    .expect("UserPromptSubmit is known");
    assert_eq!(plan.key, ContextKey::main("alpha", "session-1"));
    assert_eq!(plan.event_name, "UserPromptSubmit");
}

#[test]
fn an_empty_prompt_is_no_text_to_match() {
    let plan = plan_of(&HookEvent::UserPromptSubmit { common: common(None, None), prompt: String::new() }, "alpha")
        .expect("UserPromptSubmit is known");
    assert!(plan.texts.is_empty());
}

#[test]
fn the_exemption_takes_the_tool_after_the_last_double_underscore_and_needs_a_server_name() {
    let settings = Settings::defaults();
    assert!(triggers_exempt(&settings, "mcp__a__b__memory_get"));
    assert!(!triggers_exempt(&settings, "mcp____memory_get"));
    assert!(!triggers_exempt(&settings, "mcp__forgetmenot__memory_got"));
    assert!(!triggers_exempt(&settings, "memory_get"));
}

#[test]
fn the_answer_marker_is_found_after_a_numbered_listings_lead() {
    assert!(carries_own_answer("12\u{2192}[forgetmenot] context alpha/session-1"));
    assert!(carries_own_answer("first\r\n  [forgetmenot] context x\r\n"));
    assert!(!carries_own_answer("x[forgetmenot] context alpha"));
    assert!(!carries_own_answer(""));
}

#[test]
fn object_fields_and_arrays_are_read_in_order_and_keys_are_left_out() {
    let text = string_leaves(
        &object(vec![("b", text("second")), ("a", Json::Array(vec![text("third"), Json::Null, Json::Bool(true)]))]),
        usize::MAX,
    );
    assert_eq!(text, "second\nthird");
}
