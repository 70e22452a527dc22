use forgetmenot::events::Json;
use forgetmenot::hook::{parse_arguments, request_body, trim_ascii_whitespace, Arguments, EXIT_USAGE, USAGE};
use forgetmenot::transcript::{
    assistant_context_tokens_in_line, can_still_be_a_title_line, contains, cut_to_characters,
    last_assistant_context_tokens_in, looks_like_user_line, next_newline, prompt_in_user_line, read,
    session_title_from, title_of, title_scan, whole_lines, TitleKind, TitleLineScanner, TitleScan,
};

fn args(v: &[&str]) -> Vec<String> {
    v.iter().map(|s| s.to_string()).collect()
}

fn text(s: &str) -> Json {
    Json::Text(s.to_string())
}

fn object(fields: Vec<(&str, Json)>) -> Json {
    Json::Object(fields.into_iter().map(|(k, v)| (k.to_string(), v)).collect())
}

#[test]
fn the_arguments_are_read_in_either_order() {
    let expected = Arguments { server: "http://lan:8080".to_string(), machine: "alpha".to_string() };
    assert_eq!(parse_arguments(&args(&["--server", "http://lan:8080", "--machine", "alpha"])), Ok(expected.clone()));
    assert_eq!(parse_arguments(&args(&["--machine", "alpha", "--server", "http://lan:8080"])), Ok(expected));
}

#[test]
fn each_problem_with_the_arguments_is_named() {
    assert_eq!(parse_arguments(&args(&["--port", "1"])), Err("unknown argument --port".to_string()));
    assert_eq!(parse_arguments(&args(&["--server"])), Err("--server needs a value".to_string()));
    assert_eq!(parse_arguments(&args(&["--machine", "alpha"])), Err("--server is required".to_string()));
    assert_eq!(parse_arguments(&args(&["--server", "x"])), Err("--machine is required".to_string()));
    assert_eq!(EXIT_USAGE, 2);
    assert!(USAGE.contains("--server URL --machine NAME"));
}

#[test]
fn the_body_splices_the_event_in_as_it_arrived() {
    let body = request_body("alpha", Some(1234), Some("the \"rig\""), None, Some("survey"), b"{\"b\":1,\"a\":2}");
    assert_eq!(
        String::from_utf8(body).unwrap(),
        "{\"machine\":\"alpha\",\"context_tokens\":1234,\"session_title\":\"the \\\"rig\\\"\",\
         \"first_prompt\":null,\"task\":\"survey\",\"hook\":{\"b\":1,\"a\":2}}"
    );
    let empty = request_body("a\nb", None, None, None, None, b"{}");
    assert_eq!(
        String::from_utf8(empty).unwrap(),
        "{\"machine\":\"a\\nb\",\"context_tokens\":null,\"session_title\":null,\"first_prompt\":null,\"task\":null,\"hook\":{}}"
    );
}

#[test]
fn ascii_whitespace_is_trimmed_from_both_ends_and_nothing_else() {
    assert_eq!(trim_ascii_whitespace(b" \t{\"a\":1}\r\n"), b"{\"a\":1}");
    assert_eq!(trim_ascii_whitespace(b"  \n"), b"");
    assert_eq!(trim_ascii_whitespace(b""), b"");
    assert_eq!(trim_ascii_whitespace(b"x"), b"x");
}

const TITLE: &[u8] = b"{\"type\":\"custom-title\",\"customTitle\":\"the rig\",\"sessionId\":\"s\"}";

fn scanned(pieces: &[&[u8]], mid_line: bool) -> Option<Vec<u8>> {
    let mut scanner = TitleLineScanner::new(TitleKind::Custom, mid_line);
    for piece in pieces {
        scanner.consume(piece);
    }
    scanner.last_title_line()
}

#[test]
fn whole_file_scan_finds_a_title_line_that_spans_two_reads() {
    let mut stream = Vec::new();
    stream.extend_from_slice(b"{\"type\":\"user\"}\n");
    stream.extend_from_slice(TITLE);
    stream.extend_from_slice(b"\n{\"type\":\"assistant\"}\n");
    for cut in 0..stream.len() {
        let (a, b) = stream.split_at(cut);
        assert_eq!(scanned(&[a, b], false), Some(TITLE.to_vec()), "cut at {cut}");
    }
}

#[test]
fn the_last_title_line_wins_and_an_unfinished_one_does_not_count() {
    let second = b"{\"type\":\"custom-title\",\"customTitle\":\"second\"}";
    let mut stream = Vec::new();
    stream.extend_from_slice(TITLE);
    stream.push(b'\n');
    stream.extend_from_slice(second);
    stream.push(b'\n');
    stream.extend_from_slice(b"{\"type\":\"custom-title\",\"customTitle\":\"unfinished");
    assert_eq!(scanned(&[&stream], false), Some(second.to_vec()));
}

#[test]
fn a_scan_that_starts_mid_line_drops_the_fragment_before_the_first_newline() {
    let mut stream = Vec::new();
    stream.extend_from_slice(TITLE);
    stream.push(b'\n');
    assert_eq!(scanned(&[&stream], true), None);
    assert_eq!(scanned(&[&stream], false), Some(TITLE.to_vec()));
}

#[test]
fn a_line_can_be_a_title_line_only_while_it_agrees_with_the_prefix() {
    assert!(can_still_be_a_title_line(TitleKind::Custom, b""));
    assert!(can_still_be_a_title_line(TitleKind::Custom, b"{\"type\":\"cus"));
    assert!(can_still_be_a_title_line(TitleKind::Custom, TITLE));
    assert!(!can_still_be_a_title_line(TitleKind::Custom, b"{\"type\":\"user\""));
    let mut long = b"{\"type\":\"custom-title\"".to_vec();
    long.resize(64 * 1024 + 1, b'x');
    assert!(!can_still_be_a_title_line(TitleKind::Custom, &long));
}

#[test]
fn newlines_and_markers_are_found_where_they_are() {
    assert_eq!(next_newline(b"abc\ndef\n"), Some(3));
    assert_eq!(next_newline(b"abcdefghijklmnop"), None);
    assert!(contains(b"xx\"type\":\"user\"yy", b"\"type\":\"user\""));
    assert!(!contains(b"short", b"longer needle"));
    assert!(looks_like_user_line(b"{\"parentUuid\":null,\"type\":\"user\"}"));
    assert!(!looks_like_user_line(b"{\"type\":\"assistant\"}"));
}

#[test]
fn a_long_first_prompt_is_cut_to_two_hundred_characters_not_two_hundred_bytes() {
    let prompt = "\u{00e9}".repeat(300);
    let line = object(vec![("type", text("user")), ("message", object(vec![("content", text(&prompt))]))]);
    let kept = prompt_in_user_line(&line).expect("the line carries a prompt");
    assert_eq!(kept.chars().count(), 200);
    assert_eq!(cut_to_characters("abc", 200), "abc");
}

#[test]
fn client_skips_the_harness_turns_that_precede_the_first_prompt() {
    let meta = object(vec![
        ("type", text("user")),
        ("isMeta", Json::Bool(true)),
        ("message", object(vec![("content", text("Base directory for this skill"))])),
    ]);
    assert_eq!(prompt_in_user_line(&meta), None);
    let command = object(vec![
        ("type", text("user")),
        ("message", object(vec![("content", text("  <command-name>/model</command-name>"))])),
    ]);
    assert_eq!(prompt_in_user_line(&command), None);
    let blank = object(vec![("type", text("user")), ("message", object(vec![("content", text("  \n"))]))]);
    assert_eq!(prompt_in_user_line(&blank), None);
    let assistant = object(vec![("type", text("assistant")), ("message", object(vec![("content", text("hi"))]))]);
    assert_eq!(prompt_in_user_line(&assistant), None);
}

#[test]
fn client_joins_the_text_blocks_of_a_first_prompt_written_as_content_blocks() {
    let line = object(vec![
        ("type", text("user")),
        (
            "message",
            object(vec![(
                "content",
                Json::Array(vec![
                    object(vec![("type", text("text")), ("text", text("fix the rail"))]),
                    object(vec![("type", text("image")), ("source", text("..."))]),
                    object(vec![("type", text("text")), ("text", text("and the vice"))]),
                ]),
            )]),
        ),
    ]);
    assert_eq!(prompt_in_user_line(&line), Some("fix the rail\nand the vice".to_string()));
}

fn assistant_line(usage: Vec<(&str, Json)>) -> Json {
    object(vec![("type", text("assistant")), ("message", object(vec![("usage", object(usage))]))])
}

#[test]
fn transcript_tail_counts_an_absent_cache_counter_as_zero() {
    let line = assistant_line(vec![("input_tokens", Json::Number(Some(10))), ("cache_read_input_tokens", Json::Number(Some(5)))]);
    assert_eq!(assistant_context_tokens_in_line(&line), Some(15));
}

#[test]
fn the_last_assistant_line_with_a_usage_record_gives_the_size() {
    let lines = vec![
        Some(assistant_line(vec![("input_tokens", Json::Number(Some(1)))])),
        Some(assistant_line(vec![
            ("input_tokens", Json::Number(Some(100))),
            ("cache_read_input_tokens", Json::Number(Some(20))),
            ("cache_creation_input_tokens", Json::Number(Some(3))),
        ])),
        Some(object(vec![("type", text("user"))])),
        None,
    ];
    assert_eq!(last_assistant_context_tokens_in(&lines), Some(123));
    assert_eq!(last_assistant_context_tokens_in(&vec![None, Some(object(vec![("type", text("user"))]))]), None);
}

#[test]
fn a_window_inside_the_file_starts_after_its_first_newline() {
    assert_eq!(whole_lines(b"tail of a line\n{\"a\":1}\n", false), b"{\"a\":1}\n");
    assert_eq!(whole_lines(b"no newline at all", false), b"");
    assert_eq!(whole_lines(b"from the start\n", true), b"from the start\n");
}

#[test]
fn the_title_and_the_task_are_read_from_their_fields() {
    let title_line = object(vec![("type", text("custom-title")), ("customTitle", text("the rig"))]);
    assert_eq!(title_of(TitleKind::Custom, &title_line), Some("the rig".to_string()));
    assert_eq!(title_scan(Some("SessionStart")), TitleScan::WholeFile);
    assert_eq!(title_scan(Some("Stop")), TitleScan::TailWindow);
    assert_eq!(title_scan(None), TitleScan::TailWindow);

    let meta = object(vec![
        ("agentType", text("general-purpose")),
        ("description", text(&"x".repeat(250))),
        ("parentAgentId", text("")),
    ]);
    let read_back = read(Some(&meta));
    assert_eq!(read_back.task.map(|t| t.len()), Some(200));
    assert_eq!(read_back.parent_agent_id, None);
    let nested = object(vec![("description", text("survey")), ("parentAgentId", text("agent-3"))]);
    let read_nested = read(Some(&nested));
    assert_eq!(read_nested.task.as_deref(), Some("survey"));
    assert_eq!(read_nested.parent_agent_id.as_deref(), Some("agent-3"));
    assert_eq!(read(None).task, None);
}

#[test]
fn a_long_task_is_cut_to_two_hundred_characters_not_two_hundred_bytes() {
    let description = format!("{}{}", "é".repeat(150), "a".repeat(150));
    let expected = format!("{}{}", "é".repeat(150), "a".repeat(50));
    assert_eq!(expected.chars().count(), 200);
    let meta = object(vec![("description", text(&description))]);
    assert_eq!(read(Some(&meta)).task.as_deref(), Some(expected.as_str()));
}

/// A line of a transcript as the library holds a parsed one.
fn parsed(value: &serde_json::Value) -> Json {
    match value {
        serde_json::Value::Null => Json::Null,
        serde_json::Value::Bool(b) => Json::Bool(*b),
        serde_json::Value::Number(n) => Json::Number(n.as_u64()),
        serde_json::Value::String(s) => Json::Text(s.clone()),
        serde_json::Value::Array(items) => Json::Array(items.iter().map(parsed).collect()),
        serde_json::Value::Object(fields) => {
            Json::Object(fields.iter().map(|(key, value)| (key.clone(), parsed(value))).collect())
        }
    }
}

/// A transcript line written with `type` first, the way the harness writes it.
fn typed_line(kind: &str, fields: &[(&str, &str)]) -> String {
    let mut line = format!("{{\"type\":\"{kind}\"");
    for (key, value) in fields {
        line.push_str(&format!(",\"{key}\":{}", serde_json::to_string(value).expect("a string")));
    }
    line.push('}');
    line
}

fn user_line(prompt: &str) -> String {
    format!(
        "{{\"parentUuid\":null,\"isSidechain\":false,\"promptId\":\"prompt-1\",\"type\":\"user\",\"message\":{{\"role\":\"user\",\"content\":{}}}}}",
        serde_json::to_string(prompt).expect("a string")
    )
}

/// The first prompt of a transcript, from its first user line that carries one.
fn first_prompt_of(lines: &[String]) -> Option<String> {
    lines.iter().find_map(|line| {
        let value = serde_json::from_str::<serde_json::Value>(line).ok()?;
        prompt_in_user_line(&parsed(&value))
    })
}

fn title_line(title: &str) -> String {
    typed_line("custom-title", &[("customTitle", title), ("sessionId", "session-1")])
}

fn ai_title_line(title: &str) -> String {
    typed_line("ai-title", &[("aiTitle", title), ("sessionId", "session-1")])
}

fn summary_line(summary: &str) -> String {
    typed_line("summary", &[("summary", summary), ("leafUuid", "6f1d2c3e-0000-4000-8000-000000000001")])
}

fn assistant_text_line() -> String {
    "{\"type\":\"assistant\",\"message\":{\"role\":\"assistant\"}}".to_string()
}

/// The name a whole transcript gives its session, scanned the way the client
/// scans it.
fn session_title_of(lines: &[String]) -> Option<String> {
    let mut text = String::new();
    for line in lines {
        text.push_str(line);
        text.push('\n');
    }
    let mut scanners =
        [TitleKind::Custom, TitleKind::Generated, TitleKind::Summary].map(|kind| TitleLineScanner::new(kind, false));
    for scanner in scanners.iter_mut() {
        scanner.consume(text.as_bytes());
    }
    let found: Vec<Option<Json>> = scanners
        .iter()
        .map(|scanner| {
            scanner
                .last_title_line()
                .and_then(|line| serde_json::from_slice::<serde_json::Value>(&line).ok())
                .map(|value| parsed(&value))
        })
        .collect();
    session_title_from(found[0].as_ref(), found[1].as_ref(), found[2].as_ref())
}

#[test]
fn client_sends_the_last_custom_title_line_and_the_first_prompt() {
    let lines = [
        user_line("the very first prompt"),
        title_line("the name it was given first"),
        assistant_text_line(),
        user_line("a later prompt"),
        title_line("the name in force"),
    ];
    assert_eq!(session_title_of(&lines).as_deref(), Some("the name in force"));
    assert_eq!(first_prompt_of(&lines).as_deref(), Some("the very first prompt"));
}

#[test]
fn client_sends_no_title_for_a_session_that_was_never_named() {
    let lines = [user_line("the very first prompt"), assistant_text_line()];
    assert_eq!(session_title_of(&lines), None);
    assert_eq!(first_prompt_of(&lines).as_deref(), Some("the very first prompt"));
}

#[test]
fn client_sends_the_users_title_rather_than_the_generated_one_written_after_it() {
    let lines = [
        user_line("the very first prompt"),
        title_line("the name the user typed"),
        ai_title_line("the name the harness wrote afterwards"),
        summary_line("what a compaction made of it"),
    ];
    assert_eq!(session_title_of(&lines).as_deref(), Some("the name the user typed"));
}

#[test]
fn client_sends_the_generated_title_of_a_session_the_user_never_named() {
    let lines = [
        user_line("the very first prompt"),
        ai_title_line("the name it was given first"),
        assistant_text_line(),
        ai_title_line("the generated name in force"),
    ];
    assert_eq!(session_title_of(&lines).as_deref(), Some("the generated name in force"));
}

#[test]
fn client_sends_the_compaction_summary_of_a_session_with_no_title_line() {
    let lines = [user_line("the very first prompt"), summary_line("Rebuilding the thermocouple rig")];
    assert_eq!(session_title_of(&lines).as_deref(), Some("Rebuilding the thermocouple rig"));
}
