use artesian::assistant::Assistant;
use artesian::handshake::{
    begin_handshake, count_tools, handle_answer, handle_reply, initialize_line, trouble_text,
    HandshakeAction, HandshakeState, HandshakeTrouble, HANDSHAKE_TIMEOUT_SECS,
};
use artesian::json::{read_json, string_list, Json};
use artesian::session::{
    analyze_session, claude_projects_dir_for, encode_claude_project_dir, extension,
    parse_mcp_tool_name, recent_session_files, server_is_artesian, SessionFile, SessionScan,
    MAX_STALE_RESUME_SESSIONS,
};

#[test]
fn encode_claude_project_dir_replaces_slash_and_dot() {
    assert_eq!(
        encode_claude_project_dir("/Users/alice/Documents/git/artesian"),
        "-Users-alice-Documents-git-artesian"
    );
    assert_eq!(encode_claude_project_dir("/Users/alice/proj.name"), "-Users-alice-proj-name");
}

#[test]
fn transcripts_lie_below_the_home_of_the_assistant() {
    let assistant = Assistant::new("Acme", "Acme Code", "acme");
    assert_eq!(
        claude_projects_dir_for(&assistant, "/home/me", "/work/a.b"),
        "/home/me/.acme/projects/-work-a-b"
    );
}

#[test]
fn parse_mcp_tool_name_splits_on_first_double_underscore() {
    assert_eq!(
        parse_mcp_tool_name("mcp__artesian-memory__memory_find"),
        Some(("artesian-memory", "memory_find"))
    );
    assert_eq!(
        parse_mcp_tool_name("mcp__claude_ai_Gmail__apply_sensitive_message_label"),
        Some(("claude_ai_Gmail", "apply_sensitive_message_label"))
    );
    assert_eq!(parse_mcp_tool_name("EnterWorktree"), None);
}

#[test]
fn parse_mcp_tool_name_keeps_later_underscores_and_other_letters() {
    assert_eq!(parse_mcp_tool_name("mcp__a__b__c"), Some(("a", "b__c")));
    assert_eq!(parse_mcp_tool_name("mcp__\u{e9}t\u{e9}__caf\u{e9}"), Some(("\u{e9}t\u{e9}", "caf\u{e9}")));
    assert_eq!(parse_mcp_tool_name("mcp__only"), None);
    assert_eq!(parse_mcp_tool_name("mcp____"), Some(("", "")));
    assert_eq!(parse_mcp_tool_name("mcp_____x"), Some(("", "_x")));
}

#[test]
fn servers_of_the_tools_are_told_by_name() {
    assert!(server_is_artesian("My-Artesian-Memory"));
    assert!(!server_is_artesian("memory"));
}

fn tools_delta(session: &str, time: &str, added: &str, removed: &str, readded: &str) -> String {
    format!(
        r#"{{"sessionId":"{session}","timestamp":"{time}","attachment":{{"type":"deferred_tools_delta","addedNames":[{added}],"removedNames":[{removed}],"readdedNames":[{readded}]}}}}"#
    )
}

fn instructions_delta(session: &str, time: &str, added: &str) -> String {
    format!(
        r#"{{"sessionId":"{session}","timestamp":"{time}","attachment":{{"type":"mcp_instructions_delta","addedNames":[{added}],"removedNames":[]}}}}"#
    )
}

const TOOL: &str = "\"mcp__artesian-memory__memory_find\"";
const SERVER: &str = "\"artesian-memory\"";

#[test]
fn analyze_session_flags_removal_never_readded_with_instructions_back() {
    let lines = vec![
        tools_delta("sess-1", "2026-06-17T22:00:00.000Z", TOOL, "", ""),
        tools_delta("sess-1", "2026-06-17T22:01:00.000Z", "", TOOL, ""),
        instructions_delta("sess-1", "2026-06-17T22:03:45.518Z", SERVER),
    ];

    let findings = analyze_session("session.jsonl", &lines);
    assert_eq!(findings.len(), 1);
    assert_eq!(findings[0].server_name, "artesian-memory");
    assert_eq!(findings[0].session_id.as_deref(), Some("sess-1"));
    assert_eq!(findings[0].removed_at.as_deref(), Some("2026-06-17T22:01:00.000Z"));
    assert_eq!(findings[0].session_file, "session.jsonl");
}

#[test]
fn analyze_session_is_clean_when_tools_are_readded() {
    let lines = vec![
        tools_delta("sess-2", "2026-06-17T22:01:00.000Z", "", TOOL, ""),
        tools_delta("sess-2", "2026-06-17T22:02:00.000Z", "", "", TOOL),
        instructions_delta("sess-2", "2026-06-17T22:03:45.518Z", SERVER),
    ];

    let findings = analyze_session("session.jsonl", &lines);
    assert!(findings.is_empty());
}

#[test]
fn analyze_session_is_clean_without_instructions() {
    let lines = vec![tools_delta("sess-3", "t", "", TOOL, "")];
    assert!(analyze_session("s", &lines).is_empty());
}

#[test]
fn analyze_session_forgets_what_came_before_a_removal() {
    let lines = vec![
        tools_delta("s", "t1", "", TOOL, ""),
        instructions_delta("s", "t2", SERVER),
        tools_delta("s", "t3", "", TOOL, ""),
    ];
    assert!(analyze_session("s", &lines).is_empty());
}

#[test]
fn analyze_session_passes_over_other_lines_and_servers() {
    let other = "\"mcp__other__tool\"";
    let lines = vec![
        "deferred_tools_delta but not json".to_string(),
        "{\"sessionId\":\"ignored\"}".to_string(),
        tools_delta("s", "t1", "", other, ""),
        instructions_delta("s", "t2", "\"other\""),
    ];
    assert!(analyze_session("s", &lines).is_empty());
}

fn untimed_removal() -> String {
    format!(r#"{{"attachment":{{"type":"deferred_tools_delta","removedNames":[{TOOL}]}}}}"#)
}

fn untimed_instructions() -> String {
    format!(r#"{{"attachment":{{"type":"mcp_instructions_delta","addedNames":[{SERVER}]}}}}"#)
}

#[test]
fn analyze_session_flags_a_removal_without_a_time() {
    let lines =
        vec![untimed_removal(), instructions_delta("s", "2026-06-17T22:03:45.518Z", SERVER)];
    let findings = analyze_session("s", &lines);
    assert_eq!(findings.len(), 1);
    assert_eq!(findings[0].server_name, "artesian-memory");
    assert_eq!(findings[0].removed_at, None);
}

#[test]
fn analyze_session_flags_instructions_without_a_time() {
    let lines = vec![tools_delta("s", "t1", "", TOOL, ""), untimed_instructions()];
    let findings = analyze_session("s", &lines);
    assert_eq!(findings.len(), 1);
    assert_eq!(findings[0].removed_at.as_deref(), Some("t1"));

    let later = vec![
        tools_delta("s", "t1", "", TOOL, ""),
        instructions_delta("s", "t2", SERVER),
        untimed_instructions(),
    ];
    assert_eq!(analyze_session("s", &later).len(), 1);
}

#[test]
fn analyze_session_takes_back_a_removal_without_a_time() {
    let readded = vec![
        untimed_removal(),
        tools_delta("s", "t2", TOOL, "", ""),
        untimed_instructions(),
    ];
    assert!(analyze_session("s", &readded).is_empty());
    let replaced = vec![
        tools_delta("s", "t1", "", TOOL, ""),
        untimed_removal(),
        untimed_instructions(),
    ];
    let findings = analyze_session("s", &replaced);
    assert_eq!(findings.len(), 1);
    assert_eq!(findings[0].removed_at, None);
}

#[test]
fn scans_keep_the_first_session_id() {
    let mut scan = SessionScan::new();
    scan.observe_line(&tools_delta("first", "t1", "", TOOL, ""));
    scan.observe_line(&instructions_delta("second", "t2", SERVER));
    let findings = scan.findings("f");
    assert_eq!(findings.len(), 1);
    assert_eq!(findings[0].session_id.as_deref(), Some("first"));
}

fn file(secs: i64, path: &str) -> SessionFile {
    SessionFile { modified_secs: secs, modified_nanos: 0, path: path.to_string() }
}

#[test]
fn recent_session_files_are_newest_first() {
    let files = vec![
        file(1, "/d/old.jsonl"),
        file(3, "/d/new.jsonl"),
        file(9, "/d/notes.txt"),
        file(3, "/d/same.jsonl"),
        file(2, "/d/middle.jsonl"),
    ];
    assert_eq!(
        recent_session_files(files, 3),
        vec!["/d/new.jsonl", "/d/same.jsonl", "/d/middle.jsonl"]
    );
    assert_eq!(recent_session_files(Vec::new(), MAX_STALE_RESUME_SESSIONS).len(), 0);
}

#[test]
fn extensions_follow_the_last_dot_of_the_name() {
    for path in ["/d/a.jsonl", "/d/.jsonl", "a.b.jsonl", "/d/a.", "a", "/d.jsonl/", "..", ""] {
        let expected = std::path::Path::new(path)
            .extension()
            .and_then(|ext| ext.to_str())
            .map(str::to_string);
        assert_eq!(extension(path), expected, "{path}");
    }
}

#[test]
fn json_documents_are_read() {
    let value = read_json(r#"{"b":[1,"x",null,true],"a":{"k":"v"}}"#).expect("valid");
    assert_eq!(value.get("a").and_then(|a| a.get_text("k")), Some("v".to_string()));
    assert_eq!(string_list(value.get("b")), vec!["x"]);
    assert_eq!(string_list(value.get("missing")).len(), 0);
    assert!(matches!(value.get("b"), Some(Json::Array(items)) if items.len() == 4));
    assert!(value.get("k").is_none());
    assert!(read_json("{").is_none());
    assert_eq!(read_json("\"t\"").and_then(|v| v.as_str().map(str::to_string)), Some("t".to_string()));
}

#[test]
fn a_handshake_takes_two_answers() {
    assert_eq!(HANDSHAKE_TIMEOUT_SECS, 20);
    let (state, action) = begin_handshake();
    assert!(matches!(state, HandshakeState::AwaitInitialize));
    match action {
        HandshakeAction::Exchange(lines) => {
            assert_eq!(lines.len(), 1);
            assert_eq!(lines[0], initialize_line());
            assert!(lines[0].contains("\"protocolVersion\":\"2024-11-05\""));
            assert!(read_json(&lines[0]).is_some());
        }
        _ => panic!("a handshake begins with an exchange"),
    }

    let (state, action) =
        handle_reply(state, Some(r#"{"jsonrpc":"2.0","id":1,"result":{"capabilities":{}}}"#));
    assert!(matches!(state, HandshakeState::AwaitTools));
    match action {
        HandshakeAction::Exchange(lines) => {
            assert_eq!(lines.len(), 2);
            assert!(lines[0].contains("notifications/initialized"));
            assert!(lines[1].contains("tools/list"));
        }
        _ => panic!("tools are asked for"),
    }

    let (state, action) = handle_reply(
        state,
        Some(
            r#"{"jsonrpc":"2.0","id":2,"result":{"tools":[{"name":"memory_find"},{"name":"memory_store"}]}}"#,
        ),
    );
    assert!(matches!(state, HandshakeState::Finished));
    assert!(matches!(action, HandshakeAction::Done { tools_count: 2 }));
}

#[test]
fn a_handshake_fails_on_silence_and_on_noise() {
    let (_, action) = handle_reply(HandshakeState::AwaitInitialize, None);
    assert!(matches!(
        action,
        HandshakeAction::Fail(ref message)
            if message == "child closed its stdout before responding"
    ));
    let (_, action) = handle_reply(HandshakeState::AwaitTools, Some(" noise \n"));
    assert!(matches!(
        action,
        HandshakeAction::Fail(ref message)
            if message == "parse JSON-RPC response line: noise"
    ));
}

#[test]
fn answers_without_tools_count_none() {
    assert_eq!(count_tools(&Json::Null), 0);
    assert_eq!(count_tools(&read_json(r#"{"result":{"tools":{}}}"#).expect("valid")), 0);
    let (state, action) = handle_answer(HandshakeState::AwaitTools, &Json::Null);
    assert!(matches!(state, HandshakeState::Finished));
    assert!(matches!(action, HandshakeAction::Done { tools_count: 0 }));
}

#[test]
fn handshake_troubles_have_their_words() {
    assert_eq!(trouble_text(HandshakeTrouble::TimedOut, "x"), "handshake timed out");
    assert_eq!(trouble_text(HandshakeTrouble::Spawn, "x"), "spawn `x`");
    assert_eq!(trouble_text(HandshakeTrouble::NoStdin, "x"), "child has no stdin");
    assert_eq!(trouble_text(HandshakeTrouble::NoStdout, "x"), "child has no stdout");
}

#[test]
fn encoded_directories_are_one_name() {
    let encoded = encode_claude_project_dir("../a/./b.c");
    assert_eq!(encoded, "---a---b-c");
    assert_eq!(encode_claude_project_dir(&encoded), encoded);
}
