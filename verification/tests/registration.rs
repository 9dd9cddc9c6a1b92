use artesian::assistant::Assistant;
use artesian::registration::{
    codex_servers, collect_registrations, existing_command_for, final_target, is_artesian_like,
    is_cellar_pinned, json_document_servers, plan_registration, probe_version_label,
    raw_entry_from_json, read_claude_style_json, read_codex_toml, read_entries, read_zed_json,
    registered_command, registration_sources, resolve_registration_command, script_exec_target,
    version_token, RawServerEntry, RegistrationAction, RegistrationKind, RegistrationSource,
    SourceText, CELLAR_STABLE_PATH,
};
use artesian::json::Json;
use artesian::text_map::TextMap;
use artesian::toml_doc::Toml;
use artesian::update::VersionProbe;

fn assistant() -> Assistant {
    Assistant::new("Acme", "Acme Code", "acme")
}

fn entry(command: &str) -> RawServerEntry {
    RawServerEntry { command: command.to_string(), args: Vec::new(), env: TextMap::new() }
}

#[test]
fn cellar_path_is_detected() {
    assert!(is_cellar_pinned("/opt/homebrew/Cellar/artesian/0.5.2/bin/artesian-mcp"));
    assert!(!is_cellar_pinned("/opt/homebrew/opt/artesian/bin/artesian-mcp"));
    assert!(!is_cellar_pinned("artesian-mcp"));
}

#[test]
fn resolve_registration_command_keeps_default_when_not_cellar_pinned() {
    assert_eq!(
        resolve_registration_command("artesian-mcp", Some("/work/target/debug/artesian"), true),
        "artesian-mcp"
    );
    assert_eq!(resolve_registration_command("artesian-mcp", None, true), "artesian-mcp");
}

#[test]
fn resolve_registration_command_prefers_the_stable_path_of_a_cellar() {
    let exe = "/opt/homebrew/Cellar/artesian/0.5.9/bin/artesian";
    assert_eq!(
        resolve_registration_command("artesian-mcp", Some(exe), true),
        CELLAR_STABLE_PATH
    );
    assert_eq!(resolve_registration_command("artesian-mcp", Some(exe), false), "artesian-mcp");
}

#[test]
fn script_exec_target_extracts_final_exec_binary() {
    let script =
        "#!/bin/sh\nif [ -z \"$QDRANT_API_KEY\" ]; then\n  true\nfi\nexec artesian-mcp \"$@\"\n";
    assert_eq!(script_exec_target(script), Some("artesian-mcp".to_string()));
}

#[test]
fn script_exec_target_none_for_non_script() {
    assert_eq!(script_exec_target("just some text\n"), None);
}

#[test]
fn script_exec_target_takes_the_last_exec_line() {
    assert_eq!(
        script_exec_target("#!/bin/sh\nexec first\n  exec \"second\"  arg\n"),
        Some("second".to_string())
    );
    assert_eq!(script_exec_target("#!/bin/sh\necho hello\n"), None);
    assert_eq!(script_exec_target("#!/bin/sh\nexecute this\n"), None);
}

#[test]
fn plan_registration_writes_when_nothing_registered_yet() {
    assert_eq!(
        plan_registration(None, "artesian-mcp", false),
        RegistrationAction::Write { replaced_stale: false }
    );
}

#[test]
fn plan_registration_writes_when_identical() {
    assert_eq!(
        plan_registration(Some("artesian-mcp"), "artesian-mcp", false),
        RegistrationAction::Write { replaced_stale: false }
    );
}

#[test]
fn plan_registration_replaces_missing_binary() {
    let action = plan_registration(
        Some("/definitely/does/not/exist/artesian-mcp"),
        "artesian-mcp",
        false,
    );
    assert_eq!(action, RegistrationAction::Write { replaced_stale: true });
}

#[test]
fn plan_registration_skips_when_existing_binary_still_works() {
    let existing = "/tmp/artesian-mcp-old";
    assert_eq!(
        plan_registration(Some(existing), "artesian-mcp", true),
        RegistrationAction::Skip { existing_command: existing.to_string() }
    );
}

#[test]
fn version_token_takes_last_whitespace_separated_word() {
    assert_eq!(version_token("artesian-mcp 0.5.9"), "0.5.9");
    assert_eq!(version_token("0.5.9"), "0.5.9");
}

#[test]
fn version_token_follows_the_last_space() {
    assert_eq!(version_token("artesian-mcp 0.5.9\n"), "0.5.9");
    assert_eq!(version_token("artesian-mcp "), "");
    assert_eq!(version_token("artesian-mcp\t0.5.9"), "artesian-mcp\t0.5.9");
}

#[test]
fn version_labels_tell_what_was_found() {
    assert_eq!(
        probe_version_label(Some(&VersionProbe::Found("artesian-mcp 0.5.9".to_string()))),
        "0.5.9"
    );
    assert_eq!(
        probe_version_label(Some(&VersionProbe::Failed("boom".to_string()))),
        "error: boom"
    );
    assert_eq!(probe_version_label(Some(&VersionProbe::NotInstalled)), "not found");
    assert_eq!(probe_version_label(None), "not found");
}

#[test]
fn read_claude_style_json_parses_mcp_servers() {
    let entries = read_claude_style_json(
        r#"{"mcpServers":{"artesian-memory":{"command":"artesian-mcp","args":["--config","artesian.toml"],"env":{"FOO":"bar"}}}}"#,
    );
    let entry = entries.get("artesian-memory").expect("entry present");
    assert_eq!(entry.command, "artesian-mcp");
    assert_eq!(entry.args, vec!["--config", "artesian.toml"]);
    assert_eq!(entry.env.get("FOO"), Some(&"bar".to_string()));
}

#[test]
fn read_codex_toml_parses_mcp_servers_table() {
    let entries = read_codex_toml(
        "[mcp_servers.artesian-memory]\ncommand = \"artesian-mcp\"\nargs = [\"--config\", \"artesian.toml\"]\n\n[mcp_servers.artesian-memory.env]\nARTESIAN_MCP_TOOL_HINT = \"hint\"\n",
    );
    let entry = entries.get("artesian-memory").expect("entry present");
    assert_eq!(entry.command, "artesian-mcp");
    assert_eq!(entry.args, vec!["--config", "artesian.toml"]);
    assert_eq!(entry.env.get("ARTESIAN_MCP_TOOL_HINT"), Some(&"hint".to_string()));
}

#[test]
fn read_codex_toml_accepts_inline_tables_for_entries() {
    let entries = read_codex_toml(
        "[mcp_servers]\nmemory = { command = \"artesian-mcp\", env = { A = \"1\", B = 2 } }\n",
    );
    let entry = entries.get("memory").expect("entry present");
    assert_eq!(entry.command, "artesian-mcp");
    assert_eq!(entry.args.len(), 0);
    assert_eq!(entry.env.keys(), vec!["A"]);

    let inline = read_codex_toml("mcp_servers = { memory = { command = \"artesian-mcp\" } }\n");
    assert_eq!(inline.len(), 0);
}

#[test]
fn read_zed_json_takes_the_command_object() {
    let entries = read_zed_json(
        r#"{"context_servers":{"artesian":{"command":{"path":"artesian-mcp","args":["-v"],"env":{"A":"1"}}},"other":{"source":"custom"}}}"#,
    );
    let entry = entries.get("artesian").expect("entry present");
    assert_eq!(entry.command, "artesian-mcp");
    assert_eq!(entry.args, vec!["-v"]);
    assert_eq!(entry.env.get("A"), Some(&"1".to_string()));
    assert_eq!(entries.get("other").expect("entry present").command, "");
    assert_eq!(read_zed_json(r#"{"mcpServers":{"x":{"command":"y"}}}"#).len(), 0);
}

#[test]
fn unreadable_registrations_are_empty() {
    assert_eq!(read_claude_style_json("not json").len(), 0);
    assert_eq!(read_claude_style_json("[]").len(), 0);
    assert_eq!(read_zed_json("{").len(), 0);
    assert_eq!(read_codex_toml("= broken").len(), 0);
}

#[test]
fn raw_entries_take_text_only() {
    let value = Json::Object(vec![
        ("command".to_string(), Json::Text("run".to_string())),
        (
            "args".to_string(),
            Json::Array(vec![Json::Text("a".to_string()), Json::Null, Json::Text("b".to_string())]),
        ),
        (
            "env".to_string(),
            Json::Object(vec![
                ("K".to_string(), Json::Text("v".to_string())),
                ("N".to_string(), Json::Bool(true)),
            ]),
        ),
    ]);
    let raw = raw_entry_from_json(&value);
    assert_eq!(raw.command, "run");
    assert_eq!(raw.args, vec!["a", "b"]);
    assert_eq!(raw.env.keys(), vec!["K"]);
    assert_eq!(raw_entry_from_json(&Json::Null).command, "");
}

#[test]
fn documents_without_servers_have_none() {
    assert_eq!(json_document_servers(&Json::Object(Vec::new()), false).len(), 0);
    assert_eq!(json_document_servers(&Json::Null, true).len(), 0);
    assert_eq!(codex_servers(&Toml::Other).len(), 0);
}

#[test]
fn sources_follow_the_home_directory() {
    let none = registration_sources(&assistant(), None, None);
    assert_eq!(none.len(), 1);
    assert_eq!(none[0].label, "Acme Code (project .mcp.json)");
    assert_eq!(none[0].path, ".mcp.json");

    let all = registration_sources(
        &assistant(),
        Some("/home/me"),
        Some("/home/me/.config/zed/settings.json"),
    );
    let paths: Vec<&str> = all.iter().map(|source| source.path.as_str()).collect();
    assert_eq!(
        paths,
        vec![
            ".mcp.json",
            "/home/me/.acme.json",
            "/home/me/.codex/config.toml",
            "/home/me/.config/zed/settings.json"
        ]
    );
    assert_eq!(all[1].label, "Acme Code (user ~/.acme.json)");
    assert_eq!(all[2].kind, RegistrationKind::Codex);
    assert_eq!(all[3].label, "Zed");
}

#[test]
fn existing_commands_are_found_by_server() {
    let source = RegistrationSource {
        label: "Zed".to_string(),
        path: "settings.json".to_string(),
        kind: RegistrationKind::Zed,
    };
    let content = r#"{"context_servers":{"memory":{"command":{"path":"artesian-mcp"}},"blank":{}}}"#;
    assert_eq!(
        existing_command_for(&source, Some(content), "memory"),
        Some("artesian-mcp".to_string())
    );
    assert_eq!(existing_command_for(&source, Some(content), "other"), None);
    assert_eq!(existing_command_for(&source, Some(content), "blank"), None);
    assert_eq!(existing_command_for(&source, None, "memory"), None);
    assert_eq!(read_entries(&source, None).len(), 0);
    let entries = read_entries(&source, Some(content));
    assert_eq!(registered_command(&entries, "memory"), Some("artesian-mcp".to_string()));
}

#[test]
fn final_targets_look_through_scripts() {
    assert_eq!(final_target("run", None, None, None), "run");
    assert_eq!(final_target("run", Some("/bin/run"), None, None), "/bin/run");
    assert_eq!(
        final_target("run", Some("/bin/run"), Some("artesian-mcp"), Some("/bin/artesian-mcp")),
        "/bin/artesian-mcp"
    );
    assert_eq!(
        final_target("run", Some("/bin/run"), Some("artesian-mcp"), None),
        "artesian-mcp"
    );
}

#[test]
fn artesian_entries_are_told_by_name_program_or_script() {
    assert!(is_artesian_like("artesian-memory", &entry("anything"), None));
    assert!(is_artesian_like("memory", &entry("/usr/bin/artesian-mcp"), None));
    assert!(is_artesian_like("memory", &entry("/usr/bin/run.sh"), Some("artesian-mcp")));
    assert!(!is_artesian_like("memory", &entry("/usr/bin/run.sh"), Some("other")));
    assert!(!is_artesian_like("memory", &entry("/usr/bin/run.sh"), None));
}

#[test]
fn registrations_keep_only_artesian_entries() {
    let sources = registration_sources(&assistant(), Some("/home/me"), None);
    let contents = vec![
        Some(
            r#"{"mcpServers":{"zeta":{"command":"/bin/artesian-mcp"},"artesian":{"command":"/bin/x"},"other":{"command":"/bin/y"}}}"#
                .to_string(),
        ),
        None,
        Some("[mcp_servers.memory]\ncommand = \"/bin/z\"\n".to_string()),
    ];
    let texts: Vec<SourceText> = sources
        .into_iter()
        .zip(contents)
        .map(|(source, content)| SourceText { source, content })
        .collect();
    let mut targets: TextMap<String> = TextMap::new();
    targets.insert("/bin/z".to_string(), "artesian-mcp".to_string());
    let found = collect_registrations(&texts, &targets);
    let names: Vec<(&str, &str)> = found
        .iter()
        .map(|reg| (reg.source_label.as_str(), reg.server_name.as_str()))
        .collect();
    assert_eq!(
        names,
        vec![
            ("Acme Code (project .mcp.json)", "artesian"),
            ("Acme Code (project .mcp.json)", "zeta"),
            ("Codex", "memory"),
        ]
    );
    assert_eq!(found[2].entry.command, "/bin/z");
    assert_eq!(collect_registrations(&texts, &TextMap::new()).len(), 2);
}

#[test]
fn assistants_are_named_after_their_command() {
    let acme = Assistant::for_command("acme");
    assert_eq!(acme, Assistant::new("Acme", "Acme Code", "acme"));
    assert_eq!(acme.directory(), ".acme");
    let sources = registration_sources(&acme, Some("/home/me"), None);
    assert_eq!(sources[0].label, "Acme Code (project .mcp.json)");
    assert_eq!(sources[0].path, ".mcp.json");
    assert_eq!(sources[1].label, "Acme Code (user ~/.acme.json)");
    assert_eq!(sources[1].path, "/home/me/.acme.json");
    assert_eq!(Assistant::for_command("").product, " Code");
    assert_eq!(Assistant::for_command("9x").name, "9x");
}
