use artesian::agent::{
    build_invocation, process_outcome, read_outcome, render_arg, sanitize_agent_id, timeout_error,
    turn_events, AgentCapabilities, AgentError, AgentEvent, ProcessAgent, ProcessAgentConfig,
    ProcessAgentRuntime, RoleNames, SessionContext, SpawnRequest, Timeout,
};
use artesian::assistant::Assistant;
use artesian::setup::{
    check_daemon_mode, detect_agents, init_outcome, known_agents, memory_root_context, pick,
    spawn_line, BindingRole, SandboxProfile, TuiStatus, MEMORY_SERVER_INSTRUCTIONS,
};

fn worker() -> RoleNames {
    RoleNames { canonical: "worker".to_string(), norse: "thor".to_string() }
}

fn request(agent: &str) -> SpawnRequest {
    SpawnRequest { role: worker(), agent: agent.to_string(), model: None, working_dir: None }
}

fn context() -> SessionContext {
    SessionContext {
        role: worker(),
        agent: "codex".to_string(),
        model: Some("gpt".to_string()),
        working_dir: None,
    }
}

#[test]
fn agents_are_configured_step_by_step() {
    let config = ProcessAgentConfig::new("echo");
    assert_eq!(config.timeout, Timeout { secs: 120, nanos: 0 });
    assert_eq!(config.args.len(), 0);
    let config = config
        .with_args(vec!["brunnr".to_string()])
        .with_working_dir("/work")
        .with_timeout(Timeout { secs: 5, nanos: 1 })
        .with_agent_id("stub");
    assert_eq!(config.command, "echo");
    assert_eq!(config.args, vec!["brunnr"]);
    assert_eq!(config.working_dir.as_deref(), Some("/work"));
    assert_eq!(config.timeout.secs, 5);
    assert_eq!(config.agent_id, "stub");
}

#[test]
fn sessions_are_numbered() {
    let mut agent = ProcessAgent::new(ProcessAgentConfig::new("echo"));
    let first = agent.spawn(request("Codex CLI!")).expect("spawn should register session");
    let second = agent.spawn(request("--")).expect("spawn should register session");
    assert_eq!(first.id, "worker-codex-cli-1");
    assert_eq!(second.id, "worker-agent-2");
    assert_eq!(first.agent, "Codex CLI!");
    assert_eq!(first.role, worker());
}

#[test]
fn agents_without_a_command_are_unavailable() {
    let mut agent = ProcessAgent::new(ProcessAgentConfig::new("  "));
    assert_eq!(
        agent.spawn(request("echo")),
        Err(AgentError::Unavailable("process agent command is empty".to_string()))
    );
}

#[test]
fn messages_need_a_session() {
    let mut agent = ProcessAgent::new(
        ProcessAgentConfig::new("echo").with_args(vec!["brunnr".to_string()]).with_working_dir("/w"),
    );
    assert_eq!(
        agent.prepare("nobody", "hi"),
        Err(AgentError::Session("unknown session: nobody".to_string()))
    );
    let session = agent.spawn(request("echo")).expect("spawn");
    let invocation = agent.prepare(&session.id, "").expect("known session");
    assert_eq!(invocation.program, "echo");
    assert_eq!(invocation.args, vec!["brunnr"]);
    assert_eq!(invocation.working_dir.as_deref(), Some("/w"));
    assert_eq!(invocation.stdin, None);
    assert_eq!(agent.prepare(&session.id, "hi").expect("known").stdin.as_deref(), Some("hi"));
}

#[test]
fn requests_choose_their_directory() {
    let mut agent = ProcessAgent::new(ProcessAgentConfig::new("echo").with_working_dir("/w"));
    let mut own = request("echo");
    own.working_dir = Some("/own".to_string());
    let session = agent.spawn(own).expect("spawn");
    let invocation = agent.prepare(&session.id, "x").expect("known");
    assert_eq!(invocation.working_dir.as_deref(), Some("/own"));
}

#[test]
fn placeholders_are_filled_in_one_after_another() {
    assert_eq!(
        render_arg("{role}/{alias}/{agent}/{model}: {prompt}", &context(), "say"),
        "worker/thor/codex/gpt: say"
    );
    assert_eq!(render_arg("{prompt}", &context(), "{role}"), "worker");
    let mut without = context();
    without.model = None;
    assert_eq!(render_arg("[{model}]", &without, ""), "[]");
}

#[test]
fn prompts_in_arguments_are_not_written_again() {
    let config = ProcessAgentConfig::new("run").with_args(vec!["-p".to_string(), "{prompt}".to_string()]);
    let invocation = build_invocation(&config, &context(), "hello");
    assert_eq!(invocation.args, vec!["-p", "hello"]);
    assert_eq!(invocation.stdin, None);
}

#[test]
fn agent_names_are_cleaned() {
    assert_eq!(sanitize_agent_id("GPT-5 (mini)"), "gpt-5--mini");
    assert_eq!(sanitize_agent_id("\u{e9}"), "agent");
    assert_eq!(sanitize_agent_id(""), "agent");
}

#[test]
fn outcomes_hold_both_streams() {
    assert_eq!(read_outcome(true, "exit status: 0", "out", "err"), Ok("outerr".to_string()));
    assert_eq!(
        read_outcome(false, "exit status: 1", "out", "err"),
        Err(AgentError::Session("process exited with status exit status: 1: outerr".to_string()))
    );
    assert_eq!(
        process_outcome(true, "", &vec![b'a', 0xff], &vec![b'b']),
        Ok("a\u{fffd}b".to_string())
    );
    assert_eq!(
        timeout_error(Timeout { secs: 3, nanos: 9 }),
        AgentError::Session("process timed out after 3s".to_string())
    );
}

#[test]
fn turns_end_with_done() {
    assert_eq!(
        turn_events("hi".to_string()),
        vec![AgentEvent::Text("hi".to_string()), AgentEvent::Done]
    );
    let agent = ProcessAgent::new(ProcessAgentConfig::new("echo"));
    assert_eq!(
        agent.capabilities(),
        AgentCapabilities { streaming: false, tools: false, mcp: false }
    );
    assert_eq!(agent.config().command, "echo");
}

#[test]
fn runtimes_have_a_name() {
    let named = ProcessAgentRuntime::from_config(
        ProcessAgentConfig::new("echo").with_agent_id("echo-stub"),
    );
    assert_eq!(named.agent_id(), "echo-stub");
    let mut plain = ProcessAgentRuntime::from_config(ProcessAgentConfig::new("echo"));
    assert_eq!(plain.agent_id(), "echo");
    assert_eq!(plain.spawn_session(request("echo")).expect("spawn").id, "worker-echo-1");
    assert!(plain.process_agent().prepare("worker-echo-1", "").is_ok());
    let given = ProcessAgentRuntime::new(ProcessAgent::new(ProcessAgentConfig::new("x")), "y");
    assert_eq!(given.agent_id(), "y");
}

fn names(list: &[&str]) -> Vec<String> {
    list.iter().map(|name| name.to_string()).collect()
}

#[test]
fn picks_go_by_preference() {
    assert_eq!(
        pick(&names(&["codex", "gemini"]), &names(&["acme", "gemini", "codex"])),
        Some("gemini".to_string())
    );
    assert_eq!(pick(&names(&["codex"]), &names(&["acme"])), None);
}

#[test]
fn roles_are_bound_to_detected_agents() {
    let assistant = Assistant::new("Acme", "Acme Code", "acme");
    assert_eq!(
        known_agents(&assistant),
        vec!["acme", "acme-code", "codex", "gemini", "opencode", "ollama"]
    );
    let bindings = detect_agents(&assistant, &names(&["acme", "acme-code", "codex"]));
    let picked: Vec<(BindingRole, &str)> =
        bindings.iter().map(|binding| (binding.role, binding.agent.as_str())).collect();
    assert_eq!(
        picked,
        vec![
            (BindingRole::Master, "acme-code"),
            (BindingRole::Worker, "codex"),
            (BindingRole::Judge, "acme-code"),
        ]
    );
    let gemini = detect_agents(&assistant, &names(&["gemini", "ollama"]));
    assert_eq!(gemini.len(), 1);
    assert_eq!(gemini[0].role, BindingRole::Judge);
    assert_eq!(gemini[0].model, None);
}

#[test]
fn spawn_requests_are_told() {
    let line = spawn_line(&request("codex"));
    assert!(line.contains("role=worker alias=thor agent=codex"));
    assert_eq!(line, "spawn request accepted: role=worker alias=thor agent=codex cwd=.");
}

#[test]
fn projects_are_set_up_once() {
    assert_eq!(
        init_outcome(".brunnr", false),
        Ok("initialized Brunnr memory mode at .brunnr".to_string())
    );
    assert_eq!(init_outcome(".brunnr", true), Err("brunnr.toml already exists".to_string()));
    assert_eq!(memory_root_context(".brunnr"), "create memory root .brunnr");
}

#[test]
fn daemons_need_something_to_orchestrate() {
    assert_eq!(check_daemon_mode("Full"), Ok(()));
    assert_eq!(check_daemon_mode("Orchestrate"), Ok(()));
    assert_eq!(
        check_daemon_mode("Memory"),
        Err("brunnrd requires mode orchestrate or full, got Memory".to_string())
    );
}

#[test]
fn settings_have_their_defaults() {
    let status = TuiStatus::memory_files();
    assert_eq!((status.mode.as_str(), status.backend.as_str()), ("memory", "files"));
    let profile = SandboxProfile::default();
    assert!(!profile.enabled && !profile.allow_network);
    assert_eq!(profile.image, None);
    assert_eq!(profile.mounted_paths.len(), 0);
    assert!(MEMORY_SERVER_INSTRUCTIONS.contains("memory.find"));
}

#[test]
fn agent_names_are_their_own_names() {
    for agent in ["Codex CLI", "--", "ä/B-", "gpt_5"] {
        let name = sanitize_agent_id(agent);
        assert_eq!(sanitize_agent_id(&name), name);
        assert!(!name.is_empty() && !name.starts_with('-') && !name.ends_with('-'));
    }
}
