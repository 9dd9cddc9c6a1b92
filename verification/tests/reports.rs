use artesian::assistant::Assistant;
use artesian::bench::{
    demo_case, ratio, render_markdown, run_bench, BenchCase, BenchResult, CycleMetrics, FactLabel,
    LabeledFact, Ratio, RatioTexts,
};
use artesian::doctor::{
    check_handshake, check_path_health, check_running_processes, check_stale_resume,
    check_version_drift, count_failures, distinct_launches, distinct_targets, heading, render_item,
    report_registrations, verdict, Level, ReportItem, ResolvedCommand,
};
use artesian::gauge_args::{
    choose_k, flag_error_text, parse_agent_args, parse_ci_eval_args, FlagError, GaugeTool, AGENT_USAGE,
    CI_EVAL_USAGE, DEFAULT_LLM_COMMAND,
};
use artesian::handshake::HandshakeOk;
use artesian::mcp_log::{
    choose_log_path, default_log_path_under, line_at, line_now, log_line, open_warning,
    rotate_if_oversized, shutdown_message, startup_message, transport_error_message, MAX_LOG_BYTES,
};
use artesian::clock::Timestamp;
use artesian::processes::RunningMcpProcess;
use artesian::registration::{McpRegistrationEntry, RawServerEntry};
use artesian::scores::Score;
use artesian::session::StaleResumeFinding;
use artesian::text_map::TextMap;
use artesian::update::VersionProbe;

fn entry(command: &str, args: &[&str]) -> RawServerEntry {
    RawServerEntry {
        command: command.to_string(),
        args: args.iter().map(|arg| arg.to_string()).collect(),
        env: TextMap::new(),
    }
}

fn registration(name: &str, command: &str) -> McpRegistrationEntry {
    McpRegistrationEntry {
        source_label: "Codex".to_string(),
        server_name: name.to_string(),
        entry: entry(command, &["-v"]),
    }
}

fn resolved(path: &str, executable: bool, script_target: Option<&str>) -> ResolvedCommand {
    ResolvedCommand {
        path: path.to_string(),
        executable,
        script_target: script_target.map(str::to_string),
    }
}

/// A rendered item without the newline that ends it.
fn shown(item: &ReportItem) -> String {
    let mut rendered = render_item(item);
    assert_eq!(rendered.pop(), Some('\n'));
    rendered
}

fn lines(items: &Vec<ReportItem>) -> Vec<String> {
    items.iter().map(shown).collect()
}

#[test]
fn findings_show_their_level_and_fix() {
    let item = ReportItem::Finding {
        level: Level::Fail,
        line: "broken".to_string(),
        fix: Some("mend it".to_string()),
    };
    assert_eq!(shown(&item), "  [fail] broken\n           fix: mend it");
    let good = ReportItem::Finding { level: Level::Good, line: "fine".to_string(), fix: None };
    assert_eq!(shown(&good), "  [ok  ] fine");
    assert_eq!(count_failures(&vec![item, good]), 1);
}

#[test]
fn headings_name_the_version() {
    assert_eq!(heading(), "artesian doctor --mcp (v0.5.9)\n");
}

#[test]
fn verdicts_count_problems() {
    assert!(verdict(0).is_ok());
    assert!(verdict(2).is_err());
}

#[test]
fn registrations_are_listed() {
    let none = report_registrations(&Vec::new());
    assert!(lines(&none)[0].contains("no artesian MCP registrations found"));
    let some = report_registrations(&vec![registration("memory", "artesian-mcp")]);
    assert!(lines(&some).iter().any(|line| line.contains("Codex: memory -> artesian-mcp -v")));
}

#[test]
fn missing_commands_fail() {
    let items = check_path_health(&registration("memory", "gone"), None, None);
    assert_eq!(
        lines(&items),
        vec![
            "  [fail] path (Codex: memory): command 'gone' was not found (not on PATH, not a file)\n           fix: re-run `artesian init --register-mcp`, or repoint the registration at an installed artesian-mcp"
        ]
    );
}

#[test]
fn commands_must_be_executable() {
    let items =
        check_path_health(&registration("m", "a"), Some(&resolved("/bin/a", false, None)), None);
    assert_eq!(
        lines(&items),
        vec![
            "  [fail] path (Codex: m): /bin/a exists but is not executable\n           fix: chmod +x /bin/a"
        ]
    );
    let good =
        check_path_health(&registration("m", "a"), Some(&resolved("/bin/a", true, None)), None);
    assert_eq!(lines(&good), vec!["  [ok  ] path (Codex: m): /bin/a exists and is executable"]);
}

#[test]
fn cellar_paths_are_warned_of() {
    let path = "/opt/homebrew/Cellar/artesian/0.5.2/bin/artesian-mcp";
    let items =
        check_path_health(&registration("m", "a"), Some(&resolved(path, true, None)), None);
    assert_eq!(
        lines(&items),
        vec![format!(
            "  [warn] path (Codex: m): {path} is a version-pinned Homebrew Cellar path\n           fix: use /opt/homebrew/opt/artesian/bin/artesian-mcp (survives upgrades)"
        )]
    );
}

#[test]
fn scripts_are_followed_to_their_target() {
    let script = resolved("/bin/run.sh", true, Some("artesian-mcp"));
    let missing = check_path_health(&registration("m", "run.sh"), Some(&script), None);
    assert_eq!(missing.len(), 2);
    assert_eq!(
        lines(&missing)[1],
        "  [fail] path (Codex: m) script exec target 'artesian-mcp': not found on PATH\n           fix: install artesian-mcp on PATH (e.g. `brew install aquifer-labs/tap/artesian`)"
    );
    let target = resolved("/bin/artesian-mcp", true, None);
    let found = check_path_health(&registration("m", "run.sh"), Some(&script), Some(&target));
    assert_eq!(
        lines(&found)[1],
        "  [ok  ] path (Codex: m) script exec target 'artesian-mcp': /bin/artesian-mcp exists and is executable"
    );
}

fn server(pid: u32) -> RunningMcpProcess {
    RunningMcpProcess { pid, pgid: None, exe: None, command: "artesian-mcp".to_string() }
}

#[test]
fn running_servers_are_counted_with_their_cost() {
    let none = check_running_processes(&Ok(Vec::new()), &Vec::new(), None, false);
    assert_eq!(lines(&none), vec!["  [ok  ] processes: no artesian-mcp servers are running"]);
    let failed = check_running_processes(&Err("no ps".to_string()), &Vec::new(), None, false);
    assert_eq!(
        lines(&failed),
        vec!["  [warn] processes: could not inventory running artesian-mcp processes: no ps"]
    );
    let some = check_running_processes(
        &Ok(vec![server(7), server(12345678)]),
        &vec![Some("   512.0 MB".to_string()), None],
        Some("0.5"),
        false,
    );
    assert_eq!(
        lines(&some),
        vec![
            "  [ok  ] processes: 2 artesian-mcp server(s) running, 0.5 GB combined",
            "           - pid 7          512.0 MB  artesian-mcp",
            "           - pid 12345678         ? MB  artesian-mcp",
            "           (1 process(es) reported no footprint)",
        ]
    );
    let heavy =
        check_running_processes(&Ok(vec![server(7)]), &vec![None], Some("9.0"), true);
    assert!(lines(&heavy)[0].starts_with("  [warn] processes: 1 artesian-mcp server(s) running"));
}

#[test]
fn versions_are_held_against_this_one() {
    let found = |line: &str| VersionProbe::Found(line.to_string());
    assert_eq!(
        shown(&check_version_drift("a", "0.5.9", Some(&found("artesian-mcp 0.5.9")))),
        "  [ok  ] version (a): 0.5.9 matches this CLI (0.5.9)"
    );
    assert_eq!(
        shown(&check_version_drift("a", "0.5.9", Some(&found("artesian-mcp 0.5.8")))),
        "  [warn] version (a): reports 0.5.8, this CLI is 0.5.9\n           fix: re-run `artesian init --register-mcp` or update the copy"
    );
    assert_eq!(
        shown(&check_version_drift("a", "0.5.9", None)),
        "  [warn] version (a): could not resolve to run --version\n           fix: verify the binary is installed and on PATH"
    );
    assert!(shown(&check_version_drift("a", "0.5.9", Some(&VersionProbe::NotInstalled)))
        .contains("not installed"));
    assert!(shown(&check_version_drift(
        "a",
        "0.5.9",
        Some(&VersionProbe::Failed("boom".to_string()))
    ))
    .contains("--version failed (boom)"));
}

#[test]
fn targets_and_launches_are_asked_once() {
    let targets = vec!["b".to_string(), "a".to_string(), "b".to_string()];
    let distinct = distinct_targets(&targets);
    assert_eq!(distinct.len(), 2);
    assert!(distinct.contains(&"a".to_string()) && distinct.contains(&"b".to_string()));
    let regs = vec![registration("x", "a"), registration("y", "a"), registration("z", "b")];
    assert_eq!(distinct_launches(&regs), vec![0, 2]);
}

#[test]
fn handshakes_are_told() {
    assert_eq!(
        shown(&check_handshake(
            &entry("artesian-mcp", &["--config", "a.toml"]),
            &Ok(HandshakeOk { elapsed_ms: 12, tools_count: 2 })
        )),
        "  [ok  ] handshake (artesian-mcp --config a.toml): responded in 12ms with 2 tool(s)"
    );
    let failed = check_handshake(&entry("x", &[]), &Err("handshake timed out".to_string()));
    assert_eq!(
        shown(&failed),
        "  [fail] handshake (x ): handshake timed out\n           fix: run the command manually and check stderr, or re-run `artesian init --register-mcp`"
    );
}

#[test]
fn stale_sessions_are_told() {
    let assistant = Assistant::new("Acme", "Acme Code", "acme");
    let clean = check_stale_resume(&assistant, &Ok(Vec::new()));
    assert_eq!(
        lines(&clean),
        vec!["  [ok  ] stale-resume: no stale resumed sessions detected in the most recent transcripts"]
    );
    let stale = check_stale_resume(
        &assistant,
        &Ok(vec![StaleResumeFinding {
            session_file: "/s.jsonl".to_string(),
            session_id: None,
            server_name: "artesian-memory".to_string(),
            removed_at: Some("t1".to_string()),
        }]),
    );
    assert_eq!(
        lines(&stale),
        vec![
            "  [warn] stale-resume: session unknown (/s.jsonl) removed 'artesian-memory' tools at t1 and never re-added them, though its MCP instructions were re-added later \u{2014} this Acme session sees the server's instructions but cannot call its tools\n           fix: start a NEW chat (do not resume this session) \u{2014} this is an upstream Acme Code resume limitation"
        ]
    );
    let untimed = check_stale_resume(
        &assistant,
        &Ok(vec![StaleResumeFinding {
            session_file: "/s.jsonl".to_string(),
            session_id: Some("id".to_string()),
            server_name: "artesian-memory".to_string(),
            removed_at: None,
        }]),
    );
    assert!(lines(&untimed)[0].contains(
        "session id (/s.jsonl) removed 'artesian-memory' tools at unknown time and never re-added"
    ));
    let failed = check_stale_resume(&assistant, &Err("denied".to_string()));
    assert_eq!(
        lines(&failed),
        vec![
            "  [warn] stale-resume: could not scan Acme Code session transcripts: denied\n           fix: check read permissions on ~/.acme/projects"
        ]
    );
}

#[test]
fn startup_writes_a_line_with_version_pid_and_config() {
    let message = startup_message("0.5.9", 4242, Some("/tmp/artesian.toml"));
    let contents = line_now(&message);
    assert!(contents.contains("startup version=0.5.9 pid=4242 config=/tmp/artesian.toml"));
    assert_eq!(startup_message("1", 2, None), "startup version=1 pid=2 config=<none>");
}

#[test]
fn shutdown_clean_and_transport_error_are_appended() {
    let mut contents = line_now(shutdown_message());
    contents.push_str(&line_now(&transport_error_message("boom")));
    assert!(contents.contains("shutdown reason=stdin-eof"));
    assert!(contents.contains("error transport/serve failed: boom"));
    assert_eq!(contents.lines().count(), 2);
}

#[test]
fn oversized_file_is_rotated_once_at_startup() {
    assert_eq!(
        rotate_if_oversized("/logs/mcp.log", Some(MAX_LOG_BYTES + 1024)),
        Some("/logs/mcp.log.1".to_string())
    );
    assert_eq!(rotate_if_oversized("/logs/mcp.log", Some(MAX_LOG_BYTES)), None);
    assert_eq!(rotate_if_oversized("/logs/mcp.log", None), None);
    assert_eq!(MAX_LOG_BYTES, 5 * 1024 * 1024);
}

#[test]
fn default_log_path_present_only_when_artesian_home_dir_exists() {
    assert_eq!(default_log_path_under("/home/me", false), None, "no ~/.artesian yet");
    assert_eq!(
        default_log_path_under("/home/me", true),
        Some("/home/me/.artesian/logs/mcp.log".to_string())
    );
}

#[test]
fn log_lines_begin_with_the_time() {
    assert_eq!(
        line_at(Timestamp { secs: 0, nanos: 500_000_000 }, "hello"),
        Some("1970-01-01T00:00:00.500+00:00 hello\n".to_string())
    );
    assert_eq!(line_at(Timestamp { secs: i64::MAX, nanos: 0 }, "hello"), None);
    assert_eq!(log_line("now", "hello"), "now hello\n");
    assert_eq!(
        choose_log_path(Some("a".to_string()), Some("b".to_string())),
        Some("a".to_string())
    );
    assert_eq!(choose_log_path(None, Some("b".to_string())), Some("b".to_string()));
    assert_eq!(
        open_warning("/x", "denied"),
        "warning: artesian-mcp could not open --log-file /x: denied"
    );
}

fn fact(id: &str, label: FactLabel) -> LabeledFact {
    LabeledFact::new(id, "text", label, Score::from_bits(0))
}

#[test]
fn benchmarks_score_what_was_committed() {
    let case = BenchCase {
        query: "q".to_string(),
        facts: vec![
            fact("g1", FactLabel::Gold),
            fact("g2", FactLabel::Gold),
            fact("c", FactLabel::Contradiction),
            fact("f", FactLabel::Fabrication),
            fact("d", FactLabel::Distractor),
        ],
    };
    let metrics = CycleMetrics { candidates: 5, admitted: 4, footprint_tokens: 12 };
    let committed: Vec<String> =
        ["g1", "c", "f", "stranger"].iter().map(|id| id.to_string()).collect();
    let result = run_bench("arm", &case, &vec![5, 5, 5, 5, 5], metrics, &committed);
    assert_eq!(result.admitted_gold, 1);
    assert_eq!(result.total_gold, 2);
    assert_eq!(result.raw_recall_tokens, 25);
    assert_eq!(result.precision, Ratio { numerator: 1, denominator: 4 });
    assert_eq!(result.recall, Ratio { numerator: 1, denominator: 2 });
    assert_eq!(result.drift_rate, Ratio { numerator: 1, denominator: 4 });
    assert_eq!(result.hallucination_rate, Ratio { numerator: 1, denominator: 4 });
    assert_eq!(result.footprint_ratio, Ratio { numerator: 12, denominator: 25 });
}

#[test]
fn benchmarks_do_not_invent_metrics_on_empty_admits() {
    let case = BenchCase { query: "q".to_string(), facts: vec![fact("d", FactLabel::Distractor)] };
    let metrics = CycleMetrics { candidates: 1, admitted: 0, footprint_tokens: 0 };
    let result = run_bench("default-gate", &case, &vec![1], metrics, &Vec::new());
    assert_eq!(result.precision.numerator, 0);
    assert_eq!(result.footprint_ratio.numerator, 0);
    assert_eq!(ratio(3, 0), Ratio { numerator: 0, denominator: 1 });
}

#[test]
fn labels_of_repeated_ids_are_the_last() {
    let case = BenchCase {
        query: "q".to_string(),
        facts: vec![fact("a", FactLabel::Gold), fact("a", FactLabel::Fabrication)],
    };
    let metrics = CycleMetrics { candidates: 2, admitted: 1, footprint_tokens: 1 };
    let result = run_bench("arm", &case, &vec![1, 1], metrics, &vec!["a".to_string()]);
    assert_eq!(result.admitted_gold, 0);
    assert_eq!(result.hallucination_rate.numerator, 1);
}

#[test]
fn the_demonstration_case_has_every_label() {
    let case = demo_case();
    assert_eq!(case.query, "what language and deployment did the team choose");
    let scores: Vec<f32> = case.facts.iter().map(|fact| f32::from_bits(fact.score.bits)).collect();
    assert_eq!(scores, vec![3.0, 2.0, 1.5, 1.0, 2.5, 1.2]);
    let labels: Vec<&str> = case.facts.iter().map(|fact| fact.label.as_str()).collect();
    assert_eq!(
        labels,
        vec!["gold", "gold", "distractor", "distractor", "contradiction", "fabrication"]
    );
}

#[test]
fn benchmarks_are_rendered_as_markdown() {
    let result = BenchResult {
        arm: "default-gate".to_string(),
        candidates: 6,
        admitted: 4,
        admitted_gold: 2,
        total_gold: 2,
        raw_recall_tokens: 40,
        footprint_tokens: 20,
        precision: ratio(2, 4),
        recall: ratio(2, 2),
        drift_rate: ratio(1, 4),
        hallucination_rate: ratio(1, 4),
        footprint_ratio: ratio(20, 40),
    };
    let written = |ratio: Ratio| {
        format!("{:.3}", ratio.numerator as f32 / ratio.denominator as f32)
    };
    let texts = RatioTexts {
        precision: written(result.precision),
        recall: written(result.recall),
        drift_rate: written(result.drift_rate),
        hallucination_rate: written(result.hallucination_rate),
        footprint_ratio: written(result.footprint_ratio),
    };
    assert_eq!(
        render_markdown(&result, &texts),
        "### arm: default-gate\n| metric | value |\n|---|---|\n| candidates | 6 |\n| admitted | 4 |\n| precision | 0.500 |\n| recall | 1.000 |\n| drift_rate | 0.250 |\n| hallucination_rate | 0.250 |\n| footprint_tokens | 20 |\n| raw_recall_tokens | 40 |\n| footprint_ratio | 0.500 |\n"
    );
}

fn args(list: &[&str]) -> Vec<String> {
    list.iter().map(|arg| arg.to_string()).collect()
}

#[test]
fn fixture_flags_are_read() {
    assert_eq!(parse_agent_args(&Vec::new()), Err(FlagError::MissingFixture));
    assert_eq!(parse_agent_args(&args(&[""])), Err(FlagError::MissingFixture));
    let parsed = parse_agent_args(&args(&[
        "tasks.json", "--limit", "3", "--llm-command", "--json", "--json", "--limit", "x",
    ]))
    .expect("valid");
    assert_eq!(parsed.path, "tasks.json");
    assert_eq!(parsed.limit, None);
    assert_eq!(parsed.llm_command, "--json");
    assert!(parsed.json);
    let plain = parse_agent_args(&args(&["tasks.json", "--limit", "3"])).expect("valid");
    assert_eq!(plain.limit, Some(3));
    assert_eq!(plain.llm_command, DEFAULT_LLM_COMMAND);
    let error = parse_agent_args(&args(&["tasks.json", "--what"])).expect_err("unknown");
    assert_eq!(flag_error_text(&error, GaugeTool::Agent), "unknown flag: --what");
    assert_eq!(flag_error_text(&FlagError::MissingFixture, GaugeTool::Agent), AGENT_USAGE);
}

#[test]
fn regression_flags_are_read() {
    let parsed = parse_ci_eval_args(&args(&[
        "--baseline", "b.json", "--k", "5", "--tolerance", "0.1", "--skip-baseline", "--json",
        "--summary-dir", "out",
    ]))
    .expect("valid");
    assert_eq!(parsed.baseline.as_deref(), Some("b.json"));
    assert_eq!(parsed.summary_dir.as_deref(), Some("out"));
    assert_eq!(parsed.k, Some(5));
    assert_eq!(parsed.tolerance.as_deref(), Some("0.1"));
    assert!(parsed.json && parsed.skip_baseline);
    let error = parse_ci_eval_args(&args(&["--baseline"])).expect_err("no path");
    assert_eq!(flag_error_text(&error, GaugeTool::CiEval), "--baseline requires a path");
    assert_eq!(
        flag_error_text(&FlagError::Unknown("--what".to_string()), GaugeTool::CiEval),
        format!("unknown flag: --what\n{CI_EVAL_USAGE}")
    );
    assert_eq!(choose_k(None, Some(7), 5), 7);
    assert_eq!(choose_k(Some(1), Some(7), 5), 1);
    assert_eq!(choose_k(None, None, 5), 5);
}

#[test]
fn committed_ids_count_for_one_rate() {
    let case = BenchCase {
        query: "q".to_string(),
        facts: vec![
            fact("g", FactLabel::Gold),
            fact("c", FactLabel::Contradiction),
            fact("f", FactLabel::Fabrication),
            fact("d", FactLabel::Distractor),
        ],
    };
    let committed: Vec<String> = ["g", "c", "f", "d"].iter().map(|id| id.to_string()).collect();
    let metrics = CycleMetrics { candidates: 4, admitted: 4, footprint_tokens: 8 };
    let result = run_bench("arm", &case, &vec![4, 4, 4, 4], metrics, &committed);
    let counted = result.precision.numerator
        + result.drift_rate.numerator
        + result.hallucination_rate.numerator;
    assert_eq!(counted, 3);
    assert_eq!(result.precision.denominator, 4);
}
