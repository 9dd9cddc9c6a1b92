use artesian::processes::{
    classify_running_mcp_processes, count_state, is_artesian_mcp_process,
    normalize_comparison_path, parse_ps_line, parse_ps_mcp_processes, path_basename,
    read_linux_pgid, read_proc_cmdline, read_proc_entry, split_cmdline, stale_mcp_restart_targets,
    McpBinaryState, McpProcessStatus, PgidError, RestartMode, RestartTarget, RunningMcpProcess,
};
use artesian::text_map::TextMap;
use artesian::update::{
    brew_run_outcome, brew_upgrade_plan, collect_update_surface_report, command_candidates,
    current_mcp_binary, find_artesian_dirs, probe_binary_version, read_version_reply,
    render_brew_update_outcome, short_message, zed_extension_roots, zed_extension_status,
    BrewRun, BrewUpdateOutcome, BrewUpgradePlan, DirEntry, InstalledBinary, McpRegistrationReport,
    RunningMcpReport, UpdateSurfaceReport, VersionProbe, ZedExtensionStatus,
};
use artesian::update_text::{
    pid_alive, render_restart_outcome, render_update_surface_report, restart_step,
    send_pid_signal, terminate_pid, RestartOutcome, RestartStep, SignalReply, StopSignal,
    TerminateStep,
};

fn process(pid: u32, pgid: Option<i32>, exe: Option<&str>, command: &str) -> RunningMcpProcess {
    RunningMcpProcess { pid, pgid, exe: exe.map(str::to_string), command: command.to_string() }
}

fn status(
    pid: u32,
    pgid: Option<i32>,
    exe: Option<&str>,
    binary_state: McpBinaryState,
) -> McpProcessStatus {
    McpProcessStatus { process: process(pid, pgid, exe, "artesian-mcp"), binary_state }
}

#[test]
fn report_marks_installed_surfaces_and_stale_processes() {
    let current = "/opt/homebrew/Cellar/artesian/0.5.0/bin/artesian";
    let command = "artesian-mcp --config artesian.toml";
    let processes = classify_running_mcp_processes(
        vec![
            process(
                100,
                Some(100),
                Some("/opt/homebrew/Cellar/artesian/0.4.0/bin/artesian"),
                command,
            ),
            process(101, Some(101), Some(current), command),
            process(102, Some(200), None, command),
        ],
        &Some(current.to_string()),
        &TextMap::new(),
    );
    let report = UpdateSurfaceReport {
        binaries: vec![
            InstalledBinary {
                name: "artesian".to_string(),
                path: Some("/opt/homebrew/bin/artesian".to_string()),
                resolved_path: Some(current.to_string()),
                version: VersionProbe::Found("artesian 0.5.0".to_string()),
            },
            InstalledBinary {
                name: "artesian-mcp".to_string(),
                path: Some("/opt/homebrew/bin/artesian-mcp".to_string()),
                resolved_path: Some(current.to_string()),
                version: VersionProbe::Found("artesian-mcp 0.5.0".to_string()),
            },
        ],
        registrations: vec![
            McpRegistrationReport {
                surface: "Acme Code (user ~/.acme.json)".to_string(),
                registered: true,
            },
            McpRegistrationReport { surface: "Codex".to_string(), registered: true },
            McpRegistrationReport { surface: "Zed".to_string(), registered: false },
        ],
        zed_extension: ZedExtensionStatus::Present(vec![
            "/Users/example/.config/zed/extensions/dev/artesian-zed".to_string(),
        ]),
        running_mcp: RunningMcpReport { processes, discovery_error: None },
    };

    let text = render_update_surface_report(&report);

    assert!(text.contains("artesian: /opt/homebrew/bin/artesian"));
    assert!(text.contains("version: artesian 0.5.0"));
    assert!(text.contains("Acme Code (user ~/.acme.json): registered"));
    assert!(text.contains("artesian-zed detected"));
    assert!(text.contains("pid=100 pgid=100"));
    assert!(text.contains("state=STALE"));
    assert!(text.contains("pid=101 pgid=101"));
    assert!(text.contains("state=current"));
    assert!(text.contains("pid=102 pgid=200"));
    assert!(text.contains("state=unknown"));
    assert!(text.contains("WARNING: 1 running artesian-mcp process"));
}

#[test]
fn restart_selection_targets_only_stale_mcp_processes() {
    let processes = vec![
        status(10, Some(10), Some("/old/artesian"), McpBinaryState::Stale),
        status(11, Some(10), Some("/old/artesian"), McpBinaryState::Stale),
        status(12, Some(12), Some("/new/artesian"), McpBinaryState::Current),
        status(13, None, None, McpBinaryState::Unknown),
        status(14, Some(99), Some("/old/artesian"), McpBinaryState::Stale),
    ];

    let targets = stale_mcp_restart_targets(&processes);
    let pids = targets.iter().map(|target| target.pid).collect::<Vec<_>>();

    assert_eq!(pids, vec![10, 14]);
    assert_eq!(targets[0].mode, RestartMode::ProcessGroup(10));
    assert_eq!(targets[1].mode, RestartMode::ProcessOnly);
}

#[test]
fn brew_absence_skips_upgrade_but_has_reportable_guidance() {
    assert_eq!(brew_upgrade_plan(false, false), BrewUpgradePlan::SkipUnavailable);

    let text = render_brew_update_outcome(&BrewUpdateOutcome::Unavailable);

    assert!(text.contains("Homebrew: not found"));
    assert!(text.contains("skipped the brew upgrade"));
    assert!(text.contains("inspect installed surfaces"));
}

#[test]
fn brew_plans_follow_availability_and_management() {
    assert_eq!(brew_upgrade_plan(false, true), BrewUpgradePlan::SkipUnavailable);
    assert_eq!(brew_upgrade_plan(true, false), BrewUpgradePlan::SkipUnmanaged);
    assert_eq!(brew_upgrade_plan(true, true), BrewUpgradePlan::Upgrade);
}

#[test]
fn brew_outcomes_tell_how_the_run_ended() {
    let done = brew_run_outcome(BrewRun::Exited { success: true });
    let failed = brew_run_outcome(BrewRun::Exited { success: false });
    assert_ne!(done, failed);
    assert_ne!(render_brew_update_outcome(&done), render_brew_update_outcome(&failed));
    let text = render_brew_update_outcome(&BrewUpdateOutcome::NotManaged {
        current_exe: Some("/work/artesian".to_string()),
    });
    assert!(text.contains("/work/artesian"));
}

#[test]
fn command_lines_of_processes_are_split_at_zero_bytes() {
    let bytes = b"/usr/bin/artesian-mcp\0--config\0\0artesian.toml\0".to_vec();
    assert_eq!(split_cmdline(&bytes).len(), 3);
    assert_eq!(
        read_proc_cmdline(&bytes),
        vec!["/usr/bin/artesian-mcp", "--config", "artesian.toml"]
    );
    assert_eq!(read_proc_cmdline(&Vec::new()).len(), 0);
}

#[test]
fn command_lines_that_are_no_text_are_replaced() {
    let bytes = vec![b'a', 0xff, b'b', 0, b'c'];
    assert_eq!(read_proc_cmdline(&bytes), vec!["a\u{fffd}b", "c"]);
}

#[test]
fn basenames_follow_std_paths() {
    for path in ["/usr/bin/a", "a", "a/", "/", "..", "a/..", "a/.", ""] {
        let expected =
            std::path::Path::new(path).file_name().map(|n| n.to_string_lossy().into_owned());
        assert_eq!(path_basename(path), expected, "{path}");
    }
}

#[test]
fn servers_are_told_by_their_name_or_first_argument() {
    let argv = vec!["/usr/bin/artesian-mcp".to_string()];
    assert!(is_artesian_mcp_process("artesian-mcp", &Vec::new()));
    assert!(is_artesian_mcp_process("sh", &argv));
    assert!(!is_artesian_mcp_process("sh", &vec!["/usr/bin/artesian".to_string()]));
    assert!(!is_artesian_mcp_process("sh", &Vec::new()));
}

#[test]
fn proc_entries_need_a_number_and_a_server() {
    let argv = vec!["artesian-mcp".to_string(), "--config".to_string(), "a.toml".to_string()];
    let entry = read_proc_entry("42", "artesian-mcp\n", &argv, Some(7), Some("/bin/x".to_string()))
        .expect("a server");
    assert_eq!(entry.pid, 42);
    assert_eq!(entry.pgid, Some(7));
    assert_eq!(entry.command, "artesian-mcp --config a.toml");
    assert!(read_proc_entry("self", "artesian-mcp", &argv, None, None).is_none());
    assert!(read_proc_entry("42", "sh", &vec!["sh".to_string()], None, None).is_none());
}

#[test]
fn process_groups_are_read_behind_the_name() {
    assert_eq!(read_linux_pgid("42 (artesian (mcp)) S 1 77 77 0"), Ok(77));
    assert_eq!(read_linux_pgid("42 artesian S 1 77"), Err(PgidError::Malformed));
    assert_eq!(read_linux_pgid("42 (a) S 1"), Err(PgidError::Missing));
    assert_eq!(read_linux_pgid("42 (a) S 1 x"), Err(PgidError::NotANumber));
}

#[test]
fn ps_lines_are_read_column_by_column() {
    let found = parse_ps_line("  42   7 /usr/bin/artesian-mcp /usr/bin/artesian-mcp --config a.toml")
        .expect("a server");
    assert_eq!(found.pid, 42);
    assert_eq!(found.pgid, Some(7));
    assert!(parse_ps_line("PID PGID COMM ARGS").is_none());
    assert!(parse_ps_line("42 7 sh sh -c true").is_none());
    let all = parse_ps_mcp_processes(
        "42 7 /usr/bin/artesian-mcp /usr/bin/artesian-mcp\n43 7 sh sh\n\n44 x artesian-mcp artesian-mcp\n",
    );
    assert!(all.iter().any(|process| process.pid == 42));
    assert!(!all.iter().any(|process| process.pid == 43));
}

#[test]
fn comparison_paths_are_canonical_where_known() {
    let mut canonical: TextMap<String> = TextMap::new();
    canonical.insert("/bin/a".to_string(), "/real/a".to_string());
    assert_eq!(normalize_comparison_path("/bin/a", &canonical), "/real/a");
    assert_eq!(normalize_comparison_path("/bin/b", &canonical), "/bin/b");
}

#[test]
fn processes_are_current_stale_or_unknown() {
    let mut canonical: TextMap<String> = TextMap::new();
    canonical.insert("/bin/a".to_string(), "/real/a".to_string());
    let found = classify_running_mcp_processes(
        vec![
            process(1, None, Some("/bin/a"), "c"),
            process(2, None, Some("/real//a"), "c"),
            process(3, None, Some("/old/a"), "c"),
            process(4, None, None, "c"),
        ],
        &Some("/bin/a".to_string()),
        &canonical,
    );
    let states: Vec<McpBinaryState> = found.iter().map(|s| s.binary_state).collect();
    assert_eq!(
        states,
        vec![
            McpBinaryState::Current,
            McpBinaryState::Current,
            McpBinaryState::Stale,
            McpBinaryState::Unknown
        ]
    );
    assert_eq!(count_state(&found, McpBinaryState::Current), 2);
    let unknown = classify_running_mcp_processes(
        vec![process(1, None, Some("/bin/a"), "c")],
        &None,
        &TextMap::new(),
    );
    assert_eq!(unknown[0].binary_state, McpBinaryState::Unknown);
}

#[test]
fn states_have_their_words() {
    assert_eq!(McpBinaryState::Current.label(), "current");
    assert_eq!(McpBinaryState::Stale.label(), "STALE");
    assert_eq!(McpBinaryState::Unknown.label(), "unknown");
}

#[test]
fn installed_binaries_compare_by_what_they_resolve_to() {
    let plain = InstalledBinary::detected(
        "artesian-mcp",
        Some("/bin/a".to_string()),
        None,
        VersionProbe::NotInstalled,
    );
    assert_eq!(plain.comparison_path(), Some("/bin/a".to_string()));
    let linked = InstalledBinary::detected(
        "artesian-mcp",
        Some("/bin/a".to_string()),
        Some("/real/a".to_string()),
        VersionProbe::Found("1".to_string()),
    );
    assert_eq!(linked.comparison_path(), Some("/real/a".to_string()));
    assert_eq!(current_mcp_binary(&vec![linked]), Some("/real/a".to_string()));
    assert_eq!(current_mcp_binary(&Vec::new()), None);
}

#[test]
fn reports_carry_the_trouble_of_discovery() {
    let report = collect_update_surface_report(
        Vec::new(),
        Vec::new(),
        ZedExtensionStatus::Absent { searched: Vec::new() },
        Err("no ps".to_string()),
        &TextMap::new(),
    );
    assert_eq!(report.running_mcp.processes.len(), 0);
    assert_eq!(report.running_mcp.discovery_error.as_deref(), Some("no ps"));
    assert!(render_update_surface_report(&report).contains("no ps"));
}

#[test]
fn commands_are_looked_for_in_directories() {
    let dirs = vec!["/bin".to_string(), "/usr/bin/".to_string()];
    assert_eq!(command_candidates("a", &dirs), vec!["/bin/a", "/usr/bin/a"]);
    assert_eq!(command_candidates("./a", &dirs), vec!["./a"]);
    assert_eq!(command_candidates("/x/a", &dirs), vec!["/x/a"]);
}

#[test]
fn messages_are_shortened() {
    assert_eq!(short_message("  one line \n"), "one line");
    assert_eq!(short_message(&"x".repeat(160)), "x".repeat(160));
    assert_eq!(short_message(&"x".repeat(161)), format!("{}...", "x".repeat(160)));
}

#[test]
fn version_replies_are_read() {
    assert_eq!(
        read_version_reply(true, "artesian 0.5.9\n", ""),
        VersionProbe::Found("artesian 0.5.9".to_string())
    );
    assert_eq!(
        read_version_reply(true, " \n0.5.8", "artesian 0.5.8"),
        VersionProbe::Failed("version output was empty".to_string())
    );
    assert_eq!(
        read_version_reply(false, "said", "\n  boom \n"),
        VersionProbe::Failed("boom".to_string())
    );
    assert_eq!(
        read_version_reply(false, " said \n", " \n"),
        VersionProbe::Failed("said".to_string())
    );
    assert_eq!(
        read_version_reply(false, "", ""),
        VersionProbe::Failed("version command failed".to_string())
    );
    assert_eq!(
        probe_binary_version(true, &b"artesian 0.5.9".to_vec(), &Vec::new()),
        VersionProbe::Found("artesian 0.5.9".to_string())
    );
    assert_eq!(
        probe_binary_version(true, &vec![b'v', 0xc3], &Vec::new()),
        VersionProbe::Found("v\u{fffd}".to_string())
    );
}

#[test]
fn artesian_directories_are_found_to_a_depth() {
    let tree = vec![DirEntry {
        path: "/z/extensions".to_string(),
        is_dir: true,
        children: vec![
            DirEntry {
                path: "/z/extensions/artesian-zed".to_string(),
                is_dir: true,
                children: Vec::new(),
            },
            DirEntry {
                path: "/z/extensions/artesian.txt".to_string(),
                is_dir: false,
                children: Vec::new(),
            },
        ],
    }];
    assert_eq!(find_artesian_dirs(&tree, 2), vec!["/z/extensions/artesian-zed"]);
    assert_eq!(find_artesian_dirs(&tree, 0).len(), 0);
}

#[test]
fn zed_extensions_are_searched_below_home() {
    let roots = zed_extension_roots("/home/me");
    assert!(roots.iter().all(|root| root.starts_with("/home/me/")));
    let found = vec!["/b".to_string(), "/a".to_string(), "/b".to_string()];
    assert_eq!(
        zed_extension_status(roots, &found),
        ZedExtensionStatus::Present(vec!["/a".to_string(), "/b".to_string()])
    );
    assert!(matches!(
        zed_extension_status(vec!["/r".to_string()], &Vec::new()),
        ZedExtensionStatus::Absent { ref searched } if searched == &vec!["/r".to_string()]
    ));
}

fn target(pid: u32, mode: RestartMode) -> RestartTarget {
    RestartTarget { pid, pgid: None, mode }
}

#[test]
fn restarts_are_made_only_when_asked_for() {
    let targets = vec![target(1, RestartMode::ProcessOnly)];
    assert_eq!(restart_step(true, &targets), RestartStep::Terminate);
    assert_eq!(restart_step(false, &targets), RestartStep::Suggest);
    assert_eq!(restart_step(false, &Vec::new()), RestartStep::Nothing);
}

#[test]
fn restart_outcomes_are_told() {
    let mut outcome = RestartOutcome::new();
    outcome.record(target(7, RestartMode::ProcessGroup(7)), true);
    outcome.record(target(8, RestartMode::ProcessOnly), false);
    assert_eq!(outcome.terminated.len(), 1);
    assert_eq!(outcome.failed.len(), 1);
    let text = render_restart_outcome(&outcome);
    assert!(text.contains("7"));
    assert!(text.contains("8"));
}

#[test]
fn signals_to_gone_processes_are_no_failure() {
    assert_eq!(send_pid_signal(7, StopSignal::Term, &SignalReply::Delivered), Ok(true));
    assert_eq!(send_pid_signal(7, StopSignal::Term, &SignalReply::NoSuchProcess), Ok(false));
    assert!(send_pid_signal(7, StopSignal::Kill, &SignalReply::Failed("e".to_string())).is_err());
    assert!(pid_alive(&SignalReply::Delivered));
    assert!(pid_alive(&SignalReply::NotPermitted("p".to_string())));
    assert!(!pid_alive(&SignalReply::NoSuchProcess));
}

#[test]
fn processes_that_stay_are_killed() {
    let step = terminate_pid(7, TerminateStep::SendTerm, &SignalReply::Delivered);
    assert_eq!(step, TerminateStep::WaitAndProbe);
    let step = terminate_pid(7, step, &SignalReply::Delivered);
    assert_eq!(step, TerminateStep::SendKill);
    assert_eq!(terminate_pid(7, step, &SignalReply::Delivered), TerminateStep::Done);
    assert_eq!(
        terminate_pid(7, TerminateStep::SendTerm, &SignalReply::NoSuchProcess),
        TerminateStep::Done
    );
    assert_eq!(
        terminate_pid(7, TerminateStep::WaitAndProbe, &SignalReply::NoSuchProcess),
        TerminateStep::Done
    );
}
