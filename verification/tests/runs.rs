use artesian::assistant::Assistant;
use artesian::doctor::{ReportItem, ResolvedCommand};
use artesian::doctor_run::{
    launch_order, read_footprint, report, run, version_targets, DoctorFacts, Footprint,
    FootprintUnit, ResolvedRegistration,
};
use artesian::handshake::HandshakeOk;
use artesian::processes::{
    discover_running_mcp_processes, McpBinaryState, McpProcessStatus, ProcEntry, RunningMcpProcess,
};
use artesian::registration::{McpRegistrationEntry, RawServerEntry};
use artesian::session::{stale_resume_findings, Transcript};
use artesian::text_map::TextMap;
use artesian::update::{
    BrewUpdateOutcome, RunningMcpReport, UpdateSurfaceReport, VersionProbe, ZedExtensionStatus,
};
use artesian::update_text::{update, RestartOutcome, DOCTOR_SUGGESTION, RESTART_SUGGESTION};

fn registration(name: &str, command: &str) -> McpRegistrationEntry {
    McpRegistrationEntry {
        source_label: "Codex".to_string(),
        server_name: name.to_string(),
        entry: RawServerEntry {
            command: command.to_string(),
            args: Vec::new(),
            env: TextMap::new(),
        },
    }
}

fn command(path: &str, script_target: Option<&str>) -> Option<ResolvedCommand> {
    Some(ResolvedCommand {
        path: path.to_string(),
        executable: true,
        script_target: script_target.map(str::to_string),
    })
}

fn facts() -> DoctorFacts {
    DoctorFacts {
        registrations: vec![
            ResolvedRegistration {
                reg: registration("memory", "artesian-mcp"),
                command: command("/bin/artesian-mcp", None),
                program: None,
            },
            ResolvedRegistration {
                reg: registration("script", "run.sh"),
                command: command("/bin/run.sh", Some("artesian-mcp")),
                program: command("/bin/artesian-mcp", None),
            },
            ResolvedRegistration {
                reg: registration("again", "artesian-mcp"),
                command: command("/bin/artesian-mcp", None),
                program: None,
            },
        ],
        processes: Ok(Vec::new()),
        costs: Vec::new(),
        combined: None,
        heavy: false,
        probes: vec![Some(VersionProbe::Found("artesian-mcp 0.5.9".to_string()))],
        handshakes: vec![
            Ok(HandshakeOk { elapsed_ms: 5, tools_count: 3 }),
            Err("handshake timed out".to_string()),
        ],
        sessions: Ok(Vec::new()),
    }
}

#[test]
fn runs_ask_each_program_and_each_launch_once() {
    let facts = facts();
    assert_eq!(version_targets(&facts.registrations), vec!["/bin/artesian-mcp"]);
    assert_eq!(launch_order(&facts.registrations), vec![0, 1]);
}

#[test]
fn runs_make_all_checks_in_order() {
    let assistant = Assistant::new("Acme", "Acme Code", "acme");
    let items = run(&assistant, &facts());
    let (text, verdict) = report(&items);
    assert_eq!(
        text,
        "artesian doctor --mcp (v0.5.9)\n\
         \x20 [ok  ] registrations: found 3 artesian MCP registration(s)\n\
         \x20          - Codex: memory -> artesian-mcp \n\
         \x20          - Codex: script -> run.sh \n\
         \x20          - Codex: again -> artesian-mcp \n\
         \x20 [ok  ] path (Codex: memory): /bin/artesian-mcp exists and is executable\n\
         \x20 [ok  ] path (Codex: script): /bin/run.sh exists and is executable\n\
         \x20 [ok  ] path (Codex: script) script exec target 'artesian-mcp': /bin/artesian-mcp exists and is executable\n\
         \x20 [ok  ] path (Codex: again): /bin/artesian-mcp exists and is executable\n\
         \x20 [ok  ] processes: no artesian-mcp servers are running\n\
         \x20 [ok  ] version (/bin/artesian-mcp): 0.5.9 matches this CLI (0.5.9)\n\
         \x20 [ok  ] handshake (artesian-mcp ): responded in 5ms with 3 tool(s)\n\
         \x20 [fail] handshake (run.sh ): handshake timed out\n\
         \x20          fix: run the command manually and check stderr, or re-run `artesian init --register-mcp`\n\
         \x20 [ok  ] stale-resume: no stale resumed sessions detected in the most recent transcripts\n"
    );
    assert_eq!(verdict, Err("1 problem(s) found \u{2014} see the fixes above".to_string()));
}

#[test]
fn reports_without_failures_pass() {
    let warn = ReportItem::Detail("only a detail".to_string());
    let (_, verdict) = report(&vec![warn]);
    assert_eq!(verdict, Ok("\u{2713} all --mcp checks passed".to_string()));
}

fn footprint(digits: &str, unit: FootprintUnit) -> Option<Footprint> {
    Some(Footprint { digits: digits.to_string(), unit })
}

#[test]
fn footprints_are_read_with_their_unit() {
    let line = |value: &str| format!("Process: x\nPhysical footprint:         {value}\nmore: 1\n");
    assert_eq!(read_footprint(&line("512.3M")), footprint("512.3", FootprintUnit::Megabytes));
    assert_eq!(read_footprint(&line("1.5G")), footprint("1.5", FootprintUnit::Gigabytes));
    assert_eq!(read_footprint(&line("900K")), footprint("900", FootprintUnit::Kilobytes));
    assert_eq!(read_footprint(&line("4096")), footprint("4096", FootprintUnit::Bytes));
    assert_eq!(read_footprint(&line("")), None);
    assert_eq!(read_footprint("nothing here"), None);
}

fn entry(name: &str, cmdline: &[u8]) -> ProcEntry {
    ProcEntry {
        name: name.to_string(),
        comm: "artesian-mcp\n".to_string(),
        cmdline: cmdline.to_vec(),
        stat: Some(format!("{name} (artesian-mcp) S 1 77 77")),
        exe: None,
    }
}

#[test]
fn servers_are_listed_by_process_number() {
    let entries = vec![
        entry("30", b"artesian-mcp\0--config\0"),
        entry("self", b"artesian-mcp\0"),
        entry("4", b""),
        ProcEntry {
            name: "5".to_string(),
            comm: "sh".to_string(),
            cmdline: b"sh\0-c\0".to_vec(),
            stat: None,
            exe: None,
        },
    ];
    let found = discover_running_mcp_processes(&entries);
    let listed: Vec<(u32, Option<i32>, &str)> =
        found.iter().map(|p| (p.pid, p.pgid, p.command.as_str())).collect();
    assert_eq!(
        listed,
        vec![(4, Some(77), "artesian-mcp"), (30, Some(77), "artesian-mcp --config")]
    );
}

#[test]
fn transcripts_are_told_of_one_after_another() {
    let removal = r#"{"timestamp":"t1","attachment":{"type":"deferred_tools_delta","removedNames":["mcp__artesian__a"]}}"#;
    let instructions = r#"{"timestamp":"t2","attachment":{"type":"mcp_instructions_delta","addedNames":["artesian"]}}"#;
    let lines = vec![removal.to_string(), instructions.to_string()];
    let transcripts = vec![
        Transcript { path: "one".to_string(), lines: lines.clone() },
        Transcript { path: "two".to_string(), lines: vec![removal.to_string()] },
        Transcript { path: "three".to_string(), lines },
    ];
    let files: Vec<String> = stale_resume_findings(&transcripts)
        .into_iter()
        .map(|finding| finding.session_file)
        .collect();
    assert_eq!(files, vec!["one", "three"]);
}

fn surfaces(state: McpBinaryState) -> UpdateSurfaceReport {
    UpdateSurfaceReport {
        binaries: Vec::new(),
        registrations: Vec::new(),
        zed_extension: ZedExtensionStatus::Unknown("no home".to_string()),
        running_mcp: RunningMcpReport {
            processes: vec![McpProcessStatus {
                process: RunningMcpProcess {
                    pid: 7,
                    pgid: None,
                    exe: Some("/old".to_string()),
                    command: "artesian-mcp".to_string(),
                },
                binary_state: state,
            }],
            discovery_error: None,
        },
    }
}

#[test]
fn updates_suggest_a_restart_only_for_stale_servers() {
    let none = RestartOutcome::new();
    let brew = BrewUpdateOutcome::UpgradeSucceeded;
    let stale = update(&brew, &surfaces(McpBinaryState::Stale), false, &none);
    assert!(stale.starts_with(
        "artesian update\nHomebrew: upgrading aquifer-labs/tap/artesian...\nHomebrew: upgrade completed.\n\n"
    ));
    let skipped = update(
        &BrewUpdateOutcome::Unavailable,
        &surfaces(McpBinaryState::Current),
        false,
        &none,
    );
    assert!(skipped.starts_with("artesian update\nHomebrew: not found; skipped"));
    assert!(stale.ends_with(&format!("{RESTART_SUGGESTION}{DOCTOR_SUGGESTION}")));
    let current = update(&brew, &surfaces(McpBinaryState::Current), false, &none);
    assert!(!current.contains(RESTART_SUGGESTION));
    let restarted = update(&brew, &surfaces(McpBinaryState::Stale), true, &none);
    assert!(restarted.contains("Restart: no stale artesian-mcp processes needed termination.\n"));
}
