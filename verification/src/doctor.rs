//! The checks on registrations, binaries and sessions, and how their findings are told.

use vstd::prelude::*;
use crate::assistant::Assistant;
use crate::compat::ARTESIAN_VERSION;
use crate::handshake::HandshakeOk;
use crate::processes::RunningMcpProcess;
use crate::registration;
use crate::registration::{CELLAR_MARKER, CELLAR_STABLE_PATH, McpRegistrationEntry, RawServerEntry};
use crate::session::StaleResumeFinding;
use crate::sorting;
use crate::text;
use crate::update::VersionProbe;

verus! {

/// How bad a finding is.
#[derive(Debug, Clone, Copy, PartialEq, Eq, Structural)]
pub enum Level {
    Good,
    Warn,
    Fail,
}

/// One line of the report.
#[derive(Debug, Clone, PartialEq, Eq)]
pub enum ReportItem {
    /// The finding of a check, with what to do about it.
    Finding { level: Level, line: String, fix: Option<String> },
    /// A line below a finding.
    Detail(String),
}

/// What a line of the report says.
pub enum ItemView {
    Finding { level: Level, line: Seq<char>, fix: Option<Seq<char>> },
    Detail(Seq<char>),
}

impl View for ReportItem {
    type V = ItemView;

    open spec fn view(&self) -> ItemView {
        match *self {
            ReportItem::Finding { level, line, fix } => ItemView::Finding {
                level,
                line: line@,
                fix: text::text_opt(fix),
            },
            ReportItem::Detail(line) => ItemView::Detail(line@),
        }
    }
}

/// The word for a level.
pub open spec fn level_word(level: Level) -> Seq<char> {
    match level {
        Level::Good => "ok"@,
        Level::Warn => "warn"@,
        Level::Fail => "fail"@,
    }
}

/// The text of a line of the report.
pub open spec fn item_text(item: ItemView) -> Seq<char> {
    match item {
        ItemView::Finding { level, line, fix } => {
            let first = "  ["@ + text::padded_right(level_word(level), 4, ' ') + "] "@ + line
                + "\n"@;
            match fix {
                Some(fix) => first + "           fix: "@ + fix + "\n"@,
                None => first,
            }
        },
        ItemView::Detail(line) => "           "@ + line + "\n"@,
    }
}

/// The text of a line of the report.
pub fn render_item(item: &ReportItem) -> (r: String)
    ensures
        r@ == item_text(item@),
{
    match item {
        ReportItem::Finding { level, line, fix } => {
            let mut out = "  [".to_owned();
            let word = match level {
                Level::Good => "ok",
                Level::Warn => "warn",
                Level::Fail => "fail",
            };
            let tag = text::pad_right(word, 4, ' ');
            out.append(tag.as_str());
            out.append("] ");
            out.append(line.as_str());
            out.append("\n");
            match fix {
                Some(fix) => {
                    out.append("           fix: ");
                    out.append(fix.as_str());
                    out.append("\n");
                },
                None => {},
            }
            out
        },
        ReportItem::Detail(line) => {
            let mut out = "           ".to_owned();
            out.append(line.as_str());
            out.append("\n");
            out
        },
    }
}

/// A line of the report tells of a failure.
pub open spec fn is_failure(item: ItemView) -> bool {
    item is Finding && item->level == Level::Fail
}

/// The number of failures among the first `n` lines.
pub open spec fn failures(items: Seq<ItemView>, n: int) -> int
    decreases n,
{
    if n <= 0 {
        0
    } else {
        failures(items, n - 1) + if is_failure(items[n - 1]) {
            1int
        } else {
            0int
        }
    }
}

/// The number of failures in a report. Warnings are none.
pub fn count_failures(items: &Vec<ReportItem>) -> (r: usize)
    ensures
        r == failures(sorting::views(items@), items@.len() as int),
{
    let ghost all = sorting::views(items@);
    let mut n: usize = 0;
    let mut i: usize = 0;
    while i < items.len()
        invariant
            all == sorting::views(items@),
            n <= i <= items@.len(),
            n == failures(all, i as int),
        decreases items@.len() - i,
    {
        assert(all[i as int] == items@[i as int]@);
        match &items[i] {
            ReportItem::Finding { level, .. } => {
                if *level == Level::Fail {
                    n = n + 1;
                }
            },
            ReportItem::Detail(_) => {},
        }
        i = i + 1;
    }
    n
}

/// How the checks ended: a closing line, or the error when something failed.
pub fn verdict(problems: usize) -> (r: Result<String, String>)
    ensures
        problems == 0 ==> r is Ok && r->Ok_0@ == "\u{2713} all --mcp checks passed"@,
        problems > 0 ==> r is Err && r->Err_0@ == text::decimal(problems as nat)
            + " problem(s) found \u{2014} see the fixes above"@,
{
    if problems == 0 {
        Ok("\u{2713} all --mcp checks passed".to_owned())
    } else {
        let mut out = text::decimal_u64(problems as u64);
        out.append(" problem(s) found \u{2014} see the fixes above");
        Err(out)
    }
}

fn finding(level: Level, line: String, fix: Option<String>) -> (r: ReportItem)
    ensures
        r@ == (ItemView::Finding { level, line: line@, fix: text::text_opt(fix) }),
{
    ReportItem::Finding { level, line, fix }
}

fn single(item: ReportItem) -> (r: Vec<ReportItem>)
    ensures
        sorting::views(r@) == seq![item@],
{
    let mut out: Vec<ReportItem> = Vec::new();
    out.push(item);
    assert(sorting::views(out@) =~= seq![item@]);
    out
}

/// The heading of the report.
pub fn heading() -> (r: String)
    ensures
        r@ == "artesian doctor --mcp (v"@ + ARTESIAN_VERSION@ + ")\n"@,
{
    let mut out = "artesian doctor --mcp (v".to_owned();
    out.append(ARTESIAN_VERSION);
    out.append(")\n");
    out
}

/// The heading and the first `n` lines of a report as text.
pub open spec fn report_text(items: Seq<ItemView>, n: int) -> Seq<char>
    decreases n,
{
    if n <= 0 {
        "artesian doctor --mcp (v"@ + ARTESIAN_VERSION@ + ")\n"@
    } else {
        report_text(items, n - 1) + item_text(items[n - 1])
    }
}

// ---------------------------------------------------------------------------------------------
// Registrations
// ---------------------------------------------------------------------------------------------

/// The line below the inventory that tells of one registration.
pub open spec fn registration_line(reg: McpRegistrationEntry) -> Seq<char> {
    "- "@ + reg.source_label@ + ": "@ + reg.server_name@ + " -> "@ + reg.entry.command@ + " "@
        + text::joined(text::texts(reg.entry.args@), " "@)
}

proof fn lemma_lines_views(
    items: Seq<ItemView>,
    a: Seq<McpRegistrationEntry>,
    b: Seq<McpRegistrationEntry>,
    n: int,
)
    requires
        sorting::views(a) == sorting::views(b),
        0 <= n <= a.len(),
    ensures
        with_registration_lines(items, a, n) == with_registration_lines(items, b, n),
    decreases n,
{
    if n > 0 {
        lemma_lines_views(items, a, b, n - 1);
        assert(sorting::views(a)[n - 1] == a[n - 1]@);
        assert(sorting::views(b).len() == b.len());
        assert(sorting::views(b)[n - 1] == b[n - 1]@);
    }
}

/// The inventory depends only on what registrations stand for.
pub proof fn lemma_inventory_views(a: Seq<McpRegistrationEntry>, b: Seq<McpRegistrationEntry>)
    requires
        sorting::views(a) == sorting::views(b),
    ensures
        inventory(a) == inventory(b),
{
    assert(sorting::views(a).len() == a.len());
    assert(sorting::views(b).len() == b.len());
    let first = seq![
        ItemView::Finding {
            level: Level::Good,
            line: "registrations: found "@ + text::decimal(a.len())
                + " artesian MCP registration(s)"@,
            fix: None,
        },
    ];
    lemma_lines_views(first, a, b, a.len() as int);
}

/// The lines below the inventory for the first `n` registrations.
pub open spec fn with_registration_lines(
    items: Seq<ItemView>,
    regs: Seq<McpRegistrationEntry>,
    n: int,
) -> Seq<ItemView>
    decreases n,
{
    if n <= 0 {
        items
    } else {
        with_registration_lines(items, regs, n - 1).push(
            ItemView::Detail(registration_line(regs[n - 1])),
        )
    }
}

/// The inventory of registrations.
pub open spec fn inventory(regs: Seq<McpRegistrationEntry>) -> Seq<ItemView> {
    if regs.len() == 0 {
        seq![
            ItemView::Finding {
                level: Level::Warn,
                line: "registrations: no artesian MCP registrations found"@,
                fix: Some("run `artesian init --register-mcp`"@),
            },
        ]
    } else {
        with_registration_lines(
            seq![
                ItemView::Finding {
                    level: Level::Good,
                    line: "registrations: found "@ + text::decimal(regs.len())
                        + " artesian MCP registration(s)"@,
                    fix: None,
                },
            ],
            regs,
            regs.len() as int,
        )
    }
}

/// The inventory of registrations.
pub fn report_registrations(regs: &Vec<McpRegistrationEntry>) -> (r: Vec<ReportItem>)
    ensures
        sorting::views(r@) == inventory(regs@),
{
    if regs.len() == 0 {
        return single(
            finding(
                Level::Warn,
                "registrations: no artesian MCP registrations found".to_owned(),
                Some("run `artesian init --register-mcp`".to_owned()),
            ),
        );
    }
    let mut line = "registrations: found ".to_owned();
    let count = text::decimal_u64(regs.len() as u64);
    line.append(count.as_str());
    line.append(" artesian MCP registration(s)");
    let mut out = single(finding(Level::Good, line, None));
    let ghost first = sorting::views(out@);
    let mut i: usize = 0;
    while i < regs.len()
        invariant
            i <= regs@.len(),
            sorting::views(out@) == with_registration_lines(first, regs@, i as int),
        decreases regs@.len() - i,
    {
        let reg = &regs[i];
        let mut detail = "- ".to_owned();
        detail.append(reg.source_label.as_str());
        detail.append(": ");
        detail.append(reg.server_name.as_str());
        detail.append(" -> ");
        detail.append(reg.entry.command.as_str());
        detail.append(" ");
        let args = text::join(&reg.entry.args, " ");
        detail.append(args.as_str());
        let item = ReportItem::Detail(detail);
        proof {
            sorting::lemma_views_push(out@, item);
        }
        out.push(item);
        i = i + 1;
    }
    out
}

/// What a command resolves to: where it stands, whether it can be run, and which program it runs
/// when it is a script.
#[derive(Debug, Clone, PartialEq, Eq)]
pub struct ResolvedCommand {
    pub path: String,
    pub executable: bool,
    pub script_target: Option<String>,
}

/// The finding on a path that is there and can be run: a warning when it is pinned to a version.
pub open spec fn found_path(label: Seq<char>, path: Seq<char>) -> ItemView {
    if text::has_text(path, CELLAR_MARKER@) {
        ItemView::Finding {
            level: Level::Warn,
            line: label + ": "@ + path + " is a version-pinned Homebrew Cellar path"@,
            fix: Some("use "@ + CELLAR_STABLE_PATH@ + " (survives upgrades)"@),
        }
    } else {
        ItemView::Finding {
            level: Level::Good,
            line: label + ": "@ + path + " exists and is executable"@,
            fix: None,
        }
    }
}

/// The finding on a path that is there and cannot be run.
pub open spec fn not_executable(label: Seq<char>, path: Seq<char>) -> ItemView {
    ItemView::Finding {
        level: Level::Fail,
        line: label + ": "@ + path + " exists but is not executable"@,
        fix: Some("chmod +x "@ + path),
    }
}

/// The findings on the command of a registration, and on the program behind it when the command
/// is a script.
pub open spec fn path_health(
    source_label: Seq<char>,
    server_name: Seq<char>,
    command: Seq<char>,
    resolved: Option<ResolvedCommand>,
    target: Option<ResolvedCommand>,
) -> Seq<ItemView> {
    let label = "path ("@ + source_label + ": "@ + server_name + ")"@;
    match resolved {
        None => seq![
            ItemView::Finding {
                level: Level::Fail,
                line: label + ": command '"@ + command + "' was not found (not on PATH, not a file)"@,
                fix: Some(
                    "re-run `artesian init --register-mcp`, or repoint the registration at an installed artesian-mcp"@,
                ),
            },
        ],
        Some(command) => if !command.executable {
            seq![not_executable(label, command.path@)]
        } else {
            let first = found_path(label, command.path@);
            match command.script_target {
                None => seq![first],
                Some(name) => {
                    let inner = label + " script exec target '"@ + name@ + "'"@;
                    seq![
                        first,
                        match target {
                            Some(program) => if program.executable {
                                found_path(inner, program.path@)
                            } else {
                                not_executable(inner, program.path@)
                            },
                            None => ItemView::Finding {
                                level: Level::Fail,
                                line: inner + ": not found on PATH"@,
                                fix: Some(
                                    "install artesian-mcp on PATH (e.g. `brew install aquifer-labs/tap/artesian`)"@,
                                ),
                            },
                        },
                    ]
                },
            }
        },
    }
}

fn report_found_path(label: &str, path: &str) -> (r: ReportItem)
    ensures
        r@ == found_path(label@, path@),
{
    let mut line = label.to_owned();
    line.append(": ");
    line.append(path);
    if registration::is_cellar_pinned(path) {
        line.append(" is a version-pinned Homebrew Cellar path");
        let mut fix = "use ".to_owned();
        fix.append(CELLAR_STABLE_PATH);
        fix.append(" (survives upgrades)");
        finding(Level::Warn, line, Some(fix))
    } else {
        line.append(" exists and is executable");
        finding(Level::Good, line, None)
    }
}

fn report_not_executable(label: &str, path: &str) -> (r: ReportItem)
    ensures
        r@ == not_executable(label@, path@),
{
    let mut line = label.to_owned();
    line.append(": ");
    line.append(path);
    line.append(" exists but is not executable");
    let mut fix = "chmod +x ".to_owned();
    fix.append(path);
    finding(Level::Fail, line, Some(fix))
}

/// The findings on the command of a registration. `resolved` is what the command resolves to, and
/// `target` what the program behind it resolves to when the command is a script.
pub fn check_path_health(
    reg: &McpRegistrationEntry,
    resolved: Option<&ResolvedCommand>,
    target: Option<&ResolvedCommand>,
) -> (r: Vec<ReportItem>)
    ensures
        sorting::views(r@) == path_health(
            reg.source_label@,
            reg.server_name@,
            reg.entry.command@,
            match resolved {
                Some(command) => Some(*command),
                None => None,
            },
            match target {
                Some(program) => Some(*program),
                None => None,
            },
        ),
{
    let mut label = "path (".to_owned();
    label.append(reg.source_label.as_str());
    label.append(": ");
    label.append(reg.server_name.as_str());
    label.append(")");
    match resolved {
        None => {
            let mut line = label;
            line.append(": command '");
            line.append(reg.entry.command.as_str());
            line.append("' was not found (not on PATH, not a file)");
            single(
                finding(
                    Level::Fail,
                    line,
                    Some(
                        "re-run `artesian init --register-mcp`, or repoint the registration at an installed artesian-mcp".to_owned(),
                    ),
                ),
            )
        },
        Some(command) => {
            if !command.executable {
                return single(report_not_executable(label.as_str(), command.path.as_str()));
            }
            let mut out = single(report_found_path(label.as_str(), command.path.as_str()));
            match &command.script_target {
                None => out,
                Some(name) => {
                    let mut inner = label;
                    inner.append(" script exec target '");
                    inner.append(name.as_str());
                    inner.append("'");
                    let second = match target {
                        Some(program) => if program.executable {
                            report_found_path(inner.as_str(), program.path.as_str())
                        } else {
                            report_not_executable(inner.as_str(), program.path.as_str())
                        },
                        None => {
                            let mut line = inner;
                            line.append(": not found on PATH");
                            finding(
                                Level::Fail,
                                line,
                                Some(
                                    "install artesian-mcp on PATH (e.g. `brew install aquifer-labs/tap/artesian`)".to_owned(),
                                ),
                            )
                        },
                    };
                    proof {
                        sorting::lemma_views_push(out@, second);
                    }
                    let ghost before = sorting::views(out@);
                    out.push(second);
                    assert(sorting::views(out@) =~= seq![before[0], second@]);
                    out
                },
            }
        },
    }
}

// ---------------------------------------------------------------------------------------------
// Running servers
// ---------------------------------------------------------------------------------------------

/// The line about one running server. `cost` is its footprint as text, where it was measured.
pub open spec fn process_line(pid: u32, command: Seq<char>, cost: Option<String>) -> Seq<char> {
    "- pid "@ + text::padded_right(text::decimal(pid as nat), 7, ' ') + " "@ + (match cost {
        Some(cost) => cost@,
        None => "        ? MB"@,
    }) + "  "@ + command
}

/// The lines about the first `n` running servers.
pub open spec fn with_process_lines(
    items: Seq<ItemView>,
    processes: Seq<RunningMcpProcess>,
    costs: Seq<Option<String>>,
    n: int,
) -> Seq<ItemView>
    decreases n,
{
    if n <= 0 {
        items
    } else {
        with_process_lines(items, processes, costs, n - 1).push(
            ItemView::Detail(
                process_line(
                    processes[n - 1].pid,
                    processes[n - 1].command@,
                    costs[n - 1],
                ),
            ),
        )
    }
}

/// The number of servers among the first `n` that were not measured.
pub open spec fn unmeasured(costs: Seq<Option<String>>, n: int) -> int
    decreases n,
{
    if n <= 0 {
        0
    } else {
        unmeasured(costs, n - 1) + if costs[n - 1] is None {
            1int
        } else {
            0int
        }
    }
}

/// The finding on the running servers together. `combined` is their footprint in gigabytes as
/// text, where it is not zero, and `heavy` tells that it is past what is worth a second look.
pub open spec fn footprint_finding(count: nat, combined: Option<Seq<char>>, heavy: bool) -> ItemView {
    let counted = "processes: "@ + text::decimal(count) + " artesian-mcp server(s) running"@;
    ItemView::Finding {
        level: if heavy {
            Level::Warn
        } else {
            Level::Good
        },
        line: match combined {
            Some(size) => counted + ", "@ + size + " GB combined"@,
            None => counted,
        },
        fix: if heavy {
            Some(
                "each server holds its own embedding model \u{2014} close idle MCP clients, or run `artesian update --restart-stale` to drop servers left by clients that already exited"@,
            )
        } else {
            None
        },
    }
}

/// The findings on the running servers.
pub open spec fn running_findings(
    processes: Seq<RunningMcpProcess>,
    costs: Seq<Option<String>>,
    combined: Option<Seq<char>>,
    heavy: bool,
) -> Seq<ItemView> {
    if processes.len() == 0 {
        seq![
            ItemView::Finding {
                level: Level::Good,
                line: "processes: no artesian-mcp servers are running"@,
                fix: None,
            },
        ]
    } else {
        let lines = with_process_lines(
            seq![footprint_finding(processes.len(), combined, heavy)],
            processes,
            costs,
            processes.len() as int,
        );
        let missing = unmeasured(costs, costs.len() as int);
        if missing > 0 {
            lines.push(
                ItemView::Detail(
                    "("@ + text::decimal(missing as nat) + " process(es) reported no footprint)"@,
                ),
            )
        } else {
            lines
        }
    }
}

/// The findings on the running servers, or why they could not be listed.
pub open spec fn running(
    discovered: Result<Vec<RunningMcpProcess>, String>,
    costs: Seq<Option<String>>,
    combined: Option<Seq<char>>,
    heavy: bool,
) -> Seq<ItemView> {
    match discovered {
        Ok(processes) => running_findings(processes@, costs, combined, heavy),
        Err(error) => seq![
            ItemView::Finding {
                level: Level::Warn,
                line: "processes: could not inventory running artesian-mcp processes: "@ + error@,
                fix: None,
            },
        ],
    }
}

fn report_footprint(count: usize, combined: Option<&str>, heavy: bool) -> (r: ReportItem)
    ensures
        r@ == footprint_finding(count as nat, text::str_opt(combined), heavy),
{
    let mut line = "processes: ".to_owned();
    let digits = text::decimal_u64(count as u64);
    line.append(digits.as_str());
    line.append(" artesian-mcp server(s) running");
    match combined {
        Some(size) => {
            line.append(", ");
            line.append(size);
            line.append(" GB combined");
        },
        None => {},
    }
    if heavy {
        finding(
            Level::Warn,
            line,
            Some(
                "each server holds its own embedding model \u{2014} close idle MCP clients, or run `artesian update --restart-stale` to drop servers left by clients that already exited".to_owned(),
            ),
        )
    } else {
        finding(Level::Good, line, None)
    }
}

/// The findings on the running servers, or why they could not be listed. `costs` holds one
/// footprint for each server.
pub fn check_running_processes(
    discovered: &Result<Vec<RunningMcpProcess>, String>,
    costs: &Vec<Option<String>>,
    combined: Option<&str>,
    heavy: bool,
) -> (r: Vec<ReportItem>)
    requires
        *discovered is Ok ==> (*discovered)->Ok_0@.len() == costs@.len(),
    ensures
        sorting::views(r@) == running(*discovered, costs@, text::str_opt(combined), heavy),
{
    let processes = match discovered {
        Ok(processes) => processes,
        Err(error) => {
            let mut line = "processes: could not inventory running artesian-mcp processes: ".to_owned();
            line.append(error.as_str());
            return single(finding(Level::Warn, line, None));
        },
    };
    if processes.len() == 0 {
        return single(
            finding(
                Level::Good,
                "processes: no artesian-mcp servers are running".to_owned(),
                None,
            ),
        );
    }
    let mut out = single(report_footprint(processes.len(), combined, heavy));
    let ghost first = sorting::views(out@);
    let mut missing: u64 = 0;
    let mut i: usize = 0;
    while i < processes.len()
        invariant
            i <= processes@.len() == costs@.len(),
            missing <= i,
            missing == unmeasured(costs@, i as int),
            sorting::views(out@) == with_process_lines(first, processes@, costs@, i as int),
        decreases processes@.len() - i,
    {
        let mut line = "- pid ".to_owned();
        let digits = text::decimal_u64(processes[i].pid as u64);
        let padded = text::pad_right(digits.as_str(), 7, ' ');
        line.append(padded.as_str());
        line.append(" ");
        match &costs[i] {
            Some(cost) => line.append(cost.as_str()),
            None => {
                line.append("        ? MB");
                missing = missing + 1;
            },
        }
        line.append("  ");
        line.append(processes[i].command.as_str());
        let item = ReportItem::Detail(line);
        proof {
            sorting::lemma_views_push(out@, item);
        }
        out.push(item);
        i = i + 1;
    }
    if missing > 0 {
        let mut line = "(".to_owned();
        let digits = text::decimal_u64(missing);
        line.append(digits.as_str());
        line.append(" process(es) reported no footprint)");
        let item = ReportItem::Detail(line);
        proof {
            sorting::lemma_views_push(out@, item);
        }
        out.push(item);
    }
    out
}

// ---------------------------------------------------------------------------------------------
// Versions
// ---------------------------------------------------------------------------------------------

/// The finding on the version of a program. `probe` is what asking it gave, where it resolves.
pub open spec fn version_finding(
    target: Seq<char>,
    current_version: Seq<char>,
    probe: Option<VersionProbe>,
) -> ItemView {
    let label = "version ("@ + target + ")"@;
    let update = "re-run `artesian init --register-mcp` or update the copy"@;
    match probe {
        None => ItemView::Finding {
            level: Level::Warn,
            line: label + ": could not resolve to run --version"@,
            fix: Some("verify the binary is installed and on PATH"@),
        },
        Some(VersionProbe::Found(line)) => {
            let found = registration::version_part(line@);
            if found == current_version {
                ItemView::Finding {
                    level: Level::Good,
                    line: label + ": "@ + found + " matches this CLI ("@ + current_version + ")"@,
                    fix: None,
                }
            } else {
                ItemView::Finding {
                    level: Level::Warn,
                    line: label + ": reports "@ + found + ", this CLI is "@ + current_version,
                    fix: Some(update),
                }
            }
        },
        Some(VersionProbe::Failed(message)) => ItemView::Finding {
            level: Level::Warn,
            line: label + ": --version failed ("@ + message@ + ")"@,
            fix: Some(update),
        },
        Some(VersionProbe::NotInstalled) => ItemView::Finding {
            level: Level::Warn,
            line: label + ": not installed"@,
            fix: Some(update),
        },
    }
}

/// The finding on the version of a program.
pub fn check_version_drift(target: &str, current_version: &str, probe: Option<&VersionProbe>) -> (r:
    ReportItem)
    ensures
        r@ == version_finding(
            target@,
            current_version@,
            match probe {
                Some(probe) => Some(*probe),
                None => None,
            },
        ),
{
    let mut line = "version (".to_owned();
    line.append(target);
    line.append(")");
    match probe {
        None => {
            line.append(": could not resolve to run --version");
            finding(
                Level::Warn,
                line,
                Some("verify the binary is installed and on PATH".to_owned()),
            )
        },
        Some(VersionProbe::Found(text_line)) => {
            let found = registration::version_token(text_line.as_str());
            if text::same_text(found.as_str(), current_version) {
                line.append(": ");
                line.append(found.as_str());
                line.append(" matches this CLI (");
                line.append(current_version);
                line.append(")");
                finding(Level::Good, line, None)
            } else {
                line.append(": reports ");
                line.append(found.as_str());
                line.append(", this CLI is ");
                line.append(current_version);
                finding(
                    Level::Warn,
                    line,
                    Some("re-run `artesian init --register-mcp` or update the copy".to_owned()),
                )
            }
        },
        Some(VersionProbe::Failed(message)) => {
            line.append(": --version failed (");
            line.append(message.as_str());
            line.append(")");
            finding(
                Level::Warn,
                line,
                Some("re-run `artesian init --register-mcp` or update the copy".to_owned()),
            )
        },
        Some(VersionProbe::NotInstalled) => {
            line.append(": not installed");
            finding(
                Level::Warn,
                line,
                Some("re-run `artesian init --register-mcp` or update the copy".to_owned()),
            )
        },
    }
}

/// The texts of a list among the first `n`, each where it comes first.
pub open spec fn firsts(list: Seq<Seq<char>>, n: int) -> Seq<Seq<char>>
    decreases n,
{
    if n <= 0 {
        Seq::empty()
    } else if firsts(list, n - 1).contains(list[n - 1]) {
        firsts(list, n - 1)
    } else {
        firsts(list, n - 1).push(list[n - 1])
    }
}

/// The programs to ask for their version: each once, in the order of the registrations.
pub fn distinct_targets(targets: &Vec<String>) -> (r: Vec<String>)
    ensures
        text::texts(r@) == firsts(text::texts(targets@), targets@.len() as int),
{
    let ghost all = text::texts(targets@);
    let mut out: Vec<String> = Vec::new();
    assert(text::texts(out@) =~= firsts(all, 0));
    let mut i: usize = 0;
    while i < targets.len()
        invariant
            all == text::texts(targets@),
            i <= targets@.len(),
            text::texts(out@) == firsts(all, i as int),
        decreases targets@.len() - i,
    {
        let ghost seen = text::texts(out@);
        assert(all[i as int] == targets@[i as int]@);
        let mut found = false;
        let mut k: usize = 0;
        while k < out.len()
            invariant
                k <= out@.len(),
                i < targets@.len(),
                seen == text::texts(out@),
                found == exists|j: int| 0 <= j < k && seen[j] == targets@[i as int]@,
            decreases out@.len() - k,
        {
            assert(seen[k as int] == out@[k as int]@);
            if text::same_text(out[k].as_str(), targets[i].as_str()) {
                found = true;
            }
            k = k + 1;
        }
        assert(found == seen.contains(all[i as int]));
        if !found {
            let copy = targets[i].clone();
            proof {
                text::lemma_texts_push(out@, copy);
            }
            out.push(copy);
        }
        i = i + 1;
    }
    out
}

/// Every program is asked, and none twice.
pub proof fn law_targets_asked_once(list: Seq<Seq<char>>)
    ensures
        firsts(list, list.len() as int).no_duplicates(),
        firsts(list, list.len() as int).to_set() == list.to_set(),
{
    lemma_firsts(list, list.len() as int);
    assert(list.take(list.len() as int) =~= list);
}

proof fn lemma_firsts(list: Seq<Seq<char>>, n: int)
    requires
        0 <= n <= list.len(),
    ensures
        firsts(list, n).no_duplicates(),
        firsts(list, n).to_set() == list.take(n).to_set(),
    decreases n,
{
    broadcast use vstd::seq_lib::group_seq_properties;

    if n > 0 {
        lemma_firsts(list, n - 1);
        let earlier = firsts(list, n - 1);
        assert(list.take(n) =~= list.take(n - 1).push(list[n - 1]));
        assert forall|k: Seq<char>| firsts(list, n).to_set().contains(k) == list.take(
            n,
        ).to_set().contains(k) by {
            assert(earlier.to_set().contains(k) == earlier.contains(k));
            assert(list.take(n - 1).to_set().contains(k) == list.take(n - 1).contains(k));
        }
        assert(firsts(list, n).to_set() =~= list.take(n).to_set());
    } else {
        assert(list.take(n) =~= Seq::<Seq<char>>::empty());
        assert(firsts(list, n).to_set() =~= list.take(n).to_set());
    }
}

// ---------------------------------------------------------------------------------------------
// Handshakes
// ---------------------------------------------------------------------------------------------

/// An earlier registration starts its server in the same way.
pub open spec fn launched_before(regs: Seq<McpRegistrationEntry>, i: int) -> bool {
    exists|j: int| 0 <= j < i && (#[trigger] regs[j]).entry@ == regs[i].entry@
}

/// The registrations among the first `n` whose servers are started: each way of starting once.
pub open spec fn launches(regs: Seq<McpRegistrationEntry>, n: int) -> Seq<int>
    decreases n,
{
    if n <= 0 {
        Seq::empty()
    } else if launched_before(regs, n - 1) {
        launches(regs, n - 1)
    } else {
        launches(regs, n - 1).push(n - 1)
    }
}

/// A server is started in the same way as registration `i` starts its own.
pub open spec fn started(regs: Seq<McpRegistrationEntry>, made: Seq<int>, i: int) -> bool {
    exists|k: int| 0 <= k < made.len() && regs[#[trigger] made[k]].entry@ == regs[i].entry@
}

/// Every way of starting a server is tried, and none twice.
pub proof fn law_launches_made_once(regs: Seq<McpRegistrationEntry>)
    ensures
        ({
            let made = launches(regs, regs.len() as int);
            &&& forall|k: int| 0 <= k < made.len() ==> 0 <= #[trigger] made[k] < regs.len()
            &&& forall|j: int, k: int|
                0 <= j < k < made.len() ==> regs[#[trigger] made[j]].entry@
                    != regs[#[trigger] made[k]].entry@
            &&& forall|i: int| 0 <= i < regs.len() ==> #[trigger] started(regs, made, i)
        }),
{
    lemma_launches(regs, regs.len() as int);
}

proof fn lemma_launches(regs: Seq<McpRegistrationEntry>, n: int)
    requires
        0 <= n <= regs.len(),
    ensures
        ({
            let made = launches(regs, n);
            &&& forall|k: int| 0 <= k < made.len() ==> 0 <= #[trigger] made[k] < n
            &&& forall|j: int, k: int|
                0 <= j < k < made.len() ==> regs[#[trigger] made[j]].entry@
                    != regs[#[trigger] made[k]].entry@
            &&& forall|i: int| 0 <= i < n ==> #[trigger] started(regs, made, i)
        }),
    decreases n,
{
    if n > 0 {
        lemma_launches(regs, n - 1);
        let before = launches(regs, n - 1);
        let made = launches(regs, n);
        assert forall|j: int, k: int| 0 <= j < k < made.len() implies regs[#[trigger] made[j]].entry@
            != regs[#[trigger] made[k]].entry@ by {
            assert(made[j] == before[j]);
            if k < before.len() {
                assert(made[k] == before[k]);
            }
        }
        assert forall|i: int| 0 <= i < n implies #[trigger] started(regs, made, i) by {
            let source = if i < n - 1 {
                i
            } else if launched_before(regs, n - 1) {
                choose|j: int| 0 <= j < n - 1 && (#[trigger] regs[j]).entry@ == regs[n - 1].entry@
            } else {
                n - 1
            };
            if source < n - 1 {
                assert(started(regs, before, source));
                let k = choose|k: int|
                    0 <= k < before.len() && regs[#[trigger] before[k]].entry@
                        == regs[source].entry@;
                assert(made[k] == before[k]);
            } else {
                assert(made[made.len() - 1] == n - 1);
            }
        }
    }
}

/// The launches depend only on what registrations stand for.
pub proof fn lemma_launches_views(
    a: Seq<McpRegistrationEntry>,
    b: Seq<McpRegistrationEntry>,
    n: int,
)
    requires
        sorting::views(a) == sorting::views(b),
        0 <= n <= a.len(),
    ensures
        launches(a, n) == launches(b, n),
    decreases n,
{
    if n > 0 {
        lemma_launches_views(a, b, n - 1);
        assert(sorting::views(b).len() == b.len());
        assert forall|j: int| 0 <= j < n implies (#[trigger] a[j]).entry@ == b[j].entry@ by {
            assert(sorting::views(a)[j] == a[j]@);
            assert(sorting::views(b)[j] == b[j]@);
        }
        if launched_before(a, n - 1) {
            let j = choose|j: int| 0 <= j < n - 1 && (#[trigger] a[j]).entry@ == a[n - 1].entry@;
            assert(b[j].entry@ == b[n - 1].entry@);
        }
        if launched_before(b, n - 1) {
            let j = choose|j: int| 0 <= j < n - 1 && (#[trigger] b[j]).entry@ == b[n - 1].entry@;
            assert(a[j].entry@ == a[n - 1].entry@);
        }
    }
}

/// The registrations whose servers are started: each way of starting a server once.
pub fn distinct_launches(regs: &Vec<McpRegistrationEntry>) -> (r: Vec<usize>)
    ensures
        r@.map_values(|i: usize| i as int) == launches(regs@, regs@.len() as int),
        forall|k: int| 0 <= k < r@.len() ==> #[trigger] r@[k] < regs@.len(),
{
    let mut out: Vec<usize> = Vec::new();
    let mut i: usize = 0;
    assert(out@.map_values(|i: usize| i as int) =~= launches(regs@, 0));
    while i < regs.len()
        invariant
            i <= regs@.len(),
            out@.map_values(|i: usize| i as int) == launches(regs@, i as int),
            forall|k: int| 0 <= k < out@.len() ==> #[trigger] out@[k] < regs@.len(),
        decreases regs@.len() - i,
    {
        let mut found = false;
        let mut j: usize = 0;
        while j < i
            invariant
                j <= i < regs@.len(),
                found == exists|m: int|
                    0 <= m < j && (#[trigger] regs@[m]).entry@ == regs@[i as int].entry@,
            decreases i - j,
        {
            if regs[j].entry.same_launch(&regs[i].entry) {
                found = true;
            }
            j = j + 1;
        }
        if !found {
            let ghost before = out@;
            out.push(i);
            assert(out@.map_values(|i: usize| i as int) =~= before.map_values(
                |i: usize| i as int,
            ).push(i as int));
        }
        i = i + 1;
    }
    out
}

/// The finding on a handshake.
pub open spec fn handshake_finding(
    command: Seq<char>,
    args: Seq<Seq<char>>,
    result: Result<HandshakeOk, String>,
) -> ItemView {
    let label = "handshake ("@ + command + " "@ + text::joined(args, " "@) + ")"@;
    match result {
        Ok(ok) => ItemView::Finding {
            level: Level::Good,
            line: label + ": responded in "@ + text::decimal(ok.elapsed_ms as nat) + "ms with "@
                + text::decimal(ok.tools_count as nat) + " tool(s)"@,
            fix: None,
        },
        Err(error) => ItemView::Finding {
            level: Level::Fail,
            line: label + ": "@ + error@,
            fix: Some(
                "run the command manually and check stderr, or re-run `artesian init --register-mcp`"@,
            ),
        },
    }
}

/// The finding on a handshake.
pub fn check_handshake(entry: &RawServerEntry, result: &Result<HandshakeOk, String>) -> (r:
    ReportItem)
    ensures
        r@ == handshake_finding(entry.command@, text::texts(entry.args@), *result),
{
    let mut line = "handshake (".to_owned();
    line.append(entry.command.as_str());
    line.append(" ");
    let args = text::join(&entry.args, " ");
    line.append(args.as_str());
    line.append(")");
    match result {
        Ok(ok) => {
            line.append(": responded in ");
            let elapsed = text::decimal_u128(ok.elapsed_ms);
            line.append(elapsed.as_str());
            line.append("ms with ");
            let count = text::decimal_u64(ok.tools_count as u64);
            line.append(count.as_str());
            line.append(" tool(s)");
            finding(Level::Good, line, None)
        },
        Err(error) => {
            line.append(": ");
            line.append(error.as_str());
            finding(
                Level::Fail,
                line,
                Some(
                    "run the command manually and check stderr, or re-run `artesian init --register-mcp`".to_owned(),
                ),
            )
        },
    }
}

// ---------------------------------------------------------------------------------------------
// Sessions
// ---------------------------------------------------------------------------------------------

/// The finding on one session that lost its tools.
pub open spec fn stale_finding(assistant: Assistant, stale: StaleResumeFinding) -> ItemView {
    ItemView::Finding {
        level: Level::Warn,
        line: "stale-resume: session "@ + (match stale.session_id {
            Some(id) => id@,
            None => "unknown"@,
        }) + " ("@ + stale.session_file@ + ") removed '"@ + stale.server_name@ + "' tools at "@ + (
        match stale.removed_at {
            Some(at) => at@,
            None => "unknown time"@,
        })
            + " and never re-added them, though its MCP instructions were re-added later \u{2014} this "@
            + assistant.name@
            + " session sees the server's instructions but cannot call its tools"@,
        fix: Some(
            "start a NEW chat (do not resume this session) \u{2014} this is an upstream "@
                + assistant.product@ + " resume limitation"@,
        ),
    }
}

/// The findings on the first `n` sessions that lost their tools.
pub open spec fn stale_findings(
    assistant: Assistant,
    found: Seq<StaleResumeFinding>,
    n: int,
) -> Seq<ItemView>
    decreases n,
{
    if n <= 0 {
        Seq::empty()
    } else {
        stale_findings(assistant, found, n - 1).push(stale_finding(assistant, found[n - 1]))
    }
}

fn report_stale(assistant: &Assistant, stale: &StaleResumeFinding) -> (r: ReportItem)
    ensures
        r@ == stale_finding(*assistant, *stale),
{
    let mut line = "stale-resume: session ".to_owned();
    match &stale.session_id {
        Some(id) => line.append(id.as_str()),
        None => line.append("unknown"),
    }
    line.append(" (");
    line.append(stale.session_file.as_str());
    line.append(") removed '");
    line.append(stale.server_name.as_str());
    line.append("' tools at ");
    match &stale.removed_at {
        Some(at) => line.append(at.as_str()),
        None => line.append("unknown time"),
    }
    line.append(
        " and never re-added them, though its MCP instructions were re-added later \u{2014} this ",
    );
    line.append(assistant.name.as_str());
    line.append(" session sees the server's instructions but cannot call its tools");
    let mut fix =
        "start a NEW chat (do not resume this session) \u{2014} this is an upstream ".to_owned();
    fix.append(assistant.product.as_str());
    fix.append(" resume limitation");
    finding(Level::Warn, line, Some(fix))
}

/// The findings on the sessions that lost their tools, or why the transcripts could not be read.
pub open spec fn stale_resume(
    assistant: Assistant,
    scanned: Result<Vec<StaleResumeFinding>, String>,
) -> Seq<ItemView> {
    match scanned {
        Ok(found) => if found@.len() == 0 {
            seq![
                ItemView::Finding {
                    level: Level::Good,
                    line:
                        "stale-resume: no stale resumed sessions detected in the most recent transcripts"@,
                    fix: None,
                },
            ]
        } else {
            stale_findings(assistant, found@, found@.len() as int)
        },
        Err(error) => seq![
            ItemView::Finding {
                level: Level::Warn,
                line: "stale-resume: could not scan "@ + assistant.product@
                    + " session transcripts: "@ + error@,
                fix: Some("check read permissions on ~/"@ + assistant.dir_name() + "/projects"@),
            },
        ],
    }
}

/// The findings on the sessions that lost their tools, or why the transcripts could not be read.
pub fn check_stale_resume(
    assistant: &Assistant,
    scanned: &Result<Vec<StaleResumeFinding>, String>,
) -> (r: Vec<ReportItem>)
    ensures
        sorting::views(r@) == stale_resume(*assistant, *scanned),
{
    match scanned {
        Ok(found) => {
            if found.len() == 0 {
                return single(
                    finding(
                        Level::Good,
                        "stale-resume: no stale resumed sessions detected in the most recent transcripts".to_owned(),
                        None,
                    ),
                );
            }
            let mut out: Vec<ReportItem> = Vec::new();
            assert(sorting::views(out@) =~= stale_findings(*assistant, found@, 0));
            let mut i: usize = 0;
            while i < found.len()
                invariant
                    i <= found@.len(),
                    sorting::views(out@) == stale_findings(*assistant, found@, i as int),
                decreases found@.len() - i,
            {
                let item = report_stale(assistant, &found[i]);
                proof {
                    sorting::lemma_views_push(out@, item);
                }
                out.push(item);
                i = i + 1;
            }
            out
        },
        Err(error) => {
            let mut line = "stale-resume: could not scan ".to_owned();
            line.append(assistant.product.as_str());
            line.append(" session transcripts: ");
            line.append(error.as_str());
            let mut fix = "check read permissions on ~/".to_owned();
            fix.append(assistant.directory().as_str());
            fix.append("/projects");
            single(finding(Level::Warn, line, Some(fix)))
        },
    }
}

// ---------------------------------------------------------------------------------------------
// What findings mean
// ---------------------------------------------------------------------------------------------

/// The level of a finding; lines of detail have none.
pub open spec fn level_of(item: ItemView) -> Option<Level> {
    match item {
        ItemView::Finding { level, .. } => Some(level),
        ItemView::Detail(_) => None,
    }
}

/// What a line of the report says.
pub open spec fn line_of(item: ItemView) -> Seq<char> {
    match item {
        ItemView::Finding { line, .. } => line,
        ItemView::Detail(line) => line,
    }
}

/// A command that is not found fails the check, and so does one that cannot be run. One that can
/// be run is fine, with a warning when its path is pinned to a version of the Homebrew cellar. The
/// program behind a script is held to the same, on top of the script.
pub proof fn law_path_levels(
    source_label: Seq<char>,
    server_name: Seq<char>,
    command: Seq<char>,
    resolved: Option<ResolvedCommand>,
    target: Option<ResolvedCommand>,
)
    ensures
        ({
            let found = path_health(source_label, server_name, command, resolved, target);
            let scripted = resolved is Some && resolved->0.executable
                && resolved->0.script_target is Some;
            let pinned = "/Cellar/artesian/"@;
            &&& found.len() == (if scripted {
                2int
            } else {
                1int
            })
            &&& level_of(found[0]) == Some(Level::Fail) <==> (resolved is None
                || !resolved->0.executable)
            &&& level_of(found[0]) == Some(Level::Warn) <==> resolved is Some
                && resolved->0.executable && text::has_text(resolved->0.path@, pinned)
            &&& level_of(found[0]) == Some(Level::Good) <==> resolved is Some
                && resolved->0.executable && !text::has_text(resolved->0.path@, pinned)
            &&& scripted ==> {
                &&& level_of(found[1]) == Some(Level::Fail) <==> (target is None
                    || !target->0.executable)
                &&& level_of(found[1]) == Some(Level::Warn) <==> target is Some
                    && target->0.executable && text::has_text(target->0.path@, pinned)
                &&& level_of(found[1]) == Some(Level::Good) <==> target is Some
                    && target->0.executable && !text::has_text(target->0.path@, pinned)
            }
        }),
{
}

/// What is found of a command names the source and the server of its registration, and the command,
/// or the path that it was found at.
pub proof fn law_path_findings_name_the_command(
    source_label: Seq<char>,
    server_name: Seq<char>,
    command: Seq<char>,
    resolved: Option<ResolvedCommand>,
    target: Option<ResolvedCommand>,
)
    ensures
        ({
            let line = line_of(
                path_health(source_label, server_name, command, resolved, target)[0],
            );
            &&& text::begins_with(line, "path ("@ + source_label + ": "@ + server_name + ")"@)
            &&& resolved is None ==> text::has_text(line, command)
            &&& resolved is Some ==> text::has_text(line, resolved->0.path@)
        }),
{
    let label = "path ("@ + source_label + ": "@ + server_name + ")"@;
    let line = line_of(path_health(source_label, server_name, command, resolved, target)[0]);
    match resolved {
        None => {
            let front = label + ": command '"@;
            let back = "' was not found (not on PATH, not a file)"@;
            crate::text_laws::law_text_is_found_where_it_stands(front, command, back);
            crate::text_laws::law_text_is_found_where_it_stands(
                Seq::empty(),
                label,
                ": command '"@ + command + back,
            );
            assert(line =~= label + (": command '"@ + command + back));
        },
        Some(found) => {
            let path = found.path@;
            let back = if !found.executable {
                " exists but is not executable"@
            } else if text::has_text(path, CELLAR_MARKER@) {
                " is a version-pinned Homebrew Cellar path"@
            } else {
                " exists and is executable"@
            };
            crate::text_laws::law_text_is_found_where_it_stands(label + ": "@, path, back);
            crate::text_laws::law_text_is_found_where_it_stands(
                Seq::empty(),
                label,
                ": "@ + path + back,
            );
            assert(line =~= label + (": "@ + path + back));
        },
    }
}

/// A program is fine exactly when the version that it tells is the one that it is held against; any
/// other answer, and none, is a warning and never a failure.
pub proof fn law_version_levels(
    target: Seq<char>,
    current_version: Seq<char>,
    probe: Option<VersionProbe>,
)
    ensures
        ({
            let level = level_of(version_finding(target, current_version, probe));
            let same = match probe {
                Some(VersionProbe::Found(line)) => registration::version_part(line@)
                    == current_version,
                _ => false,
            };
            &&& same <==> level == Some(Level::Good)
            &&& !same <==> level == Some(Level::Warn)
            &&& text::begins_with(
                line_of(version_finding(target, current_version, probe)),
                "version ("@ + target + ")"@,
            )
        }),
{
    let label = "version ("@ + target + ")"@;
    let line = line_of(version_finding(target, current_version, probe));
    let rest = match probe {
        None => ": could not resolve to run --version"@,
        Some(VersionProbe::Found(found)) => {
            let version = registration::version_part(found@);
            if version == current_version {
                ": "@ + version + " matches this CLI ("@ + current_version + ")"@
            } else {
                ": reports "@ + version + ", this CLI is "@ + current_version
            }
        },
        Some(VersionProbe::Failed(message)) => ": --version failed ("@ + message@ + ")"@,
        Some(VersionProbe::NotInstalled) => ": not installed"@,
    };
    assert(line =~= label + rest);
    crate::text_laws::law_text_is_found_where_it_stands(Seq::empty(), label, rest);
}

/// A server that answers is fine, and what is told of it ends in the number of its tools; one that
/// does not fails the check.
pub proof fn law_handshake_levels(
    command: Seq<char>,
    args: Seq<Seq<char>>,
    result: Result<HandshakeOk, String>,
)
    ensures
        ({
            let found = handshake_finding(command, args, result);
            &&& level_of(found) == Some(Level::Good) <==> result is Ok
            &&& level_of(found) == Some(Level::Fail) <==> result is Err
            &&& result is Ok ==> text::finishes_with(
                line_of(found),
                text::decimal(result->Ok_0.tools_count as nat) + " tool(s)"@,
            )
            &&& result is Err ==> text::finishes_with(line_of(found), result->Err_0@)
        }),
{
    let label = "handshake ("@ + command + " "@ + text::joined(args, " "@) + ")"@;
    let line = line_of(handshake_finding(command, args, result));
    match result {
        Ok(ok) => {
            let front = label + ": responded in "@ + text::decimal(ok.elapsed_ms as nat)
                + "ms with "@;
            let end = text::decimal(ok.tools_count as nat) + " tool(s)"@;
            assert(line =~= front + end);
            crate::text_laws::law_text_is_found_where_it_stands(front, end, Seq::empty());
        },
        Err(error) => {
            crate::text_laws::law_text_is_found_where_it_stands(
                label + ": "@,
                error@,
                Seq::empty(),
            );
        },
    }
}

/// Each session that lost its tools is a warning of its own, in their order, and never a failure; a
/// scan that found none is fine, and one that could not be made is a warning.
pub proof fn law_session_levels(
    assistant: Assistant,
    scanned: Result<Vec<StaleResumeFinding>, String>,
    i: int,
)
    ensures
        ({
            let found = stale_resume(assistant, scanned);
            &&& scanned is Ok && scanned->Ok_0@.len() == 0 ==> found.len() == 1 && level_of(found[0])
                == Some(Level::Good)
            &&& scanned is Err ==> found.len() == 1 && level_of(found[0]) == Some(Level::Warn)
            &&& scanned is Ok && 0 <= i < scanned->Ok_0@.len() ==> {
                &&& found.len() == scanned->Ok_0@.len()
                &&& level_of(found[i]) == Some(Level::Warn)
                &&& found[i] == stale_finding(assistant, scanned->Ok_0@[i])
                &&& text::has_text(line_of(found[i]), scanned->Ok_0@[i].server_name@)
                &&& text::has_text(line_of(found[i]), scanned->Ok_0@[i].session_file@)
            }
        }),
{
    if scanned is Ok && 0 <= i < scanned->Ok_0@.len() {
        let list = scanned->Ok_0@;
        lemma_stale_findings(assistant, list, list.len() as int, i);
        let one = list[i];
        let id = match one.session_id {
            Some(id) => id@,
            None => "unknown"@,
        };
        let at = match one.removed_at {
            Some(at) => at@,
            None => "unknown time"@,
        };
        let end =
            " and never re-added them, though its MCP instructions were re-added later \u{2014} this "@
            + assistant.name@ + " session sees the server's instructions but cannot call its tools"@;
        let line = line_of(stale_finding(assistant, one));
        let front = "stale-resume: session "@ + id + " ("@;
        let middle = ") removed '"@;
        assert(line =~= front + one.session_file@ + (middle + one.server_name@ + "' tools at "@ + at
            + end));
        crate::text_laws::law_text_is_found_where_it_stands(
            front,
            one.session_file@,
            middle + one.server_name@ + "' tools at "@ + at + end,
        );
        assert(line =~= (front + one.session_file@ + middle) + one.server_name@ + ("' tools at "@
            + at + end));
        crate::text_laws::law_text_is_found_where_it_stands(
            front + one.session_file@ + middle,
            one.server_name@,
            "' tools at "@ + at + end,
        );
    }
}

proof fn lemma_stale_findings(
    assistant: Assistant,
    found: Seq<StaleResumeFinding>,
    n: int,
    i: int,
)
    requires
        0 <= n <= found.len(),
    ensures
        stale_findings(assistant, found, n).len() == n,
        0 <= i < n ==> stale_findings(assistant, found, n)[i] == stale_finding(assistant, found[i]),
    decreases n,
{
    if n > 0 {
        lemma_stale_findings(assistant, found, n - 1, i);
    }
}

/// Running servers are told of one line each, with number and command, below a finding that is a
/// warning exactly when they are heavy together; no running server is fine, and a list that could not
/// be made is a warning. Nothing of this is a failure.
pub proof fn law_running_levels(
    discovered: Result<Vec<RunningMcpProcess>, String>,
    costs: Seq<Option<String>>,
    combined: Option<Seq<char>>,
    heavy: bool,
    i: int,
)
    requires
        discovered is Ok ==> discovered->Ok_0@.len() == costs.len(),
    ensures
        ({
            let found = running(discovered, costs, combined, heavy);
            &&& found.len() > 0
            &&& discovered is Err ==> found.len() == 1 && level_of(found[0]) == Some(Level::Warn)
            &&& discovered is Ok && discovered->Ok_0@.len() == 0 ==> found.len() == 1 && level_of(
                found[0],
            ) == Some(Level::Good)
            &&& discovered is Ok && discovered->Ok_0@.len() > 0 ==> {
                &&& level_of(found[0]) == Some(Level::Warn) <==> heavy
                &&& level_of(found[0]) == Some(Level::Good) <==> !heavy
                &&& found.len() >= 1 + discovered->Ok_0@.len()
                &&& 0 <= i < discovered->Ok_0@.len() ==> found[i + 1] is Detail && text::begins_with(
                    line_of(found[i + 1]),
                    "- pid "@ + text::decimal(discovered->Ok_0@[i].pid as nat),
                ) && text::finishes_with(line_of(found[i + 1]), discovered->Ok_0@[i].command@)
            }
            &&& forall|k: int|
                0 <= k < found.len() ==> level_of(#[trigger] found[k]) != Some(Level::Fail)
        }),
{
    if discovered is Ok && discovered->Ok_0@.len() > 0 {
        let processes = discovered->Ok_0@;
        let first = seq![footprint_finding(processes.len(), combined, heavy)];
        lemma_process_lines(first, processes, costs, processes.len() as int);
        if 0 <= i < processes.len() {
            let pid = text::decimal(processes[i].pid as nat);
            let line = process_line(processes[i].pid, processes[i].command@, costs[i]);
            let cost = match costs[i] {
                Some(cost) => cost@,
                None => "        ? MB"@,
            };
            let padded = text::padded_right(pid, 7, ' ');
            let pad = padded.skip(pid.len() as int);
            assert(padded =~= pid + pad);
            let front = "- pid "@ + pid;
            let back = pad + " "@ + cost + "  "@ + processes[i].command@;
            assert(line =~= front + back);
            crate::text_laws::law_text_is_found_where_it_stands(Seq::empty(), front, back);
            crate::text_laws::law_text_is_found_where_it_stands(
                "- pid "@ + padded + " "@ + cost + "  "@,
                processes[i].command@,
                Seq::empty(),
            );
        }
    }
}

proof fn lemma_process_lines(
    items: Seq<ItemView>,
    processes: Seq<RunningMcpProcess>,
    costs: Seq<Option<String>>,
    n: int,
)
    requires
        0 <= n <= processes.len(),
    ensures
        with_process_lines(items, processes, costs, n).len() == items.len() + n,
        forall|k: int|
            0 <= k < items.len() ==> #[trigger] with_process_lines(items, processes, costs, n)[k]
                == items[k],
        forall|k: int|
            items.len() <= k < items.len() + n ==> #[trigger] with_process_lines(
                items,
                processes,
                costs,
                n,
            )[k] == ItemView::Detail(
                process_line(
                    processes[k - items.len()].pid,
                    processes[k - items.len()].command@,
                    costs[k - items.len()],
                ),
            ),
    decreases n,
{
    if n > 0 {
        lemma_process_lines(items, processes, costs, n - 1);
    }
}

/// Registrations are told of one line each, with source, name and command, below their number; where
/// there is none, that is a warning.
pub proof fn law_inventory_lines(regs: Seq<McpRegistrationEntry>, i: int)
    ensures
        ({
            let found = inventory(regs);
            &&& regs.len() == 0 ==> found.len() == 1 && level_of(found[0]) == Some(Level::Warn)
            &&& regs.len() > 0 ==> {
                &&& found.len() == 1 + regs.len()
                &&& level_of(found[0]) == Some(Level::Good)
                &&& text::has_text(line_of(found[0]), text::decimal(regs.len()))
                &&& 0 <= i < regs.len() ==> found[i + 1] is Detail && text::begins_with(
                    line_of(found[i + 1]),
                    "- "@ + regs[i].source_label@ + ": "@ + regs[i].server_name@ + " -> "@
                        + regs[i].entry.command@,
                )
            }
            &&& forall|k: int|
                0 <= k < found.len() ==> level_of(#[trigger] found[k]) != Some(Level::Fail)
        }),
{
    if regs.len() > 0 {
        let first = seq![
            ItemView::Finding {
                level: Level::Good,
                line: "registrations: found "@ + text::decimal(regs.len())
                    + " artesian MCP registration(s)"@,
                fix: None,
            },
        ];
        lemma_registration_lines(first, regs, regs.len() as int);
        crate::text_laws::law_text_is_found_where_it_stands(
            "registrations: found "@,
            text::decimal(regs.len()),
            " artesian MCP registration(s)"@,
        );
        if 0 <= i < regs.len() {
            let front = "- "@ + regs[i].source_label@ + ": "@ + regs[i].server_name@ + " -> "@
                + regs[i].entry.command@;
            let back = " "@ + text::joined(text::texts(regs[i].entry.args@), " "@);
            assert(registration_line(regs[i]) =~= front + back);
            crate::text_laws::law_text_is_found_where_it_stands(Seq::empty(), front, back);
        }
    }
}

proof fn lemma_registration_lines(
    items: Seq<ItemView>,
    regs: Seq<McpRegistrationEntry>,
    n: int,
)
    requires
        0 <= n <= regs.len(),
    ensures
        with_registration_lines(items, regs, n).len() == items.len() + n,
        forall|k: int|
            0 <= k < items.len() ==> #[trigger] with_registration_lines(items, regs, n)[k]
                == items[k],
        forall|k: int|
            items.len() <= k < items.len() + n ==> #[trigger] with_registration_lines(
                items,
                regs,
                n,
            )[k] == ItemView::Detail(registration_line(regs[k - items.len()])),
    decreases n,
{
    if n > 0 {
        lemma_registration_lines(items, regs, n - 1);
    }
}

/// The report tells every line that was found, each with the word for its level and what mends it.
pub proof fn law_report_tells_every_line(items: Seq<ItemView>, n: int, i: int)
    requires
        0 <= i < n <= items.len(),
    ensures
        text::has_text(report_text(items, n), line_of(items[i])),
        items[i] is Finding ==> text::has_text(
            report_text(items, n),
            "  ["@ + text::padded_right(level_word(items[i]->level), 4, ' ') + "] "@ + line_of(
                items[i],
            ) + "\n"@,
        ),
        items[i] is Finding && items[i]->fix is Some ==> text::has_text(
            report_text(items, n),
            "           fix: "@ + items[i]->fix->0 + "\n"@,
        ),
    decreases n,
{
    let before = report_text(items, n - 1);
    let last = item_text(items[n - 1]);
    if i == n - 1 {
        lemma_item_told(before, items[i]);
    } else {
        law_report_tells_every_line(items, n - 1, i);
        lemma_found_in_longer(before, last, line_of(items[i]));
        if items[i] is Finding {
            lemma_found_in_longer(
                before,
                last,
                "  ["@ + text::padded_right(level_word(items[i]->level), 4, ' ') + "] "@ + line_of(
                    items[i],
                ) + "\n"@,
            );
            if items[i]->fix is Some {
                lemma_found_in_longer(
                    before,
                    last,
                    "           fix: "@ + items[i]->fix->0 + "\n"@,
                );
            }
        }
    }
}

proof fn lemma_item_told(before: Seq<char>, item: ItemView)
    ensures
        text::has_text(before + item_text(item), line_of(item)),
        item is Finding ==> text::has_text(
            before + item_text(item),
            "  ["@ + text::padded_right(level_word(item->level), 4, ' ') + "] "@ + line_of(item)
                + "\n"@,
        ),
        item is Finding && item->fix is Some ==> text::has_text(
            before + item_text(item),
            "           fix: "@ + item->fix->0 + "\n"@,
        ),
{
    match item {
        ItemView::Finding { level, line, fix } => {
            let head = "  ["@ + text::padded_right(level_word(level), 4, ' ') + "] "@;
            let more = match fix {
                Some(fix) => "           fix: "@ + fix + "\n"@,
                None => Seq::empty(),
            };
            let first = head + line + "\n"@;
            lemma_parts_found(before, head, line, "\n"@, more);
            match fix {
                Some(fix) => lemma_regrouped(first, "           fix: "@, fix, "\n"@),
                None => lemma_nothing_added(first),
            }
            assert(item_text(item) == first + more);
        },
        ItemView::Detail(line) => {
            let nothing = Seq::<char>::empty();
            lemma_parts_found(before, "           "@, line, "\n"@, nothing);
            lemma_nothing_added("           "@ + line + "\n"@);
        },
    }
}

proof fn lemma_regrouped(s: Seq<char>, a: Seq<char>, b: Seq<char>, c: Seq<char>)
    ensures
        s + a + b + c == s + (a + b + c),
{
    assert(s + a + b + c =~= s + (a + b + c));
}

proof fn lemma_nothing_added(s: Seq<char>)
    ensures
        s + Seq::empty() == s,
{
    assert(s + Seq::empty() =~= s);
}

proof fn lemma_parts_found(
    before: Seq<char>,
    head: Seq<char>,
    line: Seq<char>,
    feed: Seq<char>,
    more: Seq<char>,
)
    ensures
        text::has_text(before + (head + line + feed + more), line),
        text::has_text(before + (head + line + feed + more), head + line + feed),
        text::has_text(before + (head + line + feed + more), more),
{
    let all = before + (head + line + feed + more);
    let first = head + line + feed;
    let nothing = Seq::<char>::empty();
    assert(all =~= before + first + more);
    crate::text_laws::law_text_is_found_where_it_stands(before, first, more);
    assert(all =~= (before + head) + line + (feed + more));
    crate::text_laws::law_text_is_found_where_it_stands(before + head, line, feed + more);
    assert(all =~= (before + first) + more + nothing);
    crate::text_laws::law_text_is_found_where_it_stands(before + first, more, nothing);
}

/// What stands in a text stands in every text that begins with it.
pub proof fn lemma_found_in_longer(a: Seq<char>, b: Seq<char>, needle: Seq<char>)
    requires
        text::has_text(a, needle),
    ensures
        text::has_text(a + b, needle),
{
    let i = choose|i: int| text::occurs_at(a, needle, i);
    assert((a + b).subrange(i, i + needle.len()) =~= a.subrange(i, i + needle.len()));
    assert(text::occurs_at(a + b, needle, i));
}

/// The words for the levels tell them apart: fine, a warning, a failure.
pub proof fn law_level_words()
    ensures
        level_word(Level::Good) == "ok"@,
        level_word(Level::Warn) == "warn"@,
        level_word(Level::Fail) == "fail"@,
{
}

/// The servers that were not measured are counted one by one, and told of together behind the lines on
/// the servers, where there are any.
pub proof fn law_unmeasured_servers_are_counted(
    processes: Seq<RunningMcpProcess>,
    costs: Seq<Option<String>>,
    combined: Option<Seq<char>>,
    heavy: bool,
    cost: Option<String>,
)
    requires
        processes.len() > 0,
        processes.len() == costs.len(),
    ensures
        unmeasured(costs.push(cost), costs.len() as int + 1) == unmeasured(
            costs,
            costs.len() as int,
        ) + (if cost is None {
            1int
        } else {
            0int
        }),
        unmeasured(costs, 0) == 0,
        ({
            let found = running_findings(processes, costs, combined, heavy);
            let missing = unmeasured(costs, costs.len() as int);
            &&& missing == 0 ==> found.len() == processes.len() + 1
            &&& missing > 0 ==> found.len() == processes.len() + 2 && found.last()
                == ItemView::Detail(
                "("@ + text::decimal(missing as nat) + " process(es) reported no footprint)"@,
            )
        }),
{
    lemma_unmeasured_prefix(costs, costs.push(cost), costs.len() as int);
    lemma_unmeasured_nonnegative(costs, costs.len() as int);
    lemma_process_lines(
        seq![footprint_finding(processes.len(), combined, heavy)],
        processes,
        costs,
        processes.len() as int,
    );
}

proof fn lemma_unmeasured_nonnegative(costs: Seq<Option<String>>, n: int)
    ensures
        unmeasured(costs, n) >= 0,
    decreases n,
{
    if n > 0 {
        lemma_unmeasured_nonnegative(costs, n - 1);
    }
}

proof fn lemma_unmeasured_prefix(a: Seq<Option<String>>, b: Seq<Option<String>>, n: int)
    requires
        n <= a.len(),
        n <= b.len(),
        forall|i: int| 0 <= i < n ==> #[trigger] a[i] == b[i],
    ensures
        unmeasured(a, n) == unmeasured(b, n),
    decreases n,
{
    if n > 0 {
        lemma_unmeasured_prefix(a, b, n - 1);
        assert(a[n - 1] == b[n - 1]);
    }
}

} // verus!
