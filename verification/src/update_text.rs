//! The text of the update report and of a restart, and the steps of a restart.

use vstd::prelude::*;
use crate::processes;
use crate::processes::{McpBinaryState, McpProcessStatus, RestartMode, RestartTarget};
use crate::text;
use crate::update;
use crate::update::{
    BrewUpdateOutcome,
    BrewUpgradePlan,
    HOMEBREW_FORMULA,
    InstalledBinary,
    McpRegistrationReport,
    UpdateSurfaceReport,
    VersionProbe,
    ZedExtensionStatus,
};

verus! {

/// The text after the lines about one binary.
pub open spec fn with_binary(out: Seq<char>, binary: InstalledBinary) -> Seq<char> {
    match binary.path {
        None => out + "  "@ + binary.name@ + ": not found on PATH\n"@,
        Some(path) => {
            let placed = out + "  "@ + binary.name@ + ": "@ + path@ + "\n"@;
            let resolved = match binary.resolved_path {
                Some(target) => placed + "    resolved: "@ + target@ + "\n"@,
                None => placed,
            };
            match binary.version {
                VersionProbe::Found(version) => resolved + "    version: "@ + version@ + "\n"@,
                VersionProbe::Failed(error) => resolved + "    version: unavailable ("@ + error@
                    + ")\n"@,
                VersionProbe::NotInstalled => resolved,
            }
        },
    }
}

fn push_binary(out: &mut String, binary: &InstalledBinary)
    ensures
        final(out)@ == with_binary(old(out)@, *binary),
{
    match &binary.path {
        None => {
            out.append("  ");
            out.append(binary.name.as_str());
            out.append(": not found on PATH\n");
        },
        Some(path) => {
            out.append("  ");
            out.append(binary.name.as_str());
            out.append(": ");
            out.append(path.as_str());
            out.append("\n");
            match &binary.resolved_path {
                Some(target) => {
                    out.append("    resolved: ");
                    out.append(target.as_str());
                    out.append("\n");
                },
                None => {},
            }
            match &binary.version {
                VersionProbe::Found(version) => {
                    out.append("    version: ");
                    out.append(version.as_str());
                    out.append("\n");
                },
                VersionProbe::Failed(error) => {
                    out.append("    version: unavailable (");
                    out.append(error.as_str());
                    out.append(")\n");
                },
                VersionProbe::NotInstalled => {},
            }
        },
    }
}

/// The text after the lines about the first `n` binaries.
pub open spec fn with_binaries(out: Seq<char>, binaries: Seq<InstalledBinary>, n: int) -> Seq<char>
    decreases n,
{
    if n <= 0 {
        out
    } else {
        with_binary(with_binaries(out, binaries, n - 1), binaries[n - 1])
    }
}

fn push_binaries(out: &mut String, binaries: &Vec<InstalledBinary>)
    ensures
        final(out)@ == with_binaries(old(out)@, binaries@, binaries@.len() as int),
{
    let mut i: usize = 0;
    while i < binaries.len()
        invariant
            i <= binaries@.len(),
            out@ == with_binaries(old(out)@, binaries@, i as int),
        decreases binaries@.len() - i,
    {
        push_binary(out, &binaries[i]);
        i = i + 1;
    }
}

/// The text after the lines about the first `n` registrations.
pub open spec fn with_registrations(
    out: Seq<char>,
    registrations: Seq<McpRegistrationReport>,
    n: int,
) -> Seq<char>
    decreases n,
{
    if n <= 0 {
        out
    } else {
        let entry = registrations[n - 1];
        with_registrations(out, registrations, n - 1) + "  "@ + entry.surface@ + ": "@ + (
        if entry.registered {
            "registered"@
        } else {
            "missing"@
        }) + "\n"@
    }
}

fn push_registrations(out: &mut String, registrations: &Vec<McpRegistrationReport>)
    ensures
        final(out)@ == with_registrations(
            old(out)@,
            registrations@,
            registrations@.len() as int,
        ),
{
    let mut i: usize = 0;
    while i < registrations.len()
        invariant
            i <= registrations@.len(),
            out@ == with_registrations(old(out)@, registrations@, i as int),
        decreases registrations@.len() - i,
    {
        let entry = &registrations[i];
        out.append("  ");
        out.append(entry.surface.as_str());
        out.append(": ");
        out.append(if entry.registered { "registered" } else { "missing" });
        out.append("\n");
        i = i + 1;
    }
}

/// The text after one line for each of the first `n` paths.
pub open spec fn with_detected(out: Seq<char>, paths: Seq<String>, n: int) -> Seq<char>
    decreases n,
{
    if n <= 0 {
        out
    } else {
        with_detected(out, paths, n - 1) + "  artesian-zed detected: "@ + paths[n - 1]@ + "\n"@
    }
}

/// The text after the lines about the Zed extension.
pub open spec fn with_zed(out: Seq<char>, status: ZedExtensionStatus) -> Seq<char> {
    match status {
        ZedExtensionStatus::Present(paths) => with_detected(out, paths@, paths@.len() as int),
        ZedExtensionStatus::Absent { searched } => if searched@.len() == 0 {
            out + "  artesian-zed not detected"@ + "\n"@
        } else {
            out + "  artesian-zed not detected"@ + " (searched "@ + text::joined(
                text::texts(searched@),
                ", "@,
            ) + ")"@ + "\n"@
        },
        ZedExtensionStatus::Unknown(error) => out + "  unable to inspect Zed extensions: "@ + error@
            + "\n"@,
    }
}

fn push_zed(out: &mut String, status: &ZedExtensionStatus)
    ensures
        final(out)@ == with_zed(old(out)@, *status),
{
    match status {
        ZedExtensionStatus::Present(paths) => {
            let mut i: usize = 0;
            while i < paths.len()
                invariant
                    i <= paths@.len(),
                    out@ == with_detected(old(out)@, paths@, i as int),
                decreases paths@.len() - i,
            {
                out.append("  artesian-zed detected: ");
                out.append(paths[i].as_str());
                out.append("\n");
                i = i + 1;
            }
        },
        ZedExtensionStatus::Absent { searched } => {
            out.append("  artesian-zed not detected");
            if searched.len() > 0 {
                out.append(" (searched ");
                let list = text::join(searched, ", ");
                out.append(list.as_str());
                out.append(")");
            }
            out.append("\n");
        },
        ZedExtensionStatus::Unknown(error) => {
            out.append("  unable to inspect Zed extensions: ");
            out.append(error.as_str());
            out.append("\n");
        },
    }
}

/// A process group number, or a mark for one that is not known.
pub open spec fn pgid_text(pgid: Option<i32>) -> Seq<char> {
    match pgid {
        Some(pgid) => text::decimal_int(pgid as int),
        None => "<unknown>"@,
    }
}

fn push_pgid(out: &mut String, pgid: Option<i32>)
    ensures
        final(out)@ == old(out)@ + pgid_text(pgid),
{
    match pgid {
        Some(pgid) => {
            let digits = text::decimal_i64(pgid as i64);
            out.append(digits.as_str());
        },
        None => out.append("<unknown>"),
    }
}

/// The text after the lines about one running server.
pub open spec fn with_process(out: Seq<char>, status: McpProcessStatus) -> Seq<char> {
    let line = out + "  pid="@ + text::decimal(status.process.pid as nat) + " pgid="@ + pgid_text(
        status.process.pgid,
    ) + " exe="@ + update::or_unknown(status.process.exe) + " state="@ + status.binary_state.word()
        + "\n"@;
    if status.binary_state == McpBinaryState::Unknown && status.process.command@.len() > 0 {
        line + "    command observed; executable path could not be verified\n"@
    } else {
        line
    }
}

fn push_process(out: &mut String, status: &McpProcessStatus)
    ensures
        final(out)@ == with_process(old(out)@, *status),
{
    out.append("  pid=");
    let pid = text::decimal_u64(status.process.pid as u64);
    out.append(pid.as_str());
    out.append(" pgid=");
    push_pgid(out, status.process.pgid);
    out.append(" exe=");
    match &status.process.exe {
        Some(path) => out.append(path.as_str()),
        None => out.append("<unknown>"),
    }
    out.append(" state=");
    out.append(status.binary_state.label());
    out.append("\n");
    if status.binary_state == McpBinaryState::Unknown
        && !status.process.command.as_str().is_empty() {
        out.append("    command observed; executable path could not be verified\n");
    }
}

/// The text after the lines about the first `n` running servers.
pub open spec fn with_processes(out: Seq<char>, processes: Seq<McpProcessStatus>, n: int) -> Seq<
    char,
>
    decreases n,
{
    if n <= 0 {
        out
    } else {
        with_process(with_processes(out, processes, n - 1), processes[n - 1])
    }
}

/// The text after the section on running servers.
pub open spec fn with_running(
    out: Seq<char>,
    processes: Seq<McpProcessStatus>,
    error: Option<String>,
) -> Seq<char> {
    match error {
        Some(error) => out + "  unable to inspect running processes: "@ + error@ + "\n"@,
        None => if processes.len() == 0 {
            out + "  none detected\n"@
        } else {
            with_processes(out, processes, processes.len() as int)
        },
    }
}

fn push_running(out: &mut String, processes: &Vec<McpProcessStatus>, error: &Option<String>)
    ensures
        final(out)@ == with_running(old(out)@, processes@, *error),
{
    match error {
        Some(error) => {
            out.append("  unable to inspect running processes: ");
            out.append(error.as_str());
            out.append("\n");
        },
        None => {
            if processes.len() == 0 {
                out.append("  none detected\n");
            } else {
                let mut i: usize = 0;
                while i < processes.len()
                    invariant
                        i <= processes@.len(),
                        out@ == with_processes(old(out)@, processes@, i as int),
                    decreases processes@.len() - i,
                {
                    push_process(out, &processes[i]);
                    i = i + 1;
                }
            }
        },
    }
}

/// The text after a warning about stale servers and a note on unknown ones, where there are any.
pub open spec fn with_warnings(out: Seq<char>, processes: Seq<McpProcessStatus>) -> Seq<char> {
    let stale = processes::count_in_state(
        processes,
        McpBinaryState::Stale,
        processes.len() as int,
    );
    let unknown = processes::count_in_state(
        processes,
        McpBinaryState::Unknown,
        processes.len() as int,
    );
    let warned = if stale > 0 {
        out + "\nWARNING: "@ + text::decimal(stale as nat)
            + " running artesian-mcp process(es) are still on an old binary. Agents keep using those old MCP servers until they are restarted.\n"@
    } else {
        out
    };
    if unknown > 0 {
        warned + "Note: "@ + text::decimal(unknown as nat)
            + " running artesian-mcp process(es) could not be matched to an executable path; restart them manually if their memory tools still report the old version.\n"@
    } else {
        warned
    }
}

fn push_warnings(out: &mut String, processes: &Vec<McpProcessStatus>)
    ensures
        final(out)@ == with_warnings(old(out)@, processes@),
{
    let stale = processes::count_state(processes, McpBinaryState::Stale);
    let unknown = processes::count_state(processes, McpBinaryState::Unknown);
    if stale > 0 {
        out.append("\nWARNING: ");
        let digits = text::decimal_u64(stale as u64);
        out.append(digits.as_str());
        out.append(
            " running artesian-mcp process(es) are still on an old binary. Agents keep using those old MCP servers until they are restarted.\n",
        );
    }
    if unknown > 0 {
        out.append("Note: ");
        let digits = text::decimal_u64(unknown as u64);
        out.append(digits.as_str());
        out.append(
            " running artesian-mcp process(es) could not be matched to an executable path; restart them manually if their memory tools still report the old version.\n",
        );
    }
}

/// The whole report: binaries, registrations, the Zed extension, running servers, warnings.
pub open spec fn report_text(report: UpdateSurfaceReport) -> Seq<char> {
    let binaries = with_binaries(
        "Installed binaries:\n"@,
        report.binaries@,
        report.binaries@.len() as int,
    );
    let registrations = with_registrations(
        binaries + "\nMCP registrations:\n"@,
        report.registrations@,
        report.registrations@.len() as int,
    );
    let zed = with_zed(registrations + "\nZed extension:\n"@, report.zed_extension);
    let running = with_running(
        zed + "\nRunning artesian-mcp processes:\n"@,
        report.running_mcp.processes@,
        report.running_mcp.discovery_error,
    );
    with_warnings(running, report.running_mcp.processes@) + "\n"@
}

/// The whole report as text.
pub fn render_update_surface_report(report: &UpdateSurfaceReport) -> (r: String)
    ensures
        r@ == report_text(*report),
{
    let mut out = "Installed binaries:\n".to_owned();
    push_binaries(&mut out, &report.binaries);
    out.append("\nMCP registrations:\n");
    push_registrations(&mut out, &report.registrations);
    out.append("\nZed extension:\n");
    push_zed(&mut out, &report.zed_extension);
    out.append("\nRunning artesian-mcp processes:\n");
    push_running(&mut out, &report.running_mcp.processes, &report.running_mcp.discovery_error);
    push_warnings(&mut out, &report.running_mcp.processes);
    out.append("\n");
    out
}

// ---------------------------------------------------------------------------------------------
// Restarting
// ---------------------------------------------------------------------------------------------

/// What `update` does after the report.
#[derive(Debug, Clone, Copy, PartialEq, Eq, Structural)]
pub enum RestartStep {
    /// Terminate the targets and tell the outcome.
    Terminate,
    /// Tell how to restart stale servers.
    Suggest,
    /// Nothing has to be restarted.
    Nothing,
}

/// What `update` does after the report: terminate when asked to, otherwise suggest it when there
/// is something to terminate.
pub fn restart_step(restart_stale: bool, targets: &Vec<RestartTarget>) -> (r: RestartStep)
    ensures
        r == RestartStep::Terminate <==> restart_stale,
        r == RestartStep::Suggest <==> !restart_stale && targets@.len() > 0,
        r == RestartStep::Nothing <==> !restart_stale && targets@.len() == 0,
{
    if restart_stale {
        RestartStep::Terminate
    } else if targets.len() > 0 {
        RestartStep::Suggest
    } else {
        RestartStep::Nothing
    }
}

/// What became of the targets of a restart.
#[derive(Debug, Clone, PartialEq, Eq)]
pub struct RestartOutcome {
    pub terminated: Vec<RestartTarget>,
    pub failed: Vec<(RestartTarget, String)>,
}

/// The text for a target that could not be terminated.
pub open spec fn failure_text(target: RestartTarget) -> Seq<char> {
    match target.mode {
        RestartMode::ProcessGroup(pgid) => "terminate process group "@ + text::decimal_int(
            pgid as int,
        ),
        RestartMode::ProcessOnly => "terminate process "@ + text::decimal(target.pid as nat),
    }
}

impl RestartOutcome {
    /// An outcome before any target was tried.
    pub fn new() -> (r: Self)
        ensures
            r.terminated@.len() == 0,
            r.failed@.len() == 0,
    {
        RestartOutcome { terminated: Vec::new(), failed: Vec::new() }
    }

    /// Records whether one target was terminated.
    pub fn record(&mut self, target: RestartTarget, terminated: bool)
        ensures
            final(self).terminated@ == (if terminated {
                old(self).terminated@.push(target)
            } else {
                old(self).terminated@
            }),
            terminated ==> final(self).failed@ == old(self).failed@,
            !terminated ==> {
                &&& final(self).failed@.len() == old(self).failed@.len() + 1
                &&& final(self).failed@.drop_last() == old(self).failed@
                &&& final(self).failed@.last().0 == target
                &&& final(self).failed@.last().1@ == failure_text(target)
            },
    {
        if terminated {
            self.terminated.push(target);
        } else {
            let message = match target.mode {
                RestartMode::ProcessGroup(pgid) => {
                    let mut out = "terminate process group ".to_owned();
                    let digits = text::decimal_i64(pgid as i64);
                    out.append(digits.as_str());
                    out
                },
                RestartMode::ProcessOnly => {
                    let mut out = "terminate process ".to_owned();
                    let digits = text::decimal_u64(target.pid as u64);
                    out.append(digits.as_str());
                    out
                },
            };
            self.failed.push((target, message));
            assert(self.failed@.drop_last() =~= old(self).failed@);
        }
    }
}

/// The text after the line about a target that was terminated.
pub open spec fn with_terminated(out: Seq<char>, target: RestartTarget) -> Seq<char> {
    match target.mode {
        RestartMode::ProcessGroup(pgid) => out
            + "  terminated stale artesian-mcp process group pgid="@ + text::decimal_int(
            pgid as int,
        ) + " (pid="@ + text::decimal(target.pid as nat) + ")\n"@,
        RestartMode::ProcessOnly => out + "  terminated stale artesian-mcp pid="@ + text::decimal(
            target.pid as nat,
        ) + " (shared/unknown process group)\n"@,
    }
}

/// The text after the lines about the first `n` targets that were terminated.
pub open spec fn with_all_terminated(out: Seq<char>, targets: Seq<RestartTarget>, n: int) -> Seq<
    char,
>
    decreases n,
{
    if n <= 0 {
        out
    } else {
        with_terminated(with_all_terminated(out, targets, n - 1), targets[n - 1])
    }
}

/// The text after the lines about the first `n` targets that could not be terminated.
pub open spec fn with_all_failed(
    out: Seq<char>,
    failed: Seq<(RestartTarget, String)>,
    n: int,
) -> Seq<char>
    decreases n,
{
    if n <= 0 {
        out
    } else {
        let (target, error) = failed[n - 1];
        with_all_failed(out, failed, n - 1) + "  failed to terminate stale artesian-mcp pid="@
            + text::decimal(target.pid as nat) + " pgid="@ + pgid_text(target.pgid) + ": "@ + error@
            + "\n"@
    }
}

/// The text that tells what became of a restart.
pub open spec fn restart_text(outcome: RestartOutcome) -> Seq<char> {
    if outcome.terminated@.len() == 0 && outcome.failed@.len() == 0 {
        "Restart: no stale artesian-mcp processes needed termination.\n"@
    } else {
        with_all_failed(
            with_all_terminated(
                "Restart:\n"@,
                outcome.terminated@,
                outcome.terminated@.len() as int,
            ),
            outcome.failed@,
            outcome.failed@.len() as int,
        )
    }
}

fn push_terminated(out: &mut String, target: &RestartTarget)
    ensures
        final(out)@ == with_terminated(old(out)@, *target),
{
    let pid = text::decimal_u64(target.pid as u64);
    match target.mode {
        RestartMode::ProcessGroup(pgid) => {
            out.append("  terminated stale artesian-mcp process group pgid=");
            let group = text::decimal_i64(pgid as i64);
            out.append(group.as_str());
            out.append(" (pid=");
            out.append(pid.as_str());
            out.append(")\n");
        },
        RestartMode::ProcessOnly => {
            out.append("  terminated stale artesian-mcp pid=");
            out.append(pid.as_str());
            out.append(" (shared/unknown process group)\n");
        },
    }
}

/// The text that tells what became of a restart.
pub fn render_restart_outcome(outcome: &RestartOutcome) -> (r: String)
    ensures
        r@ == restart_text(*outcome),
{
    if outcome.terminated.len() == 0 && outcome.failed.len() == 0 {
        return "Restart: no stale artesian-mcp processes needed termination.\n".to_owned();
    }
    let mut out = "Restart:\n".to_owned();
    let mut i: usize = 0;
    while i < outcome.terminated.len()
        invariant
            i <= outcome.terminated@.len(),
            out@ == with_all_terminated("Restart:\n"@, outcome.terminated@, i as int),
        decreases outcome.terminated@.len() - i,
    {
        push_terminated(&mut out, &outcome.terminated[i]);
        i = i + 1;
    }
    let ghost begun = out@;
    let mut k: usize = 0;
    while k < outcome.failed.len()
        invariant
            k <= outcome.failed@.len(),
            out@ == with_all_failed(begun, outcome.failed@, k as int),
        decreases outcome.failed@.len() - k,
    {
        let entry = &outcome.failed[k];
        out.append("  failed to terminate stale artesian-mcp pid=");
        let pid = text::decimal_u64(entry.0.pid as u64);
        out.append(pid.as_str());
        out.append(" pgid=");
        push_pgid(&mut out, entry.0.pgid);
        out.append(": ");
        out.append(entry.1.as_str());
        out.append("\n");
        k = k + 1;
    }
    out
}

/// A signal that stops a process.
#[derive(Debug, Clone, Copy, PartialEq, Eq, Structural)]
pub enum StopSignal {
    Term,
    Kill,
}

/// What sending a signal to a process gave.
#[derive(Debug, Clone, PartialEq, Eq)]
pub enum SignalReply {
    Delivered,
    NoSuchProcess,
    NotPermitted(String),
    Failed(String),
}

/// The name of a signal.
pub open spec fn signal_name(signal: StopSignal) -> Seq<char> {
    match signal {
        StopSignal::Term => "SIGTERM"@,
        StopSignal::Kill => "SIGKILL"@,
    }
}

/// The text for a signal that could not be sent.
pub open spec fn signal_error(signal: StopSignal, pid: u32, error: Seq<char>) -> Seq<char> {
    "signal "@ + signal_name(signal) + " to pid "@ + text::decimal(pid as nat) + ": "@ + error
}

fn signal_error_text(signal: StopSignal, pid: u32, error: &str) -> (r: String)
    ensures
        r@ == signal_error(signal, pid, error@),
{
    let mut out = "signal ".to_owned();
    match signal {
        StopSignal::Term => out.append("SIGTERM"),
        StopSignal::Kill => out.append("SIGKILL"),
    }
    out.append(" to pid ");
    let digits = text::decimal_u64(pid as u64);
    out.append(digits.as_str());
    out.append(": ");
    out.append(error);
    out
}

/// Whether the signal reached a process. A process that is gone, or that may not be killed, is
/// no error.
pub fn send_pid_signal(pid: u32, signal: StopSignal, reply: &SignalReply) -> (r: Result<
    bool,
    String,
>)
    ensures
        match *reply {
            SignalReply::Delivered => r == Ok::<bool, String>(true),
            SignalReply::NoSuchProcess => r == Ok::<bool, String>(false),
            SignalReply::NotPermitted(error) => if signal == StopSignal::Kill {
                r == Ok::<bool, String>(false)
            } else {
                r is Err && r->Err_0@ == signal_error(signal, pid, error@)
            },
            SignalReply::Failed(error) => r is Err && r->Err_0@ == signal_error(
                signal,
                pid,
                error@,
            ),
        },
{
    match reply {
        SignalReply::Delivered => Ok(true),
        SignalReply::NoSuchProcess => Ok(false),
        SignalReply::NotPermitted(error) => if signal == StopSignal::Kill {
            Ok(false)
        } else {
            Err(signal_error_text(signal, pid, error.as_str()))
        },
        SignalReply::Failed(error) => Err(signal_error_text(signal, pid, error.as_str())),
    }
}

/// Whether a process is there, from the reply to an empty signal: one that may not be signalled
/// is.
pub fn pid_alive(reply: &SignalReply) -> (r: bool)
    ensures
        r == (*reply is Delivered || *reply is NotPermitted),
{
    match reply {
        SignalReply::Delivered => true,
        SignalReply::NotPermitted(_) => true,
        _ => false,
    }
}

/// Where the termination of one process stands.
#[derive(Debug, Clone, PartialEq, Eq)]
pub enum TerminateStep {
    /// Ask the process to stop.
    SendTerm,
    /// Wait for the grace period and look whether the process is there.
    WaitAndProbe,
    /// Kill the process.
    SendKill,
    /// Nothing is left to do.
    Done,
    /// The process could not be signalled.
    Failed(String),
}

/// The step that follows when the outside reply to `step` is known.
pub fn terminate_pid(pid: u32, step: TerminateStep, reply: &SignalReply) -> (r: TerminateStep)
    ensures
        match step {
            TerminateStep::SendTerm => match *reply {
                SignalReply::Delivered => r == TerminateStep::WaitAndProbe,
                SignalReply::NoSuchProcess => r == TerminateStep::Done,
                SignalReply::NotPermitted(error) => r is Failed && r->Failed_0@ == signal_error(
                    StopSignal::Term,
                    pid,
                    error@,
                ),
                SignalReply::Failed(error) => r is Failed && r->Failed_0@ == signal_error(
                    StopSignal::Term,
                    pid,
                    error@,
                ),
            },
            TerminateStep::WaitAndProbe => r == (if *reply is Delivered || *reply is NotPermitted {
                TerminateStep::SendKill
            } else {
                TerminateStep::Done
            }),
            TerminateStep::SendKill => match *reply {
                SignalReply::Failed(error) => r is Failed && r->Failed_0@ == signal_error(
                    StopSignal::Kill,
                    pid,
                    error@,
                ),
                _ => r == TerminateStep::Done,
            },
            TerminateStep::Done => r == step,
            TerminateStep::Failed(_) => r == step,
        },
{
    match step {
        TerminateStep::SendTerm => match send_pid_signal(pid, StopSignal::Term, reply) {
            Ok(reached) => if reached {
                TerminateStep::WaitAndProbe
            } else {
                TerminateStep::Done
            },
            Err(error) => TerminateStep::Failed(error),
        },
        TerminateStep::WaitAndProbe => if pid_alive(reply) {
            TerminateStep::SendKill
        } else {
            TerminateStep::Done
        },
        TerminateStep::SendKill => match send_pid_signal(pid, StopSignal::Kill, reply) {
            Ok(_) => TerminateStep::Done,
            Err(error) => TerminateStep::Failed(error),
        },
        other => other,
    }
}

// ---------------------------------------------------------------------------------------------
// The whole run
// ---------------------------------------------------------------------------------------------

/// What is said when stale servers run and nobody asked for their restart.
pub const RESTART_SUGGESTION: &'static str =
    "Restart: run `artesian update --restart-stale` to terminate only stale artesian-mcp servers, or restart those MCP clients manually.\n";

/// What is said at the end of an update.
pub const DOCTOR_SUGGESTION: &'static str =
    "Doctor: run `artesian doctor` after MCP clients restart to verify config/backend health.\n";

/// What an update says before the upgrade: its name, and that an upgrade runs where one does.
pub open spec fn opening_text(plan: BrewUpgradePlan) -> Seq<char> {
    if plan is Upgrade {
        "artesian update\n"@ + "Homebrew: upgrading "@ + HOMEBREW_FORMULA@ + "...\n"@
    } else {
        "artesian update\n"@
    }
}

/// What an update says before the upgrade.
pub fn opening(plan: BrewUpgradePlan) -> (r: String)
    ensures
        r@ == opening_text(plan),
{
    let mut out = "artesian update\n".to_owned();
    match plan {
        BrewUpgradePlan::Upgrade => {
            out.append("Homebrew: upgrading ");
            out.append(HOMEBREW_FORMULA);
            out.append("...\n");
        },
        _ => {},
    }
    out
}

/// The plan that ended in an outcome: an upgrade was only left out where there was no `brew`, or
/// none that manages the tools.
pub open spec fn plan_behind(brew: BrewUpdateOutcome) -> BrewUpgradePlan {
    match brew {
        BrewUpdateOutcome::Unavailable => BrewUpgradePlan::SkipUnavailable,
        BrewUpdateOutcome::NotManaged { .. } => BrewUpgradePlan::SkipUnmanaged,
        _ => BrewUpgradePlan::Upgrade,
    }
}

/// What an update says once the upgrade is over: its outcome, what is installed, and what became
/// of stale servers or what to do about them.
pub open spec fn findings_text(
    brew: BrewUpdateOutcome,
    report: UpdateSurfaceReport,
    restart_stale: bool,
    restarted: RestartOutcome,
) -> Seq<char> {
    let surfaces = update::brew_text(brew) + report_text(report);
    let restart = if restart_stale {
        surfaces + restart_text(restarted)
    } else if processes::restart_targets(
        report.running_mcp.processes@,
        report.running_mcp.processes@.len() as int,
    ).len() > 0 {
        surfaces + RESTART_SUGGESTION@
    } else {
        surfaces
    };
    restart + DOCTOR_SUGGESTION@
}

/// What an update says once the upgrade is over. `restarted` is what became of the targets where a
/// restart was asked for.
pub fn findings(
    brew: &BrewUpdateOutcome,
    report: &UpdateSurfaceReport,
    restart_stale: bool,
    restarted: &RestartOutcome,
) -> (r: String)
    ensures
        r@ == findings_text(*brew, *report, restart_stale, *restarted),
{
    let mut out = update::render_brew_update_outcome(brew);
    let surfaces = render_update_surface_report(report);
    out.append(surfaces.as_str());
    let targets = processes::stale_mcp_restart_targets(&report.running_mcp.processes);
    match restart_step(restart_stale, &targets) {
        RestartStep::Terminate => {
            let restart = render_restart_outcome(restarted);
            out.append(restart.as_str());
        },
        RestartStep::Suggest => out.append(RESTART_SUGGESTION),
        RestartStep::Nothing => {},
    }
    out.append(DOCTOR_SUGGESTION);
    out
}

/// What an update says in all.
pub fn update(
    brew: &BrewUpdateOutcome,
    report: &UpdateSurfaceReport,
    restart_stale: bool,
    restarted: &RestartOutcome,
) -> (r: String)
    ensures
        r@ == opening_text(plan_behind(*brew)) + findings_text(
            *brew,
            *report,
            restart_stale,
            *restarted,
        ),
{
    let plan = match brew {
        BrewUpdateOutcome::Unavailable => BrewUpgradePlan::SkipUnavailable,
        BrewUpdateOutcome::NotManaged { .. } => BrewUpgradePlan::SkipUnmanaged,
        _ => BrewUpgradePlan::Upgrade,
    };
    let mut out = opening(plan);
    let rest = findings(brew, report, restart_stale, restarted);
    out.append(rest.as_str());
    out
}

// ---------------------------------------------------------------------------------------------
// What the text tells
// ---------------------------------------------------------------------------------------------

/// One text begins with the other.
pub open spec fn extends(longer: Seq<char>, shorter: Seq<char>) -> bool {
    shorter.len() <= longer.len() && longer.take(shorter.len() as int) == shorter
}

proof fn lemma_extends_concat(a: Seq<char>, b: Seq<char>)
    ensures
        extends(a + b, a),
{
    assert((a + b).take(a.len() as int) =~= a);
}

proof fn lemma_extends_transitive(a: Seq<char>, b: Seq<char>, c: Seq<char>)
    requires
        extends(b, a),
        extends(c, b),
    ensures
        extends(c, a),
{
    assert(c.take(a.len() as int) =~= c.take(b.len() as int).take(a.len() as int));
}

proof fn lemma_extends_found(a: Seq<char>, b: Seq<char>, needle: Seq<char>)
    requires
        extends(b, a),
        text::has_text(a, needle),
    ensures
        text::has_text(b, needle),
{
    let rest = b.skip(a.len() as int);
    assert(b =~= a + rest);
    crate::doctor::lemma_found_in_longer(a, rest, needle);
}

proof fn lemma_binary_extends(out: Seq<char>, binary: InstalledBinary)
    ensures
        extends(with_binary(out, binary), out),
        text::has_text(
            with_binary(out, binary),
            "  "@ + binary.name@ + ": "@ + (match binary.path {
                Some(path) => path@ + "\n"@,
                None => "not found on PATH\n"@,
            }),
        ),
{
    reveal_strlit(": ");
    reveal_strlit("not found on PATH\n");
    reveal_strlit(": not found on PATH\n");
    assert(": not found on PATH\n"@ =~= ": "@ + "not found on PATH\n"@);
    let line = "  "@ + binary.name@ + ": "@ + (match binary.path {
        Some(path) => path@ + "\n"@,
        None => "not found on PATH\n"@,
    });
    let all = with_binary(out, binary);
    let rest = all.skip((out + line).len() as int);
    match binary.path {
        None => {
            assert(all =~= out + line);
        },
        Some(path) => {
            let placed = out + "  "@ + binary.name@ + ": "@ + path@ + "\n"@;
            assert(placed =~= out + line);
            let resolved = match binary.resolved_path {
                Some(target) => placed + "    resolved: "@ + target@ + "\n"@,
                None => placed,
            };
            assert(all =~= out + line + rest);
        },
    }
    assert(all =~= out + line + rest);
    crate::text_laws::law_text_is_found_where_it_stands(out, line, rest);
    lemma_extends_concat(out, line + rest);
    assert(out + (line + rest) =~= out + line + rest);
}

proof fn lemma_binaries_extend(out: Seq<char>, binaries: Seq<InstalledBinary>, n: int, i: int)
    requires
        0 <= n <= binaries.len(),
    ensures
        extends(with_binaries(out, binaries, n), out),
        0 <= i < n ==> text::has_text(
            with_binaries(out, binaries, n),
            "  "@ + binaries[i].name@ + ": "@ + (match binaries[i].path {
                Some(path) => path@ + "\n"@,
                None => "not found on PATH\n"@,
            }),
        ),
    decreases n,
{
    if n > 0 {
        let before = with_binaries(out, binaries, n - 1);
        lemma_binaries_extend(out, binaries, n - 1, i);
        lemma_binary_extends(before, binaries[n - 1]);
        lemma_extends_transitive(out, before, with_binaries(out, binaries, n));
        if 0 <= i < n - 1 {
            lemma_extends_found(
                before,
                with_binaries(out, binaries, n),
                "  "@ + binaries[i].name@ + ": "@ + (match binaries[i].path {
                    Some(path) => path@ + "\n"@,
                    None => "not found on PATH\n"@,
                }),
            );
        }
    } else {
        assert(out.take(out.len() as int) =~= out);
    }
}

/// The line about one registration.
pub open spec fn surface_line(entry: McpRegistrationReport) -> Seq<char> {
    "  "@ + entry.surface@ + ": "@ + (if entry.registered {
        "registered"@
    } else {
        "missing"@
    }) + "\n"@
}

proof fn lemma_registrations_extend(
    out: Seq<char>,
    registrations: Seq<McpRegistrationReport>,
    n: int,
    i: int,
)
    requires
        0 <= n <= registrations.len(),
    ensures
        extends(with_registrations(out, registrations, n), out),
        0 <= i < n ==> text::has_text(
            with_registrations(out, registrations, n),
            surface_line(registrations[i]),
        ),
    decreases n,
{
    if n > 0 {
        let before = with_registrations(out, registrations, n - 1);
        let now = with_registrations(out, registrations, n);
        let line = surface_line(registrations[n - 1]);
        lemma_registrations_extend(out, registrations, n - 1, i);
        assert(now =~= before + line);
        lemma_extends_concat(before, line);
        lemma_extends_transitive(out, before, now);
        if i == n - 1 {
            crate::text_laws::law_text_is_found_where_it_stands(before, line, Seq::empty());
            assert(before + line + Seq::empty() =~= now);
        } else if 0 <= i < n - 1 {
            lemma_extends_found(before, now, surface_line(registrations[i]));
        }
    } else {
        assert(out.take(out.len() as int) =~= out);
    }
}

/// The line about one running server.
pub open spec fn process_line(status: McpProcessStatus) -> Seq<char> {
    "  pid="@ + text::decimal(status.process.pid as nat) + " pgid="@ + (match status.process.pgid {
        Some(pgid) => text::decimal_int(pgid as int),
        None => "<unknown>"@,
    }) + " exe="@ + (match status.process.exe {
        Some(exe) => exe@,
        None => "<unknown>"@,
    }) + " state="@ + (match status.binary_state {
        McpBinaryState::Current => "current"@,
        McpBinaryState::Stale => "STALE"@,
        McpBinaryState::Unknown => "unknown"@,
    }) + "\n"@
}

proof fn lemma_process_extends(out: Seq<char>, status: McpProcessStatus)
    ensures
        extends(with_process(out, status), out),
        text::has_text(with_process(out, status), process_line(status)),
{
    let line = process_line(status);
    let all = with_process(out, status);
    let rest = if status.binary_state == McpBinaryState::Unknown && status.process.command@.len()
        > 0 {
        "    command observed; executable path could not be verified\n"@
    } else {
        Seq::empty()
    };
    assert(all =~= out + line + rest);
    crate::text_laws::law_text_is_found_where_it_stands(out, line, rest);
    lemma_extends_concat(out, line + rest);
    assert(out + (line + rest) =~= all);
}

proof fn lemma_processes_extend(
    out: Seq<char>,
    processes: Seq<McpProcessStatus>,
    n: int,
    i: int,
)
    requires
        0 <= n <= processes.len(),
    ensures
        extends(with_processes(out, processes, n), out),
        0 <= i < n ==> text::has_text(
            with_processes(out, processes, n),
            process_line(processes[i]),
        ),
    decreases n,
{
    if n > 0 {
        let before = with_processes(out, processes, n - 1);
        let now = with_processes(out, processes, n);
        lemma_processes_extend(out, processes, n - 1, i);
        lemma_process_extends(before, processes[n - 1]);
        lemma_extends_transitive(out, before, now);
        if 0 <= i < n - 1 {
            lemma_extends_found(before, now, process_line(processes[i]));
        }
    } else {
        assert(out.take(out.len() as int) =~= out);
    }
}

proof fn lemma_detected_extends(out: Seq<char>, paths: Seq<String>, n: int, i: int)
    requires
        0 <= n <= paths.len(),
    ensures
        extends(with_detected(out, paths, n), out),
        0 <= i < n ==> text::has_text(
            with_detected(out, paths, n),
            "  artesian-zed detected: "@ + paths[i]@ + "\n"@,
        ),
    decreases n,
{
    if n > 0 {
        let before = with_detected(out, paths, n - 1);
        let now = with_detected(out, paths, n);
        let line = "  artesian-zed detected: "@ + paths[n - 1]@ + "\n"@;
        lemma_detected_extends(out, paths, n - 1, i);
        assert(now =~= before + line);
        lemma_extends_concat(before, line);
        lemma_extends_transitive(out, before, now);
        if i == n - 1 {
            crate::text_laws::law_text_is_found_where_it_stands(before, line, Seq::empty());
            assert(before + line + Seq::empty() =~= now);
        } else if 0 <= i < n - 1 {
            lemma_extends_found(before, now, "  artesian-zed detected: "@ + paths[i]@ + "\n"@);
        }
    } else {
        assert(out.take(out.len() as int) =~= out);
    }
}

proof fn lemma_zed_extends(out: Seq<char>, status: ZedExtensionStatus, i: int)
    ensures
        extends(with_zed(out, status), out),
        status is Absent ==> text::has_text(with_zed(out, status), "  artesian-zed not detected"@),
        status is Present && 0 <= i < status->Present_0@.len() ==> text::has_text(
            with_zed(out, status),
            "  artesian-zed detected: "@ + status->Present_0@[i]@ + "\n"@,
        ),
{
    match status {
        ZedExtensionStatus::Present(paths) => {
            lemma_detected_extends(out, paths@, paths@.len() as int, i);
        },
        ZedExtensionStatus::Absent { searched } => {
            let line = "  artesian-zed not detected"@;
            let rest = if searched@.len() == 0 {
                "\n"@
            } else {
                " (searched "@ + text::joined(text::texts(searched@), ", "@) + ")"@ + "\n"@
            };
            assert(with_zed(out, status) =~= out + line + rest);
            crate::text_laws::law_text_is_found_where_it_stands(out, line, rest);
            lemma_extends_concat(out, line + rest);
            assert(out + (line + rest) =~= with_zed(out, status));
        },
        ZedExtensionStatus::Unknown(error) => {
            let rest = "  unable to inspect Zed extensions: "@ + error@ + "\n"@;
            assert(with_zed(out, status) =~= out + rest);
            lemma_extends_concat(out, rest);
        },
    }
}

proof fn lemma_running_extends(
    out: Seq<char>,
    processes: Seq<McpProcessStatus>,
    error: Option<String>,
    i: int,
)
    ensures
        extends(with_running(out, processes, error), out),
        error is None && 0 <= i < processes.len() ==> text::has_text(
            with_running(out, processes, error),
            process_line(processes[i]),
        ),
        error is Some ==> text::has_text(with_running(out, processes, error), error->0@),
{
    match error {
        Some(error) => {
            let front = out + "  unable to inspect running processes: "@;
            crate::text_laws::law_text_is_found_where_it_stands(front, error@, "\n"@);
            let rest = "  unable to inspect running processes: "@ + error@ + "\n"@;
            lemma_extends_concat(out, rest);
            assert(out + rest =~= front + error@ + "\n"@);
        },
        None => {
            if processes.len() == 0 {
                lemma_extends_concat(out, "  none detected\n"@);
            } else {
                lemma_processes_extend(out, processes, processes.len() as int, i);
            }
        },
    }
}

proof fn lemma_warnings_extend(out: Seq<char>, processes: Seq<McpProcessStatus>)
    ensures
        extends(with_warnings(out, processes), out),
        ({
            let stale = processes::count_in_state(
                processes,
                McpBinaryState::Stale,
                processes.len() as int,
            );
            stale > 0 ==> text::has_text(
                with_warnings(out, processes),
                "\nWARNING: "@ + text::decimal(stale as nat),
            )
        }),
{
    let n = processes.len() as int;
    let stale = processes::count_in_state(processes, McpBinaryState::Stale, n);
    let unknown = processes::count_in_state(processes, McpBinaryState::Unknown, n);
    let first = "\nWARNING: "@ + text::decimal(stale as nat);
    let long =
        " running artesian-mcp process(es) are still on an old binary. Agents keep using those old MCP servers until they are restarted.\n"@;
    let warned = if stale > 0 {
        out + "\nWARNING: "@ + text::decimal(stale as nat) + long
    } else {
        out
    };
    let note = "Note: "@ + text::decimal(unknown as nat)
        + " running artesian-mcp process(es) could not be matched to an executable path; restart them manually if their memory tools still report the old version.\n"@;
    assert(out.take(out.len() as int) =~= out);
    if stale > 0 {
        assert(warned =~= out + first + long);
        crate::text_laws::law_text_is_found_where_it_stands(out, first, long);
        lemma_extends_concat(out, first + long);
        assert(out + (first + long) =~= warned);
    }
    let all = with_warnings(out, processes);
    if unknown > 0 {
        assert(all =~= warned + note);
        lemma_extends_concat(warned, note);
        lemma_extends_transitive(out, warned, all);
        if stale > 0 {
            lemma_extends_found(warned, all, first);
        }
    }
}

/// The report tells of everything that was found: each binary with its place, or that it has none;
/// each client, registered or missing; the Zed extension wherever it was detected; and each running
/// server with its number, group, program and state.
pub proof fn law_report_tells_everything(report: UpdateSurfaceReport, i: int)
    ensures
        ({
            let said = report_text(report);
            &&& 0 <= i < report.binaries@.len() ==> text::has_text(
                said,
                "  "@ + report.binaries@[i].name@ + ": "@ + (match report.binaries@[i].path {
                    Some(path) => path@ + "\n"@,
                    None => "not found on PATH\n"@,
                }),
            )
            &&& 0 <= i < report.registrations@.len() ==> text::has_text(
                said,
                surface_line(report.registrations@[i]),
            )
            &&& report.zed_extension is Absent ==> text::has_text(
                said,
                "  artesian-zed not detected"@,
            )
            &&& report.zed_extension is Present && 0 <= i
                < report.zed_extension->Present_0@.len() ==> text::has_text(
                said,
                "  artesian-zed detected: "@ + report.zed_extension->Present_0@[i]@ + "\n"@,
            )
            &&& report.running_mcp.discovery_error is None && 0 <= i
                < report.running_mcp.processes@.len() ==> text::has_text(
                said,
                process_line(report.running_mcp.processes@[i]),
            )
            &&& report.running_mcp.discovery_error is Some ==> text::has_text(
                said,
                report.running_mcp.discovery_error->0@,
            )
        }),
{
    let head = "Installed binaries:\n"@;
    let binaries = with_binaries(head, report.binaries@, report.binaries@.len() as int);
    let second = binaries + "\nMCP registrations:\n"@;
    let registrations = with_registrations(
        second,
        report.registrations@,
        report.registrations@.len() as int,
    );
    let third = registrations + "\nZed extension:\n"@;
    let zed = with_zed(third, report.zed_extension);
    let fourth = zed + "\nRunning artesian-mcp processes:\n"@;
    let running = with_running(
        fourth,
        report.running_mcp.processes@,
        report.running_mcp.discovery_error,
    );
    let warned = with_warnings(running, report.running_mcp.processes@);
    let said = report_text(report);
    lemma_binaries_extend(head, report.binaries@, report.binaries@.len() as int, i);
    lemma_extends_concat(binaries, "\nMCP registrations:\n"@);
    lemma_registrations_extend(
        second,
        report.registrations@,
        report.registrations@.len() as int,
        i,
    );
    lemma_extends_concat(registrations, "\nZed extension:\n"@);
    lemma_zed_extends(third, report.zed_extension, i);
    lemma_extends_concat(zed, "\nRunning artesian-mcp processes:\n"@);
    lemma_running_extends(
        fourth,
        report.running_mcp.processes@,
        report.running_mcp.discovery_error,
        i,
    );
    lemma_warnings_extend(running, report.running_mcp.processes@);
    lemma_extends_concat(warned, "\n"@);
    lemma_extends_transitive(running, warned, said);
    lemma_extends_transitive(fourth, running, said);
    lemma_extends_transitive(zed, fourth, said);
    lemma_extends_transitive(third, zed, said);
    lemma_extends_transitive(registrations, third, said);
    lemma_extends_transitive(second, registrations, said);
    lemma_extends_transitive(binaries, second, said);
    if 0 <= i < report.binaries@.len() {
        lemma_extends_found(
            binaries,
            said,
            "  "@ + report.binaries@[i].name@ + ": "@ + (match report.binaries@[i].path {
                Some(path) => path@ + "\n"@,
                None => "not found on PATH\n"@,
            }),
        );
    }
    if 0 <= i < report.registrations@.len() {
        lemma_extends_found(registrations, said, surface_line(report.registrations@[i]));
    }
    if report.zed_extension is Absent {
        lemma_extends_found(zed, said, "  artesian-zed not detected"@);
    }
    if report.zed_extension is Present && 0 <= i < report.zed_extension->Present_0@.len() {
        lemma_extends_found(
            zed,
            said,
            "  artesian-zed detected: "@ + report.zed_extension->Present_0@[i]@ + "\n"@,
        );
    }
    if report.running_mcp.discovery_error is None && 0 <= i < report.running_mcp.processes@.len() {
        lemma_extends_found(running, said, process_line(report.running_mcp.processes@[i]));
    }
    if report.running_mcp.discovery_error is Some {
        lemma_extends_found(running, said, report.running_mcp.discovery_error->0@);
    }
}

/// A report with a stale server warns of it, and tells how many there are.
pub proof fn law_stale_servers_are_warned_of(report: UpdateSurfaceReport, i: int)
    requires
        0 <= i < report.running_mcp.processes@.len(),
        report.running_mcp.processes@[i].binary_state == McpBinaryState::Stale,
    ensures
        ({
            let all = report.running_mcp.processes@;
            let stale = processes::count_in_state(all, McpBinaryState::Stale, all.len() as int);
            &&& stale > 0
            &&& text::has_text(report_text(report), "\nWARNING: "@ + text::decimal(stale as nat))
        }),
{
    let all = report.running_mcp.processes@;
    let stale = processes::count_in_state(all, McpBinaryState::Stale, all.len() as int);
    processes::law_states_add_up(all, all.len() as int);
    let running = with_running(
        with_zed(
            with_registrations(
                with_binaries(
                    "Installed binaries:\n"@,
                    report.binaries@,
                    report.binaries@.len() as int,
                ) + "\nMCP registrations:\n"@,
                report.registrations@,
                report.registrations@.len() as int,
            ) + "\nZed extension:\n"@,
            report.zed_extension,
        ) + "\nRunning artesian-mcp processes:\n"@,
        all,
        report.running_mcp.discovery_error,
    );
    let warned = with_warnings(running, all);
    lemma_warnings_extend(running, all);
    lemma_extends_concat(warned, "\n"@);
    lemma_extends_found(
        warned,
        report_text(report),
        "\nWARNING: "@ + text::decimal(stale as nat),
    );
}

/// Servers that all run the installed binary give no warning and no note.
pub proof fn law_current_servers_give_no_warning(out: Seq<char>, processes: Seq<McpProcessStatus>)
    requires
        forall|i: int|
            0 <= i < processes.len() ==> (#[trigger] processes[i]).binary_state
                == McpBinaryState::Current,
    ensures
        with_warnings(out, processes) == out,
{
    lemma_no_state(processes, McpBinaryState::Stale, processes.len() as int);
    lemma_no_state(processes, McpBinaryState::Unknown, processes.len() as int);
}

proof fn lemma_no_state(processes: Seq<McpProcessStatus>, state: McpBinaryState, n: int)
    requires
        0 <= n <= processes.len(),
        forall|i: int|
            0 <= i < processes.len() ==> (#[trigger] processes[i]).binary_state != state,
    ensures
        processes::count_in_state(processes, state, n) == 0,
    decreases n,
{
    if n > 0 {
        lemma_no_state(processes, state, n - 1);
        assert(processes[n - 1].binary_state != state);
    }
}

/// What became of a restart is told for each target: for those that were terminated, and for those
/// that could not be, with the reason; a restart without targets says that there were none.
pub proof fn law_restart_tells_every_target(outcome: RestartOutcome, i: int)
    ensures
        ({
            let said = restart_text(outcome);
            &&& 0 <= i < outcome.terminated@.len() && outcome.terminated@[i].mode
                == RestartMode::ProcessOnly ==> text::has_text(
                said,
                "  terminated stale artesian-mcp pid="@ + text::decimal(
                    outcome.terminated@[i].pid as nat,
                ),
            )
            &&& 0 <= i < outcome.terminated@.len() && outcome.terminated@[i].mode
                != RestartMode::ProcessOnly ==> text::has_text(
                said,
                " (pid="@ + text::decimal(outcome.terminated@[i].pid as nat) + ")\n"@,
            )
            &&& 0 <= i < outcome.failed@.len() ==> text::has_text(
                said,
                "  failed to terminate stale artesian-mcp pid="@ + text::decimal(
                    outcome.failed@[i].0.pid as nat,
                ),
            ) && text::has_text(said, outcome.failed@[i].1@)
            &&& outcome.terminated@.len() == 0 && outcome.failed@.len() == 0 ==> said
                == "Restart: no stale artesian-mcp processes needed termination.\n"@
        }),
{
    if outcome.terminated@.len() > 0 || outcome.failed@.len() > 0 {
        let head = "Restart:\n"@;
        let terminated = outcome.terminated@;
        let failed = outcome.failed@;
        let first = with_all_terminated(head, terminated, terminated.len() as int);
        let said = restart_text(outcome);
        lemma_terminated_extends(head, terminated, terminated.len() as int, i);
        lemma_failed_extends(first, failed, failed.len() as int, i);
        if 0 <= i < terminated.len() {
            lemma_extends_found(first, said, terminated_mark(terminated[i]));
        }
    }
}

spec fn terminated_mark(target: RestartTarget) -> Seq<char> {
    if target.mode == RestartMode::ProcessOnly {
        "  terminated stale artesian-mcp pid="@ + text::decimal(target.pid as nat)
    } else {
        " (pid="@ + text::decimal(target.pid as nat) + ")\n"@
    }
}

proof fn lemma_terminated_extends(
    out: Seq<char>,
    targets: Seq<RestartTarget>,
    n: int,
    i: int,
)
    requires
        0 <= n <= targets.len(),
    ensures
        extends(with_all_terminated(out, targets, n), out),
        0 <= i < n ==> text::has_text(
            with_all_terminated(out, targets, n),
            terminated_mark(targets[i]),
        ),
    decreases n,
{
    if n > 0 {
        let before = with_all_terminated(out, targets, n - 1);
        let now = with_all_terminated(out, targets, n);
        let target = targets[n - 1];
        let mark = terminated_mark(target);
        lemma_terminated_extends(out, targets, n - 1, i);
        match target.mode {
            RestartMode::ProcessGroup(pgid) => {
                let front = "  terminated stale artesian-mcp process group pgid="@
                    + text::decimal_int(pgid as int);
                assert(now =~= (before + front) + mark + Seq::empty());
                crate::text_laws::law_text_is_found_where_it_stands(
                    before + front,
                    mark,
                    Seq::empty(),
                );
                lemma_extends_concat(before, front + mark);
                assert(before + (front + mark) =~= now);
            },
            RestartMode::ProcessOnly => {
                let rest = " (shared/unknown process group)\n"@;
                assert(now =~= before + mark + rest);
                crate::text_laws::law_text_is_found_where_it_stands(before, mark, rest);
                lemma_extends_concat(before, mark + rest);
                assert(before + (mark + rest) =~= now);
            },
        }
        lemma_extends_transitive(out, before, now);
        if 0 <= i < n - 1 {
            lemma_extends_found(before, now, terminated_mark(targets[i]));
        }
    } else {
        assert(out.take(out.len() as int) =~= out);
    }
}

proof fn lemma_failed_extends(
    out: Seq<char>,
    failed: Seq<(RestartTarget, String)>,
    n: int,
    i: int,
)
    requires
        0 <= n <= failed.len(),
    ensures
        extends(with_all_failed(out, failed, n), out),
        0 <= i < n ==> text::has_text(
            with_all_failed(out, failed, n),
            "  failed to terminate stale artesian-mcp pid="@ + text::decimal(
                failed[i].0.pid as nat,
            ),
        ),
        0 <= i < n ==> text::has_text(with_all_failed(out, failed, n), failed[i].1@),
    decreases n,
{
    if n > 0 {
        let before = with_all_failed(out, failed, n - 1);
        let now = with_all_failed(out, failed, n);
        let (target, error) = failed[n - 1];
        let mark = "  failed to terminate stale artesian-mcp pid="@ + text::decimal(
            target.pid as nat,
        );
        let middle = " pgid="@ + pgid_text(target.pgid) + ": "@;
        lemma_failed_extends(out, failed, n - 1, i);
        assert(now =~= before + mark + (middle + error@ + "\n"@));
        crate::text_laws::law_text_is_found_where_it_stands(
            before,
            mark,
            middle + error@ + "\n"@,
        );
        assert(now =~= (before + mark + middle) + error@ + "\n"@);
        crate::text_laws::law_text_is_found_where_it_stands(
            before + mark + middle,
            error@,
            "\n"@,
        );
        lemma_extends_concat(before, mark + (middle + error@ + "\n"@));
        assert(before + (mark + (middle + error@ + "\n"@)) =~= now);
        lemma_extends_transitive(out, before, now);
        if 0 <= i < n - 1 {
            lemma_extends_found(
                before,
                now,
                "  failed to terminate stale artesian-mcp pid="@ + text::decimal(
                    failed[i].0.pid as nat,
                ),
            );
            lemma_extends_found(before, now, failed[i].1@);
        }
    } else {
        assert(out.take(out.len() as int) =~= out);
    }
}

/// An update that was not asked to restart servers suggests it when one of them is stale, and only
/// then; one that was asked to tells what became of them. Either ends in the advice to run the
/// checks.
pub proof fn law_restart_is_suggested_for_stale_servers(
    brew: BrewUpdateOutcome,
    report: UpdateSurfaceReport,
    restarted: RestartOutcome,
)
    ensures
        ({
            let said = update::brew_text(brew) + report_text(report);
            let any_stale = exists|i: int|
                0 <= i < report.running_mcp.processes@.len() && (
                #[trigger] report.running_mcp.processes@[i]).binary_state == McpBinaryState::Stale;
            &&& findings_text(brew, report, true, restarted) == said + restart_text(restarted)
                + DOCTOR_SUGGESTION@
            &&& any_stale ==> findings_text(brew, report, false, restarted) == said
                + RESTART_SUGGESTION@ + DOCTOR_SUGGESTION@
            &&& !any_stale ==> findings_text(brew, report, false, restarted) == said
                + DOCTOR_SUGGESTION@
        }),
{
    let all = report.running_mcp.processes@;
    let targets = processes::restart_targets(all, all.len() as int);
    if exists|i: int|
        0 <= i < all.len() && (#[trigger] all[i]).binary_state == McpBinaryState::Stale {
        let i = choose|i: int|
            0 <= i < all.len() && (#[trigger] all[i]).binary_state == McpBinaryState::Stale;
        processes::law_every_stale_terminated(all, i);
    }
    if targets.len() > 0 {
        processes::law_nothing_current_terminated(all, 0);
    }
}

/// An upgrade is announced exactly when one was made.
pub proof fn law_upgrades_are_announced(brew: BrewUpdateOutcome)
    ensures
        plan_behind(brew) == BrewUpgradePlan::Upgrade <==> !(brew is Unavailable)
            && !(brew is NotManaged),
        plan_behind(brew) == BrewUpgradePlan::Upgrade <==> opening_text(plan_behind(brew))
            == "artesian update\n"@ + "Homebrew: upgrading "@ + HOMEBREW_FORMULA@ + "...\n"@,
{
    reveal_strlit("Homebrew: upgrading ");
    let head = "artesian update\n"@;
    let long = head + "Homebrew: upgrading "@ + HOMEBREW_FORMULA@ + "...\n"@;
    assert(long.len() > head.len());
}

/// What is said of a target that could not be terminated tells it: a group by the number of the group,
/// a process by its own.
pub proof fn law_failures_tell_the_target(target: RestartTarget, group: i32)
    ensures
        target.mode == RestartMode::ProcessOnly ==> failure_text(target) == "terminate process "@
            + text::decimal(target.pid as nat),
        target.mode == RestartMode::ProcessGroup(group) ==> failure_text(target)
            == "terminate process group "@ + text::decimal_int(group as int),
{
}

/// What is said of a signal that could not be sent names the signal, the process and the reason.
pub proof fn law_signal_errors_tell_the_process(pid: u32, error: Seq<char>)
    ensures
        signal_error(StopSignal::Term, pid, error) == "signal "@ + "SIGTERM"@ + " to pid "@
            + text::decimal(pid as nat) + ": "@ + error,
        signal_error(StopSignal::Kill, pid, error) == "signal "@ + "SIGKILL"@ + " to pid "@
            + text::decimal(pid as nat) + ": "@ + error,
{
}

} // verus!
