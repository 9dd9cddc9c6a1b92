//! What an update of the installed tools found and does: the upgrade plan, the report on the
//! installed surfaces, and which running servers have to be restarted.

use vstd::prelude::*;
use crate::paths;
use crate::processes::{McpProcessStatus, RunningMcpProcess};
use crate::processes;
use crate::text;
use crate::text_map::TextMap;

verus! {

/// The Homebrew formula that installs the tools.
pub const HOMEBREW_FORMULA: &'static str = "aquifer-labs/tap/artesian";

/// Seconds between asking a stale server to stop and killing it.
pub const RESTART_GRACE_SECS: u64 = 2;

/// What `update` does about Homebrew.
#[derive(Debug, Clone, Copy, PartialEq, Eq, Structural)]
pub enum BrewUpgradePlan {
    SkipUnavailable,
    SkipUnmanaged,
    Upgrade,
}

/// The upgrade plan: there is nothing to do without Homebrew, or when it does not manage the
/// formula.
pub fn brew_upgrade_plan(brew_available: bool, brew_managed: bool) -> (r: BrewUpgradePlan)
    ensures
        r == BrewUpgradePlan::SkipUnavailable <==> !brew_available,
        r == BrewUpgradePlan::SkipUnmanaged <==> brew_available && !brew_managed,
        r == BrewUpgradePlan::Upgrade <==> brew_available && brew_managed,
{
    if !brew_available {
        BrewUpgradePlan::SkipUnavailable
    } else if !brew_managed {
        BrewUpgradePlan::SkipUnmanaged
    } else {
        BrewUpgradePlan::Upgrade
    }
}

/// How the Homebrew step ended.
#[derive(Debug, Clone, PartialEq, Eq)]
pub enum BrewUpdateOutcome {
    Unavailable,
    NotManaged { current_exe: Option<String> },
    UpgradeSucceeded,
    UpgradeNonZero,
    UpgradeFailed(String),
}

/// How `brew upgrade` ended: it ran and succeeded, it ran and did not, or it did not start.
#[derive(Debug, Clone, PartialEq, Eq)]
pub enum BrewRun {
    Exited { success: bool },
    NotStarted(String),
}

/// The outcome that a run of `brew upgrade` stands for.
pub fn brew_run_outcome(run: BrewRun) -> (r: BrewUpdateOutcome)
    ensures
        match run {
            BrewRun::Exited { success } => r == (if success {
                BrewUpdateOutcome::UpgradeSucceeded
            } else {
                BrewUpdateOutcome::UpgradeNonZero
            }),
            BrewRun::NotStarted(error) => r == BrewUpdateOutcome::UpgradeFailed(error),
        },
{
    match run {
        BrewRun::Exited { success } => if success {
            BrewUpdateOutcome::UpgradeSucceeded
        } else {
            BrewUpdateOutcome::UpgradeNonZero
        },
        BrewRun::NotStarted(error) => BrewUpdateOutcome::UpgradeFailed(error),
    }
}

/// A path, or a mark for one that is not known.
pub open spec fn or_unknown(path: Option<String>) -> Seq<char> {
    match path {
        Some(path) => path@,
        None => "<unknown>"@,
    }
}

/// The text that tells how the Homebrew step ended.
pub open spec fn brew_text(outcome: BrewUpdateOutcome) -> Seq<char> {
    match outcome {
        BrewUpdateOutcome::Unavailable =>
            "Homebrew: not found; skipped the brew upgrade and will still inspect installed surfaces.\n  install with `brew install aquifer-labs/tap/artesian`, or update with your source/homelab install method.\n\n"@,
        BrewUpdateOutcome::NotManaged { current_exe } => "Homebrew: present, but "@
            + HOMEBREW_FORMULA@
            + " is not installed; skipped brew upgrade.\n  current process binary: "@
            + or_unknown(current_exe) + "\n  install with `brew install "@ + HOMEBREW_FORMULA@
            + "`, or update with your manual install method.\n\n"@,
        BrewUpdateOutcome::UpgradeSucceeded => "Homebrew: upgrade completed.\n\n"@,
        BrewUpdateOutcome::UpgradeNonZero =>
            "Homebrew: `brew upgrade` returned non-zero (often means already up to date); continuing with surface detection.\n\n"@,
        BrewUpdateOutcome::UpgradeFailed(error) => "Homebrew: upgrade failed to start/run ("@
            + error@ + "); continuing with surface detection.\n\n"@,
    }
}

/// The text that tells how the Homebrew step ended.
pub fn render_brew_update_outcome(outcome: &BrewUpdateOutcome) -> (r: String)
    ensures
        r@ == brew_text(*outcome),
{
    match outcome {
        BrewUpdateOutcome::Unavailable => {
            "Homebrew: not found; skipped the brew upgrade and will still inspect installed surfaces.\n  install with `brew install aquifer-labs/tap/artesian`, or update with your source/homelab install method.\n\n".to_owned()
        },
        BrewUpdateOutcome::NotManaged { current_exe } => {
            let mut out = "Homebrew: present, but ".to_owned();
            out.append(HOMEBREW_FORMULA);
            out.append(" is not installed; skipped brew upgrade.\n  current process binary: ");
            push_or_unknown(&mut out, current_exe);
            out.append("\n  install with `brew install ");
            out.append(HOMEBREW_FORMULA);
            out.append("`, or update with your manual install method.\n\n");
            out
        },
        BrewUpdateOutcome::UpgradeSucceeded => "Homebrew: upgrade completed.\n\n".to_owned(),
        BrewUpdateOutcome::UpgradeNonZero => {
            "Homebrew: `brew upgrade` returned non-zero (often means already up to date); continuing with surface detection.\n\n".to_owned()
        },
        BrewUpdateOutcome::UpgradeFailed(error) => {
            let mut out = "Homebrew: upgrade failed to start/run (".to_owned();
            out.append(error.as_str());
            out.append("); continuing with surface detection.\n\n");
            out
        },
    }
}

/// Appends a path, or a mark for one that is not known.
fn push_or_unknown(out: &mut String, path: &Option<String>)
    ensures
        final(out)@ == old(out)@ + or_unknown(*path),
{
    match path {
        Some(path) => out.append(path.as_str()),
        None => out.append("<unknown>"),
    }
}

// ---------------------------------------------------------------------------------------------
// Installed surfaces
// ---------------------------------------------------------------------------------------------

/// What asking a binary for its version gave.
#[derive(Debug, Clone, PartialEq, Eq)]
pub enum VersionProbe {
    NotInstalled,
    Found(String),
    Failed(String),
}

/// A binary of the tools and where it is installed.
#[derive(Debug, Clone, PartialEq, Eq)]
pub struct InstalledBinary {
    pub name: String,
    pub path: Option<String>,
    pub resolved_path: Option<String>,
    pub version: VersionProbe,
}

impl InstalledBinary {
    /// A binary as it was found: a name that is not on the path has no resolved path and no
    /// version.
    pub fn detected(
        name: &str,
        path: Option<String>,
        resolved_path: Option<String>,
        version: VersionProbe,
    ) -> (r: Self)
        ensures
            r.name@ == name@,
            r.path == path,
            r.resolved_path == (if path is Some {
                resolved_path
            } else {
                None
            }),
            r.version == (if path is Some {
                version
            } else {
                VersionProbe::NotInstalled
            }),
    {
        if path.is_some() {
            InstalledBinary { name: name.to_owned(), path, resolved_path, version }
        } else {
            InstalledBinary {
                name: name.to_owned(),
                path,
                resolved_path: None,
                version: VersionProbe::NotInstalled,
            }
        }
    }

    /// The path that running servers are held against: the resolved one before the plain one.
    pub open spec fn compared_path(self) -> Option<String> {
        if self.resolved_path is Some {
            self.resolved_path
        } else {
            self.path
        }
    }

    /// The path that running servers are held against.
    pub fn comparison_path(&self) -> (r: Option<String>)
        ensures
            r == self.compared_path(),
    {
        match &self.resolved_path {
            Some(path) => Some(path.clone()),
            None => text::copy_opt(&self.path),
        }
    }
}

/// Whether an MCP client has the server registered.
#[derive(Debug, Clone, PartialEq, Eq)]
pub struct McpRegistrationReport {
    pub surface: String,
    pub registered: bool,
}

/// Whether the Zed extension was found, and where.
#[derive(Debug, Clone, PartialEq, Eq)]
pub enum ZedExtensionStatus {
    Present(Vec<String>),
    Absent { searched: Vec<String> },
    Unknown(String),
}

/// The running servers, or why they could not be listed.
#[derive(Debug, Clone, PartialEq, Eq)]
pub struct RunningMcpReport {
    pub processes: Vec<McpProcessStatus>,
    pub discovery_error: Option<String>,
}

/// Everything `update` reports on.
#[derive(Debug, Clone, PartialEq, Eq)]
pub struct UpdateSurfaceReport {
    pub binaries: Vec<InstalledBinary>,
    pub registrations: Vec<McpRegistrationReport>,
    pub zed_extension: ZedExtensionStatus,
    pub running_mcp: RunningMcpReport,
}

/// The first binary with a given name.
pub open spec fn binary_named(binaries: Seq<InstalledBinary>, name: Seq<char>) -> Option<
    InstalledBinary,
>
    decreases binaries.len(),
{
    if binaries.len() == 0 {
        None
    } else if binaries[0].name@ == name {
        Some(binaries[0])
    } else {
        binary_named(binaries.drop_first(), name)
    }
}

/// The path of the installed server binary that running servers are held against.
pub open spec fn current_server_path(binaries: Seq<InstalledBinary>) -> Option<String> {
    match binary_named(binaries, "artesian-mcp"@) {
        Some(binary) => binary.compared_path(),
        None => None,
    }
}

/// The path of the installed server binary that running servers are held against.
pub fn current_mcp_binary(binaries: &Vec<InstalledBinary>) -> (r: Option<String>)
    ensures
        r == current_server_path(binaries@),
{
    let mut i: usize = 0;
    assert(binaries@.skip(0) =~= binaries@);
    while i < binaries.len()
        invariant
            i <= binaries@.len(),
            binary_named(binaries@, "artesian-mcp"@) == binary_named(
                binaries@.skip(i as int),
                "artesian-mcp"@,
            ),
        decreases binaries@.len() - i,
    {
        assert(binaries@.skip(i as int).drop_first() =~= binaries@.skip(i + 1));
        if text::same_text(binaries[i].name.as_str(), "artesian-mcp") {
            return binaries[i].comparison_path();
        }
        i = i + 1;
    }
    None
}

/// Puts together what was found. Running servers are held against the installed server binary;
/// `canonical` says what the file system made of the paths that exist.
pub fn collect_update_surface_report(
    binaries: Vec<InstalledBinary>,
    registrations: Vec<McpRegistrationReport>,
    zed_extension: ZedExtensionStatus,
    discovered: Result<Vec<RunningMcpProcess>, String>,
    canonical: &TextMap<String>,
) -> (r: UpdateSurfaceReport)
    ensures
        r.binaries == binaries,
        r.registrations == registrations,
        r.zed_extension == zed_extension,
        match discovered {
            Ok(found) => {
                &&& r.running_mcp.discovery_error is None
                &&& r.running_mcp.processes@ == processes::classified(
                    found@,
                    current_server_path(binaries@),
                    canonical@,
                )
            },
            Err(error) => {
                &&& r.running_mcp.discovery_error == Some(error)
                &&& r.running_mcp.processes@.len() == 0
            },
        },
{
    let current = current_mcp_binary(&binaries);
    let running_mcp = match discovered {
        Ok(found) => RunningMcpReport {
            processes: processes::classify_running_mcp_processes(found, &current, canonical),
            discovery_error: None,
        },
        Err(error) => RunningMcpReport { processes: Vec::new(), discovery_error: Some(error) },
    };
    UpdateSurfaceReport { binaries, registrations, zed_extension, running_mcp }
}

/// The places where a command can stand: itself when it is a path of several components,
/// otherwise below each directory of the search path, in order.
pub open spec fn candidates(command: Seq<char>, directories: Seq<Seq<char>>) -> Seq<Seq<char>> {
    if paths::parts_of(command).len() > 1 {
        seq![command]
    } else {
        Seq::new(directories.len(), |i: int| paths::joined(directories[i], command))
    }
}

/// The places where a command can stand, in the order in which they are tried.
pub fn command_candidates(command: &str, directories: &Vec<String>) -> (r: Vec<String>)
    ensures
        text::texts(r@) == candidates(command@, text::texts(directories@)),
{
    let mut out: Vec<String> = Vec::new();
    if paths::part_count(command) > 1 {
        out.push(command.to_owned());
        assert(text::texts(out@) =~= seq![command@]);
        return out;
    }
    let mut i: usize = 0;
    while i < directories.len()
        invariant
            i <= directories@.len(),
            out@.len() == i,
            forall|j: int|
                0 <= j < i ==> (#[trigger] out@[j])@ == paths::joined(directories@[j]@, command@),
        decreases directories@.len() - i,
    {
        out.push(paths::join(directories[i].as_str(), command));
        i = i + 1;
    }
    assert(text::texts(out@) =~= candidates(command@, text::texts(directories@)));
    out
}

/// `message` trimmed, and cut after 160 characters with an ellipsis.
pub open spec fn shortened(message: Seq<char>) -> Seq<char> {
    let trimmed = text::bare(message);
    if trimmed.len() <= 160 {
        trimmed
    } else {
        trimmed.take(160) + "..."@
    }
}

/// `message` trimmed, and cut after 160 characters with an ellipsis.
pub fn short_message(message: &str) -> (r: String)
    ensures
        r@ == shortened(message@),
{
    let trimmed = text::trim(message);
    let cs = text::to_chars(trimmed.as_str());
    if cs.len() <= 160 {
        trimmed
    } else {
        let mut out = text::string_of(&cs, 0, 160);
        assert(cs@.subrange(0, 160) =~= cs@.take(160));
        out.append("...");
        out
    }
}

/// The first line that is not blank, trimmed.
pub open spec fn first_nonblank(lines: Seq<Seq<char>>) -> Option<Seq<char>>
    decreases lines.len(),
{
    if lines.len() == 0 {
        None
    } else if text::bare(lines[0]).len() > 0 {
        Some(text::bare(lines[0]))
    } else {
        first_nonblank(lines.drop_first())
    }
}

/// The first line that is not blank, trimmed.
fn find_nonblank(lines: &Vec<String>) -> (r: Option<String>)
    ensures
        text::text_opt(r) == first_nonblank(text::texts(lines@)),
{
    let ghost all = text::texts(lines@);
    let mut i: usize = 0;
    assert(all.skip(0) =~= all);
    while i < lines.len()
        invariant
            all == text::texts(lines@),
            i <= lines@.len(),
            first_nonblank(all) == first_nonblank(all.skip(i as int)),
        decreases lines@.len() - i,
    {
        let trimmed = text::trim(lines[i].as_str());
        proof {
            assert(all.skip(i as int)[0] == lines@[i as int]@);
            assert(all.skip(i as int).drop_first() =~= all.skip(i + 1));
        }
        if !trimmed.as_str().is_empty() {
            return Some(trimmed);
        }
        i = i + 1;
    }
    None
}

/// What a version command that ran says: the first line of its output when it succeeded,
/// otherwise the first line that is not blank on standard error or standard output.
pub open spec fn version_reply(success: bool, stdout: Seq<char>, stderr: Seq<char>) -> (
    bool,
    Seq<char>,
) {
    if success {
        let lines = text::lines_of(stdout);
        let first = if lines.len() > 0 {
            text::bare(lines[0])
        } else {
            Seq::empty()
        };
        if first.len() == 0 {
            (false, "version output was empty"@)
        } else {
            (true, first)
        }
    } else {
        match first_nonblank(text::lines_of(stderr) + text::lines_of(stdout)) {
            Some(line) => (false, shortened(line)),
            None => (false, shortened("version command failed"@)),
        }
    }
}

/// Reads the reply of a version command that ran.
pub fn read_version_reply(success: bool, stdout: &str, stderr: &str) -> (r: VersionProbe)
    ensures
        ({
            let (found, message) = version_reply(success, stdout@, stderr@);
            match r {
                VersionProbe::Found(v) => found && v@ == message,
                VersionProbe::Failed(e) => !found && e@ == message,
                VersionProbe::NotInstalled => false,
            }
        }),
{
    if success {
        let lines = text::lines(stdout);
        assert(text::texts(lines@).len() == lines@.len());
        if lines.len() == 0 {
            return VersionProbe::Failed("version output was empty".to_owned());
        }
        assert(text::texts(lines@)[0] == lines@[0]@);
        let first = text::trim(lines[0].as_str());
        if first.as_str().is_empty() {
            VersionProbe::Failed("version output was empty".to_owned())
        } else {
            VersionProbe::Found(first)
        }
    } else {
        let mut lines = text::lines(stderr);
        let mut more = text::lines(stdout);
        let ghost all = text::texts(lines@) + text::texts(more@);
        lines.append(&mut more);
        assert(text::texts(lines@) =~= all);
        match find_nonblank(&lines) {
            Some(line) => VersionProbe::Failed(short_message(line.as_str())),
            None => VersionProbe::Failed(short_message("version command failed")),
        }
    }
}

/// Reads the output of a version command that ran, whatever bytes it wrote.
pub fn probe_binary_version(success: bool, stdout: &Vec<u8>, stderr: &Vec<u8>) -> (r: VersionProbe)
    ensures
        ({
            let (found, message) = version_reply(
                success,
                processes::lossy_text(stdout@),
                processes::lossy_text(stderr@),
            );
            match r {
                VersionProbe::Found(v) => found && v@ == message,
                VersionProbe::Failed(e) => !found && e@ == message,
                VersionProbe::NotInstalled => false,
            }
        }),
{
    let out_text = processes::decode_lossy(stdout);
    let err_text = processes::decode_lossy(stderr);
    read_version_reply(success, out_text.as_str(), err_text.as_str())
}

// ---------------------------------------------------------------------------------------------
// The Zed extension
// ---------------------------------------------------------------------------------------------

/// An entry of a directory, with what stands below it.
pub struct DirEntry {
    pub path: String,
    pub is_dir: bool,
    pub children: Vec<DirEntry>,
}

/// The last component of the path mentions the tools, in any case.
pub open spec fn mentions_artesian(path: Seq<char>) -> bool {
    match paths::name_of(path) {
        Some(name) => text::has_text(text::lowered(name), "artesian"@),
        None => false,
    }
}

/// The directories whose name mentions the tools, down to `depth` levels below the entries. Each
/// directory comes before those below it.
pub open spec fn artesian_dirs(entries: Seq<DirEntry>, depth: nat) -> Seq<Seq<char>>
    decreases depth, entries.len(),
{
    if entries.len() == 0 {
        Seq::empty()
    } else {
        let entry = entries.last();
        let earlier = artesian_dirs(entries.drop_last(), depth);
        if !entry.is_dir {
            earlier
        } else {
            let here = if mentions_artesian(entry.path@) {
                earlier.push(entry.path@)
            } else {
                earlier
            };
            if depth > 0 {
                here + artesian_dirs(entry.children@, (depth - 1) as nat)
            } else {
                here
            }
        }
    }
}

/// The directories whose name mentions the tools, down to `depth` levels below the entries.
pub fn find_artesian_dirs(entries: &Vec<DirEntry>, depth: usize) -> (r: Vec<String>)
    ensures
        text::texts(r@) == artesian_dirs(entries@, depth as nat),
    decreases depth,
{
    let mut out: Vec<String> = Vec::new();
    let mut i: usize = 0;
    assert(entries@.take(0) =~= Seq::<DirEntry>::empty());
    assert(text::texts(out@) =~= artesian_dirs(entries@.take(0), depth as nat));
    while i < entries.len()
        invariant
            i <= entries@.len(),
            text::texts(out@) == artesian_dirs(entries@.take(i as int), depth as nat),
        decreases entries@.len() - i,
    {
        let entry = &entries[i];
        proof {
            assert(entries@.take(i + 1).last() == entry);
            assert(entries@.take(i + 1).drop_last() =~= entries@.take(i as int));
        }
        if entry.is_dir {
            let mentioned = match paths::file_name(entry.path.as_str()) {
                Some(name) => {
                    let lower = text::to_ascii_lowercase(name.as_str());
                    text::contains(lower.as_str(), "artesian")
                },
                None => false,
            };
            let ghost before = out@;
            if mentioned {
                out.push(entry.path.clone());
                proof {
                    text::lemma_texts_push(before, out@.last());
                    assert(out@ =~= before.push(out@.last()));
                }
            }
            if depth > 0 {
                let mut below = find_artesian_dirs(&entry.children, depth - 1);
                let ghost both = text::texts(out@) + text::texts(below@);
                out.append(&mut below);
                assert(text::texts(out@) =~= both);
            }
        }
        i = i + 1;
    }
    assert(entries@.take(i as int) =~= entries@);
    out
}

/// The directories below the home directory that can hold Zed extensions, as they are listed
/// before sorting.
pub open spec fn zed_root_list(home: Seq<char>) -> Seq<Seq<char>> {
    let config = paths::joined(home, ".config"@);
    seq![
        paths::joined(
            paths::joined(
                paths::joined(paths::joined(home, "Library"@), "Application Support"@),
                "Zed"@,
            ),
            "extensions"@,
        ),
        paths::joined(
            paths::joined(paths::joined(paths::joined(home, ".local"@), "share"@), "zed"@),
            "extensions"@,
        ),
        paths::joined(paths::joined(config, "zed"@), "extensions"@),
        paths::joined(paths::joined(config, "Zed"@), "extensions"@),
    ]
}

/// The directories below the home directory that can hold Zed extensions, in path order.
pub fn zed_extension_roots(home: &str) -> (r: Vec<String>)
    ensures
        text::texts(r@) == paths::sorted_distinct(zed_root_list(home@)),
{
    let library = paths::join(
        paths::join(
            paths::join(paths::join(home, "Library").as_str(), "Application Support").as_str(),
            "Zed",
        ).as_str(),
        "extensions",
    );
    let local = paths::join(
        paths::join(
            paths::join(paths::join(home, ".local").as_str(), "share").as_str(),
            "zed",
        ).as_str(),
        "extensions",
    );
    let config = paths::join(home, ".config");
    let lower = paths::join(paths::join(config.as_str(), "zed").as_str(), "extensions");
    let upper = paths::join(paths::join(config.as_str(), "Zed").as_str(), "extensions");
    let list = vec![library, local, lower, upper];
    assert(text::texts(list@) =~= zed_root_list(home@));
    paths::sort_distinct(&list)
}

/// The status of the Zed extension, from the matching directories under each searched root.
pub fn zed_extension_status(searched: Vec<String>, found: &Vec<String>) -> (r: ZedExtensionStatus)
    ensures
        match r {
            ZedExtensionStatus::Present(list) => found@.len() > 0 && text::texts(list@)
                == paths::sorted_distinct(text::texts(found@)),
            ZedExtensionStatus::Absent { searched: s } => found@.len() == 0 && s == searched,
            ZedExtensionStatus::Unknown(_) => false,
        },
{
    if found.len() == 0 {
        ZedExtensionStatus::Absent { searched }
    } else {
        ZedExtensionStatus::Present(paths::sort_distinct(found))
    }
}

/// The path that servers are held against is that of a binary in the list whose name is exactly
/// `artesian-mcp`, the first such: its resolved path where it has one, else the path that it was found
/// at. When no binary has that name there is none.
pub proof fn law_servers_held_against_artesian_mcp(binaries: Seq<InstalledBinary>, k: int)
    requires
        0 <= k <= binaries.len(),
        forall|j: int| 0 <= j < k ==> (#[trigger] binaries[j]).name@ != "artesian-mcp"@,
        k < binaries.len() ==> binaries[k].name@ == "artesian-mcp"@,
    ensures
        current_server_path(binaries) == (if k == binaries.len() {
            None
        } else if binaries[k].resolved_path is Some {
            binaries[k].resolved_path
        } else {
            binaries[k].path
        }),
    decreases k,
{
    if k > 0 {
        assert(binaries[0].name@ != "artesian-mcp"@);
        let rest = binaries.drop_first();
        assert forall|j: int| 0 <= j < k - 1 implies (#[trigger] rest[j]).name@
            != "artesian-mcp"@ by {
            assert(rest[j] == binaries[j + 1]);
        }
        if k < binaries.len() {
            assert(rest[k - 1] == binaries[k]);
        }
        law_servers_held_against_artesian_mcp(rest, k - 1);
    }
}

/// A server whose program is the path of the installed `artesian-mcp` binary is never stale, and
/// where no such binary is installed no server is.
pub proof fn law_installed_server_is_never_stale(
    binaries: Seq<InstalledBinary>,
    k: int,
    found: Seq<RunningMcpProcess>,
    canonical: Map<Seq<char>, String>,
    i: int,
)
    requires
        0 <= k <= binaries.len(),
        forall|j: int| 0 <= j < k ==> (#[trigger] binaries[j]).name@ != "artesian-mcp"@,
        k < binaries.len() ==> binaries[k].name@ == "artesian-mcp"@,
        0 <= i < found.len(),
        k < binaries.len() ==> {
            ||| found[i].exe is Some && binaries[k].resolved_path is Some && found[i].exe->0@
                == binaries[k].resolved_path->0@
            ||| found[i].exe is Some && binaries[k].resolved_path is None && binaries[k].path is Some
                && found[i].exe->0@ == binaries[k].path->0@
            ||| binaries[k].resolved_path is None && binaries[k].path is None
        },
    ensures
        ({
            let states = processes::classified(found, current_server_path(binaries), canonical);
            states[i].binary_state != processes::McpBinaryState::Stale
        }),
{
    law_servers_held_against_artesian_mcp(binaries, k);
}

/// A command that is a path is tried where it says and nowhere else; a plain name is tried below each
/// directory of the search path, in their order, and there as a name directly below it.
pub proof fn law_commands_are_tried_along_the_search_path(
    command: Seq<char>,
    directories: Seq<Seq<char>>,
    i: int,
)
    requires
        0 <= i < directories.len(),
        directories[i].len() > 0,
        command.len() > 0,
    ensures
        paths::parts_of(command).len() > 1 ==> candidates(command, directories) == seq![command],
        !command.contains('/') && command != "."@ && command != ".."@ ==> {
            let tried = candidates(command, directories);
            &&& tried.len() == directories.len()
            &&& paths::parts_of(tried[i]) == paths::parts_of(directories[i]).push(
                paths::PartView::Normal(command),
            )
        },
{
    if !command.contains('/') && command != "."@ && command != ".."@ {
        paths::law_name_below_a_directory(directories[i], command);
        let class = text::CharClass::Only('/');
        text::lemma_span_bound(command, class);
        let k = text::span_outside(command, class);
        if k < command.len() {
            assert(command.contains(command[k]));
        }
        assert(text::pieces(command, '/') =~= seq![command]);
        assert(paths::parts_from(seq![command], 0).len() == 0);
        assert(paths::parts_from(seq![command], 1).len() <= 1);
        if command[0] == '/' {
            assert(command.contains(command[0]));
        }
        assert(paths::parts_of(command).len() <= 1);
    }
}

/// A short message is kept whole but for white space around it; of a longer one the first 160
/// characters are kept, with three dots behind them.
pub proof fn law_messages_are_cut_at_160(message: Seq<char>)
    requires
        message.len() > 0 ==> !text::is_space(message[0]) && !text::is_space(message.last()),
    ensures
        message.len() <= 160 ==> shortened(message) == message,
        message.len() > 160 ==> shortened(message).len() == 163 && shortened(message).take(160)
            == message.take(160) && shortened(message).skip(160) == "..."@,
{
    reveal_strlit("...");
    text::lemma_trimmed_stays(message, text::CharClass::Space);
    if message.len() > 160 {
        assert(shortened(message).take(160) =~= message.take(160));
        assert(shortened(message).skip(160) =~= "..."@);
    }
}

/// A version command that succeeds tells its version by the first line of its output; where that line
/// is blank or missing, it tells none.
pub proof fn law_version_is_the_first_line(stdout: Seq<char>, stderr: Seq<char>)
    ensures
        ({
            let lines = text::lines_of(stdout);
            let (found, message) = version_reply(true, stdout, stderr);
            &&& found <==> lines.len() > 0 && text::bare(lines[0]).len() > 0
            &&& found ==> message == text::bare(lines[0])
            &&& !found ==> message == "version output was empty"@
        }),
{
}

/// A version command that fails tells no version, but what went wrong: its first line that is not
/// blank, from the error output before the other.
pub proof fn law_failed_version_tells_the_first_line(
    stdout: Seq<char>,
    stderr: Seq<char>,
    k: int,
)
    requires
        ({
            let lines = text::lines_of(stderr) + text::lines_of(stdout);
            &&& 0 <= k <= lines.len()
            &&& forall|j: int| 0 <= j < k ==> text::bare(#[trigger] lines[j]).len() == 0
            &&& k < lines.len() ==> text::bare(lines[k]).len() > 0
        }),
    ensures
        ({
            let lines = text::lines_of(stderr) + text::lines_of(stdout);
            let (found, message) = version_reply(false, stdout, stderr);
            &&& !found
            &&& k < lines.len() ==> message == shortened(text::bare(lines[k]))
            &&& k == lines.len() ==> message == "version command failed"@
        }),
{
    let lines = text::lines_of(stderr) + text::lines_of(stdout);
    lemma_first_nonblank(lines, k);
    reveal_strlit("version command failed");
    let text = "version command failed"@;
    text::lemma_trimmed_stays(text, text::CharClass::Space);
}

proof fn lemma_first_nonblank(lines: Seq<Seq<char>>, k: int)
    requires
        0 <= k <= lines.len(),
        forall|j: int| 0 <= j < k ==> text::bare(#[trigger] lines[j]).len() == 0,
        k < lines.len() ==> text::bare(lines[k]).len() > 0,
    ensures
        first_nonblank(lines) == (if k < lines.len() {
            Some(text::bare(lines[k]))
        } else {
            None
        }),
    decreases k,
{
    if k > 0 {
        assert(text::bare(lines[0]).len() == 0);
        let rest = lines.drop_first();
        assert forall|j: int| 0 <= j < k - 1 implies text::bare(#[trigger] rest[j]).len() == 0 by {
            assert(rest[j] == lines[j + 1]);
        }
        if k < lines.len() {
            assert(rest[k - 1] == lines[k]);
        }
        lemma_first_nonblank(rest, k - 1);
    }
}

/// Every directory whose name mentions the tools, in any case, is found, whatever stands beside it,
/// and while levels are left also below a directory that does not mention them; nothing but such
/// directories is found, and nothing below a file.
pub proof fn law_artesian_directories_are_found(
    entries: Seq<DirEntry>,
    depth: nat,
    path: Seq<char>,
)
    ensures
        artesian_dirs(entries, depth).contains(path) <==> exists|i: int|
            0 <= i < entries.len() && (#[trigger] entries[i]).is_dir && (entries[i].path@ == path
                && mentions_artesian(path) || depth > 0 && artesian_dirs(
                entries[i].children@,
                (depth - 1) as nat,
            ).contains(path)),
        mentions_artesian(path) <==> paths::name_of(path) is Some && text::has_text(
            text::lowered(paths::name_of(path)->0),
            "artesian"@,
        ),
    decreases entries.len(),
{
    let all = artesian_dirs(entries, depth);
    if entries.len() > 0 {
        let front = entries.drop_last();
        let last = entries.len() - 1;
        let entry = entries[last];
        law_artesian_directories_are_found(front, depth, path);
        let earlier = artesian_dirs(front, depth);
        let below = artesian_dirs(entry.children@, (depth - 1) as nat);
        let here = if entry.is_dir && mentions_artesian(entry.path@) {
            earlier.push(entry.path@)
        } else {
            earlier
        };
        let more = if entry.is_dir && depth > 0 {
            below
        } else {
            Seq::empty()
        };
        assert(all =~= here + more);
        if all.contains(path) {
            let k = choose|k: int| 0 <= k < all.len() && all[k] == path;
            if k < earlier.len() {
                assert(earlier[k] == path);
                let i = choose|i: int|
                    0 <= i < front.len() && (#[trigger] front[i]).is_dir && (front[i].path@ == path
                        && mentions_artesian(path) || depth > 0 && artesian_dirs(
                        front[i].children@,
                        (depth - 1) as nat,
                    ).contains(path));
                assert(entries[i] == front[i]);
            } else if k < here.len() {
                assert(entries[last].is_dir);
            } else {
                assert(more[k - here.len()] == path);
                assert(entries[last].is_dir);
            }
        }
        if exists|i: int|
            0 <= i < entries.len() && (#[trigger] entries[i]).is_dir && (entries[i].path@ == path
                && mentions_artesian(path) || depth > 0 && artesian_dirs(
                entries[i].children@,
                (depth - 1) as nat,
            ).contains(path)) {
            let i = choose|i: int|
                0 <= i < entries.len() && (#[trigger] entries[i]).is_dir && (entries[i].path@
                    == path && mentions_artesian(path) || depth > 0 && artesian_dirs(
                    entries[i].children@,
                    (depth - 1) as nat,
                ).contains(path));
            if i < last {
                assert(front[i] == entries[i]);
                let k = choose|k: int| 0 <= k < earlier.len() && earlier[k] == path;
                assert(all[k] == path);
            } else if entry.path@ == path && mentions_artesian(path) {
                assert(all[earlier.len() as int] == path);
            } else {
                let k = choose|k: int| 0 <= k < below.len() && below[k] == path;
                assert(all[here.len() + k] == path);
            }
        }
    }
}

/// A binary that is not on the path has no place and no version; the path that servers are held
/// against is then not known.
pub proof fn law_missing_binary_is_not_compared(binary: InstalledBinary)
    ensures
        binary.resolved_path is None && binary.path is None <==> binary.compared_path() is None,
        binary.resolved_path is Some ==> binary.compared_path() == binary.resolved_path,
        binary.resolved_path is None ==> binary.compared_path() == binary.path,
{
}

/// What is said of the Homebrew step tells why it failed, and which binary runs where Homebrew does
/// not manage it.
pub proof fn law_brew_text_tells_the_reason(error: String, exe: String)
    ensures
        text::has_text(brew_text(BrewUpdateOutcome::UpgradeFailed(error)), error@),
        text::has_text(
            brew_text(BrewUpdateOutcome::NotManaged { current_exe: Some(exe) }),
            "current process binary: "@ + exe@ + "\n"@,
        ),
        text::has_text(
            brew_text(BrewUpdateOutcome::NotManaged { current_exe: None }),
            "current process binary: "@ + "<unknown>"@ + "\n"@,
        ),
{
    crate::text_laws::law_text_is_found_where_it_stands(
        "Homebrew: upgrade failed to start/run ("@,
        error@,
        "); continuing with surface detection.\n\n"@,
    );
    lemma_unmanaged_text(Some(exe));
    lemma_unmanaged_text(None);
}

proof fn lemma_unmanaged_text(exe: Option<String>)
    ensures
        text::has_text(
            brew_text(BrewUpdateOutcome::NotManaged { current_exe: exe }),
            "current process binary: "@ + or_unknown(exe) + "\n"@,
        ),
{
    reveal_strlit("current process binary: ");
    reveal_strlit("\n");
    reveal_strlit("\n  install with `brew install ");
    reveal_strlit("  install with `brew install ");
    reveal_strlit(" is not installed; skipped brew upgrade.\n  ");
    reveal_strlit(" is not installed; skipped brew upgrade.\n  current process binary: ");
    assert("\n  install with `brew install "@ =~= "\n"@ + "  install with `brew install "@);
    assert(" is not installed; skipped brew upgrade.\n  current process binary: "@
        =~= " is not installed; skipped brew upgrade.\n  "@ + "current process binary: "@);
    let front = "Homebrew: present, but "@ + HOMEBREW_FORMULA@
        + " is not installed; skipped brew upgrade.\n  "@;
    let line = "current process binary: "@ + or_unknown(exe) + "\n"@;
    let back = "  install with `brew install "@ + HOMEBREW_FORMULA@
        + "`, or update with your manual install method.\n\n"@;
    assert(brew_text(BrewUpdateOutcome::NotManaged { current_exe: exe }) =~= front + line + back);
    crate::text_laws::law_text_is_found_where_it_stands(front, line, back);
}

} // verus!
