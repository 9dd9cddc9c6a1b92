//! Running servers: how they are found, which binary they run, and which of them to restart.

use vstd::prelude::*;
use crate::paths;
use crate::sorting;
use crate::sorting::Ranked;
use crate::text;
use crate::text_map::TextMap;

verus! {

/// A running server process.
#[derive(Debug, Clone, PartialEq, Eq)]
pub struct RunningMcpProcess {
    pub pid: u32,
    pub pgid: Option<i32>,
    pub exe: Option<String>,
    pub command: String,
}

/// What a running server process is.
#[verifier::ext_equal]
pub struct ProcessView {
    pub pid: u32,
    pub pgid: Option<i32>,
    pub exe: Option<Seq<char>>,
    pub command: Seq<char>,
}

impl View for RunningMcpProcess {
    type V = ProcessView;

    open spec fn view(&self) -> ProcessView {
        ProcessView {
            pid: self.pid,
            pgid: self.pgid,
            exe: text::text_opt(self.exe),
            command: self.command@,
        }
    }
}

/// Processes are listed by their identifiers.
impl Ranked for RunningMcpProcess {
    open spec fn goes_before(a: ProcessView, b: ProcessView) -> bool {
        a.pid < b.pid
    }

    proof fn order_laws(a: ProcessView, b: ProcessView, c: ProcessView) {
    }

    fn is_before(&self, other: &Self) -> (r: bool) {
        self.pid < other.pid
    }
}

/// Whether a server runs the installed binary.
#[derive(Debug, Clone, Copy, PartialEq, Eq, Structural)]
pub enum McpBinaryState {
    Current,
    Stale,
    Unknown,
}

impl McpBinaryState {
    /// The word for a state in the report.
    pub open spec fn word(self) -> Seq<char> {
        match self {
            McpBinaryState::Current => "current"@,
            McpBinaryState::Stale => "STALE"@,
            McpBinaryState::Unknown => "unknown"@,
        }
    }

    /// The word for a state in the report.
    pub fn label(self) -> (r: &'static str)
        ensures
            r@ == self.word(),
    {
        match self {
            McpBinaryState::Current => "current",
            McpBinaryState::Stale => "STALE",
            McpBinaryState::Unknown => "unknown",
        }
    }
}

/// A running server and whether it runs the installed binary.
#[derive(Debug, Clone, PartialEq, Eq)]
pub struct McpProcessStatus {
    pub process: RunningMcpProcess,
    pub binary_state: McpBinaryState,
}

// ---------------------------------------------------------------------------------------------
// Discovery
// ---------------------------------------------------------------------------------------------

/// The text that `String::from_utf8_lossy` makes of bytes.
pub uninterp spec fn lossy_text(bytes: Seq<u8>) -> Seq<char>;

/// `String::from_utf8_lossy` of the standard library: the text that the bytes encode, with a
/// replacement character for what is not UTF-8. Bytes that are UTF-8 give the text that they
/// encode; which text other bytes give is left to the name.
#[verifier::external_body]
pub(crate) fn decode_lossy(bytes: &Vec<u8>) -> (r: String)
    ensures
        r@ == lossy_text(bytes@),
        vstd::utf8::valid_utf8(bytes@) ==> r@ == vstd::utf8::decode_utf8(bytes@),
{
    String::from_utf8_lossy(bytes).into_owned()
}

/// The parts of `bytes` between zero bytes that are not empty.
pub open spec fn nonempty_parts(bytes: Seq<u8>) -> Seq<Seq<u8>>
    decreases bytes.len(),
{
    if bytes.len() == 0 {
        Seq::empty()
    } else if bytes.last() == 0 {
        nonempty_parts(bytes.drop_last())
    } else if bytes.len() >= 2 && bytes[bytes.len() - 2] != 0 {
        let earlier = nonempty_parts(bytes.drop_last());
        earlier.drop_last().push(earlier.last().push(bytes.last()))
    } else {
        nonempty_parts(bytes.drop_last()).push(seq![bytes.last()])
    }
}

/// The parts of `bytes` between zero bytes that are not empty.
pub fn split_cmdline(bytes: &Vec<u8>) -> (r: Vec<Vec<u8>>)
    ensures
        sorting::views(r@) == nonempty_parts(bytes@),
{
    let mut out: Vec<Vec<u8>> = Vec::new();
    let mut part: Vec<u8> = Vec::new();
    let mut i: usize = 0;
    assert(bytes@.take(0) =~= Seq::<u8>::empty());
    assert(sorting::views(out@) =~= Seq::<Seq<u8>>::empty());
    while i < bytes.len()
        invariant
            i <= bytes@.len(),
            part@.len() > 0 <==> (i > 0 && bytes@[i - 1] != 0),
            nonempty_parts(bytes@.take(i as int)) == (if part@.len() > 0 {
                sorting::views(out@).push(part@)
            } else {
                sorting::views(out@)
            }),
        decreases bytes@.len() - i,
    {
        let b: u8 = bytes[i];
        let ghost now = bytes@.take(i + 1);
        let ghost views = sorting::views(out@);
        let ghost open = part@;
        proof {
            assert(now.drop_last() =~= bytes@.take(i as int));
            assert(now.last() == b);
            if i > 0 {
                assert(now[now.len() - 2] == bytes@[i - 1]);
            }
        }
        if b == 0 {
            if part.len() > 0 {
                let ghost before = out@;
                let done = part;
                proof {
                    sorting::lemma_views_push(before, done);
                }
                out.push(done);
                part = Vec::new();
            }
        } else {
            part.push(b);
            proof {
                if open.len() > 0 {
                    assert(views.push(open).drop_last() =~= views);
                    assert(views.push(open).last() == open);
                } else {
                    assert(part@ =~= seq![b]);
                }
            }
        }
        i = i + 1;
    }
    assert(bytes@.take(i as int) =~= bytes@);
    if part.len() > 0 {
        let ghost before = out@;
        proof {
            sorting::lemma_views_push(before, part);
        }
        out.push(part);
    }
    out
}

/// The arguments of a process from the bytes of its command line.
pub fn read_proc_cmdline(bytes: &Vec<u8>) -> (r: Vec<String>)
    ensures
        r@.len() == nonempty_parts(bytes@).len(),
        forall|i: int|
            0 <= i < r@.len() ==> (#[trigger] r@[i])@ == lossy_text(nonempty_parts(bytes@)[i]),
{
    let parts = split_cmdline(bytes);
    let mut out: Vec<String> = Vec::new();
    let mut i: usize = 0;
    assert(sorting::views(parts@).len() == parts@.len());
    while i < parts.len()
        invariant
            i <= parts@.len(),
            sorting::views(parts@) == nonempty_parts(bytes@),
            out@.len() == i,
            forall|j: int|
                0 <= j < i ==> (#[trigger] out@[j])@ == lossy_text(nonempty_parts(bytes@)[j]),
        decreases parts@.len() - i,
    {
        assert(sorting::views(parts@)[i as int] == parts@[i as int]@);
        out.push(decode_lossy(&parts[i]));
        i = i + 1;
    }
    out
}

/// The name of what a path leads to, spaces around the path aside.
pub open spec fn basename(path: Seq<char>) -> Option<Seq<char>> {
    paths::name_of(text::bare(path))
}

/// The name of what a path leads to, spaces around the path aside.
pub fn path_basename(path: &str) -> (r: Option<String>)
    ensures
        text::text_opt(r) == basename(path@),
{
    let trimmed = text::trim(path);
    paths::file_name(trimmed.as_str())
}

/// A process is a server when it, or the program of its command line, is named like one.
pub open spec fn is_server(comm: Seq<char>, argv: Seq<Seq<char>>) -> bool {
    basename(comm) == Some("artesian-mcp"@) || (argv.len() > 0 && basename(argv[0]) == Some(
        "artesian-mcp"@,
    ))
}

fn names_server(path: &str) -> (r: bool)
    ensures
        r == (basename(path@) == Some("artesian-mcp"@)),
{
    match path_basename(path) {
        Some(name) => text::same_text(name.as_str(), "artesian-mcp"),
        None => false,
    }
}

/// Whether a process is a server.
pub fn is_artesian_mcp_process(comm: &str, argv: &Vec<String>) -> (r: bool)
    ensures
        r == is_server(comm@, text::texts(argv@)),
{
    if names_server(comm) {
        return true;
    }
    argv.len() > 0 && names_server(argv[0].as_str())
}

/// The process that an entry of the process file system stands for, when its name is a process
/// number and it is a server.
pub open spec fn proc_process(
    name: Seq<char>,
    comm: Seq<char>,
    argv: Seq<Seq<char>>,
    pgid: Option<i32>,
    exe: Option<Seq<char>>,
) -> Option<ProcessView> {
    match text::unsigned_value(name, u32::MAX as int) {
        Some(pid) => if is_server(comm, argv) {
            Some(
                ProcessView {
                    pid: pid as u32,
                    pgid,
                    exe,
                    command: if argv.len() == 0 {
                        text::bare(comm)
                    } else {
                        text::joined(argv, " "@)
                    },
                },
            )
        } else {
            None
        },
        None => None,
    }
}

/// The view of an optional process.
pub open spec fn process_opt(process: Option<RunningMcpProcess>) -> Option<ProcessView> {
    match process {
        Some(process) => Some(process@),
        None => None,
    }
}

/// The process that an entry of the process file system stands for.
pub fn read_proc_entry(
    name: &str,
    comm: &str,
    argv: &Vec<String>,
    pgid: Option<i32>,
    exe: Option<String>,
) -> (r: Option<RunningMcpProcess>)
    ensures
        process_opt(r) == proc_process(
            name@,
            comm@,
            text::texts(argv@),
            pgid,
            text::text_opt(exe),
        ),
{
    match text::parse_u32(name) {
        Some(pid) => {
            if !is_artesian_mcp_process(comm, argv) {
                return None;
            }
            let command = if argv.len() == 0 {
                text::trim(comm)
            } else {
                text::join(argv, " ")
            };
            Some(RunningMcpProcess { pid, pgid, exe, command })
        },
        None => None,
    }
}

/// Why the process group could not be read from a `stat` line.
#[derive(Debug, Clone, Copy, PartialEq, Eq, Structural)]
pub enum PgidError {
    Malformed,
    Missing,
    NotANumber,
}

/// The last position where `needle` stands in `hay`, looking down from `i`.
pub open spec fn last_from(hay: Seq<char>, needle: Seq<char>, i: int) -> Option<int>
    decreases i + 1,
{
    if i < 0 {
        None
    } else if text::occurs_at(hay, needle, i) {
        Some(i)
    } else {
        last_from(hay, needle, i - 1)
    }
}

/// The process group in a `stat` line: the third word after the last closing parenthesis that a
/// space follows.
pub open spec fn stat_pgid(stat: Seq<char>) -> Result<int, PgidError> {
    match last_from(stat, ") "@, stat.len() as int) {
        None => Err(PgidError::Malformed),
        Some(k) => {
            let words = text::words(stat.skip(k + 2));
            if words.len() < 3 {
                Err(PgidError::Missing)
            } else {
                match text::signed_value(words[2], i32::MIN as int, i32::MAX as int) {
                    Some(v) => Ok(v),
                    None => Err(PgidError::NotANumber),
                }
            }
        },
    }
}

/// The process group in a `stat` line.
pub fn read_linux_pgid(stat: &str) -> (r: Result<i32, PgidError>)
    ensures
        match r {
            Ok(v) => stat_pgid(stat@) == Ok::<int, PgidError>(v as int),
            Err(e) => stat_pgid(stat@) == Err::<int, PgidError>(e),
        },
{
    let cs = text::to_chars(stat);
    let needle = text::to_chars(") ");
    proof {
        reveal_strlit(") ");
    }
    let mut i: usize = cs.len();
    while !text::matches_at(&cs, &needle, i)
        invariant
            cs@ == stat@,
            needle@ == ") "@,
            i <= cs@.len(),
            last_from(stat@, ") "@, stat@.len() as int) == last_from(stat@, ") "@, i as int),
        decreases i,
    {
        if i == 0 {
            assert(last_from(stat@, ") "@, -1) is None);
            return Err(PgidError::Malformed);
        }
        i = i - 1;
    }
    let rest = text::string_of(&cs, i + 2, cs.len());
    assert(cs@.subrange(i + 2, cs@.len() as int) =~= stat@.skip(i + 2));
    let words = text::split_whitespace(rest.as_str());
    assert(text::texts(words@).len() == words@.len());
    if words.len() < 3 {
        return Err(PgidError::Missing);
    }
    assert(text::texts(words@)[2] == words@[2]@);
    match text::parse_i32(words[2].as_str()) {
        Some(v) => Ok(v),
        None => Err(PgidError::NotANumber),
    }
}

/// An entry of the process file system: its name, and what its files hold. The command line is
/// empty where it could not be read.
pub struct ProcEntry {
    pub name: String,
    pub comm: String,
    pub cmdline: Vec<u8>,
    pub stat: Option<String>,
    pub exe: Option<String>,
}

/// The arguments that the bytes of a command line hold.
pub open spec fn arguments(cmdline: Seq<u8>) -> Seq<Seq<char>> {
    let parts = nonempty_parts(cmdline);
    Seq::new(parts.len(), |i: int| lossy_text(parts[i]))
}

/// The server that an entry of the process file system stands for.
pub open spec fn entry_process(entry: ProcEntry) -> Option<ProcessView> {
    proc_process(
        entry.name@,
        entry.comm@,
        arguments(entry.cmdline@),
        match entry.stat {
            Some(stat) => match stat_pgid(stat@) {
                Ok(pgid) => Some(pgid as i32),
                Err(_) => None,
            },
            None => None,
        },
        text::text_opt(entry.exe),
    )
}

/// The servers among the first `n` entries of the process file system, in their order.
pub open spec fn proc_list(entries: Seq<ProcEntry>, n: int) -> Seq<ProcessView>
    decreases n,
{
    if n <= 0 {
        Seq::empty()
    } else {
        match entry_process(entries[n - 1]) {
            Some(process) => proc_list(entries, n - 1).push(process),
            None => proc_list(entries, n - 1),
        }
    }
}

fn read_entry(entry: &ProcEntry) -> (r: Option<RunningMcpProcess>)
    ensures
        process_opt(r) == entry_process(*entry),
{
    let argv = read_proc_cmdline(&entry.cmdline);
    assert(text::texts(argv@) =~= arguments(entry.cmdline@));
    let pgid: Option<i32> = match &entry.stat {
        Some(stat) => match read_linux_pgid(stat.as_str()) {
            Ok(pgid) => Some(pgid),
            Err(_) => None,
        },
        None => None,
    };
    read_proc_entry(
        entry.name.as_str(),
        entry.comm.as_str(),
        &argv,
        pgid,
        text::copy_opt(&entry.exe),
    )
}

/// The servers that the process file system shows, by process number.
pub fn discover_running_mcp_processes(entries: &Vec<ProcEntry>) -> (r: Vec<RunningMcpProcess>)
    ensures
        sorting::views(r@) == sorting::stable_sorted::<RunningMcpProcess>(
            proc_list(entries@, entries@.len() as int),
        ),
{
    let mut found: Vec<RunningMcpProcess> = Vec::new();
    let mut i: usize = 0;
    assert(sorting::views(found@) =~= proc_list(entries@, 0));
    while i < entries.len()
        invariant
            i <= entries@.len(),
            sorting::views(found@) == proc_list(entries@, i as int),
        decreases entries@.len() - i,
    {
        match read_entry(&entries[i]) {
            Some(process) => {
                proof {
                    sorting::lemma_views_push(found@, process);
                }
                found.push(process);
            },
            None => {},
        }
        i = i + 1;
    }
    sorting::stable_sort(found)
}

/// The path in `text`, when it holds a slash.
pub open spec fn slashed(text: Seq<char>) -> bool {
    text.contains('/')
}

fn has_slash(s: &str) -> (r: bool)
    ensures
        r == slashed(s@),
{
    let cs = text::to_chars(s);
    let mut i: usize = 0;
    while i < cs.len()
        invariant
            cs@ == s@,
            i <= cs@.len(),
            forall|j: int| 0 <= j < i ==> s@[j] != '/',
        decreases cs@.len() - i,
    {
        if cs[i] == '/' {
            assert(s@[i as int] == '/');
            return true;
        }
        i = i + 1;
    }
    false
}

/// The server that a line of `ps` output stands for: process, process group, program, arguments.
pub open spec fn ps_process(line: Seq<char>) -> Option<ProcessView> {
    let fields = text::words(text::bare(line));
    if fields.len() == 0 {
        None
    } else {
        match text::unsigned_value(fields[0], u32::MAX as int) {
            None => None,
            Some(pid) => {
                let pgid = if fields.len() > 1 {
                    match text::signed_value(fields[1], i32::MIN as int, i32::MAX as int) {
                        Some(v) => Some(v as i32),
                        None => None,
                    }
                } else {
                    None
                };
                let comm = if fields.len() > 2 {
                    fields[2]
                } else {
                    Seq::empty()
                };
                let args = if fields.len() > 3 {
                    text::joined(fields.skip(3), " "@)
                } else {
                    Seq::empty()
                };
                let argv = text::words(args);
                let argv0 = if argv.len() > 0 {
                    argv[0]
                } else {
                    comm
                };
                if is_server(comm, argv) {
                    Some(
                        ProcessView {
                            pid: pid as u32,
                            pgid,
                            exe: if slashed(comm) {
                                Some(comm)
                            } else if slashed(argv0) {
                                Some(argv0)
                            } else {
                                None
                            },
                            command: if args.len() == 0 {
                                comm
                            } else {
                                args
                            },
                        },
                    )
                } else {
                    None
                }
            },
        }
    }
}

/// The server that a line of `ps` output stands for.
pub fn parse_ps_line(line: &str) -> (r: Option<RunningMcpProcess>)
    ensures
        process_opt(r) == ps_process(line@),
{
    let trimmed = text::trim(line);
    let fields = text::split_whitespace(trimmed.as_str());
    let ghost all = text::words(text::bare(line@));
    assert(text::texts(fields@) == all);
    assert(all.len() == fields@.len());
    assert(forall|i: int| 0 <= i < fields@.len() ==> all[i] == (#[trigger] fields@[i])@);
    if fields.len() == 0 {
        return None;
    }
    match text::parse_u32(fields[0].as_str()) {
        None => None,
        Some(pid) => {
            let pgid: Option<i32> = if fields.len() > 1 {
                text::parse_i32(fields[1].as_str())
            } else {
                None
            };
            let comm = if fields.len() > 2 {
                fields[2].clone()
            } else {
                String::new()
            };
            assert(fields@.len() <= 2 ==> comm@ =~= Seq::<char>::empty());
            let args = if fields.len() > 3 {
                let mut rest: Vec<String> = Vec::new();
                let mut i: usize = 3;
                while i < fields.len()
                    invariant
                        3 <= i <= fields@.len(),
                        rest@ == fields@.subrange(3, i as int),
                    decreases fields@.len() - i,
                {
                    rest.push(fields[i].clone());
                    i = i + 1;
                    assert(fields@.subrange(3, i as int) =~= fields@.subrange(3, i - 1).push(
                        fields@[i - 1],
                    ));
                }
                assert(text::texts(rest@) =~= all.skip(3));
                text::join(&rest, " ")
            } else {
                String::new()
            };
            assert(fields@.len() <= 3 ==> args@ =~= Seq::<char>::empty());
            let argv = text::split_whitespace(args.as_str());
            assert(text::texts(argv@).len() == argv@.len());
            if !is_artesian_mcp_process(comm.as_str(), &argv) {
                return None;
            }
            let argv0 = if argv.len() > 0 {
                assert(text::texts(argv@)[0] == argv@[0]@);
                argv[0].clone()
            } else {
                comm.clone()
            };
            let exe = if has_slash(comm.as_str()) {
                Some(comm.clone())
            } else if has_slash(argv0.as_str()) {
                Some(argv0)
            } else {
                None
            };
            let command = if args.as_str().is_empty() {
                comm
            } else {
                args
            };
            Some(RunningMcpProcess { pid, pgid, exe, command })
        },
    }
}

/// The servers among the first `n` lines of `ps` output, in their order.
pub open spec fn ps_list(lines: Seq<Seq<char>>, n: int) -> Seq<ProcessView>
    decreases n,
{
    if n <= 0 {
        Seq::empty()
    } else {
        match ps_process(lines[n - 1]) {
            Some(process) => ps_list(lines, n - 1).push(process),
            None => ps_list(lines, n - 1),
        }
    }
}

/// The servers in `ps` output, by process number.
pub fn parse_ps_mcp_processes(output: &str) -> (r: Vec<RunningMcpProcess>)
    ensures
        ({
            let lines = text::lines_of(output@);
            sorting::views(r@) == sorting::stable_sorted::<RunningMcpProcess>(
                ps_list(lines, lines.len() as int),
            )
        }),
{
    let lines = text::lines(output);
    let ghost all = text::lines_of(output@);
    let mut found: Vec<RunningMcpProcess> = Vec::new();
    let mut i: usize = 0;
    assert(sorting::views(found@) =~= ps_list(all, 0));
    while i < lines.len()
        invariant
            text::texts(lines@) == all,
            i <= lines@.len(),
            sorting::views(found@) == ps_list(all, i as int),
        decreases lines@.len() - i,
    {
        assert(all[i as int] == lines@[i as int]@);
        match parse_ps_line(lines[i].as_str()) {
            Some(process) => {
                proof {
                    sorting::lemma_views_push(found@, process);
                }
                found.push(process);
            },
            None => {},
        }
        i = i + 1;
    }
    sorting::stable_sort(found)
}

// ---------------------------------------------------------------------------------------------
// Stale servers
// ---------------------------------------------------------------------------------------------

/// A path as it is compared: without the mark of a deleted file, and as the file system resolves
/// it when it exists.
pub open spec fn normalized(path: Seq<char>, canonical: Map<Seq<char>, String>) -> Seq<char> {
    let plain = if text::finishes_with(path, " (deleted)"@) {
        path.take(path.len() - " (deleted)"@.len())
    } else {
        path
    };
    if canonical.dom().contains(plain) {
        canonical[plain]@
    } else {
        plain
    }
}

/// A path as it is compared.
pub fn normalize_comparison_path(path: &str, canonical: &TextMap<String>) -> (r: String)
    ensures
        r@ == normalized(path@, canonical@),
{
    let plain = match text::strip_suffix(path, " (deleted)") {
        Some(rest) => rest,
        None => path.to_owned(),
    };
    match canonical.get(plain.as_str()) {
        Some(resolved) => resolved.clone(),
        None => plain,
    }
}

/// A server is current when it runs the installed binary, stale when it runs another one, and
/// unknown when either is not known.
pub open spec fn state_of(
    exe: Option<String>,
    current: Option<String>,
    canonical: Map<Seq<char>, String>,
) -> McpBinaryState {
    match (exe, current) {
        (Some(exe), Some(current)) => if paths::parts_of(normalized(exe@, canonical))
            == paths::parts_of(normalized(current@, canonical)) {
            McpBinaryState::Current
        } else {
            McpBinaryState::Stale
        },
        _ => McpBinaryState::Unknown,
    }
}

/// The servers with the states of their binaries.
pub open spec fn classified(
    processes: Seq<RunningMcpProcess>,
    current: Option<String>,
    canonical: Map<Seq<char>, String>,
) -> Seq<McpProcessStatus> {
    Seq::new(
        processes.len(),
        |i: int|
            McpProcessStatus {
                process: processes[i],
                binary_state: state_of(processes[i].exe, current, canonical),
            },
    )
}

/// Whether each server runs the installed binary.
pub fn classify_running_mcp_processes(
    processes: Vec<RunningMcpProcess>,
    current_mcp_binary: &Option<String>,
    canonical: &TextMap<String>,
) -> (r: Vec<McpProcessStatus>)
    ensures
        r@ == classified(processes@, *current_mcp_binary, canonical@),
{
    let mut out: Vec<McpProcessStatus> = Vec::new();
    let ghost all = processes@;
    let current = match current_mcp_binary {
        Some(path) => Some(normalize_comparison_path(path.as_str(), canonical)),
        None => None,
    };
    for process in it: processes.into_iter()
        invariant
            it.seq() == all,
            (current is Some) == (*current_mcp_binary is Some),
            current is Some ==> current->0@ == normalized(
                (*current_mcp_binary)->0@,
                canonical@,
            ),
            out@ == classified(all, *current_mcp_binary, canonical@).take(it.index() as int),
    {
        let ghost i = it.index() as int;
        let binary_state = match (&process.exe, &current) {
            (Some(exe), Some(current)) => {
                let exe_path = normalize_comparison_path(exe.as_str(), canonical);
                if paths::same_path(exe_path.as_str(), current.as_str()) {
                    McpBinaryState::Current
                } else {
                    McpBinaryState::Stale
                }
            },
            _ => McpBinaryState::Unknown,
        };
        out.push(McpProcessStatus { process, binary_state });
        assert(classified(all, *current_mcp_binary, canonical@).take(i + 1) =~= classified(
            all,
            *current_mcp_binary,
            canonical@,
        ).take(i).push(classified(all, *current_mcp_binary, canonical@)[i]));
    }
    assert(classified(all, *current_mcp_binary, canonical@).take(all.len() as int) =~= classified(
        all,
        *current_mcp_binary,
        canonical@,
    ));
    out
}

/// The number of servers among the first `n` that are in `state`.
pub open spec fn count_in_state(
    processes: Seq<McpProcessStatus>,
    state: McpBinaryState,
    n: int,
) -> int
    decreases n,
{
    if n <= 0 {
        0
    } else {
        count_in_state(processes, state, n - 1) + if processes[n - 1].binary_state == state {
            1int
        } else {
            0int
        }
    }
}

/// The number of servers that are in `state`.
pub fn count_state(processes: &Vec<McpProcessStatus>, state: McpBinaryState) -> (r: usize)
    ensures
        r == count_in_state(processes@, state, processes@.len() as int),
{
    let mut n: usize = 0;
    let mut i: usize = 0;
    while i < processes.len()
        invariant
            n <= i <= processes@.len(),
            n == count_in_state(processes@, state, i as int),
        decreases processes@.len() - i,
    {
        if processes[i].binary_state == state {
            n = n + 1;
        }
        i = i + 1;
    }
    n
}

// ---------------------------------------------------------------------------------------------
// Restarting
// ---------------------------------------------------------------------------------------------

/// Whether a restart reaches a whole process group or one process.
#[derive(Debug, Clone, Copy, PartialEq, Eq, Structural)]
pub enum RestartMode {
    ProcessGroup(i32),
    ProcessOnly,
}

/// A server to terminate.
#[derive(Debug, Clone, Copy, PartialEq, Eq, Structural)]
pub struct RestartTarget {
    pub pid: u32,
    pub pgid: Option<i32>,
    pub mode: RestartMode,
}

/// A stale server leads the process group `pgid`.
pub open spec fn led_by_stale(processes: Seq<McpProcessStatus>, pgid: i32) -> bool {
    exists|i: int|
        0 <= i < processes.len() && leads(#[trigger] processes[i], pgid)
}

/// `status` is a stale server that leads the process group `pgid`.
pub open spec fn leads(status: McpProcessStatus, pgid: i32) -> bool {
    &&& status.binary_state == McpBinaryState::Stale
    &&& status.process.pgid == Some(pgid)
    &&& pgid > 0
    &&& pgid == status.process.pid
}

/// A stale server is terminated with its group when a stale server leads the group, otherwise
/// alone.
pub open spec fn target_for(
    processes: Seq<McpProcessStatus>,
    process: RunningMcpProcess,
) -> RestartTarget {
    RestartTarget {
        pid: process.pid,
        pgid: process.pgid,
        mode: match process.pgid {
            Some(pgid) => if led_by_stale(processes, pgid) {
                RestartMode::ProcessGroup(pgid)
            } else {
                RestartMode::ProcessOnly
            },
            None => RestartMode::ProcessOnly,
        },
    }
}

/// Two targets reach the same processes: the same group, or the same process.
pub open spec fn same_reach(a: RestartTarget, b: RestartTarget) -> bool {
    match (a.mode, b.mode) {
        (RestartMode::ProcessGroup(x), RestartMode::ProcessGroup(y)) => x == y,
        (RestartMode::ProcessOnly, RestartMode::ProcessOnly) => a.pid == b.pid,
        _ => false,
    }
}

/// A target with the reach of `t` is in the list.
pub open spec fn reached(targets: Seq<RestartTarget>, t: RestartTarget) -> bool {
    exists|i: int| 0 <= i < targets.len() && same_reach(#[trigger] targets[i], t)
}

/// The targets for the stale servers among the first `n`, without a second one of the same reach.
pub open spec fn restart_targets(processes: Seq<McpProcessStatus>, n: int) -> Seq<RestartTarget>
    decreases n,
{
    if n <= 0 {
        Seq::empty()
    } else {
        let earlier = restart_targets(processes, n - 1);
        let status = processes[n - 1];
        let target = target_for(processes, status.process);
        if status.binary_state == McpBinaryState::Stale && !reached(earlier, target) {
            earlier.push(target)
        } else {
            earlier
        }
    }
}

fn is_led_by_stale(processes: &Vec<McpProcessStatus>, pgid: i32) -> (r: bool)
    ensures
        r == led_by_stale(processes@, pgid),
{
    let mut i: usize = 0;
    while i < processes.len()
        invariant
            i <= processes@.len(),
            forall|j: int| 0 <= j < i ==> !leads(#[trigger] processes@[j], pgid),
        decreases processes@.len() - i,
    {
        let status = &processes[i];
        let own: bool = match status.process.pgid {
            Some(group) => group == pgid,
            None => false,
        };
        if status.binary_state == McpBinaryState::Stale && own && pgid > 0 && pgid as u32
            == status.process.pid {
            assert(leads(processes@[i as int], pgid));
            return true;
        }
        i = i + 1;
    }
    false
}

fn is_reached(targets: &Vec<RestartTarget>, t: &RestartTarget) -> (r: bool)
    ensures
        r == reached(targets@, *t),
{
    let mut i: usize = 0;
    while i < targets.len()
        invariant
            i <= targets@.len(),
            forall|j: int| 0 <= j < i ==> !same_reach(#[trigger] targets@[j], *t),
        decreases targets@.len() - i,
    {
        let same: bool = match (targets[i].mode, t.mode) {
            (RestartMode::ProcessGroup(x), RestartMode::ProcessGroup(y)) => x == y,
            (RestartMode::ProcessOnly, RestartMode::ProcessOnly) => targets[i].pid == t.pid,
            _ => false,
        };
        if same {
            assert(same_reach(targets@[i as int], *t));
            return true;
        }
        i = i + 1;
    }
    false
}

/// The servers to terminate so that no stale one keeps running.
pub fn stale_mcp_restart_targets(processes: &Vec<McpProcessStatus>) -> (r: Vec<RestartTarget>)
    ensures
        r@ == restart_targets(processes@, processes@.len() as int),
{
    let mut targets: Vec<RestartTarget> = Vec::new();
    let mut i: usize = 0;
    while i < processes.len()
        invariant
            i <= processes@.len(),
            targets@ == restart_targets(processes@, i as int),
        decreases processes@.len() - i,
    {
        let status = &processes[i];
        if status.binary_state == McpBinaryState::Stale {
            let mode = match status.process.pgid {
                Some(pgid) => if is_led_by_stale(processes, pgid) {
                    RestartMode::ProcessGroup(pgid)
                } else {
                    RestartMode::ProcessOnly
                },
                None => RestartMode::ProcessOnly,
            };
            let target = RestartTarget {
                pid: status.process.pid,
                pgid: status.process.pgid,
                mode,
            };
            if !is_reached(&targets, &target) {
                targets.push(target);
            }
        }
        i = i + 1;
    }
    targets
}

/// Only stale servers are restarted: every target is the one for a stale server, and a group is
/// a target only when a stale server leads it.
pub proof fn law_only_stale_restarted(processes: Seq<McpProcessStatus>, k: int)
    requires
        0 <= k < restart_targets(processes, processes.len() as int).len(),
    ensures
        ({
            let target = restart_targets(processes, processes.len() as int)[k];
            &&& exists|i: int|
                0 <= i < processes.len() && (#[trigger] processes[i]).binary_state
                    == McpBinaryState::Stale && target == target_for(processes, processes[i].process)
            &&& target.mode matches RestartMode::ProcessGroup(pgid) ==> led_by_stale(
                processes,
                pgid,
            )
        }),
{
    lemma_targets_stale(processes, processes.len() as int, k);
}

proof fn lemma_targets_stale(processes: Seq<McpProcessStatus>, n: int, k: int)
    requires
        0 <= n <= processes.len(),
        0 <= k < restart_targets(processes, n).len(),
    ensures
        exists|i: int|
            0 <= i < n && (#[trigger] processes[i]).binary_state == McpBinaryState::Stale
                && restart_targets(processes, n)[k] == target_for(processes, processes[i].process),
    decreases n,
{
    if n > 0 {
        let earlier = restart_targets(processes, n - 1);
        if k < earlier.len() {
            lemma_targets_stale(processes, n - 1, k);
        } else {
            assert(processes[n - 1].binary_state == McpBinaryState::Stale);
        }
    }
}

/// No stale server is left out: each is reached by one of the targets.
pub proof fn law_every_stale_reached(processes: Seq<McpProcessStatus>, i: int)
    requires
        0 <= i < processes.len(),
        processes[i].binary_state == McpBinaryState::Stale,
    ensures
        reached(
            restart_targets(processes, processes.len() as int),
            target_for(processes, processes[i].process),
        ),
{
    lemma_stale_reached(processes, processes.len() as int, i);
}

proof fn lemma_stale_reached(processes: Seq<McpProcessStatus>, n: int, i: int)
    requires
        0 <= i < n <= processes.len(),
        processes[i].binary_state == McpBinaryState::Stale,
    ensures
        reached(restart_targets(processes, n), target_for(processes, processes[i].process)),
    decreases n,
{
    let target = target_for(processes, processes[i].process);
    let earlier = restart_targets(processes, n - 1);
    let now = restart_targets(processes, n);
    if i == n - 1 {
        if !reached(earlier, target) {
            assert(same_reach(now[now.len() - 1], target));
        }
    } else {
        lemma_stale_reached(processes, n - 1, i);
        let j = choose|j: int| 0 <= j < earlier.len() && same_reach(#[trigger] earlier[j], target);
        assert(same_reach(now[j], target));
    }
}

/// Nothing is terminated twice: no two targets have the same reach.
pub proof fn law_restart_targets_distinct(processes: Seq<McpProcessStatus>, j: int, k: int)
    requires
        0 <= j < k < restart_targets(processes, processes.len() as int).len(),
    ensures
        !same_reach(
            restart_targets(processes, processes.len() as int)[j],
            restart_targets(processes, processes.len() as int)[k],
        ),
{
    lemma_targets_distinct(processes, processes.len() as int, j, k);
}

proof fn lemma_targets_distinct(processes: Seq<McpProcessStatus>, n: int, j: int, k: int)
    requires
        0 <= n <= processes.len(),
        0 <= j < k < restart_targets(processes, n).len(),
    ensures
        !same_reach(restart_targets(processes, n)[j], restart_targets(processes, n)[k]),
    decreases n,
{
    if n > 0 {
        let earlier = restart_targets(processes, n - 1);
        if k < earlier.len() {
            lemma_targets_distinct(processes, n - 1, j, k);
        } else {
            assert(!reached(earlier, restart_targets(processes, n)[k]));
            assert(earlier[j] == restart_targets(processes, n)[j]);
        }
    }
}

/// Every stale server is itself terminated: one of the targets has its process number and is for
/// that process alone, or is for the process group that it is in.
pub proof fn law_every_stale_terminated(processes: Seq<McpProcessStatus>, i: int)
    requires
        0 <= i < processes.len(),
        processes[i].binary_state == McpBinaryState::Stale,
    ensures
        ({
            let targets = restart_targets(processes, processes.len() as int);
            let process = processes[i].process;
            exists|k: int|
                0 <= k < targets.len() && match (#[trigger] targets[k]).mode {
                    RestartMode::ProcessOnly => targets[k].pid == process.pid,
                    RestartMode::ProcessGroup(group) => process.pgid == Some(group),
                }
        }),
{
    let targets = restart_targets(processes, processes.len() as int);
    let process = processes[i].process;
    lemma_stale_reached(processes, processes.len() as int, i);
    let k = choose|k: int|
        0 <= k < targets.len() && same_reach(#[trigger] targets[k], target_for(processes, process));
    assert(match targets[k].mode {
        RestartMode::ProcessOnly => targets[k].pid == process.pid,
        RestartMode::ProcessGroup(group) => process.pgid == Some(group),
    });
}

/// Nothing but stale servers and what their groups hold is terminated. A target has the numbers of a
/// stale server; it is for a whole group only where a stale server leads the group, that is, has
/// the number of the group as its own; it is for the process alone only where none does.
pub proof fn law_nothing_current_terminated(processes: Seq<McpProcessStatus>, k: int)
    requires
        0 <= k < restart_targets(processes, processes.len() as int).len(),
    ensures
        ({
            let target = restart_targets(processes, processes.len() as int)[k];
            &&& exists|i: int|
                0 <= i < processes.len() && (#[trigger] processes[i]).binary_state
                    == McpBinaryState::Stale && processes[i].process.pid == target.pid
                    && processes[i].process.pgid == target.pgid
            &&& match target.mode {
                RestartMode::ProcessGroup(group) => {
                    &&& target.pgid == Some(group)
                    &&& exists|i: int|
                        0 <= i < processes.len() && (#[trigger] processes[i]).binary_state
                            == McpBinaryState::Stale && processes[i].process.pgid == Some(group)
                            && processes[i].process.pid == group && group > 0
                },
                RestartMode::ProcessOnly => forall|i: int|
                    0 <= i < processes.len() && (#[trigger] processes[i]).binary_state
                        == McpBinaryState::Stale && processes[i].process.pgid is Some
                        && processes[i].process.pgid == target.pgid
                        && processes[i].process.pgid->0 > 0 ==> processes[i].process.pid
                        != processes[i].process.pgid->0,
            }
        }),
{
    lemma_targets_stale(processes, processes.len() as int, k);
    let target = restart_targets(processes, processes.len() as int)[k];
    let j = choose|i: int|
        0 <= i < processes.len() && (#[trigger] processes[i]).binary_state == McpBinaryState::Stale
            && target == target_for(processes, processes[i].process);
    assert(processes[j].process.pid == target.pid);
    match target.mode {
        RestartMode::ProcessGroup(group) => {
            let i = choose|i: int|
                0 <= i < processes.len() && leads(#[trigger] processes[i], group);
            assert(processes[i].process.pid == group);
        },
        RestartMode::ProcessOnly => {
            assert forall|i: int|
                0 <= i < processes.len() && (#[trigger] processes[i]).binary_state
                    == McpBinaryState::Stale && processes[i].process.pgid is Some
                    && processes[i].process.pgid == target.pgid && processes[i].process.pgid->0
                    > 0 implies processes[i].process.pid != processes[i].process.pgid->0 by {
                if processes[i].process.pid == processes[i].process.pgid->0 {
                    assert(leads(processes[i], target.pgid->0));
                }
            }
        },
    }
}

/// Nothing is terminated twice: no two targets are for the same group, and no two targets for single
/// processes have the same number.
pub proof fn law_nothing_terminated_twice(processes: Seq<McpProcessStatus>, j: int, k: int)
    requires
        0 <= j < k < restart_targets(processes, processes.len() as int).len(),
    ensures
        ({
            let targets = restart_targets(processes, processes.len() as int);
            match (targets[j].mode, targets[k].mode) {
                (RestartMode::ProcessGroup(a), RestartMode::ProcessGroup(b)) => a != b,
                (RestartMode::ProcessOnly, RestartMode::ProcessOnly) => targets[j].pid
                    != targets[k].pid,
                _ => true,
            }
        }),
{
    lemma_targets_distinct(processes, processes.len() as int, j, k);
}

/// A server is stale exactly when both its program and the installed binary are known and their paths
/// differ in a component once the file system has resolved them; current when they agree in all;
/// otherwise it is not known. No server is dropped, and none is put out of its place.
pub proof fn law_stale_means_other_binary(
    processes: Seq<RunningMcpProcess>,
    current: Option<String>,
    canonical: Map<Seq<char>, String>,
    i: int,
)
    requires
        0 <= i < processes.len(),
    ensures
        ({
            let found = classified(processes, current, canonical);
            let known = processes[i].exe is Some && current is Some;
            let same = paths::parts_of(normalized(processes[i].exe->0@, canonical))
                == paths::parts_of(normalized(current->0@, canonical));
            &&& found.len() == processes.len()
            &&& found[i].process == processes[i]
            &&& found[i].binary_state == McpBinaryState::Stale <==> known && !same
            &&& found[i].binary_state == McpBinaryState::Current <==> known && same
            &&& found[i].binary_state == McpBinaryState::Unknown <==> !known
        }),
{
}

/// Paths are compared as the file system resolves them, where it does, and the mark of a deleted file
/// is no part of a path: a path with the mark is compared as the path without it.
pub proof fn law_deleted_mark_is_ignored(path: Seq<char>, canonical: Map<Seq<char>, String>)
    requires
        !text::finishes_with(path, " (deleted)"@),
    ensures
        normalized(path + " (deleted)"@, canonical) == normalized(path, canonical),
        !canonical.dom().contains(path) ==> normalized(path, canonical) == path,
        canonical.dom().contains(path) ==> normalized(path, canonical) == canonical[path]@,
{
    let mark = " (deleted)"@;
    let marked = path + mark;
    assert(marked.skip(marked.len() - mark.len()) =~= mark);
    assert(marked.take(marked.len() - mark.len()) =~= path);
}

// ---------------------------------------------------------------------------------------------
// What discovery reads
// ---------------------------------------------------------------------------------------------

/// A line of `ps` is read back: process number, process group, program and arguments, as they were
/// written. It stands for a server exactly when the program, or the first argument, is a path to
/// something named `artesian-mcp`.
pub proof fn law_ps_line_is_read_back(pid: u32, pgid: i32, comm: Seq<char>, argv: Seq<Seq<char>>)
    requires
        text::is_word(comm),
        forall|i: int| 0 <= i < argv.len() ==> text::is_word(#[trigger] argv[i]),
    ensures
        ({
            let fields = seq![text::decimal(pid as nat), text::decimal_int(pgid as int), comm]
                + argv;
            let found = ps_process(text::joined(fields, " "@));
            let server = "artesian-mcp"@;
            &&& found is Some <==> paths::name_of(comm) == Some(server) || argv.len() > 0
                && paths::name_of(argv[0]) == Some(server)
            &&& found is Some ==> {
                &&& found->0.pid == pid
                &&& found->0.pgid == Some(pgid)
                &&& found->0.command == (if argv.len() == 0 {
                    comm
                } else {
                    text::joined(argv, " "@)
                })
                &&& comm.contains('/') ==> found->0.exe == Some(comm)
                &&& !comm.contains('/') && argv.len() > 0 && argv[0].contains('/')
                    ==> found->0.exe == Some(argv[0])
                &&& !comm.contains('/') && (argv.len() > 0 ==> !argv[0].contains('/'))
                    ==> found->0.exe is None
            }
        }),
{
    let first = text::decimal(pid as nat);
    let second = text::decimal_int(pgid as int);
    let fields = seq![first, second, comm] + argv;
    let line = text::joined(fields, " "@);
    lemma_decimal_is_word(pid as int);
    lemma_decimal_is_word(pgid as int);
    assert forall|i: int| 0 <= i < fields.len() implies text::is_word(#[trigger] fields[i]) by {
        if i >= 3 {
            assert(fields[i] == argv[i - 3]);
        }
    }
    lemma_joined_is_bare(fields);
    text::lemma_joined_words(fields);
    text::lemma_joined_words(argv);
    crate::text_laws::law_written_numbers_are_read_back(pid as nat, u32::MAX as int);
    crate::text_laws::law_written_signed_numbers_are_read_back(
        pgid as int,
        i32::MIN as int,
        i32::MAX as int,
    );
    assert(fields[0] == first && fields[1] == second && fields[2] == comm);
    text::lemma_trimmed_stays(comm, text::CharClass::Space);
    if argv.len() > 0 {
        assert(fields.skip(3) =~= argv);
        text::lemma_trimmed_stays(argv[0], text::CharClass::Space);
        lemma_joined_not_empty(argv);
    } else {
        let nothing = Seq::<char>::empty();
        assert(text::words(nothing) =~= Seq::empty());
    }
}

proof fn lemma_decimal_is_word(n: int)
    ensures
        text::is_word(text::decimal_int(n)),
        n >= 0 ==> text::decimal_int(n) == text::decimal(n as nat),
{
    let digits = text::decimal((if n < 0 { -n } else { n }) as nat);
    text::lemma_decimal_digits((if n < 0 { -n } else { n }) as nat);
    let s = text::decimal_int(n);
    assert forall|i: int| 0 <= i < s.len() implies !text::is_space(#[trigger] s[i]) by {
        if n < 0 {
            if i > 0 {
                assert(s[i] == digits[i - 1]);
            }
        } else {
            assert(s[i] == digits[i]);
        }
    }
}

proof fn lemma_joined_not_empty(parts: Seq<Seq<char>>)
    requires
        parts.len() > 0,
        forall|i: int| 0 <= i < parts.len() ==> text::is_word(#[trigger] parts[i]),
    ensures
        text::joined(parts, " "@).len() > 0,
        !text::is_space(text::joined(parts, " "@)[0]),
        !text::is_space(text::joined(parts, " "@).last()),
    decreases parts.len(),
{
    if parts.len() == 1 {
        assert(text::is_word(parts[0]));
    } else {
        let front = parts.drop_last();
        assert forall|i: int| 0 <= i < front.len() implies text::is_word(#[trigger] front[i]) by {
            assert(front[i] == parts[i]);
        }
        lemma_joined_not_empty(front);
        assert(text::is_word(parts[parts.len() - 1]));
        let all = text::joined(parts, " "@);
        assert(all[0] == text::joined(front, " "@)[0]);
        assert(all.last() == parts.last().last());
    }
}

proof fn lemma_joined_is_bare(parts: Seq<Seq<char>>)
    requires
        parts.len() > 0,
        forall|i: int| 0 <= i < parts.len() ==> text::is_word(#[trigger] parts[i]),
    ensures
        text::bare(text::joined(parts, " "@)) == text::joined(parts, " "@),
{
    lemma_joined_not_empty(parts);
    text::lemma_trimmed_stays(text::joined(parts, " "@), text::CharClass::Space);
}

/// Servers are listed by their numbers, and a server is on the list exactly when a line of the output
/// stands for it.
pub proof fn law_ps_servers_are_listed(lines: Seq<Seq<char>>, process: ProcessView, j: int, k: int)
    ensures
        ({
            let list = sorting::stable_sorted::<RunningMcpProcess>(
                ps_list(lines, lines.len() as int),
            );
            &&& 0 <= j < k < list.len() ==> list[j].pid <= list[k].pid
            &&& list.contains(process) <==> exists|i: int|
                0 <= i < lines.len() && #[trigger] ps_process(lines[i]) == Some(process)
        }),
{
    let found = ps_list(lines, lines.len() as int);
    sorting::law_stable_sorted::<RunningMcpProcess>(found);
    sorting::law_sorting_keeps_elements::<RunningMcpProcess>(found, process);
    lemma_ps_list(lines, lines.len() as int, process);
    let list = sorting::stable_sorted::<RunningMcpProcess>(found);
    if 0 <= j < k < list.len() {
        assert(!RunningMcpProcess::goes_before(list[k], list[j]));
    }
}

proof fn lemma_ps_list(lines: Seq<Seq<char>>, n: int, process: ProcessView)
    requires
        0 <= n <= lines.len(),
    ensures
        ps_list(lines, n).contains(process) <==> exists|i: int|
            0 <= i < n && #[trigger] ps_process(lines[i]) == Some(process),
    decreases n,
{
    if n > 0 {
        lemma_ps_list(lines, n - 1, process);
        let before = ps_list(lines, n - 1);
        let now = ps_list(lines, n);
        if now.contains(process) {
            let i = choose|i: int| 0 <= i < now.len() && now[i] == process;
            if i < before.len() {
                assert(before[i] == process);
            } else {
                assert(ps_process(lines[n - 1]) == Some(process));
            }
        }
        if exists|i: int| 0 <= i < n && #[trigger] ps_process(lines[i]) == Some(process) {
            let i = choose|i: int| 0 <= i < n && #[trigger] ps_process(lines[i]) == Some(process);
            if i == n - 1 {
                assert(now[now.len() - 1] == process);
            } else {
                let k = choose|k: int| 0 <= k < before.len() && before[k] == process;
                assert(now[k] == process);
            }
        }
    }
}

/// An entry of the process file system that is named by a process number, and whose program or first
/// argument is named `artesian-mcp`, is on the list of servers with that number, its command line,
/// its program and the group that its `stat` line tells; the list goes by process number.
pub proof fn law_every_server_is_discovered(entries: Seq<ProcEntry>, i: int, j: int, k: int)
    requires
        0 <= i < entries.len(),
    ensures
        ({
            let entry = entries[i];
            let argv = arguments(entry.cmdline@);
            let list = sorting::stable_sorted::<RunningMcpProcess>(
                proc_list(entries, entries.len() as int),
            );
            let named = paths::name_of(text::bare(entry.comm@)) == Some("artesian-mcp"@)
                || argv.len() > 0 && paths::name_of(text::bare(argv[0])) == Some(
                "artesian-mcp"@,
            );
            &&& 0 <= j < k < list.len() ==> list[j].pid <= list[k].pid
            &&& forall|pid: u32|
                named && entry.name@ == #[trigger] text::decimal(pid as nat) ==> exists|at: int|
                    0 <= at < list.len() && (#[trigger] list[at]).pid == pid && list[at].exe
                        == text::text_opt(entry.exe) && list[at].command == (if argv.len() == 0 {
                        text::bare(entry.comm@)
                    } else {
                        text::joined(argv, " "@)
                    })
        }),
{
    let entry = entries[i];
    let argv = arguments(entry.cmdline@);
    let found = proc_list(entries, entries.len() as int);
    let list = sorting::stable_sorted::<RunningMcpProcess>(found);
    sorting::law_stable_sorted::<RunningMcpProcess>(found);
    if 0 <= j < k < list.len() {
        assert(!RunningMcpProcess::goes_before(list[k], list[j]));
    }
    let named = paths::name_of(text::bare(entry.comm@)) == Some("artesian-mcp"@) || argv.len() > 0
        && paths::name_of(text::bare(argv[0])) == Some("artesian-mcp"@);
    assert forall|pid: u32|
        named && entry.name@ == #[trigger] text::decimal(pid as nat) implies exists|at: int|
        0 <= at < list.len() && (#[trigger] list[at]).pid == pid && list[at].exe == text::text_opt(
            entry.exe,
        ) && list[at].command == (if argv.len() == 0 {
            text::bare(entry.comm@)
        } else {
            text::joined(argv, " "@)
        }) by {
        crate::text_laws::law_written_numbers_are_read_back(pid as nat, u32::MAX as int);
        let process = entry_process(entry)->0;
        assert(entry_process(entry) == Some(process));
        lemma_proc_list(entries, entries.len() as int, i);
        sorting::law_sorting_keeps_elements::<RunningMcpProcess>(found, process);
        let at = choose|at: int| 0 <= at < list.len() && list[at] == process;
        assert(list[at].pid == pid);
    }
}

proof fn lemma_proc_list(entries: Seq<ProcEntry>, n: int, i: int)
    requires
        0 <= i < n <= entries.len(),
        entry_process(entries[i]) is Some,
    ensures
        proc_list(entries, n).contains(entry_process(entries[i])->0),
    decreases n,
{
    let process = entry_process(entries[i])->0;
    let now = proc_list(entries, n);
    if i == n - 1 {
        assert(now[now.len() - 1] == process);
    } else {
        lemma_proc_list(entries, n - 1, i);
        let before = proc_list(entries, n - 1);
        let k = choose|k: int| 0 <= k < before.len() && before[k] == process;
        assert(now[k] == process);
    }
}

/// The process group in a `stat` line is the third word after the program's closing parenthesis,
/// whatever the program is called, parentheses and blanks in its name included.
pub proof fn law_stat_group_is_read_back(
    front: Seq<char>,
    state: Seq<char>,
    parent: int,
    pgid: i32,
    more: Seq<Seq<char>>,
)
    requires
        text::is_word(state),
        !state.contains(')'),
        forall|i: int|
            0 <= i < more.len() ==> text::is_word(#[trigger] more[i]) && !more[i].contains(')'),
    ensures
        ({
            let fields = seq![state, text::decimal_int(parent), text::decimal_int(pgid as int)]
                + more;
            stat_pgid(front + ") "@ + text::joined(fields, " "@)) == Ok::<int, PgidError>(
                pgid as int,
            )
        }),
{
    reveal_strlit(") ");
    let fields = seq![state, text::decimal_int(parent), text::decimal_int(pgid as int)] + more;
    let tail = text::joined(fields, " "@);
    let stat = front + ") "@ + tail;
    lemma_decimal_is_word(parent);
    lemma_decimal_is_word(pgid as int);
    lemma_no_bracket_in_number(parent);
    lemma_no_bracket_in_number(pgid as int);
    assert forall|i: int| 0 <= i < fields.len() implies text::is_word(#[trigger] fields[i])
        && !fields[i].contains(')') by {
        if i >= 3 {
            assert(fields[i] == more[i - 3]);
        }
    }
    lemma_no_bracket_in_joined(fields);
    text::lemma_joined_words(fields);
    let k = front.len() as int;
    assert(stat.subrange(k, k + 2) =~= ") "@);
    assert forall|i: int| k < i implies !text::occurs_at(stat, ") "@, i) by {
        if text::occurs_at(stat, ") "@, i) {
            assert(stat.subrange(i, i + 2)[0] == ')');
            assert(stat[i] == ')');
            if i == k + 1 {
                assert(stat[i] == ' ');
            } else {
                assert(tail[i - k - 2] == ')');
                assert(tail.contains(')'));
            }
        }
    }
    lemma_last_from(stat, ") "@, k, stat.len() as int);
    assert(stat.skip(k + 2) =~= tail);
    assert(fields[2] == text::decimal_int(pgid as int));
    crate::text_laws::law_written_signed_numbers_are_read_back(
        pgid as int,
        i32::MIN as int,
        i32::MAX as int,
    );
}

proof fn lemma_last_from(hay: Seq<char>, needle: Seq<char>, k: int, i: int)
    requires
        0 <= k <= i,
        text::occurs_at(hay, needle, k),
        forall|j: int| k < j ==> !text::occurs_at(hay, needle, j),
    ensures
        last_from(hay, needle, i) == Some(k),
    decreases i,
{
    if i > k {
        lemma_last_from(hay, needle, k, i - 1);
    }
}

proof fn lemma_no_bracket_in_number(n: int)
    ensures
        !text::decimal_int(n).contains(')'),
{
    let digits = text::decimal((if n < 0 { -n } else { n }) as nat);
    text::lemma_decimal_digits((if n < 0 { -n } else { n }) as nat);
    let s = text::decimal_int(n);
    assert forall|i: int| 0 <= i < s.len() implies s[i] != ')' by {
        if n < 0 {
            if i > 0 {
                assert(s[i] == digits[i - 1]);
            }
        } else {
            assert(s[i] == digits[i]);
        }
    }
}

proof fn lemma_no_bracket_in_joined(parts: Seq<Seq<char>>)
    requires
        forall|i: int| 0 <= i < parts.len() ==> !(#[trigger] parts[i]).contains(')'),
    ensures
        !text::joined(parts, " "@).contains(')'),
    decreases parts.len(),
{
    reveal_strlit(" ");
    if parts.len() == 1 {
        assert(!parts[0].contains(')'));
    } else if parts.len() > 1 {
        let front = parts.drop_last();
        assert forall|i: int| 0 <= i < front.len() implies !(#[trigger] front[i]).contains(')') by {
            assert(front[i] == parts[i]);
        }
        lemma_no_bracket_in_joined(front);
        let head = text::joined(front, " "@);
        let last = parts[parts.len() - 1];
        let all = text::joined(parts, " "@);
        assert(!last.contains(')'));
        assert forall|i: int| 0 <= i < all.len() implies all[i] != ')' by {
            if i < head.len() {
                assert(all[i] == head[i]);
            } else if i > head.len() {
                assert(all[i] == last[i - head.len() - 1]);
            }
        }
    }
}

/// The arguments of a command line end at zero bytes: those of two command lines with a zero byte
/// between them are those of the first, then those of the second; bytes without a zero byte are one
/// argument, and nothing is none.
pub proof fn law_arguments_end_at_zero_bytes(a: Seq<u8>, b: Seq<u8>)
    ensures
        nonempty_parts(a + seq![0u8] + b) == nonempty_parts(a) + nonempty_parts(b),
        nonempty_parts(Seq::empty()) == Seq::<Seq<u8>>::empty(),
        a.len() > 0 && !a.contains(0u8) ==> nonempty_parts(a) == seq![a],
    decreases a.len() + b.len(),
{
    let all = a + seq![0u8] + b;
    let nothing = Seq::<u8>::empty();
    assert(nonempty_parts(nothing) =~= Seq::<Seq<u8>>::empty());
    if b.len() == 0 {
        assert(all.last() == 0);
        assert(all.drop_last() =~= a);
        assert(b =~= nothing);
        assert(nonempty_parts(a) + nonempty_parts(b) =~= nonempty_parts(a));
    } else {
        let rest = b.drop_last();
        law_arguments_end_at_zero_bytes(a, rest);
        assert(all.last() == b.last());
        assert(all.drop_last() =~= a + seq![0u8] + rest);
        if b.last() != 0 {
            if b.len() >= 2 {
                assert(all[all.len() - 2] == b[b.len() - 2]);
                if b[b.len() - 2] != 0 {
                    assert(nonempty_parts(rest).len() > 0);
                }
            } else {
                assert(all[all.len() - 2] == 0);
                assert(rest =~= nothing);
            }
        }
        assert(nonempty_parts(all) =~= nonempty_parts(a) + nonempty_parts(b));
    }
    if a.len() > 0 && !a.contains(0u8) {
        lemma_one_argument(a);
    }
}

proof fn lemma_one_argument(a: Seq<u8>)
    requires
        a.len() > 0,
        !a.contains(0u8),
    ensures
        nonempty_parts(a) == seq![a],
    decreases a.len(),
{
    assert(a.contains(a[a.len() - 1]));
    let front = a.drop_last();
    if a.len() >= 2 {
        assert(a.contains(a[a.len() - 2]));
        assert(!front.contains(0u8)) by {
            assert forall|i: int| 0 <= i < front.len() implies front[i] != 0u8 by {
                assert(a.contains(a[i]));
            }
        }
        lemma_one_argument(front);
        assert(front.push(a.last()) =~= a);
        assert(nonempty_parts(a) =~= seq![a]);
    } else {
        assert(front =~= Seq::empty());
        assert(nonempty_parts(front) =~= Seq::<Seq<u8>>::empty());
        assert(seq![a.last()] =~= a);
        assert(nonempty_parts(a) =~= seq![a]);
    }
}

/// Every server is in one of the three states: their counts add up to the number of servers.
pub proof fn law_states_add_up(processes: Seq<McpProcessStatus>, n: int)
    requires
        0 <= n <= processes.len(),
    ensures
        count_in_state(processes, McpBinaryState::Current, n) + count_in_state(
            processes,
            McpBinaryState::Stale,
            n,
        ) + count_in_state(processes, McpBinaryState::Unknown, n) == n,
        count_in_state(processes, McpBinaryState::Stale, n) == 0 <==> forall|i: int|
            0 <= i < n ==> (#[trigger] processes[i]).binary_state != McpBinaryState::Stale,
        count_in_state(processes, McpBinaryState::Stale, n) >= 0,
    decreases n,
{
    if n > 0 {
        law_states_add_up(processes, n - 1);
    }
}

} // verus!
