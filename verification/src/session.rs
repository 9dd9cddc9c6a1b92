//! Session transcripts that lost the tools of a memory server: a client that restarts a server
//! takes its tools out of a session, and a resumed session may get the server's instructions back
//! without the tools.

use vstd::prelude::*;
use crate::assistant::Assistant;
use crate::json;
use crate::json::{Json, JsonView};
use crate::paths;
use crate::sorting;
use crate::sorting::Ranked;
use crate::text;
use crate::text_map;
use crate::text_map::TextMap;

verus! {

/// How many of the most recent transcripts are looked at.
pub const MAX_STALE_RESUME_SESSIONS: usize = 6;

// ---------------------------------------------------------------------------------------------
// Transcript files
// ---------------------------------------------------------------------------------------------

/// A path as it names a transcript directory: slashes and dots become dashes.
pub open spec fn encoded_dir(cwd: Seq<char>) -> Seq<char> {
    Seq::new(
        cwd.len(),
        |i: int|
            if cwd[i] == '/' || cwd[i] == '.' {
                '-'
            } else {
                cwd[i]
            },
    )
}

/// The name of a transcript directory is one name: it holds no slash, and no dot that could make
/// it something else.
pub proof fn law_encoded_dirs_are_names(cwd: Seq<char>)
    ensures
        encoded_dir(cwd).len() == cwd.len(),
        forall|i: int|
            0 <= i < cwd.len() ==> (#[trigger] encoded_dir(cwd)[i]) != '/' && encoded_dir(cwd)[i]
                != '.',
        encoded_dir(encoded_dir(cwd)) == encoded_dir(cwd),
{
    assert(encoded_dir(encoded_dir(cwd)) =~= encoded_dir(cwd));
}

/// A path as it names a transcript directory.
pub fn encode_claude_project_dir(cwd: &str) -> (r: String)
    ensures
        r@ == encoded_dir(cwd@),
{
    let cs = text::to_chars(cwd);
    let mut out = String::new();
    let mut i: usize = 0;
    while i < cs.len()
        invariant
            cs@ == cwd@,
            i <= cs@.len(),
            out@ == encoded_dir(cwd@).take(i as int),
        decreases cs@.len() - i,
    {
        let c: char = cs[i];
        out.push(if c == '/' || c == '.' { '-' } else { c });
        assert(encoded_dir(cwd@).take(i + 1) =~= encoded_dir(cwd@).take(i as int).push(
            encoded_dir(cwd@)[i as int],
        ));
        i = i + 1;
    }
    assert(encoded_dir(cwd@).take(i as int) =~= encoded_dir(cwd@));
    out
}

/// The directory that holds the transcripts of sessions in `cwd`.
pub fn claude_projects_dir_for(assistant: &Assistant, home: &str, cwd: &str) -> (r: String)
    ensures
        r@ == paths::joined(
            paths::joined(paths::joined(home@, assistant.dir_name()), "projects"@),
            encoded_dir(cwd@),
        ),
{
    let base = paths::join(
        paths::join(home, assistant.directory().as_str()).as_str(),
        "projects",
    );
    paths::join(base.as_str(), encode_claude_project_dir(cwd).as_str())
}

/// A file with the time it was last modified, in seconds and nanoseconds since the epoch.
#[derive(Debug, Clone, PartialEq, Eq)]
pub struct SessionFile {
    pub modified_secs: i64,
    pub modified_nanos: u32,
    pub path: String,
}

/// What a file with its time is.
#[verifier::ext_equal]
pub struct SessionFileView {
    pub modified_secs: i64,
    pub modified_nanos: u32,
    pub path: Seq<char>,
}

impl View for SessionFile {
    type V = SessionFileView;

    open spec fn view(&self) -> SessionFileView {
        SessionFileView {
            modified_secs: self.modified_secs,
            modified_nanos: self.modified_nanos,
            path: self.path@,
        }
    }
}

/// The file that was modified later goes first.
impl Ranked for SessionFile {
    open spec fn goes_before(a: SessionFileView, b: SessionFileView) -> bool {
        a.modified_secs > b.modified_secs || (a.modified_secs == b.modified_secs
            && a.modified_nanos > b.modified_nanos)
    }

    proof fn order_laws(a: SessionFileView, b: SessionFileView, c: SessionFileView) {
    }

    fn is_before(&self, other: &Self) -> (r: bool) {
        self.modified_secs > other.modified_secs || (self.modified_secs == other.modified_secs
            && self.modified_nanos > other.modified_nanos)
    }
}

/// The position of the last dot before position `n`.
pub open spec fn last_dot(name: Seq<char>, n: int) -> Option<int>
    decreases n,
{
    if n <= 0 {
        None
    } else if name[n - 1] == '.' {
        Some(n - 1)
    } else {
        last_dot(name, n - 1)
    }
}

/// What follows the last dot of a file name. A dot that begins the name does not count.
pub open spec fn extension_of(path: Seq<char>) -> Option<Seq<char>> {
    match paths::name_of(path) {
        Some(name) => match last_dot(name, name.len() as int) {
            Some(k) => if k > 0 {
                Some(name.skip(k + 1))
            } else {
                None
            },
            None => None,
        },
        None => None,
    }
}

/// What follows the last dot of a file name.
pub fn extension(path: &str) -> (r: Option<String>)
    ensures
        text::text_opt(r) == extension_of(path@),
{
    match paths::file_name(path) {
        Some(name) => {
            let cs = text::to_chars(name.as_str());
            let mut n: usize = cs.len();
            while n > 0 && cs[n - 1] != '.'
                invariant
                    cs@ == name@,
                    n <= cs@.len(),
                    last_dot(name@, name@.len() as int) == last_dot(name@, n as int),
                decreases n,
            {
                n = n - 1;
            }
            if n > 1 {
                let rest = text::string_of(&cs, n, cs.len());
                assert(cs@.subrange(n as int, cs@.len() as int) =~= name@.skip(n as int));
                Some(rest)
            } else {
                None
            }
        },
        None => None,
    }
}

/// The transcripts among the first `n` files.
pub open spec fn transcripts(files: Seq<SessionFileView>, n: int) -> Seq<SessionFileView>
    decreases n,
{
    if n <= 0 {
        Seq::empty()
    } else if extension_of(files[n - 1].path) == Some("jsonl"@) {
        transcripts(files, n - 1).push(files[n - 1])
    } else {
        transcripts(files, n - 1)
    }
}

/// At most `max` transcripts, the most recently modified first.
pub open spec fn recent(files: Seq<SessionFileView>, max: int) -> Seq<SessionFileView> {
    let sorted = sorting::stable_sorted::<SessionFile>(transcripts(files, files.len() as int));
    if sorted.len() <= max {
        sorted
    } else {
        sorted.take(max)
    }
}

/// The paths of at most `max` transcripts, the most recently modified first.
pub fn recent_session_files(files: Vec<SessionFile>, max: usize) -> (r: Vec<String>)
    ensures
        ({
            let chosen = recent(sorting::views(files@), max as int);
            text::texts(r@) == Seq::new(chosen.len(), |i: int| chosen[i].path)
        }),
{
    let ghost all = sorting::views(files@);
    let mut kept: Vec<SessionFile> = Vec::new();
    assert(sorting::views(kept@) =~= transcripts(all, 0));
    for file in it: files.into_iter()
        invariant
            sorting::views(it.seq()) == all,
            sorting::views(kept@) == transcripts(all, it.index() as int),
    {
        let ghost i = it.index() as int;
        assert(all[i] == file@);
        let is_transcript: bool = match extension(file.path.as_str()) {
            Some(ext) => text::same_text(ext.as_str(), "jsonl"),
            None => false,
        };
        if is_transcript {
            proof {
                sorting::lemma_views_push(kept@, file);
            }
            kept.push(file);
        }
    }
    let sorted = sorting::stable_sort(kept);
    let ghost order = sorting::stable_sorted::<SessionFile>(transcripts(all, all.len() as int));
    let mut out: Vec<String> = Vec::new();
    let mut i: usize = 0;
    while i < sorted.len() && i < max
        invariant
            sorting::views(sorted@) == order,
            i <= sorted@.len(),
            i <= max,
            out@.len() == i,
            forall|j: int| 0 <= j < i ==> (#[trigger] out@[j])@ == order[j].path,
        decreases sorted@.len() - i,
    {
        assert(order[i as int] == sorted@[i as int]@);
        out.push(sorted[i].path.clone());
        i = i + 1;
    }
    proof {
        let chosen = recent(all, max as int);
        assert(order.len() == sorted@.len());
        assert(text::texts(out@) =~= Seq::new(chosen.len(), |i: int| chosen[i].path));
    }
    out
}

// ---------------------------------------------------------------------------------------------
// Tool names
// ---------------------------------------------------------------------------------------------

/// The server and the tool in a name of the form `mcp__<server>__<tool>`.
pub open spec fn tool_name(name: Seq<char>) -> Option<(Seq<char>, Seq<char>)> {
    if text::begins_with(name, "mcp__"@) {
        let rest = name.skip(5);
        match text::first_of(rest, "__"@) {
            Some(k) => Some((rest.take(k), rest.skip(k + 2))),
            None => None,
        }
    } else {
        None
    }
}

/// The server and the tool in a name of the form `mcp__<server>__<tool>`: the first double
/// underscore after the prefix parts them.
pub fn parse_mcp_tool_name(name: &str) -> (r: Option<(&str, &str)>)
    ensures
        match r {
            Some((server, tool)) => tool_name(name@) == Some((server@, tool@)),
            None => tool_name(name@) is None,
        },
{
    proof {
        reveal_strlit("mcp__");
        reveal_strlit("__");
    }
    match text::strip_prefix(name, "mcp__") {
        Some(rest) => match text::find(rest.as_str(), "__") {
            Some(k) => {
                let n: usize = name.unicode_len();
                let server = name.substring_char(5, 5 + k);
                let tool = name.substring_char(5 + k + 2, n);
                assert(server@ =~= name@.skip(5).take(k as int));
                assert(tool@ =~= name@.skip(5).skip(k + 2));
                Some((server, tool))
            },
            None => None,
        },
        None => None,
    }
}

/// The server in a tool name; nothing in another name.
pub open spec fn server_in(name: Seq<char>) -> Seq<char> {
    match tool_name(name) {
        Some((server, _)) => server,
        None => Seq::empty(),
    }
}

/// A server belongs to the tools.
pub open spec fn is_artesian(server: Seq<char>) -> bool {
    text::has_text(text::lowered(server), "artesian"@)
}

/// Whether a server belongs to the tools.
pub fn server_is_artesian(server: &str) -> (r: bool)
    ensures
        r == is_artesian(server@),
{
    let lower = text::to_ascii_lowercase(server);
    text::contains(lower.as_str(), "artesian")
}

// ---------------------------------------------------------------------------------------------
// The state of a session
// ---------------------------------------------------------------------------------------------

/// What a session did to the tools of one server.
#[derive(Debug, Clone, PartialEq, Eq)]
pub struct ServerDeltaState {
    /// A tool was removed.
    pub removed: bool,
    /// When the last one was removed, where that is told.
    pub removed_at: Option<String>,
    /// A tool was added since.
    pub readded_after_removal: bool,
    /// The instructions came back since.
    pub instructions_readded: bool,
    /// When they last came back, where that is told.
    pub instructions_readded_at: Option<String>,
}

/// What a session did to the tools of one server.
#[verifier::ext_equal]
pub struct DeltaView {
    pub removed: bool,
    pub removed_at: Option<Seq<char>>,
    pub readded_after_removal: bool,
    pub instructions_readded: bool,
    pub instructions_readded_at: Option<Seq<char>>,
}

impl View for ServerDeltaState {
    type V = DeltaView;

    open spec fn view(&self) -> DeltaView {
        DeltaView {
            removed: self.removed,
            removed_at: text::text_opt(self.removed_at),
            readded_after_removal: self.readded_after_removal,
            instructions_readded: self.instructions_readded,
            instructions_readded_at: text::text_opt(self.instructions_readded_at),
        }
    }
}

/// What is known of the servers of a session.
pub type Deltas = Map<Seq<char>, DeltaView>;

/// The tools of a server are gone though its instructions came back, whether or not the times of
/// either are told.
pub open spec fn is_stale(delta: DeltaView) -> bool {
    &&& delta.removed
    &&& !delta.readded_after_removal
    &&& delta.instructions_readded
}

/// The servers whose tools are gone though their instructions came back.
pub open spec fn stale_servers(deltas: Deltas) -> Set<Seq<char>> {
    deltas.dom().filter(|server: Seq<char>| is_stale(deltas[server]))
}

/// After a tool was removed: what is known of its server begins anew.
pub open spec fn after_removed(deltas: Deltas, name: Seq<char>, at: Option<Seq<char>>) -> Deltas {
    match tool_name(name) {
        Some((server, _)) => if is_artesian(server) {
            deltas.insert(
                server,
                DeltaView {
                    removed: true,
                    removed_at: at,
                    readded_after_removal: false,
                    instructions_readded: false,
                    instructions_readded_at: None,
                },
            )
        } else {
            deltas
        },
        None => deltas,
    }
}

/// After a tool was added: a server whose tools were removed has them again.
pub open spec fn after_added(deltas: Deltas, name: Seq<char>) -> Deltas {
    match tool_name(name) {
        Some((server, _)) => if deltas.dom().contains(server) && deltas[server].removed {
            deltas.insert(server, DeltaView { readded_after_removal: true, ..deltas[server] })
        } else {
            deltas
        },
        None => deltas,
    }
}

/// After the instructions of a server came back.
pub open spec fn after_instructions(
    deltas: Deltas,
    server: Seq<char>,
    at: Option<Seq<char>>,
) -> Deltas {
    if is_artesian(server) && deltas.dom().contains(server) && deltas[server].removed
        && !deltas[server].readded_after_removal {
        deltas.insert(
            server,
            DeltaView {
                instructions_readded: true,
                instructions_readded_at: at,
                ..deltas[server]
            },
        )
    } else {
        deltas
    }
}

/// After the first `n` names were removed.
pub open spec fn after_all_removed(
    deltas: Deltas,
    names: Seq<Seq<char>>,
    at: Option<Seq<char>>,
    n: int,
) -> Deltas
    decreases n,
{
    if n <= 0 {
        deltas
    } else {
        after_removed(after_all_removed(deltas, names, at, n - 1), names[n - 1], at)
    }
}

/// After the first `n` names were added.
pub open spec fn after_all_added(deltas: Deltas, names: Seq<Seq<char>>, n: int) -> Deltas
    decreases n,
{
    if n <= 0 {
        deltas
    } else {
        after_added(after_all_added(deltas, names, n - 1), names[n - 1])
    }
}

/// After the instructions of the first `n` servers came back.
pub open spec fn after_all_instructions(
    deltas: Deltas,
    names: Seq<Seq<char>>,
    at: Option<Seq<char>>,
    n: int,
) -> Deltas
    decreases n,
{
    if n <= 0 {
        deltas
    } else {
        after_instructions(after_all_instructions(deltas, names, at, n - 1), names[n - 1], at)
    }
}

/// What is known of a session.
#[verifier::ext_equal]
pub struct SessionView {
    pub session_id: Option<Seq<char>>,
    pub deltas: Deltas,
}

/// After the tools of an attachment were removed, added and added again.
pub open spec fn after_tools(deltas: Deltas, attachment: JsonView, at: Option<Seq<char>>) -> Deltas {
    let removed = json::strings_of(json::field(attachment, "removedNames"@));
    let added = json::strings_of(json::field(attachment, "addedNames"@));
    let readded = json::strings_of(json::field(attachment, "readdedNames"@));
    let first = after_all_removed(deltas, removed, at, removed.len() as int);
    let second = after_all_added(first, added, added.len() as int);
    after_all_added(second, readded, readded.len() as int)
}

/// What is known of the servers after an attachment.
pub open spec fn after_attachment(
    deltas: Deltas,
    attachment: JsonView,
    at: Option<Seq<char>>,
) -> Deltas {
    match json::field_text(attachment, "type"@) {
        Some(kind) => if kind == "deferred_tools_delta"@ {
            after_tools(deltas, attachment, at)
        } else if kind == "mcp_instructions_delta"@ {
            let names = json::strings_of(json::field(attachment, "addedNames"@));
            after_all_instructions(deltas, names, at, names.len() as int)
        } else {
            deltas
        },
        None => deltas,
    }
}

/// What is known of a session after one more entry of its transcript. The first session name
/// that an entry gives stays.
pub open spec fn after_entry(state: SessionView, value: JsonView) -> SessionView {
    SessionView {
        session_id: if state.session_id is Some {
            state.session_id
        } else {
            json::field_text(value, "sessionId"@)
        },
        deltas: match json::field(value, "attachment"@) {
            Some(attachment) => after_attachment(
                state.deltas,
                attachment,
                json::field_text(value, "timestamp"@),
            ),
            None => state.deltas,
        },
    }
}

/// A line can tell something about tools or instructions.
pub open spec fn is_relevant(line: Seq<char>) -> bool {
    text::has_text(line, "deferred_tools_delta"@) || text::has_text(
        line,
        "mcp_instructions_delta"@,
    )
}

/// What is known of a session after one more line of its transcript. A line that tells nothing, or
/// that is not JSON, changes nothing.
pub open spec fn after_line(state: SessionView, line: Seq<char>) -> SessionView {
    if is_relevant(line) {
        match json::json_document(line) {
            Some(value) => after_entry(state, value),
            None => state,
        }
    } else {
        state
    }
}

/// What is known of a session after the first `n` lines of its transcript.
pub open spec fn after_lines(lines: Seq<Seq<char>>, n: int) -> SessionView
    decreases n,
{
    if n <= 0 {
        SessionView { session_id: None, deltas: Map::empty() }
    } else {
        after_line(after_lines(lines, n - 1), lines[n - 1])
    }
}

/// A walk through the transcript of a session, line by line.
pub struct SessionScan {
    session_id: Option<String>,
    per_server: TextMap<ServerDeltaState>,
}

impl View for SessionScan {
    type V = SessionView;

    closed spec fn view(&self) -> SessionView {
        SessionView {
            session_id: text::text_opt(self.session_id),
            deltas: text_map::views(self.per_server@),
        }
    }
}

/// A session whose tools of a server are gone though its instructions came back.
#[derive(Debug, Clone, PartialEq, Eq)]
pub struct StaleResumeFinding {
    pub session_file: String,
    pub session_id: Option<String>,
    pub server_name: String,
    pub removed_at: Option<String>,
}

/// What a finding on a session tells.
#[verifier::ext_equal]
pub struct FindingView {
    pub session_file: Seq<char>,
    pub session_id: Option<Seq<char>>,
    pub server_name: Seq<char>,
    pub removed_at: Option<Seq<char>>,
}

impl View for StaleResumeFinding {
    type V = FindingView;

    open spec fn view(&self) -> FindingView {
        FindingView {
            session_file: self.session_file@,
            session_id: text::text_opt(self.session_id),
            server_name: self.server_name@,
            removed_at: text::text_opt(self.removed_at),
        }
    }
}

/// The findings on the first `n` of the named servers of a session.
pub open spec fn told(
    path: Seq<char>,
    state: SessionView,
    names: Seq<Seq<char>>,
    n: int,
) -> Seq<FindingView>
    decreases n,
{
    if n <= 0 {
        Seq::empty()
    } else {
        let before = told(path, state, names, n - 1);
        let delta = state.deltas[names[n - 1]];
        if is_stale(delta) {
            before.push(
                FindingView {
                    session_file: path,
                    session_id: state.session_id,
                    server_name: names[n - 1],
                    removed_at: delta.removed_at,
                },
            )
        } else {
            before
        }
    }
}

/// The findings on a session: one for every server whose tools are gone though its instructions
/// came back, in the order of the names of the servers.
pub open spec fn session_findings(path: Seq<char>, state: SessionView) -> Seq<FindingView> {
    let names = text_map::listing(state.deltas.dom());
    told(path, state, names, names.len() as int)
}

impl SessionScan {
    /// A walk before the first line.
    pub fn new() -> (r: Self)
        ensures
            r@ == (SessionView { session_id: None, deltas: Map::empty() }),
    {
        proof {
            text_map::lemma_views_empty::<ServerDeltaState>();
        }
        SessionScan { session_id: None, per_server: TextMap::new() }
    }

    fn remove_tool(&mut self, name: &str, at: &Option<String>)
        ensures
            final(self)@ == (SessionView {
                deltas: after_removed(old(self)@.deltas, name@, text::text_opt(*at)),
                ..old(self)@
            }),
    {
        match parse_mcp_tool_name(name) {
            Some((server, _)) => {
                if server_is_artesian(server) {
                    let state = ServerDeltaState {
                        removed: true,
                        removed_at: text::copy_opt(at),
                        readded_after_removal: false,
                        instructions_readded: false,
                        instructions_readded_at: None,
                    };
                    proof {
                        text_map::lemma_views_insert(self.per_server@, server@, state);
                    }
                    self.per_server.insert(server.to_owned(), state);
                }
            },
            None => {},
        }
    }

    fn add_tool(&mut self, name: &str)
        ensures
            final(self)@ == (SessionView {
                deltas: after_added(old(self)@.deltas, name@),
                ..old(self)@
            }),
    {
        match parse_mcp_tool_name(name) {
            Some((server, _)) => {
                let updated = match self.per_server.get(server) {
                    Some(state) => if state.removed {
                        Some(
                            ServerDeltaState {
                                removed: true,
                                removed_at: text::copy_opt(&state.removed_at),
                                readded_after_removal: true,
                                instructions_readded: state.instructions_readded,
                                instructions_readded_at: text::copy_opt(
                                    &state.instructions_readded_at,
                                ),
                            },
                        )
                    } else {
                        None
                    },
                    None => None,
                };
                match updated {
                    Some(state) => {
                        proof {
                            text_map::lemma_views_insert(self.per_server@, server@, state);
                        }
                        self.per_server.insert(server.to_owned(), state);
                    },
                    None => {},
                }
            },
            None => {},
        }
    }

    fn add_instructions(&mut self, server: &str, at: &Option<String>)
        ensures
            final(self)@ == (SessionView {
                deltas: after_instructions(old(self)@.deltas, server@, text::text_opt(*at)),
                ..old(self)@
            }),
    {
        if !server_is_artesian(server) {
            return;
        }
        let updated = match self.per_server.get(server) {
            Some(state) => if state.removed && !state.readded_after_removal {
                Some(
                    ServerDeltaState {
                        removed: true,
                        removed_at: text::copy_opt(&state.removed_at),
                        readded_after_removal: false,
                        instructions_readded: true,
                        instructions_readded_at: text::copy_opt(at),
                    },
                )
            } else {
                None
            },
            None => None,
        };
        match updated {
            Some(state) => {
                proof {
                    text_map::lemma_views_insert(self.per_server@, server@, state);
                }
                self.per_server.insert(server.to_owned(), state);
            },
            None => {},
        }
    }

    fn add_tools(&mut self, names: &Vec<String>)
        ensures
            final(self)@ == (SessionView {
                deltas: after_all_added(
                    old(self)@.deltas,
                    text::texts(names@),
                    names@.len() as int,
                ),
                ..old(self)@
            }),
    {
        let ghost list = text::texts(names@);
        let mut i: usize = 0;
        while i < names.len()
            invariant
                list == text::texts(names@),
                i <= names@.len(),
                self@ == (SessionView {
                    deltas: after_all_added(old(self)@.deltas, list, i as int),
                    ..old(self)@
                }),
            decreases names@.len() - i,
        {
            assert(list[i as int] == names@[i as int]@);
            self.add_tool(names[i].as_str());
            i = i + 1;
        }
    }

    fn observe_attachment(&mut self, attachment: &Json, at: &Option<String>)
        ensures
            final(self)@ == (SessionView {
                deltas: after_attachment(old(self)@.deltas, attachment@, text::text_opt(*at)),
                ..old(self)@
            }),
    {
        let kind = match attachment.get_text("type") {
            Some(kind) => kind,
            None => {
                return;
            },
        };
        if text::same_text(kind.as_str(), "deferred_tools_delta") {
            let removed = json::string_list(attachment.get("removedNames"));
            let added = json::string_list(attachment.get("addedNames"));
            let readded = json::string_list(attachment.get("readdedNames"));
            let ghost list = text::texts(removed@);
            let mut i: usize = 0;
            while i < removed.len()
                invariant
                    list == text::texts(removed@),
                    i <= removed@.len(),
                    self@ == (SessionView {
                        deltas: after_all_removed(
                            old(self)@.deltas,
                            list,
                            text::text_opt(*at),
                            i as int,
                        ),
                        ..old(self)@
                    }),
                decreases removed@.len() - i,
            {
                assert(list[i as int] == removed@[i as int]@);
                self.remove_tool(removed[i].as_str(), at);
                i = i + 1;
            }
            self.add_tools(&added);
            self.add_tools(&readded);
        } else if text::same_text(kind.as_str(), "mcp_instructions_delta") {
            let names = json::string_list(attachment.get("addedNames"));
            let ghost list = text::texts(names@);
            let mut i: usize = 0;
            while i < names.len()
                invariant
                    list == text::texts(names@),
                    i <= names@.len(),
                    self@ == (SessionView {
                        deltas: after_all_instructions(
                            old(self)@.deltas,
                            list,
                            text::text_opt(*at),
                            i as int,
                        ),
                        ..old(self)@
                    }),
                decreases names@.len() - i,
            {
                assert(list[i as int] == names@[i as int]@);
                self.add_instructions(names[i].as_str(), at);
                i = i + 1;
            }
        }
    }

    /// Takes in one entry of the transcript.
    pub fn observe_entry(&mut self, value: &Json)
        ensures
            final(self)@ == after_entry(old(self)@, value@),
    {
        if self.session_id.is_none() {
            self.session_id = value.get_text("sessionId");
        }
        let timestamp = value.get_text("timestamp");
        match value.get("attachment") {
            Some(attachment) => {
                self.observe_attachment(attachment, &timestamp);
            },
            None => {},
        }
    }

    /// Takes in one line of the transcript.
    pub fn observe_line(&mut self, line: &str)
        ensures
            final(self)@ == after_line(old(self)@, line@),
    {
        if !(text::contains(line, "deferred_tools_delta") || text::contains(
            line,
            "mcp_instructions_delta",
        )) {
            return;
        }
        match json::read_json(line) {
            Some(value) => {
                self.observe_entry(&value);
            },
            None => {},
        }
    }

    /// What the walk found.
    pub fn findings(&self, path: &str) -> (r: Vec<StaleResumeFinding>)
        ensures
            sorting::views(r@) == session_findings(path@, self@),
    {
        let keys = self.per_server.keys();
        let ghost names = text::texts(keys@);
        let ghost state = self@;
        assert(state.deltas.dom() =~= self.per_server@.dom());
        let mut out: Vec<StaleResumeFinding> = Vec::new();
        let mut i: usize = 0;
        assert(sorting::views(out@) =~= told(path@, state, names, 0));
        while i < keys.len()
            invariant
                i <= keys@.len(),
                names == text::texts(keys@),
                state == self@,
                text_map::lists(names, self.per_server@.dom()),
                sorting::views(out@) == told(path@, state, names, i as int),
            decreases keys@.len() - i,
        {
            let name = &keys[i];
            proof {
                assert(names[i as int] == name@);
                text_map::lemma_listed(names, self.per_server@.dom());
            }
            match self.per_server.get(name.as_str()) {
                Some(server) => {
                    if server.removed && !server.readded_after_removal
                        && server.instructions_readded {
                        let finding = StaleResumeFinding {
                            session_file: path.to_owned(),
                            session_id: text::copy_opt(&self.session_id),
                            server_name: name.clone(),
                            removed_at: text::copy_opt(&server.removed_at),
                        };
                        proof {
                            sorting::lemma_views_push(out@, finding);
                        }
                        out.push(finding);
                    }
                },
                None => {},
            }
            i = i + 1;
        }
        out
    }
}

/// What the lines of a transcript tell: the servers whose tools were removed and not added again
/// though their instructions came back.
pub fn analyze_session(path: &str, lines: &Vec<String>) -> (r: Vec<StaleResumeFinding>)
    ensures
        sorting::views(r@) == session_findings(
            path@,
            after_lines(text::texts(lines@), lines@.len() as int),
        ),
{
    let mut scan = SessionScan::new();
    let ghost all = text::texts(lines@);
    let mut i: usize = 0;
    while i < lines.len()
        invariant
            all == text::texts(lines@),
            i <= lines@.len(),
            scan@ == after_lines(all, i as int),
        decreases lines@.len() - i,
    {
        assert(all[i as int] == lines@[i as int]@);
        scan.observe_line(lines[i].as_str());
        i = i + 1;
    }
    scan.findings(path)
}

/// A transcript: where it stands, and its lines.
pub struct Transcript {
    pub path: String,
    pub lines: Vec<String>,
}

/// The findings on the first `n` transcripts, one transcript after another.
pub open spec fn all_findings(transcripts: Seq<Transcript>, n: int) -> Seq<FindingView>
    decreases n,
{
    if n <= 0 {
        Seq::empty()
    } else {
        let lines = text::texts(transcripts[n - 1].lines@);
        all_findings(transcripts, n - 1) + session_findings(
            transcripts[n - 1].path@,
            after_lines(lines, lines.len() as int),
        )
    }
}

/// The findings on transcripts, one transcript after another.
pub fn stale_resume_findings(transcripts: &Vec<Transcript>) -> (r: Vec<StaleResumeFinding>)
    ensures
        sorting::views(r@) == all_findings(transcripts@, transcripts@.len() as int),
{
    let mut out: Vec<StaleResumeFinding> = Vec::new();
    let mut i: usize = 0;
    assert(sorting::views(out@) =~= all_findings(transcripts@, 0));
    while i < transcripts.len()
        invariant
            i <= transcripts@.len(),
            sorting::views(out@) == all_findings(transcripts@, i as int),
        decreases transcripts@.len() - i,
    {
        let mut found = analyze_session(transcripts[i].path.as_str(), &transcripts[i].lines);
        let ghost before = out@;
        let ghost more = found@;
        out.append(&mut found);
        assert(sorting::views(out@) =~= sorting::views(before) + sorting::views(more));
        i = i + 1;
    }
    out
}

/// A transcript directory is named after a path character by character: slashes and dots become
/// dashes, every other character stays.
pub proof fn law_encoded_dirs_keep_characters(cwd: Seq<char>, i: int)
    requires
        0 <= i < cwd.len(),
    ensures
        cwd[i] != '/' && cwd[i] != '.' ==> encoded_dir(cwd)[i] == cwd[i],
        cwd[i] == '/' || cwd[i] == '.' ==> encoded_dir(cwd)[i] == '-',
{
}

/// The extension of a file is what follows the last dot of its name; a dot at its beginning makes
/// none, and a name without a dot has none.
pub proof fn law_extension_follows_the_last_dot(path: Seq<char>, stem: Seq<char>, end: Seq<char>)
    requires
        !end.contains('.'),
    ensures
        stem.len() > 0 && paths::name_of(path) == Some(stem + seq!['.'] + end) ==> extension_of(path)
            == Some(end),
        paths::name_of(path) == Some(seq!['.'] + end) ==> extension_of(path) is None,
        paths::name_of(path) == Some(end) ==> extension_of(path) is None,
        paths::name_of(path) is None ==> extension_of(path) is None,
{
    lemma_last_dot(stem, end, (stem.len() + 1 + end.len()) as int);
    let name = stem + seq!['.'] + end;
    assert(name.skip(stem.len() as int + 1) =~= end);
    let nothing = Seq::<char>::empty();
    lemma_last_dot(nothing, end, (1 + end.len()) as int);
    assert(nothing + seq!['.'] + end =~= seq!['.'] + end);
    lemma_no_dot(end, end.len() as int);
}

proof fn lemma_last_dot(stem: Seq<char>, end: Seq<char>, n: int)
    requires
        !end.contains('.'),
        stem.len() < n <= stem.len() + 1 + end.len(),
    ensures
        last_dot(stem + seq!['.'] + end, n) == Some(stem.len() as int),
    decreases n,
{
    let name = stem + seq!['.'] + end;
    if n - 1 > stem.len() {
        assert(name[n - 1] == end[n - 2 - stem.len()]);
        assert(end.contains(end[n - 2 - stem.len()]));
        lemma_last_dot(stem, end, n - 1);
    }
}

proof fn lemma_no_dot(name: Seq<char>, n: int)
    requires
        !name.contains('.'),
        n <= name.len(),
    ensures
        last_dot(name, n) is None,
    decreases n,
{
    if n > 0 {
        assert(name.contains(name[n - 1]));
        lemma_no_dot(name, n - 1);
    }
}

/// The transcripts that are read are files that end in `.jsonl`, at most as many as asked for, the
/// latest first; where one is left out, as many as asked for are read, and
/// it is no later than any of them.
pub proof fn law_recent_transcripts(
    files: Seq<SessionFileView>,
    max: int,
    j: int,
    k: int,
    other: SessionFileView,
)
    requires
        0 <= max,
    ensures
        ({
            let chosen = recent(files, max);
            &&& chosen.len() <= max
            &&& 0 <= j < k < chosen.len() ==> (chosen[j].modified_secs, chosen[j].modified_nanos) == (
                chosen[k].modified_secs,
                chosen[k].modified_nanos,
            ) || chosen[j].modified_secs > chosen[k].modified_secs || chosen[j].modified_secs
                == chosen[k].modified_secs && chosen[j].modified_nanos > chosen[k].modified_nanos
            &&& 0 <= j < chosen.len() ==> files.contains(chosen[j]) && extension_of(chosen[j].path)
                == Some("jsonl"@)
            &&& files.contains(other) && extension_of(other.path) == Some("jsonl"@)
                && !chosen.contains(other) ==> chosen.len() == max && (0 <= j < max
                ==> chosen[j].modified_secs > other.modified_secs || chosen[j].modified_secs
                == other.modified_secs && chosen[j].modified_nanos >= other.modified_nanos)
        }),
{
    let all = transcripts(files, files.len() as int);
    let sorted = sorting::stable_sorted::<SessionFile>(all);
    let chosen = recent(files, max);
    sorting::law_stable_sorted::<SessionFile>(all);
    if 0 <= j < k < chosen.len() {
        assert(chosen[j] == sorted[j] && chosen[k] == sorted[k]);
        assert(!SessionFile::goes_before(sorted[k], sorted[j]));
    }
    if 0 <= j < chosen.len() {
        assert(chosen[j] == sorted[j]);
        assert(sorted.contains(chosen[j]));
        sorting::law_sorting_keeps_elements::<SessionFile>(all, chosen[j]);
        lemma_transcripts(files, files.len() as int, chosen[j]);
    }
    if files.contains(other) && extension_of(other.path) == Some("jsonl"@) && !chosen.contains(
        other,
    ) {
        lemma_transcripts(files, files.len() as int, other);
        sorting::law_sorting_keeps_elements::<SessionFile>(all, other);
        let at = choose|at: int| 0 <= at < sorted.len() && sorted[at] == other;
        if at < chosen.len() {
            assert(chosen[at] == other);
        }
        if 0 <= j < max {
            assert(chosen[j] == sorted[j]);
            assert(!SessionFile::goes_before(sorted[at], sorted[j]));
        }
    }
}

proof fn lemma_transcripts(files: Seq<SessionFileView>, n: int, file: SessionFileView)
    requires
        0 <= n <= files.len(),
    ensures
        transcripts(files, n).contains(file) <==> (exists|i: int|
            0 <= i < n && #[trigger] files[i] == file) && extension_of(file.path) == Some(
            "jsonl"@,
        ),
    decreases n,
{
    if n > 0 {
        lemma_transcripts(files, n - 1, file);
        let before = transcripts(files, n - 1);
        let now = transcripts(files, n);
        if now.contains(file) {
            let i = choose|i: int| 0 <= i < now.len() && now[i] == file;
            if i < before.len() {
                assert(before[i] == file);
            } else {
                assert(files[n - 1] == file);
            }
        }
        if (exists|i: int| 0 <= i < n && #[trigger] files[i] == file) && extension_of(file.path)
            == Some("jsonl"@) {
            let i = choose|i: int| 0 <= i < n && #[trigger] files[i] == file;
            if i == n - 1 {
                assert(now[now.len() - 1] == file);
            } else {
                let k = choose|k: int| 0 <= k < before.len() && before[k] == file;
                assert(now[k] == file);
            }
        }
    }
}

/// A tool name is split into the server and the tool that it was put together from; a name that
/// does not begin with the mark of tool names is none.
pub proof fn law_tool_names_are_split_back(server: Seq<char>, tool: Seq<char>, other: Seq<char>)
    requires
        !text::has_text(server, "__"@),
        server.len() > 0 ==> server.last() != '_',
    ensures
        tool_name("mcp__"@ + server + "__"@ + tool) == Some((server, tool)),
        server_in("mcp__"@ + server + "__"@ + tool) == server,
        !text::begins_with(other, "mcp__"@) ==> tool_name(other) is None,
{
    reveal_strlit("mcp__");
    reveal_strlit("__");
    let name = "mcp__"@ + server + "__"@ + tool;
    let rest = name.skip(5);
    assert(name.subrange(0, 5) =~= "mcp__"@);
    assert(rest =~= server + "__"@ + tool);
    let n = server.len() as int;
    assert(rest.subrange(n, n + 2) =~= "__"@);
    text::lemma_first_from(rest, "__"@, 0);
    assert(text::occurs_at(rest, "__"@, n));
    let k = text::first_of(rest, "__"@)->0;
    if k < n {
        assert(rest.subrange(k, k + 2)[0] == '_');
        assert(rest.subrange(k, k + 2)[1] == '_');
        assert(rest[k] == server[k]);
        if k + 1 < n {
            assert(rest[k + 1] == server[k + 1]);
            assert(server.subrange(k, k + 2) =~= "__"@);
            assert(text::occurs_at(server, "__"@, k));
        } else {
            assert(server.last() == '_');
        }
    }
    assert(rest.take(n) =~= server);
    assert(rest.skip(n + 2) =~= tool);
}

/// A server belongs to the tools when their name stands anywhere in its own, in any case, and only
/// then.
pub proof fn law_servers_belong_by_name(server: Seq<char>)
    ensures
        is_artesian(server) <==> exists|i: int|
            0 <= i && i + 8 <= server.len() && text::lowered(#[trigger] server.subrange(i, i + 8))
                == "artesian"@,
{
    reveal_strlit("artesian");
    let low = text::lowered(server);
    assert forall|i: int| 0 <= i && i + 8 <= server.len() implies low.subrange(i, i + 8)
        == text::lowered(#[trigger] server.subrange(i, i + 8)) by {
        assert(low.subrange(i, i + 8) =~= text::lowered(server.subrange(i, i + 8)));
    }
    if is_artesian(server) {
        let i = choose|i: int| text::occurs_at(low, "artesian"@, i);
        assert(text::lowered(server.subrange(i, i + 8)) == "artesian"@);
    }
    if exists|i: int|
        0 <= i && i + 8 <= server.len() && text::lowered(#[trigger] server.subrange(i, i + 8))
            == "artesian"@ {
        let i = choose|i: int|
            0 <= i && i + 8 <= server.len() && text::lowered(#[trigger] server.subrange(i, i + 8))
                == "artesian"@;
        assert(text::occurs_at(low, "artesian"@, i));
    }
}

/// A session goes by the first name that one of its entries gives it.
pub proof fn law_first_session_name_stays(state: SessionView, line: Seq<char>)
    ensures
        state.session_id is Some ==> after_line(state, line).session_id == state.session_id,
        state.session_id is None && (text::has_text(line, "deferred_tools_delta"@)
            || text::has_text(line, "mcp_instructions_delta"@)) && json::json_document(line) is Some
            ==> after_line(state, line).session_id == json::field_text(
            json::json_document(line)->0,
            "sessionId"@,
        ),
        !text::has_text(line, "deferred_tools_delta"@) && !text::has_text(
            line,
            "mcp_instructions_delta"@,
        ) ==> after_line(state, line) == state,
{
}

/// The findings on a session tell its file and its name, and when the tools of the server that they
/// name were removed.
pub proof fn law_findings_tell_their_session(path: Seq<char>, state: SessionView, f: int)
    requires
        0 <= f < session_findings(path, state).len(),
    ensures
        ({
            let finding = session_findings(path, state)[f];
            &&& finding.session_file == path
            &&& finding.session_id == state.session_id
            &&& finding.removed_at == state.deltas[finding.server_name].removed_at
            &&& state.deltas[finding.server_name].removed
            &&& !state.deltas[finding.server_name].readded_after_removal
            &&& state.deltas[finding.server_name].instructions_readded
        }),
{
    let names = text_map::listing(state.deltas.dom());
    lemma_told_session(path, state, names, names.len() as int, f);
}

proof fn lemma_told_session(
    path: Seq<char>,
    state: SessionView,
    names: Seq<Seq<char>>,
    n: int,
    f: int,
)
    requires
        0 <= f < told(path, state, names, n).len(),
    ensures
        ({
            let finding = told(path, state, names, n)[f];
            &&& finding.session_file == path
            &&& finding.session_id == state.session_id
            &&& finding.removed_at == state.deltas[finding.server_name].removed_at
            &&& is_stale(state.deltas[finding.server_name])
        }),
    decreases n,
{
    let before = told(path, state, names, n - 1);
    if f < before.len() {
        lemma_told_session(path, state, names, n - 1, f);
    }
}

/// The findings on transcripts are those on each of them: every one on any of them, and no other.
pub proof fn law_findings_cover_all_transcripts(
    transcripts: Seq<Transcript>,
    n: int,
    finding: FindingView,
)
    requires
        0 <= n <= transcripts.len(),
    ensures
        all_findings(transcripts, n).contains(finding) <==> exists|i: int|
            0 <= i < n && findings_on(#[trigger] transcripts[i]).contains(finding),
    decreases n,
{
    if n > 0 {
        law_findings_cover_all_transcripts(transcripts, n - 1, finding);
        let before = all_findings(transcripts, n - 1);
        let last = findings_on(transcripts[n - 1]);
        let now = all_findings(transcripts, n);
        assert(now =~= before + last);
        if now.contains(finding) {
            let k = choose|k: int| 0 <= k < now.len() && now[k] == finding;
            if k < before.len() {
                assert(before[k] == finding);
            } else {
                assert(last[k - before.len()] == finding);
                assert(findings_on(transcripts[n - 1]).contains(finding));
            }
        }
        if exists|i: int| 0 <= i < n && findings_on(#[trigger] transcripts[i]).contains(finding) {
            let i = choose|i: int|
                0 <= i < n && findings_on(#[trigger] transcripts[i]).contains(finding);
            if i == n - 1 {
                let k = choose|k: int| 0 <= k < last.len() && last[k] == finding;
                assert(now[before.len() + k] == finding);
            } else {
                let k = choose|k: int| 0 <= k < before.len() && before[k] == finding;
                assert(now[k] == finding);
            }
        }
    }
}

/// The findings on one transcript.
pub open spec fn findings_on(transcript: Transcript) -> Seq<FindingView> {
    let lines = text::texts(transcript.lines@);
    session_findings(transcript.path@, after_lines(lines, lines.len() as int))
}

} // verus!
