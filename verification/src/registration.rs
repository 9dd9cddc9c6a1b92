//! Where the memory server can be registered with an MCP client, what is registered there, and
//! whether a registration may be written.

use vstd::prelude::*;
use crate::assistant::Assistant;
use crate::json;
use crate::json::{Json, JsonView, FieldView};
use crate::paths;
use crate::sorting;
use crate::text;
use crate::text::CharClass;
use crate::text_map;
use crate::text_map::TextMap;
use crate::toml_doc;
use crate::toml_doc::{EntryView, Toml, TomlView};
use crate::update::VersionProbe;

verus! {

/// What marks a path into a versioned Homebrew cellar.
pub const CELLAR_MARKER: &'static str = "/Cellar/artesian/";

/// The path that Homebrew keeps pointing at the installed version.
pub const CELLAR_STABLE_PATH: &'static str = "/opt/homebrew/opt/artesian/bin/artesian-mcp";

// ---------------------------------------------------------------------------------------------
// Sources
// ---------------------------------------------------------------------------------------------

/// The kind of a registration file.
#[derive(Debug, Clone, Copy, PartialEq, Eq, Structural)]
pub enum RegistrationKind {
    ClaudeProject,
    ClaudeUser,
    Codex,
    Zed,
}

/// A file that can hold a registration.
#[derive(Debug, Clone, PartialEq, Eq)]
pub struct RegistrationSource {
    pub label: String,
    pub path: String,
    pub kind: RegistrationKind,
}

/// What a registration file is.
#[verifier::ext_equal]
pub struct SourceView {
    pub label: Seq<char>,
    pub path: Seq<char>,
    pub kind: RegistrationKind,
}

impl View for RegistrationSource {
    type V = SourceView;

    open spec fn view(&self) -> SourceView {
        SourceView { label: self.label@, path: self.path@, kind: self.kind }
    }
}

/// The files that can hold a registration: one in the project, two below the home directory where
/// it is known, and the Zed settings where they are known.
pub open spec fn source_list(
    assistant: Assistant,
    home: Option<Seq<char>>,
    zed_settings: Option<Seq<char>>,
) -> Seq<SourceView> {
    let project = seq![
        SourceView {
            label: assistant.product@ + " (project .mcp.json)"@,
            path: ".mcp.json"@,
            kind: RegistrationKind::ClaudeProject,
        },
    ];
    let user = match home {
        Some(home) => project.push(
            SourceView {
                label: assistant.product@ + " (user ~/"@ + assistant.file_name() + ")"@,
                path: paths::joined(home, assistant.file_name()),
                kind: RegistrationKind::ClaudeUser,
            },
        ).push(
            SourceView {
                label: "Codex"@,
                path: paths::joined(paths::joined(home, ".codex"@), "config.toml"@),
                kind: RegistrationKind::Codex,
            },
        ),
        None => project,
    };
    match zed_settings {
        Some(path) => user.push(
            SourceView { label: "Zed"@, path, kind: RegistrationKind::Zed },
        ),
        None => user,
    }
}

/// The files that can hold a registration.
pub fn registration_sources(
    assistant: &Assistant,
    home: Option<&str>,
    zed_settings: Option<&str>,
) -> (r: Vec<RegistrationSource>)
    ensures
        sorting::views(r@) == source_list(
            *assistant,
            text::str_opt(home),
            text::str_opt(zed_settings),
        ),
{
    let mut project_label = assistant.product.clone();
    project_label.append(" (project .mcp.json)");
    let mut sources: Vec<RegistrationSource> = Vec::new();
    sources.push(
        RegistrationSource {
            label: project_label,
            path: ".mcp.json".to_owned(),
            kind: RegistrationKind::ClaudeProject,
        },
    );
    match home {
        Some(home) => {
            let file = assistant.registration_file();
            let mut user_label = assistant.product.clone();
            user_label.append(" (user ~/");
            user_label.append(file.as_str());
            user_label.append(")");
            sources.push(
                RegistrationSource {
                    label: user_label,
                    path: paths::join(home, file.as_str()),
                    kind: RegistrationKind::ClaudeUser,
                },
            );
            sources.push(
                RegistrationSource {
                    label: "Codex".to_owned(),
                    path: paths::join(paths::join(home, ".codex").as_str(), "config.toml"),
                    kind: RegistrationKind::Codex,
                },
            );
        },
        None => {},
    }
    match zed_settings {
        Some(path) => {
            sources.push(
                RegistrationSource {
                    label: "Zed".to_owned(),
                    path: path.to_owned(),
                    kind: RegistrationKind::Zed,
                },
            );
        },
        None => {},
    }
    assert(sorting::views(sources@) =~= source_list(
        *assistant,
        text::str_opt(home),
        text::str_opt(zed_settings),
    ));
    sources
}

// ---------------------------------------------------------------------------------------------
// Entries
// ---------------------------------------------------------------------------------------------

/// How a registered server is started.
pub struct RawServerEntry {
    pub command: String,
    pub args: Vec<String>,
    pub env: TextMap<String>,
}

/// What a registered server is started with.
#[verifier::ext_equal]
pub struct ServerView {
    pub command: Seq<char>,
    pub args: Seq<Seq<char>>,
    pub env: Map<Seq<char>, Seq<char>>,
}

impl View for RawServerEntry {
    type V = ServerView;

    open spec fn view(&self) -> ServerView {
        ServerView {
            command: self.command@,
            args: text::texts(self.args@),
            env: text_map::views(self.env@),
        }
    }
}

/// The servers of a map by name.
pub open spec fn servers(m: Map<Seq<char>, RawServerEntry>) -> Map<Seq<char>, ServerView> {
    text_map::views(m)
}

impl RawServerEntry {
    /// A copy of the entry.
    pub fn copy(&self) -> (r: Self)
        ensures
            r@ == self@,
    {
        RawServerEntry {
            command: self.command.clone(),
            args: text::copy_strings(&self.args),
            env: text_map::copy_texts(&self.env),
        }
    }

    /// Whether two entries start a server in the same way: the same command, arguments and
    /// environment.
    pub fn same_launch(&self, other: &Self) -> (r: bool)
        ensures
            r == (self@ == other@),
    {
        let command = text::same_text(self.command.as_str(), other.command.as_str());
        let args = text::same_texts(&self.args, &other.args);
        let env = text_map::same_entries(&self.env, &other.env);
        command && args && env
    }
}

/// The string fields among the first `n`.
pub open spec fn string_fields(fields: Seq<FieldView>, n: int) -> Map<Seq<char>, Seq<char>>
    decreases n,
{
    if n <= 0 {
        Map::empty()
    } else {
        match fields[n - 1].value {
            JsonView::Text(s) => string_fields(fields, n - 1).insert(fields[n - 1].key, s),
            _ => string_fields(fields, n - 1),
        }
    }
}

/// The entry that a JSON value describes: its command, under either of two names, its string
/// arguments and its string variables.
pub open spec fn json_entry(value: JsonView) -> ServerView {
    ServerView {
        command: match json::field_text(value, "command"@) {
            Some(command) => command,
            None => match json::field_text(value, "path"@) {
                Some(path) => path,
                None => Seq::empty(),
            },
        },
        args: json::strings_of(json::field(value, "args"@)),
        env: match json::field(value, "env"@) {
            Some(JsonView::Object(fields)) => string_fields(fields, fields.len() as int),
            _ => Map::empty(),
        },
    }
}

fn json_env(value: Option<&Json>) -> (r: TextMap<String>)
    ensures
        text_map::views(r@) == match json::json_opt(value) {
            Some(JsonView::Object(fields)) => string_fields(fields, fields.len() as int),
            _ => Map::empty(),
        },
{
    let mut env: TextMap<String> = TextMap::new();
    proof {
        text_map::lemma_views_empty::<String>();
    }
    match value {
        Some(object) => {
            proof {
                json::lemma_kinds(*object);
            }
            match object {
                Json::Object(fields) => {
                    let ghost all = object@->Object_0;
                    let mut i: usize = 0;
                    while i < fields.len()
                        invariant
                            i <= fields@.len(),
                            all == json::field_views(fields@),
                            text_map::views(env@) == string_fields(all, i as int),
                        decreases fields@.len() - i,
                    {
                        proof {
                            json::lemma_kinds(fields@[i as int].1);
                        }
                        match &fields[i].1 {
                            Json::Text(s) => {
                                proof {
                                    text_map::lemma_views_insert(env@, fields@[i as int].0@, *s);
                                }
                                env.insert(fields[i].0.clone(), s.clone());
                            },
                            _ => {},
                        }
                        i = i + 1;
                    }
                    env
                },
                _ => env,
            }
        },
        None => env,
    }
}

/// The entry that a JSON value describes.
pub fn raw_entry_from_json(entry: &Json) -> (r: RawServerEntry)
    ensures
        r@ == json_entry(entry@),
{
    let command = match entry.get_text("command") {
        Some(command) => command,
        None => match entry.get_text("path") {
            Some(path) => path,
            None => String::new(),
        },
    };
    assert(command@ =~= json_entry(entry@).command);
    let args = json::string_list(entry.get("args"));
    let env = json_env(entry.get("env"));
    RawServerEntry { command, args, env }
}

/// The servers described by the first `n` fields of an object.
pub open spec fn json_servers(fields: Seq<FieldView>, zed: bool, n: int) -> Map<
    Seq<char>,
    ServerView,
>
    decreases n,
{
    if n <= 0 {
        Map::empty()
    } else {
        json_servers(fields, zed, n - 1).insert(
            fields[n - 1].key,
            json_entry(server_value(fields[n - 1].value, zed)),
        )
    }
}

/// The value that describes how a server is started: the value itself, or in the Zed settings its
/// `command` field.
pub open spec fn server_value(value: JsonView, zed: bool) -> JsonView {
    if zed {
        match json::field(value, "command"@) {
            Some(command) => command,
            None => JsonView::Null,
        }
    } else {
        value
    }
}

/// The servers of a JSON document, under the name that the kind of file uses.
pub open spec fn document_servers(root: JsonView, zed: bool) -> Map<Seq<char>, ServerView> {
    match json::field(root, if zed { "context_servers"@ } else { "mcpServers"@ }) {
        Some(JsonView::Object(fields)) => json_servers(fields, zed, fields.len() as int),
        _ => Map::empty(),
    }
}

/// The servers of a JSON document.
pub fn json_document_servers(root: &Json, zed: bool) -> (r: TextMap<RawServerEntry>)
    ensures
        servers(r@) == document_servers(root@, zed),
{
    let mut out: TextMap<RawServerEntry> = TextMap::new();
    proof {
        text_map::lemma_views_empty::<RawServerEntry>();
    }
    let found = if zed {
        root.get("context_servers")
    } else {
        root.get("mcpServers")
    };
    match found {
        Some(object) => {
            proof {
                json::lemma_kinds(*object);
            }
            match object {
                Json::Object(fields) => {
                    let ghost all = object@->Object_0;
                    let mut i: usize = 0;
                    while i < fields.len()
                        invariant
                            i <= fields@.len(),
                            all == json::field_views(fields@),
                            servers(out@) == json_servers(all, zed, i as int),
                        decreases fields@.len() - i,
                    {
                        let entry = if zed {
                            match fields[i].1.get("command") {
                                Some(command) => raw_entry_from_json(command),
                                None => raw_entry_from_json(&Json::Null),
                            }
                        } else {
                            raw_entry_from_json(&fields[i].1)
                        };
                        proof {
                            text_map::lemma_views_insert(out@, fields@[i as int].0@, entry);
                        }
                        out.insert(fields[i].0.clone(), entry);
                        i = i + 1;
                    }
                    out
                },
                _ => out,
            }
        },
        None => out,
    }
}

/// The string entries among the first `n`.
pub open spec fn string_entries(entries: Seq<EntryView>, n: int) -> Map<Seq<char>, Seq<char>>
    decreases n,
{
    if n <= 0 {
        Map::empty()
    } else {
        match entries[n - 1].value {
            TomlView::Text(s) => string_entries(entries, n - 1).insert(entries[n - 1].key, s),
            _ => string_entries(entries, n - 1),
        }
    }
}

/// The entry that a TOML table describes.
pub open spec fn toml_entry(item: TomlView) -> ServerView {
    ServerView {
        command: match toml_doc::text_of(toml_doc::entry(item, "command"@)) {
            Some(command) => command,
            None => Seq::empty(),
        },
        args: toml_doc::strings_of(toml_doc::entry(item, "args"@)),
        env: match toml_doc::entry(item, "env"@) {
            Some(table) => match toml_doc::entries_of(table) {
                Some(entries) => string_entries(entries, entries.len() as int),
                None => Map::empty(),
            },
            None => Map::empty(),
        },
    }
}

fn toml_env(item: Option<&Toml>) -> (r: TextMap<String>)
    ensures
        text_map::views(r@) == match toml_doc::toml_opt(item) {
            Some(table) => match toml_doc::entries_of(table) {
                Some(entries) => string_entries(entries, entries.len() as int),
                None => Map::empty(),
            },
            None => Map::empty(),
        },
{
    let mut env: TextMap<String> = TextMap::new();
    proof {
        text_map::lemma_views_empty::<String>();
    }
    match item {
        Some(table) => match table.as_table_like() {
            Some(entries) => {
                let ghost all = toml_doc::entry_views(entries@);
                let mut i: usize = 0;
                while i < entries.len()
                    invariant
                        i <= entries@.len(),
                        all == toml_doc::entry_views(entries@),
                        text_map::views(env@) == string_entries(all, i as int),
                    decreases entries@.len() - i,
                {
                    proof {
                        toml_doc::lemma_table(entries@[i as int].1);
                    }
                    match &entries[i].1 {
                        Toml::Text(s) => {
                            proof {
                                text_map::lemma_views_insert(env@, entries@[i as int].0@, *s);
                            }
                            env.insert(entries[i].0.clone(), s.clone());
                        },
                        _ => {},
                    }
                    i = i + 1;
                }
                env
            },
            None => env,
        },
        None => env,
    }
}

fn raw_entry_from_toml(item: &Toml) -> (r: RawServerEntry)
    ensures
        r@ == toml_entry(item@),
{
    let command = match item.get("command") {
        Some(value) => match value.as_str() {
            Some(command) => command.to_owned(),
            None => String::new(),
        },
        None => String::new(),
    };
    assert(command@ =~= toml_entry(item@).command);
    let args = toml_doc::string_list(item.get("args"));
    let env = toml_env(item.get("env"));
    RawServerEntry { command, args, env }
}

/// The servers described by the first `n` entries of a table.
pub open spec fn toml_servers(entries: Seq<EntryView>, n: int) -> Map<Seq<char>, ServerView>
    decreases n,
{
    if n <= 0 {
        Map::empty()
    } else {
        toml_servers(entries, n - 1).insert(
            entries[n - 1].key,
            toml_entry(entries[n - 1].value),
        )
    }
}

/// The servers of a Codex configuration: those of its `mcp_servers` table, which an inline table
/// does not stand for.
pub open spec fn codex_document_servers(root: TomlView) -> Map<Seq<char>, ServerView> {
    match toml_doc::entry(root, "mcp_servers"@) {
        Some(TomlView::Table(entries)) => toml_servers(entries, entries.len() as int),
        _ => Map::empty(),
    }
}

/// The servers of a Codex configuration.
pub fn codex_servers(root: &Toml) -> (r: TextMap<RawServerEntry>)
    ensures
        servers(r@) == codex_document_servers(root@),
{
    let mut out: TextMap<RawServerEntry> = TextMap::new();
    proof {
        text_map::lemma_views_empty::<RawServerEntry>();
    }
    match root.get("mcp_servers") {
        Some(item) => {
            proof {
                toml_doc::lemma_table(*item);
            }
            match item {
                Toml::Table(entries) => {
                    let ghost all = toml_doc::entry_views(entries@);
                    let mut i: usize = 0;
                    while i < entries.len()
                        invariant
                            i <= entries@.len(),
                            all == toml_doc::entry_views(entries@),
                            servers(out@) == toml_servers(all, i as int),
                        decreases entries@.len() - i,
                    {
                        let entry = raw_entry_from_toml(&entries[i].1);
                        proof {
                            text_map::lemma_views_insert(out@, entries@[i as int].0@, entry);
                        }
                        out.insert(entries[i].0.clone(), entry);
                        i = i + 1;
                    }
                    out
                },
                _ => out,
            }
        },
        None => out,
    }
}

/// The servers in the text of a registration file. A text that cannot be read holds none.
pub open spec fn text_servers(kind: RegistrationKind, content: Seq<char>) -> Map<
    Seq<char>,
    ServerView,
> {
    match kind {
        RegistrationKind::Codex => match toml_doc::toml_document(content) {
            Some(root) => codex_document_servers(root),
            None => Map::empty(),
        },
        _ => match json::json_document(content) {
            Some(root) => document_servers(root, kind == RegistrationKind::Zed),
            None => Map::empty(),
        },
    }
}

/// The servers in a registration file; a file that could not be read holds none.
pub open spec fn file_servers(kind: RegistrationKind, content: Option<Seq<char>>) -> Map<
    Seq<char>,
    ServerView,
> {
    match content {
        Some(content) => text_servers(kind, content),
        None => Map::empty(),
    }
}

/// The servers of a registration file of the assistant.
pub fn read_claude_style_json(content: &str) -> (r: TextMap<RawServerEntry>)
    ensures
        servers(r@) == text_servers(RegistrationKind::ClaudeUser, content@),
{
    match json::read_json(content) {
        Some(root) => json_document_servers(&root, false),
        None => empty_servers(),
    }
}

/// The servers of a Zed settings file.
pub fn read_zed_json(content: &str) -> (r: TextMap<RawServerEntry>)
    ensures
        servers(r@) == text_servers(RegistrationKind::Zed, content@),
{
    match json::read_json(content) {
        Some(root) => json_document_servers(&root, true),
        None => empty_servers(),
    }
}

/// The servers of a Codex configuration file.
pub fn read_codex_toml(content: &str) -> (r: TextMap<RawServerEntry>)
    ensures
        servers(r@) == text_servers(RegistrationKind::Codex, content@),
{
    match toml_doc::read_toml(content) {
        Some(root) => codex_servers(&root),
        None => empty_servers(),
    }
}

fn empty_servers() -> (r: TextMap<RawServerEntry>)
    ensures
        servers(r@) == Map::<Seq<char>, ServerView>::empty(),
{
    proof {
        text_map::lemma_views_empty::<RawServerEntry>();
    }
    TextMap::new()
}

/// The servers in a registration file, from what could be read of it.
pub fn read_entries(source: &RegistrationSource, content: Option<&str>) -> (r: TextMap<
    RawServerEntry,
>)
    ensures
        servers(r@) == file_servers(source.kind, text::str_opt(content)),
{
    match content {
        Some(content) => match source.kind {
            RegistrationKind::ClaudeProject => read_claude_style_json(content),
            RegistrationKind::ClaudeUser => read_claude_style_json(content),
            RegistrationKind::Codex => read_codex_toml(content),
            RegistrationKind::Zed => read_zed_json(content),
        },
        None => empty_servers(),
    }
}

/// The command registered for a server, when there is one that is not empty.
pub open spec fn command_for(found: Map<Seq<char>, ServerView>, name: Seq<char>) -> Option<
    Seq<char>,
> {
    if found.dom().contains(name) && found[name].command.len() > 0 {
        Some(found[name].command)
    } else {
        None
    }
}

/// The command that is registered for a server in a registration file.
pub fn existing_command_for(
    source: &RegistrationSource,
    content: Option<&str>,
    server_name: &str,
) -> (r: Option<String>)
    ensures
        text::text_opt(r) == command_for(
            file_servers(source.kind, text::str_opt(content)),
            server_name@,
        ),
{
    let entries = read_entries(source, content);
    registered_command(&entries, server_name)
}

/// The command of a named entry, when it is not empty.
pub fn registered_command(entries: &TextMap<RawServerEntry>, server_name: &str) -> (r: Option<
    String,
>)
    ensures
        text::text_opt(r) == command_for(servers(entries@), server_name@),
{
    match entries.get(server_name) {
        Some(entry) => if entry.command.as_str().is_empty() {
            None
        } else {
            Some(entry.command.clone())
        },
        None => None,
    }
}

// ---------------------------------------------------------------------------------------------
// Commands
// ---------------------------------------------------------------------------------------------

/// The program that a line of a script hands over to, quotes aside.
pub open spec fn exec_token(line: Seq<char>) -> Option<Seq<char>> {
    let trimmed = text::bare(line);
    if text::begins_with(trimmed, "exec "@) {
        let words = text::words(trimmed.skip("exec "@.len() as int));
        if words.len() > 0 {
            Some(text::trimmed(words[0], CharClass::Only('"')))
        } else {
            None
        }
    } else {
        None
    }
}

/// The program that the last such line among the first `n` hands over to.
pub open spec fn last_exec(lines: Seq<Seq<char>>, n: int) -> Option<Seq<char>>
    decreases n,
{
    if n <= 0 {
        None
    } else {
        match exec_token(lines[n - 1]) {
            Some(token) => Some(token),
            None => last_exec(lines, n - 1),
        }
    }
}

/// The program that a script finally runs. Only a text that begins like a script is one.
pub open spec fn exec_target(content: Seq<char>) -> Option<Seq<char>> {
    if text::begins_with(content, "#!"@) {
        let lines = text::lines_of(content);
        last_exec(lines, lines.len() as int)
    } else {
        None
    }
}

fn line_exec_token(line: &str) -> (r: Option<String>)
    ensures
        text::text_opt(r) == exec_token(line@),
{
    let trimmed = text::trim(line);
    match text::strip_prefix(trimmed.as_str(), "exec ") {
        Some(rest) => {
            let words = text::split_whitespace(rest.as_str());
            assert(text::texts(words@).len() == words@.len());
            if words.len() > 0 {
                assert(text::texts(words@)[0] == words@[0]@);
                Some(text::trim_class(words[0].as_str(), CharClass::Only('"')))
            } else {
                None
            }
        },
        None => None,
    }
}

/// The program that a script finally runs, from the text of the script.
pub fn script_exec_target(content: &str) -> (r: Option<String>)
    ensures
        text::text_opt(r) == exec_target(content@),
{
    if !text::starts_with(content, "#!") {
        return None;
    }
    let lines = text::lines(content);
    let ghost all = text::lines_of(content@);
    let mut n: usize = lines.len();
    while n > 0
        invariant
            text::texts(lines@) == all,
            n <= lines@.len(),
            last_exec(all, all.len() as int) == last_exec(all, n as int),
            exec_target(content@) == last_exec(all, all.len() as int),
        decreases n,
    {
        assert(all[n - 1] == lines@[n - 1]@);
        match line_exec_token(lines[n - 1].as_str()) {
            Some(token) => {
                return Some(token);
            },
            None => {},
        }
        n = n - 1;
    }
    None
}

/// Whether a path leads into a versioned Homebrew cellar.
pub fn is_cellar_pinned(path: &str) -> (r: bool)
    ensures
        r == text::has_text(path@, CELLAR_MARKER@),
{
    text::contains(path, CELLAR_MARKER)
}

/// The command to register: the stable path when this program runs from a cellar and the stable
/// path is there, otherwise the default.
pub fn resolve_registration_command(
    default_command: &str,
    current_exe: Option<&str>,
    stable_path_exists: bool,
) -> (r: String)
    ensures
        r@ == (if current_exe is Some && text::has_text(current_exe->0@, CELLAR_MARKER@)
            && stable_path_exists {
            CELLAR_STABLE_PATH@
        } else {
            default_command@
        }),
{
    match current_exe {
        Some(exe) => if is_cellar_pinned(exe) && stable_path_exists {
            CELLAR_STABLE_PATH.to_owned()
        } else {
            default_command.to_owned()
        },
        None => default_command.to_owned(),
    }
}

/// What to do about a registration.
#[derive(Debug, Clone, PartialEq, Eq)]
pub enum RegistrationAction {
    /// Write the entry. `replaced_stale` tells that one was there whose command does not work.
    Write { replaced_stale: bool },
    /// Leave an entry alone that works and names another command.
    Skip { existing_command: String },
}

/// What to do about a registration: an entry that works and names another command stays.
/// `still_works` tells whether the existing command resolves to something executable.
pub fn plan_registration(existing: Option<&str>, new_command: &str, still_works: bool) -> (r:
    RegistrationAction)
    ensures
        match existing {
            None => r == (RegistrationAction::Write { replaced_stale: false }),
            Some(command) => if command@ == new_command@ {
                r == (RegistrationAction::Write { replaced_stale: false })
            } else if still_works {
                r is Skip && r->existing_command@ == command@
            } else {
                r == (RegistrationAction::Write { replaced_stale: true })
            },
        },
{
    match existing {
        None => RegistrationAction::Write { replaced_stale: false },
        Some(command) => if text::same_text(command, new_command) {
            RegistrationAction::Write { replaced_stale: false }
        } else if still_works {
            RegistrationAction::Skip { existing_command: command.to_owned() }
        } else {
            RegistrationAction::Write { replaced_stale: true }
        },
    }
}

/// The version in a version line: what follows the last space.
pub open spec fn version_part(full: Seq<char>) -> Seq<char> {
    text::bare(text::pieces(full, ' ').last())
}

/// The version in a version line: what follows the last space.
pub fn version_token(full: &str) -> (r: String)
    ensures
        r@ == version_part(full@),
{
    let pieces = text::split_char(full, ' ');
    assert(text::texts(pieces@).last() == pieces@.last()@);
    text::trim(pieces[pieces.len() - 1].as_str())
}

/// A short word on the version of a command, from what asking for it gave.
pub fn probe_version_label(probe: Option<&VersionProbe>) -> (r: String)
    ensures
        r@ == (match probe {
            Some(VersionProbe::Found(line)) => version_part(line@),
            Some(VersionProbe::Failed(message)) => "error: "@ + message@,
            _ => "not found"@,
        }),
{
    match probe {
        Some(VersionProbe::Found(line)) => version_token(line.as_str()),
        Some(VersionProbe::Failed(message)) => {
            let mut out = "error: ".to_owned();
            out.append(message.as_str());
            out
        },
        _ => "not found".to_owned(),
    }
}

/// The program that a registration finally runs: through one script, and resolved where it can be.
pub open spec fn target_of(
    command: Seq<char>,
    resolved: Option<Seq<char>>,
    script_target: Option<Seq<char>>,
    target_resolved: Option<Seq<char>>,
) -> Seq<char> {
    match resolved {
        None => command,
        Some(path) => match script_target {
            None => path,
            Some(target) => match target_resolved {
                Some(target_path) => target_path,
                None => target,
            },
        },
    }
}

/// The program that a registration finally runs.
pub fn final_target(
    command: &str,
    resolved: Option<&str>,
    script_target: Option<&str>,
    target_resolved: Option<&str>,
) -> (r: String)
    ensures
        r@ == target_of(
            command@,
            text::str_opt(resolved),
            text::str_opt(script_target),
            text::str_opt(target_resolved),
        ),
{
    match resolved {
        None => command.to_owned(),
        Some(path) => match script_target {
            None => path.to_owned(),
            Some(target) => match target_resolved {
                Some(target_path) => target_path.to_owned(),
                None => target.to_owned(),
            },
        },
    }
}

// ---------------------------------------------------------------------------------------------
// Inventory
// ---------------------------------------------------------------------------------------------

/// A registration of the memory server.
pub struct McpRegistrationEntry {
    pub source_label: String,
    pub server_name: String,
    pub entry: RawServerEntry,
}

/// An entry belongs to the tools: by its name, by the name of its program, or by the program that
/// its script runs.
pub open spec fn looks_artesian(
    name: Seq<char>,
    command: Seq<char>,
    script_target: Option<Seq<char>>,
) -> bool {
    ||| text::has_text(text::lowered(name), "artesian"@)
    ||| paths::name_of(command) is Some && text::has_text(
        paths::name_of(command)->0,
        "artesian-mcp"@,
    )
    ||| script_target is Some && text::has_text(script_target->0, "artesian-mcp"@)
}

/// Whether an entry belongs to the tools.
pub fn is_artesian_like(name: &str, entry: &RawServerEntry, script_target: Option<&str>) -> (r:
    bool)
    ensures
        r == looks_artesian(name@, entry.command@, text::str_opt(script_target)),
{
    let lower = text::to_ascii_lowercase(name);
    if text::contains(lower.as_str(), "artesian") {
        return true;
    }
    match paths::file_name(entry.command.as_str()) {
        Some(base) => {
            if text::contains(base.as_str(), "artesian-mcp") {
                return true;
            }
        },
        None => {},
    }
    match script_target {
        Some(target) => text::contains(target, "artesian-mcp"),
        None => false,
    }
}

/// A registration with its source.
#[verifier::ext_equal]
pub struct RegistrationView {
    pub source_label: Seq<char>,
    pub server_name: Seq<char>,
    pub entry: ServerView,
}

impl View for McpRegistrationEntry {
    type V = RegistrationView;

    open spec fn view(&self) -> RegistrationView {
        RegistrationView {
            source_label: self.source_label@,
            server_name: self.server_name@,
            entry: self.entry@,
        }
    }
}

/// The script target known for a command.
pub open spec fn known_target(targets: Map<Seq<char>, String>, command: Seq<char>) -> Option<
    Seq<char>,
> {
    if targets.dom().contains(command) {
        Some(targets[command]@)
    } else {
        None
    }
}

/// The registrations among the first `n` names of a source.
pub open spec fn kept(
    label: Seq<char>,
    names: Seq<Seq<char>>,
    entries: Map<Seq<char>, ServerView>,
    targets: Map<Seq<char>, String>,
    n: int,
) -> Seq<RegistrationView>
    decreases n,
{
    if n <= 0 {
        Seq::empty()
    } else {
        let before = kept(label, names, entries, targets, n - 1);
        let name = names[n - 1];
        let entry = entries[name];
        if looks_artesian(name, entry.command, known_target(targets, entry.command)) {
            before.push(RegistrationView { source_label: label, server_name: name, entry })
        } else {
            before
        }
    }
}

/// The registrations of one source that belong to the tools, in the order of their names.
pub open spec fn source_kept(
    label: Seq<char>,
    entries: Map<Seq<char>, ServerView>,
    targets: Map<Seq<char>, String>,
) -> Seq<RegistrationView> {
    let names = text_map::listing(entries.dom());
    kept(label, names, entries, targets, names.len() as int)
}

/// Adds the registrations of one source that belong to the tools.
fn add_registrations(
    out: &mut Vec<McpRegistrationEntry>,
    source_label: &str,
    entries: &TextMap<RawServerEntry>,
    targets: &TextMap<String>,
)
    ensures
        sorting::views(final(out)@) == sorting::views(old(out)@) + source_kept(
            source_label@,
            servers(entries@),
            targets@,
        ),
{
    let keys = entries.keys();
    let ghost start = sorting::views(out@);
    let ghost views = servers(entries@);
    let ghost names = text::texts(keys@);
    assert(views.dom() =~= entries@.dom());
    let mut i: usize = 0;
    assert(start + kept(source_label@, names, views, targets@, 0) =~= start);
    while i < keys.len()
        invariant
            i <= keys@.len(),
            names == text::texts(keys@),
            views == servers(entries@),
            text_map::lists(names, entries@.dom()),
            sorting::views(out@) == start + kept(
                source_label@,
                names,
                views,
                targets@,
                i as int,
            ),
        decreases keys@.len() - i,
    {
        let name = &keys[i];
        proof {
            assert(names[i as int] == name@);
            text_map::lemma_listed(names, entries@.dom());
        }
        match entries.get(name.as_str()) {
            Some(entry) => {
                let target = match targets.get(entry.command.as_str()) {
                    Some(target) => Some(target.as_str()),
                    None => None,
                };
                if is_artesian_like(name.as_str(), entry, target) {
                    let found = McpRegistrationEntry {
                        source_label: source_label.to_owned(),
                        server_name: name.clone(),
                        entry: entry.copy(),
                    };
                    proof {
                        sorting::lemma_views_push(out@, found);
                    }
                    out.push(found);
                }
            },
            None => {},
        }
        i = i + 1;
        assert(sorting::views(out@) =~= start + kept(
            source_label@,
            names,
            views,
            targets@,
            i as int,
        ));
    }
}

/// What a source holds: the text of its file, where there is one.
pub struct SourceText {
    pub source: RegistrationSource,
    pub content: Option<String>,
}

/// The registrations of the first `n` sources that belong to the tools.
pub open spec fn all_kept(
    sources: Seq<SourceText>,
    targets: Map<Seq<char>, String>,
    n: int,
) -> Seq<RegistrationView>
    decreases n,
{
    if n <= 0 {
        Seq::empty()
    } else {
        all_kept(sources, targets, n - 1) + source_kept(
            sources[n - 1].source.label@,
            file_servers(
                sources[n - 1].source.kind,
                text::text_opt(sources[n - 1].content),
            ),
            targets,
        )
    }
}

/// The registrations that belong to the tools, source by source and in the order of their names.
/// `targets` says which program the script behind a command runs, for the commands that are
/// scripts.
pub fn collect_registrations(sources: &Vec<SourceText>, targets: &TextMap<String>) -> (r: Vec<
    McpRegistrationEntry,
>)
    ensures
        sorting::views(r@) == all_kept(sources@, targets@, sources@.len() as int),
{
    let mut out: Vec<McpRegistrationEntry> = Vec::new();
    let mut i: usize = 0;
    assert(sorting::views(out@) =~= all_kept(sources@, targets@, 0));
    while i < sources.len()
        invariant
            i <= sources@.len(),
            sorting::views(out@) == all_kept(sources@, targets@, i as int),
        decreases sources@.len() - i,
    {
        let content = match &sources[i].content {
            Some(content) => Some(content.as_str()),
            None => None,
        };
        let entries = read_entries(&sources[i].source, content);
        add_registrations(&mut out, sources[i].source.label.as_str(), &entries, targets);
        i = i + 1;
    }
    out
}

/// Every registration that is found belongs to the tools.
pub proof fn law_registrations_belong(
    sources: Seq<SourceText>,
    targets: Map<Seq<char>, String>,
    n: int,
    i: int,
)
    requires
        0 <= n <= sources.len(),
        0 <= i < all_kept(sources, targets, n).len(),
    ensures
        ({
            let found = all_kept(sources, targets, n)[i];
            looks_artesian(
                found.server_name,
                found.entry.command,
                known_target(targets, found.entry.command),
            )
        }),
    decreases n,
{
    let before = all_kept(sources, targets, n - 1);
    if i < before.len() {
        law_registrations_belong(sources, targets, n - 1, i);
    } else {
        let label = sources[n - 1].source.label@;
        let entries = file_servers(
            sources[n - 1].source.kind,
            text::text_opt(sources[n - 1].content),
        );
        let names = text_map::listing(entries.dom());
        lemma_kept_belong(label, names, entries, targets, names.len() as int, i - before.len());
    }
}

proof fn lemma_kept_belong(
    label: Seq<char>,
    names: Seq<Seq<char>>,
    entries: Map<Seq<char>, ServerView>,
    targets: Map<Seq<char>, String>,
    n: int,
    i: int,
)
    requires
        0 <= i < kept(label, names, entries, targets, n).len(),
    ensures
        ({
            let found = kept(label, names, entries, targets, n)[i];
            looks_artesian(
                found.server_name,
                found.entry.command,
                known_target(targets, found.entry.command),
            )
        }),
    decreases n,
{
    let before = kept(label, names, entries, targets, n - 1);
    if i < before.len() {
        lemma_kept_belong(label, names, entries, targets, n - 1, i);
    }
}

/// Files of the project and of the user hold the same servers when they have the same text.
pub proof fn law_project_and_user_files_read_alike(content: Option<Seq<char>>)
    ensures
        file_servers(RegistrationKind::ClaudeProject, content) == file_servers(
            RegistrationKind::ClaudeUser,
            content,
        ),
{
}

/// A JSON registration file holds a server for each named field of its first `mcpServers` object (in
/// Zed `context_servers`), and no other; of two fields with one name the last counts. In Zed the
/// server is described by the `command` field of that field.
pub proof fn law_json_file_servers(
    kind: RegistrationKind,
    content: Seq<char>,
    root: Seq<FieldView>,
    p: int,
    fields: Seq<FieldView>,
    k: int,
)
    requires
        kind != RegistrationKind::Codex,
        json::json_document(content) == Some(JsonView::Object(root)),
        0 <= p < root.len(),
        root[p].key == (if kind == RegistrationKind::Zed {
            "context_servers"@
        } else {
            "mcpServers"@
        }),
        forall|j: int| 0 <= j < p ==> (#[trigger] root[j]).key != root[p].key,
        root[p].value == JsonView::Object(fields),
        0 <= k < fields.len(),
        forall|j: int| k < j < fields.len() ==> (#[trigger] fields[j]).key != fields[k].key,
    ensures
        ({
            let found = file_servers(kind, Some(content));
            &&& found.dom().contains(fields[k].key)
            &&& kind != RegistrationKind::Zed ==> found[fields[k].key] == json_entry(
                fields[k].value,
            )
            &&& kind == RegistrationKind::Zed ==> (match json::field(
                fields[k].value,
                "command"@,
            ) {
                Some(command) => found[fields[k].key] == json_entry(command),
                None => found[fields[k].key].command.len() == 0,
            })
            &&& forall|name: Seq<char>| #[trigger]
                found.dom().contains(name) ==> exists|j: int|
                    0 <= j < fields.len() && (#[trigger] fields[j]).key == name
        }),
{
    json::law_first_field_with_the_key(root, root[p].key, p);
    let zed = kind == RegistrationKind::Zed;
    lemma_json_servers(fields, zed, fields.len() as int, k);
    assert(file_servers(kind, Some(content)) == json_servers(fields, zed, fields.len() as int));
}

proof fn lemma_json_servers(fields: Seq<FieldView>, zed: bool, n: int, k: int)
    requires
        0 <= n <= fields.len(),
        forall|j: int| k < j < n ==> (#[trigger] fields[j]).key != fields[k].key,
    ensures
        json_servers(fields, zed, n).dom().finite(),
        0 <= k < n ==> json_servers(fields, zed, n).dom().contains(fields[k].key),
        0 <= k < n ==> json_servers(fields, zed, n)[fields[k].key] == json_entry(
            server_value(fields[k].value, zed),
        ),
        forall|name: Seq<char>| #[trigger]
            json_servers(fields, zed, n).dom().contains(name) ==> exists|j: int|
                0 <= j < n && (#[trigger] fields[j]).key == name,
    decreases n,
{
    if n > 0 {
        let before = json_servers(fields, zed, n - 1);
        lemma_json_servers(fields, zed, n - 1, k);
        assert forall|name: Seq<char>| #[trigger]
            json_servers(fields, zed, n).dom().contains(name) implies exists|j: int|
            0 <= j < n && (#[trigger] fields[j]).key == name by {
            if name == fields[n - 1].key {
                assert(fields[n - 1].key == name);
            } else {
                assert(before.dom().contains(name));
            }
        }
    }
}

/// A Codex configuration holds a server for each named entry of its first `mcp_servers` table, and no
/// other; of two entries with one name the last counts.
pub proof fn law_codex_file_servers(
    content: Seq<char>,
    root: Seq<EntryView>,
    p: int,
    entries: Seq<EntryView>,
    k: int,
)
    requires
        toml_doc::toml_document(content) == Some(TomlView::Table(root)),
        0 <= p < root.len(),
        root[p].key == "mcp_servers"@,
        forall|j: int| 0 <= j < p ==> (#[trigger] root[j]).key != "mcp_servers"@,
        root[p].value == TomlView::Table(entries),
        0 <= k < entries.len(),
        forall|j: int| k < j < entries.len() ==> (#[trigger] entries[j]).key != entries[k].key,
    ensures
        ({
            let found = file_servers(RegistrationKind::Codex, Some(content));
            &&& found.dom().contains(entries[k].key)
            &&& found[entries[k].key] == toml_entry(entries[k].value)
            &&& forall|name: Seq<char>| #[trigger]
                found.dom().contains(name) ==> exists|j: int|
                    0 <= j < entries.len() && (#[trigger] entries[j]).key == name
        }),
{
    toml_doc::law_first_entry_with_the_key(root, "mcp_servers"@, p);
    lemma_toml_servers(entries, entries.len() as int, k);
}

proof fn lemma_toml_servers(entries: Seq<EntryView>, n: int, k: int)
    requires
        0 <= n <= entries.len(),
        forall|j: int| k < j < n ==> (#[trigger] entries[j]).key != entries[k].key,
    ensures
        toml_servers(entries, n).dom().finite(),
        0 <= k < n ==> toml_servers(entries, n).dom().contains(entries[k].key),
        0 <= k < n ==> toml_servers(entries, n)[entries[k].key] == toml_entry(entries[k].value),
        forall|name: Seq<char>| #[trigger]
            toml_servers(entries, n).dom().contains(name) ==> exists|j: int|
                0 <= j < n && (#[trigger] entries[j]).key == name,
    decreases n,
{
    if n > 0 {
        let before = toml_servers(entries, n - 1);
        lemma_toml_servers(entries, n - 1, k);
        assert forall|name: Seq<char>| #[trigger]
            toml_servers(entries, n).dom().contains(name) implies exists|j: int|
            0 <= j < n && (#[trigger] entries[j]).key == name by {
            if name == entries[n - 1].key {
                assert(entries[n - 1].key == name);
            } else {
                assert(before.dom().contains(name));
            }
        }
    }
}

proof fn lemma_file_servers_finite(kind: RegistrationKind, content: Option<Seq<char>>)
    ensures
        file_servers(kind, content).dom().finite(),
{
    match content {
        Some(content) => match kind {
            RegistrationKind::Codex => match toml_doc::toml_document(content) {
                Some(root) => match toml_doc::entry(root, "mcp_servers"@) {
                    Some(TomlView::Table(entries)) => {
                        lemma_toml_servers(entries, entries.len() as int, entries.len() as int);
                    },
                    _ => {},
                },
                None => {},
            },
            _ => match json::json_document(content) {
                Some(root) => {
                    let zed = kind == RegistrationKind::Zed;
                    match json::field(
                        root,
                        if zed {
                            "context_servers"@
                        } else {
                            "mcpServers"@
                        },
                    ) {
                        Some(JsonView::Object(fields)) => {
                            lemma_json_servers(
                                fields,
                                zed,
                                fields.len() as int,
                                fields.len() as int,
                            );
                        },
                        _ => {},
                    }
                },
                None => {},
            },
        },
        None => {},
    }
}

/// The inventory is complete: for every source whose text holds a server that belongs to the tools,
/// by its name, its program or the program of its script, that server is among the registrations,
/// with the label of that source and started as that source says.
pub proof fn law_inventory_is_complete(
    sources: Seq<SourceText>,
    targets: Map<Seq<char>, String>,
    i: int,
    name: Seq<char>,
)
    requires
        0 <= i < sources.len(),
        ({
            let found = file_servers(sources[i].source.kind, text::text_opt(sources[i].content));
            let program = paths::name_of(found[name].command);
            &&& found.dom().contains(name)
            &&& {
                ||| text::has_text(text::lowered(name), "artesian"@)
                ||| program is Some && text::has_text(program->0, "artesian-mcp"@)
                ||| targets.dom().contains(found[name].command) && text::has_text(
                    targets[found[name].command]@,
                    "artesian-mcp"@,
                )
            }
        }),
    ensures
        ({
            let all = all_kept(sources, targets, sources.len() as int);
            let found = file_servers(sources[i].source.kind, text::text_opt(sources[i].content));
            exists|r: int|
                0 <= r < all.len() && (#[trigger] all[r]).source_label == sources[i].source.label@
                    && all[r].server_name == name && all[r].entry == found[name]
        }),
{
    let found = file_servers(sources[i].source.kind, text::text_opt(sources[i].content));
    let label = sources[i].source.label@;
    let names = text_map::listing(found.dom());
    let all = all_kept(sources, targets, sources.len() as int);
    lemma_file_servers_finite(sources[i].source.kind, text::text_opt(sources[i].content));
    text_map::lemma_listing_exists(found.dom());
    text_map::lemma_listed(names, found.dom());
    let j = choose|j: int| 0 <= j < names.len() && names[j] == name;
    let r = lemma_kept_holds(label, names, found, targets, names.len() as int, j);
    let at = lemma_all_kept_holds(sources, targets, sources.len() as int, i, r);
    assert(all[at].server_name == name);
}

proof fn lemma_kept_holds(
    label: Seq<char>,
    names: Seq<Seq<char>>,
    entries: Map<Seq<char>, ServerView>,
    targets: Map<Seq<char>, String>,
    n: int,
    j: int,
) -> (r: int)
    requires
        0 <= j < n <= names.len(),
        looks_artesian(
            names[j],
            entries[names[j]].command,
            known_target(targets, entries[names[j]].command),
        ),
    ensures
        0 <= r < kept(label, names, entries, targets, n).len(),
        kept(label, names, entries, targets, n)[r] == (RegistrationView {
            source_label: label,
            server_name: names[j],
            entry: entries[names[j]],
        }),
    decreases n,
{
    if j == n - 1 {
        kept(label, names, entries, targets, n - 1).len() as int
    } else {
        lemma_kept_holds(label, names, entries, targets, n - 1, j)
    }
}

proof fn lemma_all_kept_holds(
    sources: Seq<SourceText>,
    targets: Map<Seq<char>, String>,
    n: int,
    i: int,
    r: int,
) -> (at: int)
    requires
        0 <= i < n <= sources.len(),
        0 <= r < source_kept(
            sources[i].source.label@,
            file_servers(sources[i].source.kind, text::text_opt(sources[i].content)),
            targets,
        ).len(),
    ensures
        0 <= at < all_kept(sources, targets, n).len(),
        all_kept(sources, targets, n)[at] == source_kept(
            sources[i].source.label@,
            file_servers(sources[i].source.kind, text::text_opt(sources[i].content)),
            targets,
        )[r],
    decreases n,
{
    if i == n - 1 {
        all_kept(sources, targets, n - 1).len() + r
    } else {
        lemma_all_kept_holds(sources, targets, n - 1, i, r)
    }
}

/// The inventory invents nothing: every registration stands, under its name and as it is started,
/// in the file of a source with its label, and belongs to the tools.
pub proof fn law_inventory_invents_nothing(
    sources: Seq<SourceText>,
    targets: Map<Seq<char>, String>,
    n: int,
    r: int,
)
    requires
        0 <= n <= sources.len(),
        0 <= r < all_kept(sources, targets, n).len(),
    ensures
        ({
            let one = all_kept(sources, targets, n)[r];
            let program = paths::name_of(one.entry.command);
            &&& exists|i: int|
                0 <= i < n && (#[trigger] sources[i]).source.label@ == one.source_label && ({
                    let found = file_servers(
                        sources[i].source.kind,
                        text::text_opt(sources[i].content),
                    );
                    found.dom().contains(one.server_name) && found[one.server_name] == one.entry
                })
            &&& {
                ||| text::has_text(text::lowered(one.server_name), "artesian"@)
                ||| program is Some && text::has_text(program->0, "artesian-mcp"@)
                ||| targets.dom().contains(one.entry.command) && text::has_text(
                    targets[one.entry.command]@,
                    "artesian-mcp"@,
                )
            }
        }),
    decreases n,
{
    law_registrations_belong(sources, targets, n, r);
    let before = all_kept(sources, targets, n - 1);
    if r < before.len() {
        law_inventory_invents_nothing(sources, targets, n - 1, r);
    } else {
        let source = sources[n - 1];
        let found = file_servers(source.source.kind, text::text_opt(source.content));
        let names = text_map::listing(found.dom());
        lemma_file_servers_finite(source.source.kind, text::text_opt(source.content));
        text_map::lemma_listing_exists(found.dom());
        text_map::lemma_listed(names, found.dom());
        lemma_kept_stems(
            source.source.label@,
            names,
            found,
            targets,
            names.len() as int,
            r - before.len(),
        );
        assert(sources[n - 1].source.label@ == all_kept(sources, targets, n)[r].source_label);
    }
}

proof fn lemma_kept_stems(
    label: Seq<char>,
    names: Seq<Seq<char>>,
    entries: Map<Seq<char>, ServerView>,
    targets: Map<Seq<char>, String>,
    n: int,
    r: int,
)
    requires
        0 <= n <= names.len(),
        0 <= r < kept(label, names, entries, targets, n).len(),
        forall|i: int| 0 <= i < names.len() ==> entries.dom().contains(#[trigger] names[i]),
    ensures
        ({
            let one = kept(label, names, entries, targets, n)[r];
            &&& one.source_label == label
            &&& entries.dom().contains(one.server_name)
            &&& entries[one.server_name] == one.entry
        }),
    decreases n,
{
    let before = kept(label, names, entries, targets, n - 1);
    if r < before.len() {
        lemma_kept_stems(label, names, entries, targets, n - 1, r);
    } else {
        assert(entries.dom().contains(names[n - 1]));
    }
}

/// A source without a readable text holds no server: it adds nothing to the inventory.
pub proof fn law_unreadable_source_adds_nothing(
    sources: Seq<SourceText>,
    targets: Map<Seq<char>, String>,
    n: int,
)
    requires
        0 < n <= sources.len(),
        match sources[n - 1].content {
            Some(content) => if sources[n - 1].source.kind == RegistrationKind::Codex {
                toml_doc::toml_document(content@) is None
            } else {
                json::json_document(content@) is None
            },
            None => true,
        },
    ensures
        all_kept(sources, targets, n) == all_kept(sources, targets, n - 1),
{
    let nothing = Map::<Seq<char>, ServerView>::empty();
    let names = text_map::listing(nothing.dom());
    text_map::lemma_listing_exists(nothing.dom());
    text_map::lemma_listed(names, nothing.dom());
    if names.len() > 0 {
        assert(nothing.dom().contains(names[0]));
    }
    assert(all_kept(sources, targets, n) =~= all_kept(sources, targets, n - 1));
}

/// A JSON entry names its program by `command`, and by `path` only where `command` is no string;
/// where neither is a string the program is empty.
pub proof fn law_json_entry_program(value: JsonView)
    ensures
        match (json::field(value, "command"@), json::field(value, "path"@)) {
            (Some(JsonView::Text(command)), _) => json_entry(value).command == command,
            (_, Some(JsonView::Text(path))) => json_entry(value).command == path,
            _ => json_entry(value).command.len() == 0,
        },
        json_entry(value).args == json::strings_of(json::field(value, "args"@)),
        json::field(value, "env"@) is None ==> json_entry(value).env.dom().is_empty(),
{
}

/// A Codex entry names its program by `command` alone.
pub proof fn law_codex_entry_program(item: TomlView)
    ensures
        match toml_doc::entry(item, "command"@) {
            Some(TomlView::Text(command)) => toml_entry(item).command == command,
            _ => toml_entry(item).command.len() == 0,
        },
        toml_entry(item).args == toml_doc::strings_of(toml_doc::entry(item, "args"@)),
        toml_doc::entry(item, "env"@) is None ==> toml_entry(item).env.dom().is_empty(),
{
}

/// The command registered for a server is the program of its entry, where there is one that is not
/// empty.
pub proof fn law_registered_command(found: Map<Seq<char>, ServerView>, name: Seq<char>)
    ensures
        command_for(found, name) is Some <==> found.dom().contains(name)
            && found[name].command.len() > 0,
        command_for(found, name) is Some ==> command_for(found, name)->0 == found[name].command,
{
}

/// A line that begins with `exec` and a blank, white space around it aside, hands over to the word that
/// follows, and quotes around that word are no part of it; a line that begins otherwise hands over to
/// nothing.
pub proof fn law_exec_line_names_its_program(line: Seq<char>, program: Seq<char>, rest: Seq<char>)
    requires
        text::is_word(program),
        program[0] != '"',
        program.last() != '"',
        rest.len() > 0 ==> text::is_space(rest[0]),
    ensures
        text::bare(line) == "exec "@ + program + rest ==> exec_token(line) == Some(program),
        text::bare(line) == "exec "@ + "\""@ + program + "\""@ + rest ==> exec_token(line) == Some(
            program,
        ),
        !text::begins_with(text::bare(line), "exec "@) ==> exec_token(line) is None,
{
    reveal_strlit("\"");
    let quote = "\""@;
    let class = CharClass::Only('"');
    let bare = text::bare(line);
    let n = "exec "@.len() as int;
    let nothing = Seq::<char>::empty();
    if bare == "exec "@ + program + rest {
        assert(bare.subrange(0, n) =~= "exec "@);
        assert(bare.skip(n) =~= program + rest);
        text::lemma_first_word(program, rest);
        text::lemma_trimmed_stays(program, class);
    }
    if bare == "exec "@ + quote + program + quote + rest {
        let quoted = quote + program + quote;
        assert(bare.subrange(0, n) =~= "exec "@);
        assert(bare.skip(n) =~= quoted + rest);
        assert forall|i: int| 0 <= i < quoted.len() implies !text::is_space(
            #[trigger] quoted[i],
        ) by {
            if 1 <= i <= program.len() {
                assert(quoted[i] == program[i - 1]);
            }
        }
        text::lemma_first_word(quoted, rest);
        crate::text_laws::law_trimming_keeps_the_middle(quote, program, quote, class);
    }
}

/// A script runs the program of its last line that hands over to one; a text that does not begin
/// like a script runs none.
pub proof fn law_script_runs_its_last_exec(content: Seq<char>, k: int, program: Seq<char>)
    requires
        0 <= k < text::lines_of(content).len(),
        exec_token(text::lines_of(content)[k]) == Some(program),
        forall|j: int|
            k < j < text::lines_of(content).len() ==> exec_token(
                #[trigger] text::lines_of(content)[j],
            ) is None,
    ensures
        text::begins_with(content, "#!"@) ==> exec_target(content) == Some(program),
        !text::begins_with(content, "#!"@) ==> exec_target(content) is None,
{
    let lines = text::lines_of(content);
    lemma_last_exec(lines, lines.len() as int, k);
}

proof fn lemma_last_exec(lines: Seq<Seq<char>>, n: int, k: int)
    requires
        0 <= k < n <= lines.len(),
        exec_token(lines[k]) is Some,
        forall|j: int| k < j < n ==> exec_token(#[trigger] lines[j]) is None,
    ensures
        last_exec(lines, n) == exec_token(lines[k]),
    decreases n,
{
    if k < n - 1 {
        assert(exec_token(lines[n - 1]) is None);
        lemma_last_exec(lines, n - 1, k);
    }
}

/// The version in a version line is its last word; a line of one word is its own version.
pub proof fn law_version_is_the_last_word(front: Seq<char>, version: Seq<char>)
    requires
        text::is_word(version),
    ensures
        version_part(front + " "@ + version) == version,
        version_part(version) == version,
{
    reveal_strlit(" ");
    assert(" "@ =~= seq![' ']);
    assert(!version.contains(' ')) by {
        assert forall|i: int| 0 <= i < version.len() implies version[i] != ' ' by {
            assert(!text::is_space(version[i]));
        }
    }
    let class = CharClass::Only(' ');
    text::lemma_span_bound(version, class);
    let n = text::span_outside(version, class);
    if n < version.len() {
        assert(version.contains(version[n]));
    }
    assert(text::pieces(version, ' ') =~= seq![version]);
    paths::lemma_pieces_concat(front, ' ', version);
    text::lemma_trimmed_stays(version, CharClass::Space);
}

/// A registration runs its command where that is not found, the command as it was found where it is no
/// script, and the program of the script, as found where it is, where it is one: never the script.
pub proof fn law_registration_runs_through_its_script(
    command: Seq<char>,
    path: Seq<char>,
    program: Seq<char>,
    program_path: Seq<char>,
    script: Option<Seq<char>>,
    found: Option<Seq<char>>,
)
    ensures
        target_of(command, None, script, found) == command,
        target_of(command, Some(path), None, found) == path,
        target_of(command, Some(path), Some(program), None) == program,
        target_of(command, Some(path), Some(program), Some(program_path)) == program_path,
{
}

/// The project's registration file is always looked at, and first; the user's file and the Codex
/// configuration when the home directory is known, each below it; the Zed settings, last, when they
/// are known.
pub proof fn law_registration_files(
    assistant: Assistant,
    home: Option<Seq<char>>,
    zed_settings: Option<Seq<char>>,
)
    requires
        home is Some ==> home->0.len() > 0,
    ensures
        ({
            let list = source_list(assistant, home, zed_settings);
            &&& list[0].kind == RegistrationKind::ClaudeProject
            &&& list[0].path == ".mcp.json"@
            &&& list[0].label == assistant.product@ + " (project .mcp.json)"@
            &&& list.len() == 1 + (if home is Some {
                2int
            } else {
                0
            }) + (if zed_settings is Some {
                1int
            } else {
                0
            })
            &&& home is Some ==> {
                &&& list[1].kind == RegistrationKind::ClaudeUser
                &&& list[1].path == paths::joined(home->0, "."@ + assistant.slug@ + ".json"@)
                &&& list[1].label == assistant.product@ + " (user ~/"@ + ("."@ + assistant.slug@
                    + ".json"@) + ")"@
                &&& list[2].kind == RegistrationKind::Codex
                &&& list[2].label == "Codex"@
                &&& paths::parts_of(list[2].path) == paths::parts_of(home->0).push(
                    paths::PartView::Normal(".codex"@),
                ).push(paths::PartView::Normal("config.toml"@))
            }
            &&& zed_settings is Some ==> {
                &&& list.last().kind == RegistrationKind::Zed
                &&& list.last().label == "Zed"@
                &&& list.last().path == zed_settings->0
            }
        }),
{
    if home is Some {
        reveal_strlit(".codex");
        reveal_strlit("config.toml");
        reveal_strlit(".");
        reveal_strlit("..");
        let base = home->0;
        let folder = paths::joined(base, ".codex"@);
        paths::law_name_below_a_directory(base, ".codex"@);
        paths::law_name_below_a_directory(folder, "config.toml"@);
    }
}

/// The variables of a JSON entry are the string fields of its `env` object, of two with one name the
/// last; a field that is no string is none.
pub proof fn law_json_entry_variables(value: JsonView, fields: Seq<FieldView>, k: int, name: Seq<char>)
    requires
        json::field(value, "env"@) == Some(JsonView::Object(fields)),
        0 <= k < fields.len(),
        fields[k].value is Text,
        forall|j: int|
            k < j < fields.len() ==> (#[trigger] fields[j]).key != fields[k].key
                || !(fields[j].value is Text),
    ensures
        json_entry(value).env.dom().contains(fields[k].key),
        json_entry(value).env[fields[k].key] == fields[k].value->Text_0,
        json_entry(value).env.dom().contains(name) <==> exists|j: int|
            0 <= j < fields.len() && (#[trigger] fields[j]).key == name && fields[j].value is Text,
{
    lemma_string_fields(fields, fields.len() as int, k, name);
}

proof fn lemma_string_fields(fields: Seq<FieldView>, n: int, k: int, name: Seq<char>)
    requires
        0 <= n <= fields.len(),
        0 <= k < fields.len(),
        fields[k].value is Text,
        forall|j: int|
            k < j < n ==> (#[trigger] fields[j]).key != fields[k].key || !(fields[j].value is Text),
    ensures
        k < n ==> string_fields(fields, n).dom().contains(fields[k].key),
        k < n ==> string_fields(fields, n)[fields[k].key] == fields[k].value->Text_0,
        string_fields(fields, n).dom().contains(name) <==> exists|j: int|
            0 <= j < n && (#[trigger] fields[j]).key == name && fields[j].value is Text,
    decreases n,
{
    if n > 0 {
        lemma_string_fields(fields, n - 1, k, name);
        let before = string_fields(fields, n - 1);
        if string_fields(fields, n).dom().contains(name) {
            if fields[n - 1].value is Text && fields[n - 1].key == name {
                assert(fields[n - 1].key == name);
            } else {
                assert(before.dom().contains(name));
            }
        }
    }
}

/// The variables of a Codex entry are the string entries of its `env` table of either kind, of two
/// with one name the last; an entry that is no string is none.
pub proof fn law_codex_entry_variables(
    item: TomlView,
    entries: Seq<EntryView>,
    k: int,
    name: Seq<char>,
)
    requires
        toml_doc::entry(item, "env"@) == Some(TomlView::Table(entries)) || toml_doc::entry(
            item,
            "env"@,
        ) == Some(TomlView::Inline(entries)),
        0 <= k < entries.len(),
        entries[k].value is Text,
        forall|j: int|
            k < j < entries.len() ==> (#[trigger] entries[j]).key != entries[k].key
                || !(entries[j].value is Text),
    ensures
        toml_entry(item).env.dom().contains(entries[k].key),
        toml_entry(item).env[entries[k].key] == entries[k].value->Text_0,
        toml_entry(item).env.dom().contains(name) <==> exists|j: int|
            0 <= j < entries.len() && (#[trigger] entries[j]).key == name
                && entries[j].value is Text,
{
    lemma_string_entries(entries, entries.len() as int, k, name);
}

proof fn lemma_string_entries(entries: Seq<EntryView>, n: int, k: int, name: Seq<char>)
    requires
        0 <= n <= entries.len(),
        0 <= k < entries.len(),
        entries[k].value is Text,
        forall|j: int|
            k < j < n ==> (#[trigger] entries[j]).key != entries[k].key || !(
            entries[j].value is Text),
    ensures
        k < n ==> string_entries(entries, n).dom().contains(entries[k].key),
        k < n ==> string_entries(entries, n)[entries[k].key] == entries[k].value->Text_0,
        string_entries(entries, n).dom().contains(name) <==> exists|j: int|
            0 <= j < n && (#[trigger] entries[j]).key == name && entries[j].value is Text,
    decreases n,
{
    if n > 0 {
        lemma_string_entries(entries, n - 1, k, name);
        let before = string_entries(entries, n - 1);
        if string_entries(entries, n).dom().contains(name) {
            if entries[n - 1].value is Text && entries[n - 1].key == name {
                assert(entries[n - 1].key == name);
            } else {
                assert(before.dom().contains(name));
            }
        }
    }
}

} // verus!
