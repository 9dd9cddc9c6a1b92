//! Setting up a project: which agents are there, which of them takes which role, and what is said
//! of it; and the plain settings of the status display and of the sandbox.

use vstd::prelude::*;
use crate::agent::SpawnRequest;
use crate::assistant::Assistant;
use crate::sorting;
use crate::text;

verus! {

// ---------------------------------------------------------------------------------------------
// Agents
// ---------------------------------------------------------------------------------------------

/// The name of the command line tool of an assistant.
pub open spec fn code_command(assistant: Assistant) -> Seq<char> {
    assistant.slug@ + "-code"@
}

fn code_command_of(assistant: &Assistant) -> (r: String)
    ensures
        r@ == code_command(*assistant),
{
    let mut out = assistant.slug.clone();
    out.append("-code");
    out
}

/// The commands of the agents that are looked for.
pub open spec fn known(assistant: Assistant) -> Seq<Seq<char>> {
    seq![
        assistant.slug@,
        code_command(assistant),
        "codex"@,
        "gemini"@,
        "opencode"@,
        "ollama"@,
    ]
}

/// The commands of the agents that are looked for.
pub fn known_agents(assistant: &Assistant) -> (r: Vec<String>)
    ensures
        text::texts(r@) == known(*assistant),
{
    let r: Vec<String> = vec![
        assistant.slug.clone(),
        code_command_of(assistant),
        "codex".to_owned(),
        "gemini".to_owned(),
        "opencode".to_owned(),
        "ollama".to_owned(),
    ];
    assert(text::texts(r@) =~= known(*assistant));
    r
}

/// The first from `i` on of the preferred names that was detected.
pub open spec fn picked_from(
    detected: Seq<Seq<char>>,
    preferred: Seq<Seq<char>>,
    i: int,
) -> Option<Seq<char>>
    decreases preferred.len() - i,
{
    if i < 0 || i >= preferred.len() {
        None
    } else if detected.contains(preferred[i]) {
        Some(preferred[i])
    } else {
        picked_from(detected, preferred, i + 1)
    }
}

/// The first of the preferred names that was detected.
pub open spec fn picked(detected: Seq<Seq<char>>, preferred: Seq<Seq<char>>) -> Option<Seq<char>> {
    picked_from(detected, preferred, 0)
}

fn has_name(names: &Vec<String>, name: &str) -> (r: bool)
    ensures
        r == text::texts(names@).contains(name@),
{
    let ghost all = text::texts(names@);
    let mut i: usize = 0;
    while i < names.len()
        invariant
            all == text::texts(names@),
            i <= names@.len(),
            forall|j: int| 0 <= j < i ==> (#[trigger] all[j]) != name@,
        decreases names@.len() - i,
    {
        assert(all[i as int] == names@[i as int]@);
        if text::same_text(names[i].as_str(), name) {
            return true;
        }
        i = i + 1;
    }
    false
}

/// The first of the preferred names that was detected.
pub fn pick(detected: &Vec<String>, preferred: &Vec<String>) -> (r: Option<String>)
    ensures
        text::text_opt(r) == picked(text::texts(detected@), text::texts(preferred@)),
{
    let ghost found = text::texts(detected@);
    let ghost wanted = text::texts(preferred@);
    let mut i: usize = 0;
    while i < preferred.len()
        invariant
            found == text::texts(detected@),
            wanted == text::texts(preferred@),
            i <= preferred@.len(),
            picked(found, wanted) == picked_from(found, wanted, i as int),
        decreases preferred@.len() - i,
    {
        assert(wanted[i as int] == preferred@[i as int]@);
        if has_name(detected, preferred[i].as_str()) {
            return Some(preferred[i].clone());
        }
        i = i + 1;
    }
    None
}

/// A pick is one of the preferred names and was detected, and nothing that was preferred to it
/// was; and there is a pick whenever one of the preferred names was detected.
pub proof fn law_pick_is_the_best(detected: Seq<Seq<char>>, preferred: Seq<Seq<char>>)
    ensures
        match picked(detected, preferred) {
            Some(name) => exists|k: int|
                0 <= k < preferred.len() && #[trigger] preferred[k] == name && detected.contains(name)
                    && forall|j: int| 0 <= j < k ==> !detected.contains(#[trigger] preferred[j]),
            None => forall|j: int|
                0 <= j < preferred.len() ==> !detected.contains(#[trigger] preferred[j]),
        },
{
    lemma_picked_from(detected, preferred, 0);
}

proof fn lemma_picked_from(detected: Seq<Seq<char>>, preferred: Seq<Seq<char>>, i: int)
    requires
        0 <= i <= preferred.len(),
    ensures
        match picked_from(detected, preferred, i) {
            Some(name) => exists|k: int|
                i <= k < preferred.len() && #[trigger] preferred[k] == name && detected.contains(name)
                    && forall|j: int| i <= j < k ==> !detected.contains(#[trigger] preferred[j]),
            None => forall|j: int|
                i <= j < preferred.len() ==> !detected.contains(#[trigger] preferred[j]),
        },
    decreases preferred.len() - i,
{
    if i < preferred.len() {
        if detected.contains(preferred[i]) {
            assert(preferred[i] == picked_from(detected, preferred, i)->0);
        } else {
            lemma_picked_from(detected, preferred, i + 1);
        }
    }
}

/// The roles that agents are bound to.
#[derive(Debug, Clone, Copy, PartialEq, Eq, Structural)]
pub enum BindingRole {
    Master,
    Worker,
    Judge,
}

/// An agent for a role.
#[derive(Debug, Clone, PartialEq, Eq)]
pub struct AgentBinding {
    pub role: BindingRole,
    pub agent: String,
    pub model: Option<String>,
}

/// An agent for a role.
#[verifier::ext_equal]
pub struct BindingView {
    pub role: BindingRole,
    pub agent: Seq<char>,
    pub model: Option<Seq<char>>,
}

impl View for AgentBinding {
    type V = BindingView;

    open spec fn view(&self) -> BindingView {
        BindingView { role: self.role, agent: self.agent@, model: text::text_opt(self.model) }
    }
}

/// The agents that a role prefers, the best first.
pub open spec fn preference(assistant: Assistant, role: BindingRole) -> Seq<Seq<char>> {
    match role {
        BindingRole::Master => seq![code_command(assistant), assistant.slug@, "codex"@],
        BindingRole::Worker => seq!["codex"@, "opencode"@, assistant.slug@],
        BindingRole::Judge => seq![code_command(assistant), assistant.slug@, "gemini"@, "codex"@],
    }
}

fn preferred_for(assistant: &Assistant, role: BindingRole) -> (r: Vec<String>)
    ensures
        text::texts(r@) == preference(*assistant, role),
{
    let r: Vec<String> = match role {
        BindingRole::Master => vec![
            code_command_of(assistant),
            assistant.slug.clone(),
            "codex".to_owned(),
        ],
        BindingRole::Worker => vec![
            "codex".to_owned(),
            "opencode".to_owned(),
            assistant.slug.clone(),
        ],
        BindingRole::Judge => vec![
            code_command_of(assistant),
            assistant.slug.clone(),
            "gemini".to_owned(),
            "codex".to_owned(),
        ],
    };
    assert(text::texts(r@) =~= preference(*assistant, role));
    r
}

/// The bindings with one more for a role, when an agent for it was detected.
pub open spec fn with_binding(
    bindings: Seq<BindingView>,
    assistant: Assistant,
    detected: Seq<Seq<char>>,
    role: BindingRole,
) -> Seq<BindingView> {
    match picked(detected, preference(assistant, role)) {
        Some(agent) => bindings.push(BindingView { role, agent, model: None }),
        None => bindings,
    }
}

/// The bindings for the agents that were detected: for each role the agent that it prefers.
pub open spec fn bindings(assistant: Assistant, detected: Seq<Seq<char>>) -> Seq<BindingView> {
    let master = with_binding(Seq::empty(), assistant, detected, BindingRole::Master);
    let worker = with_binding(master, assistant, detected, BindingRole::Worker);
    with_binding(worker, assistant, detected, BindingRole::Judge)
}

fn bind(
    out: &mut Vec<AgentBinding>,
    assistant: &Assistant,
    detected: &Vec<String>,
    role: BindingRole,
)
    ensures
        sorting::views(final(out)@) == with_binding(
            sorting::views(old(out)@),
            *assistant,
            text::texts(detected@),
            role,
        ),
{
    let preferred = preferred_for(assistant, role);
    match pick(detected, &preferred) {
        Some(agent) => {
            let binding = AgentBinding { role, agent, model: None };
            proof {
                sorting::lemma_views_push(out@, binding);
            }
            out.push(binding);
        },
        None => {},
    }
}

/// The bindings for the agents that were detected.
pub fn detect_agents(assistant: &Assistant, detected: &Vec<String>) -> (r: Vec<AgentBinding>)
    ensures
        sorting::views(r@) == bindings(*assistant, text::texts(detected@)),
{
    let mut out: Vec<AgentBinding> = Vec::new();
    assert(sorting::views(out@) =~= Seq::empty());
    bind(&mut out, assistant, detected, BindingRole::Master);
    bind(&mut out, assistant, detected, BindingRole::Worker);
    bind(&mut out, assistant, detected, BindingRole::Judge);
    out
}

// ---------------------------------------------------------------------------------------------
// Messages
// ---------------------------------------------------------------------------------------------

/// The line that tells that a request for a session was accepted.
pub fn spawn_line(request: &SpawnRequest) -> (r: String)
    ensures
        r@ == "spawn request accepted: role="@ + request.role.canonical@ + " alias="@
            + request.role.norse@ + " agent="@ + request.agent@ + " cwd="@ + (
        match request.working_dir {
            Some(dir) => dir@,
            None => "."@,
        }),
{
    let mut out = "spawn request accepted: role=".to_owned();
    out.append(request.role.canonical.as_str());
    out.append(" alias=");
    out.append(request.role.norse.as_str());
    out.append(" agent=");
    out.append(request.agent.as_str());
    out.append(" cwd=");
    match &request.working_dir {
        Some(dir) => out.append(dir.as_str()),
        None => out.append("."),
    }
    out
}

/// What is said when the setup of a project is done, or why there is none: a project that has a
/// configuration keeps it.
pub fn init_outcome(memory_root: &str, config_exists: bool) -> (r: Result<String, String>)
    ensures
        match r {
            Ok(line) => !config_exists && line@ == "initialized Brunnr memory mode at "@
                + memory_root@,
            Err(error) => config_exists && error@ == "brunnr.toml already exists"@,
        },
{
    if config_exists {
        Err("brunnr.toml already exists".to_owned())
    } else {
        let mut out = "initialized Brunnr memory mode at ".to_owned();
        out.append(memory_root);
        Ok(out)
    }
}

/// What is said when the memory directory cannot be made.
pub fn memory_root_context(memory_root: &str) -> (r: String)
    ensures
        r@ == "create memory root "@ + memory_root@,
{
    let mut out = "create memory root ".to_owned();
    out.append(memory_root);
    out
}

/// Whether the daemon runs in a mode: only where it has something to orchestrate.
pub fn check_daemon_mode(mode: &str) -> (r: Result<(), String>)
    ensures
        r is Ok <==> mode@ == "Orchestrate"@ || mode@ == "Full"@,
        r is Err ==> r->Err_0@ == "brunnrd requires mode orchestrate or full, got "@ + mode@,
{
    if text::same_text(mode, "Orchestrate") || text::same_text(mode, "Full") {
        Ok(())
    } else {
        let mut out = "brunnrd requires mode orchestrate or full, got ".to_owned();
        out.append(mode);
        Err(out)
    }
}

/// What the memory server says of itself.
pub const MEMORY_SERVER_INSTRUCTIONS: &'static str =
    "Brunnr memory server exposing memory.find and memory.store.";

// ---------------------------------------------------------------------------------------------
// Settings
// ---------------------------------------------------------------------------------------------

/// What the status display shows.
#[derive(Debug, Clone, PartialEq, Eq)]
pub struct TuiStatus {
    pub mode: String,
    pub backend: String,
}

impl TuiStatus {
    /// The status of a project that keeps its memory in files.
    pub fn memory_files() -> (r: Self)
        ensures
            r.mode@ == "memory"@,
            r.backend@ == "files"@,
    {
        TuiStatus { mode: "memory".to_owned(), backend: "files".to_owned() }
    }
}

/// How a sandbox is set up.
#[derive(Debug, Clone, PartialEq, Eq)]
pub struct SandboxProfile {
    pub enabled: bool,
    pub image: Option<String>,
    pub allow_network: bool,
    pub mounted_paths: Vec<String>,
}

impl Default for SandboxProfile {
    /// No sandbox: off, without an image, a network or mounted paths.
    fn default() -> (r: Self)
        ensures
            !r.enabled,
            r.image is None,
            !r.allow_network,
            r.mounted_paths@.len() == 0,
    {
        SandboxProfile {
            enabled: false,
            image: None,
            allow_network: false,
            mounted_paths: Vec::new(),
        }
    }
}

/// A role is bound exactly when one of the agents that it can use was detected: the master to the
/// assistant or Codex, the worker to Codex, OpenCode or the assistant, the judge to the assistant,
/// Gemini or Codex, each to the first of these that was detected. No role is bound twice.
pub proof fn law_roles_are_bound_to_what_is_there(
    assistant: Assistant,
    detected: Seq<Seq<char>>,
    i: int,
    j: int,
)
    ensures
        ({
            let found = bindings(assistant, detected);
            let code = assistant.slug@ + "-code"@;
            let slug = assistant.slug@;
            &&& found.len() <= 3
            &&& 0 <= i < j < found.len() ==> found[i].role != found[j].role
            &&& 0 <= i < found.len() ==> detected.contains(found[i].agent) && found[i].model is None
            &&& is_bound(found, BindingRole::Master) <==> detected.contains(code)
                || detected.contains(slug) || detected.contains("codex"@)
            &&& is_bound(found, BindingRole::Worker) <==> detected.contains("codex"@)
                || detected.contains("opencode"@) || detected.contains(slug)
            &&& is_bound(found, BindingRole::Judge) <==> detected.contains(code)
                || detected.contains(slug) || detected.contains("gemini"@) || detected.contains(
                "codex"@,
            )
            &&& detected.contains(code) && 0 <= i < found.len() && found[i].role
                != BindingRole::Worker ==> found[i].agent == code
            &&& detected.contains("codex"@) && 0 <= i < found.len() && found[i].role
                == BindingRole::Worker ==> found[i].agent == "codex"@
        }),
{
    let code = code_command(assistant);
    let slug = assistant.slug@;
    reveal_with_fuel(picked_from, 5);
    let none = Seq::<BindingView>::empty();
    let master = with_binding(none, assistant, detected, BindingRole::Master);
    let worker = with_binding(master, assistant, detected, BindingRole::Worker);
    let judge = with_binding(worker, assistant, detected, BindingRole::Judge);
    let m = picked(detected, preference(assistant, BindingRole::Master));
    let w = picked(detected, preference(assistant, BindingRole::Worker));
    let k = picked(detected, preference(assistant, BindingRole::Judge));
    assert(m is Some <==> detected.contains(code) || detected.contains(slug) || detected.contains(
        "codex"@,
    ));
    assert(w is Some <==> detected.contains("codex"@) || detected.contains("opencode"@)
        || detected.contains(slug));
    assert(k is Some <==> detected.contains(code) || detected.contains(slug) || detected.contains(
        "gemini"@,
    ) || detected.contains("codex"@));
    if m is Some {
        assert(master[0].role == BindingRole::Master);
        assert(judge[0] == master[0]);
    }
    if w is Some {
        let at = master.len() as int;
        assert(worker[at].role == BindingRole::Worker);
        assert(judge[at] == worker[at]);
    }
    if k is Some {
        let at = worker.len() as int;
        assert(judge[at].role == BindingRole::Judge);
    }
}

/// The role is among the bindings.
pub open spec fn is_bound(bindings: Seq<BindingView>, role: BindingRole) -> bool {
    exists|i: int| 0 <= i < bindings.len() && (#[trigger] bindings[i]).role == role
}

/// Every agent that a role can be bound to is looked for.
pub proof fn law_preferred_agents_are_looked_for(assistant: Assistant, role: BindingRole, i: int)
    requires
        0 <= i < preference(assistant, role).len(),
    ensures
        known(assistant).contains(preference(assistant, role)[i]),
{
    let all = known(assistant);
    assert(all[0] == assistant.slug@);
    assert(all[1] == code_command(assistant));
    assert(all[2] == "codex"@);
    assert(all[3] == "gemini"@);
    assert(all[4] == "opencode"@);
}

} // verus!
