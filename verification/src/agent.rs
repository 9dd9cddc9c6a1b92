//! Agents that run as processes: how they are configured, the sessions that they have, what is
//! run for a message, and what its end means.

use vstd::prelude::*;
use crate::processes;
use crate::text;
use crate::text::CharClass;
use crate::text_map;
use crate::text_map::TextMap;

verus! {

// ---------------------------------------------------------------------------------------------
// Configuration
// ---------------------------------------------------------------------------------------------

/// A span of time.
#[derive(Debug, Clone, Copy, PartialEq, Eq, Structural)]
pub struct Timeout {
    pub secs: u64,
    pub nanos: u32,
}

/// How an agent is run.
#[derive(Debug, Clone, PartialEq, Eq)]
pub struct ProcessAgentConfig {
    pub command: String,
    pub args: Vec<String>,
    pub working_dir: Option<String>,
    pub timeout: Timeout,
    /// The name of the agent; the command stands in where it is blank.
    pub agent_id: String,
}

impl ProcessAgentConfig {
    /// A command without arguments, with two minutes to answer.
    pub fn new(command: &str) -> (r: Self)
        ensures
            r.command@ == command@,
            r.args@.len() == 0,
            r.working_dir is None,
            r.timeout == (Timeout { secs: 120, nanos: 0 }),
            r.agent_id@.len() == 0,
    {
        ProcessAgentConfig {
            command: command.to_owned(),
            args: Vec::new(),
            working_dir: None,
            timeout: Timeout { secs: 120, nanos: 0 },
            agent_id: String::new(),
        }
    }

    /// The configuration with other arguments.
    pub fn with_args(self, args: Vec<String>) -> (r: Self)
        ensures
            r == (ProcessAgentConfig { args, ..self }),
    {
        ProcessAgentConfig { args, ..self }
    }

    /// The configuration with a working directory.
    pub fn with_working_dir(self, working_dir: &str) -> (r: Self)
        ensures
            text::text_opt(r.working_dir) == Some(working_dir@),
            r == (ProcessAgentConfig { working_dir: r.working_dir, ..self }),
    {
        ProcessAgentConfig { working_dir: Some(working_dir.to_owned()), ..self }
    }

    /// The configuration with another time to answer.
    pub fn with_timeout(self, timeout: Timeout) -> (r: Self)
        ensures
            r == (ProcessAgentConfig { timeout, ..self }),
    {
        ProcessAgentConfig { timeout, ..self }
    }

    /// The configuration with a name for the agent.
    pub fn with_agent_id(self, agent_id: &str) -> (r: Self)
        ensures
            r.agent_id@ == agent_id@,
            r == (ProcessAgentConfig { agent_id: r.agent_id, ..self }),
    {
        ProcessAgentConfig { agent_id: agent_id.to_owned(), ..self }
    }
}

// ---------------------------------------------------------------------------------------------
// Sessions
// ---------------------------------------------------------------------------------------------

/// The names of a role.
#[derive(Debug, Clone, PartialEq, Eq)]
pub struct RoleNames {
    pub canonical: String,
    pub norse: String,
}

impl RoleNames {
    fn copy(&self) -> (r: Self)
        ensures
            r.canonical == self.canonical,
            r.norse == self.norse,
    {
        RoleNames { canonical: self.canonical.clone(), norse: self.norse.clone() }
    }
}

/// A request for a session.
#[derive(Debug, Clone, PartialEq, Eq)]
pub struct SpawnRequest {
    pub role: RoleNames,
    pub agent: String,
    pub model: Option<String>,
    pub working_dir: Option<String>,
}

/// A session with an agent.
#[derive(Debug, Clone, PartialEq, Eq)]
pub struct AgentSession {
    pub id: String,
    pub role: RoleNames,
    pub agent: String,
}

/// Why an agent did not do what it was asked.
#[derive(Debug, Clone, PartialEq, Eq)]
pub enum AgentError {
    Unavailable(String),
    Session(String),
}

/// What is known of a session.
#[derive(Debug, Clone, PartialEq, Eq)]
pub struct SessionContext {
    pub role: RoleNames,
    pub agent: String,
    pub model: Option<String>,
    pub working_dir: Option<String>,
}

/// What is known of a session.
#[verifier::ext_equal]
pub struct ContextView {
    pub role: Seq<char>,
    pub alias: Seq<char>,
    pub agent: Seq<char>,
    pub model: Option<Seq<char>>,
    pub working_dir: Option<Seq<char>>,
}

impl View for SessionContext {
    type V = ContextView;

    open spec fn view(&self) -> ContextView {
        ContextView {
            role: self.role.canonical@,
            alias: self.role.norse@,
            agent: self.agent@,
            model: text::text_opt(self.model),
            working_dir: text::text_opt(self.working_dir),
        }
    }
}

/// A character as it stands in the name of a session.
pub open spec fn id_char(c: char) -> char {
    if text::is_ascii_word(c) {
        text::lower_char(c)
    } else {
        '-'
    }
}

/// The name of an agent as it stands in the name of a session: lower-case letters, digits and
/// dashes, without dashes at the ends, and a word of its own where nothing is left.
pub open spec fn agent_label(agent: Seq<char>) -> Seq<char> {
    let cleaned = text::trimmed(
        Seq::new(agent.len(), |i: int| id_char(agent[i])),
        CharClass::Only('-'),
    );
    if cleaned.len() == 0 {
        "agent"@
    } else {
        cleaned
    }
}

/// The name of an agent as it stands in the name of a session.
pub fn sanitize_agent_id(agent: &str) -> (r: String)
    ensures
        r@ == agent_label(agent@),
{
    let cs = text::to_chars(agent);
    let ghost mapped = Seq::new(agent@.len(), |i: int| id_char(agent@[i]));
    let mut out = String::new();
    let mut i: usize = 0;
    while i < cs.len()
        invariant
            cs@ == agent@,
            mapped == Seq::new(agent@.len(), |i: int| id_char(agent@[i])),
            i <= cs@.len(),
            out@ == mapped.take(i as int),
        decreases cs@.len() - i,
    {
        let c: char = cs[i];
        if text::is_ascii_alphanumeric(c) {
            out.push(text::to_lower_char(c));
        } else {
            out.push('-');
        }
        assert(mapped.take(i + 1) =~= mapped.take(i as int).push(mapped[i as int]));
        i = i + 1;
    }
    assert(mapped.take(i as int) =~= mapped);
    let cleaned = text::trim_class(out.as_str(), CharClass::Only('-'));
    if cleaned.as_str().is_empty() {
        "agent".to_owned()
    } else {
        cleaned
    }
}

/// The name of a session: the role, the agent and the number of the session.
pub open spec fn session_id(role: Seq<char>, agent: Seq<char>, number: nat) -> Seq<char> {
    role + "-"@ + agent_label(agent) + "-"@ + text::decimal(number)
}

/// The sessions of an agent and the number of the next one.
#[verifier::ext_equal]
pub struct AgentView {
    pub sessions: Map<Seq<char>, ContextView>,
    pub next_session: int,
}

/// An agent that runs as a process.
pub struct ProcessAgent {
    config: ProcessAgentConfig,
    sessions: TextMap<SessionContext>,
    next_session: u64,
}

impl View for ProcessAgent {
    type V = AgentView;

    closed spec fn view(&self) -> AgentView {
        AgentView {
            sessions: text_map::views(self.sessions@),
            next_session: self.next_session as int,
        }
    }
}

/// What is run for a message: a program, its arguments, where it runs, and what it reads.
#[derive(Debug, Clone, PartialEq, Eq)]
pub struct Invocation {
    pub program: String,
    pub args: Vec<String>,
    pub working_dir: Option<String>,
    pub stdin: Option<String>,
}

/// An argument with its placeholders filled in, one after another.
pub open spec fn rendered(template: Seq<char>, context: ContextView, prompt: Seq<char>) -> Seq<char> {
    let with_prompt = text::replaced(template, "{prompt}"@, prompt);
    let with_role = text::replaced(with_prompt, "{role}"@, context.role);
    let with_alias = text::replaced(with_role, "{alias}"@, context.alias);
    let with_agent = text::replaced(with_alias, "{agent}"@, context.agent);
    text::replaced(
        with_agent,
        "{model}"@,
        match context.model {
            Some(model) => model,
            None => Seq::empty(),
        },
    )
}

/// An argument with its placeholders filled in.
pub fn render_arg(template: &str, context: &SessionContext, prompt: &str) -> (r: String)
    ensures
        r@ == rendered(template@, context@, prompt@),
{
    proof {
        reveal_strlit("{prompt}");
        reveal_strlit("{role}");
        reveal_strlit("{alias}");
        reveal_strlit("{agent}");
        reveal_strlit("{model}");
    }
    let with_prompt = text::replace(template, "{prompt}", prompt);
    let with_role = text::replace(with_prompt.as_str(), "{role}", context.role.canonical.as_str());
    let with_alias = text::replace(with_role.as_str(), "{alias}", context.role.norse.as_str());
    let with_agent = text::replace(with_alias.as_str(), "{agent}", context.agent.as_str());
    let model = match &context.model {
        Some(model) => model.clone(),
        None => String::new(),
    };
    assert(context.model is None ==> model@ =~= Seq::<char>::empty());
    text::replace(with_agent.as_str(), "{model}", model.as_str())
}

/// The prompt is handed over in one of the arguments.
pub open spec fn prompt_in_args(args: Seq<String>) -> bool {
    exists|i: int| 0 <= i < args.len() && text::has_text((#[trigger] args[i])@, "{prompt}"@)
}

/// What is run for a message. The prompt is written to the process when no argument holds it.
pub open spec fn invokes(
    invocation: Invocation,
    config: ProcessAgentConfig,
    context: ContextView,
    prompt: Seq<char>,
) -> bool {
    &&& invocation.program == config.command
    &&& text::texts(invocation.args@) == Seq::new(
        config.args@.len(),
        |i: int| rendered(config.args@[i]@, context, prompt),
    )
    &&& text::text_opt(invocation.working_dir) == context.working_dir
    &&& text::text_opt(invocation.stdin) == (if !prompt_in_args(config.args@) && prompt.len() > 0 {
        Some(prompt)
    } else {
        None
    })
}

/// What is run for a message.
pub fn build_invocation(config: &ProcessAgentConfig, context: &SessionContext, prompt: &str) -> (r:
    Invocation)
    ensures
        invokes(r, *config, context@, prompt@),
{
    let mut args: Vec<String> = Vec::new();
    let mut prompt_was_arg = false;
    let mut i: usize = 0;
    while i < config.args.len()
        invariant
            i <= config.args@.len(),
            args@.len() == i,
            forall|j: int|
                0 <= j < i ==> (#[trigger] args@[j])@ == rendered(
                    config.args@[j]@,
                    context@,
                    prompt@,
                ),
            prompt_was_arg == exists|j: int|
                0 <= j < i && text::has_text((#[trigger] config.args@[j])@, "{prompt}"@),
        decreases config.args@.len() - i,
    {
        let template = config.args[i].as_str();
        args.push(render_arg(template, context, prompt));
        if text::contains(template, "{prompt}") {
            prompt_was_arg = true;
        }
        i = i + 1;
    }
    assert(text::texts(args@) =~= Seq::new(
        config.args@.len(),
        |i: int| rendered(config.args@[i]@, context@, prompt@),
    ));
    let stdin = if !prompt_was_arg && !prompt.is_empty() {
        Some(prompt.to_owned())
    } else {
        None
    };
    Invocation {
        program: config.command.clone(),
        args,
        working_dir: text::copy_opt(&context.working_dir),
        stdin,
    }
}

/// What the end of a process means: its output, or an error that holds its status and its output.
pub open spec fn outcome_text(success: bool, status: Seq<char>, output: Seq<char>) -> Result<
    Seq<char>,
    Seq<char>,
> {
    if success {
        Ok(output)
    } else {
        Err("process exited with status "@ + status + ": "@ + output)
    }
}

/// The result is a failed session with a message.
pub open spec fn failed<T>(r: Result<T, AgentError>, message: Seq<char>) -> bool {
    match r {
        Err(AgentError::Session(said)) => said@ == message,
        _ => false,
    }
}

/// What the end of a process means, from what it wrote.
pub fn read_outcome(success: bool, status: &str, stdout: &str, stderr: &str) -> (r: Result<
    String,
    AgentError,
>)
    ensures
        match outcome_text(success, status@, stdout@ + stderr@) {
            Ok(output) => r is Ok && r->Ok_0@ == output,
            Err(message) => failed(r, message),
        },
{
    let mut output = stdout.to_owned();
    output.append(stderr);
    if success {
        Ok(output)
    } else {
        let mut message = "process exited with status ".to_owned();
        message.append(status);
        message.append(": ");
        message.append(output.as_str());
        Err(AgentError::Session(message))
    }
}

/// What the end of a process means, from the bytes that it wrote.
pub fn process_outcome(success: bool, status: &str, stdout: &Vec<u8>, stderr: &Vec<u8>) -> (r:
    Result<String, AgentError>)
    ensures
        match outcome_text(
            success,
            status@,
            processes::lossy_text(stdout@) + processes::lossy_text(stderr@),
        ) {
            Ok(output) => r is Ok && r->Ok_0@ == output,
            Err(message) => failed(r, message),
        },
{
    let out_text = processes::decode_lossy(stdout);
    let err_text = processes::decode_lossy(stderr);
    read_outcome(success, status, out_text.as_str(), err_text.as_str())
}

/// The error for a process that did not answer in time.
pub fn timeout_error(timeout: Timeout) -> (r: AgentError)
    ensures
        r matches AgentError::Session(text) && text@ == "process timed out after "@ + text::decimal(
            timeout.secs as nat,
        ) + "s"@,
{
    let mut message = "process timed out after ".to_owned();
    let digits = text::decimal_u64(timeout.secs);
    message.append(digits.as_str());
    message.append("s");
    AgentError::Session(message)
}

/// What a session tells of a turn.
#[derive(Debug, Clone, PartialEq, Eq)]
pub enum AgentEvent {
    Text(String),
    Done,
}

/// The events of a turn that was answered: the answer, and the end.
pub fn turn_events(content: String) -> (r: Vec<AgentEvent>)
    ensures
        r@ == seq![AgentEvent::Text(content), AgentEvent::Done],
{
    vec![AgentEvent::Text(content), AgentEvent::Done]
}

/// What an agent can do.
#[derive(Debug, Clone, Copy, PartialEq, Eq, Structural)]
pub struct AgentCapabilities {
    pub streaming: bool,
    pub tools: bool,
    pub mcp: bool,
}

/// What is known of a session that a request begins.
pub open spec fn context_of(request: SpawnRequest, config: ProcessAgentConfig) -> ContextView {
    ContextView {
        role: request.role.canonical@,
        alias: request.role.norse@,
        agent: request.agent@,
        model: text::text_opt(request.model),
        working_dir: match request.working_dir {
            Some(dir) => Some(dir@),
            None => text::text_opt(config.working_dir),
        },
    }
}

/// The number after `n`; numbers begin anew at the largest.
pub open spec fn next_number(n: int) -> int {
    if n == u64::MAX {
        0
    } else {
        n + 1
    }
}

/// What a request does to the sessions: nothing where there is no command to run, and else a new
/// session with a number of its own.
pub open spec fn spawned(
    before: AgentView,
    config: ProcessAgentConfig,
    request: SpawnRequest,
    r: Result<AgentSession, AgentError>,
    after: AgentView,
) -> bool {
    if text::bare(config.command@).len() == 0 {
        &&& after == before
        &&& match r {
            Err(AgentError::Unavailable(said)) => said@ == "process agent command is empty"@,
            _ => false,
        }
    } else {
        let id = session_id(request.role.canonical@, request.agent@, before.next_session as nat);
        &&& r is Ok
        &&& r->Ok_0.id@ == id
        &&& r->Ok_0.role == request.role
        &&& r->Ok_0.agent == request.agent
        &&& after.sessions == before.sessions.insert(id, context_of(request, config))
        &&& after.next_session == next_number(before.next_session)
    }
}

impl ProcessAgent {
    /// How the agent is run.
    pub closed spec fn config_spec(self) -> ProcessAgentConfig {
        self.config
    }

    /// An agent without sessions.
    pub fn new(config: ProcessAgentConfig) -> (r: Self)
        ensures
            r.config_spec() == config,
            r@ == (AgentView { sessions: Map::empty(), next_session: 1 }),
    {
        proof {
            text_map::lemma_views_empty::<SessionContext>();
        }
        ProcessAgent { config, sessions: TextMap::new(), next_session: 1 }
    }

    /// How the agent is run.
    pub fn config(&self) -> (r: &ProcessAgentConfig)
        ensures
            *r == self.config_spec(),
    {
        &self.config
    }

    /// What the agent can do: nothing but answer.
    pub fn capabilities(&self) -> (r: AgentCapabilities)
        ensures
            r == (AgentCapabilities { streaming: false, tools: false, mcp: false }),
    {
        AgentCapabilities { streaming: false, tools: false, mcp: false }
    }

    /// Begins a session, unless there is no command to run. The directory of the request comes
    /// before that of the configuration.
    pub fn spawn(&mut self, request: SpawnRequest) -> (r: Result<AgentSession, AgentError>)
        ensures
            final(self).config_spec() == old(self).config_spec(),
            spawned(old(self)@, old(self).config_spec(), request, r, final(self)@),
    {
        let command = text::trim(self.config.command.as_str());
        if command.as_str().is_empty() {
            return Err(AgentError::Unavailable("process agent command is empty".to_owned()));
        }
        let mut id = request.role.canonical.clone();
        id.append("-");
        let agent = sanitize_agent_id(request.agent.as_str());
        id.append(agent.as_str());
        id.append("-");
        let number = text::decimal_u64(self.next_session);
        id.append(number.as_str());
        self.next_session = self.next_session.wrapping_add(1);
        let working_dir = match request.working_dir {
            Some(dir) => Some(dir),
            None => text::copy_opt(&self.config.working_dir),
        };
        let context = SessionContext {
            role: request.role.copy(),
            agent: request.agent.clone(),
            model: request.model,
            working_dir,
        };
        proof {
            text_map::lemma_views_insert(self.sessions@, id@, context);
        }
        self.sessions.insert(id.clone(), context);
        Ok(AgentSession { id, role: request.role, agent: request.agent })
    }

    /// What is run for a message to a session, when the session is known.
    pub fn prepare(&self, session_id: &str, prompt: &str) -> (r: Result<Invocation, AgentError>)
        ensures
            self@.sessions.dom().contains(session_id@) ==> r is Ok && invokes(
                r->Ok_0,
                self.config_spec(),
                self@.sessions[session_id@],
                prompt@,
            ),
            !self@.sessions.dom().contains(session_id@) ==> failed(
                r,
                "unknown session: "@ + session_id@,
            ),
    {
        match self.sessions.get(session_id) {
            Some(context) => Ok(build_invocation(&self.config, context, prompt)),
            None => {
                let mut message = "unknown session: ".to_owned();
                message.append(session_id);
                Err(AgentError::Session(message))
            },
        }
    }
}

/// Names of agents are safe in the names of sessions: they are not empty, hold only lower-case
/// letters, digits and dashes, neither begin nor end in a dash, and a name is its own name.
pub proof fn law_agent_labels_are_safe(agent: Seq<char>)
    ensures
        agent_label(agent).len() > 0,
        forall|i: int|
            0 <= i < agent_label(agent).len() ==> (text::is_ascii_word(
                #[trigger] agent_label(agent)[i],
            ) && text::lower_char(agent_label(agent)[i]) == agent_label(agent)[i])
                || agent_label(agent)[i] == '-',
        agent_label(agent)[0] != '-',
        agent_label(agent).last() != '-',
        agent_label(agent_label(agent)) == agent_label(agent),
{
    reveal_strlit("agent");
    let mapped = Seq::new(agent.len(), |i: int| id_char(agent[i]));
    let cleaned = text::trimmed(mapped, CharClass::Only('-'));
    let from = mapped.len() - text::trim_start(mapped, CharClass::Only('-')).len();
    text::lemma_trimmed_part(mapped, CharClass::Only('-'));
    let label = agent_label(agent);
    assert forall|i: int| 0 <= i < label.len() implies (text::is_ascii_word(#[trigger] label[i])
        && text::lower_char(label[i]) == label[i]) || label[i] == '-' by {
        if cleaned.len() > 0 {
            assert(label[i] == mapped[from + i]);
            assert(mapped[from + i] == id_char(agent[from + i]));
        }
    }
    assert(Seq::new(label.len(), |i: int| id_char(label[i])) =~= label);
    text::lemma_trimmed_stays(label, CharClass::Only('-'));
}

/// Sessions with different numbers have different names, whatever their roles and agents are.
pub proof fn law_session_ids_distinct(
    role_a: Seq<char>,
    agent_a: Seq<char>,
    a: nat,
    role_b: Seq<char>,
    agent_b: Seq<char>,
    b: nat,
)
    requires
        session_id(role_a, agent_a, a) == session_id(role_b, agent_b, b),
    ensures
        a == b,
{
    reveal_strlit("-");
    let da = text::decimal(a);
    let db = text::decimal(b);
    let ia = session_id(role_a, agent_a, a);
    let ib = session_id(role_b, agent_b, b);
    text::lemma_decimal_digits(a);
    text::lemma_decimal_digits(b);
    let ka = ia.len() - da.len();
    let kb = ib.len() - db.len();
    assert(ia[ka - 1] == '-');
    assert(ib[kb - 1] == '-');
    if da.len() < db.len() {
        assert(ib[ka - 1] == db[ka - 1 - kb]);
        assert(text::is_digit(db[ka - 1 - kb]));
        assert(false);
    } else if db.len() < da.len() {
        assert(ia[kb - 1] == da[kb - 1 - ka]);
        assert(text::is_digit(da[kb - 1 - ka]));
        assert(false);
    }
    assert(da =~= ia.skip(ka));
    assert(db =~= ib.skip(kb));
    text::lemma_decimal_injective(a, b);
}

// ---------------------------------------------------------------------------------------------
// Runtimes
// ---------------------------------------------------------------------------------------------

/// A process agent under a name.
pub struct ProcessAgentRuntime {
    inner: ProcessAgent,
    agent_id: String,
}

impl ProcessAgentRuntime {
    /// The agent.
    pub closed spec fn inner_spec(self) -> ProcessAgent {
        self.inner
    }

    /// The name of the agent.
    pub closed spec fn id_spec(self) -> Seq<char> {
        self.agent_id@
    }

    /// An agent under a name.
    pub fn new(inner: ProcessAgent, agent_id: &str) -> (r: Self)
        ensures
            r.inner_spec() == inner,
            r.id_spec() == agent_id@,
    {
        ProcessAgentRuntime { inner, agent_id: agent_id.to_owned() }
    }

    /// An agent under the name of its configuration, or of its command where that is blank.
    pub fn from_config(config: ProcessAgentConfig) -> (r: Self)
        ensures
            r.inner_spec().config_spec() == config,
            r.inner_spec()@ == (AgentView { sessions: Map::empty(), next_session: 1 }),
            r.id_spec() == (if text::bare(config.agent_id@).len() == 0 {
                config.command@
            } else {
                config.agent_id@
            }),
    {
        let trimmed = text::trim(config.agent_id.as_str());
        let agent_id = if trimmed.as_str().is_empty() {
            config.command.clone()
        } else {
            config.agent_id.clone()
        };
        ProcessAgentRuntime { inner: ProcessAgent::new(config), agent_id }
    }

    /// The agent.
    pub fn process_agent(&self) -> (r: &ProcessAgent)
        ensures
            *r == self.inner_spec(),
    {
        &self.inner
    }

    /// The name of the agent.
    pub fn agent_id(&self) -> (r: &str)
        ensures
            r@ == self.id_spec(),
    {
        self.agent_id.as_str()
    }

    /// Begins a session with the agent.
    pub fn spawn_session(&mut self, request: SpawnRequest) -> (r: Result<AgentSession, AgentError>)
        ensures
            final(self).id_spec() == old(self).id_spec(),
            final(self).inner_spec().config_spec() == old(self).inner_spec().config_spec(),
            spawned(
                old(self).inner_spec()@,
                old(self).inner_spec().config_spec(),
                request,
                r,
                final(self).inner_spec()@,
            ),
    {
        self.inner.spawn(request)
    }
}

/// In the name of an agent that begins and ends in a letter or a digit, letters become lower case,
/// digits stay, and every other character becomes a dash in its place.
pub proof fn law_agent_labels_keep_places(agent: Seq<char>, i: int)
    requires
        0 <= i < agent.len(),
        text::is_ascii_word(agent[0]),
        text::is_ascii_word(agent.last()),
    ensures
        agent_label(agent).len() == agent.len(),
        agent_label(agent)[i] == (if text::is_ascii_word(agent[i]) {
            text::lowered(agent)[i]
        } else {
            '-'
        }),
{
    let mapped = Seq::new(agent.len(), |i: int| id_char(agent[i]));
    text::lemma_trimmed_stays(mapped, CharClass::Only('-'));
}

/// A session is named by its role, its agent and its number, in this order.
pub proof fn law_session_names(role: Seq<char>, agent: Seq<char>, number: nat)
    ensures
        text::begins_with(session_id(role, agent, number), role + "-"@ + agent_label(agent) + "-"@),
        text::finishes_with(session_id(role, agent, number), "-"@ + text::decimal(number)),
{
    let front = role + "-"@ + agent_label(agent) + "-"@;
    let back = "-"@ + text::decimal(number);
    let id = session_id(role, agent, number);
    assert(id =~= front + text::decimal(number));
    assert(id =~= (role + "-"@ + agent_label(agent)) + back);
    crate::text_laws::law_text_is_found_where_it_stands(
        Seq::empty(),
        front,
        text::decimal(number),
    );
    crate::text_laws::law_text_is_found_where_it_stands(
        role + "-"@ + agent_label(agent),
        back,
        Seq::empty(),
    );
}

/// A text holds none of the placeholders.
pub open spec fn has_no_placeholder(s: Seq<char>) -> bool {
    &&& !text::has_text(s, "{prompt}"@)
    &&& !text::has_text(s, "{role}"@)
    &&& !text::has_text(s, "{alias}"@)
    &&& !text::has_text(s, "{agent}"@)
    &&& !text::has_text(s, "{model}"@)
}

/// An argument without placeholders is handed on as it is; one that is a placeholder becomes what the
/// placeholder stands for, and nothing where the session has no model.
pub proof fn law_placeholders_are_filled(
    template: Seq<char>,
    context: ContextView,
    prompt: Seq<char>,
)
    requires
        has_no_placeholder(prompt),
        has_no_placeholder(context.role),
        has_no_placeholder(context.alias),
        has_no_placeholder(context.agent),
        context.model is Some ==> has_no_placeholder(context.model->0),
    ensures
        has_no_placeholder(template) ==> rendered(template, context, prompt) == template,
        rendered("{prompt}"@, context, prompt) == prompt,
        rendered("{role}"@, context, prompt) == context.role,
        rendered("{alias}"@, context, prompt) == context.alias,
        rendered("{agent}"@, context, prompt) == context.agent,
        context.model is Some ==> rendered("{model}"@, context, prompt) == context.model->0,
        context.model is None ==> rendered("{model}"@, context, prompt) == Seq::<char>::empty(),
{
    let model = match context.model {
        Some(model) => model,
        None => Seq::empty(),
    };
    reveal_strlit("{prompt}");
    reveal_strlit("{role}");
    reveal_strlit("{alias}");
    reveal_strlit("{agent}");
    reveal_strlit("{model}");
    lemma_kept(template, prompt);
    lemma_kept(template, context.role);
    lemma_kept(template, context.alias);
    lemma_kept(template, context.agent);
    lemma_kept(template, model);
    lemma_kept(prompt, context.role);
    lemma_kept(prompt, context.alias);
    lemma_kept(prompt, context.agent);
    lemma_kept(prompt, model);
    lemma_kept(context.role, context.alias);
    lemma_kept(context.role, context.agent);
    lemma_kept(context.role, model);
    lemma_kept(context.alias, context.agent);
    lemma_kept(context.alias, model);
    lemma_kept(context.agent, model);
    lemma_other_placeholder("{role}"@, "{prompt}"@, prompt);
    lemma_other_placeholder("{alias}"@, "{prompt}"@, prompt);
    lemma_other_placeholder("{alias}"@, "{role}"@, context.role);
    lemma_other_placeholder("{agent}"@, "{prompt}"@, prompt);
    lemma_other_placeholder("{agent}"@, "{role}"@, context.role);
    lemma_other_placeholder("{agent}"@, "{alias}"@, context.alias);
    lemma_other_placeholder("{model}"@, "{prompt}"@, prompt);
    lemma_other_placeholder("{model}"@, "{role}"@, context.role);
    lemma_other_placeholder("{model}"@, "{alias}"@, context.alias);
    lemma_other_placeholder("{model}"@, "{agent}"@, context.agent);
    lemma_alone("{prompt}"@, prompt);
    lemma_alone("{role}"@, context.role);
    lemma_alone("{alias}"@, context.alias);
    lemma_alone("{agent}"@, context.agent);
    lemma_alone("{model}"@, model);
}

proof fn lemma_kept(s: Seq<char>, to: Seq<char>)
    ensures
        has_no_placeholder(s) ==> text::replaced(s, "{prompt}"@, to) == s && text::replaced(
            s,
            "{role}"@,
            to,
        ) == s && text::replaced(s, "{alias}"@, to) == s && text::replaced(s, "{agent}"@, to) == s
            && text::replaced(s, "{model}"@, to) == s,
{
    reveal_strlit("{prompt}");
    reveal_strlit("{role}");
    reveal_strlit("{alias}");
    reveal_strlit("{agent}");
    reveal_strlit("{model}");
    crate::text_laws::law_occurrences_counted_and_replaced("{prompt}"@, s, to);
    crate::text_laws::law_occurrences_counted_and_replaced("{role}"@, s, to);
    crate::text_laws::law_occurrences_counted_and_replaced("{alias}"@, s, to);
    crate::text_laws::law_occurrences_counted_and_replaced("{agent}"@, s, to);
    crate::text_laws::law_occurrences_counted_and_replaced("{model}"@, s, to);
}

proof fn lemma_other_placeholder(s: Seq<char>, from: Seq<char>, to: Seq<char>)
    requires
        from.len() > 2,
        s.len() <= from.len() || s.len() == from.len() + 1,
        from[0] == '{',
        s.len() > 2 ==> s[1] != '{' && (s[1] != from[1] || s[2] != from[2]),
    ensures
        text::replaced(s, from, to) == s,
{
    crate::text_laws::law_occurrences_counted_and_replaced(from, s, to);
    if text::has_text(s, from) {
        let i = choose|i: int| text::occurs_at(s, from, i);
        assert(s.subrange(i, i + from.len())[0] == s[i]);
        assert(s.subrange(i, i + from.len())[1] == s[i + 1]);
        assert(s.subrange(i, i + from.len())[2] == s[i + 2]);
    }
}

proof fn lemma_alone(from: Seq<char>, to: Seq<char>)
    requires
        from.len() > 0,
    ensures
        text::replaced(from, from, to) == to,
{
    let nothing = Seq::<char>::empty();
    crate::text_laws::law_occurrences_counted_and_replaced(from, nothing, to);
    assert(from + nothing =~= from);
    assert(to + nothing =~= to);
}

/// The prompt reaches the process once: where an argument of the configuration has the place for it,
/// it is not written to the process as well; where none has, it is, unless it is empty.
pub proof fn law_prompt_is_handed_over_once(
    invocation: Invocation,
    config: ProcessAgentConfig,
    context: ContextView,
    prompt: Seq<char>,
)
    requires
        invokes(invocation, config, context, prompt),
    ensures
        (exists|i: int|
            0 <= i < config.args@.len() && text::has_text(
                (#[trigger] config.args@[i])@,
                "{prompt}"@,
            )) ==> invocation.stdin is None,
        (forall|i: int|
            0 <= i < config.args@.len() ==> !text::has_text(
                (#[trigger] config.args@[i])@,
                "{prompt}"@,
            )) && prompt.len() > 0 ==> invocation.stdin is Some && invocation.stdin->0@ == prompt,
        prompt.len() == 0 ==> invocation.stdin is None,
        invocation.program == config.command,
        invocation.args@.len() == config.args@.len(),
        context.working_dir is Some ==> invocation.working_dir is Some
            && invocation.working_dir->0@ == context.working_dir->0,
        context.working_dir is None ==> invocation.working_dir is None,
        forall|i: int|
            0 <= i < config.args@.len() ==> (#[trigger] invocation.args@[i])@ == rendered(
                config.args@[i]@,
                context,
                prompt,
            ),
{
    assert(text::texts(invocation.args@).len() == invocation.args@.len());
    assert forall|i: int| 0 <= i < config.args@.len() implies (#[trigger] invocation.args@[i])@
        == rendered(config.args@[i]@, context, prompt) by {
        assert(text::texts(invocation.args@)[i] == invocation.args@[i]@);
    }
    if invocation.working_dir is Some {
        assert(text::text_opt(invocation.working_dir) == Some(invocation.working_dir->0@));
    }
    if invocation.stdin is Some {
        assert(text::text_opt(invocation.stdin) == Some(prompt));
    }
}

/// A session that is begun is known from then on by its name, with the role, the agent and the model
/// of the request, and its directory, or that of the configuration where the request has none; the
/// sessions before it stay known, and the next one gets another number.
pub proof fn law_begun_session_is_known(
    before: AgentView,
    config: ProcessAgentConfig,
    request: SpawnRequest,
    r: Result<AgentSession, AgentError>,
    after: AgentView,
    other: Seq<char>,
)
    requires
        spawned(before, config, request, r, after),
        r is Ok,
    ensures
        ({
            let id = r->Ok_0.id@;
            let known = after.sessions[id];
            &&& after.sessions.dom().contains(id)
            &&& known.role == request.role.canonical@
            &&& known.alias == request.role.norse@
            &&& known.agent == request.agent@
            &&& known.model == text::text_opt(request.model)
            &&& request.working_dir is Some ==> known.working_dir == Some(
                request.working_dir->0@,
            )
            &&& request.working_dir is None ==> known.working_dir == text::text_opt(
                config.working_dir,
            )
            &&& other != id && before.sessions.dom().contains(other)
                ==> after.sessions.dom().contains(other) && after.sessions[other]
                == before.sessions[other]
            &&& before.next_session < u64::MAX ==> after.next_session == before.next_session + 1
            &&& before.next_session == u64::MAX ==> after.next_session == 0
        }),
{
}

/// A request is refused exactly when there is no command to run; nothing changes then.
pub proof fn law_refused_without_a_command(
    before: AgentView,
    config: ProcessAgentConfig,
    request: SpawnRequest,
    r: Result<AgentSession, AgentError>,
    after: AgentView,
)
    requires
        spawned(before, config, request, r, after),
    ensures
        r is Err <==> text::bare(config.command@).len() == 0,
        r is Err ==> after == before,
        r is Err ==> r->Err_0 is Unavailable && r->Err_0->Unavailable_0@
            == "process agent command is empty"@,
        r is Ok ==> r->Ok_0.role == request.role && r->Ok_0.agent == request.agent,
{
}

/// A process that succeeds answers with what it wrote; one that does not is an error that tells its
/// status and what it wrote.
pub proof fn law_failed_process_tells_its_output(
    success: bool,
    status: Seq<char>,
    output: Seq<char>,
)
    ensures
        success ==> outcome_text(success, status, output) == Ok::<Seq<char>, Seq<char>>(output),
        !success ==> outcome_text(success, status, output) is Err,
        !success ==> text::has_text(outcome_text(success, status, output)->Err_0, status),
        !success ==> text::finishes_with(outcome_text(success, status, output)->Err_0, output),
{
    let front = "process exited with status "@;
    let all = front + status + ": "@ + output;
    assert(all =~= front + status + (": "@ + output));
    crate::text_laws::law_text_is_found_where_it_stands(front, status, ": "@ + output);
    crate::text_laws::law_text_is_found_where_it_stands(
        front + status + ": "@,
        output,
        Seq::empty(),
    );
}

/// A failed session is an error of the session, with the message that it failed with, and no other.
pub proof fn law_failures_are_session_errors(
    r: Result<String, AgentError>,
    message: Seq<char>,
    other: Seq<char>,
)
    requires
        failed(r, message),
    ensures
        r is Err,
        r->Err_0 is Session,
        r->Err_0->Session_0@ == message,
        failed(r, other) <==> other == message,
{
}

} // verus!
