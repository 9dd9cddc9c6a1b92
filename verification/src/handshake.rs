//! The exchange that asks a server for its tools: initialize, then list the tools.

use vstd::prelude::*;
use crate::compat::ARTESIAN_VERSION;
use crate::json;
use crate::json::{Json, JsonView};
use crate::text;

verus! {

/// Seconds that the whole exchange may take.
pub const HANDSHAKE_TIMEOUT_SECS: u64 = 20;

/// What a server answered.
#[derive(Debug, Clone, Copy, PartialEq, Eq, Structural)]
pub struct HandshakeOk {
    pub elapsed_ms: u128,
    pub tools_count: usize,
}

/// Where the exchange stands.
#[derive(Debug, Clone, Copy, PartialEq, Eq, Structural)]
pub enum HandshakeState {
    /// The answer to `initialize` is awaited.
    AwaitInitialize,
    /// The list of tools is awaited.
    AwaitTools,
    /// Nothing is awaited any more.
    Finished,
}

/// What is to be done next.
#[derive(Debug, Clone, PartialEq, Eq)]
pub enum HandshakeAction {
    /// Write these lines to the server and read one line.
    Exchange(Vec<String>),
    /// The server listed this many tools.
    Done { tools_count: usize },
    /// The exchange failed.
    Fail(String),
}

/// What is to be done next.
pub enum ActionView {
    Exchange(Seq<Seq<char>>),
    Done { tools_count: nat },
    Fail(Seq<char>),
}

impl View for HandshakeAction {
    type V = ActionView;

    open spec fn view(&self) -> ActionView {
        match *self {
            HandshakeAction::Exchange(lines) => ActionView::Exchange(text::texts(lines@)),
            HandshakeAction::Done { tools_count } => ActionView::Done {
                tools_count: tools_count as nat,
            },
            HandshakeAction::Fail(error) => ActionView::Fail(error@),
        }
    }
}

/// The line that opens the exchange.
pub open spec fn initialize_text() -> Seq<char> {
    "{\"id\":1,\"jsonrpc\":\"2.0\",\"method\":\"initialize\",\"params\":{\"capabilities\":{},\"clientInfo\":{\"name\":\"artesian-doctor\",\"version\":\""@
        + ARTESIAN_VERSION@ + "\"},\"protocolVersion\":\"2024-11-05\"}}\n"@
}

/// The line that opens the exchange.
pub fn initialize_line() -> (r: String)
    ensures
        r@ == initialize_text(),
{
    let mut out = "{\"id\":1,\"jsonrpc\":\"2.0\",\"method\":\"initialize\",\"params\":{\"capabilities\":{},\"clientInfo\":{\"name\":\"artesian-doctor\",\"version\":\"".to_owned();
    out.append(ARTESIAN_VERSION);
    out.append("\"},\"protocolVersion\":\"2024-11-05\"}}\n");
    out
}

/// The lines that confirm the opening and ask for the tools.
pub open spec fn list_tools_lines() -> Seq<Seq<char>> {
    seq![
        "{\"jsonrpc\":\"2.0\",\"method\":\"notifications/initialized\"}\n"@,
        "{\"id\":2,\"jsonrpc\":\"2.0\",\"method\":\"tools/list\",\"params\":{}}\n"@,
    ]
}

/// The number of tools in an answer; none where it lists no tools.
pub open spec fn tools_in(answer: JsonView) -> nat {
    match json::field(answer, "result"@) {
        Some(result) => match json::field(result, "tools"@) {
            Some(JsonView::Array(tools)) => tools.len(),
            _ => 0,
        },
        None => 0,
    }
}

/// The number of tools in an answer.
pub fn count_tools(answer: &Json) -> (r: usize)
    ensures
        r == tools_in(answer@),
{
    match answer.get("result") {
        Some(result) => match result.get("tools") {
            Some(tools) => {
                proof {
                    json::lemma_kinds(*tools);
                }
                match tools {
                    Json::Array(items) => items.len(),
                    _ => 0,
                }
            },
            None => 0,
        },
        None => 0,
    }
}

/// What follows when an answer was read: the exchange goes on, or ends with the number of tools.
pub open spec fn answered(state: HandshakeState, answer: JsonView) -> (HandshakeState, ActionView) {
    match state {
        HandshakeState::AwaitInitialize => (
            HandshakeState::AwaitTools,
            ActionView::Exchange(list_tools_lines()),
        ),
        _ => (HandshakeState::Finished, ActionView::Done { tools_count: tools_in(answer) }),
    }
}

/// What follows a line from the server, or the end of its output.
pub open spec fn replied(state: HandshakeState, line: Option<Seq<char>>) -> (
    HandshakeState,
    ActionView,
) {
    match line {
        None => (
            HandshakeState::Finished,
            ActionView::Fail("child closed its stdout before responding"@),
        ),
        Some(line) => match json::json_document(text::bare(line)) {
            Some(answer) => answered(state, answer),
            None => (
                HandshakeState::Finished,
                ActionView::Fail("parse JSON-RPC response line: "@ + text::bare(line)),
            ),
        },
    }
}

/// The state and the action that open the exchange.
pub fn begin_handshake() -> (r: (HandshakeState, HandshakeAction))
    ensures
        r.0 == HandshakeState::AwaitInitialize,
        r.1@ == ActionView::Exchange(seq![initialize_text()]),
{
    let lines = vec![initialize_line()];
    assert(text::texts(lines@) =~= seq![initialize_text()]);
    (HandshakeState::AwaitInitialize, HandshakeAction::Exchange(lines))
}

/// What follows an answer of the server.
pub fn handle_answer(state: HandshakeState, answer: &Json) -> (r: (HandshakeState, HandshakeAction))
    ensures
        (r.0, r.1@) == answered(state, answer@),
{
    match state {
        HandshakeState::AwaitInitialize => {
            let lines = vec![
                "{\"jsonrpc\":\"2.0\",\"method\":\"notifications/initialized\"}\n".to_owned(),
                "{\"id\":2,\"jsonrpc\":\"2.0\",\"method\":\"tools/list\",\"params\":{}}\n".to_owned(),
            ];
            assert(text::texts(lines@) =~= list_tools_lines());
            (HandshakeState::AwaitTools, HandshakeAction::Exchange(lines))
        },
        _ => (
            HandshakeState::Finished,
            HandshakeAction::Done { tools_count: count_tools(answer) },
        ),
    }
}

/// What follows a line from the server, or the end of its output.
pub fn handle_reply(state: HandshakeState, line: Option<&str>) -> (r: (
    HandshakeState,
    HandshakeAction,
))
    ensures
        (r.0, r.1@) == replied(state, text::str_opt(line)),
{
    match line {
        None => (
            HandshakeState::Finished,
            HandshakeAction::Fail("child closed its stdout before responding".to_owned()),
        ),
        Some(line) => {
            let trimmed = text::trim(line);
            match json::read_json(trimmed.as_str()) {
                Some(answer) => handle_answer(state, &answer),
                None => {
                    let mut error = "parse JSON-RPC response line: ".to_owned();
                    error.append(trimmed.as_str());
                    (HandshakeState::Finished, HandshakeAction::Fail(error))
                },
            }
        },
    }
}

/// The exchange ends: after two answers nothing is awaited, and the number of tools is that of
/// the second answer.
pub proof fn law_handshake_ends(first: JsonView, second: JsonView)
    ensures
        ({
            let middle = answered(HandshakeState::AwaitInitialize, first);
            answered(middle.0, second) == (
                HandshakeState::Finished,
                ActionView::Done { tools_count: tools_in(second) },
            )
        }),
{
}

/// Why an exchange could not be had, where no line was exchanged.
#[derive(Debug, Clone, Copy, PartialEq, Eq, Structural)]
pub enum HandshakeTrouble {
    Spawn,
    NoStdin,
    NoStdout,
    TimedOut,
}

/// The text for an exchange that could not be had.
pub fn trouble_text(trouble: HandshakeTrouble, command: &str) -> (r: String)
    ensures
        r@ == (match trouble {
            HandshakeTrouble::Spawn => "spawn `"@ + command@ + "`"@,
            HandshakeTrouble::NoStdin => "child has no stdin"@,
            HandshakeTrouble::NoStdout => "child has no stdout"@,
            HandshakeTrouble::TimedOut => "handshake timed out"@,
        }),
{
    match trouble {
        HandshakeTrouble::Spawn => {
            let mut out = "spawn `".to_owned();
            out.append(command);
            out.append("`");
            out
        },
        HandshakeTrouble::NoStdin => "child has no stdin".to_owned(),
        HandshakeTrouble::NoStdout => "child has no stdout".to_owned(),
        HandshakeTrouble::TimedOut => "handshake timed out".to_owned(),
    }
}

/// After the first answer, whatever it holds, the opening is confirmed and the tools are asked for;
/// after any later one the exchange is over, with as many tools as that answer lists. A server that
/// says nothing, or what is no JSON, ends the exchange as a failure in any state.
pub proof fn law_replies_move_the_exchange(state: HandshakeState, line: Seq<char>)
    ensures
        replied(state, None).0 == HandshakeState::Finished,
        replied(state, None).1 is Fail,
        json::json_document(text::bare(line)) is None ==> replied(state, Some(line)).0
            == HandshakeState::Finished && replied(state, Some(line)).1 is Fail
            && text::finishes_with(replied(state, Some(line)).1->Fail_0, text::bare(line)),
        json::json_document(text::bare(line)) is Some && state == HandshakeState::AwaitInitialize
            ==> replied(state, Some(line)).0 == HandshakeState::AwaitTools && replied(
            state,
            Some(line),
        ).1 is Exchange && replied(state, Some(line)).1->Exchange_0.len() == 2,
        json::json_document(text::bare(line)) is Some && state == HandshakeState::AwaitTools
            ==> replied(state, Some(line)) == (
            HandshakeState::Finished,
            ActionView::Done { tools_count: tools_in(json::json_document(text::bare(line))->0) },
        ),
{
    crate::text_laws::law_text_is_found_where_it_stands(
        "parse JSON-RPC response line: "@,
        text::bare(line),
        Seq::empty(),
    );
}

/// The tools of an answer are those listed under `tools` in its `result`, all of them; an answer
/// without such a list has none.
pub proof fn law_tools_are_counted(
    answer: Seq<json::FieldView>,
    p: int,
    result: Seq<json::FieldView>,
    q: int,
)
    requires
        0 <= p < answer.len(),
        answer[p].key == "result"@,
        forall|j: int| 0 <= j < p ==> (#[trigger] answer[j]).key != "result"@,
        answer[p].value == JsonView::Object(result),
        0 <= q <= result.len(),
        forall|j: int| 0 <= j < q ==> (#[trigger] result[j]).key != "tools"@,
        q < result.len() ==> result[q].key == "tools"@,
    ensures
        tools_in(JsonView::Object(answer)) == (if q < result.len() && result[q].value is Array {
            result[q].value->Array_0.len()
        } else {
            0
        }),
{
    json::law_first_field_with_the_key(answer, "result"@, p);
    json::law_first_field_with_the_key(result, "tools"@, q);
}

} // verus!
