//! What the findings on sessions mean, over everything that a transcript can tell.

use vstd::prelude::*;
use crate::json;
use crate::json::JsonView;
use crate::session;
use crate::session::{Deltas, SessionView};
use crate::text_map;

verus! {

/// One thing that a transcript tells of tools or instructions.
pub enum Event {
    /// A tool was removed.
    Removed { name: Seq<char>, at: Option<Seq<char>> },
    /// A tool was added, for the first time or again.
    Added { name: Seq<char> },
    /// The instructions of a server came.
    Instructions { server: Seq<char>, at: Option<Seq<char>> },
}

/// What is known of the servers after one more event.
pub open spec fn after_event(deltas: Deltas, event: Event) -> Deltas {
    match event {
        Event::Removed { name, at } => session::after_removed(deltas, name, at),
        Event::Added { name } => session::after_added(deltas, name),
        Event::Instructions { server, at } => session::after_instructions(deltas, server, at),
    }
}

/// What is known of the servers after the first `n` events.
pub open spec fn after_events(deltas: Deltas, events: Seq<Event>, n: int) -> Deltas
    decreases n,
{
    if n <= 0 {
        deltas
    } else {
        after_event(after_events(deltas, events, n - 1), events[n - 1])
    }
}

/// The removals of tools.
pub open spec fn removals(names: Seq<Seq<char>>, at: Option<Seq<char>>) -> Seq<Event> {
    Seq::new(names.len(), |i: int| Event::Removed { name: names[i], at })
}

/// The additions of tools.
pub open spec fn additions(names: Seq<Seq<char>>) -> Seq<Event> {
    Seq::new(names.len(), |i: int| Event::Added { name: names[i] })
}

/// The arrivals of instructions.
pub open spec fn arrivals(names: Seq<Seq<char>>, at: Option<Seq<char>>) -> Seq<Event> {
    Seq::new(names.len(), |i: int| Event::Instructions { server: names[i], at })
}

/// The events that an attachment tells of.
pub open spec fn attachment_events(attachment: JsonView, at: Option<Seq<char>>) -> Seq<Event> {
    match json::field_text(attachment, "type"@) {
        Some(kind) => if kind == "deferred_tools_delta"@ {
            removals(json::strings_of(json::field(attachment, "removedNames"@)), at) + additions(
                json::strings_of(json::field(attachment, "addedNames"@)),
            ) + additions(json::strings_of(json::field(attachment, "readdedNames"@)))
        } else if kind == "mcp_instructions_delta"@ {
            arrivals(json::strings_of(json::field(attachment, "addedNames"@)), at)
        } else {
            Seq::empty()
        },
        None => Seq::empty(),
    }
}

/// The events that a line of a transcript tells of.
pub open spec fn line_events(line: Seq<char>) -> Seq<Event> {
    if session::is_relevant(line) {
        match json::json_document(line) {
            Some(value) => match json::field(value, "attachment"@) {
                Some(attachment) => attachment_events(
                    attachment,
                    json::field_text(value, "timestamp"@),
                ),
                None => Seq::empty(),
            },
            None => Seq::empty(),
        }
    } else {
        Seq::empty()
    }
}

/// The events that the first `n` lines of a transcript tell of, in their order.
pub open spec fn transcript_events(lines: Seq<Seq<char>>, n: int) -> Seq<Event>
    decreases n,
{
    if n <= 0 {
        Seq::empty()
    } else {
        transcript_events(lines, n - 1) + line_events(lines[n - 1])
    }
}

/// The event removes a tool of the server, which belongs to the tools.
pub open spec fn removes(event: Event, server: Seq<char>) -> bool {
    match event {
        Event::Removed { name, .. } => session::tool_name(name) is Some && session::server_in(name)
            == server && session::is_artesian(server),
        _ => false,
    }
}

/// The event adds a tool of the server.
pub open spec fn adds(event: Event, server: Seq<char>) -> bool {
    match event {
        Event::Added { name } => session::tool_name(name) is Some && session::server_in(name)
            == server,
        _ => false,
    }
}

/// The event brings the instructions of the server.
pub open spec fn instructs(event: Event, server: Seq<char>) -> bool {
    match event {
        Event::Instructions { server: other, .. } => other == server,
        _ => false,
    }
}

/// When the event took place, where that is known.
pub open spec fn time_of(event: Event) -> Option<Seq<char>> {
    match event {
        Event::Removed { at, .. } => at,
        Event::Added { .. } => None,
        Event::Instructions { at, .. } => at,
    }
}

/// Among the first `n` events, the one at `i` is the last removal of a tool of the server, and no
/// tool of the server was added after it.
pub open spec fn lost_at(events: Seq<Event>, n: int, server: Seq<char>, i: int) -> bool {
    &&& 0 <= i < n
    &&& removes(events[i], server)
    &&& forall|j: int|
        i < j < n ==> !removes(#[trigger] events[j], server) && !adds(events[j], server)
}

/// Among the first `n` events, the one at `k` brings the instructions of the server.
pub open spec fn instructed_at(events: Seq<Event>, n: int, server: Seq<char>, k: int) -> bool {
    0 <= k < n && instructs(events[k], server)
}

/// The tools of the server were lost, and its instructions came after that.
pub open spec fn lost_then_instructed(events: Seq<Event>, n: int, server: Seq<char>) -> bool {
    exists|i: int, k: int|
        i < k && #[trigger] lost_at(events, n, server, i) && #[trigger] instructed_at(
            events,
            n,
            server,
            k,
        )
}

/// What is known of the server says that its tools are lost.
pub open spec fn is_lost(deltas: Deltas, server: Seq<char>) -> bool {
    deltas.dom().contains(server) && deltas[server].removed
        && !deltas[server].readded_after_removal
}

proof fn lemma_lost(events: Seq<Event>, n: int, server: Seq<char>)
    requires
        0 <= n <= events.len(),
    ensures
        is_lost(after_events(Map::empty(), events, n), server) <==> exists|i: int| #[trigger]
            lost_at(events, n, server, i),
        is_lost(after_events(Map::empty(), events, n), server) ==> session::is_artesian(server),
        forall|i: int| #[trigger]
            lost_at(events, n, server, i) ==> after_events(
                Map::empty(),
                events,
                n,
            )[server].removed_at == time_of(events[i]),
    decreases n,
{
    if n > 0 {
        lemma_lost(events, n - 1, server);
        let before = after_events(Map::empty(), events, n - 1);
        let event = events[n - 1];
        if removes(event, server) {
            assert(lost_at(events, n, server, n - 1));
            assert forall|i: int| #[trigger] lost_at(events, n, server, i) implies i == n - 1 by {
                if i < n - 1 {
                    assert(removes(events[n - 1], server));
                }
            }
        } else if adds(event, server) {
            assert forall|i: int| !#[trigger] lost_at(events, n, server, i) by {
                if lost_at(events, n, server, i) {
                    assert(i < n - 1);
                    assert(adds(events[n - 1], server));
                }
            }
        } else {
            assert forall|i: int| #[trigger]
                lost_at(events, n, server, i) == lost_at(events, n - 1, server, i) by {
                if lost_at(events, n - 1, server, i) {
                    assert forall|j: int| i < j < n implies !removes(#[trigger] events[j], server)
                        && !adds(events[j], server) by {}
                }
                if lost_at(events, n, server, i) {
                    assert(i < n - 1);
                }
            }
            if is_lost(before, server) {
                let i = choose|i: int| #[trigger] lost_at(events, n - 1, server, i);
                assert(lost_at(events, n, server, i));
            }
        }
    }
}

proof fn lemma_stale(events: Seq<Event>, n: int, server: Seq<char>)
    requires
        0 <= n <= events.len(),
    ensures
        session::stale_servers(after_events(Map::empty(), events, n)).contains(server)
            <==> lost_then_instructed(events, n, server),
    decreases n,
{
    lemma_lost(events, n, server);
    if n > 0 {
        lemma_stale(events, n - 1, server);
        lemma_lost(events, n - 1, server);
        let before = after_events(Map::empty(), events, n - 1);
        let after = after_events(Map::empty(), events, n);
        let event = events[n - 1];
        if removes(event, server) {
            assert(!session::is_stale(after[server]));
            if lost_then_instructed(events, n, server) {
                let (i, k) = choose|i: int, k: int|
                    i < k && #[trigger] lost_at(events, n, server, i) && #[trigger] instructed_at(
                        events,
                        n,
                        server,
                        k,
                    );
                assert(i < n - 1);
                assert(removes(events[n - 1], server));
            }
        } else if adds(event, server) {
            if lost_then_instructed(events, n, server) {
                let (i, k) = choose|i: int, k: int|
                    i < k && #[trigger] lost_at(events, n, server, i) && #[trigger] instructed_at(
                        events,
                        n,
                        server,
                        k,
                    );
                assert(is_lost(after, server));
            }
        } else if instructs(event, server) {
            if is_lost(before, server) {
                let i = choose|i: int| #[trigger] lost_at(events, n - 1, server, i);
                assert forall|j: int| i < j < n implies !removes(#[trigger] events[j], server)
                    && !adds(events[j], server) by {}
                assert(lost_at(events, n, server, i));
                assert(instructed_at(events, n, server, n - 1));
            } else {
                assert(!is_lost(after, server));
                if lost_then_instructed(events, n, server) {
                    let (x, k) = choose|x: int, k: int|
                        x < k && #[trigger] lost_at(events, n, server, x)
                            && #[trigger] instructed_at(events, n, server, k);
                }
            }
        } else {
            if lost_then_instructed(events, n - 1, server) {
                let (i, k) = choose|i: int, k: int|
                    i < k && #[trigger] lost_at(events, n - 1, server, i)
                        && #[trigger] instructed_at(events, n - 1, server, k);
                assert forall|j: int| i < j < n implies !removes(#[trigger] events[j], server)
                    && !adds(events[j], server) by {}
                assert(lost_at(events, n, server, i));
                assert(instructed_at(events, n, server, k));
            }
            if lost_then_instructed(events, n, server) {
                let (i, k) = choose|i: int, k: int|
                    i < k && #[trigger] lost_at(events, n, server, i) && #[trigger] instructed_at(
                        events,
                        n,
                        server,
                        k,
                    );
                assert(lost_at(events, n - 1, server, i));
                assert(instructed_at(events, n - 1, server, k));
            }
        }
    }
}

proof fn lemma_events_then(deltas: Deltas, first: Seq<Event>, second: Seq<Event>, n: int)
    requires
        0 <= n <= second.len(),
    ensures
        after_events(deltas, first + second, first.len() + n) == after_events(
            after_events(deltas, first, first.len() as int),
            second,
            n,
        ),
    decreases n,
{
    if n > 0 {
        lemma_events_then(deltas, first, second, n - 1);
        assert((first + second)[first.len() + n - 1] == second[n - 1]);
    } else {
        lemma_events_prefix(deltas, first, second, first.len() as int);
    }
}

proof fn lemma_events_prefix(deltas: Deltas, first: Seq<Event>, second: Seq<Event>, n: int)
    requires
        0 <= n <= first.len(),
    ensures
        after_events(deltas, first + second, n) == after_events(deltas, first, n),
    decreases n,
{
    if n > 0 {
        lemma_events_prefix(deltas, first, second, n - 1);
        assert((first + second)[n - 1] == first[n - 1]);
    }
}

proof fn lemma_removals(deltas: Deltas, names: Seq<Seq<char>>, at: Option<Seq<char>>, n: int)
    requires
        0 <= n <= names.len(),
    ensures
        after_events(deltas, removals(names, at), n) == session::after_all_removed(
            deltas,
            names,
            at,
            n,
        ),
    decreases n,
{
    if n > 0 {
        lemma_removals(deltas, names, at, n - 1);
    }
}

proof fn lemma_additions(deltas: Deltas, names: Seq<Seq<char>>, n: int)
    requires
        0 <= n <= names.len(),
    ensures
        after_events(deltas, additions(names), n) == session::after_all_added(deltas, names, n),
    decreases n,
{
    if n > 0 {
        lemma_additions(deltas, names, n - 1);
    }
}

proof fn lemma_arrivals(deltas: Deltas, names: Seq<Seq<char>>, at: Option<Seq<char>>, n: int)
    requires
        0 <= n <= names.len(),
    ensures
        after_events(deltas, arrivals(names, at), n) == session::after_all_instructions(
            deltas,
            names,
            at,
            n,
        ),
    decreases n,
{
    if n > 0 {
        lemma_arrivals(deltas, names, at, n - 1);
    }
}

proof fn lemma_attachment(deltas: Deltas, attachment: JsonView, at: Option<Seq<char>>)
    ensures
        ({
            let events = attachment_events(attachment, at);
            after_events(deltas, events, events.len() as int) == session::after_attachment(
                deltas,
                attachment,
                at,
            )
        }),
{
    let removed = json::strings_of(json::field(attachment, "removedNames"@));
    let added = json::strings_of(json::field(attachment, "addedNames"@));
    let readded = json::strings_of(json::field(attachment, "readdedNames"@));
    let first = session::after_all_removed(deltas, removed, at, removed.len() as int);
    let second = session::after_all_added(first, added, added.len() as int);
    lemma_removals(deltas, removed, at, removed.len() as int);
    lemma_additions(first, added, added.len() as int);
    lemma_additions(second, readded, readded.len() as int);
    lemma_arrivals(deltas, added, at, added.len() as int);
    let a = removals(removed, at);
    let b = additions(added);
    let c = additions(readded);
    lemma_events_then(deltas, a, b, b.len() as int);
    lemma_events_then(deltas, a + b, c, c.len() as int);
}

proof fn lemma_transcript(lines: Seq<Seq<char>>, n: int)
    requires
        0 <= n <= lines.len(),
    ensures
        ({
            let events = transcript_events(lines, n);
            session::after_lines(lines, n).deltas == after_events(
                Map::empty(),
                events,
                events.len() as int,
            )
        }),
    decreases n,
{
    if n > 0 {
        lemma_transcript(lines, n - 1);
        let earlier = transcript_events(lines, n - 1);
        let line = lines[n - 1];
        let events = line_events(line);
        let before = session::after_lines(lines, n - 1);
        lemma_events_then(Map::empty(), earlier, events, events.len() as int);
        if session::is_relevant(line) {
            match json::json_document(line) {
                Some(value) => match json::field(value, "attachment"@) {
                    Some(attachment) => {
                        lemma_attachment(
                            before.deltas,
                            attachment,
                            json::field_text(value, "timestamp"@),
                        );
                    },
                    None => {},
                },
                None => {},
            }
        }
    }
}

/// A transcript is told of for a server exactly when one of its tools was removed, no tool of it was
/// added after the last removal, and its instructions came after that removal.
pub proof fn law_told_iff_lost_then_instructed(lines: Seq<Seq<char>>, server: Seq<char>)
    ensures
        ({
            let events = transcript_events(lines, lines.len() as int);
            session::stale_servers(
                session::after_lines(lines, lines.len() as int).deltas,
            ).contains(server) <==> lost_then_instructed(events, events.len() as int, server)
        }),
{
    let events = transcript_events(lines, lines.len() as int);
    lemma_transcript(lines, lines.len() as int);
    lemma_stale(events, events.len() as int, server);
}

proof fn lemma_events_finite(events: Seq<Event>, n: int)
    requires
        0 <= n <= events.len(),
    ensures
        after_events(Map::empty(), events, n).dom().finite(),
    decreases n,
{
    if n > 0 {
        lemma_events_finite(events, n - 1);
    }
}

proof fn lemma_told(
    path: Seq<char>,
    state: SessionView,
    names: Seq<Seq<char>>,
    n: int,
    server: Seq<char>,
)
    requires
        0 <= n <= names.len(),
    ensures
        (exists|f: int|
            0 <= f < session::told(path, state, names, n).len() && (#[trigger] session::told(
                path,
                state,
                names,
                n,
            )[f]).server_name == server) <==> (exists|j: int|
            0 <= j < n && #[trigger] names[j] == server && session::is_stale(state.deltas[server])),
    decreases n,
{
    if n > 0 {
        lemma_told(path, state, names, n - 1, server);
        let before = session::told(path, state, names, n - 1);
        let now = session::told(path, state, names, n);
        if exists|f: int| 0 <= f < before.len() && (#[trigger] before[f]).server_name == server {
            let f = choose|f: int|
                0 <= f < before.len() && (#[trigger] before[f]).server_name == server;
            assert(now[f] == before[f]);
        }
        if names[n - 1] == server && session::is_stale(state.deltas[server]) {
            assert(now[before.len() as int].server_name == server);
        }
        if exists|f: int| 0 <= f < now.len() && (#[trigger] now[f]).server_name == server {
            let f = choose|f: int| 0 <= f < now.len() && (#[trigger] now[f]).server_name == server;
            if f < before.len() {
                assert(before[f] == now[f]);
            } else {
                assert(names[n - 1] == server);
            }
        }
    }
}

/// The findings on a transcript name the servers that it is told of for, and no others.
pub proof fn law_findings_name_stale_servers(
    path: Seq<char>,
    lines: Seq<Seq<char>>,
    server: Seq<char>,
)
    ensures
        ({
            let state = session::after_lines(lines, lines.len() as int);
            let findings = session::session_findings(path, state);
            (exists|f: int|
                0 <= f < findings.len() && (#[trigger] findings[f]).server_name == server)
                <==> session::stale_servers(state.deltas).contains(server)
        }),
{
    let events = transcript_events(lines, lines.len() as int);
    let state = session::after_lines(lines, lines.len() as int);
    lemma_transcript(lines, lines.len() as int);
    lemma_events_finite(events, events.len() as int);
    let names = text_map::listing(state.deltas.dom());
    text_map::lemma_listing_exists(state.deltas.dom());
    text_map::lemma_listed(names, state.deltas.dom());
    lemma_told(path, state, names, names.len() as int, server);
    if session::stale_servers(state.deltas).contains(server) {
        assert(names.contains(server));
        let j = choose|j: int| 0 <= j < names.len() && names[j] == server;
        assert(names[j] == server);
    }
}

/// The time that is told is that of the last removal, and none where the removal has none.
pub proof fn law_told_time_is_last_removal(lines: Seq<Seq<char>>, server: Seq<char>, i: int)
    requires
        ({
            let events = transcript_events(lines, lines.len() as int);
            lost_at(events, events.len() as int, server, i)
        }),
    ensures
        session::after_lines(lines, lines.len() as int).deltas[server].removed_at == time_of(
            transcript_events(lines, lines.len() as int)[i],
        ),
{
    let events = transcript_events(lines, lines.len() as int);
    lemma_transcript(lines, lines.len() as int);
    lemma_lost(events, events.len() as int, server);
}

/// A transcript that adds a tool of a server after the last removal is not told of for it,
/// whatever instructions come.
pub proof fn law_readded_tools_are_clean(lines: Seq<Seq<char>>, server: Seq<char>, i: int)
    requires
        ({
            let events = transcript_events(lines, lines.len() as int);
            &&& 0 <= i < events.len()
            &&& adds(events[i], server)
            &&& forall|j: int| i < j < events.len() ==> !removes(#[trigger] events[j], server)
        }),
    ensures
        !session::stale_servers(
            session::after_lines(lines, lines.len() as int).deltas,
        ).contains(server),
{
    let events = transcript_events(lines, lines.len() as int);
    let n = events.len() as int;
    law_told_iff_lost_then_instructed(lines, server);
    if lost_then_instructed(events, n, server) {
        let (x, k) = choose|x: int, k: int|
            x < k && #[trigger] lost_at(events, n, server, x) && #[trigger] instructed_at(
                events,
                n,
                server,
                k,
            );
        if x < i {
            assert(adds(events[i], server));
        } else if i < x {
            assert(removes(events[x], server));
        }
    }
}

} // verus!
