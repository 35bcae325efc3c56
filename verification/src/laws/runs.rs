//! What holds after any number of events.

use crate::error::Error;
use crate::laws::{enabled, outcome, EventView};
use crate::laws::documents::lemma_documents_apart;
use crate::laws::requests::{
    ends_wait, in_flight, law_in_flight_until_answered, law_request_goes_to_the_server,
};
use crate::laws::settled::{
    law_state_stays_settled, lemma_documents_stay_distinct, orderly, settled,
};
use crate::message::{IdView, Message, MessageView, NotificationView, RequestView, ResponseView};
use crate::model::{
    answered, awaits_initialization, can_ask, can_leave, can_request, client_after_all,
    client_after_response, client_after_send, client_event, client_notification,
    client_notification_inner, client_request, client_wf, documents_after, drop_client, drop_server,
    hands_over, initialization, is_abandoned, is_client_of, is_found, is_primary, is_roster,
    joins_safely, new_client, new_primary, new_server, primary_ready, readable_result, request_at,
    server_after_response, server_after_send, server_drop, server_initialized, server_response,
    server_wf, state_after_leave, state_wf, with_client, with_request, with_server, ActionView,
    ClientEventView, ClientView, GlobalView, ServerView,
};
use crate::params::initialize_params;
use crate::peers::{lemma_remove_request, lemma_request_at, lemma_with_request};
use crate::server::{
    action_views, follows, lemma_client_kept, lemma_server_kept, Action, SpawnRequest, Task,
};
use crate::server::connecting::lemma_with_descriptor;
use crate::server::leaving::lemma_leave_keeps_wf;
use crate::server::tasks::{admitted, handled, plain};
use crate::text::begins_with;
use crate::types::DescriptorView;
use vstd::prelude::*;

verus! {

proof fn lemma_new_primary_wf(st: GlobalView, sid: u32)
    requires
        state_wf(st),
        primary_ready(st, sid),
    ensures
        state_wf(new_primary(st, sid).0),
{
    let server = st.servers[sid];
    let id = server.connections[0];
    let client = st.clients[id];
    assert(client_wf(client));
    let asked = client_after_all(
        ClientView { last_configuration: None, ..client },
        server.pending,
    );
    assert forall|k: i32| #[trigger] asked.request_ids.contains_key(k) implies 0 <= k
        < asked.next_request_id by {
        if !(client.next_request_id <= k < client.next_request_id + server.pending.len()) {
            assert(client.request_ids.contains_key(k));
        }
    }
    lemma_client_kept(st, id, asked);
}

proof fn lemma_drop_server_wf(st: GlobalView, sid: u32, leavers: Seq<u32>)
    requires
        state_wf(st),
        is_roster(leavers, st, sid),
    ensures
        state_wf(drop_server(st, sid, leavers).0),
{
    let after = drop_server(st, sid, leavers).0;
    assert forall|c: u32| #[trigger] after.clients.contains_key(c) implies client_wf(
        after.clients[c],
    ) && after.servers.contains_key(after.clients[c].server_id) by {
        assert(st.clients.contains_key(c));
        if is_client_of(st, c, sid) {
            assert(leavers.contains(c));
            assert(leavers.to_set().contains(c));
        }
    }
    assert forall|s: u32| #[trigger] after.servers.contains_key(s) implies server_wf(
        after.servers[s],
    ) by {
        assert(st.servers.contains_key(s));
    }
}

proof fn lemma_leave_wf(st: GlobalView, id: u32)
    requires
        state_wf(st),
        can_leave(st, id),
    ensures
        state_wf(drop_client(st, id).state),
{
    if st.clients.contains_key(id) {
        let sid = st.clients[id].server_id;
        assert(st.servers.contains_key(sid));
        let after = state_after_leave(st, id);
        assert(server_wf(st.servers[sid]));
        lemma_documents_apart(st.servers[sid].documents, id);
        lemma_leave_keeps_wf(st, id, after);
        if is_abandoned(after, sid) {
            let gone = GlobalView { servers: after.servers.remove(sid), ..after };
            assert forall|c: u32| #[trigger] gone.clients.contains_key(c) implies client_wf(
                gone.clients[c],
            ) && gone.servers.contains_key(gone.clients[c].server_id) by {
                assert(after.clients.contains_key(c));
                assert(!is_client_of(after, c, sid));
            }
            assert forall|s: u32| #[trigger] gone.servers.contains_key(s) implies server_wf(
                gone.servers[s],
            ) by {
                assert(after.servers.contains_key(s));
            }
        } else if hands_over(st.servers[sid], id) {
            lemma_new_primary_wf(after, sid);
        }
    }
}

proof fn lemma_notification_wf(
    st: GlobalView,
    id: u32,
    notification: NotificationView,
    said: ClientEventView,
    found: Option<i32>,
)
    requires
        state_wf(st),
        st.clients.contains_key(id),
        joins_safely(st, id, said),
    ensures
        state_wf(client_notification_inner(st, id, notification, said, found).state),
{
    let client = st.clients[id];
    let sid = client.server_id;
    assert(st.servers.contains_key(sid));
    let server = st.servers[sid];
    assert(server_wf(server));
    if said is Initialized {
        let ready = ClientView { is_initialized: true, ..client };
        lemma_client_kept(st, id, ready);
        let joined = ServerView {
            connections: server.connections.push(id),
            is_initialized: true,
            ..server
        };
        lemma_server_kept(with_client(st, id, ready), sid, joined);
        if is_primary(server, id) {
            lemma_new_primary_wf(with_server(with_client(st, id, ready), sid, joined), sid);
        }
    } else if said is Configured && !is_primary(server, id) {
        lemma_client_kept(
            st,
            id,
            ClientView { last_configuration: Some(notification), ..client },
        );
    } else {
        lemma_documents_stay_distinct(server.documents, id, said);
        let documents = documents_after(server.documents, id, said).0;
        lemma_server_kept(st, sid, ServerView { documents, ..server });
    }
}

/// A well formed state stays well formed, whatever happens.
pub proof fn law_state_stays_well_formed(st: GlobalView, event: EventView)
    requires
        state_wf(st),
        enabled(st, event),
    ensures
        state_wf(outcome(st, event).state),
{
    match event {
        EventView::Connected(conn, readable) => {
            let after = outcome(st, event).state;
            if after.clients != st.clients {
                let client = after.clients[conn.id];
                lemma_client_kept(st, conn.id, client);
            }
        },
        EventView::Spawned(spawn) => {
            let server = server_after_send(new_server(), spawn.client_id, spawn.request_id);
            let client = new_client(spawn.server_id, spawn.request_id, spawn.work_done_progress);
            lemma_server_kept(st, spawn.server_id, server);
            lemma_client_kept(with_server(st, spawn.server_id, server), spawn.client_id, client);
            lemma_with_descriptor(st.descriptors, spawn.descriptor, spawn.server_id);
        },
        EventView::ClientRequest(id, request) => {
            if st.clients.contains_key(id) && request.method != "shutdown"@ {
                let sid = st.clients[id].server_id;
                assert(st.servers.contains_key(sid));
                assert(server_wf(st.servers[sid]));
                lemma_server_kept(st, sid, server_after_send(st.servers[sid], id, request.id));
            }
        },
        EventView::ClientResponse(id, response) => {
            if st.clients.contains_key(id) {
                let client = st.clients[id];
                let sid = client.server_id;
                assert(st.servers.contains_key(sid));
                let server = st.servers[sid];
                assert(server_wf(server));
                let heard = client_after_response(client, response.id);
                assert(client_wf(heard));
                lemma_client_kept(st, id, heard);
                if answered(client, response.id) is Some {
                    let at = request_at(server.pending, answered(client, response.id)->0);
                    lemma_request_at(server.pending, answered(client, response.id)->0);
                    if at < server.pending.len() {
                        lemma_remove_request(server.pending, at);
                        lemma_server_kept(
                            with_client(st, id, heard),
                            sid,
                            outcome(st, event).state.servers[sid],
                        );
                    }
                }
            }
        },
        EventView::ClientNotification(id, notification, said, found) => {
            if st.clients.contains_key(id) {
                let inner = client_notification_inner(st, id, notification, said, found);
                lemma_notification_wf(st, id, notification, said, found);
                if inner.result is Err && can_leave(inner.state, id) {
                    lemma_leave_wf(inner.state, id);
                }
            }
        },
        EventView::ServerRequest(sid, request) => {
            if st.servers.contains_key(sid) {
                let server = st.servers[sid];
                assert(server_wf(server));
                lemma_with_request(server.pending, request);
                let kept = ServerView {
                    pending: with_request(server.pending, request),
                    ..server
                };
                lemma_server_kept(st, sid, kept);
                if can_ask(st, sid, request) && server.connections.len() > 0 && !begins_with(
                    request.method,
                    "window/workDoneProgress/"@,
                ) {
                    let id = server.connections[0];
                    assert(client_wf(st.clients[id]));
                    lemma_client_kept(
                        with_server(st, sid, kept),
                        id,
                        client_after_send(st.clients[id], request.id),
                    );
                }
            }
        },
        EventView::ServerResponse(sid, response) => {
            if st.servers.contains_key(sid) {
                assert(server_wf(st.servers[sid]));
                lemma_server_kept(st, sid, server_after_response(st.servers[sid], response.id));
            }
        },
        EventView::ServerInitialized(sid, response, readable, roster, leavers) => {
            let server = st.servers[sid];
            assert(server_wf(server));
            let heard = server_after_response(server, response.id);
            lemma_server_kept(st, sid, heard);
            let after = with_server(st, sid, heard);
            match initialization(response, readable) {
                Ok(kept) => {
                    lemma_server_kept(
                        after,
                        sid,
                        ServerView { initialize_result: Some(kept), ..heard },
                    );
                },
                Err(_) => {
                    assert(is_roster(leavers, after, sid)) by {
                        assert forall|c: u32| #[trigger] leavers.contains(c) <==> is_client_of(
                            after,
                            c,
                            sid,
                        ) by {
                            assert(is_client_of(st, c, sid) == is_client_of(after, c, sid));
                        }
                    }
                    lemma_drop_server_wf(after, sid, leavers);
                },
            }
        },
        EventView::ServerNotification(_, _) => {},
        EventView::ClientDropped(id) => {
            lemma_leave_wf(st, id);
        },
        EventView::ServerDropped(sid, leavers) => {
            lemma_drop_server_wf(st, sid, leavers);
        },
    }
}

/// A daemon that has just been started.
pub open spec fn fresh(st: GlobalView) -> bool {
    &&& st.clients == Map::<u32, ClientView>::empty()
    &&& st.servers == Map::<u32, ServerView>::empty()
    &&& st.descriptors == Seq::<(DescriptorView, u32)>::empty()
}

/// The state after some events, one after the other.
pub open spec fn after_run(st: GlobalView, events: Seq<EventView>) -> GlobalView
    decreases events.len(),
{
    if events.len() == 0 {
        st
    } else {
        outcome(after_run(st, events.drop_last()), events.last()).state
    }
}

/// Events that can happen one after the other.
pub open spec fn is_run(st: GlobalView, events: Seq<EventView>) -> bool
    decreases events.len(),
{
    events.len() > 0 ==> {
        &&& is_run(st, events.drop_last())
        &&& enabled(after_run(st, events.drop_last()), events.last())
    }
}

/// Events each of which comes from clients that behave.
pub open spec fn is_orderly_run(st: GlobalView, events: Seq<EventView>) -> bool
    decreases events.len(),
{
    events.len() > 0 ==> {
        &&& is_orderly_run(st, events.drop_last())
        &&& orderly(after_run(st, events.drop_last()), events.last())
    }
}

/// Whatever happens, a well formed state stays well formed.
pub proof fn law_every_state_is_well_formed(st: GlobalView, events: Seq<EventView>)
    requires
        state_wf(st),
        is_run(st, events),
    ensures
        state_wf(after_run(st, events)),
    decreases events.len(),
{
    if events.len() > 0 {
        law_every_state_is_well_formed(st, events.drop_last());
        law_state_stays_well_formed(after_run(st, events.drop_last()), events.last());
    }
}

/// Whatever has happened since the daemon was started, the state is settled.
pub proof fn law_every_state_is_settled(st: GlobalView, events: Seq<EventView>)
    requires
        fresh(st),
        is_run(st, events),
        is_orderly_run(st, events),
    ensures
        state_wf(after_run(st, events)),
        settled(after_run(st, events)),
    decreases events.len(),
{
    if events.len() > 0 {
        let before = after_run(st, events.drop_last());
        law_every_state_is_settled(st, events.drop_last());
        law_state_stays_well_formed(before, events.last());
        law_state_stays_settled(before, events.last());
    }
}

/// A request stays in flight over any run of events that do not end the wait for it.
proof fn lemma_in_flight_over_run(
    st: GlobalView,
    events: Seq<EventView>,
    sid: u32,
    k: i32,
    id: u32,
    original: IdView,
)
    requires
        state_wf(st),
        is_run(st, events),
        in_flight(st, sid, k, id, original),
        forall|i: int| 0 <= i < events.len() ==> !ends_wait(#[trigger] events[i], sid, k),
        after_run(st, events).servers.contains_key(sid),
    ensures
        in_flight(after_run(st, events), sid, k, id, original),
    decreases events.len(),
{
    if events.len() > 0 {
        let rest = events.drop_last();
        let before = after_run(st, rest);
        assert(events.last() == events[events.len() - 1]);
        assert forall|i: int| 0 <= i < rest.len() implies !ends_wait(#[trigger] rest[i], sid, k) by {
            assert(rest[i] == events[i]);
        }
        law_every_state_is_well_formed(st, rest);
        lemma_only_spawning_adds(before, events.last(), sid);
        lemma_in_flight_over_run(st, rest, sid, k, id, original);
        law_in_flight_until_answered(before, events.last(), sid, k, id, original);
    }
}

/// A server that is there after an event was there before, unless it has just been started.
pub(crate) proof fn lemma_only_spawning_adds(st: GlobalView, event: EventView, sid: u32)
    requires
        state_wf(st),
        enabled(st, event),
        outcome(st, event).state.servers.contains_key(sid),
        !(event matches EventView::Spawned(spawn) && spawn.server_id == sid),
    ensures
        st.servers.contains_key(sid),
{
    match event {
        EventView::ClientRequest(c, _) => {
            if st.clients.contains_key(c) {
                assert(st.servers.contains_key(st.clients[c].server_id));
            }
        },
        EventView::ClientResponse(c, _) => {
            if st.clients.contains_key(c) {
                assert(st.servers.contains_key(st.clients[c].server_id));
            }
        },
        EventView::ClientNotification(c, notification, said, found) => {
            if st.clients.contains_key(c) {
                let s = st.clients[c].server_id;
                assert(st.servers.contains_key(s));
                let inner = client_notification_inner(st, c, notification, said, found);
                assert(inner.state.servers.dom() =~= st.servers.dom());
                if inner.result is Err && can_leave(inner.state, c) {
                    let dropped = drop_client(inner.state, c).state;
                    assert(dropped.servers.contains_key(sid));
                }
            }
        },
        EventView::ClientDropped(c) => {
            if st.clients.contains_key(c) {
                assert(st.servers.contains_key(st.clients[c].server_id));
            }
        },
        _ => {},
    }
}

/// A client gets what the server answers to its request, however much happens between: when a
/// client has sent a request and the server, some time later, answers under the number under which
/// the request went to it, then the answer goes to that client, if it is still there, under the id
/// that the client gave the request, and to nobody else.
pub proof fn law_every_request_gets_its_answer(
    st: GlobalView,
    id: u32,
    request: RequestView,
    events: Seq<EventView>,
    response: ResponseView,
)
    requires
        state_wf(st),
        st.clients.contains_key(id),
        request.method != "shutdown"@,
        can_request(st, id, request),
        ({
            let sid = st.clients[id].server_id;
            let k = st.servers[sid].next_request_id;
            let sent = client_request(st, id, request).state;
            let later = after_run(sent, events);
            &&& is_run(sent, events)
            &&& forall|i: int| 0 <= i < events.len() ==> !ends_wait(#[trigger] events[i], sid, k)
            &&& later.servers.contains_key(sid)
            &&& !awaits_initialization(later, sid)
            &&& later.clients.contains_key(id)
            &&& response.id == IdView::Number(k)
        }),
    ensures
        ({
            let sid = st.clients[id].server_id;
            let later = after_run(client_request(st, id, request).state, events);
            server_response(later, sid, response).actions == seq![
                ActionView::ToClient(
                    id,
                    MessageView::Response(ResponseView { id: request.id, ..response }),
                ),
            ]
        }),
{
    let sid = st.clients[id].server_id;
    let k = st.servers[sid].next_request_id;
    let sent = client_request(st, id, request).state;
    assert(st.servers.contains_key(sid));
    law_request_goes_to_the_server(st, id, request);
    assert(enabled(st, EventView::ClientRequest(id, request)));
    law_state_stays_well_formed(st, EventView::ClientRequest(id, request));
    assert(outcome(st, EventView::ClientRequest(id, request)).state == sent);
    lemma_in_flight_over_run(sent, events, sid, k, id, request.id);
}

/// Every task that the daemon handles is one of the events that the laws speak of, but for the end
/// of a server that is not known, of which nothing comes.
pub proof fn law_every_task_is_an_event(
    st: GlobalView,
    task: Task,
    after: GlobalView,
    from: Seq<Action>,
    to: Seq<Action>,
    r: Result<Option<SpawnRequest>, Error>,
)
    requires
        admitted(st, task),
        handled(st, task, after, from, to, r),
    ensures
        (exists|event: EventView|
            enabled(st, event) && after == (#[trigger] outcome(st, event)).state && action_views(to)
                == action_views(from) + outcome(st, event).actions) || (after == st && action_views(
            to,
        ) == action_views(from) && task is ServerShutdown),
{
    match task {
        Task::NewConnection(conn) => {
            let event = EventView::Connected(conn@, initialize_params(conn@.request.params));
            assert(enabled(st, event) && after == outcome(st, event).state);
        },
        Task::ClientMessage(id, Message::Request(req)) => {
            let event = EventView::ClientRequest(id.0, req@);
            assert(enabled(st, event) && after == outcome(st, event).state);
        },
        Task::ClientMessage(id, Message::Response(res)) => {
            let event = EventView::ClientResponse(id.0, res@);
            assert(enabled(st, event) && after == outcome(st, event).state);
        },
        Task::ClientMessage(id, Message::Notification(not)) => {
            let said = client_event(not@);
            let found = choose|found: Option<i32>| #[trigger]
                is_found(st, id.0, said, found) && exists|done: Result<(), Error>|
                    r == #[trigger] plain(done) && follows(
                        client_notification(st, id.0, not@, said, found),
                        after,
                        from,
                        to,
                        done,
                    );
            let event = EventView::ClientNotification(id.0, not@, said, found);
            assert(enabled(st, event) && after == outcome(st, event).state);
        },
        Task::ServerMessage(id, Message::Request(req)) => {
            let event = EventView::ServerRequest(id.0, req@);
            assert(enabled(st, event) && after == outcome(st, event).state);
        },
        Task::ServerMessage(id, Message::Response(res)) => {
            if awaits_initialization(st, id.0) {
                let readable = readable_result(res@);
                let (roster, leavers) = choose|roster: Seq<u32>, leavers: Seq<u32>|
                    is_roster(roster, st, id.0) && is_roster(leavers, st, id.0) && exists|
                        done: Result<(), Error>,
                    |
                        r == #[trigger] plain(done) && follows(
                            #[trigger] server_initialized(
                                st,
                                id.0,
                                res@,
                                readable,
                                roster,
                                leavers,
                            ),
                            after,
                            from,
                            to,
                            done,
                        );
                let event = EventView::ServerInitialized(id.0, res@, readable, roster, leavers);
                assert(enabled(st, event) && after == outcome(st, event).state);
            } else {
                let event = EventView::ServerResponse(id.0, res@);
                assert(enabled(st, event) && after == outcome(st, event).state);
            }
        },
        Task::ServerMessage(id, Message::Notification(not)) => {
            let event = EventView::ServerNotification(id.0, not@);
            assert(enabled(st, event) && after == outcome(st, event).state);
        },
        Task::ClientDropped(id) => {
            let event = EventView::ClientDropped(id.0);
            assert(enabled(st, event) && after == outcome(st, event).state);
        },
        Task::ServerShutdown(id) => {
            if st.servers.contains_key(id.0) {
                let leavers = choose|leavers: Seq<u32>| #[trigger]
                    is_roster(leavers, st, id.0) && exists|done: Result<(), Error>|
                        r == #[trigger] plain(done) && follows(
                            server_drop(st, id.0, leavers),
                            after,
                            from,
                            to,
                            done,
                        );
                let event = EventView::ServerDropped(id.0, leavers);
                assert(enabled(st, event) && after == outcome(st, event).state);
            } else {
                assert(action_views(from) + Seq::<ActionView>::empty() =~= action_views(from));
            }
        },
    }
}

} // verus!
