//! What the daemon does with each task.

use crate::error::Error;
use crate::ids::{ClientId, ServerId};
use crate::laws::starting::{law_lists_hold_all_clients, lists_all_clients};
use crate::message::{Message, NotificationView, RequestView, Response};
use crate::model::{
    accepted, awaits_initialization, can_ask, can_broadcast, can_leave, can_notify, can_request,
    client_event, client_notification, client_request, client_response, connect, drop_client,
    first_at, hands_over, is_client_of, is_found, is_roster, joins_safely, readable_result,
    server_drop, server_initialized, server_notification, server_request, server_response,
    state_after_leave, state_wf, ActionView, ClientEventView, GlobalView, Outcome,
};
use crate::params::{initialize_params, initialize_result};
use crate::peers::lemma_first_at;
use crate::server::{action_views, follows, Action, NewConnection, SpawnRequest, Task};
use crate::server::tasks::{handled, plain};
use crate::text::begins_with;
use vstd::prelude::*;

verus! {

/// A task that calls for no server has come to `outcome`: the state is what it says, the actions
/// that it calls for have been added behind those from before, and the result says whether it was
/// accepted and if not, why.
pub open spec fn comes_to(
    outcome: Outcome,
    after: GlobalView,
    from: Seq<Action>,
    to: Seq<Action>,
    r: Result<Option<SpawnRequest>, Error>,
) -> bool {
    &&& after == outcome.state
    &&& to.len() == from.len() + outcome.actions.len()
    &&& forall|i: int| 0 <= i < from.len() ==> (#[trigger] to[i])@ == from[i]@
    &&& forall|i: int|
        #![trigger outcome.actions[i]]
        0 <= i < outcome.actions.len() ==> to[from.len() + i]@ == outcome.actions[i]
    &&& match outcome.result {
        Ok(_) => r matches Ok(None),
        Err(e) => r matches Err(error) && error@ == e,
    }
}

/// What a client says comes to what its message comes to, for that client: a request, a response and
/// a notification each to its own.
pub proof fn law_client_message_comes_to_its_own(
    st: GlobalView,
    id: ClientId,
    message: Message,
    after: GlobalView,
    from: Seq<Action>,
    to: Seq<Action>,
    r: Result<Option<SpawnRequest>, Error>,
)
    requires
        handled(st, Task::ClientMessage(id, message), after, from, to, r),
    ensures
        message matches Message::Request(req) ==> comes_to(
            client_request(st, id.0, req@),
            after,
            from,
            to,
            r,
        ),
        message matches Message::Response(res) ==> comes_to(
            client_response(st, id.0, res@),
            after,
            from,
            to,
            r,
        ),
        message matches Message::Notification(not) ==> exists|found: Option<i32>|
            is_found(st, id.0, client_event(not@), found) && comes_to(
                #[trigger] client_notification(st, id.0, not@, client_event(not@), found),
                after,
                from,
                to,
                r,
            ),
{
    match message {
        Message::Request(req) => {
            lemma_comes_to(client_request(st, id.0, req@), after, from, to, r);
        },
        Message::Response(res) => {
            lemma_comes_to(client_response(st, id.0, res@), after, from, to, r);
        },
        Message::Notification(not) => {
            let said = client_event(not@);
            let found = choose|found: Option<i32>| #[trigger]
                is_found(st, id.0, said, found) && exists|done: Result<(), Error>|
                    r == #[trigger] plain(done) && follows(
                        client_notification(st, id.0, not@, said, found),
                        after,
                        from,
                        to,
                        done,
                    );
            lemma_comes_to(client_notification(st, id.0, not@, said, found), after, from, to, r);
        },
    }
}

/// The request or the notification of a server comes to what it comes to, for that server.
pub proof fn law_server_message_comes_to_its_own(
    st: GlobalView,
    id: ServerId,
    message: Message,
    after: GlobalView,
    from: Seq<Action>,
    to: Seq<Action>,
    r: Result<Option<SpawnRequest>, Error>,
)
    requires
        handled(st, Task::ServerMessage(id, message), after, from, to, r),
    ensures
        message matches Message::Request(req) ==> comes_to(
            server_request(st, id.0, req@),
            after,
            from,
            to,
            r,
        ),
        message matches Message::Notification(not) ==> comes_to(
            server_notification(st, id.0, not@),
            after,
            from,
            to,
            r,
        ),
{
    match message {
        Message::Request(req) => {
            lemma_comes_to(server_request(st, id.0, req@), after, from, to, r);
        },
        Message::Response(_) => {},
        Message::Notification(not) => {
            lemma_comes_to(server_notification(st, id.0, not@), after, from, to, r);
        },
    }
}

/// A server that has not said yet how its initialization went says so with its first response, by
/// its result as far as that can be read. Every other response of a server answers a request.
pub proof fn law_first_response_is_about_the_initialization(
    st: GlobalView,
    id: ServerId,
    res: Response,
    readable: Option<Seq<char>>,
    after: GlobalView,
    from: Seq<Action>,
    to: Seq<Action>,
    r: Result<Option<SpawnRequest>, Error>,
)
    requires
        handled(st, Task::ServerMessage(id, Message::Response(res)), after, from, to, r),
        res@.result matches Some(result) ==> readable == initialize_result(result),
        res@.result is None ==> readable is None,
    ensures
        ({
            let waits = st.servers.contains_key(id.0) && st.servers[id.0].initialize_result is None;
            &&& waits ==> exists|roster: Seq<u32>, leavers: Seq<u32>|
                lists_all_clients(roster, st, id.0) && lists_all_clients(leavers, st, id.0)
                    && comes_to(
                    #[trigger] server_initialized(st, id.0, res@, readable, roster, leavers),
                    after,
                    from,
                    to,
                    r,
                )
            &&& !waits ==> comes_to(server_response(st, id.0, res@), after, from, to, r)
        }),
{
    if awaits_initialization(st, id.0) {
        assert(readable == readable_result(res@));
        let (roster, leavers) = choose|roster: Seq<u32>, leavers: Seq<u32>|
            is_roster(roster, st, id.0) && is_roster(leavers, st, id.0) && exists|
                done: Result<(), Error>,
            |
                r == #[trigger] plain(done) && follows(
                    #[trigger] server_initialized(st, id.0, res@, readable, roster, leavers),
                    after,
                    from,
                    to,
                    done,
                );
        law_lists_hold_all_clients(roster, st, id.0);
        law_lists_hold_all_clients(leavers, st, id.0);
        lemma_comes_to(
            server_initialized(st, id.0, res@, readable, roster, leavers),
            after,
            from,
            to,
            r,
        );
    } else {
        lemma_comes_to(server_response(st, id.0, res@), after, from, to, r);
    }
}

/// A client that is gone leaves. A server that is gone goes with its clients, and the end of a
/// server that is not known changes nothing.
pub proof fn law_gone_is_gone(
    st: GlobalView,
    task: Task,
    after: GlobalView,
    from: Seq<Action>,
    to: Seq<Action>,
    r: Result<Option<SpawnRequest>, Error>,
)
    requires
        handled(st, task, after, from, to, r),
    ensures
        task matches Task::ClientDropped(id) ==> comes_to(
            drop_client(st, id.0),
            after,
            from,
            to,
            r,
        ),
        task matches Task::ServerShutdown(id) ==> {
            &&& st.servers.contains_key(id.0) ==> exists|leavers: Seq<u32>|
                lists_all_clients(leavers, st, id.0) && comes_to(
                    #[trigger] server_drop(st, id.0, leavers),
                    after,
                    from,
                    to,
                    r,
                )
            &&& !st.servers.contains_key(id.0) ==> {
                &&& after == st
                &&& to.len() == from.len()
                &&& r matches Ok(None)
            }
        },
{
    match task {
        Task::ClientDropped(id) => {
            lemma_comes_to(drop_client(st, id.0), after, from, to, r);
        },
        Task::ServerShutdown(id) => {
            if st.servers.contains_key(id.0) {
                let leavers = choose|leavers: Seq<u32>| #[trigger]
                    is_roster(leavers, st, id.0) && exists|done: Result<(), Error>|
                        r == #[trigger] plain(done) && follows(
                            server_drop(st, id.0, leavers),
                            after,
                            from,
                            to,
                            done,
                        );
                law_lists_hold_all_clients(leavers, st, id.0);
                lemma_comes_to(server_drop(st, id.0, leavers), after, from, to, r);
            } else {
                lemma_comes_to(accepted(st, Seq::empty()), after, from, to, r);
            }
        },
        _ => {},
    }
}

/// A client that wants to be connected is connected as its first request and its bootstrap message
/// say, with the parameters of that request as far as they can be read. Where that calls for a
/// server, the result says which.
pub proof fn law_new_connection_is_connected(
    st: GlobalView,
    conn: NewConnection,
    after: GlobalView,
    from: Seq<Action>,
    to: Seq<Action>,
    r: Result<Option<SpawnRequest>, Error>,
)
    requires
        handled(st, Task::NewConnection(conn), after, from, to, r),
    ensures
        ({
            let done = connect(st, conn@, initialize_params(conn.request.params@));
            &&& after == done.state
            &&& to.len() == from.len() + done.actions.len()
            &&& forall|i: int| 0 <= i < from.len() ==> (#[trigger] to[i])@ == from[i]@
            &&& forall|i: int|
                #![trigger done.actions[i]]
                0 <= i < done.actions.len() ==> to[from.len() + i]@ == done.actions[i]
            &&& match done.result {
                Ok(None) => r matches Ok(None),
                Ok(Some(spawn)) => r matches Ok(Some(request)) && request@ == spawn,
                Err(e) => r matches Err(error) && error@ == e,
            }
        }),
{
    let done = connect(st, conn@, initialize_params(conn.request.params@));
    lemma_added(done.actions, from, to);
}

proof fn lemma_added(actions: Seq<ActionView>, from: Seq<Action>, to: Seq<Action>)
    requires
        action_views(to) == action_views(from) + actions,
    ensures
        to.len() == from.len() + actions.len(),
        forall|i: int| 0 <= i < from.len() ==> (#[trigger] to[i])@ == from[i]@,
        forall|i: int|
            #![trigger actions[i]]
            0 <= i < actions.len() ==> to[from.len() + i]@ == actions[i],
{
    assert(action_views(to).len() == to.len());
    assert forall|i: int| 0 <= i < from.len() implies (#[trigger] to[i])@ == from[i]@ by {
        assert(action_views(to)[i] == action_views(from)[i]);
    }
    assert forall|i: int| #![trigger actions[i]] 0 <= i < actions.len() implies to[from.len()
        + i]@ == actions[i] by {
        assert(action_views(to)[from.len() + i] == actions[i]);
    }
}

proof fn lemma_comes_to(
    outcome: Outcome,
    after: GlobalView,
    from: Seq<Action>,
    to: Seq<Action>,
    r: Result<Option<SpawnRequest>, Error>,
)
    requires
        exists|done: Result<(), Error>|
            r == #[trigger] plain(done) && follows(outcome, after, from, to, done),
    ensures
        comes_to(outcome, after, from, to, r),
{
    let done = choose|done: Result<(), Error>|
        r == #[trigger] plain(done) && follows(outcome, after, from, to, done);
    lemma_added(outcome.actions, from, to);
}

/// When the daemon is ready for what a client or a server says. A request needs a number for it on
/// the other side. A client that becomes the oldest connection, by becoming ready or because the
/// oldest leaves, needs numbers for all that is pending and has to be there, and so has everybody
/// whom something goes to. Nothing else stands in the way.
pub proof fn law_when_the_daemon_is_ready(
    st: GlobalView,
    id: u32,
    sid: u32,
    request: RequestView,
    notification: NotificationView,
)
    requires
        state_wf(st),
    ensures
        ({
            let own = st.clients[id].server_id;
            let server = st.servers[own];
            let heir = server.connections[1];
            let waited_for = exists|c: u32|
                c != id && #[trigger] st.clients.contains_key(c) && st.clients[c].server_id == own;
            &&& !st.clients.contains_key(id) ==> can_leave(st, id) && can_request(st, id, request)
            &&& st.clients.contains_key(id) ==> {
                &&& can_request(st, id, request) <==> request.method == "shutdown"@
                    || server.next_request_id < i32::MAX
                &&& can_leave(st, id) <==> {
                    ||| server.connections.len() <= 1
                    ||| server.connections[0] != id
                    ||| server.initialize_result is None && !waited_for
                    ||| {
                        &&& heir != id
                        &&& st.clients.contains_key(heir)
                        &&& st.clients[heir].next_request_id + server.pending.len() <= i32::MAX
                    }
                }
                &&& joins_safely(st, id, ClientEventView::Initialized) <==> {
                    ||| server.connections.len() > 0 && server.connections[0] != id
                    ||| st.clients[id].next_request_id + server.pending.len() <= i32::MAX
                }
            }
            &&& can_notify(st, id, notification) <==> {
                &&& notification.method != "exit"@
                &&& notification.method != "initialized"@ || joins_safely(
                    st,
                    id,
                    ClientEventView::Initialized,
                )
            }
            &&& !st.servers.contains_key(sid) ==> can_ask(st, sid, request) && can_broadcast(
                st,
                sid,
                notification,
            )
            &&& st.servers.contains_key(sid) ==> {
                let connections = st.servers[sid].connections;
                &&& can_ask(st, sid, request) <==> {
                    ||| begins_with(request.method, "window/workDoneProgress/"@)
                    ||| connections.len() == 0
                    ||| st.clients.contains_key(connections[0])
                        && st.clients[connections[0]].next_request_id < i32::MAX
                }
                &&& can_broadcast(st, sid, notification) <==> notification.method == "$/progress"@
                    || forall|i: int|
                    0 <= i < connections.len() ==> st.clients.contains_key(
                        #[trigger] connections[i],
                    )
            }
        }),
{
    if st.clients.contains_key(id) {
        let own = st.clients[id].server_id;
        assert(st.servers.contains_key(own));
        let server = st.servers[own];
        let after = state_after_leave(st, id);
        lemma_first_at(server.connections, id);
        if hands_over(server, id) {
            assert(first_at(server.connections, id) == 0);
            assert(after.servers[own].connections[0] == server.connections[1]);
        }
        let waited_for = exists|c: u32|
            c != id && #[trigger] st.clients.contains_key(c) && st.clients[c].server_id == own;
        if waited_for {
            let c = choose|c: u32|
                c != id && #[trigger] st.clients.contains_key(c) && st.clients[c].server_id == own;
            assert(is_client_of(after, c, own));
        }
        if exists|c: u32| is_client_of(after, c, own) {
            let c = choose|c: u32| is_client_of(after, c, own);
            assert(st.clients.contains_key(c));
        }
    }
}

} // verus!
