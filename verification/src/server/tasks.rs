//! The events of the daemon, all in one.

use crate::error::Error;
use crate::ids::{ClientId, ServerId};
use crate::message::{Message, Notification, Request};
use crate::model::{
    accepted, awaits_initialization, can_ask, can_broadcast, can_leave, can_notify, can_request,
    client_event, client_notification, client_request, client_response, connect, drop_client,
    is_found, is_roster, readable_result, server_drop, server_initialized, server_notification,
    server_request, server_response, state_wf, GlobalView, Outcome,
};
use crate::params::initialize_params;
use crate::peers::{numbers, ServerState};
use crate::server::{action_views, follows, Action, GlobalState, SpawnRequest, Task};
use crate::server::connecting::connect_view;
use crate::table::map_get;
use crate::text::{has_prefix, same_text};
use vstd::prelude::*;

verus! {

/// The state is ready for an event.
pub open spec fn admitted(st: GlobalView, task: Task) -> bool {
    match task {
        Task::ClientMessage(id, Message::Request(req)) => can_request(st, id.0, req@),
        Task::ClientMessage(id, Message::Notification(not)) => can_notify(st, id.0, not@),
        Task::ServerMessage(id, Message::Request(req)) => can_ask(st, id.0, req@),
        Task::ServerMessage(id, Message::Notification(not)) => can_broadcast(st, id.0, not@),
        Task::ClientDropped(id) => can_leave(st, id.0),
        _ => true,
    }
}

/// The result of an event that calls for no server.
pub open spec fn plain(r: Result<(), Error>) -> Result<Option<SpawnRequest>, Error> {
    match r {
        Ok(_) => Ok(None),
        Err(e) => Err(e),
    }
}

/// An event has been handled: the state has gone from `st` to `after`, the list of actions has
/// grown from `from` to `to`, and the result is `r`.
pub open spec fn handled(
    st: GlobalView,
    task: Task,
    after: GlobalView,
    from: Seq<Action>,
    to: Seq<Action>,
    r: Result<Option<SpawnRequest>, Error>,
) -> bool {
    let is = |outcome: Outcome| exists|done: Result<(), Error>|
        r == #[trigger] plain(done) && follows(outcome, after, from, to, done);
    match task {
        Task::NewConnection(conn) => {
            let outcome = connect(st, conn@, initialize_params(conn@.request.params));
            &&& after == outcome.state
            &&& action_views(to) == action_views(from) + outcome.actions
            &&& connect_view(r) == outcome.result
        },
        Task::ClientMessage(id, Message::Request(req)) => is(client_request(st, id.0, req@)),
        Task::ClientMessage(id, Message::Response(res)) => is(client_response(st, id.0, res@)),
        Task::ClientMessage(id, Message::Notification(not)) => {
            let event = client_event(not@);
            exists|found: Option<i32>| #[trigger]
                is_found(st, id.0, event, found) && is(
                    client_notification(st, id.0, not@, event, found),
                )
        },
        Task::ServerMessage(id, Message::Request(req)) => is(server_request(st, id.0, req@)),
        Task::ServerMessage(id, Message::Response(res)) => if awaits_initialization(st, id.0) {
            exists|roster: Seq<u32>, leavers: Seq<u32>|
                is_roster(roster, st, id.0) && is_roster(leavers, st, id.0) && is(
                    #[trigger] server_initialized(
                        st,
                        id.0,
                        res@,
                        readable_result(res@),
                        roster,
                        leavers,
                    ),
                )
        } else {
            is(server_response(st, id.0, res@))
        },
        Task::ServerMessage(id, Message::Notification(not)) => is(
            server_notification(st, id.0, not@),
        ),
        Task::ClientDropped(id) => is(drop_client(st, id.0)),
        Task::ServerShutdown(id) => if st.servers.contains_key(id.0) {
            exists|leavers: Seq<u32>| #[trigger]
                is_roster(leavers, st, id.0) && is(server_drop(st, id.0, leavers))
        } else {
            is(accepted(st, Seq::empty()))
        },
    }
}

impl GlobalState {
    /// Whether there is a number left for the request of a client.
    fn may_request(&self, id: ClientId, req: &Request) -> (yes: bool)
        requires
            state_wf(self@),
        ensures
            yes == can_request(self@, id.0, req@),
    {
        if same_text(req.method.as_str(), "shutdown") {
            return true;
        }
        match map_get(&self.client, &id.0) {
            Some(client) => {
                assert(self@.clients.contains_key(id.0));
                match map_get(&self.server, &client.server_id.0) {
                    Some(server) => server.next_request_id < i32::MAX,
                    None => false,
                }
            },
            None => true,
        }
    }

    /// Whether a client may notify its server of something.
    fn may_notify(&self, id: ClientId, not: &Notification) -> (yes: bool)
        requires
            state_wf(self@),
        ensures
            yes == can_notify(self@, id.0, not@),
    {
        if same_text(not.method.as_str(), "exit") {
            return false;
        }
        if !same_text(not.method.as_str(), "initialized") {
            return true;
        }
        match map_get(&self.client, &id.0) {
            Some(client) => {
                assert(self@.clients.contains_key(id.0));
                match map_get(&self.server, &client.server_id.0) {
                    Some(server) => {
                        assert(numbers(server.connections@).len() == server.connections.len());
                        (server.connections.len() > 0 && server.connections[0] != id)
                            || server.pending_server_requests.len() <= (i32::MAX
                            - client.next_request_id) as usize
                    },
                    None => false,
                }
            },
            None => true,
        }
    }

    /// Whether the request of a server can go to the primary, if it has to.
    fn may_ask(&self, id: ServerId, req: &Request) -> (yes: bool)
        ensures
            yes == can_ask(self@, id.0, req@),
    {
        if has_prefix(req.method.as_str(), "window/workDoneProgress/") {
            return true;
        }
        match map_get(&self.server, &id.0) {
            Some(server) => {
                assert(self@.servers[id.0] == server@);
                if server.connections.len() == 0 {
                    return true;
                }
                match map_get(&self.client, &server.connections[0].0) {
                    Some(client) => client.next_request_id < i32::MAX,
                    None => false,
                }
            },
            None => true,
        }
    }

    /// Whether all those are there whom a notification of a server goes to.
    fn may_broadcast(&self, id: ServerId, not: &Notification) -> (yes: bool)
        ensures
            yes == can_broadcast(self@, id.0, not@),
    {
        if same_text(not.method.as_str(), "$/progress") {
            return true;
        }
        let server: &ServerState = match map_get(&self.server, &id.0) {
            Some(server) => server,
            None => {
                return true;
            },
        };
        let mut i: usize = 0;
        while i < server.connections.len()
            invariant
                i <= server.connections.len(),
                self@.servers.contains_key(id.0),
                self@.servers[id.0] == server@,
                not@.method != "$/progress"@,
                forall|j: int|
                    0 <= j < i ==> self@.clients.contains_key(
                        #[trigger] self@.servers[id.0].connections[j],
                    ),
            decreases server.connections.len() - i,
        {
            if map_get(&self.client, &server.connections[i].0).is_none() {
                assert(!self@.clients.contains_key(self@.servers[id.0].connections[i as int]));
                return false;
            }
            i += 1;
        }
        true
    }

    /// Whether the state is ready for an event.
    pub fn admits(&self, task: &Task) -> (yes: bool)
        requires
            state_wf(self@),
        ensures
            yes == admitted(self@, *task),
    {
        match task {
            Task::ClientMessage(id, Message::Request(req)) => self.may_request(*id, req),
            Task::ClientMessage(id, Message::Notification(not)) => self.may_notify(*id, not),
            Task::ServerMessage(id, Message::Request(req)) => self.may_ask(*id, req),
            Task::ServerMessage(id, Message::Notification(not)) => self.may_broadcast(*id, not),
            Task::ClientDropped(id) => self.may_leave(*id),
            _ => true,
        }
    }
}

/// The result of an event that calls for no server.
fn without_spawn(r: Result<(), Error>) -> (result: Result<Option<SpawnRequest>, Error>)
    ensures
        result == plain(r),
{
    match r {
        Ok(_) => Ok(None),
        Err(e) => Err(e),
    }
}

impl GlobalState {
    /// Handles an event. Where it calls for a server to be started, [`GlobalState::server_spawned`]
    /// goes on once that has been done.
    pub fn handle_task(&mut self, task: Task, out: &mut Vec<Action>) -> (r: Result<
        Option<SpawnRequest>,
        Error,
    >)
        requires
            state_wf(old(self)@),
            admitted(old(self)@, task),
        ensures
            handled(old(self)@, task, final(self)@, old(out)@, final(out)@, r),
            state_wf(final(self)@),
    {
        match task {
            Task::NewConnection(conn) => self.handle_new_connection(conn, out),
            Task::ClientMessage(id, Message::Request(req)) => without_spawn(
                self.handle_client_request(id, req, out),
            ),
            Task::ClientMessage(id, Message::Response(res)) => without_spawn(
                self.handle_client_response(id, res, out),
            ),
            Task::ClientMessage(id, Message::Notification(not)) => without_spawn(
                self.handle_client_notification(id, not, out),
            ),
            Task::ServerMessage(id, Message::Request(req)) => without_spawn(
                self.handle_server_request(id, req, out),
            ),
            Task::ServerMessage(id, Message::Response(res)) => without_spawn(
                self.handle_server_response(id, res, out),
            ),
            Task::ServerMessage(id, Message::Notification(not)) => without_spawn(
                self.handle_server_notification(id, not, out),
            ),
            Task::ClientDropped(id) => without_spawn(self.drop_client(id, out)),
            Task::ServerShutdown(id) => without_spawn(self.handle_server_drop(id, out)),
        }
    }
}

} // verus!
