//! What holds of the daemon as a whole.
//!
//! An [`EventView`] is anything that can happen to the daemon. The laws speak of what any event, or
//! several events in a row, make of the state and of the actions that they call for.

pub mod connecting;
pub mod documents;
pub mod effects;
pub mod isolation;
pub mod joining;
pub mod leaving;
pub mod notices;
pub mod passing;
pub mod primary;
pub mod renaming;
pub mod requests;
pub mod runs;
pub mod settled;
pub mod sharing;
pub mod starting;
pub mod tasks;

use crate::message::{NotificationView, RequestView, ResponseView};
use crate::model::{
    awaits_initialization, can_ask, can_broadcast, can_leave, can_request, client_notification,
    client_request, client_response, connect, drop_client, is_found, is_roster, joins_safely,
    server_drop, server_initialized, server_notification, server_request, server_response,
    server_spawned, ClientEventView, ConnectionView, GlobalView, Outcome, SpawnRequestView,
};
use crate::params::InitializeView;
use vstd::prelude::*;

verus! {

/// Something that happens to the daemon, with all that decides what it comes to.
pub enum EventView {
    /// A client connects; the parameters of its first request are as far as they can be read.
    Connected(ConnectionView, Option<InitializeView>),
    /// A server has been started.
    Spawned(SpawnRequestView),
    /// A client sends a request.
    ClientRequest(u32, RequestView),
    /// A client answers a request.
    ClientResponse(u32, ResponseView),
    /// A client notifies its server, of what the event says; a request that it cancels has been
    /// looked for.
    ClientNotification(u32, NotificationView, ClientEventView, Option<i32>),
    /// A server sends a request.
    ServerRequest(u32, RequestView),
    /// A server that is initialized answers a request.
    ServerResponse(u32, ResponseView),
    /// A server says how its initialization went; the two lists are orders of its clients.
    ServerInitialized(u32, ResponseView, Option<Seq<char>>, Seq<u32>, Seq<u32>),
    /// A server notifies its clients.
    ServerNotification(u32, NotificationView),
    /// A client is gone.
    ClientDropped(u32),
    /// A server is gone; the list is an order of its clients.
    ServerDropped(u32, Seq<u32>),
}

/// An event that can happen in a state.
pub open spec fn enabled(st: GlobalView, event: EventView) -> bool {
    match event {
        EventView::Connected(_, _) => true,
        EventView::Spawned(_) => true,
        EventView::ClientRequest(id, request) => can_request(st, id, request),
        EventView::ClientResponse(_, _) => true,
        EventView::ClientNotification(id, _, said, found) => {
            &&& joins_safely(st, id, said)
            &&& is_found(st, id, said, found)
        },
        EventView::ServerRequest(sid, request) => can_ask(st, sid, request),
        EventView::ServerResponse(sid, _) => !awaits_initialization(st, sid),
        EventView::ServerInitialized(sid, _, _, roster, leavers) => {
            &&& awaits_initialization(st, sid)
            &&& is_roster(roster, st, sid)
            &&& is_roster(leavers, st, sid)
        },
        EventView::ServerNotification(sid, notification) => can_broadcast(st, sid, notification),
        EventView::ClientDropped(id) => can_leave(st, id),
        EventView::ServerDropped(sid, leavers) => {
            &&& st.servers.contains_key(sid)
            &&& is_roster(leavers, st, sid)
        },
    }
}

/// What an event comes to.
pub open spec fn outcome(st: GlobalView, event: EventView) -> Outcome {
    match event {
        EventView::Connected(conn, readable) => {
            let connected = connect(st, conn, readable);
            Outcome {
                state: connected.state,
                actions: connected.actions,
                result: match connected.result {
                    Ok(_) => Ok(()),
                    Err(e) => Err(e),
                },
            }
        },
        EventView::Spawned(spawn) => server_spawned(st, spawn),
        EventView::ClientRequest(id, request) => client_request(st, id, request),
        EventView::ClientResponse(id, response) => client_response(st, id, response),
        EventView::ClientNotification(id, notification, said, found) => client_notification(
            st,
            id,
            notification,
            said,
            found,
        ),
        EventView::ServerRequest(sid, request) => server_request(st, sid, request),
        EventView::ServerResponse(sid, response) => server_response(st, sid, response),
        EventView::ServerInitialized(sid, response, readable, roster, leavers) =>
            server_initialized(st, sid, response, readable, roster, leavers),
        EventView::ServerNotification(sid, notification) => server_notification(
            st,
            sid,
            notification,
        ),
        EventView::ClientDropped(id) => drop_client(st, id),
        EventView::ServerDropped(sid, leavers) => server_drop(st, sid, leavers),
    }
}

} // verus!
