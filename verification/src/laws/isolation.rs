//! Servers are kept apart.

use crate::laws::{enabled, outcome, EventView};
use crate::laws::settled::{
    lemma_notification_settled, lemma_refused_keeps_wf, orderly, settled, settled_server,
};
use crate::model::{
    announcements, can_leave, client_notification_inner, drop_client, farewells, first_at,
    hands_over, is_abandoned, is_client_of, is_primary, is_roster, state_after_leave, state_wf,
    ActionView, GlobalView,
};
use crate::peers::lemma_first_at;
use vstd::prelude::*;

verus! {

/// The server that an event is about, if it is about one.
pub open spec fn server_of(st: GlobalView, event: EventView) -> Option<u32> {
    let of = |c: u32|
        if st.clients.contains_key(c) {
            Some(st.clients[c].server_id)
        } else {
            None
        };
    match event {
        EventView::Connected(_, _) => None,
        EventView::Spawned(spawn) => Some(spawn.server_id),
        EventView::ClientRequest(c, _) => of(c),
        EventView::ClientResponse(c, _) => of(c),
        EventView::ClientNotification(c, _, _, _) => of(c),
        EventView::ServerRequest(sid, _) => Some(sid),
        EventView::ServerResponse(sid, _) => Some(sid),
        EventView::ServerInitialized(sid, _, _, _, _) => Some(sid),
        EventView::ServerNotification(sid, _) => Some(sid),
        EventView::ClientDropped(c) => of(c),
        EventView::ServerDropped(sid, _) => Some(sid),
    }
}

/// The server `sid` and its clients have not changed.
pub open spec fn untouched(st: GlobalView, after: GlobalView, sid: u32) -> bool {
    &&& st.servers.contains_key(sid) <==> after.servers.contains_key(sid)
    &&& st.servers.contains_key(sid) ==> st.servers[sid] == after.servers[sid]
    &&& forall|c: u32| #[trigger]
        is_client_of(st, c, sid) ==> is_client_of(after, c, sid) && st.clients[c]
            == after.clients[c]
}

/// An event about one server changes nothing about any other server and its clients.
pub proof fn law_other_servers_are_untouched(st: GlobalView, event: EventView, other: u32)
    requires
        state_wf(st),
        settled(st),
        enabled(st, event),
        orderly(st, event),
        server_of(st, event) != Some(other),
    ensures
        untouched(st, outcome(st, event).state, other),
{
    match event {
        EventView::ClientNotification(id, notification, said, found) => {
            if st.clients.contains_key(id) {
                let sid = st.clients[id].server_id;
                assert(st.servers.contains_key(sid));
                assert(settled_server(st, sid));
                let inner = client_notification_inner(st, id, notification, said, found);
                assert(untouched(st, inner.state, other));
                if inner.result is Err && can_leave(inner.state, id) {
                    lemma_notification_settled(st, id, notification, said, found);
                    lemma_refused_keeps_wf(st, id, notification, said, found);
                    assert(inner.state.clients[id] == st.clients[id]);
                    lemma_leave_untouched(inner.state, id, other);
                }
            }
        },
        EventView::ServerRequest(sid, request) => {
            if st.servers.contains_key(sid) && st.servers[sid].connections.len() > 0 {
                assert(settled_server(st, sid));
                assert(is_client_of(st, st.servers[sid].connections[0], sid));
            }
        },
        EventView::ServerInitialized(sid, response, readable, roster, leavers) => {
            lemma_leavers_are_own(st, sid, leavers, other);
        },
        EventView::ClientDropped(id) => {
            if st.clients.contains_key(id) {
                lemma_leave_untouched(st, id, other);
            }
        },
        EventView::ServerDropped(sid, leavers) => {
            lemma_leavers_are_own(st, sid, leavers, other);
        },
        _ => {},
    }
}

/// None of those who leave with the server `sid` is a client of another one.
proof fn lemma_leavers_are_own(st: GlobalView, sid: u32, leavers: Seq<u32>, other: u32)
    requires
        is_roster(leavers, st, sid),
        sid != other,
    ensures
        forall|c: u32| #[trigger] is_client_of(st, c, other) ==> !leavers.to_set().contains(c),
{
    assert forall|c: u32| #[trigger] is_client_of(st, c, other) implies !leavers.to_set().contains(
        c,
    ) by {
        if leavers.to_set().contains(c) {
            assert(leavers.contains(c));
            assert(is_client_of(st, c, sid));
        }
    }
}

proof fn lemma_leave_untouched(st: GlobalView, id: u32, other: u32)
    requires
        state_wf(st),
        settled(st),
        st.clients.contains_key(id),
        can_leave(st, id),
        st.clients[id].server_id != other,
    ensures
        untouched(st, drop_client(st, id).state, other),
{
    let sid = st.clients[id].server_id;
    assert(st.servers.contains_key(sid));
    assert(settled_server(st, sid));
    let server = st.servers[sid];
    let after = state_after_leave(st, id);
    assert(untouched(st, after, other));
    if !is_abandoned(after, sid) && hands_over(server, id) {
        lemma_first_at(server.connections, id);
        assert(first_at(server.connections, id) == 0);
        assert(is_client_of(st, server.connections[1], sid));
        assert(after.servers[sid].connections[0] == server.connections[1]);
    }
}

/// An action that concerns the server `sid` or one of its clients.
pub open spec fn within(st: GlobalView, sid: u32, action: ActionView) -> bool {
    match action {
        ActionView::ToClient(c, _) => is_client_of(st, c, sid),
        ActionView::CloseClient(c) => is_client_of(st, c, sid),
        ActionView::ToServer(s, _) => s == sid,
        ActionView::KillServer(s) => s == sid,
    }
}

/// Actions that all concern the server `sid` or its clients.
pub open spec fn all_within(st: GlobalView, sid: u32, actions: Seq<ActionView>) -> bool {
    forall|i: int| 0 <= i < actions.len() ==> within(st, sid, #[trigger] actions[i])
}

/// Whoever stands on a list of the clients of a server is one.
proof fn lemma_roster_members(st: GlobalView, sid: u32, roster: Seq<u32>)
    requires
        is_roster(roster, st, sid),
    ensures
        forall|i: int| 0 <= i < roster.len() ==> is_client_of(st, #[trigger] roster[i], sid),
{
    assert forall|i: int| 0 <= i < roster.len() implies is_client_of(st, #[trigger] roster[i], sid) by {
        assert(roster.contains(roster[i]));
    }
}

/// What is said to those who leave with a server stays among them.
proof fn lemma_farewells_within(st: GlobalView, sid: u32, leavers: Seq<u32>)
    requires
        forall|i: int| 0 <= i < leavers.len() ==> is_client_of(st, #[trigger] leavers[i], sid),
    ensures
        all_within(st, sid, farewells(leavers)),
    decreases leavers.len(),
{
    if leavers.len() > 0 {
        assert forall|i: int| 0 <= i < leavers.drop_last().len() implies is_client_of(
            st,
            #[trigger] leavers.drop_last()[i],
            sid,
        ) by {
            assert(leavers.drop_last()[i] == leavers[i]);
        }
        lemma_farewells_within(st, sid, leavers.drop_last());
        assert(is_client_of(st, leavers[leavers.len() - 1], sid));
    }
}

proof fn lemma_leave_within(st: GlobalView, id: u32)
    requires
        state_wf(st),
        settled(st),
        can_leave(st, id),
    ensures
        st.clients.contains_key(id) ==> all_within(
            st,
            st.clients[id].server_id,
            drop_client(st, id).actions,
        ),
{
    if st.clients.contains_key(id) {
        let sid = st.clients[id].server_id;
        assert(st.servers.contains_key(sid));
        assert(settled_server(st, sid));
        let server = st.servers[sid];
        let after = state_after_leave(st, id);
        if !is_abandoned(after, sid) && hands_over(server, id) {
            lemma_first_at(server.connections, id);
            assert(first_at(server.connections, id) == 0);
            assert(is_client_of(st, server.connections[1], sid));
            assert(after.servers[sid].connections[0] == server.connections[1]);
        }
    }
}

/// What comes of an event about one server reaches that server and its clients and nobody else.
pub proof fn law_nobody_else_is_reached(st: GlobalView, event: EventView, sid: u32)
    requires
        state_wf(st),
        settled(st),
        enabled(st, event),
        orderly(st, event),
        server_of(st, event) == Some(sid),
    ensures
        all_within(st, sid, outcome(st, event).actions),
{
    let actions = outcome(st, event).actions;
    match event {
        EventView::ClientNotification(id, notification, said, found) => {
            assert(st.servers.contains_key(sid));
            assert(settled_server(st, sid));
            let inner = client_notification_inner(st, id, notification, said, found);
            if inner.result is Err {
                if can_leave(inner.state, id) {
                    lemma_notification_settled(st, id, notification, said, found);
                    lemma_refused_keeps_wf(st, id, notification, said, found);
                    assert(inner.state.clients == st.clients);
                    lemma_leave_within(inner.state, id);
                    assert forall|i: int| 0 <= i < actions.len() implies within(
                        st,
                        sid,
                        #[trigger] actions[i],
                    ) by {
                        assert(within(inner.state, sid, actions[i]));
                    }
                }
            } else if said is Initialized {
                let server = st.servers[sid];
                if is_primary(server, id) {
                    if server.connections.len() > 0 {
                        assert(is_client_of(st, server.connections[0], sid));
                    }
                }
            }
        },
        EventView::ServerRequest(s, request) => {
            if st.servers.contains_key(sid) && st.servers[sid].connections.len() > 0 {
                assert(settled_server(st, sid));
                assert(is_client_of(st, st.servers[sid].connections[0], sid));
            }
        },
        EventView::ServerResponse(s, response) => {
            if st.servers.contains_key(sid) {
                assert(settled_server(st, sid));
            }
        },
        EventView::ServerInitialized(s, response, readable, roster, leavers) => {
            let told = announcements(st, roster, response);
            lemma_roster_members(st, sid, roster);
            assert forall|i: int| 0 <= i < told.len() implies within(st, sid, #[trigger] told[i]) by {
                assert(is_client_of(st, roster[i], sid));
            }
            lemma_roster_members(st, sid, leavers);
            lemma_farewells_within(st, sid, leavers);
        },
        EventView::ServerNotification(s, notification) => {
            if st.servers.contains_key(sid) {
                assert(settled_server(st, sid));
                assert forall|i: int| 0 <= i < actions.len() implies within(
                    st,
                    sid,
                    #[trigger] actions[i],
                ) by {
                    assert(is_client_of(st, st.servers[sid].connections[i], sid));
                }
            }
        },
        EventView::ClientDropped(id) => {
            lemma_leave_within(st, id);
        },
        EventView::ServerDropped(s, leavers) => {
            lemma_roster_members(st, sid, leavers);
            lemma_farewells_within(st, sid, leavers);
        },
        _ => {},
    }
}

} // verus!
