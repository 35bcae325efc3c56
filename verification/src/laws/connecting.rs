//! How clients and servers find each other.

use crate::launch::{asks_directory, descriptor_for, workspace_for};
use crate::laws::{enabled, outcome, EventView};
use crate::message::{MessageView, NotificationView, ResponseView};
use crate::model::{
    announcements, awaits_initialization, can_leave, client_notification_inner, connect,
    descriptor_at, drop_client, farewell, farewells, is_abandoned, is_client_of, is_roster,
    running_server, server_drop, server_initialized, server_spawned, state_after_leave, state_wf,
    ActionView, ConnectionView, ErrorView, GlobalView, SpawnRequestView,
};
use crate::params::InitializeView;
use crate::root::is_absolute;
use crate::server::connecting::lemma_descriptor_at;
use crate::types::DescriptorView;
use vstd::prelude::*;

verus! {

/// Clients that need the same server get the same server: when a server has been started for one
/// client, another client that needs a server with the same descriptor is added to it, and no
/// other server is started.
pub proof fn law_same_descriptor_same_server(
    st: GlobalView,
    spawn: SpawnRequestView,
    conn: ConnectionView,
    init: InitializeView,
    workspace: Seq<char>,
)
    requires
        state_wf(st),
        conn.request.method == "initialize"@,
        asks_directory(conn.bootstrap, init) ==> is_absolute(conn.bootstrap.cwd),
        workspace_for(conn.bootstrap, init, conn.files) == Some(workspace),
        spawn.descriptor == descriptor_for(
            st.config.rust_analyzer_bin@,
            conn.bootstrap,
            workspace,
        ),
    ensures
        ({
            let started = server_spawned(st, spawn).state;
            let connected = connect(started, conn, Some(init));
            &&& connected.result == Ok::<Option<SpawnRequestView>, ErrorView>(None)
            &&& connected.state.clients[conn.id].server_id == spawn.server_id
            &&& connected.state.servers == started.servers
        }),
{
    let started = server_spawned(st, spawn).state;
    lemma_descriptor_at(st.descriptors, spawn.descriptor);
    lemma_descriptor_at(started.descriptors, spawn.descriptor);
    let at = descriptor_at(st.descriptors, spawn.descriptor);
    let now = descriptor_at(started.descriptors, spawn.descriptor);
    assert(started.descriptors[at].0 == spawn.descriptor);
    assert(now <= at);
    if now < at {
        assert(started.descriptors[now] == st.descriptors[now]);
    }
}

/// No two descriptors stand for the same server.
pub open spec fn distinct_servers(descriptors: Seq<(DescriptorView, u32)>) -> bool {
    forall|i: int, j: int|
        0 <= i < j < descriptors.len() ==> #[trigger] descriptors[i].1 != #[trigger] descriptors[j].1
}

/// Clients that need different servers get different servers, as long as a new server gets a
/// number that no server had before.
pub proof fn law_different_descriptor_different_server(
    st: GlobalView,
    a: DescriptorView,
    b: DescriptorView,
)
    requires
        distinct_servers(st.descriptors),
        a != b,
        running_server(st, a) is Some,
        running_server(st, b) is Some,
    ensures
        running_server(st, a) != running_server(st, b),
{
    lemma_descriptor_at(st.descriptors, a);
    lemma_descriptor_at(st.descriptors, b);
    let i = descriptor_at(st.descriptors, a);
    let j = descriptor_at(st.descriptors, b);
    if i < j {
        assert(st.descriptors[i].1 != st.descriptors[j].1);
    } else {
        assert(st.descriptors[j].1 != st.descriptors[i].1);
    }
}

/// Starting a server under a number that stands for no descriptor keeps the servers of different
/// descriptors apart.
pub proof fn law_servers_stay_apart(st: GlobalView, spawn: SpawnRequestView)
    requires
        distinct_servers(st.descriptors),
        forall|i: int|
            0 <= i < st.descriptors.len() ==> #[trigger] st.descriptors[i].1 != spawn.server_id,
    ensures
        distinct_servers(server_spawned(st, spawn).state.descriptors),
{
    let before = st.descriptors;
    let after = server_spawned(st, spawn).state.descriptors;
    lemma_descriptor_at(before, spawn.descriptor);
    let at = descriptor_at(before, spawn.descriptor);
    assert forall|i: int, j: int| 0 <= i < j < after.len() implies #[trigger] after[i].1
        != #[trigger] after[j].1 by {
        if i != at {
            assert(after[i] == before[i]);
        }
        if j != at && j < before.len() {
            assert(after[j] == before[j]);
        }
    }
}

/// Whether a client can be connected or not, nobody else notices: whatever is done is done to that
/// client, the servers stay as they are, and so do the other clients.
pub proof fn law_connecting_concerns_only_the_client(
    st: GlobalView,
    conn: ConnectionView,
    readable: Option<InitializeView>,
)
    ensures
        ({
            let connected = connect(st, conn, readable);
            &&& connected.state.servers == st.servers
            &&& connected.state.descriptors == st.descriptors
            &&& forall|c: u32| c != conn.id ==> (#[trigger] connected.state.clients.contains_key(c)
                <==> st.clients.contains_key(c))
            &&& forall|c: u32|
                c != conn.id && st.clients.contains_key(c)
                    ==> #[trigger] connected.state.clients[c] == st.clients[c]
            &&& forall|i: int|
                0 <= i < connected.actions.len() ==> match #[trigger] connected.actions[i] {
                    ActionView::ToClient(c, _) => c == conn.id,
                    ActionView::CloseClient(c) => c == conn.id,
                    _ => false,
                }
        }),
{
}

/// A client that connects to a server that is initialized is told at once how that went.
pub proof fn law_late_client_is_told_at_once(
    st: GlobalView,
    conn: ConnectionView,
    init: InitializeView,
    workspace: Seq<char>,
    sid: u32,
    result: Seq<char>,
)
    requires
        conn.request.method == "initialize"@,
        asks_directory(conn.bootstrap, init) ==> is_absolute(conn.bootstrap.cwd),
        workspace_for(conn.bootstrap, init, conn.files) == Some(workspace),
        running_server(
            st,
            descriptor_for(st.config.rust_analyzer_bin@, conn.bootstrap, workspace),
        ) == Some(sid),
        st.servers[sid].initialize_result == Some(result),
    ensures
        connect(st, conn, Some(init)).actions == seq![
            ActionView::ToClient(
                conn.id,
                MessageView::Response(
                    ResponseView { id: conn.request.id, result: Some(result), error: None },
                ),
            ),
        ],
        connect(st, conn, Some(init)).state.clients[conn.id].server_id == sid,
{
}

/// When a server says how its initialization went, each of its clients is told, under the id of
/// the request that the client itself sent, and with everything else as the server sent it. If it
/// went well the server keeps the result for clients to come; if not, the server and all of its
/// clients are gone.
pub proof fn law_every_waiting_client_is_told(
    st: GlobalView,
    sid: u32,
    response: ResponseView,
    readable: Option<Seq<char>>,
    roster: Seq<u32>,
    leavers: Seq<u32>,
)
    requires
        state_wf(st),
        awaits_initialization(st, sid),
        is_roster(roster, st, sid),
        is_roster(leavers, st, sid),
    ensures
        ({
            let done = server_initialized(st, sid, response, readable, roster, leavers);
            &&& forall|c: u32| #[trigger]
                is_client_of(st, c, sid) ==> done.actions.contains(
                    ActionView::ToClient(
                        c,
                        MessageView::Response(
                            ResponseView { id: st.clients[c].initialize_request_id, ..response },
                        ),
                    ),
                )
            &&& done.result is Ok <==> response.error is None && readable is Some
            &&& done.result is Ok ==> done.state.servers[sid].initialize_result == readable
            &&& done.result is Err ==> {
                &&& !done.state.servers.contains_key(sid)
                &&& forall|c: u32| !is_client_of(done.state, c, sid)
                &&& done.actions.last() == ActionView::KillServer(sid)
            }
        }),
{
    let done = server_initialized(st, sid, response, readable, roster, leavers);
    let told = announcements(st, roster, response);
    assert forall|c: u32| #[trigger] is_client_of(st, c, sid) implies done.actions.contains(
        ActionView::ToClient(
            c,
            MessageView::Response(
                ResponseView { id: st.clients[c].initialize_request_id, ..response },
            ),
        ),
    ) by {
        assert(roster.contains(c));
        let i = choose|i: int| 0 <= i < roster.len() && roster[i] == c;
        assert(done.actions[i] == told[i]);
    }
    if done.result is Err {
        assert forall|c: u32| !is_client_of(done.state, c, sid) by {
            if is_client_of(done.state, c, sid) {
                assert(is_client_of(st, c, sid));
                assert(leavers.contains(c));
                assert(leavers.to_set().contains(c));
            }
        }
    }
}

/// What is said to those who leave holds a farewell for each of them.
proof fn lemma_farewell_for_each(leavers: Seq<u32>, c: u32)
    requires
        leavers.contains(c),
    ensures
        farewells(leavers).contains(farewell(c)[0]),
        farewells(leavers).contains(farewell(c)[1]),
    decreases leavers.len(),
{
    let rest = leavers.drop_last();
    let all = farewells(leavers);
    if leavers.last() == c {
        let n = farewells(rest).len() as int;
        assert(all[n] == farewell(c)[0]);
        assert(all[n + 1] == farewell(c)[1]);
    } else {
        let i = choose|i: int| 0 <= i < leavers.len() && leavers[i] == c;
        assert(rest[i] == c);
        lemma_farewell_for_each(rest, c);
        let a = choose|a: int| 0 <= a < farewells(rest).len() && farewells(rest)[a] == farewell(c)[0];
        assert(all[a] == farewell(c)[0]);
        let b = choose|b: int| 0 <= b < farewells(rest).len() && farewells(rest)[b] == farewell(c)[1];
        assert(all[b] == farewell(c)[1]);
    }
}

/// When the process of a server ends, the server and all of its clients are gone, and each of the
/// clients has been told to exit and its connection closed.
pub proof fn law_clients_go_with_their_server(st: GlobalView, sid: u32, leavers: Seq<u32>)
    requires
        is_roster(leavers, st, sid),
    ensures
        ({
            let gone = server_drop(st, sid, leavers);
            &&& !gone.state.servers.contains_key(sid)
            &&& forall|c: u32| #[trigger]
                gone.state.clients.contains_key(c) <==> st.clients.contains_key(c) && !is_client_of(
                    st,
                    c,
                    sid,
                )
            &&& forall|c: u32| #[trigger]
                is_client_of(st, c, sid) ==> {
                    &&& gone.actions.contains(
                        ActionView::ToClient(
                            c,
                            MessageView::Notification(
                                NotificationView { method: "$/exit"@, params: "null"@ },
                            ),
                        ),
                    )
                    &&& gone.actions.contains(ActionView::CloseClient(c))
                }
            &&& gone.actions.last() == ActionView::KillServer(sid)
        }),
{
    let gone = server_drop(st, sid, leavers);
    assert forall|c: u32| #[trigger] gone.state.clients.contains_key(c) <==> st.clients.contains_key(c)
        && !is_client_of(st, c, sid) by {
        assert(leavers.contains(c) <==> is_client_of(st, c, sid));
        assert(leavers.to_set().contains(c) <==> leavers.contains(c));
    }
    assert forall|c: u32| #[trigger] is_client_of(st, c, sid) implies {
        &&& gone.actions.contains(
            ActionView::ToClient(
                c,
                MessageView::Notification(
                    NotificationView { method: "$/exit"@, params: "null"@ },
                ),
            ),
        )
        &&& gone.actions.contains(ActionView::CloseClient(c))
    } by {
        assert(leavers.contains(c));
        lemma_farewell_for_each(leavers, c);
        let said = farewells(leavers);
        let a = choose|a: int| 0 <= a < said.len() && said[a] == farewell(c)[0];
        assert(gone.actions[a] == farewell(c)[0]);
        let b = choose|b: int| 0 <= b < said.len() && said[b] == farewell(c)[1];
        assert(gone.actions[b] == farewell(c)[1]);
    }
}

/// A server that is initialized keeps running, and keeps the result of its initialization, whatever
/// happens to its clients, until its own process ends.
pub proof fn law_initialized_server_keeps_running(st: GlobalView, event: EventView, sid: u32)
    requires
        state_wf(st),
        enabled(st, event),
        st.servers.contains_key(sid),
        st.servers[sid].initialize_result is Some,
        !(event matches EventView::ServerDropped(s, _) && s == sid),
        !(event matches EventView::Spawned(spawn) && spawn.server_id == sid),
    ensures
        ({
            let after = outcome(st, event).state;
            &&& after.servers.contains_key(sid)
            &&& after.servers[sid].initialize_result == st.servers[sid].initialize_result
        }),
{
    match event {
        EventView::ClientNotification(id, notification, said, found) => {
            if st.clients.contains_key(id) {
                let inner = client_notification_inner(st, id, notification, said, found);
                assert(inner.state.servers.contains_key(sid));
                assert(inner.state.servers[sid].initialize_result
                    == st.servers[sid].initialize_result);
            }
        },
        _ => {},
    }
}

/// A server that is not initialized does not outlive the clients that wait for it: when a client
/// leaves, the server goes, or another client of it is there.
pub proof fn law_uninitialized_server_has_a_client(st: GlobalView, id: u32)
    requires
        state_wf(st),
        st.clients.contains_key(id),
        can_leave(st, id),
    ensures
        ({
            let sid = st.clients[id].server_id;
            let left = drop_client(st, id);
            awaits_initialization(left.state, sid) ==> exists|c: u32|
                is_client_of(left.state, c, sid)
        }),
{
    let sid = st.clients[id].server_id;
    assert(st.servers.contains_key(sid));
    let after = state_after_leave(st, id);
    let left = drop_client(st, id).state;
    if awaits_initialization(left, sid) {
        assert(!is_abandoned(after, sid));
        let c = choose|c: u32| is_client_of(after, c, sid);
        assert(is_client_of(after, c, sid));
        assert(is_client_of(left, c, sid));
    }
}

} // verus!
