//! How servers are started and go, and what clients hear of that.

use crate::launch::{law_binary_by_precedence, law_workspace_by_precedence};
use crate::laws::passing::{same_daemon, same_other_clients, same_other_servers};
use crate::laws::sharing::stands_for;
use crate::message::{IdView, MessageView, NotificationView, RequestView, ResponseView};
use crate::model::{
    announcements, connect, descriptor_at, distinct_descriptors, drop_server, farewell, farewells,
    is_client_of, is_roster, running_server, server_after_response, server_drop, server_initialized,
    server_notification, server_spawned, spawn_failed, state_wf, with_server, ActionView,
    ClientView, ConnectionView, ErrorView, GlobalView, ServerView, SpawnRequestView,
};
use crate::params::InitializeView;
use crate::root::project_root;
use crate::server::connecting::{lemma_descriptor_at, lemma_with_descriptor};
use crate::types::{is_set, is_unset, law_variable_has_its_value, DescriptorView};
use vstd::prelude::*;

verus! {

/// The workspace that a client opens, by what comes first of its `RAD_ROOT`, the root URI and the
/// root path of its `initialize` request, and the project of its working directory.
pub open spec fn opens(conn: ConnectionView, init: InitializeView, workspace: Seq<char>) -> bool {
    let envs = conn.bootstrap.envs;
    ||| is_set(envs, "RAD_ROOT"@, workspace)
    ||| is_unset(envs, "RAD_ROOT"@) && init.root_uri == Some(workspace)
    ||| is_unset(envs, "RAD_ROOT"@) && init.root_uri is None && init.root_path == Some(workspace)
    ||| {
        &&& is_unset(envs, "RAD_ROOT"@)
        &&& init.root_uri is None
        &&& init.root_path is None
        &&& conn.bootstrap.cwd.len() > 0
        &&& conn.bootstrap.cwd[0] == '/'
        &&& project_root(conn.bootstrap.cwd, conn.files) == Some(workspace)
    }
}

/// The binary that a client wants: its `RAD_RA`, else the default.
pub open spec fn wants(conn: ConnectionView, default_bin: Seq<char>, bin: Seq<char>) -> bool {
    ||| is_set(conn.bootstrap.envs, "RAD_RA"@, bin)
    ||| is_unset(conn.bootstrap.envs, "RAD_RA"@) && bin == default_bin
}

/// The descriptor `d` stands for the server `sid`, and that is there.
pub open spec fn is_running_for(st: GlobalView, d: DescriptorView, sid: u32) -> bool {
    &&& st.servers.contains_key(sid)
    &&& exists|i: int| 0 <= i < st.descriptors.len() && #[trigger] st.descriptors[i] == (d, sid)
}

/// A descriptor leads to the server that it stands for, if that is there, and to nothing else.
pub proof fn law_descriptor_leads_to_its_server(st: GlobalView, d: DescriptorView, sid: u32)
    requires
        distinct_descriptors(st.descriptors),
    ensures
        running_server(st, d) == Some(sid) <==> is_running_for(st, d, sid),
{
    let list = st.descriptors;
    lemma_descriptor_at(list, d);
    let at = descriptor_at(list, d);
    if running_server(st, d) == Some(sid) {
        assert(list[at] == (d, sid));
    }
    if is_running_for(st, d, sid) {
        let i = choose|i: int| 0 <= i < list.len() && #[trigger] list[i] == (d, sid);
        assert(list[i].0 == d);
        if at < i {
            assert(list[at].0 != list[i].0);
        }
    }
}

/// A client that has just been connected to the server `sid`: nothing has been asked of it, and it
/// is not ready.
pub open spec fn is_new_client(
    client: ClientView,
    sid: u32,
    request_id: IdView,
    shows_progress: bool,
) -> bool {
    &&& client.server_id == sid
    &&& !client.is_initialized
    &&& client.initialize_request_id == request_id
    &&& client.work_done_progress == shows_progress
    &&& client.next_request_id == 0
    &&& forall|k: i32| !#[trigger] client.request_ids.contains_key(k)
    &&& client.last_configuration is None
}

/// A client that connects is added to the server that is running for its binary, its arguments and
/// its workspace, if there is one, and told at once how the initialization of the server went, if
/// that is known. Nothing else changes.
pub proof fn law_client_finds_its_server(
    st: GlobalView,
    conn: ConnectionView,
    init: InitializeView,
    bin: Seq<char>,
    workspace: Seq<char>,
    sid: u32,
)
    requires
        state_wf(st),
        conn.request.method == "initialize"@,
        opens(conn, init, workspace),
        wants(conn, st.config.rust_analyzer_bin@, bin),
        is_running_for(
            st,
            DescriptorView { bin, args: conn.bootstrap.args, workspace },
            sid,
        ),
    ensures
        ({
            let done = connect(st, conn, Some(init));
            &&& done.result == Ok::<Option<SpawnRequestView>, ErrorView>(None)
            &&& same_daemon(st, done.state)
            &&& done.state.servers == st.servers
            &&& same_other_clients(st, done.state, conn.id)
            &&& done.state.clients.contains_key(conn.id)
            &&& is_new_client(
                done.state.clients[conn.id],
                sid,
                conn.request.id,
                init.work_done_progress == Some(Some(true)),
            )
            &&& match st.servers[sid].initialize_result {
                None => done.actions.len() == 0,
                Some(result) => done.actions == seq![
                    ActionView::ToClient(
                        conn.id,
                        MessageView::Response(
                            ResponseView {
                                id: conn.request.id,
                                result: Some(result),
                                error: None,
                            },
                        ),
                    ),
                ],
            }
        }),
{
    let d = DescriptorView { bin, args: conn.bootstrap.args, workspace };
    law_workspace_by_precedence(conn.bootstrap, init, conn.files, workspace);
    law_binary_by_precedence(st.config.rust_analyzer_bin@, conn.bootstrap, bin);
    law_variable_has_its_value(conn.bootstrap.envs, "RAD_ROOT"@, workspace);
    law_descriptor_leads_to_its_server(st, d, sid);
}

/// If no server is running for the binary, the arguments and the workspace of a client that
/// connects, one is to be started: under the next number, known by these three, with the arguments,
/// the environment and the working directory of the client, and with the parameters of its
/// `initialize` request. Until then nothing changes but the next number.
pub proof fn law_client_calls_for_a_server(
    st: GlobalView,
    conn: ConnectionView,
    init: InitializeView,
    bin: Seq<char>,
    workspace: Seq<char>,
)
    requires
        state_wf(st),
        conn.request.method == "initialize"@,
        opens(conn, init, workspace),
        wants(conn, st.config.rust_analyzer_bin@, bin),
        forall|sid: u32|
            !is_running_for(
                st,
                DescriptorView { bin, args: conn.bootstrap.args, workspace },
                sid,
            ),
    ensures
        ({
            let done = connect(st, conn, Some(init));
            &&& done.actions.len() == 0
            &&& done.state.clients == st.clients
            &&& done.state.servers == st.servers
            &&& done.state.descriptors == st.descriptors
            &&& done.state.config == st.config
            &&& done.state.tx == st.tx
            &&& st.next_server_id < u32::MAX ==> done.state.next_server_id == st.next_server_id + 1
            &&& st.next_server_id == u32::MAX ==> done.state.next_server_id == 0
            &&& done.result matches Ok(Some(spawn)) && {
                &&& spawn.client_id == conn.id
                &&& spawn.server_id == st.next_server_id
                &&& spawn.descriptor.bin == bin
                &&& spawn.descriptor.args == conn.bootstrap.args
                &&& spawn.descriptor.workspace == workspace
                &&& spawn.command.bin == bin
                &&& spawn.command.args == conn.bootstrap.args
                &&& spawn.command.envs == conn.bootstrap.envs
                &&& spawn.command.cwd == conn.bootstrap.cwd
                &&& spawn.request_id == conn.request.id
                &&& spawn.params == init.params
                &&& spawn.work_done_progress == (init.work_done_progress == Some(Some(true)))
            }
        }),
{
    let d = DescriptorView { bin, args: conn.bootstrap.args, workspace };
    law_workspace_by_precedence(conn.bootstrap, init, conn.files, workspace);
    law_binary_by_precedence(st.config.rust_analyzer_bin@, conn.bootstrap, bin);
    law_variable_has_its_value(conn.bootstrap.envs, "RAD_ROOT"@, workspace);
    if running_server(st, d) is Some {
        law_descriptor_leads_to_its_server(st, d, running_server(st, d)->0);
    }
}

/// A client that cannot be connected is disconnected, and nothing else happens: it has to begin
/// with an `initialize` request whose parameters can be read, and its workspace has to be known.
pub proof fn law_client_cannot_be_connected(
    st: GlobalView,
    conn: ConnectionView,
    readable: Option<InitializeView>,
)
    ensures
        ({
            let done = connect(st, conn, readable);
            let lost = readable matches Some(init) && is_unset(conn.bootstrap.envs, "RAD_ROOT"@)
                && init.root_uri is None && init.root_path is None;
            let cwd = conn.bootstrap.cwd;
            let absolute = cwd.len() > 0 && cwd[0] == '/';
            &&& done.result is Err ==> {
                &&& done.state == st
                &&& done.actions == seq![ActionView::CloseClient(conn.id)]
            }
            &&& conn.request.method != "initialize"@ ==> done.result == Err::<
                Option<SpawnRequestView>,
                ErrorView,
            >(ErrorView::NotInitialize)
            &&& conn.request.method == "initialize"@ ==> {
                &&& readable is None ==> done.result == Err::<Option<SpawnRequestView>, ErrorView>(
                    ErrorView::InvalidParams("initialize"@),
                )
                &&& lost && !absolute ==> done.result == Err::<Option<SpawnRequestView>, ErrorView>(
                    ErrorView::RelativeDirectory,
                )
                &&& lost && absolute && project_root(cwd, conn.files) is None ==> done.result
                    == Err::<Option<SpawnRequestView>, ErrorView>(ErrorView::NoWorkspace(cwd))
                &&& readable is Some && !lost ==> done.result is Ok
                &&& lost && absolute && project_root(cwd, conn.files) is Some ==> done.result is Ok
            }
        }),
{
    law_variable_has_its_value(conn.bootstrap.envs, "RAD_ROOT"@, Seq::empty());
}

/// A server that has been started gets the `initialize` request of the client that called for it,
/// as its first request, and nothing else. The client is connected to it. The server knows nothing
/// but that request, its descriptor stands for it from now on, and no other descriptor has changed.
pub proof fn law_server_is_started(st: GlobalView, spawn: SpawnRequestView)
    ensures
        ({
            let done = server_spawned(st, spawn);
            let sid = spawn.server_id;
            let server = done.state.servers[sid];
            &&& done.result is Ok
            &&& done.actions == seq![
                ActionView::ToServer(
                    sid,
                    MessageView::Request(
                        RequestView {
                            id: IdView::Number(0),
                            method: "initialize"@,
                            params: spawn.params,
                        },
                    ),
                ),
            ]
            &&& done.state.config == st.config
            &&& done.state.tx == st.tx
            &&& done.state.next_server_id == st.next_server_id
            &&& same_other_clients(st, done.state, spawn.client_id)
            &&& same_other_servers(st, done.state, sid)
            &&& done.state.clients.contains_key(spawn.client_id)
            &&& is_new_client(
                done.state.clients[spawn.client_id],
                sid,
                spawn.request_id,
                spawn.work_done_progress,
            )
            &&& done.state.servers.contains_key(sid)
            &&& server.connections.len() == 0
            &&& server.initialize_result is None
            &&& !server.is_initialized
            &&& server.next_request_id == 1
            &&& forall|k: i32| #[trigger] server.request_ids.contains_key(k) <==> k == 0
            &&& server.request_ids[0] == (spawn.client_id, spawn.request_id)
            &&& server.pending.len() == 0
            &&& server.registered.len() == 0
            &&& server.documents.len() == 0
            &&& exists|i: int|
                0 <= i < done.state.descriptors.len() && #[trigger] done.state.descriptors[i] == (
                    spawn.descriptor,
                    sid,
                )
            &&& forall|d: DescriptorView, s: u32|
                d != spawn.descriptor ==> (#[trigger] stands_for(done.state.descriptors, d, s)
                    <==> stands_for(st.descriptors, d, s))
            &&& distinct_descriptors(st.descriptors) ==> distinct_descriptors(
                done.state.descriptors,
            )
        }),
{
    let done = server_spawned(st, spawn);
    let before = st.descriptors;
    let after = done.state.descriptors;
    lemma_descriptor_at(before, spawn.descriptor);
    let at = descriptor_at(before, spawn.descriptor);
    assert(after[at] == (spawn.descriptor, spawn.server_id));
    assert forall|d: DescriptorView, s: u32| d != spawn.descriptor implies (
    #[trigger] stands_for(after, d, s) <==> stands_for(before, d, s)) by {
        if stands_for(after, d, s) {
            let i = choose|i: int| 0 <= i < after.len() && #[trigger] after[i] == (d, s);
            assert(before[i] == (d, s));
        }
        if stands_for(before, d, s) {
            let i = choose|i: int| 0 <= i < before.len() && #[trigger] before[i] == (d, s);
            assert(before[i].0 == d);
            assert(after[i] == (d, s));
        }
    }
    if distinct_descriptors(before) {
        lemma_with_descriptor(before, spawn.descriptor, spawn.server_id);
    }
}

/// A client whose server could not be started is disconnected, and nothing else happens.
pub proof fn law_server_could_not_be_started(st: GlobalView, spawn: SpawnRequestView)
    ensures
        ({
            let done = spawn_failed(st, spawn);
            &&& done.result is Ok
            &&& done.state == st
            &&& done.actions == seq![ActionView::CloseClient(spawn.client_id)]
        }),
{
}

/// A list of all clients of the server `sid`, each of them once.
pub open spec fn lists_all_clients(list: Seq<u32>, st: GlobalView, sid: u32) -> bool {
    &&& forall|i: int, j: int| 0 <= i < j < list.len() ==> list[i] != list[j]
    &&& forall|c: u32| #[trigger]
        st.clients.contains_key(c) && st.clients[c].server_id == sid ==> list.contains(c)
    &&& forall|i: int|
        0 <= i < list.len() ==> st.clients.contains_key(#[trigger] list[i])
            && st.clients[list[i]].server_id == sid
}

/// The lists that the clients of a server are told by hold all its clients, each of them once,
/// whether they are ready or not.
pub proof fn law_lists_hold_all_clients(list: Seq<u32>, st: GlobalView, sid: u32)
    ensures
        is_roster(list, st, sid) <==> lists_all_clients(list, st, sid),
{
    if is_roster(list, st, sid) {
        assert forall|c: u32| #[trigger] st.clients.contains_key(c) && st.clients[c].server_id
            == sid implies list.contains(c) by {
            assert(is_client_of(st, c, sid));
        }
        assert forall|i: int| 0 <= i < list.len() implies st.clients.contains_key(
            #[trigger] list[i],
        ) && st.clients[list[i]].server_id == sid by {
            assert(list.contains(list[i]));
        }
    }
    if lists_all_clients(list, st, sid) {
        assert forall|c: u32| #[trigger] list.contains(c) <==> is_client_of(st, c, sid) by {
            if list.contains(c) {
                let i = choose|i: int| 0 <= i < list.len() && list[i] == c;
                assert(st.clients.contains_key(list[i]));
            }
            if is_client_of(st, c, sid) {
                assert(st.clients.contains_key(c));
            }
        }
    }
}

/// Each of some clients is told to exit and its connection closed, one after the other.
pub open spec fn sends_away(actions: Seq<ActionView>, list: Seq<u32>) -> bool {
    &&& actions.len() == 2 * list.len()
    &&& forall|i: int|
        #![trigger list[i]]
        0 <= i < list.len() ==> {
            &&& actions[2 * i] == ActionView::ToClient(
                list[i],
                MessageView::Notification(
                    NotificationView { method: "$/exit"@, params: "null"@ },
                ),
            )
            &&& actions[2 * i + 1] == ActionView::CloseClient(list[i])
        }
}

proof fn lemma_sends_away(list: Seq<u32>)
    ensures
        sends_away(farewells(list), list),
    decreases list.len(),
{
    if list.len() > 0 {
        let rest = list.drop_last();
        lemma_sends_away(rest);
        let all = farewells(list);
        let n = rest.len() as int;
        assert forall|i: int| #![trigger list[i]] 0 <= i < list.len() implies {
            &&& all[2 * i] == ActionView::ToClient(
                list[i],
                MessageView::Notification(
                    NotificationView { method: "$/exit"@, params: "null"@ },
                ),
            )
            &&& all[2 * i + 1] == ActionView::CloseClient(list[i])
        } by {
            if i < n {
                assert(rest[i] == list[i]);
                assert(all[2 * i] == farewells(rest)[2 * i]);
                assert(all[2 * i + 1] == farewells(rest)[2 * i + 1]);
            } else {
                assert(all[2 * n] == farewell(list[n])[0]);
                assert(all[2 * n + 1] == farewell(list[n])[1]);
            }
        }
    }
}

/// A server is gone and all its clients with it; nothing else has changed.
pub open spec fn is_gone(st: GlobalView, after: GlobalView, sid: u32) -> bool {
    &&& same_daemon(st, after)
    &&& !after.servers.contains_key(sid)
    &&& same_other_servers(st, after, sid)
    &&& forall|c: u32| #[trigger]
        after.clients.contains_key(c) <==> st.clients.contains_key(c) && st.clients[c].server_id
            != sid
    &&& forall|c: u32| #[trigger]
        after.clients.contains_key(c) ==> after.clients[c] == st.clients[c]
}

proof fn lemma_gone(st: GlobalView, sid: u32, leavers: Seq<u32>)
    requires
        is_roster(leavers, st, sid),
    ensures
        is_gone(st, drop_server(st, sid, leavers).0, sid),
{
    let after = drop_server(st, sid, leavers).0;
    assert forall|c: u32| #[trigger] after.clients.contains_key(c) <==> st.clients.contains_key(c)
        && st.clients[c].server_id != sid by {
        assert(leavers.contains(c) <==> is_client_of(st, c, sid));
        assert(leavers.to_set().contains(c) <==> leavers.contains(c));
    }
}

/// When the process of a server ends, every one of its clients is told to exit and its connection
/// closed, whether it is ready or not, and then the server is done with. The server and its clients
/// are gone, and nothing else changes.
pub proof fn law_server_goes_with_its_clients(st: GlobalView, sid: u32, leavers: Seq<u32>)
    requires
        st.servers.contains_key(sid),
        lists_all_clients(leavers, st, sid),
    ensures
        ({
            let done = server_drop(st, sid, leavers);
            let n = 2 * leavers.len() as int;
            &&& done.result is Ok
            &&& is_gone(st, done.state, sid)
            &&& done.actions.len() == n + 1
            &&& sends_away(done.actions.take(n), leavers)
            &&& done.actions[n] == ActionView::KillServer(sid)
        }),
{
    law_lists_hold_all_clients(leavers, st, sid);
    lemma_gone(st, sid, leavers);
    lemma_sends_away(leavers);
    let done = server_drop(st, sid, leavers);
    assert(done.actions.take(2 * leavers.len() as int) =~= farewells(leavers));
}

/// When a server says how its initialization went, every one of its clients is told once, under the
/// id of its own `initialize` request and with everything else as the server sent it. If it went
/// well that is all, the server keeps the result, and nothing else changes but that the request is
/// answered. If it did not, the server and all its clients go.
pub proof fn law_initialization_is_announced(
    st: GlobalView,
    sid: u32,
    response: ResponseView,
    readable: Option<Seq<char>>,
    roster: Seq<u32>,
    leavers: Seq<u32>,
)
    requires
        st.servers.contains_key(sid),
        lists_all_clients(roster, st, sid),
        lists_all_clients(leavers, st, sid),
    ensures
        ({
            let server = st.servers[sid];
            let done = server_initialized(st, sid, response, readable, roster, leavers);
            let after = done.state.servers[sid];
            let n = roster.len() as int;
            let m = 2 * leavers.len() as int;
            &&& done.actions.len() >= n
            &&& forall|i: int|
                #![trigger roster[i]]
                0 <= i < n ==> done.actions[i] == ActionView::ToClient(
                    roster[i],
                    MessageView::Response(
                        ResponseView {
                            id: st.clients[roster[i]].initialize_request_id,
                            result: response.result,
                            error: response.error,
                        },
                    ),
                )
            &&& done.result is Ok <==> response.error is None && readable is Some
            &&& done.result is Ok ==> {
                &&& done.actions.len() == n
                &&& done.state.clients == st.clients
                &&& same_daemon(st, done.state)
                &&& same_other_servers(st, done.state, sid)
                &&& done.state.servers.contains_key(sid)
                &&& after.initialize_result == readable
                &&& forall|k: i32| #[trigger]
                    after.request_ids.contains_key(k) <==> server.request_ids.contains_key(k)
                        && response.id != IdView::Number(k)
                &&& forall|k: i32| #[trigger]
                    after.request_ids.contains_key(k) ==> after.request_ids[k]
                        == server.request_ids[k]
                &&& after == (ServerView {
                    initialize_result: after.initialize_result,
                    request_ids: after.request_ids,
                    ..server
                })
            }
            &&& done.result is Err ==> {
                &&& done.result == Err::<(), ErrorView>(
                    ErrorView::InitializationFailed(
                        match response.error {
                            Some(e) => e.message,
                            None => "Invalid 'InitializeResult' from the server."@,
                        },
                    ),
                )
                &&& is_gone(st, done.state, sid)
                &&& done.actions.len() == n + m + 1
                &&& sends_away(done.actions.subrange(n, n + m), leavers)
                &&& done.actions[n + m] == ActionView::KillServer(sid)
            }
        }),
{
    let done = server_initialized(st, sid, response, readable, roster, leavers);
    let n = roster.len() as int;
    let m = 2 * leavers.len() as int;
    law_lists_hold_all_clients(leavers, st, sid);
    let heard = with_server(st, sid, server_after_response(st.servers[sid], response.id));
    assert forall|i: int| #![trigger roster[i]] 0 <= i < n implies done.actions[i]
        == ActionView::ToClient(
        roster[i],
        MessageView::Response(
            ResponseView {
                id: st.clients[roster[i]].initialize_request_id,
                result: response.result,
                error: response.error,
            },
        ),
    ) by {
        assert(done.actions[i] == announcements(st, roster, response)[i]);
    }
    if done.result is Err {
        assert(is_roster(leavers, heard, sid)) by {
            assert forall|c: u32| #[trigger] leavers.contains(c) <==> is_client_of(heard, c, sid) by {
                assert(is_client_of(st, c, sid) == is_client_of(heard, c, sid));
            }
        }
        lemma_gone(heard, sid, leavers);
        lemma_sends_away(leavers);
        assert(done.actions.subrange(n, n + m) =~= farewells(leavers));
        assert(done.state == drop_server(heard, sid, leavers).0);
        assert forall|s: u32| s != sid implies (#[trigger] done.state.servers.contains_key(s)
            <==> st.servers.contains_key(s)) && (st.servers.contains_key(s)
            ==> done.state.servers[s] == st.servers[s]) by {
            assert(heard.servers.contains_key(s) <==> st.servers.contains_key(s));
        }
        assert forall|c: u32| #[trigger] done.state.clients.contains_key(c)
            <==> st.clients.contains_key(c) && st.clients[c].server_id != sid by {
            assert(heard.clients == st.clients);
        }
    }
}

/// A notification of a server that is not about progress reaches every connection of the server,
/// once and as the server sent it, in the order of the connections, and nobody else. Nothing changes
/// by it.
pub proof fn law_notification_is_broadcast(st: GlobalView, sid: u32, notification: NotificationView)
    requires
        st.servers.contains_key(sid),
        notification.method != "$/progress"@,
    ensures
        ({
            let done = server_notification(st, sid, notification);
            let connections = st.servers[sid].connections;
            &&& done.result is Ok
            &&& done.state == st
            &&& done.actions.len() == connections.len()
            &&& forall|i: int|
                #![trigger connections[i]]
                0 <= i < connections.len() ==> done.actions[i] == ActionView::ToClient(
                    connections[i],
                    MessageView::Notification(notification),
                )
        }),
{
}

} // verus!
