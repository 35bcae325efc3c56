//! What requests and responses change, and what they leave alone.

use crate::laws::passing::{nothing_but, same_daemon, same_other_clients, same_other_servers};
use crate::message::{IdView, MessageView, NotificationView, RequestView, ResponseView};
use crate::model::{
    can_ask, can_request, client_request, client_response, distinct_requests, request_at,
    server_notification, server_request, server_response, server_wf, state_wf, without_unregistered,
    ActionView, ClientView, ErrorView, GlobalView, ServerView,
};
use crate::params::{is_progress, registrations, unregistrations, RegistrationView};
use crate::peers::lemma_request_at;
use crate::text::begins_with;
use vstd::prelude::*;

verus! {

/// A request of a client that is not `shutdown` is accepted. The server of the client knows it from
/// now on under the number that was next, and the next request gets the number behind it. Nothing
/// else changes.
pub proof fn law_request_is_noted(st: GlobalView, id: u32, request: RequestView)
    requires
        state_wf(st),
        st.clients.contains_key(id),
        request.method != "shutdown"@,
        can_request(st, id, request),
    ensures
        ({
            let sid = st.clients[id].server_id;
            let server = st.servers[sid];
            let sent = client_request(st, id, request);
            let after = sent.state.servers[sid];
            &&& sent.result is Ok
            &&& sent.actions == seq![
                ActionView::ToServer(
                    sid,
                    MessageView::Request(
                        RequestView {
                            id: IdView::Number(server.next_request_id),
                            method: request.method,
                            params: request.params,
                        },
                    ),
                ),
            ]
            &&& sent.state.clients == st.clients
            &&& same_daemon(st, sent.state)
            &&& same_other_servers(st, sent.state, sid)
            &&& sent.state.servers.contains_key(sid)
            &&& after.next_request_id == server.next_request_id + 1
            &&& forall|k: i32| #[trigger]
                after.request_ids.contains_key(k) <==> server.request_ids.contains_key(k) || k
                    == server.next_request_id
            &&& after.request_ids[server.next_request_id] == (id, request.id)
            &&& forall|k: i32| #[trigger]
                server.request_ids.contains_key(k) && k != server.next_request_id
                    ==> after.request_ids[k] == server.request_ids[k]
            &&& after == (ServerView {
                next_request_id: after.next_request_id,
                request_ids: after.request_ids,
                ..server
            })
        }),
{
    assert(st.servers.contains_key(st.clients[id].server_id));
}

/// A client that wants to shut down is answered that there is nothing to return, under the id of
/// its own request. Nothing changes, and its server does not hear of it.
pub proof fn law_shutdown_is_answered(st: GlobalView, id: u32, request: RequestView)
    requires
        st.clients.contains_key(id),
        request.method == "shutdown"@,
    ensures
        ({
            let done = client_request(st, id, request);
            &&& done.result is Ok
            &&& done.state == st
            &&& done.actions == seq![
                ActionView::ToClient(
                    id,
                    MessageView::Response(
                        ResponseView { id: request.id, result: Some("null"@), error: None },
                    ),
                ),
            ]
        }),
{
}

/// A response of a server to a request that it knows goes to the client that sent the request,
/// under the id of the client's own request, if the client is still there. Either way the server
/// knows the request no longer. Nothing else changes. A response to anything else is refused and
/// changes nothing.
pub proof fn law_response_is_delivered(st: GlobalView, sid: u32, response: ResponseView)
    requires
        st.servers.contains_key(sid),
    ensures
        ({
            let server = st.servers[sid];
            let done = server_response(st, sid, response);
            let after = done.state.servers[sid];
            match response.id {
                IdView::Number(k) => if server.request_ids.contains_key(k) {
                    let (id, original) = server.request_ids[k];
                    &&& done.state.clients == st.clients
                    &&& same_daemon(st, done.state)
                    &&& same_other_servers(st, done.state, sid)
                    &&& done.state.servers.contains_key(sid)
                    &&& forall|j: i32| #[trigger]
                        after.request_ids.contains_key(j) <==> server.request_ids.contains_key(j)
                            && j != k
                    &&& forall|j: i32| #[trigger]
                        after.request_ids.contains_key(j) ==> after.request_ids[j]
                            == server.request_ids[j]
                    &&& after == (ServerView { request_ids: after.request_ids, ..server })
                    &&& st.clients.contains_key(id) ==> {
                        &&& done.result is Ok
                        &&& done.actions == seq![
                            ActionView::ToClient(
                                id,
                                MessageView::Response(
                                    ResponseView {
                                        id: original,
                                        result: response.result,
                                        error: response.error,
                                    },
                                ),
                            ),
                        ]
                    }
                    &&& !st.clients.contains_key(id) ==> {
                        &&& done.result == Err::<(), ErrorView>(ErrorView::ClientGone)
                        &&& done.actions.len() == 0
                    }
                } else {
                    nothing_but(done, st, ErrorView::RequestNotFound)
                },
                IdView::Text(_) => nothing_but(done, st, ErrorView::RequestNotFound),
            }
        }),
{
}

/// A request of a server that is not about progress is kept: it stands behind the others that the
/// server waits for, or in the place of one with the same id. If the server has a connection, the
/// request goes to the oldest of them, under the number that is next for that client. Nothing else
/// changes.
pub proof fn law_server_request_is_kept(st: GlobalView, sid: u32, request: RequestView)
    requires
        st.servers.contains_key(sid),
        !begins_with(request.method, "window/workDoneProgress/"@),
        can_ask(st, sid, request),
    ensures
        ({
            let server = st.servers[sid];
            let asked = server_request(st, sid, request);
            let after = asked.state.servers[sid];
            let n = server.pending.len() as int;
            &&& asked.result is Ok
            &&& same_daemon(st, asked.state)
            &&& same_other_servers(st, asked.state, sid)
            &&& asked.state.servers.contains_key(sid)
            &&& after == (ServerView { pending: after.pending, ..server })
            &&& (forall|i: int| 0 <= i < n ==> #[trigger] server.pending[i].id != request.id) ==> {
                &&& after.pending.len() == n + 1
                &&& after.pending[n] == request
                &&& forall|i: int| 0 <= i < n ==> #[trigger] after.pending[i] == server.pending[i]
            }
            &&& (exists|i: int| 0 <= i < n && #[trigger] server.pending[i].id == request.id)
                && distinct_requests(server.pending) ==> {
                &&& after.pending.len() == n
                &&& forall|i: int|
                    #![trigger after.pending[i]]
                    #![trigger server.pending[i]]
                    0 <= i < n ==> after.pending[i] == if server.pending[i].id == request.id {
                        request
                    } else {
                        server.pending[i]
                    }
            }
            &&& server.connections.len() == 0 ==> {
                &&& asked.actions.len() == 0
                &&& asked.state.clients == st.clients
            }
            &&& server.connections.len() > 0 ==> {
                let id = server.connections[0];
                let client = st.clients[id];
                let now = asked.state.clients[id];
                &&& asked.actions == seq![
                    ActionView::ToClient(
                        id,
                        MessageView::Request(
                            RequestView {
                                id: IdView::Number(client.next_request_id),
                                method: request.method,
                                params: request.params,
                            },
                        ),
                    ),
                ]
                &&& same_other_clients(st, asked.state, id)
                &&& asked.state.clients.contains_key(id)
                &&& now.next_request_id == client.next_request_id + 1
                &&& forall|k: i32| #[trigger]
                    now.request_ids.contains_key(k) <==> client.request_ids.contains_key(k) || k
                        == client.next_request_id
                &&& now.request_ids[client.next_request_id] == request.id
                &&& forall|k: i32| #[trigger]
                    client.request_ids.contains_key(k) && k != client.next_request_id
                        ==> now.request_ids[k] == client.request_ids[k]
                &&& now == (ClientView {
                    next_request_id: now.next_request_id,
                    request_ids: now.request_ids,
                    ..client
                })
            }
        }),
{
    let server = st.servers[sid];
    let n = server.pending.len() as int;
    lemma_request_at(server.pending, request.id);
    let at = request_at(server.pending, request.id);
    if forall|i: int| 0 <= i < n ==> #[trigger] server.pending[i].id != request.id {
        if at < n {
            assert(server.pending[at].id == request.id);
        }
    }
    if (exists|i: int| 0 <= i < n && #[trigger] server.pending[i].id == request.id)
        && distinct_requests(server.pending) {
        let i = choose|i: int| 0 <= i < n && #[trigger] server.pending[i].id == request.id;
        assert(at <= i);
        let after = server_request(st, sid, request).state.servers[sid].pending;
        assert forall|i: int|
            #![trigger after[i]]
            #![trigger server.pending[i]]
            0 <= i < n implies after[i] == if server.pending[i].id == request.id {
            request
        } else {
            server.pending[i]
        } by {
            if i < at {
                assert(server.pending[i].id != server.pending[at].id);
            } else if at < i {
                assert(server.pending[at].id != server.pending[i].id);
            }
        }
    }
}

/// What a server asks about progress is answered at once that there is nothing to return, under the
/// server's own id. Nothing changes, and no client hears of it.
pub proof fn law_progress_request_is_answered(
    st: GlobalView,
    sid: u32,
    request: RequestView,
    rest: Seq<char>,
)
    requires
        st.servers.contains_key(sid),
        request.method == "window/workDoneProgress/"@ + rest,
    ensures
        ({
            let done = server_request(st, sid, request);
            &&& done.result is Ok
            &&& done.state == st
            &&& done.actions == seq![
                ActionView::ToServer(
                    sid,
                    MessageView::Response(
                        ResponseView { id: request.id, result: Some("null"@), error: None },
                    ),
                ),
            ]
        }),
{
    let prefix = "window/workDoneProgress/"@;
    assert(request.method.subrange(0, prefix.len() as int) =~= prefix);
}

/// What a server says of progress is accepted if it can be read and refused if it cannot. Either
/// way nobody hears of it and nothing changes.
pub proof fn law_progress_is_read(st: GlobalView, sid: u32, notification: NotificationView)
    requires
        st.servers.contains_key(sid),
        notification.method == "$/progress"@,
    ensures
        ({
            let done = server_notification(st, sid, notification);
            &&& done.state == st
            &&& done.actions.len() == 0
            &&& is_progress(notification.params) ==> done.result is Ok
            &&& !is_progress(notification.params) ==> done.result == Err::<(), ErrorView>(
                ErrorView::InvalidParams("$/progress"@),
            )
        }),
{
}

/// The registered capabilities are those from before and then those of `list`.
pub open spec fn adds(
    before: Seq<RegistrationView>,
    after: Seq<RegistrationView>,
    list: Seq<RegistrationView>,
) -> bool {
    &&& after.len() == before.len() + list.len()
    &&& forall|i: int| 0 <= i < before.len() ==> #[trigger] after[i] == before[i]
    &&& forall|i: int| 0 <= i < list.len() ==> #[trigger] list[i] == after[before.len() + i]
}

/// A response of a client to a request of its server that has been sent to it under the number `k`
/// ends that request for the client. If the server still waits for an answer to it, the response
/// goes to the server, under the server's own id, and the server waits for it no longer; otherwise
/// the response is dropped. What the server asked to register or unregister is done if the client
/// has granted it, and only then. Nothing else changes.
pub proof fn law_response_is_passed_on(
    st: GlobalView,
    id: u32,
    k: i32,
    at: int,
    response: ResponseView,
)
    requires
        state_wf(st),
        st.clients.contains_key(id),
        st.clients[id].request_ids.contains_key(k),
        response.id == IdView::Number(k),
        0 <= at < st.servers[st.clients[id].server_id].pending.len(),
        st.servers[st.clients[id].server_id].pending[at].id == st.clients[id].request_ids[k],
    ensures
        ({
            let client = st.clients[id];
            let sid = client.server_id;
            let server = st.servers[sid];
            let request = server.pending[at];
            let done = client_response(st, id, response);
            let now = done.state.clients[id];
            let after = done.state.servers[sid];
            let registers = response.error is None && request.method
                == "client/registerCapability"@;
            let unregisters = response.error is None && request.method
                == "client/unregisterCapability"@;
            &&& done.actions == seq![
                ActionView::ToServer(
                    sid,
                    MessageView::Response(
                        ResponseView {
                            id: request.id,
                            result: response.result,
                            error: response.error,
                        },
                    ),
                ),
            ]
            &&& same_daemon(st, done.state)
            &&& same_other_servers(st, done.state, sid)
            &&& same_other_clients(st, done.state, id)
            &&& done.state.servers.contains_key(sid)
            &&& is_answered(client, now, k)
            &&& done.state.clients.contains_key(id)
            &&& after.pending == server.pending.take(at) + server.pending.skip(at + 1)
            &&& after == (ServerView {
                pending: after.pending,
                registered: after.registered,
                ..server
            })
            &&& !registers && !unregisters ==> after.registered == server.registered
                && done.result is Ok
            &&& registers ==> match registrations(request.params) {
                Some(list) => adds(server.registered, after.registered, list) && done.result is Ok,
                None => after.registered == server.registered && done.result == Err::<
                    (),
                    ErrorView,
                >(ErrorView::InvalidParams(request.method)),
            }
            &&& unregisters ==> match unregistrations(request.params) {
                Some(gone) => {
                    &&& after.registered == server.registered.filter(
                        |r: RegistrationView| !gone.contains((r.id, r.method)),
                    )
                    &&& done.result is Ok
                },
                None => after.registered == server.registered && done.result == Err::<
                    (),
                    ErrorView,
                >(ErrorView::InvalidParams(request.method)),
            }
        }),
{
    let client = st.clients[id];
    let sid = client.server_id;
    assert(st.servers.contains_key(sid));
    let server = st.servers[sid];
    assert(server_wf(server));
    let request = server.pending[at];
    lemma_request_at(server.pending, request.id);
    let found = request_at(server.pending, request.id);
    assert(found == at) by {
        if found < at {
            assert(server.pending[found].id != server.pending[at].id);
        }
    }
    assert(server.pending.remove(at) =~= server.pending.take(at) + server.pending.skip(at + 1));
    lemma_kinds_differ();
    if unregistrations(request.params) is Some {
        lemma_kept_registrations(server.registered, unregistrations(request.params)->0);
    }
}

/// A client has answered what it was asked under the number `k`: it is asked that no longer, and
/// nothing else of it has changed.
pub open spec fn is_answered(before: ClientView, after: ClientView, k: i32) -> bool {
    &&& forall|j: i32| #[trigger]
        after.request_ids.contains_key(j) <==> before.request_ids.contains_key(j) && j != k
    &&& forall|j: i32| #[trigger]
        after.request_ids.contains_key(j) ==> after.request_ids[j] == before.request_ids[j]
    &&& after == (ClientView { request_ids: after.request_ids, ..before })
}

/// A response to a request that the server waits for no longer is dropped, and one to anything that
/// the client has not been asked is refused.
pub proof fn law_response_to_nothing(st: GlobalView, id: u32, response: ResponseView)
    requires
        st.clients.contains_key(id),
        st.servers.contains_key(st.clients[id].server_id),
    ensures
        ({
            let client = st.clients[id];
            let pending = st.servers[client.server_id].pending;
            let done = client_response(st, id, response);
            match response.id {
                IdView::Number(k) => if client.request_ids.contains_key(k) {
                    (forall|i: int|
                        0 <= i < pending.len() ==> #[trigger] pending[i].id
                            != client.request_ids[k]) ==> {
                        &&& done.result is Ok
                        &&& done.actions.len() == 0
                        &&& done.state.servers == st.servers
                        &&& same_daemon(st, done.state)
                        &&& same_other_clients(st, done.state, id)
                        &&& done.state.clients.contains_key(id)
                        &&& is_answered(client, done.state.clients[id], k)
                    }
                } else {
                    nothing_but(done, st, ErrorView::RequestNotFound)
                },
                IdView::Text(_) => nothing_but(done, st, ErrorView::RequestNotFound),
            }
        }),
{
    let client = st.clients[id];
    let pending = st.servers[client.server_id].pending;
    match response.id {
        IdView::Number(k) => {
            if client.request_ids.contains_key(k) {
                lemma_request_at(pending, client.request_ids[k]);
                let at = request_at(pending, client.request_ids[k]);
                if at < pending.len() {
                    assert(pending[at].id == client.request_ids[k]);
                }
            }
        },
        IdView::Text(_) => {},
    }
}

proof fn lemma_kinds_differ()
    ensures
        "client/registerCapability"@ != "client/unregisterCapability"@,
{
    reveal_strlit("client/registerCapability");
    reveal_strlit("client/unregisterCapability");
    assert("client/registerCapability"@.len() != "client/unregisterCapability"@.len());
}

/// What stays registered is picked out in its order.
proof fn lemma_kept_registrations(
    registered: Seq<RegistrationView>,
    gone: Seq<(Seq<char>, Seq<char>)>,
)
    ensures
        without_unregistered(registered, gone) == registered.filter(
            |r: RegistrationView| !gone.contains((r.id, r.method)),
        ),
    decreases registered.len(),
{
    reveal(Seq::filter);
    if registered.len() > 0 {
        lemma_kept_registrations(registered.drop_last(), gone);
    } else {
        assert(without_unregistered(registered, gone) =~= registered);
    }
}

} // verus!
