//! Every request gets its answer.

use crate::laws::{enabled, outcome, EventView};
use crate::message::{IdView, MessageView, RequestView, ResponseView};
use crate::model::{
    accepted, answered, awaits_initialization, can_ask, can_request, client_notification_inner,
    client_request, client_response, client_wf, is_client_of, refused, request_at, server_request,
    server_response, server_wf, state_wf, with_request, ActionView, ErrorView, GlobalView,
};
use crate::peers::lemma_request_at;
use crate::text::begins_with;
use vstd::prelude::*;

verus! {

/// The server `sid` owes the client `id` an answer to its request `original`, which it knows under
/// the number `k`.
pub open spec fn in_flight(st: GlobalView, sid: u32, k: i32, id: u32, original: IdView) -> bool {
    &&& st.servers.contains_key(sid)
    &&& st.servers[sid].request_ids.contains_key(k)
    &&& st.servers[sid].request_ids[k] == (id, original)
}

/// A request of a client goes to its server and to nobody else, under a number under which no
/// other request is in flight, and with everything else as the client sent it.
pub proof fn law_request_goes_to_the_server(st: GlobalView, id: u32, request: RequestView)
    requires
        state_wf(st),
        st.clients.contains_key(id),
        request.method != "shutdown"@,
        can_request(st, id, request),
    ensures
        ({
            let sid = st.clients[id].server_id;
            let k = st.servers[sid].next_request_id;
            let sent = client_request(st, id, request);
            &&& sent.actions == seq![
                ActionView::ToServer(
                    sid,
                    MessageView::Request(RequestView { id: IdView::Number(k), ..request }),
                ),
            ]
            &&& !st.servers[sid].request_ids.contains_key(k)
            &&& in_flight(sent.state, sid, k, id, request.id)
        }),
{
    assert(st.servers.contains_key(st.clients[id].server_id));
    assert(server_wf(st.servers[st.clients[id].server_id]));
}

/// The answer to a request in flight goes to the client that sent the request and to nobody else,
/// under the client's own id and with everything else as the server sent it. Afterwards the request
/// is in flight no longer: a second answer is refused.
pub proof fn law_answer_goes_to_the_client(
    st: GlobalView,
    sid: u32,
    k: i32,
    id: u32,
    original: IdView,
    response: ResponseView,
    again: ResponseView,
)
    requires
        in_flight(st, sid, k, id, original),
        !awaits_initialization(st, sid),
        st.clients.contains_key(id),
        response.id == IdView::Number(k),
        again.id == IdView::Number(k),
    ensures
        ({
            let answered = server_response(st, sid, response);
            &&& answered.actions == seq![
                ActionView::ToClient(
                    id,
                    MessageView::Response(ResponseView { id: original, ..response }),
                ),
            ]
            &&& answered.result is Ok
            &&& server_response(answered.state, sid, again) == refused(
                answered.state,
                ErrorView::RequestNotFound,
            )
        }),
{
}

/// An event that ends the wait for the request that the server `sid` knows under the number `k`:
/// the server answers it, or goes, or another server takes its place.
pub open spec fn ends_wait(event: EventView, sid: u32, k: i32) -> bool {
    match event {
        EventView::ServerResponse(s, response) => s == sid && response.id == IdView::Number(k),
        EventView::ServerInitialized(s, response, _, _, _) => s == sid && response.id
            == IdView::Number(k),
        EventView::ServerDropped(s, _) => s == sid,
        EventView::Spawned(spawn) => spawn.server_id == sid,
        _ => false,
    }
}

/// A request stays in flight, under its number, until it is answered or its server goes, whatever
/// else happens, and no other request gets its number.
pub proof fn law_in_flight_until_answered(
    st: GlobalView,
    event: EventView,
    sid: u32,
    k: i32,
    id: u32,
    original: IdView,
)
    requires
        state_wf(st),
        enabled(st, event),
        in_flight(st, sid, k, id, original),
        !ends_wait(event, sid, k),
    ensures
        outcome(st, event).state.servers.contains_key(sid) ==> in_flight(
            outcome(st, event).state,
            sid,
            k,
            id,
            original,
        ),
        outcome(st, event).state.servers.contains_key(sid) ==> st.servers[sid].next_request_id
            <= outcome(st, event).state.servers[sid].next_request_id,
{
    assert(server_wf(st.servers[sid]));
    match event {
        EventView::ClientRequest(c, request) => {
            if st.clients.contains_key(c) {
                assert(st.servers.contains_key(st.clients[c].server_id));
            }
        },
        EventView::ClientNotification(c, notification, said, found) => {
            let inner = client_notification_inner(st, c, notification, said, found);
            assert(in_flight(inner.state, sid, k, id, original));
        },
        _ => {},
    }
}

/// A client that wants to shut down is told so, and neither its server nor anything else is
/// touched by it.
pub proof fn law_shutdown_leaves_the_server(st: GlobalView, id: u32, request: RequestView)
    requires
        st.clients.contains_key(id),
        request.method == "shutdown"@,
    ensures
        client_request(st, id, request) == accepted(
            st,
            seq![
                ActionView::ToClient(
                    id,
                    MessageView::Response(
                        ResponseView { id: request.id, result: Some("null"@), error: None },
                    ),
                ),
            ],
        ),
{
}

/// The server `sid` waits for an answer to a request.
pub open spec fn is_pending(st: GlobalView, sid: u32, request: RequestView) -> bool {
    st.servers.contains_key(sid) && st.servers[sid].pending.contains(request)
}

/// The client `id` has been sent the request `original` of its server under the number `k`, and has
/// not answered it.
pub open spec fn is_asked(st: GlobalView, id: u32, k: i32, original: IdView) -> bool {
    &&& st.clients.contains_key(id)
    &&& st.clients[id].request_ids.contains_key(k)
    &&& st.clients[id].request_ids[k] == original
}

/// A request of a server that is not about progress is kept, and if there is a primary, it goes to
/// the primary and to nobody else, under a number under which the primary has not been asked
/// anything, and with everything else as the server sent it.
pub proof fn law_server_request_goes_to_the_primary(
    st: GlobalView,
    sid: u32,
    request: RequestView,
)
    requires
        state_wf(st),
        st.servers.contains_key(sid),
        !begins_with(request.method, "window/workDoneProgress/"@),
        can_ask(st, sid, request),
    ensures
        ({
            let asked = server_request(st, sid, request);
            let connections = st.servers[sid].connections;
            &&& asked.result is Ok
            &&& is_pending(asked.state, sid, request)
            &&& connections.len() == 0 ==> asked.actions == Seq::<ActionView>::empty()
            &&& connections.len() > 0 ==> {
                let id = connections[0];
                let k = st.clients[id].next_request_id;
                &&& asked.actions == seq![
                    ActionView::ToClient(
                        id,
                        MessageView::Request(RequestView { id: IdView::Number(k), ..request }),
                    ),
                ]
                &&& !st.clients[id].request_ids.contains_key(k)
                &&& is_asked(asked.state, id, k, request.id)
            }
        }),
{
    let server = st.servers[sid];
    lemma_request_at(server.pending, request.id);
    let at = request_at(server.pending, request.id);
    let pending = with_request(server.pending, request);
    assert(pending[if at < server.pending.len() {
        at
    } else {
        server.pending.len() as int
    }] == request);
    assert(pending.contains(request));
    if server.connections.len() > 0 {
        assert(client_wf(st.clients[server.connections[0]]));
    }
}

/// The answer of a client to a pending request goes to its server and to nobody else, under the
/// server's own id and with everything else as the client sent it. The request is pending no
/// longer, and a second answer of the client is refused.
pub proof fn law_answer_goes_to_the_server(
    st: GlobalView,
    id: u32,
    k: i32,
    request: RequestView,
    response: ResponseView,
    again: ResponseView,
)
    requires
        state_wf(st),
        is_asked(st, id, k, request.id),
        is_pending(st, st.clients[id].server_id, request),
        response.id == IdView::Number(k),
        again.id == IdView::Number(k),
    ensures
        ({
            let sid = st.clients[id].server_id;
            let told = client_response(st, id, response);
            &&& told.actions == seq![
                ActionView::ToServer(
                    sid,
                    MessageView::Response(ResponseView { id: request.id, ..response }),
                ),
            ]
            &&& forall|r: RequestView| #[trigger]
                is_pending(told.state, sid, r) <==> is_pending(st, sid, r) && r != request
            &&& client_response(told.state, id, again) == refused(
                told.state,
                ErrorView::RequestNotFound,
            )
        }),
{
    let sid = st.clients[id].server_id;
    let pending = st.servers[sid].pending;
    assert(server_wf(st.servers[sid]));
    lemma_request_at(pending, request.id);
    let at = request_at(pending, request.id);
    let i = choose|i: int| 0 <= i < pending.len() && pending[i] == request;
    assert(at == i) by {
        if at < i {
            assert(pending[at].id != pending[i].id);
        }
    }
    let told = client_response(st, id, response);
    let left = told.state.servers[sid].pending;
    assert(left =~= pending.remove(at));
    assert forall|r: RequestView| #[trigger] is_pending(told.state, sid, r) <==> is_pending(
        st,
        sid,
        r,
    ) && r != request by {
        if left.contains(r) {
            let j = choose|j: int| 0 <= j < left.len() && left[j] == r;
            let j2 = if j < at { j } else { j + 1 };
            assert(pending[j2] == r);
            assert(pending[j2].id != pending[at].id);
        }
        if pending.contains(r) && r != request {
            let j = choose|j: int| 0 <= j < pending.len() && pending[j] == r;
            assert(left[if j < at { j } else { j - 1 }] == r);
        }
    }
}

/// The answer of a client to a request that its server no longer waits for is dropped.
pub proof fn law_late_answer_is_dropped(
    st: GlobalView,
    id: u32,
    k: i32,
    original: IdView,
    response: ResponseView,
)
    requires
        state_wf(st),
        is_asked(st, id, k, original),
        response.id == IdView::Number(k),
        forall|r: RequestView| #[trigger]
            is_pending(st, st.clients[id].server_id, r) ==> r.id != original,
    ensures
        client_response(st, id, response).actions == Seq::<ActionView>::empty(),
        client_response(st, id, response).result is Ok,
        client_response(st, id, response).state.servers == st.servers,
{
    let sid = st.clients[id].server_id;
    let pending = st.servers[sid].pending;
    assert(st.servers.contains_key(sid));
    lemma_request_at(pending, original);
    let at = request_at(pending, original);
    if at < pending.len() {
        assert(pending.contains(pending[at]));
        assert(is_pending(st, sid, pending[at]));
    }
}

/// An event that ends the wait of the server `sid` for the answer to `request`: a client of the
/// server answers, the server asks again under the same id, or goes, or another server takes its
/// place.
pub open spec fn ends_request(
    st: GlobalView,
    event: EventView,
    sid: u32,
    request: RequestView,
) -> bool {
    match event {
        EventView::ClientResponse(c, response) => {
            &&& is_client_of(st, c, sid)
            &&& answered(st.clients[c], response.id) == Some(request.id)
        },
        EventView::ServerRequest(s, other) => s == sid && other.id == request.id,
        EventView::ServerDropped(s, _) => s == sid,
        EventView::Spawned(spawn) => spawn.server_id == sid,
        _ => false,
    }
}

/// A request of a server stays pending until a client answers it or the server goes, whatever else
/// happens.
pub proof fn law_pending_until_answered(
    st: GlobalView,
    event: EventView,
    sid: u32,
    request: RequestView,
)
    requires
        state_wf(st),
        enabled(st, event),
        is_pending(st, sid, request),
        !ends_request(st, event, sid, request),
    ensures
        outcome(st, event).state.servers.contains_key(sid) ==> is_pending(
            outcome(st, event).state,
            sid,
            request,
        ),
{
    let pending = st.servers[sid].pending;
    let i = choose|i: int| 0 <= i < pending.len() && pending[i] == request;
    match event {
        EventView::ClientResponse(c, response) => {
            if st.clients.contains_key(c) && answered(st.clients[c], response.id) is Some {
                let original = answered(st.clients[c], response.id)->0;
                let server_id = st.clients[c].server_id;
                if server_id == sid {
                    lemma_request_at(pending, original);
                    let at = request_at(pending, original);
                    if at < pending.len() {
                        let left = pending.remove(at);
                        assert(at != i);
                        assert(left[if i < at { i } else { i - 1 }] == request);
                        assert(left.contains(request));
                    }
                }
            }
        },
        EventView::ClientNotification(c, notification, said, found) => {
            let inner = client_notification_inner(st, c, notification, said, found);
            assert(is_pending(inner.state, sid, request));
        },
        EventView::ServerRequest(s, other) => {
            if s == sid && st.servers.contains_key(s) && !begins_with(
                other.method,
                "window/workDoneProgress/"@,
            ) {
                lemma_request_at(pending, other.id);
                assert(with_request(pending, other)[i] == request);
                assert(with_request(pending, other).contains(request));
            }
        },
        _ => {},
    }
}

/// What a server asks about progress is answered at once, and nobody else hears of it.
pub proof fn law_progress_is_answered_here(st: GlobalView, sid: u32, request: RequestView)
    requires
        st.servers.contains_key(sid),
        begins_with(request.method, "window/workDoneProgress/"@),
    ensures
        server_request(st, sid, request) == accepted(
            st,
            seq![
                ActionView::ToServer(
                    sid,
                    MessageView::Response(
                        ResponseView { id: request.id, result: Some("null"@), error: None },
                    ),
                ),
            ],
        ),
{
}

} // verus!
