//! What a client leaves behind, and who takes over from it.

use crate::laws::passing::{same_daemon, same_other_clients, same_other_servers};
use crate::message::{IdView, MessageView, NotificationView, RequestView};
use crate::model::{
    can_leave, closings, documents_of, documents_of_others, drop_client, farewell, first_at,
    hands_over, is_abandoned, is_client_of, new_primary, requests_to_client, state_after_leave,
    without, ActionView, ClientView, GlobalView, OpenDocumentView, ServerView,
};
use crate::params::close_params;
use crate::peers::lemma_first_at;
use vstd::prelude::*;

verus! {

/// A client has been sent all requests that its server waits for, numbered on from its last one and
/// in their order. It keeps track of all that it has been asked before. What it wanted to configure
/// is kept no longer, and nothing else of it has changed.
pub open spec fn has_been_asked(
    before: ClientView,
    after: ClientView,
    pending: Seq<RequestView>,
) -> bool {
    let next = before.next_request_id;
    &&& after.server_id == before.server_id
    &&& after.is_initialized == before.is_initialized
    &&& after.initialize_request_id == before.initialize_request_id
    &&& after.work_done_progress == before.work_done_progress
    &&& after.last_configuration is None
    &&& after.next_request_id == next + pending.len()
    &&& forall|k: i32| #[trigger]
        after.request_ids.contains_key(k) <==> before.request_ids.contains_key(k) || next <= k
            < next + pending.len()
    &&& forall|k: i32| #[trigger]
        after.request_ids.contains_key(k) ==> after.request_ids[k] == if next <= k < next
            + pending.len() {
            pending[k - next].id
        } else {
            before.request_ids[k]
        }
}

/// Actions that pass on to the server `sid` what the client `id` wanted to configure, if that is
/// anything, and then send the client all requests that the server waits for, in their order and
/// each with everything but its id as the server sent it. There is nothing else among them.
pub open spec fn hands_everything_over(
    actions: Seq<ActionView>,
    sid: u32,
    id: u32,
    before: ClientView,
    pending: Seq<RequestView>,
) -> bool {
    let first: int = if before.last_configuration is Some { 1 } else { 0 };
    &&& actions.len() == first + pending.len()
    &&& before.last_configuration matches Some(n) ==> actions[0] == ActionView::ToServer(
        sid,
        MessageView::Notification(n),
    )
    &&& forall|i: int|
        #![trigger pending[i]]
        0 <= i < pending.len() ==> actions[first + i] == ActionView::ToClient(
            id,
            MessageView::Request(
                RequestView {
                    id: IdView::Number((before.next_request_id + i) as i32),
                    method: pending[i].method,
                    params: pending[i].params,
                },
            ),
        )
}

/// Handing over takes what it takes.
pub(crate) proof fn lemma_handover(st: GlobalView, sid: u32)
    requires
        st.servers[sid].connections.len() > 0,
        st.clients.contains_key(st.servers[sid].connections[0]),
        st.clients[st.servers[sid].connections[0]].next_request_id + st.servers[sid].pending.len()
            <= i32::MAX,
    ensures
        ({
            let id = st.servers[sid].connections[0];
            let (after, actions) = new_primary(st, sid);
            let pending = st.servers[sid].pending;
            &&& hands_everything_over(actions, sid, id, st.clients[id], pending)
            &&& after.clients.contains_key(id)
            &&& has_been_asked(st.clients[id], after.clients[id], pending)
            &&& same_other_clients(st, after, id)
            &&& same_daemon(st, after)
            &&& after.servers == st.servers
        }),
{
    let id = st.servers[sid].connections[0];
    let client = st.clients[id];
    let pending = st.servers[sid].pending;
    let (after, actions) = new_primary(st, sid);
    let first: int = if client.last_configuration is Some { 1 } else { 0 };
    assert forall|i: int|
        #![trigger pending[i]]
        0 <= i < pending.len() implies actions[first + i] == ActionView::ToClient(
        id,
        MessageView::Request(
            RequestView {
                id: IdView::Number((client.next_request_id + i) as i32),
                method: pending[i].method,
                params: pending[i].params,
            },
        ),
    ) by {
        assert(actions[first + i] == requests_to_client(id, client.next_request_id, pending)[i]);
    }
}

/// The documents of a client and those of others are picked out of a list in their order.
proof fn lemma_documents_picked(documents: Seq<OpenDocumentView>, id: u32)
    ensures
        documents_of(documents, id) == documents.filter(|d: OpenDocumentView| d.opened_by == id),
        documents_of_others(documents, id) == documents.filter(
            |d: OpenDocumentView| d.opened_by != id,
        ),
    decreases documents.len(),
{
    reveal(Seq::filter);
    if documents.len() > 0 {
        lemma_documents_picked(documents.drop_last(), id);
    }
}

/// A client that leaves is told to exit, its connection is closed, and its server is told of every
/// document of its own that it is closed, in the order of the documents.
pub open spec fn says_goodbye(
    actions: Seq<ActionView>,
    id: u32,
    sid: u32,
    own: Seq<OpenDocumentView>,
) -> bool {
    &&& actions.len() >= 2 + own.len()
    &&& actions[0] == ActionView::ToClient(
        id,
        MessageView::Notification(NotificationView { method: "$/exit"@, params: "null"@ }),
    )
    &&& actions[1] == ActionView::CloseClient(id)
    &&& forall|i: int|
        #![trigger own[i]]
        0 <= i < own.len() ==> actions[2 + i] == ActionView::ToServer(
            sid,
            MessageView::Notification(
                NotificationView {
                    method: "textDocument/didClose"@,
                    params: close_params(own[i].uri),
                },
            ),
        )
}

/// A list without its first item that is `id`, if there is one, and otherwise as it was.
pub open spec fn is_list_without(before: Seq<u32>, after: Seq<u32>, id: u32) -> bool {
    ||| exists|at: int|
        0 <= at < before.len() && #[trigger] before[at] == id && (forall|j: int|
            0 <= j < at ==> #[trigger] before[j] != id) && after == before.take(at) + before.skip(
            at + 1,
        )
    ||| after == before && forall|j: int| 0 <= j < before.len() ==> #[trigger] before[j] != id
}

/// A client that leaves is gone, its connection is closed and so are its documents. The other
/// connections of its server stand in the order in which they stood, and so do the documents of
/// others. A server that never said how its initialization went goes with the last of its clients.
/// If the client was the oldest of several connections, the next oldest takes over. Nothing else
/// changes and nobody else hears of it.
pub proof fn law_leaving(st: GlobalView, id: u32)
    requires
        st.clients.contains_key(id),
        st.servers.contains_key(st.clients[id].server_id),
        can_leave(st, id),
    ensures
        ({
            let sid = st.clients[id].server_id;
            let server = st.servers[sid];
            let own = server.documents.filter(|d: OpenDocumentView| d.opened_by == id);
            let others = server.documents.filter(|d: OpenDocumentView| d.opened_by != id);
            let left = drop_client(st, id);
            let said = 2 + own.len() as int;
            let waited_for = exists|c: u32|
                c != id && #[trigger] st.clients.contains_key(c) && st.clients[c].server_id == sid;
            &&& left.result is Ok
            &&& !left.state.clients.contains_key(id)
            &&& says_goodbye(left.actions, id, sid, own)
            &&& same_daemon(st, left.state)
            &&& same_other_servers(st, left.state, sid)
            &&& left.state.servers.contains_key(sid) <==> server.initialize_result is Some
                || waited_for
            &&& !left.state.servers.contains_key(sid) ==> {
                &&& left.actions.len() == said + 1
                &&& left.actions[said] == ActionView::KillServer(sid)
                &&& same_other_clients(st, left.state, id)
            }
            &&& left.state.servers.contains_key(sid) ==> {
                let after = left.state.servers[sid];
                let heir = server.connections[1];
                &&& is_list_without(server.connections, after.connections, id)
                &&& after == (ServerView {
                    connections: after.connections,
                    documents: others,
                    ..server
                })
                &&& !(server.connections.len() > 1 && server.connections[0] == id) ==> {
                    &&& left.actions.len() == said
                    &&& same_other_clients(st, left.state, id)
                }
                &&& server.connections.len() > 1 && server.connections[0] == id ==> {
                    &&& hands_everything_over(
                        left.actions.skip(said),
                        sid,
                        heir,
                        st.clients[heir],
                        server.pending,
                    )
                    &&& left.state.clients.contains_key(heir)
                    &&& has_been_asked(
                        st.clients[heir],
                        left.state.clients[heir],
                        server.pending,
                    )
                    &&& forall|c: u32|
                        c != id && c != heir ==> (#[trigger] left.state.clients.contains_key(c)
                            <==> st.clients.contains_key(c)) && (st.clients.contains_key(c)
                            ==> left.state.clients[c] == st.clients[c])
                }
            }
        }),
{
    let sid = st.clients[id].server_id;
    let server = st.servers[sid];
    let own = documents_of(server.documents, id);
    let left = drop_client(st, id);
    let after = state_after_leave(st, id);
    let front = farewell(id) + closings(sid, own);
    lemma_documents_picked(server.documents, id);
    lemma_first_at(server.connections, id);
    let at = first_at(server.connections, id);
    let rest = without(server.connections, id);
    assert(is_list_without(server.connections, rest, id)) by {
        if at < server.connections.len() {
            assert(server.connections[at] == id);
            assert(rest =~= server.connections.take(at) + server.connections.skip(at + 1));
        }
    }
    assert(front[0] == farewell(id)[0]);
    assert(front[1] == farewell(id)[1]);
    assert forall|i: int| #![trigger own[i]] 0 <= i < own.len() implies front[2 + i]
        == ActionView::ToServer(
        sid,
        MessageView::Notification(
            NotificationView {
                method: "textDocument/didClose"@,
                params: close_params(own[i].uri),
            },
        ),
    ) by {
        assert(front[2 + i] == closings(sid, own)[i]);
    }
    assert forall|i: int| 0 <= i < front.len() implies #[trigger] left.actions[i] == front[i] by {}
    assert forall|i: int| #![trigger own[i]] 0 <= i < own.len() implies left.actions[2 + i]
        == front[2 + i] by {}
    let waited_for = exists|c: u32|
        c != id && #[trigger] st.clients.contains_key(c) && st.clients[c].server_id == sid;
    if waited_for {
        let c = choose|c: u32|
            c != id && #[trigger] st.clients.contains_key(c) && st.clients[c].server_id == sid;
        assert(is_client_of(after, c, sid));
    }
    if exists|c: u32| is_client_of(after, c, sid) {
        let c = choose|c: u32| is_client_of(after, c, sid);
        assert(st.clients.contains_key(c));
    }
    if !is_abandoned(after, sid) && hands_over(server, id) {
        assert(at == 0);
        lemma_handover(after, sid);
        assert(left.actions.skip(front.len() as int) =~= new_primary(after, sid).1);
    }
}

} // verus!
