//! The oldest connection of a server is its primary.

use crate::laws::documents::lemma_documents_apart;
use crate::laws::requests::{is_asked, is_pending};
use crate::message::{IdView, MessageView, NotificationView, RequestView};
use crate::model::{
    can_leave, client_initialized, client_notification, client_wf, closings, documents_of,
    drop_client, farewell, first_at, hands_over, is_abandoned, is_primary, joins_safely,
    kept_configuration, new_primary, primary_ready, requests_to_client, state_after_leave, state_wf,
    with_client, with_server, ActionView, ClientEventView, ClientView, GlobalView, ServerView,
};
use crate::peers::lemma_first_at;
use crate::server::{lemma_client_kept, lemma_server_kept};
use crate::server::leaving::lemma_leave_keeps_wf;
use vstd::prelude::*;

verus! {

/// The new primary `id` of the server `sid` has been asked all that the server waits for, and what
/// it wanted to configure has been passed on and is kept no longer.
pub open spec fn took_over(
    before: GlobalView,
    after: GlobalView,
    actions: Seq<ActionView>,
    sid: u32,
    id: u32,
) -> bool {
    &&& forall|request: RequestView| #[trigger]
        is_pending(before, sid, request) ==> exists|k: i32| #[trigger]
            is_asked(after, id, k, request.id) && actions.contains(
                ActionView::ToClient(
                    id,
                    MessageView::Request(RequestView { id: IdView::Number(k), ..request }),
                ),
            )
    &&& before.clients[id].last_configuration matches Some(n) ==> actions.contains(
        ActionView::ToServer(sid, MessageView::Notification(n)),
    )
    &&& after.clients[id].last_configuration is None
}

/// Handing a server over to its oldest connection is what taking over takes.
proof fn lemma_new_primary(st: GlobalView, sid: u32)
    requires
        state_wf(st),
        st.servers.contains_key(sid),
        primary_ready(st, sid),
    ensures
        took_over(
            st,
            new_primary(st, sid).0,
            new_primary(st, sid).1,
            sid,
            st.servers[sid].connections[0],
        ),
{
    let server = st.servers[sid];
    let id = server.connections[0];
    let client = st.clients[id];
    let (after, actions) = new_primary(st, sid);
    let kept = kept_configuration(sid, client);
    let asked = requests_to_client(id, client.next_request_id, server.pending);
    assert(client_wf(client));
    assert(actions == kept + asked);
    assert forall|request: RequestView| #[trigger] is_pending(st, sid, request) implies exists|
        k: i32,
    | #[trigger]
        is_asked(after, id, k, request.id) && actions.contains(
            ActionView::ToClient(
                id,
                MessageView::Request(RequestView { id: IdView::Number(k), ..request }),
            ),
        ) by {
        let i = choose|i: int| 0 <= i < server.pending.len() && server.pending[i] == request;
        let k = (client.next_request_id + i) as i32;
        assert(is_asked(after, id, k, request.id));
        assert(actions[kept.len() + i] == asked[i]);
    }
    match client.last_configuration {
        Some(n) => {
            assert(actions[0] == kept[0]);
        },
        None => {},
    }
}

/// Actions that are part of a longer list are in the list.
proof fn lemma_part_of(
    before: GlobalView,
    after: GlobalView,
    front: Seq<ActionView>,
    part: Seq<ActionView>,
    sid: u32,
    id: u32,
)
    requires
        took_over(before, after, part, sid, id),
    ensures
        took_over(before, after, front + part, sid, id),
{
    let all = front + part;
    assert forall|a: ActionView| #[trigger] part.contains(a) implies all.contains(a) by {
        let i = choose|i: int| 0 <= i < part.len() && part[i] == a;
        assert(all[front.len() + i] == a);
    }
    assert forall|request: RequestView| #[trigger] is_pending(before, sid, request) implies exists|
        k: i32,
    | #[trigger]
        is_asked(after, id, k, request.id) && all.contains(
            ActionView::ToClient(
                id,
                MessageView::Request(RequestView { id: IdView::Number(k), ..request }),
            ),
        ) by {
        let k = choose|k: i32| #[trigger]
            is_asked(after, id, k, request.id) && part.contains(
                ActionView::ToClient(
                    id,
                    MessageView::Request(RequestView { id: IdView::Number(k), ..request }),
                ),
            );
        assert(is_asked(after, id, k, request.id));
    }
}

/// When the primary leaves and another connection is there, the next oldest connection takes over.
pub proof fn law_next_oldest_takes_over(st: GlobalView, id: u32)
    requires
        state_wf(st),
        st.clients.contains_key(id),
        can_leave(st, id),
        hands_over(st.servers[st.clients[id].server_id], id),
        !is_abandoned(state_after_leave(st, id), st.clients[id].server_id),
    ensures
        ({
            let sid = st.clients[id].server_id;
            let heir = st.servers[sid].connections[1];
            let left = drop_client(st, id);
            &&& left.result is Ok
            &&& left.state.servers[sid].connections == st.servers[sid].connections.skip(1)
            &&& took_over(st, left.state, left.actions, sid, heir)
        }),
{
    let sid = st.clients[id].server_id;
    let server = st.servers[sid];
    let after = state_after_leave(st, id);
    assert(st.servers.contains_key(sid));
    lemma_first_at(server.connections, id);
    assert(first_at(server.connections, id) == 0);
    assert(server.connections.remove(0) =~= server.connections.skip(1));
    lemma_documents_apart(server.documents, id);
    lemma_leave_keeps_wf(st, id, after);
    lemma_new_primary(after, sid);
    let heir = server.connections[1];
    let (next, handover) = new_primary(after, sid);
    assert(took_over(st, next, handover, sid, heir)) by {
        assert forall|request: RequestView| #[trigger] is_pending(st, sid, request) implies exists|
            k: i32,
        | #[trigger]
            is_asked(next, heir, k, request.id) && handover.contains(
                ActionView::ToClient(
                    heir,
                    MessageView::Request(RequestView { id: IdView::Number(k), ..request }),
                ),
            ) by {
            assert(is_pending(after, sid, request));
        }
    }
    lemma_part_of(
        st,
        next,
        farewell(id) + closings(sid, documents_of(server.documents, id)),
        handover,
        sid,
        heir,
    );
}

/// The first connection of a server is its primary: it takes over all that has been waiting.
pub proof fn law_first_connection_takes_over(
    st: GlobalView,
    id: u32,
    notification: NotificationView,
    found: Option<i32>,
)
    requires
        state_wf(st),
        st.clients.contains_key(id),
        st.servers[st.clients[id].server_id].connections.len() == 0,
        joins_safely(st, id, ClientEventView::Initialized),
    ensures
        ({
            let sid = st.clients[id].server_id;
            let said = ClientEventView::Initialized;
            let joined = client_notification(st, id, notification, said, found);
            &&& joined.result is Ok
            &&& joined.state.servers[sid].connections == seq![id]
            &&& joined.state.clients[id].is_initialized
            &&& took_over(st, joined.state, joined.actions, sid, id)
        }),
{
    let sid = st.clients[id].server_id;
    let server = st.servers[sid];
    let client = st.clients[id];
    let joined = with_server(
        with_client(st, id, ClientView { is_initialized: true, ..client }),
        sid,
        ServerView {
            connections: server.connections.push(id),
            is_initialized: true,
            ..server
        },
    );
    assert(st.servers.contains_key(sid));
    assert(server.connections.push(id) =~= seq![id]);
    lemma_client_kept(st, id, ClientView { is_initialized: true, ..client });
    lemma_server_kept(
        with_client(st, id, ClientView { is_initialized: true, ..client }),
        sid,
        joined.servers[sid],
    );
    lemma_new_primary(joined, sid);
    let (next, handover) = new_primary(joined, sid);
    assert(took_over(st, next, handover, sid, id)) by {
        assert forall|request: RequestView| #[trigger] is_pending(st, sid, request) implies exists|
            k: i32,
        | #[trigger]
            is_asked(next, id, k, request.id) && handover.contains(
                ActionView::ToClient(
                    id,
                    MessageView::Request(RequestView { id: IdView::Number(k), ..request }),
                ),
            ) by {
            assert(is_pending(joined, sid, request));
        }
    }
    let told = if server.is_initialized {
        Seq::<ActionView>::empty()
    } else {
        seq![ActionView::ToServer(sid, MessageView::Notification(notification))]
    };
    lemma_part_of(st, next, told, handover, sid, id);
}

/// The server hears of the configuration of a client only while the client is the primary: any
/// other client's configuration is kept, and nobody is told.
pub proof fn law_only_the_primary_configures(
    st: GlobalView,
    id: u32,
    notification: NotificationView,
    found: Option<i32>,
)
    requires
        st.clients.contains_key(id),
        !is_primary(st.servers[st.clients[id].server_id], id),
    ensures
        ({
            let kept = client_notification(
                st,
                id,
                notification,
                ClientEventView::Configured,
                found,
            );
            &&& kept.result is Ok
            &&& kept.actions == Seq::<ActionView>::empty()
            &&& kept.state == with_client(
                st,
                id,
                ClientView { last_configuration: Some(notification), ..st.clients[id] },
            )
        }),
{
}

/// A server hears that its clients are ready from one of them only, the first.
pub proof fn law_server_is_told_once_that_clients_are_ready(
    st: GlobalView,
    id: u32,
    notification: NotificationView,
)
    requires
        st.clients.contains_key(id),
        joins_safely(st, id, ClientEventView::Initialized),
    ensures
        ({
            let sid = st.clients[id].server_id;
            let joined = client_initialized(st, id, notification);
            &&& joined.state.servers[sid].is_initialized
            &&& !st.servers[sid].is_initialized ==> joined.actions[0] == ActionView::ToServer(
                sid,
                MessageView::Notification(notification),
            )
            &&& st.servers[sid].is_initialized && !is_primary(st.servers[sid], id)
                ==> joined.actions == Seq::<ActionView>::empty()
        }),
{
}

} // verus!
