//! What servers know of clients is so.

use crate::documents::{lemma_document_at, lemma_remove_document, lemma_with_document};
use crate::laws::{enabled, outcome, EventView};
use crate::laws::documents::lemma_documents_apart;
use crate::message::{NotificationView, RequestView};
use crate::model::{
    can_ask, can_broadcast, can_leave, can_request, client_notification_inner, distinct_documents,
    document_at, document_refused, documents_after, documents_after_renames, documents_marked,
    drop_client, drop_server, first_at, hands_over, initialization, is_abandoned, is_client_of,
    is_primary, is_roster, joins_safely, new_primary, server_after_response, server_wf,
    state_after_leave, state_wf, with_client, with_document, with_server, without, ClientEventView,
    ClientView, GlobalView, OpenDocumentView, ServerView,
};
use crate::peers::lemma_first_at;
use crate::server::lemma_server_kept;
use vstd::prelude::*;

verus! {

/// All that the server `sid` knows of clients is so: its connections are clients of its own that
/// are ready, each of them once, its documents are open by clients of its own, the requests in
/// flight to it are those of clients of its own, or of such that have left, and it has a client
/// that waits for it if it is not initialized.
pub open spec fn settled_server(st: GlobalView, sid: u32) -> bool {
    let server = st.servers[sid];
    &&& server.connections.no_duplicates()
    &&& forall|i: int|
        0 <= i < server.connections.len() ==> is_client_of(
            st,
            #[trigger] server.connections[i],
            sid,
        ) && st.clients[server.connections[i]].is_initialized
    &&& forall|i: int|
        0 <= i < server.documents.len() ==> is_client_of(
            st,
            (#[trigger] server.documents[i]).opened_by,
            sid,
        )
    &&& requests_are_own(st, server, sid)
    &&& server.initialize_result is None ==> exists|c: u32| is_client_of(st, c, sid)
}

/// The requests in flight to a server are those of clients of the server `sid`, or of such that
/// have left.
pub open spec fn requests_are_own(st: GlobalView, server: ServerView, sid: u32) -> bool {
    forall|k: i32| #[trigger]
        server.request_ids.contains_key(k) && st.clients.contains_key(server.request_ids[k].0)
            ==> is_client_of(st, server.request_ids[k].0, sid)
}

/// A number that no client has and that no request in flight came from.
pub open spec fn is_new_number(st: GlobalView, id: u32) -> bool {
    &&& !st.clients.contains_key(id)
    &&& forall|sid: u32, k: i32| #[trigger]
        st.servers.contains_key(sid) && #[trigger] st.servers[sid].request_ids.contains_key(k)
            ==> st.servers[sid].request_ids[k].0 != id
}

/// All that the servers know of clients is so.
pub open spec fn settled(st: GlobalView) -> bool {
    forall|sid: u32| #[trigger] st.servers.contains_key(sid) ==> settled_server(st, sid)
}

/// An event as it comes from clients that behave: each is ready only once, and a client or server
/// that is new has a number of its own.
pub open spec fn orderly(st: GlobalView, event: EventView) -> bool {
    match event {
        EventView::Connected(conn, _) => is_new_number(st, conn.id),
        EventView::Spawned(spawn) => {
            &&& is_new_number(st, spawn.client_id)
            &&& !st.servers.contains_key(spawn.server_id)
        },
        EventView::ClientNotification(id, _, ClientEventView::Initialized, _) =>
            st.clients.contains_key(id) ==> !st.clients[id].is_initialized,
        _ => true,
    }
}

/// The server `sid` and its clients are, as far as being settled goes, what they were.
spec fn alike(st: GlobalView, after: GlobalView, sid: u32) -> bool {
    let a = st.servers[sid];
    let b = after.servers[sid];
    &&& st.servers.contains_key(sid)
    &&& a.connections == b.connections
    &&& a.documents == b.documents
    &&& requests_are_own(after, b, sid)
    &&& b.initialize_result is None ==> a.initialize_result is None
    &&& forall|c: u32| #[trigger]
        is_client_of(st, c, sid) ==> is_client_of(after, c, sid) && (
        st.clients[c].is_initialized ==> after.clients[c].is_initialized)
}

proof fn lemma_alike(st: GlobalView, after: GlobalView, sid: u32)
    requires
        settled_server(st, sid),
        alike(st, after, sid),
    ensures
        settled_server(after, sid),
{
    let server = st.servers[sid];
    assert forall|i: int| 0 <= i < server.connections.len() implies is_client_of(
        after,
        #[trigger] server.connections[i],
        sid,
    ) && after.clients[server.connections[i]].is_initialized by {
        assert(is_client_of(st, server.connections[i], sid));
    }
    assert forall|i: int| 0 <= i < server.documents.len() implies is_client_of(
        after,
        (#[trigger] server.documents[i]).opened_by,
        sid,
    ) by {
        assert(is_client_of(st, server.documents[i].opened_by, sid));
    }
    if after.servers[sid].initialize_result is None {
        let c = choose|c: u32| is_client_of(st, c, sid);
        assert(is_client_of(st, c, sid));
        assert(is_client_of(after, c, sid));
    }
}

/// If every server is what it was as far as being settled goes, the state is still settled.
proof fn lemma_all_alike(st: GlobalView, after: GlobalView)
    requires
        settled(st),
        forall|sid: u32| #[trigger] after.servers.contains_key(sid) ==> alike(st, after, sid),
    ensures
        settled(after),
{
    assert forall|sid: u32| #[trigger] after.servers.contains_key(sid) implies settled_server(
        after,
        sid,
    ) by {
        lemma_alike(st, after, sid);
    }
}

/// A new primary leaves the state settled.
proof fn lemma_new_primary_settled(st: GlobalView, sid: u32)
    requires
        settled(st),
        st.servers.contains_key(sid),
        st.servers[sid].connections.len() > 0,
        st.clients.contains_key(st.servers[sid].connections[0]),
    ensures
        settled(new_primary(st, sid).0),
{
    lemma_all_alike(st, new_primary(st, sid).0);
}

/// A server that goes with all its clients leaves the state settled.
proof fn lemma_drop_server_settled(st: GlobalView, sid: u32, leavers: Seq<u32>)
    requires
        settled(st),
        is_roster(leavers, st, sid),
    ensures
        settled(drop_server(st, sid, leavers).0),
{
    let after = drop_server(st, sid, leavers).0;
    assert forall|s: u32| #[trigger] after.servers.contains_key(s) implies alike(st, after, s) by {
        assert forall|c: u32| #[trigger] is_client_of(st, c, s) implies is_client_of(after, c, s)
            && (st.clients[c].is_initialized ==> after.clients[c].is_initialized) by {
            if leavers.to_set().contains(c) {
                assert(leavers.contains(c));
                assert(is_client_of(st, c, sid));
            }
        }
    }
    lemma_all_alike(st, after);
}

/// A list without the first occurrence of an item, where no item occurs twice, has just the other
/// items.
proof fn lemma_without(list: Seq<u32>, id: u32)
    requires
        list.no_duplicates(),
    ensures
        without(list, id).no_duplicates(),
        forall|i: int|
            0 <= i < without(list, id).len() ==> list.contains(#[trigger] without(list, id)[i])
                && without(list, id)[i] != id,
{
    lemma_first_at(list, id);
    let at = first_at(list, id);
    let after = without(list, id);
    assert forall|i: int| 0 <= i < after.len() implies list.contains(#[trigger] after[i])
        && after[i] != id by {
        let j = if i < at { i } else { i + 1 };
        if at < list.len() {
            assert(after[i] == list[j]);
            assert(list[j] != list[at]);
        } else {
            assert(after[i] == list[i]);
        }
    }
    assert forall|i: int, j: int| 0 <= i < j < after.len() implies after[i] != after[j] by {
        if at < list.len() {
            let i2 = if i < at { i } else { i + 1 };
            let j2 = if j < at { j } else { j + 1 };
            assert(list[i2] != list[j2]);
        }
    }
}

/// A client that leaves leaves the state settled.
proof fn lemma_leave_settled(st: GlobalView, id: u32)
    requires
        state_wf(st),
        settled(st),
        can_leave(st, id),
    ensures
        settled(drop_client(st, id).state),
{
    if st.clients.contains_key(id) {
        let sid = st.clients[id].server_id;
        assert(st.servers.contains_key(sid));
        let server = st.servers[sid];
        let after = state_after_leave(st, id);
        let left = after.servers[sid];
        assert(settled_server(st, sid));
        lemma_without(server.connections, id);
        lemma_documents_apart(server.documents, id);
        assert forall|s: u32| #[trigger] after.servers.contains_key(s) && s
            != sid implies settled_server(after, s) by {
            assert(alike(st, after, s));
            lemma_alike(st, after, s);
        }
        assert forall|i: int| 0 <= i < left.connections.len() implies is_client_of(
            after,
            #[trigger] left.connections[i],
            sid,
        ) && after.clients[left.connections[i]].is_initialized by {
            assert(server.connections.contains(left.connections[i]));
            let j = choose|j: int|
                0 <= j < server.connections.len() && server.connections[j] == left.connections[i];
            assert(is_client_of(st, server.connections[j], sid));
        }
        assert forall|i: int| 0 <= i < left.documents.len() implies is_client_of(
            after,
            (#[trigger] left.documents[i]).opened_by,
            sid,
        ) by {
            assert(left.documents.contains(left.documents[i]));
            let j = choose|j: int|
                0 <= j < server.documents.len() && server.documents[j] == left.documents[i];
            assert(is_client_of(st, server.documents[j].opened_by, sid));
        }
        if is_abandoned(after, sid) {
            let gone = GlobalView { servers: after.servers.remove(sid), ..after };
            assert forall|s: u32| #[trigger] gone.servers.contains_key(s) implies settled_server(
                gone,
                s,
            ) by {
                assert(after.servers.contains_key(s));
                assert(alike(after, gone, s));
                lemma_alike(after, gone, s);
            }
        } else {
            assert(settled_server(after, sid));
            assert(settled(after));
            if hands_over(server, id) {
                lemma_new_primary_settled(after, sid);
            }
        }
    }
}

/// Whoever has a document open after a client has done something to documents had one open before,
/// or is that client.
proof fn lemma_owners(documents: Seq<OpenDocumentView>, id: u32, said: ClientEventView)
    ensures
        forall|i: int|
            0 <= i < documents_after(documents, id, said).0.len() ==> owns(
                documents,
                id,
                (#[trigger] documents_after(documents, id, said).0[i]).opened_by,
            ),
{
    let after = documents_after(documents, id, said).0;
    lemma_owners_start(documents, id);
    match said {
        ClientEventView::Opened(uri) => {},
        ClientEventView::Changed(uri) => {
            lemma_document_at(documents, uri);
        },
        ClientEventView::Saved(uri) => {
            lemma_document_at(documents, uri);
        },
        ClientEventView::Closed(uri) => {
            lemma_document_at(documents, uri);
            let at = document_at(documents, uri);
            if document_refused(documents, id, uri) is None {
                assert forall|i: int| 0 <= i < after.len() implies owns(
                    documents,
                    id,
                    (#[trigger] after[i]).opened_by,
                ) by {
                    assert(after[i] == documents[if i < at { i } else { i + 1 }]);
                }
            }
        },
        ClientEventView::Renamed(files) => {
            lemma_owners_renamed(documents, documents, id, files);
        },
        _ => {},
    }
}

/// A client that has a document of a list open, or is the client `id`.
spec fn owns(documents: Seq<OpenDocumentView>, id: u32, owner: u32) -> bool {
    owner == id || exists|i: int| 0 <= i < documents.len() && #[trigger] documents[i].opened_by
        == owner
}

proof fn lemma_owners_start(documents: Seq<OpenDocumentView>, id: u32)
    ensures
        forall|i: int|
            0 <= i < documents.len() ==> owns(documents, id, (#[trigger] documents[i]).opened_by),
{
}

proof fn lemma_owners_renamed(
    first: Seq<OpenDocumentView>,
    documents: Seq<OpenDocumentView>,
    id: u32,
    files: Seq<Option<(Seq<char>, Seq<char>)>>,
)
    requires
        forall|i: int|
            0 <= i < documents.len() ==> owns(first, id, (#[trigger] documents[i]).opened_by),
    ensures
        forall|i: int|
            0 <= i < documents_after_renames(documents, id, files).0.len() ==> owns(
                first,
                id,
                (#[trigger] documents_after_renames(documents, id, files).0[i]).opened_by,
            ),
    decreases files.len(),
{
    if files.len() > 0 && files[0] is Some {
        let (from, to) = files[0]->0;
        lemma_document_at(documents, from);
        if document_refused(documents, id, from) is None {
            let at = document_at(documents, from);
            let left = documents.remove(at);
            let moved = OpenDocumentView { uri: to, ..documents[at] };
            let next = with_document(left, moved);
            lemma_document_at(left, to);
            assert forall|i: int| 0 <= i < next.len() implies owns(
                first,
                id,
                (#[trigger] next[i]).opened_by,
            ) by {
                if next[i] == moved {
                    assert(owns(first, id, documents[at].opened_by));
                } else {
                    assert(next[i] == left[i]);
                    assert(left[i] == documents[if i < at { i } else { i + 1 }]);
                }
            }
            lemma_owners_renamed(first, next, id, files.skip(1));
            assert(documents_after_renames(documents, id, files) == documents_after_renames(
                next,
                id,
                files.skip(1),
            ));
        } else {
            assert(documents_after_renames(documents, id, files).0 == documents);
        }
    } else {
        assert(documents_after_renames(documents, id, files).0 == documents);
    }
}

/// What a client notifies its server of, as long as it is accepted, leaves the state settled.
pub(crate) proof fn lemma_notification_settled(
    st: GlobalView,
    id: u32,
    notification: NotificationView,
    said: ClientEventView,
    found: Option<i32>,
)
    requires
        state_wf(st),
        settled(st),
        st.clients.contains_key(id),
        joins_safely(st, id, said),
        said is Initialized ==> !st.clients[id].is_initialized,
    ensures
        settled(client_notification_inner(st, id, notification, said, found).state),
{
    let client = st.clients[id];
    let sid = client.server_id;
    assert(st.servers.contains_key(sid));
    let server = st.servers[sid];
    assert(settled_server(st, sid));
    let inner = client_notification_inner(st, id, notification, said, found);
    if said is Initialized {
        let joined = with_server(
            with_client(st, id, ClientView { is_initialized: true, ..client }),
            sid,
            ServerView {
                connections: server.connections.push(id),
                is_initialized: true,
                ..server
            },
        );
        let list = server.connections.push(id);
        assert(list.no_duplicates()) by {
            assert forall|i: int, j: int| 0 <= i < j < list.len() implies list[i] != list[j] by {
                if j == server.connections.len() {
                    assert(st.clients[server.connections[i]].is_initialized);
                }
            }
        }
        assert forall|i: int| 0 <= i < list.len() implies is_client_of(joined, #[trigger] list[i], sid)
            && joined.clients[list[i]].is_initialized by {
            if i < server.connections.len() {
                assert(is_client_of(st, server.connections[i], sid));
            }
        }
        assert forall|i: int| 0 <= i < server.documents.len() implies is_client_of(
            joined,
            (#[trigger] server.documents[i]).opened_by,
            sid,
        ) by {
            assert(is_client_of(st, server.documents[i].opened_by, sid));
        }
        assert(is_client_of(joined, id, sid));
        assert forall|s: u32| #[trigger] joined.servers.contains_key(s) implies settled_server(
            joined,
            s,
        ) by {
            if s != sid {
                assert(alike(st, joined, s));
                lemma_alike(st, joined, s);
            }
        }
        assert(settled(joined));
        if is_primary(server, id) {
            if server.connections.len() > 0 {
                assert(is_client_of(st, server.connections[0], sid));
            }
            lemma_new_primary_settled(joined, sid);
        }
    } else if said is Configured && !is_primary(server, id) {
        lemma_all_alike(st, inner.state);
    } else {
        let (documents, result) = documents_after(server.documents, id, said);
        let noted = with_server(st, sid, ServerView { documents, ..server });
        lemma_owners(server.documents, id, said);
        assert forall|i: int| 0 <= i < documents.len() implies is_client_of(
            noted,
            (#[trigger] documents[i]).opened_by,
            sid,
        ) by {
            let owner = documents[i].opened_by;
            assert(owns(server.documents, id, owner));
            if owner != id {
                let j = choose|j: int|
                    0 <= j < server.documents.len() && #[trigger] server.documents[j].opened_by
                        == owner;
                assert(is_client_of(st, server.documents[j].opened_by, sid));
            }
        }
        assert forall|i: int| 0 <= i < server.connections.len() implies is_client_of(
            noted,
            #[trigger] server.connections[i],
            sid,
        ) && noted.clients[server.connections[i]].is_initialized by {
            assert(is_client_of(st, server.connections[i], sid));
        }
        assert(is_client_of(noted, id, sid));
        assert forall|s: u32| #[trigger] noted.servers.contains_key(s) implies settled_server(
            noted,
            s,
        ) by {
            if s != sid {
                assert(alike(st, noted, s));
                lemma_alike(st, noted, s);
            }
        }
        if said is Cancelled || said is Invalid {
            assert(inner.state == st);
        } else {
            assert(inner.state == noted);
        }
    }
}

/// A settled state stays settled, whatever happens.
pub proof fn law_state_stays_settled(st: GlobalView, event: EventView)
    requires
        state_wf(st),
        settled(st),
        enabled(st, event),
        orderly(st, event),
    ensures
        settled(outcome(st, event).state),
{
    let after = outcome(st, event).state;
    match event {
        EventView::Spawned(spawn) => {
            assert forall|s: u32| #[trigger] after.servers.contains_key(s) implies settled_server(
                after,
                s,
            ) by {
                if s == spawn.server_id {
                    assert(is_client_of(after, spawn.client_id, s));
                } else {
                    assert(alike(st, after, s));
                    lemma_alike(st, after, s);
                }
            }
        },
        EventView::ClientNotification(id, notification, said, found) => {
            if st.clients.contains_key(id) {
                let inner = client_notification_inner(st, id, notification, said, found);
                lemma_notification_settled(st, id, notification, said, found);
                if inner.result is Err && can_leave(inner.state, id) {
                    lemma_refused_keeps_wf(st, id, notification, said, found);
                    lemma_leave_settled(inner.state, id);
                }
            } else {
                assert(after == st);
            }
        },
        EventView::ServerInitialized(sid, response, readable, roster, leavers) => {
            if initialization(response, readable) is Ok {
                lemma_all_alike(st, after);
            } else {
                let heard = with_server(
                    st,
                    sid,
                    server_after_response(st.servers[sid], response.id),
                );
                lemma_all_alike(st, heard);
                assert(is_roster(leavers, heard, sid)) by {
                    assert forall|c: u32| #[trigger] leavers.contains(c) <==> is_client_of(
                        heard,
                        c,
                        sid,
                    ) by {
                        assert(is_client_of(st, c, sid) == is_client_of(heard, c, sid));
                    }
                }
                lemma_drop_server_settled(heard, sid, leavers);
            }
        },
        EventView::ClientDropped(id) => {
            lemma_leave_settled(st, id);
        },
        EventView::ServerDropped(sid, leavers) => {
            lemma_drop_server_settled(st, sid, leavers);
        },
        _ => {
            lemma_all_alike(st, after);
        },
    }
}

/// A notification that is refused leaves the state well formed until the client is dropped.
pub(crate) proof fn lemma_refused_keeps_wf(
    st: GlobalView,
    id: u32,
    notification: NotificationView,
    said: ClientEventView,
    found: Option<i32>,
)
    requires
        state_wf(st),
        st.clients.contains_key(id),
        client_notification_inner(st, id, notification, said, found).result is Err,
    ensures
        state_wf(client_notification_inner(st, id, notification, said, found).state),
{
    let sid = st.clients[id].server_id;
    assert(st.servers.contains_key(sid));
    let server = st.servers[sid];
    assert(server_wf(server));
    lemma_documents_stay_distinct(server.documents, id, said);
    let documents = documents_after(server.documents, id, said).0;
    lemma_server_kept(st, sid, ServerView { documents, ..server });
}

/// What a client does to documents leaves no document open twice.
pub(crate) proof fn lemma_documents_stay_distinct(
    documents: Seq<OpenDocumentView>,
    id: u32,
    said: ClientEventView,
)
    requires
        distinct_documents(documents),
    ensures
        distinct_documents(documents_after(documents, id, said).0),
{
    match said {
        ClientEventView::Opened(uri) => {
            lemma_document_at(documents, uri);
            let document = OpenDocumentView { uri, opened_by: id, is_modified: false };
            lemma_with_document(documents, document);
        },
        ClientEventView::Changed(uri) => {
            lemma_marking_stays_distinct(documents, id, uri, true);
        },
        ClientEventView::Saved(uri) => {
            lemma_marking_stays_distinct(documents, id, uri, false);
        },
        ClientEventView::Closed(uri) => {
            lemma_document_at(documents, uri);
            if document_refused(documents, id, uri) is None {
                lemma_remove_document(documents, document_at(documents, uri));
            }
        },
        ClientEventView::Renamed(files) => {
            lemma_renames_stay_distinct(documents, id, files);
        },
        _ => {},
    }
}

proof fn lemma_marking_stays_distinct(
    documents: Seq<OpenDocumentView>,
    id: u32,
    uri: Seq<char>,
    to: bool,
)
    requires
        distinct_documents(documents),
    ensures
        distinct_documents(documents_marked(documents, id, uri, to).0),
{
    lemma_document_at(documents, uri);
    let after = documents_marked(documents, id, uri, to).0;
    assert forall|i: int, j: int| 0 <= i < j < after.len() implies #[trigger] after[i].uri
        != #[trigger] after[j].uri by {
        assert(after[i].uri == documents[i].uri);
        assert(after[j].uri == documents[j].uri);
    }
}

proof fn lemma_renames_stay_distinct(
    documents: Seq<OpenDocumentView>,
    id: u32,
    files: Seq<Option<(Seq<char>, Seq<char>)>>,
)
    requires
        distinct_documents(documents),
    ensures
        distinct_documents(documents_after_renames(documents, id, files).0),
    decreases files.len(),
{
    if files.len() > 0 && files[0] is Some {
        let (from, to) = files[0]->0;
        lemma_document_at(documents, from);
        if document_refused(documents, id, from) is None {
            let at = document_at(documents, from);
            let moved = OpenDocumentView { uri: to, ..documents[at] };
            lemma_remove_document(documents, at);
            lemma_with_document(documents.remove(at), moved);
            lemma_renames_stay_distinct(
                with_document(documents.remove(at), moved),
                id,
                files.skip(1),
            );
        }
    }
}

/// There are numbers left for whatever servers and clients may ask.
pub open spec fn has_room(st: GlobalView) -> bool {
    &&& forall|c: u32| #[trigger]
        st.clients.contains_key(c) ==> st.clients[c].next_request_id
            + st.servers[st.clients[c].server_id].pending.len() < i32::MAX
    &&& forall|sid: u32| #[trigger]
        st.servers.contains_key(sid) ==> st.servers[sid].next_request_id < i32::MAX
}

/// In a settled state nothing that clients and servers say is out of place, as long as there are
/// numbers left: any client can leave, any request can be sent, and everybody is there whom a
/// notification goes to.
pub proof fn law_settled_state_is_ready(
    st: GlobalView,
    id: u32,
    sid: u32,
    request: RequestView,
    notification: NotificationView,
    said: ClientEventView,
)
    requires
        state_wf(st),
        settled(st),
        has_room(st),
    ensures
        can_leave(st, id),
        can_request(st, id, request),
        joins_safely(st, id, said),
        can_ask(st, sid, request),
        can_broadcast(st, sid, notification),
{
    if st.clients.contains_key(id) {
        let s = st.clients[id].server_id;
        assert(st.servers.contains_key(s));
        let server = st.servers[s];
        let after = state_after_leave(st, id);
        assert(settled_server(st, s));
        if hands_over(server, id) {
            lemma_first_at(server.connections, id);
            assert(first_at(server.connections, id) == 0);
            let heir = server.connections[1];
            assert(server.connections[0] != server.connections[1]);
            assert(is_client_of(st, heir, s));
            assert(after.servers[s].connections[0] == heir);
            assert(st.clients.contains_key(heir));
        }
    }
    if st.servers.contains_key(sid) {
        assert(settled_server(st, sid));
        let server = st.servers[sid];
        if server.connections.len() > 0 {
            assert(is_client_of(st, server.connections[0], sid));
            assert(st.clients.contains_key(server.connections[0]));
        }
        assert forall|i: int| 0 <= i < server.connections.len() implies st.clients.contains_key(
            #[trigger] server.connections[i],
        ) by {
            assert(is_client_of(st, server.connections[i], sid));
        }
    }
}

} // verus!
