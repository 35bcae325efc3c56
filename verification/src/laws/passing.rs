//! What clients say reaches their server.

use crate::laws::leaving::law_leaving;
use crate::laws::renaming::{is_owned, is_taken, law_closing, law_marking, law_opening};
use crate::laws::settled::lemma_refused_keeps_wf;
use crate::message::{MessageView, NotificationView, RequestView, ResponseView};
use crate::model::{
    can_leave, client_event, client_notification, client_notification_inner, client_request,
    client_response, documents_after, drop_client, server_notification, server_request,
    server_response, server_wf, state_wf, ActionView, ClientEventView, ClientView, ErrorView,
    GlobalView, Outcome, ServerView,
};
use crate::params::{
    cancelled_id, changed_document, closed_document, normal_uri, opened_document, renamed_files,
    saved_document,
};
use crate::server::clients::lemma_refused_can_leave;
use vstd::prelude::*;

verus! {

/// Nothing about the daemon has changed but what it knows of clients and servers.
pub open spec fn same_daemon(st: GlobalView, after: GlobalView) -> bool {
    &&& after.config == st.config
    &&& after.tx == st.tx
    &&& after.next_server_id == st.next_server_id
    &&& after.descriptors == st.descriptors
}

/// No client but `id` has changed, come or gone.
pub open spec fn same_other_clients(st: GlobalView, after: GlobalView, id: u32) -> bool {
    forall|c: u32|
        c != id ==> (#[trigger] after.clients.contains_key(c) <==> st.clients.contains_key(c)) && (
        st.clients.contains_key(c) ==> after.clients[c] == st.clients[c])
}

/// No server but `sid` has changed, come or gone.
pub open spec fn same_other_servers(st: GlobalView, after: GlobalView, sid: u32) -> bool {
    forall|s: u32|
        s != sid ==> (#[trigger] after.servers.contains_key(s) <==> st.servers.contains_key(s)) && (
        st.servers.contains_key(s) ==> after.servers[s] == st.servers[s])
}

/// What a notification of a client says is decided by its method, and where that calls for it, by
/// its parameters.
pub proof fn law_method_decides(n: NotificationView)
    ensures
        n.method == "initialized"@ <==> client_event(n) is Initialized,
        n.method == "workspace/didChangeConfiguration"@ <==> client_event(n) is Configured,
        n.method == "textDocument/didOpen"@ ==> match opened_document(n.params) {
            Some(d) => client_event(n) == ClientEventView::Opened(d.uri),
            None => client_event(n) is Invalid,
        },
        n.method == "textDocument/didChange"@ ==> match changed_document(n.params) {
            Some(c) => client_event(n) == ClientEventView::Changed(c.document.uri),
            None => client_event(n) is Invalid,
        },
        n.method == "textDocument/didClose"@ ==> match closed_document(n.params) {
            Some(d) => client_event(n) == ClientEventView::Closed(d.uri),
            None => client_event(n) is Invalid,
        },
        n.method == "textDocument/didSave"@ ==> match saved_document(n.params) {
            Some(d) => client_event(n) == ClientEventView::Saved(d.uri),
            None => client_event(n) is Invalid,
        },
        n.method == "workspace/didRenameFiles"@ ==> match renamed_files(n.params) {
            Some(files) => {
                &&& client_event(n) matches ClientEventView::Renamed(list)
                &&& list.len() == files.len()
                &&& forall|i: int|
                    0 <= i < files.len() ==> #[trigger] list[i] == match (
                        normal_uri(files[i].0),
                        normal_uri(files[i].1),
                    ) {
                        (Some(from), Some(to)) => Some((from, to)),
                        _ => None,
                    }
            },
            None => client_event(n) is Invalid,
        },
        n.method == "$/cancelRequest"@ ==> match cancelled_id(n.params) {
            Some(id) => client_event(n) == ClientEventView::Cancelled(id),
            None => client_event(n) is Invalid,
        },
        client_event(n) is Other <==> {
            &&& n.method != "initialized"@
            &&& n.method != "workspace/didChangeConfiguration"@
            &&& n.method != "textDocument/didOpen"@
            &&& n.method != "textDocument/didChange"@
            &&& n.method != "textDocument/didClose"@
            &&& n.method != "textDocument/didSave"@
            &&& n.method != "workspace/didRenameFiles"@
            &&& n.method != "$/cancelRequest"@
        },
{
    lemma_methods_differ();
}

pub(crate) proof fn lemma_methods_differ()
    ensures
        "initialized"@.len() == 11,
        "initialized"@[0] == 'i',
        "workspace/didChangeConfiguration"@.len() == 32,
        "textDocument/didOpen"@.len() == 20,
        "textDocument/didChange"@.len() == 22,
        "textDocument/didClose"@.len() == 21,
        "textDocument/didSave"@.len() == 20,
        "textDocument/didOpen"@ != "textDocument/didSave"@,
        "workspace/didRenameFiles"@.len() == 24,
        "$/cancelRequest"@.len() == 15,
{
    reveal_strlit("initialized");
    reveal_strlit("workspace/didChangeConfiguration");
    reveal_strlit("textDocument/didOpen");
    reveal_strlit("textDocument/didChange");
    reveal_strlit("textDocument/didClose");
    reveal_strlit("textDocument/didSave");
    reveal_strlit("workspace/didRenameFiles");
    reveal_strlit("$/cancelRequest");
    assert("textDocument/didOpen"@[16] == 'O');
    assert("textDocument/didSave"@[16] == 'S');
}

/// Whatever a client says that is accepted, be it the primary or not, goes to its server as it
/// came, and nothing else is done, except where the client says that it is ready, configures the
/// server or cancels a request. All that can change are the open documents of its server.
pub proof fn law_notification_is_passed_on(
    st: GlobalView,
    id: u32,
    notification: NotificationView,
    said: ClientEventView,
    found: Option<i32>,
)
    requires
        st.clients.contains_key(id),
        st.servers.contains_key(st.clients[id].server_id),
        !(said is Initialized),
        !(said is Configured),
        !(said is Cancelled),
        client_notification(st, id, notification, said, found).result is Ok,
    ensures
        ({
            let sid = st.clients[id].server_id;
            let passed = client_notification(st, id, notification, said, found);
            let server = st.servers[sid];
            &&& passed.actions == seq![
                ActionView::ToServer(sid, MessageView::Notification(notification)),
            ]
            &&& passed.state.clients == st.clients
            &&& same_daemon(st, passed.state)
            &&& same_other_servers(st, passed.state, sid)
            &&& passed.state.servers.contains_key(sid)
            &&& passed.state.servers[sid] == (ServerView {
                documents: documents_after(server.documents, id, said).0,
                ..server
            })
        }),
{
}

/// An edit reaches the server from whichever client it comes: a notification about a document that
/// is accepted goes to the server of the client, as it came, and to nobody else.
pub proof fn law_edits_reach_the_server(
    st: GlobalView,
    id: u32,
    n: NotificationView,
    found: Option<i32>,
)
    requires
        st.clients.contains_key(id),
        st.servers.contains_key(st.clients[id].server_id),
        n.method == "textDocument/didOpen"@ || n.method == "textDocument/didChange"@ || n.method
            == "textDocument/didSave"@ || n.method == "textDocument/didClose"@ || n.method
            == "workspace/didRenameFiles"@,
        client_notification(st, id, n, client_event(n), found).result is Ok,
    ensures
        client_notification(st, id, n, client_event(n), found).actions == seq![
            ActionView::ToServer(st.clients[id].server_id, MessageView::Notification(n)),
        ],
{
    law_method_decides(n);
    lemma_methods_differ();
    law_notification_is_passed_on(st, id, n, client_event(n), found);
}

/// What the daemon does not look into goes to the server of the client as it came, and changes
/// nothing.
pub proof fn law_anything_else_is_passed_on(
    st: GlobalView,
    id: u32,
    notification: NotificationView,
    found: Option<i32>,
)
    requires
        st.clients.contains_key(id),
        st.servers.contains_key(st.clients[id].server_id),
    ensures
        ({
            let said = ClientEventView::Other;
            let passed = client_notification(st, id, notification, said, found);
            &&& passed.result is Ok
            &&& passed.state == st
            &&& passed.actions == seq![
                ActionView::ToServer(
                    st.clients[id].server_id,
                    MessageView::Notification(notification),
                ),
            ]
        }),
{
    let said = ClientEventView::Other;
    let passed = client_notification(st, id, notification, said, found);
    assert(passed.state.servers =~= st.servers);
}

/// Whether what a client says of a document is accepted is decided by who has the document open:
/// opening needs that nobody has it open, and changing, saving and closing that the client itself
/// has it open.
pub proof fn law_documents_decide(
    st: GlobalView,
    id: u32,
    notification: NotificationView,
    said: ClientEventView,
    uri: Seq<char>,
    found: Option<i32>,
)
    requires
        state_wf(st),
        st.clients.contains_key(id),
    ensures
        ({
            let documents = st.servers[st.clients[id].server_id].documents;
            let result = client_notification(st, id, notification, said, found).result;
            &&& said == ClientEventView::Opened(uri) ==> (result is Ok <==> !is_taken(documents, uri))
            &&& said == ClientEventView::Changed(uri) || said == ClientEventView::Saved(uri) || said
                == ClientEventView::Closed(uri) ==> (result is Ok <==> is_owned(documents, id, uri))
        }),
{
    let sid = st.clients[id].server_id;
    assert(st.servers.contains_key(sid));
    assert(server_wf(st.servers[sid]));
    let documents = st.servers[sid].documents;
    if said == ClientEventView::Opened(uri) {
        law_opening(documents, id, uri);
    } else if said == ClientEventView::Closed(uri) {
        law_closing(documents, id, uri);
    } else if said == ClientEventView::Changed(uri) || said == ClientEventView::Saved(uri) {
        law_marking(documents, id, uri, said);
    }
}

/// What the oldest connection of a server configures, or any client as long as there is none, goes
/// to the server as it came and changes nothing else. What any other client would configure goes
/// nowhere: the client keeps it, in the place of what it kept before, and nothing else changes.
pub proof fn law_configuration_by_the_oldest(
    st: GlobalView,
    id: u32,
    notification: NotificationView,
    found: Option<i32>,
)
    requires
        st.clients.contains_key(id),
        st.servers.contains_key(st.clients[id].server_id),
    ensures
        ({
            let sid = st.clients[id].server_id;
            let connections = st.servers[sid].connections;
            let said = ClientEventView::Configured;
            let done = client_notification(st, id, notification, said, found);
            &&& done.result is Ok
            &&& connections.len() == 0 || connections[0] == id ==> {
                &&& done.state == st
                &&& done.actions == seq![
                    ActionView::ToServer(sid, MessageView::Notification(notification)),
                ]
            }
            &&& connections.len() > 0 && connections[0] != id ==> {
                &&& done.actions.len() == 0
                &&& done.state.servers == st.servers
                &&& same_daemon(st, done.state)
                &&& same_other_clients(st, done.state, id)
                &&& done.state.clients.contains_key(id)
                &&& done.state.clients[id] == (ClientView {
                    last_configuration: Some(notification),
                    ..st.clients[id]
                })
            }
        }),
{
    let said = ClientEventView::Configured;
    let done = client_notification(st, id, notification, said, found);
    let sid = st.clients[id].server_id;
    if st.servers[sid].connections.len() == 0 || st.servers[sid].connections[0] == id {
        assert(done.state.servers =~= st.servers);
    }
}

/// Whom the daemon does not know gets nowhere: nothing happens but that the event is refused.
pub proof fn law_strangers_get_nowhere(
    st: GlobalView,
    id: u32,
    sid: u32,
    request: RequestView,
    response: ResponseView,
    notification: NotificationView,
    said: ClientEventView,
    found: Option<i32>,
)
    ensures
        !st.clients.contains_key(id) ==> {
            &&& nothing_but(client_request(st, id, request), st, ErrorView::ClientNotFound)
            &&& nothing_but(client_response(st, id, response), st, ErrorView::ClientNotFound)
            &&& nothing_but(
                client_notification(st, id, notification, said, found),
                st,
                ErrorView::ClientNotFound,
            )
            &&& nothing_but(drop_client(st, id), st, ErrorView::ClientNotFound)
        },
        !st.servers.contains_key(sid) ==> {
            &&& nothing_but(server_request(st, sid, request), st, ErrorView::ServerNotFound)
            &&& nothing_but(server_response(st, sid, response), st, ErrorView::ServerNotFound)
            &&& nothing_but(
                server_notification(st, sid, notification),
                st,
                ErrorView::ServerNotFound,
            )
        },
{
}

/// Nothing has come of an event but an error.
pub open spec fn nothing_but(outcome: Outcome, st: GlobalView, error: ErrorView) -> bool {
    &&& outcome.state == st
    &&& outcome.actions.len() == 0
    &&& outcome.result == Err::<(), ErrorView>(error)
}

/// A client that says something that is refused is dropped: it is told to exit, its connection is
/// closed and it is gone, and the error says why. Parameters that cannot be read are refused.
pub proof fn law_refused_client_is_dropped(
    st: GlobalView,
    id: u32,
    notification: NotificationView,
    said: ClientEventView,
    found: Option<i32>,
)
    requires
        state_wf(st),
        st.clients.contains_key(id),
        can_leave(st, id),
    ensures
        ({
            let done = client_notification(st, id, notification, said, found);
            let documents = st.servers[st.clients[id].server_id].documents;
            &&& said is Invalid ==> done.result == Err::<(), ErrorView>(
                ErrorView::InvalidParams(notification.method),
            )
            &&& said is Initialized || said is Configured || said is Cancelled || said is Other
                ==> done.result is Ok
            &&& !(said is Initialized) && !(said is Configured) && !(said is Cancelled) && !(
            said is Invalid) ==> match documents_after(documents, id, said).1 {
                Ok(_) => done.result is Ok,
                Err(e) => done.result == Err::<(), ErrorView>(e),
            }
            &&& done.result is Err ==> {
                &&& done.actions.len() >= 2
                &&& done.actions[0] == ActionView::ToClient(
                    id,
                    MessageView::Notification(
                        NotificationView { method: "$/exit"@, params: "null"@ },
                    ),
                )
                &&& done.actions[1] == ActionView::CloseClient(id)
                &&& !done.state.clients.contains_key(id)
            }
        }),
{
    let sid = st.clients[id].server_id;
    assert(st.servers.contains_key(sid));
    let inner = client_notification_inner(st, id, notification, said, found);
    if inner.result is Err {
        assert(inner.state.clients == st.clients);
        lemma_refused_keeps_wf(st, id, notification, said, found);
        lemma_refused_can_leave(st, id, notification, said, found);
        law_leaving(inner.state, id);
    }
}

} // verus!
