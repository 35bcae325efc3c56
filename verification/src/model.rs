//! What the daemon's state is, and what each event makes of it.
//!
//! Everything here is specification. A state is a value; an event maps it to an [`Outcome`]: the
//! next state, the actions to carry out in order, and whether the event was accepted.

use crate::ids::next_number;
use crate::launch::{
    asks_directory, binary_for, command_for, descriptor_for, workspace_for, SpawnView,
};
use crate::message::{IdView, MessageView, NotificationView, RequestView, ResponseView};
use crate::params::{
    cancel_params, cancelled_id, changed_document, close_params, closed_document, initialize_result,
    is_progress, normal_uri, opened_document, registrations, renamed_files, saved_document,
    unregistrations, InitializeView, RegistrationView,
};
use crate::root::is_absolute;
use crate::server::Task;
use crate::text::begins_with;
use crate::types::{BootstrapView, Config, DescriptorView};
use tokio::sync::mpsc::Sender;
use vstd::prelude::*;

verus! {

/// What is known of a client.
pub struct ClientView {
    pub server_id: u32,
    pub is_initialized: bool,
    pub initialize_request_id: IdView,
    pub work_done_progress: bool,
    pub next_request_id: i32,
    pub request_ids: Map<i32, IdView>,
    pub last_configuration: Option<NotificationView>,
}

/// An open document.
pub struct OpenDocumentView {
    pub uri: Seq<char>,
    pub opened_by: u32,
    pub is_modified: bool,
}

/// What is known of a server.
pub struct ServerView {
    pub connections: Seq<u32>,
    pub initialize_result: Option<Seq<char>>,
    pub is_initialized: bool,
    pub next_request_id: i32,
    pub request_ids: Map<i32, (u32, IdView)>,
    pub pending: Seq<RequestView>,
    pub registered: Seq<RegistrationView>,
    pub documents: Seq<OpenDocumentView>,
}

/// The state of the daemon.
pub struct GlobalView {
    pub config: Config,
    pub tx: Option<Sender<Task>>,
    pub next_server_id: u32,
    pub clients: Map<u32, ClientView>,
    pub servers: Map<u32, ServerView>,
    pub descriptors: Seq<(DescriptorView, u32)>,
}

/// Something to carry out.
pub enum ActionView {
    ToClient(u32, MessageView),
    ToServer(u32, MessageView),
    CloseClient(u32),
    KillServer(u32),
}

/// Why an event was not accepted.
pub enum ErrorView {
    NotInitialize,
    NoWorkspace(Seq<char>),
    RelativeDirectory,
    InvalidParams(Seq<char>),
    InvalidUri,
    ClientNotFound,
    ServerNotFound,
    RequestNotFound,
    ClientGone,
    DocumentAlreadyOpen,
    DocumentNotOpen(Seq<char>),
    DocumentNotOwned,
    InitializationFailed(Seq<char>),
    PrimaryLost,
}

/// What an event comes to.
pub struct Outcome {
    pub state: GlobalView,
    pub actions: Seq<ActionView>,
    pub result: Result<(), ErrorView>,
}

// ---------------------------------------------------------------------------------------------
// States.
// ---------------------------------------------------------------------------------------------

/// No document is open twice.
pub open spec fn distinct_documents(documents: Seq<OpenDocumentView>) -> bool {
    forall|i: int, j: int|
        0 <= i < j < documents.len() ==> #[trigger] documents[i].uri != #[trigger] documents[j].uri
}

/// No two requests have the same id.
pub open spec fn distinct_requests(requests: Seq<RequestView>) -> bool {
    forall|i: int, j: int|
        0 <= i < j < requests.len() ==> #[trigger] requests[i].id != #[trigger] requests[j].id
}

/// No descriptor occurs twice.
pub open spec fn distinct_descriptors(descriptors: Seq<(DescriptorView, u32)>) -> bool {
    forall|i: int, j: int|
        0 <= i < j < descriptors.len() ==> #[trigger] descriptors[i].0 != #[trigger] descriptors[j].0
}

/// The ids under which requests have been sent out to a client are all used up: the next id is
/// none of them.
pub open spec fn client_wf(client: ClientView) -> bool {
    &&& 0 <= client.next_request_id
    &&& forall|k: i32| #[trigger]
        client.request_ids.contains_key(k) ==> 0 <= k < client.next_request_id
}

/// The ids under which requests have been sent out to a server are all used up, no document is
/// open twice and no request is pending twice.
pub open spec fn server_wf(server: ServerView) -> bool {
    &&& 0 <= server.next_request_id
    &&& forall|k: i32| #[trigger]
        server.request_ids.contains_key(k) ==> 0 <= k < server.next_request_id
    &&& distinct_documents(server.documents)
    &&& distinct_requests(server.pending)
}

/// The invariant of the state: clients and servers are well formed, each client has a server, and
/// no descriptor stands for two servers.
pub open spec fn state_wf(st: GlobalView) -> bool {
    &&& forall|c: u32| #[trigger]
        st.clients.contains_key(c) ==> client_wf(st.clients[c]) && st.servers.contains_key(
            st.clients[c].server_id,
        )
    &&& forall|s: u32| #[trigger] st.servers.contains_key(s) ==> server_wf(st.servers[s])
    &&& distinct_descriptors(st.descriptors)
}

/// A client of the server `sid`.
pub open spec fn is_client_of(st: GlobalView, c: u32, sid: u32) -> bool {
    st.clients.contains_key(c) && st.clients[c].server_id == sid
}

/// A list of all the clients of the server `sid`, each of them once, in some order.
pub open spec fn is_roster(order: Seq<u32>, st: GlobalView, sid: u32) -> bool {
    &&& order.no_duplicates()
    &&& forall|c: u32| #[trigger] order.contains(c) <==> is_client_of(st, c, sid)
}

/// The state with the client `id` replaced.
pub open spec fn with_client(st: GlobalView, id: u32, client: ClientView) -> GlobalView {
    GlobalView { clients: st.clients.insert(id, client), ..st }
}

/// The state with the server `id` replaced.
pub open spec fn with_server(st: GlobalView, id: u32, server: ServerView) -> GlobalView {
    GlobalView { servers: st.servers.insert(id, server), ..st }
}

/// Nothing happens but that the event is refused.
pub open spec fn refused(st: GlobalView, error: ErrorView) -> Outcome {
    Outcome { state: st, actions: Seq::empty(), result: Err(error) }
}

/// The event is accepted.
pub open spec fn accepted(st: GlobalView, actions: Seq<ActionView>) -> Outcome {
    Outcome { state: st, actions, result: Ok(()) }
}

// ---------------------------------------------------------------------------------------------
// Requests on their way.
// ---------------------------------------------------------------------------------------------

/// The answer to the request `id` that there is nothing to return.
pub open spec fn null_response(id: IdView) -> MessageView {
    MessageView::Response(ResponseView { id, result: Some("null"@), error: None })
}

/// A request under another number.
pub open spec fn renumbered(request: RequestView, id: i32) -> RequestView {
    RequestView { id: IdView::Number(id), ..request }
}

/// A server to which the request of a client has been sent.
pub open spec fn server_after_send(server: ServerView, client: u32, id: IdView) -> ServerView {
    ServerView {
        next_request_id: (server.next_request_id + 1) as i32,
        request_ids: server.request_ids.insert(server.next_request_id, (client, id)),
        ..server
    }
}

/// A client to which the request `id` of its server has been sent.
pub open spec fn client_after_send(client: ClientView, id: IdView) -> ClientView {
    ClientView {
        next_request_id: (client.next_request_id + 1) as i32,
        request_ids: client.request_ids.insert(client.next_request_id, id),
        ..client
    }
}

/// A client to which some requests of its server have been sent, one after the other.
pub open spec fn client_after_all(client: ClientView, requests: Seq<RequestView>) -> ClientView {
    let next = client.next_request_id;
    ClientView {
        next_request_id: (next + requests.len()) as i32,
        request_ids: Map::new(
            |k: i32| client.request_ids.contains_key(k) || next <= k < next + requests.len(),
            |k: i32|
                if next <= k < next + requests.len() {
                    requests[k - next].id
                } else {
                    client.request_ids[k]
                },
        ),
        ..client
    }
}

/// The actions that send some requests to the client `id`, numbered from `next` on.
pub open spec fn requests_to_client(id: u32, next: i32, requests: Seq<RequestView>) -> Seq<
    ActionView,
> {
    Seq::new(
        requests.len(),
        |i: int|
            ActionView::ToClient(
                id,
                MessageView::Request(renumbered(requests[i], (next + i) as i32)),
            ),
    )
}

/// Where the request `id` stands in a list, its length where it does not.
pub open spec fn request_at(requests: Seq<RequestView>, id: IdView) -> int
    decreases requests.len(),
{
    if requests.len() == 0 || requests[0].id == id {
        0
    } else {
        1 + request_at(requests.skip(1), id)
    }
}

/// A list of pending requests with one more; it takes the place of one with the same id.
pub open spec fn with_request(requests: Seq<RequestView>, request: RequestView) -> Seq<RequestView> {
    let at = request_at(requests, request.id);
    if at < requests.len() {
        requests.update(at, request)
    } else {
        requests.push(request)
    }
}

// ---------------------------------------------------------------------------------------------
// The primary client.
// ---------------------------------------------------------------------------------------------

/// The client `id` is the primary of the server, or would be if it joined now: there is no older
/// connection.
pub open spec fn is_primary(server: ServerView, id: u32) -> bool {
    server.connections.len() == 0 || server.connections[0] == id
}

/// The oldest connection of a server has a client that can take on all that is pending.
pub open spec fn primary_ready(st: GlobalView, sid: u32) -> bool {
    let server = st.servers[sid];
    &&& server.connections.len() > 0
    &&& st.clients.contains_key(server.connections[0])
    &&& st.clients[server.connections[0]].next_request_id + server.pending.len() <= i32::MAX
}

/// What a server that has a new primary is told: the configuration that the primary has been
/// keeping.
pub open spec fn kept_configuration(sid: u32, client: ClientView) -> Seq<ActionView> {
    match client.last_configuration {
        Some(n) => seq![ActionView::ToServer(sid, MessageView::Notification(n))],
        None => Seq::empty(),
    }
}

/// A server gets a new primary: the configuration of the primary goes to the server, and every
/// pending request of the server goes to the primary.
pub open spec fn new_primary(st: GlobalView, sid: u32) -> (GlobalView, Seq<ActionView>) {
    let server = st.servers[sid];
    let id = server.connections[0];
    let client = st.clients[id];
    (
        with_client(
            st,
            id,
            client_after_all(ClientView { last_configuration: None, ..client }, server.pending),
        ),
        kept_configuration(sid, client) + requests_to_client(
            id,
            client.next_request_id,
            server.pending,
        ),
    )
}

// ---------------------------------------------------------------------------------------------
// Leaving.
// ---------------------------------------------------------------------------------------------

/// What closes the connection to a client.
pub open spec fn farewell(id: u32) -> Seq<ActionView> {
    seq![
        ActionView::ToClient(
            id,
            MessageView::Notification(
                NotificationView { method: "$/exit"@, params: "null"@ },
            ),
        ),
        ActionView::CloseClient(id),
    ]
}

/// What closes the connections to some clients, in their order.
pub open spec fn farewells(order: Seq<u32>) -> Seq<ActionView>
    decreases order.len(),
{
    if order.len() == 0 {
        Seq::empty()
    } else {
        farewells(order.drop_last()) + farewell(order.last())
    }
}

/// Where `id` first stands in a list, its length where it does not.
pub open spec fn first_at(list: Seq<u32>, id: u32) -> int
    decreases list.len(),
{
    if list.len() == 0 || list[0] == id {
        0
    } else {
        1 + first_at(list.skip(1), id)
    }
}

/// A list without the first occurrence of `id`.
pub open spec fn without(list: Seq<u32>, id: u32) -> Seq<u32> {
    if first_at(list, id) < list.len() {
        list.remove(first_at(list, id))
    } else {
        list
    }
}

/// The documents of a list that the client `id` has open.
pub open spec fn documents_of(documents: Seq<OpenDocumentView>, id: u32) -> Seq<OpenDocumentView>
    decreases documents.len(),
{
    if documents.len() == 0 {
        Seq::empty()
    } else if documents.last().opened_by == id {
        documents_of(documents.drop_last(), id).push(documents.last())
    } else {
        documents_of(documents.drop_last(), id)
    }
}

/// The documents of a list that other clients than `id` have open.
pub open spec fn documents_of_others(documents: Seq<OpenDocumentView>, id: u32) -> Seq<
    OpenDocumentView,
>
    decreases documents.len(),
{
    if documents.len() == 0 {
        Seq::empty()
    } else if documents.last().opened_by == id {
        documents_of_others(documents.drop_last(), id)
    } else {
        documents_of_others(documents.drop_last(), id).push(documents.last())
    }
}

/// What tells a server that some documents are closed.
pub open spec fn closings(sid: u32, documents: Seq<OpenDocumentView>) -> Seq<ActionView> {
    Seq::new(
        documents.len(),
        |i: int|
            ActionView::ToServer(
                sid,
                MessageView::Notification(
                    NotificationView {
                        method: "textDocument/didClose"@,
                        params: close_params(documents[i].uri),
                    },
                ),
            ),
    )
}

/// A server that its client `id` has left.
pub open spec fn server_after_leave(server: ServerView, id: u32) -> ServerView {
    ServerView {
        connections: without(server.connections, id),
        documents: documents_of_others(server.documents, id),
        ..server
    }
}

/// The client `id` is the primary, and another connection is there to take over from it.
pub open spec fn hands_over(server: ServerView, id: u32) -> bool {
    server.connections.len() > 1 && server.connections[0] == id
}

/// A server that never got initialized and has no client to wait for it.
pub open spec fn is_abandoned(st: GlobalView, sid: u32) -> bool {
    st.servers[sid].initialize_result is None && forall|c: u32| !is_client_of(st, c, sid)
}

/// The state without the client `id` where only its own entry and the entry of its server know
/// of it.
pub open spec fn state_after_leave(st: GlobalView, id: u32) -> GlobalView {
    let sid = st.clients[id].server_id;
    with_server(
        GlobalView { clients: st.clients.remove(id), ..st },
        sid,
        server_after_leave(st.servers[sid], id),
    )
}

/// The client `id` can leave: if another connection is to take over from it, that one is there.
pub open spec fn can_leave(st: GlobalView, id: u32) -> bool {
    st.clients.contains_key(id) && st.servers.contains_key(st.clients[id].server_id) ==> {
        let sid = st.clients[id].server_id;
        let after = state_after_leave(st, id);
        hands_over(st.servers[sid], id) && !is_abandoned(after, sid) ==> primary_ready(after, sid)
    }
}

/// The client `id` leaves. Its connection is closed and so are its documents. A server that never
/// got initialized goes with its last client; otherwise the next oldest connection takes over
/// from a primary.
pub open spec fn drop_client(st: GlobalView, id: u32) -> Outcome {
    if !st.clients.contains_key(id) {
        refused(st, ErrorView::ClientNotFound)
    } else {
        let sid = st.clients[id].server_id;
        if !st.servers.contains_key(sid) {
            Outcome {
                state: GlobalView { clients: st.clients.remove(id), ..st },
                actions: farewell(id),
                result: Err(ErrorView::ServerNotFound),
            }
        } else {
            let server = st.servers[sid];
            let after = state_after_leave(st, id);
            let actions = farewell(id) + closings(sid, documents_of(server.documents, id));
            if is_abandoned(after, sid) {
                accepted(
                    GlobalView { servers: after.servers.remove(sid), ..after },
                    actions + seq![ActionView::KillServer(sid)],
                )
            } else if hands_over(server, id) {
                let (next, handover) = new_primary(after, sid);
                accepted(next, actions + handover)
            } else {
                accepted(after, actions)
            }
        }
    }
}

/// The server `sid` goes, and all its clients, in the order of `leavers`, with it.
pub open spec fn drop_server(st: GlobalView, sid: u32, leavers: Seq<u32>) -> (
    GlobalView,
    Seq<ActionView>,
) {
    (
        GlobalView {
            servers: st.servers.remove(sid),
            clients: st.clients.remove_keys(leavers.to_set()),
            ..st
        },
        farewells(leavers).push(ActionView::KillServer(sid)),
    )
}

/// The process of the server `sid`, which is known, has ended.
pub open spec fn server_drop(st: GlobalView, sid: u32, leavers: Seq<u32>) -> Outcome {
    let (next, actions) = drop_server(st, sid, leavers);
    accepted(next, actions)
}

// ---------------------------------------------------------------------------------------------
// Messages of clients.
// ---------------------------------------------------------------------------------------------

/// A client sends a request: it goes on to the server under a number of its own. A client that
/// wants to shut down is answered here; the server stays.
pub open spec fn client_request(st: GlobalView, id: u32, request: RequestView) -> Outcome {
    if !st.clients.contains_key(id) {
        refused(st, ErrorView::ClientNotFound)
    } else if request.method == "shutdown"@ {
        accepted(st, seq![ActionView::ToClient(id, null_response(request.id))])
    } else {
        let sid = st.clients[id].server_id;
        let server = st.servers[sid];
        accepted(
            with_server(st, sid, server_after_send(server, id, request.id)),
            seq![
                ActionView::ToServer(
                    sid,
                    MessageView::Request(renumbered(request, server.next_request_id)),
                ),
            ],
        )
    }
}

/// There is a number left for the request of a client, if it has to go on to the server.
pub open spec fn can_request(st: GlobalView, id: u32, request: RequestView) -> bool {
    st.clients.contains_key(id) && request.method != "shutdown"@
        ==> st.servers[st.clients[id].server_id].next_request_id < i32::MAX
}

/// The id of the server's request that a client answers with a response to the request `id`.
pub open spec fn answered(client: ClientView, id: IdView) -> Option<IdView> {
    match id {
        IdView::Number(k) => if client.request_ids.contains_key(k) {
            Some(client.request_ids[k])
        } else {
            None
        },
        IdView::Text(_) => None,
    }
}

/// A client from which the response to the request `id` has come in.
pub open spec fn client_after_response(client: ClientView, id: IdView) -> ClientView {
    match id {
        IdView::Number(k) => ClientView { request_ids: client.request_ids.remove(k), ..client },
        IdView::Text(_) => client,
    }
}

/// The registered capabilities without those whose id and method are listed.
pub open spec fn without_unregistered(
    registered: Seq<RegistrationView>,
    gone: Seq<(Seq<char>, Seq<char>)>,
) -> Seq<RegistrationView>
    decreases registered.len(),
{
    if registered.len() == 0 {
        Seq::empty()
    } else {
        let rest = without_unregistered(registered.drop_last(), gone);
        let last = registered.last();
        if gone.contains((last.id, last.method)) {
            rest
        } else {
            rest.push(last)
        }
    }
}

/// What granting a request of a server means for its registered capabilities.
pub enum GrantView {
    /// These are registered.
    Registered(Seq<RegistrationView>),
    /// Those with these ids and methods are registered no longer.
    Unregistered(Seq<(Seq<char>, Seq<char>)>),
    /// The parameters cannot be read.
    Invalid,
    /// Nothing.
    Nothing,
}

/// What a server asks to have granted with a request.
pub open spec fn grant_of(request: RequestView) -> GrantView {
    if request.method == "client/registerCapability"@ {
        match registrations(request.params) {
            Some(list) => GrantView::Registered(list),
            None => GrantView::Invalid,
        }
    } else if request.method == "client/unregisterCapability"@ {
        match unregistrations(request.params) {
            Some(list) => GrantView::Unregistered(list),
            None => GrantView::Invalid,
        }
    } else {
        GrantView::Nothing
    }
}

/// The registered capabilities after a request of the server has been granted.
pub open spec fn registered_after(registered: Seq<RegistrationView>, grant: GrantView) -> Seq<
    RegistrationView,
> {
    match grant {
        GrantView::Registered(list) => registered + list,
        GrantView::Unregistered(list) => without_unregistered(registered, list),
        _ => registered,
    }
}

/// A client answers a request of the server. The answer goes on to the server under the server's
/// own id, if the server still waits for it. What the server registers or unregisters counts from
/// when it is granted.
pub open spec fn client_response(st: GlobalView, id: u32, response: ResponseView) -> Outcome {
    if !st.clients.contains_key(id) {
        refused(st, ErrorView::ClientNotFound)
    } else {
        let client = st.clients[id];
        match answered(client, response.id) {
            None => refused(st, ErrorView::RequestNotFound),
            Some(original) => {
                let sid = client.server_id;
                let server = st.servers[sid];
                let heard = with_client(st, id, client_after_response(client, response.id));
                let at = request_at(server.pending, original);
                if at >= server.pending.len() {
                    accepted(heard, Seq::empty())
                } else {
                    let request = server.pending[at];
                    let settled = ServerView { pending: server.pending.remove(at), ..server };
                    let actions = seq![
                        ActionView::ToServer(
                            sid,
                            MessageView::Response(ResponseView { id: original, ..response }),
                        ),
                    ];
                    if response.error is Some {
                        accepted(with_server(heard, sid, settled), actions)
                    } else {
                        let grant = grant_of(request);
                        let registered = registered_after(server.registered, grant);
                        Outcome {
                            state: with_server(heard, sid, ServerView { registered, ..settled }),
                            actions,
                            result: if grant is Invalid {
                                Err(ErrorView::InvalidParams(request.method))
                            } else {
                                Ok(())
                            },
                        }
                    }
                }
            },
        }
    }
}

/// What a client notifies its server of, as far as the daemon looks into it.
pub enum ClientEventView {
    /// The client is ready.
    Initialized,
    /// The client wants to configure the server.
    Configured,
    /// The client has opened this document.
    Opened(Seq<char>),
    /// The client has changed this document.
    Changed(Seq<char>),
    /// The client has closed this document.
    Closed(Seq<char>),
    /// The client has saved this document.
    Saved(Seq<char>),
    /// The client has renamed some files, each from one URI to another; `None` stands for a name
    /// that is no URI.
    Renamed(Seq<Option<(Seq<char>, Seq<char>)>>),
    /// The client has given up this request.
    Cancelled(IdView),
    /// The parameters cannot be read.
    Invalid,
    /// Anything else.
    Other,
}

/// A pair of names as URIs, if both are.
pub open spec fn rename_of(from: Seq<char>, to: Seq<char>) -> Option<(Seq<char>, Seq<char>)> {
    match (normal_uri(from), normal_uri(to)) {
        (Some(old_uri), Some(new_uri)) => Some((old_uri, new_uri)),
        _ => None,
    }
}

/// Some pairs of names as URIs.
pub open spec fn renames_of(files: Seq<(Seq<char>, Seq<char>)>) -> Seq<
    Option<(Seq<char>, Seq<char>)>,
> {
    Seq::new(files.len(), |i: int| rename_of(files[i].0, files[i].1))
}

/// What a notification of a client says.
pub open spec fn client_event(notification: NotificationView) -> ClientEventView {
    let method = notification.method;
    let params = notification.params;
    if method == "initialized"@ {
        ClientEventView::Initialized
    } else if method == "workspace/didChangeConfiguration"@ {
        ClientEventView::Configured
    } else if method == "textDocument/didOpen"@ {
        match opened_document(params) {
            Some(d) => ClientEventView::Opened(d.uri),
            None => ClientEventView::Invalid,
        }
    } else if method == "textDocument/didChange"@ {
        match changed_document(params) {
            Some(c) => ClientEventView::Changed(c.document.uri),
            None => ClientEventView::Invalid,
        }
    } else if method == "textDocument/didClose"@ {
        match closed_document(params) {
            Some(d) => ClientEventView::Closed(d.uri),
            None => ClientEventView::Invalid,
        }
    } else if method == "textDocument/didSave"@ {
        match saved_document(params) {
            Some(d) => ClientEventView::Saved(d.uri),
            None => ClientEventView::Invalid,
        }
    } else if method == "workspace/didRenameFiles"@ {
        match renamed_files(params) {
            Some(files) => ClientEventView::Renamed(renames_of(files)),
            None => ClientEventView::Invalid,
        }
    } else if method == "$/cancelRequest"@ {
        match cancelled_id(params) {
            Some(id) => ClientEventView::Cancelled(id),
            None => ClientEventView::Invalid,
        }
    } else {
        ClientEventView::Other
    }
}

/// Where the document `uri` stands in a list, its length where it does not.
pub open spec fn document_at(documents: Seq<OpenDocumentView>, uri: Seq<char>) -> int
    decreases documents.len(),
{
    if documents.len() == 0 || documents[0].uri == uri {
        0
    } else {
        1 + document_at(documents.skip(1), uri)
    }
}

/// A list of documents with one more; it takes the place of one with the same URI.
pub open spec fn with_document(documents: Seq<OpenDocumentView>, document: OpenDocumentView) -> Seq<
    OpenDocumentView,
> {
    let at = document_at(documents, document.uri);
    if at < documents.len() {
        documents.update(at, document)
    } else {
        documents.push(document)
    }
}

/// Why the client `id` may not touch the document `uri`.
pub open spec fn document_refused(
    documents: Seq<OpenDocumentView>,
    id: u32,
    uri: Seq<char>,
) -> Option<ErrorView> {
    let at = document_at(documents, uri);
    if at >= documents.len() {
        Some(ErrorView::DocumentNotOpen(uri))
    } else if documents[at].opened_by != id {
        Some(ErrorView::DocumentNotOwned)
    } else {
        None
    }
}

/// The open documents after the client `id` has renamed some, one after the other up to the first
/// that it may not rename.
pub open spec fn documents_after_renames(
    documents: Seq<OpenDocumentView>,
    id: u32,
    files: Seq<Option<(Seq<char>, Seq<char>)>>,
) -> (Seq<OpenDocumentView>, Result<(), ErrorView>)
    decreases files.len(),
{
    if files.len() == 0 {
        (documents, Ok(()))
    } else {
        match files[0] {
            Some((from, to)) => match document_refused(documents, id, from) {
                Some(e) => (documents, Err(e)),
                None => {
                    let at = document_at(documents, from);
                    documents_after_renames(
                        with_document(
                            documents.remove(at),
                            OpenDocumentView { uri: to, ..documents[at] },
                        ),
                        id,
                        files.skip(1),
                    )
                },
            },
            None => (documents, Err(ErrorView::InvalidUri)),
        }
    }
}

/// The open documents after the client `id` has notified its server of something, and whether the
/// notification is accepted. A document belongs to the client that opened it until it closes it.
pub open spec fn documents_after(
    documents: Seq<OpenDocumentView>,
    id: u32,
    event: ClientEventView,
) -> (Seq<OpenDocumentView>, Result<(), ErrorView>) {
    match event {
        ClientEventView::Opened(uri) => if document_at(documents, uri) < documents.len() {
            (documents, Err(ErrorView::DocumentAlreadyOpen))
        } else {
            (
                documents.push(OpenDocumentView { uri, opened_by: id, is_modified: false }),
                Ok(()),
            )
        },
        ClientEventView::Changed(uri) => documents_marked(documents, id, uri, true),
        ClientEventView::Closed(uri) => match document_refused(documents, id, uri) {
            Some(e) => (documents, Err(e)),
            None => (documents.remove(document_at(documents, uri)), Ok(())),
        },
        ClientEventView::Saved(uri) => documents_marked(documents, id, uri, false),
        ClientEventView::Renamed(files) => documents_after_renames(documents, id, files),
        _ => (documents, Ok(())),
    }
}

/// The open documents after the client `id` has changed or saved the document `uri`.
pub open spec fn documents_marked(
    documents: Seq<OpenDocumentView>,
    id: u32,
    uri: Seq<char>,
    is_modified: bool,
) -> (Seq<OpenDocumentView>, Result<(), ErrorView>) {
    match document_refused(documents, id, uri) {
        Some(e) => (documents, Err(e)),
        None => {
            let at = document_at(documents, uri);
            (
                documents.update(at, OpenDocumentView { is_modified, ..documents[at] }),
                Ok(()),
            )
        },
    }
}

/// Under which number the server knows a request of the client `client`: `found` is such a number,
/// or there is none.
pub open spec fn is_number_of(
    server: ServerView,
    client: u32,
    id: IdView,
    found: Option<i32>,
) -> bool {
    match found {
        Some(k) => server.request_ids.contains_key(k) && server.request_ids[k] == (client, id),
        None => forall|k: i32|
            !(#[trigger] server.request_ids.contains_key(k) && server.request_ids[k] == (
                client,
                id,
            )),
    }
}

/// `found` is what looking for the request that an event cancels comes to.
pub open spec fn is_found(
    st: GlobalView,
    id: u32,
    event: ClientEventView,
    found: Option<i32>,
) -> bool {
    st.clients.contains_key(id) ==> (event matches ClientEventView::Cancelled(request)
        ==> is_number_of(st.servers[st.clients[id].server_id], id, request, found))
}

/// A client is ready: it joins the connections of its server. The server is told by the first of
/// them; the first connection at any time becomes the primary.
pub open spec fn client_initialized(
    st: GlobalView,
    id: u32,
    notification: NotificationView,
) -> Outcome {
    let client = st.clients[id];
    let sid = client.server_id;
    let server = st.servers[sid];
    let joined = with_server(
        with_client(st, id, ClientView { is_initialized: true, ..client }),
        sid,
        ServerView {
            connections: server.connections.push(id),
            is_initialized: true,
            ..server
        },
    );
    let told = if server.is_initialized {
        Seq::empty()
    } else {
        seq![ActionView::ToServer(sid, MessageView::Notification(notification))]
    };
    if is_primary(server, id) {
        let (next, handover) = new_primary(joined, sid);
        accepted(next, told + handover)
    } else {
        accepted(joined, told)
    }
}

/// A client that becomes the primary by joining can take on all that is pending.
pub open spec fn joins_safely(st: GlobalView, id: u32, event: ClientEventView) -> bool {
    st.clients.contains_key(id) && event is Initialized ==> {
        let client = st.clients[id];
        let server = st.servers[client.server_id];
        is_primary(server, id) ==> client.next_request_id + server.pending.len() <= i32::MAX
    }
}

/// A client may notify its server of something. A client that exits is dropped instead.
pub open spec fn can_notify(st: GlobalView, id: u32, notification: NotificationView) -> bool {
    &&& notification.method != "exit"@
    &&& notification.method == "initialized"@ ==> joins_safely(
        st,
        id,
        ClientEventView::Initialized,
    )
}

/// A client notifies its server of something, as long as that is accepted. Only the primary
/// configures the server; what another client would configure is kept until it is the primary.
/// A cancellation goes on under the number that the server knows the request by.
pub open spec fn client_notification_inner(
    st: GlobalView,
    id: u32,
    notification: NotificationView,
    event: ClientEventView,
    found: Option<i32>,
) -> Outcome {
    if !st.clients.contains_key(id) {
        refused(st, ErrorView::ClientNotFound)
    } else {
        let client = st.clients[id];
        let sid = client.server_id;
        let server = st.servers[sid];
        let (documents, noted) = documents_after(server.documents, id, event);
        let after = with_server(st, sid, ServerView { documents, ..server });
        let passed_on = accepted(
            after,
            seq![ActionView::ToServer(sid, MessageView::Notification(notification))],
        );
        match event {
            ClientEventView::Initialized => client_initialized(st, id, notification),
            ClientEventView::Configured => if is_primary(server, id) {
                passed_on
            } else {
                accepted(
                    with_client(
                        st,
                        id,
                        ClientView { last_configuration: Some(notification), ..client },
                    ),
                    Seq::empty(),
                )
            },
            ClientEventView::Invalid => refused(
                st,
                ErrorView::InvalidParams(notification.method),
            ),
            ClientEventView::Cancelled(_) => match found {
                None => accepted(st, Seq::empty()),
                Some(k) => accepted(
                    st,
                    seq![
                        ActionView::ToServer(
                            sid,
                            MessageView::Notification(
                                NotificationView { params: cancel_params(k), ..notification },
                            ),
                        ),
                    ],
                ),
            },
            _ => match noted {
                Ok(_) => passed_on,
                Err(e) => refused(after, e),
            },
        }
    }
}

/// A client that says something that is refused can be dropped.
pub open spec fn can_be_refused(
    st: GlobalView,
    id: u32,
    notification: NotificationView,
    event: ClientEventView,
) -> bool {
    client_notification_inner(st, id, notification, event, None).result is Err ==> can_leave(st, id)
}

/// A client notifies its server of something. A client whose notification is refused is dropped.
pub open spec fn client_notification(
    st: GlobalView,
    id: u32,
    notification: NotificationView,
    event: ClientEventView,
    found: Option<i32>,
) -> Outcome {
    let inner = client_notification_inner(st, id, notification, event, found);
    match inner.result {
        Ok(_) => inner,
        Err(e) => if can_leave(inner.state, id) {
            let dropped = drop_client(inner.state, id);
            Outcome { state: dropped.state, actions: dropped.actions, result: Err(e) }
        } else {
            refused(inner.state, ErrorView::PrimaryLost)
        },
    }
}

// ---------------------------------------------------------------------------------------------
// Messages of servers.
// ---------------------------------------------------------------------------------------------

/// A server sends a request. What it asks about progress is answered here. Anything else is kept
/// until it is answered, and goes to the primary, if there is one.
pub open spec fn server_request(st: GlobalView, sid: u32, request: RequestView) -> Outcome {
    if !st.servers.contains_key(sid) {
        refused(st, ErrorView::ServerNotFound)
    } else if begins_with(request.method, "window/workDoneProgress/"@) {
        accepted(st, seq![ActionView::ToServer(sid, null_response(request.id))])
    } else {
        let server = st.servers[sid];
        let kept = with_server(
            st,
            sid,
            ServerView { pending: with_request(server.pending, request), ..server },
        );
        if server.connections.len() == 0 {
            accepted(kept, Seq::empty())
        } else {
            let id = server.connections[0];
            let client = st.clients[id];
            accepted(
                with_client(kept, id, client_after_send(client, request.id)),
                seq![
                    ActionView::ToClient(
                        id,
                        MessageView::Request(renumbered(request, client.next_request_id)),
                    ),
                ],
            )
        }
    }
}

/// The request of a server can go to the primary, if it has to.
pub open spec fn can_ask(st: GlobalView, sid: u32, request: RequestView) -> bool {
    let server = st.servers[sid];
    st.servers.contains_key(sid) && !begins_with(request.method, "window/workDoneProgress/"@)
        && server.connections.len() > 0 ==> {
        &&& st.clients.contains_key(server.connections[0])
        &&& st.clients[server.connections[0]].next_request_id < i32::MAX
    }
}

/// The client and its request that a response of the server with the id `id` belongs to.
pub open spec fn asked(server: ServerView, id: IdView) -> Option<(u32, IdView)> {
    match id {
        IdView::Number(k) => if server.request_ids.contains_key(k) {
            Some(server.request_ids[k])
        } else {
            None
        },
        IdView::Text(_) => None,
    }
}

/// A server from which the response to the request `id` has come in.
pub open spec fn server_after_response(server: ServerView, id: IdView) -> ServerView {
    match id {
        IdView::Number(k) => ServerView { request_ids: server.request_ids.remove(k), ..server },
        IdView::Text(_) => server,
    }
}

/// What tells the clients of `order` how the initialization went, each under the id of its own
/// request.
pub open spec fn announcements(st: GlobalView, order: Seq<u32>, response: ResponseView) -> Seq<
    ActionView,
> {
    Seq::new(
        order.len(),
        |i: int|
            ActionView::ToClient(
                order[i],
                MessageView::Response(
                    ResponseView {
                        id: st.clients[order[i]].initialize_request_id,
                        ..response
                    },
                ),
            ),
    )
}

/// The result of the initialization that a response brings, as far as it can be read.
pub open spec fn readable_result(response: ResponseView) -> Option<Seq<char>> {
    match response.result {
        Some(result) => initialize_result(result),
        None => None,
    }
}

/// The result of the initialization that a response brings, or why there is none; `readable` is
/// the result as far as it can be read.
pub open spec fn initialization(response: ResponseView, readable: Option<Seq<char>>) -> Result<
    Seq<char>,
    Seq<char>,
> {
    match response.error {
        Some(e) => Err(e.message),
        None => match readable {
            Some(kept) => Ok(kept),
            None => Err("Invalid 'InitializeResult' from the server."@),
        },
    }
}

/// The first response of a server says how its initialization went. Every client that waits for
/// it is told; a server that failed goes, and its clients with it.
pub open spec fn server_initialized(
    st: GlobalView,
    sid: u32,
    response: ResponseView,
    readable: Option<Seq<char>>,
    roster: Seq<u32>,
    leavers: Seq<u32>,
) -> Outcome {
    let heard = with_server(st, sid, server_after_response(st.servers[sid], response.id));
    let told = announcements(st, roster, response);
    match initialization(response, readable) {
        Ok(kept) => accepted(
            with_server(
                heard,
                sid,
                ServerView { initialize_result: Some(kept), ..heard.servers[sid] },
            ),
            told,
        ),
        Err(message) => {
            let (next, actions) = drop_server(heard, sid, leavers);
            Outcome {
                state: next,
                actions: told + actions,
                result: Err(ErrorView::InitializationFailed(message)),
            }
        },
    }
}

/// The server `sid` is running and has not said yet how its initialization went.
pub open spec fn awaits_initialization(st: GlobalView, sid: u32) -> bool {
    st.servers.contains_key(sid) && st.servers[sid].initialize_result is None
}

/// A server that is initialized answers a request. The answer goes to the client that asked, under
/// the id that the client gave the request.
pub open spec fn server_response(st: GlobalView, sid: u32, response: ResponseView) -> Outcome {
    if !st.servers.contains_key(sid) {
        refused(st, ErrorView::ServerNotFound)
    } else {
        let server = st.servers[sid];
        match asked(server, response.id) {
            None => refused(st, ErrorView::RequestNotFound),
            Some((id, original)) => {
                let heard = with_server(st, sid, server_after_response(server, response.id));
                if st.clients.contains_key(id) {
                    accepted(
                        heard,
                        seq![
                            ActionView::ToClient(
                                id,
                                MessageView::Response(ResponseView { id: original, ..response }),
                            ),
                        ],
                    )
                } else {
                    refused(heard, ErrorView::ClientGone)
                }
            },
        }
    }
}

/// A server notifies its clients of something: all of its connections are told. Progress is not
/// passed on.
pub open spec fn server_notification(
    st: GlobalView,
    sid: u32,
    notification: NotificationView,
) -> Outcome {
    if !st.servers.contains_key(sid) {
        refused(st, ErrorView::ServerNotFound)
    } else if notification.method == "$/progress"@ {
        if is_progress(notification.params) {
            accepted(st, Seq::empty())
        } else {
            refused(st, ErrorView::InvalidParams(notification.method))
        }
    } else {
        let connections = st.servers[sid].connections;
        accepted(
            st,
            Seq::new(
                connections.len(),
                |i: int|
                    ActionView::ToClient(connections[i], MessageView::Notification(notification)),
            ),
        )
    }
}

/// All connections of a server have a client.
pub open spec fn connections_live(st: GlobalView, sid: u32) -> bool {
    forall|i: int|
        0 <= i < st.servers[sid].connections.len() ==> st.clients.contains_key(
            #[trigger] st.servers[sid].connections[i],
        )
}

/// All those are there whom a notification of a server goes to.
pub open spec fn can_broadcast(st: GlobalView, sid: u32, notification: NotificationView) -> bool {
    st.servers.contains_key(sid) && notification.method != "$/progress"@ ==> connections_live(
        st,
        sid,
    )
}

// ---------------------------------------------------------------------------------------------
// New connections.
// ---------------------------------------------------------------------------------------------

/// A client that wants to be connected: its bootstrap message, its first request and the marker
/// files that exist on the way up from its working directory.
pub struct ConnectionView {
    pub id: u32,
    pub bootstrap: BootstrapView,
    pub request: RequestView,
    pub files: Set<Seq<char>>,
}

/// A server that has to be started before a client can be connected.
pub struct SpawnRequestView {
    pub client_id: u32,
    pub server_id: u32,
    pub descriptor: DescriptorView,
    pub command: SpawnView,
    pub request_id: IdView,
    pub params: Seq<char>,
    pub work_done_progress: bool,
}

/// What connecting a client comes to.
pub struct ConnectOutcome {
    pub state: GlobalView,
    pub actions: Seq<ActionView>,
    pub result: Result<Option<SpawnRequestView>, ErrorView>,
}

/// A client that has just been connected.
pub open spec fn new_client(
    server_id: u32,
    request_id: IdView,
    work_done_progress: bool,
) -> ClientView {
    ClientView {
        server_id,
        is_initialized: false,
        initialize_request_id: request_id,
        work_done_progress,
        next_request_id: 0,
        request_ids: Map::empty(),
        last_configuration: None,
    }
}

/// A server that has just been started.
pub open spec fn new_server() -> ServerView {
    ServerView {
        connections: Seq::empty(),
        initialize_result: None,
        is_initialized: false,
        next_request_id: 0,
        request_ids: Map::empty(),
        pending: Seq::empty(),
        registered: Seq::empty(),
        documents: Seq::empty(),
    }
}

/// Where a descriptor stands in a list, its length where it does not.
pub open spec fn descriptor_at(
    descriptors: Seq<(DescriptorView, u32)>,
    descriptor: DescriptorView,
) -> int
    decreases descriptors.len(),
{
    if descriptors.len() == 0 || descriptors[0].0 == descriptor {
        0
    } else {
        1 + descriptor_at(descriptors.skip(1), descriptor)
    }
}

/// A list of descriptors in which `descriptor` stands for the server `sid`.
pub open spec fn with_descriptor(
    descriptors: Seq<(DescriptorView, u32)>,
    descriptor: DescriptorView,
    sid: u32,
) -> Seq<(DescriptorView, u32)> {
    let at = descriptor_at(descriptors, descriptor);
    if at < descriptors.len() {
        descriptors.update(at, (descriptor, sid))
    } else {
        descriptors.push((descriptor, sid))
    }
}

/// The server that is running for a descriptor.
pub open spec fn running_server(st: GlobalView, descriptor: DescriptorView) -> Option<u32> {
    let at = descriptor_at(st.descriptors, descriptor);
    if at < st.descriptors.len() && st.servers.contains_key(st.descriptors[at].1) {
        Some(st.descriptors[at].1)
    } else {
        None
    }
}

/// Whether a client can show progress.
pub open spec fn shows_progress(work_done_progress: Option<Option<bool>>) -> bool {
    work_done_progress == Some(Some(true))
}

/// A client connects. It has to begin with an `initialize` request; `readable` are the parameters
/// of its first request as far as they can be read as such. If the server that it needs is
/// running, the client is added, and told at once how the initialization went if that is known.
/// Otherwise a server has to be started first. A client that cannot be connected is disconnected.
pub open spec fn connect(
    st: GlobalView,
    conn: ConnectionView,
    readable: Option<InitializeView>,
) -> ConnectOutcome {
    let fail = |e: ErrorView|
        ConnectOutcome {
            state: st,
            actions: seq![ActionView::CloseClient(conn.id)],
            result: Err(e),
        };
    if conn.request.method != "initialize"@ {
        fail(ErrorView::NotInitialize)
    } else {
        match readable {
            None => fail(ErrorView::InvalidParams(conn.request.method)),
            Some(init) => if asks_directory(conn.bootstrap, init) && !is_absolute(
                conn.bootstrap.cwd,
            ) {
                fail(ErrorView::RelativeDirectory)
            } else {
                match workspace_for(conn.bootstrap, init, conn.files) {
                    None => fail(ErrorView::NoWorkspace(conn.bootstrap.cwd)),
                    Some(workspace) => {
                        let default_bin = st.config.rust_analyzer_bin@;
                        let descriptor = descriptor_for(default_bin, conn.bootstrap, workspace);
                        let progress = shows_progress(init.work_done_progress);
                        match running_server(st, descriptor) {
                            Some(sid) => ConnectOutcome {
                                state: with_client(
                                    st,
                                    conn.id,
                                    new_client(sid, conn.request.id, progress),
                                ),
                                actions: match st.servers[sid].initialize_result {
                                    Some(result) => seq![
                                        ActionView::ToClient(
                                            conn.id,
                                            MessageView::Response(
                                                ResponseView {
                                                    id: conn.request.id,
                                                    result: Some(result),
                                                    error: None,
                                                },
                                            ),
                                        ),
                                    ],
                                    None => Seq::empty(),
                                },
                                result: Ok(None),
                            },
                            None => ConnectOutcome {
                                state: GlobalView {
                                    next_server_id: next_number(st.next_server_id),
                                    ..st
                                },
                                actions: Seq::empty(),
                                result: Ok(
                                    Some(
                                        SpawnRequestView {
                                            client_id: conn.id,
                                            server_id: st.next_server_id,
                                            descriptor,
                                            command: command_for(
                                                binary_for(default_bin, conn.bootstrap),
                                                conn.bootstrap,
                                            ),
                                            request_id: conn.request.id,
                                            params: init.params,
                                            work_done_progress: progress,
                                        },
                                    ),
                                ),
                            },
                        }
                    },
                }
            },
        }
    }
}

/// A client whose working directory has to tell its workspace is in an absolute one.
pub open spec fn is_located(conn: ConnectionView, readable: Option<InitializeView>) -> bool {
    readable matches Some(init) && conn.request.method == "initialize"@ && asks_directory(
        conn.bootstrap,
        init,
    ) ==> is_absolute(conn.bootstrap.cwd)
}

/// The server that a client was waiting for could not be started: the client is disconnected.
pub open spec fn spawn_failed(st: GlobalView, spawn: SpawnRequestView) -> Outcome {
    accepted(st, seq![ActionView::CloseClient(spawn.client_id)])
}

/// The server that a client was waiting for has been started: it gets the client's `initialize`
/// request, and both are added.
pub open spec fn server_spawned(st: GlobalView, spawn: SpawnRequestView) -> Outcome {
    let sid = spawn.server_id;
    accepted(
        GlobalView {
            clients: st.clients.insert(
                spawn.client_id,
                new_client(sid, spawn.request_id, spawn.work_done_progress),
            ),
            servers: st.servers.insert(
                sid,
                server_after_send(new_server(), spawn.client_id, spawn.request_id),
            ),
            descriptors: with_descriptor(st.descriptors, spawn.descriptor, sid),
            ..st
        },
        seq![
            ActionView::ToServer(
                sid,
                MessageView::Request(
                    RequestView {
                        id: IdView::Number(0),
                        method: "initialize"@,
                        params: spawn.params,
                    },
                ),
            ),
        ],
    )
}

} // verus!
