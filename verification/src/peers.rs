//! What the daemon keeps of each client and of each server.

use crate::documents::{document_views, OpenDocument};
use crate::ids::{ClientId, ServerId};
use crate::message::{IdView, Notification, Request, RequestId, RequestView};
use crate::model::{
    answered, asked, client_after_response, client_after_send, client_wf, distinct_requests,
    first_at, grant_of, is_number_of, new_client, new_server, registered_after, renumbered,
    request_at, server_after_response, server_after_send, server_wf, shows_progress, with_request,
    without_unregistered, ClientView, GrantView, ServerView,
};
use crate::params::{
    pair_views, parse_registrations, parse_unregistrations, registration_views, InitializeParams,
    Registration, RegistrationView,
};
use crate::table::{map_get, map_insert, map_keys, map_remove};
use crate::text::same_text;
use fxhash::FxHashMap;
use vstd::prelude::*;

verus! {

/// The information that the daemon cares about from the `initialize` request of a client.
#[derive(Debug)]
pub struct ClientLspInfo {
    pub work_done_progress: bool,
}

impl ClientLspInfo {
    /// What the parameters of an `initialize` request say.
    pub fn new(params: &InitializeParams) -> (info: ClientLspInfo)
        ensures
            info.work_done_progress == shows_progress(params.work_done_progress),
    {
        let work_done_progress: bool = match params.work_done_progress {
            Some(Some(yes)) => yes,
            _ => false,
        };
        ClientLspInfo { work_done_progress }
    }
}

/// A client.
#[derive(Debug)]
pub struct ClientState {
    /// Active server that this client is connected to.
    pub server_id: ServerId,
    /// Has the `initialized` notification been received from this client?
    pub is_initialized: bool,
    /// The request id that the client used to send the `initialize` request.
    pub initialize_request_id: RequestId,
    /// What the `initialize` request of this client says of it.
    pub info: ClientLspInfo,
    /// The next request id that can be used when sending an outgoing request.
    pub next_request_id: i32,
    /// Maps each request that was sent to the client to the request id on the server side.
    pub request_id_map: FxHashMap<i32, RequestId>,
    /// A configuration that this client wanted the server to have while another client was the
    /// primary. It is sent to the server once this client becomes primary.
    pub last_change_configuration_notification: Option<Notification>,
}

/// A server.
#[derive(Debug)]
pub struct ServerState {
    /// All of the clients that are connected to this server, in the order in which they joined.
    /// The first connection is the primary.
    pub connections: Vec<ClientId>,
    /// The result of the initialization of this server, as JSON text. If all of the connections of
    /// the server drop while this value is still [`None`] the server is dropped and not kept.
    pub initialize_result: Option<String>,
    /// Has the `initialized` notification been received from any of the clients yet?
    pub is_initialized: bool,
    /// The next request id that can be used when sending an outgoing request.
    pub next_request_id: i32,
    /// Maps each request id that was used to send a request to the server to the client that made
    /// this request and the request id that the client used to do so.
    pub request_id_map: FxHashMap<i32, (ClientId, RequestId)>,
    /// The requests of the server that are waiting for the response of a client, in the order in
    /// which they came, no two of them with the same id.
    pub pending_server_requests: Vec<Request>,
    /// The capabilities that are registered by the server, as granted by a client.
    pub registered_capabilities: Vec<Registration>,
    /// The open documents, each of them once.
    pub document: Vec<OpenDocument>,
}

/// The ids that a table of a client maps to.
pub open spec fn client_ids(map: Map<i32, RequestId>) -> Map<i32, IdView> {
    Map::new(|k: i32| map.contains_key(k), |k: i32| map[k]@)
}

/// The clients and ids that a table of a server maps to.
pub open spec fn server_ids(map: Map<i32, (ClientId, RequestId)>) -> Map<i32, (u32, IdView)> {
    Map::new(|k: i32| map.contains_key(k), |k: i32| (map[k].0.0, map[k].1@))
}

/// What each request of a list says.
pub open spec fn request_views(list: Seq<Request>) -> Seq<RequestView> {
    Seq::new(list.len(), |i: int| list[i]@)
}

/// The numbers of a list of clients.
pub open spec fn numbers(list: Seq<ClientId>) -> Seq<u32> {
    Seq::new(list.len(), |i: int| list[i].0)
}

impl View for ClientState {
    type V = ClientView;

    open spec fn view(&self) -> ClientView {
        ClientView {
            server_id: self.server_id.0,
            is_initialized: self.is_initialized,
            initialize_request_id: self.initialize_request_id@,
            work_done_progress: self.info.work_done_progress,
            next_request_id: self.next_request_id,
            request_ids: client_ids(self.request_id_map@),
            last_configuration: match self.last_change_configuration_notification {
                Some(n) => Some(n@),
                None => None,
            },
        }
    }
}

impl View for ServerState {
    type V = ServerView;

    open spec fn view(&self) -> ServerView {
        ServerView {
            connections: numbers(self.connections@),
            initialize_result: crate::message::text_view(self.initialize_result),
            is_initialized: self.is_initialized,
            next_request_id: self.next_request_id,
            request_ids: server_ids(self.request_id_map@),
            pending: request_views(self.pending_server_requests@),
            registered: registration_views(self.registered_capabilities@),
            documents: document_views(self.document@),
        }
    }
}

impl ClientState {
    /// A client that has just been connected.
    pub fn new(server_id: ServerId, initialize_request_id: RequestId, info: ClientLspInfo) -> (client:
        ClientState)
        ensures
            client@ == new_client(server_id.0, initialize_request_id@, info.work_done_progress),
    {
        let client = ClientState {
            server_id,
            is_initialized: false,
            initialize_request_id,
            info,
            next_request_id: 0,
            request_id_map: FxHashMap::default(),
            last_change_configuration_notification: None,
        };
        assert(client@.request_ids =~= Map::<i32, IdView>::empty());
        client
    }

    /// Gives a request of the server the number under which it goes to this client.
    pub fn send_request(&mut self, request: Request) -> (sent: Request)
        requires
            client_wf(old(self)@),
            old(self)@.next_request_id < i32::MAX,
        ensures
            final(self)@ == client_after_send(old(self)@, request@.id),
            client_wf(final(self)@),
            sent@ == renumbered(request@, old(self)@.next_request_id),
    {
        let id: i32 = self.next_request_id;
        self.next_request_id = self.next_request_id + 1;
        map_insert(&mut self.request_id_map, id, request.id);
        proof {
            assert(self@.request_ids =~= client_after_send(old(self)@, request@.id).request_ids);
            assert forall|k: i32| #[trigger] self@.request_ids.contains_key(k) implies 0 <= k
                < self@.next_request_id by {
                if k != id {
                    assert(old(self)@.request_ids.contains_key(k));
                }
            }
        }
        Request { id: RequestId::Number(id), method: request.method, params: request.params }
    }

    /// The id of the server's request that the response to `id` answers. It is answered only once.
    pub fn take_request_id(&mut self, id: &RequestId) -> (original: Option<RequestId>)
        requires
            client_wf(old(self)@),
        ensures
            match original {
                Some(o) => answered(old(self)@, id@) == Some(o@),
                None => answered(old(self)@, id@) is None,
            },
            final(self)@ == client_after_response(old(self)@, id@),
            client_wf(final(self)@),
    {
        match id {
            RequestId::Number(k) => {
                let original: Option<RequestId> = map_remove(&mut self.request_id_map, k);
                proof {
                    assert(self@.request_ids =~= old(self)@.request_ids.remove(*k));
                    assert forall|j: i32| #[trigger] self@.request_ids.contains_key(j) implies 0
                        <= j < self@.next_request_id by {
                        assert(old(self)@.request_ids.contains_key(j));
                    }
                }
                original
            },
            RequestId::Text(_) => None,
        }
    }
}

/// A request is found where it first stands in a list.
pub(crate) proof fn lemma_request_at(requests: Seq<RequestView>, id: IdView)
    ensures
        0 <= request_at(requests, id) <= requests.len(),
        request_at(requests, id) < requests.len() ==> requests[request_at(requests, id)].id == id,
        forall|i: int| 0 <= i < request_at(requests, id) ==> #[trigger] requests[i].id != id,
    decreases requests.len(),
{
    if requests.len() > 0 && requests[0].id != id {
        lemma_request_at(requests.skip(1), id);
        assert forall|i: int| 0 <= i < request_at(requests, id) implies #[trigger] requests[i].id
            != id by {
            if i > 0 {
                assert(requests.skip(1)[i - 1] == requests[i]);
            }
        }
    }
}

/// Replacing or adding a request keeps the ids of a list distinct.
pub(crate) proof fn lemma_with_request(requests: Seq<RequestView>, request: RequestView)
    requires
        distinct_requests(requests),
    ensures
        distinct_requests(with_request(requests, request)),
{
    lemma_request_at(requests, request.id);
    let at = request_at(requests, request.id);
    let after = with_request(requests, request);
    assert forall|i: int, j: int| 0 <= i < j < after.len() implies #[trigger] after[i].id
        != #[trigger] after[j].id by {
        if at < requests.len() {
            assert(after[i].id == requests[i].id);
            assert(after[j].id == requests[j].id);
        } else if j < requests.len() {
            assert(requests[i].id != requests[j].id);
        }
    }
}

/// Taking a request out of a list keeps the ids of the others distinct.
pub(crate) proof fn lemma_remove_request(requests: Seq<RequestView>, at: int)
    requires
        distinct_requests(requests),
        0 <= at < requests.len(),
    ensures
        distinct_requests(requests.remove(at)),
{
    let after = requests.remove(at);
    assert forall|i: int, j: int| 0 <= i < j < after.len() implies #[trigger] after[i].id
        != #[trigger] after[j].id by {
        let i2 = if i < at { i } else { i + 1 };
        let j2 = if j < at { j } else { j + 1 };
        assert(requests[i2].id != requests[j2].id);
    }
}

/// A client is found where it first stands in a list.
pub(crate) proof fn lemma_first_at(list: Seq<u32>, id: u32)
    ensures
        0 <= first_at(list, id) <= list.len(),
        first_at(list, id) < list.len() ==> list[first_at(list, id)] == id,
        forall|i: int| 0 <= i < first_at(list, id) ==> #[trigger] list[i] != id,
    decreases list.len(),
{
    if list.len() > 0 && list[0] != id {
        lemma_first_at(list.skip(1), id);
        assert forall|i: int| 0 <= i < first_at(list, id) implies #[trigger] list[i] != id by {
            if i > 0 {
                assert(list.skip(1)[i - 1] == list[i]);
            }
        }
    }
}

impl ServerState {
    /// A server that has just been started.
    pub fn new() -> (server: ServerState)
        ensures
            server@ == new_server(),
            server_wf(server@),
    {
        let server = ServerState {
            connections: Vec::new(),
            initialize_result: None,
            is_initialized: false,
            next_request_id: 0,
            request_id_map: FxHashMap::default(),
            pending_server_requests: Vec::new(),
            registered_capabilities: Vec::new(),
            document: Vec::new(),
        };
        proof {
            assert(server@.request_ids =~= Map::<i32, (u32, IdView)>::empty());
            assert(server@.connections =~= Seq::<u32>::empty());
            assert(server@.pending =~= Seq::<RequestView>::empty());
            assert(server@.registered =~= Seq::<RegistrationView>::empty());
            assert(server@.documents =~= new_server().documents);
        }
        server
    }

    /// Gives a request of a client the number under which it goes to this server.
    pub fn send_request(&mut self, client: ClientId, request: Request) -> (sent: Request)
        requires
            server_wf(old(self)@),
            old(self)@.next_request_id < i32::MAX,
        ensures
            final(self)@ == server_after_send(old(self)@, client.0, request@.id),
            server_wf(final(self)@),
            sent@ == renumbered(request@, old(self)@.next_request_id),
    {
        let id: i32 = self.next_request_id;
        self.next_request_id = self.next_request_id + 1;
        map_insert(&mut self.request_id_map, id, (client, request.id));
        proof {
            assert(self@.request_ids =~= server_after_send(
                old(self)@,
                client.0,
                request@.id,
            ).request_ids);
            assert forall|k: i32| #[trigger] self@.request_ids.contains_key(k) implies 0 <= k
                < self@.next_request_id by {
                if k != id {
                    assert(old(self)@.request_ids.contains_key(k));
                }
            }
        }
        Request { id: RequestId::Number(id), method: request.method, params: request.params }
    }

    /// The client and its request that the response to `id` belongs to. It is answered only once.
    pub fn take_request_id(&mut self, id: &RequestId) -> (original: Option<(ClientId, RequestId)>)
        requires
            server_wf(old(self)@),
        ensures
            match original {
                Some((client, o)) => asked(old(self)@, id@) == Some((client.0, o@)),
                None => asked(old(self)@, id@) is None,
            },
            final(self)@ == server_after_response(old(self)@, id@),
            server_wf(final(self)@),
    {
        match id {
            RequestId::Number(k) => {
                let original: Option<(ClientId, RequestId)> = map_remove(
                    &mut self.request_id_map,
                    k,
                );
                proof {
                    assert(self@.request_ids =~= old(self)@.request_ids.remove(*k));
                    assert forall|j: i32| #[trigger] self@.request_ids.contains_key(j) implies 0
                        <= j < self@.next_request_id by {
                        assert(old(self)@.request_ids.contains_key(j));
                    }
                }
                original
            },
            RequestId::Text(_) => None,
        }
    }

    /// A number under which the server knows the request `id` of a client, if it knows it.
    pub fn get_server_request_id_from_client_request_id(
        &self,
        client: ClientId,
        id: &RequestId,
    ) -> (found: Option<i32>)
        ensures
            is_number_of(self@, client.0, id@, found),
    {
        let keys: Vec<i32> = map_keys(&self.request_id_map);
        let mut i: usize = 0;
        while i < keys.len()
            invariant
                i <= keys.len(),
                forall|k: i32|
                    keys@.contains(k) <==> #[trigger] self.request_id_map@.contains_key(k),
                forall|j: int|
                    0 <= j < i ==> self@.request_ids[#[trigger] keys@[j]] != (client.0, id@),
            decreases keys.len() - i,
        {
            let k: i32 = keys[i];
            assert(keys@.contains(k));
            match map_get(&self.request_id_map, &k) {
                Some((owner, original)) => {
                    if *owner == client && original.same(id) {
                        return Some(k);
                    }
                },
                None => {},
            }
            i += 1;
        }
        proof {
            assert forall|k: i32|
                !(#[trigger] self@.request_ids.contains_key(k) && self@.request_ids[k] == (
                    client.0,
                    id@,
                )) by {
                if self@.request_ids.contains_key(k) {
                    assert(self.request_id_map@.contains_key(k));
                    assert(keys@.contains(k));
                }
            }
        }
        None
    }

    /// Where the request `id` stands among the pending ones, their number where it does not.
    fn pending_position(&self, id: &RequestId) -> (at: usize)
        ensures
            at == request_at(self@.pending, id@),
            at <= self.pending_server_requests.len(),
    {
        let ghost views = self@.pending;
        let mut i: usize = 0;
        proof {
            assert(views.skip(0) =~= views);
        }
        while i < self.pending_server_requests.len()
            invariant
                i <= self.pending_server_requests.len(),
                views == self@.pending,
                request_at(views, id@) == i + request_at(views.skip(i as int), id@),
            decreases self.pending_server_requests.len() - i,
        {
            proof {
                assert(views.skip(i as int)[0] == views[i as int]);
                assert(views.skip(i as int).skip(1) =~= views.skip(i + 1));
            }
            if self.pending_server_requests[i].id.same(id) {
                return i;
            }
            i += 1;
        }
        i
    }

    /// Keeps a request of the server until it is answered.
    pub fn keep_pending(&mut self, request: Request)
        requires
            server_wf(old(self)@),
        ensures
            final(self)@ == (ServerView {
                pending: with_request(old(self)@.pending, request@),
                ..old(self)@
            }),
            server_wf(final(self)@),
    {
        let ghost before = self@.pending;
        proof {
            lemma_with_request(before, request@);
        }
        let at: usize = self.pending_position(&request.id);
        if at < self.pending_server_requests.len() {
            self.pending_server_requests.set(at, request);
            assert(self@.pending =~= before.update(at as int, request@));
        } else {
            self.pending_server_requests.push(request);
            assert(self@.pending =~= before.push(request@));
        }
    }

    /// Takes the request `id` out of the pending ones, if it is still pending.
    pub fn take_pending(&mut self, id: &RequestId) -> (taken: Option<Request>)
        requires
            server_wf(old(self)@),
        ensures
            ({
                let before = old(self)@;
                let at = request_at(before.pending, id@);
                match taken {
                    Some(request) => {
                        &&& at < before.pending.len()
                        &&& request@ == before.pending[at]
                        &&& final(self)@ == (ServerView {
                            pending: before.pending.remove(at),
                            ..before
                        })
                    },
                    None => at >= before.pending.len() && final(self)@ == before,
                }
            }),
            server_wf(final(self)@),
    {
        let ghost before = self@.pending;
        let at: usize = self.pending_position(id);
        if at < self.pending_server_requests.len() {
            let request: Request = self.pending_server_requests.remove(at);
            proof {
                assert(self@.pending =~= before.remove(at as int));
                lemma_remove_request(before, at as int);
            }
            Some(request)
        } else {
            None
        }
    }

    /// Notes what a client has granted.
    pub fn grant(&mut self, grant: Grant)
        requires
            server_wf(old(self)@),
        ensures
            final(self)@ == (ServerView {
                registered: registered_after(old(self)@.registered, grant@),
                ..old(self)@
            }),
            server_wf(final(self)@),
    {
        let ghost before = self@.registered;
        match grant {
            Grant::Registered(mut list) => {
                let ghost added = list@;
                self.registered_capabilities.append(&mut list);
                assert(self@.registered =~= before + registration_views(added));
            },
            Grant::Unregistered(list) => {
                self.unregister(&list);
            },
            _ => {},
        }
    }

    /// Forgets the registered capabilities whose id and method are listed.
    fn unregister(&mut self, gone: &Vec<(String, String)>)
        ensures
            final(self)@ == (ServerView {
                registered: without_unregistered(old(self)@.registered, pair_views(gone@)),
                ..old(self)@
            }),
    {
        let ghost before = self@;
        let ghost all = before.registered;
        let ghost pairs = pair_views(gone@);
        let ghost mut seen: int = 0;
        let mut i: usize = 0;
        proof {
            assert(all.take(0) =~= Seq::<RegistrationView>::empty());
            assert(all =~= without_unregistered(all.take(0), pairs) + all.skip(0));
        }
        while i < self.registered_capabilities.len()
            invariant
                0 <= seen <= all.len(),
                pairs == pair_views(gone@),
                i <= self.registered_capabilities.len(),
                i == without_unregistered(all.take(seen), pairs).len(),
                self@ == (ServerView {
                    registered: without_unregistered(all.take(seen), pairs) + all.skip(seen),
                    ..before
                }),
            decreases all.len() - seen,
        {
            let ghost done = without_unregistered(all.take(seen), pairs);
            proof {
                assert(self@.registered[i as int] == all[seen]);
                assert(all.take(seen + 1).drop_last() =~= all.take(seen));
            }
            if has_pair(gone, &self.registered_capabilities[i]) {
                let ghost list = self@.registered;
                let _forgotten: Registration = self.registered_capabilities.remove(i);
                assert(self@.registered =~= list.remove(i as int));
                assert(list.remove(i as int) =~= done + all.skip(seen + 1));
            } else {
                assert(self@.registered =~= done.push(all[seen]) + all.skip(seen + 1));
                i += 1;
            }
            proof {
                seen = seen + 1;
            }
        }
        proof {
            assert(self@.registered.len() == self.registered_capabilities.len());
            assert(all.take(seen) =~= all);
            assert(all.skip(seen) =~= Seq::<RegistrationView>::empty());
            assert(self@.registered =~= without_unregistered(all, pairs));
        }
    }
}

/// What granting a request of a server means for its registered capabilities.
#[derive(Debug, PartialEq, Eq)]
pub enum Grant {
    /// These are registered.
    Registered(Vec<Registration>),
    /// Those with these ids and methods are registered no longer.
    Unregistered(Vec<(String, String)>),
    /// The parameters cannot be read.
    Invalid,
    /// Nothing.
    Nothing,
}

impl View for Grant {
    type V = GrantView;

    open spec fn view(&self) -> GrantView {
        match self {
            Grant::Registered(list) => GrantView::Registered(registration_views(list@)),
            Grant::Unregistered(list) => GrantView::Unregistered(pair_views(list@)),
            Grant::Invalid => GrantView::Invalid,
            Grant::Nothing => GrantView::Nothing,
        }
    }
}

/// What a server asks to have granted with a request.
pub fn read_grant(request: &Request) -> (grant: Grant)
    ensures
        grant@ == grant_of(request@),
{
    if same_text(request.method.as_str(), "client/registerCapability") {
        match parse_registrations(request.params.as_str()) {
            Some(list) => Grant::Registered(list),
            None => Grant::Invalid,
        }
    } else if same_text(request.method.as_str(), "client/unregisterCapability") {
        match parse_unregistrations(request.params.as_str()) {
            Some(list) => Grant::Unregistered(list),
            None => Grant::Invalid,
        }
    } else {
        Grant::Nothing
    }
}

/// Whether the id and the method of a registration are listed.
fn has_pair(list: &Vec<(String, String)>, registration: &Registration) -> (yes: bool)
    ensures
        yes == pair_views(list@).contains((registration@.id, registration@.method)),
{
    let mut i: usize = 0;
    while i < list.len()
        invariant
            i <= list.len(),
            forall|j: int|
                0 <= j < i ==> #[trigger] pair_views(list@)[j] != (
                    registration@.id,
                    registration@.method,
                ),
        decreases list.len() - i,
    {
        if same_text(list[i].0.as_str(), registration.id.as_str()) && same_text(
            list[i].1.as_str(),
            registration.method.as_str(),
        ) {
            assert(pair_views(list@)[i as int] == (registration@.id, registration@.method));
            return true;
        }
        i += 1;
    }
    false
}

} // verus!
