//! The state of the daemon and how it answers events.
//!
//! Even though the main purpose of the daemon is to keep language servers running, it is a
//! multiplexer: a server talks to one client, and that client is a crowd. Nothing here performs
//! I/O. An event appends the actions that it calls for to a list, in the order in which they have
//! to be carried out.


pub mod clients;
pub mod connecting;
pub mod leaving;
pub mod servers;
pub mod tasks;

use crate::error::{result_view, Error};
use crate::ids::{ClientId, ServerId};
use crate::launch::SpawnCommand;
use crate::message::{Message, Request, RequestId};
use crate::model::{
    client_wf, is_client_of, is_roster, server_wf, state_wf, with_client, with_server, ActionView,
    ClientView, ConnectionView, GlobalView, Outcome, ServerView, SpawnRequestView,
};
use crate::peers::{numbers, ClientLspInfo, ClientState, ServerState};
use crate::root::text_set;
use crate::table::{map_get, map_keys};
use crate::types::{BootstrapMessage, Config, DescriptorView, ServerDescriptor};
use fxhash::FxHashMap;
use tokio::sync::mpsc::Sender;
use vstd::prelude::*;

verus! {

/// A sender of the channel that the daemon's events come through. The library only carries it.
#[verifier::external_type_specification]
#[verifier::external_body]
#[verifier::reject_recursive_types(T)]
pub struct ExSender<T>(tokio::sync::mpsc::Sender<T>);

/// Something to carry out.
#[derive(Debug, PartialEq, Eq)]
pub enum Action {
    /// Send a message to a client.
    ToClient(ClientId, Message),
    /// Send a message to a server.
    ToServer(ServerId, Message),
    /// Close the connection to a client.
    CloseClient(ClientId),
    /// End the process of a server.
    KillServer(ServerId),
}

/// An event.
#[derive(Debug)]
pub enum Task {
    NewConnection(NewConnection),
    ClientMessage(ClientId, Message),
    ServerMessage(ServerId, Message),
    ClientDropped(ClientId),
    ServerShutdown(ServerId),
}

/// A client that wants to be connected.
#[derive(Debug)]
pub struct NewConnection {
    pub id: ClientId,
    pub bootstrap: BootstrapMessage,
    /// The first request of the client, which should be `initialize`.
    pub request: Request,
    /// The marker files that exist on the way up from the working directory of the client.
    pub files: Vec<String>,
}

/// A server that has to be started before a client can be connected.
#[derive(Debug)]
pub struct SpawnRequest {
    pub client_id: ClientId,
    pub server_id: ServerId,
    pub descriptor: ServerDescriptor,
    pub command: SpawnCommand,
    pub request_id: RequestId,
    /// The parameters of the `initialize` request that the server gets.
    pub params: String,
    pub info: ClientLspInfo,
}

/// The state of the daemon.
#[derive(Debug)]
pub struct GlobalState {
    pub config: Config,
    tx: Option<Sender<Task>>,
    next_server_id: u32,
    client: FxHashMap<u32, ClientState>,
    server: FxHashMap<u32, ServerState>,
    server_descriptors: Vec<(ServerDescriptor, ServerId)>,
}

impl View for Action {
    type V = ActionView;

    open spec fn view(&self) -> ActionView {
        match self {
            Action::ToClient(id, m) => ActionView::ToClient(id.0, m@),
            Action::ToServer(id, m) => ActionView::ToServer(id.0, m@),
            Action::CloseClient(id) => ActionView::CloseClient(id.0),
            Action::KillServer(id) => ActionView::KillServer(id.0),
        }
    }
}

impl View for NewConnection {
    type V = ConnectionView;

    open spec fn view(&self) -> ConnectionView {
        ConnectionView {
            id: self.id.0,
            bootstrap: self.bootstrap@,
            request: self.request@,
            files: text_set(self.files@),
        }
    }
}

impl View for SpawnRequest {
    type V = SpawnRequestView;

    open spec fn view(&self) -> SpawnRequestView {
        SpawnRequestView {
            client_id: self.client_id.0,
            server_id: self.server_id.0,
            descriptor: self.descriptor@,
            command: self.command@,
            request_id: self.request_id@,
            params: self.params@,
            work_done_progress: self.info.work_done_progress,
        }
    }
}

/// What each action of a list is.
pub open spec fn action_views(list: Seq<Action>) -> Seq<ActionView> {
    Seq::new(list.len(), |i: int| list[i]@)
}

/// What is known of each client of a table.
pub open spec fn client_views(map: Map<u32, ClientState>) -> Map<u32, ClientView> {
    Map::new(|k: u32| map.contains_key(k), |k: u32| map[k]@)
}

/// What is known of each server of a table.
pub open spec fn server_views(map: Map<u32, ServerState>) -> Map<u32, ServerView> {
    Map::new(|k: u32| map.contains_key(k), |k: u32| map[k]@)
}

/// What each entry of a list of descriptors is.
pub open spec fn descriptor_views(list: Seq<(ServerDescriptor, ServerId)>) -> Seq<
    (DescriptorView, u32),
> {
    Seq::new(list.len(), |i: int| (list[i].0@, list[i].1.0))
}

impl View for GlobalState {
    type V = GlobalView;

    closed spec fn view(&self) -> GlobalView {
        GlobalView {
            config: self.config,
            tx: self.tx,
            next_server_id: self.next_server_id,
            clients: client_views(self.client@),
            servers: server_views(self.server@),
            descriptors: descriptor_views(self.server_descriptors@),
        }
    }
}

/// An event has come to `outcome`: the state is `state`, the list of actions has grown from
/// `before` to `after`, and the result is `r`.
pub open spec fn follows(
    outcome: Outcome,
    state: GlobalView,
    before: Seq<Action>,
    after: Seq<Action>,
    r: Result<(), Error>,
) -> bool {
    &&& state == outcome.state
    &&& action_views(after) == action_views(before) + outcome.actions
    &&& result_view(r) == outcome.result
}

pub(crate) proof fn lemma_push(list: Seq<Action>, action: Action)
    ensures
        action_views(list.push(action)) == action_views(list).push(action@),
{
    assert(action_views(list.push(action)) =~= action_views(list).push(action@));
}

pub(crate) proof fn lemma_client_insert(map: Map<u32, ClientState>, id: u32, client: ClientState)
    ensures
        client_views(map.insert(id, client)) == client_views(map).insert(id, client@),
{
    assert(client_views(map.insert(id, client)) =~= client_views(map).insert(id, client@));
}

pub(crate) proof fn lemma_server_insert(map: Map<u32, ServerState>, id: u32, server: ServerState)
    ensures
        server_views(map.insert(id, server)) == server_views(map).insert(id, server@),
{
    assert(server_views(map.insert(id, server)) =~= server_views(map).insert(id, server@));
}

pub(crate) proof fn lemma_client_remove(map: Map<u32, ClientState>, id: u32)
    ensures
        client_views(map.remove(id)) == client_views(map).remove(id),
{
    assert(client_views(map.remove(id)) =~= client_views(map).remove(id));
}

pub(crate) proof fn lemma_server_remove(map: Map<u32, ServerState>, id: u32)
    ensures
        server_views(map.remove(id)) == server_views(map).remove(id),
{
    assert(server_views(map.remove(id)) =~= server_views(map).remove(id));
}

impl GlobalState {
    /// A daemon without clients and servers.
    pub fn new(config: Config) -> (state: GlobalState)
        ensures
            state_wf(state@),
            state@ == (GlobalView {
                config,
                tx: None,
                next_server_id: 0,
                clients: Map::empty(),
                servers: Map::empty(),
                descriptors: Seq::empty(),
            }),
    {
        let state = GlobalState {
            config,
            tx: None,
            next_server_id: 0,
            client: FxHashMap::default(),
            server: FxHashMap::default(),
            server_descriptors: Vec::new(),
        };
        proof {
            assert(state@.clients =~= Map::<u32, ClientView>::empty());
            assert(state@.servers =~= Map::<u32, ServerView>::empty());
            assert(state@.descriptors =~= Seq::<(DescriptorView, u32)>::empty());
        }
        state
    }

    /// Sets the sender through which events come back. It can be set only once.
    pub fn set_sender(&mut self, sender: Sender<Task>)
        requires
            old(self)@.tx is None,
        ensures
            final(self)@ == (GlobalView { tx: Some(sender), ..old(self)@ }),
    {
        self.tx = Some(sender);
    }

    /// The sender through which events come back.
    pub fn sender(&self) -> (sender: &Sender<Task>)
        requires
            self@.tx is Some,
        ensures
            self@.tx == Some(*sender),
    {
        self.tx.as_ref().unwrap()
    }

    /// The clients of a server, in some order.
    pub(crate) fn clients_of(&self, id: ServerId) -> (list: Vec<ClientId>)
        ensures
            is_roster(numbers(list@), self@, id.0),
    {
        let keys: Vec<u32> = map_keys(&self.client);
        let mut list: Vec<ClientId> = Vec::new();
        let mut i: usize = 0;
        while i < keys.len()
            invariant
                i <= keys.len(),
                keys@.no_duplicates(),
                forall|k: u32| keys@.contains(k) <==> #[trigger] self.client@.contains_key(k),
                numbers(list@).no_duplicates(),
                forall|c: u32| #[trigger]
                    numbers(list@).contains(c) <==> keys@.take(i as int).contains(c)
                        && is_client_of(self@, c, id.0),
            decreases keys.len() - i,
        {
            let k: u32 = keys[i];
            let ghost before = numbers(list@);
            let ghost taken = keys@.take(i as int);
            proof {
                assert(keys@.contains(k));
                assert(keys@.take(i + 1) =~= taken.push(k));
                assert(!taken.contains(k)) by {
                    if taken.contains(k) {
                        let j = choose|j: int| 0 <= j < taken.len() && taken[j] == k;
                        assert(keys@[j] == keys@[i as int]);
                    }
                }
                assert forall|c: u32| #[trigger] taken.push(k).contains(c) <==> taken.contains(c)
                    || c == k by {
                    lemma_push_contains(taken, k, c);
                }
            }
            match map_get(&self.client, &k) {
                Some(client) => {
                    if client.server_id == id {
                        list.push(ClientId(k));
                        proof {
                            assert(numbers(list@) =~= before.push(k));
                            assert(!before.contains(k));
                            lemma_push_no_duplicates(before, k);
                            assert forall|c: u32| #[trigger] numbers(list@).contains(c)
                                <==> before.contains(c) || c == k by {
                                lemma_push_contains(before, k, c);
                            }
                        }
                    }
                },
                None => {},
            }
            i += 1;
        }
        proof {
            assert(keys@.take(i as int) =~= keys@);
        }
        list
    }
}

/// Replacing a client by a well formed one of the same server keeps the state well formed.
pub(crate) proof fn lemma_client_kept(st: GlobalView, id: u32, client: ClientView)
    requires
        state_wf(st),
        client_wf(client),
        st.servers.contains_key(client.server_id),
    ensures
        state_wf(with_client(st, id, client)),
{
    let after = with_client(st, id, client);
    assert forall|c: u32| #[trigger] after.clients.contains_key(c) implies client_wf(
        after.clients[c],
    ) && after.servers.contains_key(after.clients[c].server_id) by {
        if c != id {
            assert(st.clients.contains_key(c));
        }
    }
}

/// Replacing a server by a well formed one keeps the state well formed.
pub(crate) proof fn lemma_server_kept(st: GlobalView, id: u32, server: ServerView)
    requires
        state_wf(st),
        server_wf(server),
    ensures
        state_wf(with_server(st, id, server)),
{
    let after = with_server(st, id, server);
    assert forall|c: u32| #[trigger] after.clients.contains_key(c) implies client_wf(
        after.clients[c],
    ) && after.servers.contains_key(after.clients[c].server_id) by {
        assert(st.clients.contains_key(c));
    }
    assert forall|k: u32| #[trigger] after.servers.contains_key(k) implies server_wf(
        after.servers[k],
    ) by {
        if k != id {
            assert(st.servers.contains_key(k));
        }
    }
}

/// A list of all the clients of a server is empty if and only if there is none.
pub(crate) proof fn lemma_empty_roster(st: GlobalView, sid: u32, roster: Seq<u32>)
    requires
        is_roster(roster, st, sid),
    ensures
        roster.len() == 0 <==> forall|c: u32| !is_client_of(st, c, sid),
{
    if roster.len() > 0 {
        assert(roster.contains(roster[0]));
        assert(is_client_of(st, roster[0], sid));
    } else {
        assert forall|c: u32| !is_client_of(st, c, sid) by {
            assert(!roster.contains(c));
        }
    }
}

pub(crate) proof fn lemma_push_contains(list: Seq<u32>, k: u32, c: u32)
    ensures
        list.push(k).contains(c) <==> list.contains(c) || c == k,
{
    if list.contains(c) {
        let j = choose|j: int| 0 <= j < list.len() && list[j] == c;
        assert(list.push(k)[j] == c);
    }
    if c == k {
        assert(list.push(k)[list.len() as int] == c);
    }
}

proof fn lemma_push_no_duplicates(list: Seq<u32>, k: u32)
    requires
        list.no_duplicates(),
        !list.contains(k),
    ensures
        list.push(k).no_duplicates(),
{
    let after = list.push(k);
    assert forall|i: int, j: int| 0 <= i < j < after.len() implies after[i] != after[j] by {
        assert(list.contains(list[i]));
    }
}

} // verus!
