//! How clients get to their servers.

use crate::error::Error;
use crate::ids::{ClientId, ServerId};
use crate::launch::{extract_server_info, hijack_initialize_params, needs_directory};
use crate::message::{copy_text, text_view, Message, Request, Response};
use crate::model::{
    connect, descriptor_at, distinct_descriptors, is_located, running_server, server_spawned,
    spawn_failed, state_wf, with_client, with_descriptor, with_server, ActionView, ErrorView,
    GlobalView, SpawnRequestView,
};
use crate::params::{initialize_params, parse_initialize, InitializeParams, InitializeView};
use crate::peers::{ClientLspInfo, ClientState, ServerState};
use crate::root::absolute;
use crate::server::{
    action_views, follows, lemma_client_insert, lemma_client_kept, lemma_server_insert,
    lemma_server_kept, Action, GlobalState, NewConnection, SpawnRequest,
};
use crate::table::{map_get, map_insert};
use crate::text::same_text;
use crate::types::{DescriptorView, ServerDescriptor};
use vstd::prelude::*;

verus! {

/// What connecting a client has come to.
pub open spec fn connect_view(r: Result<Option<SpawnRequest>, Error>) -> Result<
    Option<SpawnRequestView>,
    ErrorView,
> {
    match r {
        Ok(Some(spawn)) => Ok(Some(spawn@)),
        Ok(None) => Ok(None),
        Err(e) => Err(e@),
    }
}

/// What the parameters of an `initialize` request are, as far as they can be read.
pub open spec fn readable_view(params: Option<InitializeParams>) -> Option<InitializeView> {
    match params {
        Some(p) => Some(p@),
        None => None,
    }
}

/// A descriptor is found where it first stands in a list.
pub(crate) proof fn lemma_descriptor_at(
    descriptors: Seq<(DescriptorView, u32)>,
    descriptor: DescriptorView,
)
    ensures
        0 <= descriptor_at(descriptors, descriptor) <= descriptors.len(),
        descriptor_at(descriptors, descriptor) < descriptors.len() ==> descriptors[descriptor_at(
            descriptors,
            descriptor,
        )].0 == descriptor,
        forall|i: int|
            0 <= i < descriptor_at(descriptors, descriptor) ==> #[trigger] descriptors[i].0
                != descriptor,
    decreases descriptors.len(),
{
    if descriptors.len() > 0 && descriptors[0].0 != descriptor {
        lemma_descriptor_at(descriptors.skip(1), descriptor);
        assert forall|i: int|
            0 <= i < descriptor_at(descriptors, descriptor) implies #[trigger] descriptors[i].0
            != descriptor by {
            if i > 0 {
                assert(descriptors.skip(1)[i - 1] == descriptors[i]);
            }
        }
    }
}

/// Letting a descriptor stand for a server keeps the descriptors of a list distinct.
pub(crate) proof fn lemma_with_descriptor(
    descriptors: Seq<(DescriptorView, u32)>,
    descriptor: DescriptorView,
    sid: u32,
)
    requires
        distinct_descriptors(descriptors),
    ensures
        distinct_descriptors(with_descriptor(descriptors, descriptor, sid)),
{
    lemma_descriptor_at(descriptors, descriptor);
    let at = descriptor_at(descriptors, descriptor);
    let after = with_descriptor(descriptors, descriptor, sid);
    assert forall|i: int, j: int| 0 <= i < j < after.len() implies #[trigger] after[i].0
        != #[trigger] after[j].0 by {
        if at < descriptors.len() {
            assert(after[i].0 == descriptors[i].0);
            assert(after[j].0 == descriptors[j].0);
        } else if j < descriptors.len() {
            assert(descriptors[i].0 != descriptors[j].0);
        }
    }
}

/// Disconnects a client that cannot be connected.
fn turn_away(id: ClientId, error: Error, out: &mut Vec<Action>) -> (r: Result<
    Option<SpawnRequest>,
    Error,
>)
    ensures
        r == Err::<Option<SpawnRequest>, Error>(error),
        action_views(final(out)@) == action_views(old(out)@) + seq![ActionView::CloseClient(id.0)],
{
    let ghost start = action_views(out@);
    let action = Action::CloseClient(id);
    out.push(action);
    assert(action_views(out@) =~= start + seq![action@]);
    Err(error)
}

impl GlobalState {
    /// Where a descriptor stands in the list, its length where it does not.
    fn descriptor_position(&self, descriptor: &ServerDescriptor) -> (at: usize)
        ensures
            at == descriptor_at(self@.descriptors, descriptor@),
            at <= self.server_descriptors.len(),
    {
        let ghost list = self@.descriptors;
        let mut i: usize = 0;
        assert(list.skip(0) =~= list);
        while i < self.server_descriptors.len()
            invariant
                i <= self.server_descriptors.len(),
                list == self@.descriptors,
                descriptor_at(list, descriptor@) == i + descriptor_at(
                    list.skip(i as int),
                    descriptor@,
                ),
            decreases self.server_descriptors.len() - i,
        {
            proof {
                assert(list.skip(i as int)[0] == list[i as int]);
                assert(list.skip(i as int).skip(1) =~= list.skip(i + 1));
            }
            if self.server_descriptors[i].0.same(descriptor) {
                return i;
            }
            i += 1;
        }
        i
    }

    /// The server that is running for a descriptor.
    fn find_server(&self, descriptor: &ServerDescriptor) -> (found: Option<ServerId>)
        ensures
            match found {
                Some(sid) => running_server(self@, descriptor@) == Some(sid.0),
                None => running_server(self@, descriptor@) is None,
            },
    {
        let at: usize = self.descriptor_position(descriptor);
        if at < self.server_descriptors.len() {
            let sid: ServerId = self.server_descriptors[at].1;
            assert(self@.descriptors[at as int].1 == sid.0);
            if map_get(&self.server, &sid.0).is_some() {
                return Some(sid);
            }
        }
        None
    }

    /// Connects a client that has begun with a request; `readable` are the parameters of this
    /// request as far as they can be read as those of `initialize`. If the server that the client
    /// needs is running, the client is added, and told at once how the initialization went if that
    /// is known. Otherwise a server has to be started first, and [`GlobalState::server_spawned`]
    /// adds the client. A client that cannot be connected is disconnected.
    pub fn connect_client(
        &mut self,
        conn: NewConnection,
        readable: Option<InitializeParams>,
        out: &mut Vec<Action>,
    ) -> (r: Result<Option<SpawnRequest>, Error>)
        requires
            state_wf(old(self)@),
            is_located(conn@, readable_view(readable)),
        ensures
            final(self)@ == connect(old(self)@, conn@, readable_view(readable)).state,
            action_views(final(out)@) == action_views(old(out)@) + connect(
                old(self)@,
                conn@,
                readable_view(readable),
            ).actions,
            connect_view(r) == connect(old(self)@, conn@, readable_view(readable)).result,
            state_wf(final(self)@),
    {
        let ghost st = self@;
        let ghost start = action_views(out@);
        assert(action_views(out@) =~= start + Seq::<ActionView>::empty());
        if !same_text(conn.request.method.as_str(), "initialize") {
            return turn_away(conn.id, Error::NotInitialize, out);
        }
        let init: InitializeParams = match readable {
            Some(init) => init,
            None => {
                return turn_away(conn.id, Error::InvalidParams(conn.request.method), out);
            },
        };
        let (descriptor, command) = match extract_server_info(
            self.config.rust_analyzer_bin.as_str(),
            conn.bootstrap,
            &init,
            &conn.files,
        ) {
            Ok(found) => found,
            Err(e) => {
                return turn_away(conn.id, Error::NoWorkspace(e.path), out);
            },
        };
        let info = ClientLspInfo::new(&init);
        match self.find_server(&descriptor) {
            Some(sid) => {
                let mut result: Option<String> = None;
                match map_get(&self.server, &sid.0) {
                    Some(server) => {
                        result = copy_text(&server.initialize_result);
                        assert(text_view(result) == st.servers[sid.0].initialize_result);
                    },
                    None => {},
                }
                let client = ClientState::new(sid, conn.request.id.copy(), info);
                let ghost clients = self.client@;
                proof {
                    lemma_client_insert(clients, conn.id.0, client);
                    lemma_client_kept(st, conn.id.0, client@);
                }
                let _replaced: Option<ClientState> = map_insert(
                    &mut self.client,
                    conn.id.0,
                    client,
                );
                match result {
                    Some(text) => {
                        let answer = Response {
                            id: conn.request.id,
                            result: Some(text),
                            error: None,
                        };
                        let action = Action::ToClient(conn.id, Message::Response(answer));
                        out.push(action);
                        assert(action_views(out@) =~= start + seq![action@]);
                    },
                    None => {},
                }
                Ok(None)
            },
            None => {
                let server_id = ServerId::new(&mut self.next_server_id);
                Ok(
                    Some(
                        SpawnRequest {
                            client_id: conn.id,
                            server_id,
                            descriptor,
                            command,
                            request_id: conn.request.id,
                            params: hijack_initialize_params(init.params),
                            info,
                        },
                    ),
                )
            },
        }
    }

    /// Connects a client. If the server that it needs is running, the client is added, and told at
    /// once how the initialization went if that is known. Otherwise a server has to be started
    /// first, and [`GlobalState::server_spawned`] adds the client. A client that cannot be
    /// connected is disconnected; that is also all that comes of a client whose working directory
    /// has to tell its workspace and is not absolute, and the result is
    /// [`Error::RelativeDirectory`].
    pub fn handle_new_connection(&mut self, conn: NewConnection, out: &mut Vec<Action>) -> (r:
        Result<Option<SpawnRequest>, Error>)
        requires
            state_wf(old(self)@),
        ensures
            ({
                let outcome = connect(
                    old(self)@,
                    conn@,
                    initialize_params(conn@.request.params),
                );
                &&& final(self)@ == outcome.state
                &&& action_views(final(out)@) == action_views(old(out)@) + outcome.actions
                &&& connect_view(r) == outcome.result
            }),
            state_wf(final(self)@),
    {
        let readable: Option<InitializeParams> = parse_initialize(conn.request.params.as_str());
        match &readable {
            Some(init) => {
                if same_text(conn.request.method.as_str(), "initialize") && needs_directory(
                    &conn.bootstrap,
                    init,
                ) && !absolute(conn.bootstrap.cwd.as_str()) {
                    return turn_away(conn.id, Error::RelativeDirectory, out);
                }
            },
            None => {},
        }
        self.connect_client(conn, readable, out)
    }

    /// The server that a client was waiting for could not be started: the client is disconnected.
    pub fn spawn_failed(&self, spawn: SpawnRequest, out: &mut Vec<Action>)
        ensures
            follows(
                spawn_failed(self@, spawn@),
                self@,
                old(out)@,
                final(out)@,
                Ok(()),
            ),
    {
        let ghost start = action_views(out@);
        let action = Action::CloseClient(spawn.client_id);
        out.push(action);
        assert(action_views(out@) =~= start + seq![action@]);
    }

    /// The server that a client was waiting for has been started: it gets the client's
    /// `initialize` request, and both are added.
    pub fn server_spawned(&mut self, spawn: SpawnRequest, out: &mut Vec<Action>)
        requires
            state_wf(old(self)@),
        ensures
            follows(
                server_spawned(old(self)@, spawn@),
                final(self)@,
                old(out)@,
                final(out)@,
                Ok(()),
            ),
            state_wf(final(self)@),
    {
        let ghost st = self@;
        let ghost start = action_views(out@);
        let ghost view = spawn@;
        let cid: ClientId = spawn.client_id;
        let sid: ServerId = spawn.server_id;
        let client = ClientState::new(sid, spawn.request_id.copy(), spawn.info);
        let mut server = ServerState::new();
        let sent: Request = server.send_request(
            cid,
            Request {
                id: spawn.request_id,
                method: "initialize".to_owned(),
                params: spawn.params,
            },
        );
        let action = Action::ToServer(sid, Message::Request(sent));
        out.push(action);
        assert(action_views(out@) =~= start + seq![action@]);
        let ghost clients = self.client@;
        let ghost servers = self.server@;
        proof {
            lemma_server_insert(servers, sid.0, server);
            lemma_server_kept(st, sid.0, server@);
            lemma_client_insert(clients, cid.0, client);
            lemma_client_kept(with_server(st, sid.0, server@), cid.0, client@);
            lemma_descriptor_at(st.descriptors, view.descriptor);
            lemma_with_descriptor(st.descriptors, view.descriptor, sid.0);
        }
        let _old_client: Option<ClientState> = map_insert(&mut self.client, cid.0, client);
        let _old_server: Option<ServerState> = map_insert(&mut self.server, sid.0, server);
        let at: usize = self.descriptor_position(&spawn.descriptor);
        if at < self.server_descriptors.len() {
            self.server_descriptors.set(at, (spawn.descriptor, sid));
            assert(self@.descriptors =~= st.descriptors.update(
                at as int,
                (view.descriptor, sid.0),
            ));
        } else {
            self.server_descriptors.push((spawn.descriptor, sid));
            assert(self@.descriptors =~= st.descriptors.push((view.descriptor, sid.0)));
        }
        proof {
            let target = server_spawned(st, view).state;
            assert(self@.clients == target.clients);
            assert(self@.servers == target.servers);
            assert(self@.descriptors == target.descriptors);
            let base = with_client(with_server(st, sid.0, server@), cid.0, client@);
            assert(state_wf(base));
            assert(self@ == (GlobalView { descriptors: target.descriptors, ..base }));
        }
    }
}

} // verus!
