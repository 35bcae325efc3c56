//! What servers say.

use crate::error::Error;
use crate::ids::{ClientId, ServerId};
use crate::message::{
    copy_text, text_view, IdView, Message, MessageView, Notification, Request, RequestId, Response,
};
use crate::model::{
    announcements, awaits_initialization, can_ask, can_broadcast, drop_server, is_client_of,
    is_roster, readable_result, server_initialized, server_notification, server_request,
    server_response, state_wf, with_server, ActionView, ServerView,
};
use crate::params::{parse_initialize_result, parses_as_progress};
use crate::peers::{numbers, ServerState};
use crate::server::{
    action_views, follows, lemma_client_insert, lemma_client_kept, lemma_push, lemma_server_insert,
    lemma_server_kept, Action, GlobalState,
};
use crate::table::{map_get, map_get_mut};
use crate::text::{has_prefix, same_text};
use vstd::prelude::*;

verus! {

impl GlobalState {
    /// A server sends a request. What it asks about progress is answered here; anything else is
    /// kept until it is answered, and goes to the primary.
    pub fn handle_server_request(&mut self, id: ServerId, req: Request, out: &mut Vec<Action>) -> (r:
        Result<(), Error>)
        requires
            state_wf(old(self)@),
            can_ask(old(self)@, id.0, req@),
        ensures
            follows(
                server_request(old(self)@, id.0, req@),
                final(self)@,
                old(out)@,
                final(out)@,
                r,
            ),
            state_wf(final(self)@),
    {
        let ghost st = self@;
        let ghost start = action_views(out@);
        let ghost servers = self.server@;
        let mut first: Option<ClientId> = None;
        match map_get_mut(&mut self.server, &id.0) {
            None => {
                assert(action_views(out@) =~= start + Seq::<ActionView>::empty());
                return Err(Error::ServerNotFound);
            },
            Some(server) => {
                let ghost before = st.servers[id.0];
                assert(server@ == before);
                if has_prefix(req.method.as_str(), "window/workDoneProgress/") {
                    let action = Action::ToServer(id, Message::Response(Response::null(req.id)));
                    out.push(action);
                    assert(action_views(out@) =~= start + seq![action@]);
                    proof {
                        lemma_server_insert(servers, id.0, *server);
                        assert(st.servers.insert(id.0, before) =~= st.servers);
                    }
                    return Ok(());
                }
                if server.connections.len() > 0 {
                    first = Some(server.connections[0]);
                }
                server.keep_pending(req.copy());
                proof {
                    lemma_server_insert(servers, id.0, *server);
                    lemma_server_kept(st, id.0, server@);
                }
            },
        }
        let ghost kept = self@;
        match first {
            None => {
                assert(action_views(out@) =~= start + Seq::<ActionView>::empty());
            },
            Some(primary) => {
                let ghost clients = self.client@;
                match map_get_mut(&mut self.client, &primary.0) {
                    Some(client) => {
                        assert(client@ == st.clients[primary.0]);
                        let sent: Request = client.send_request(req);
                        let action = Action::ToClient(primary, Message::Request(sent));
                        out.push(action);
                        proof {
                            assert(action_views(out@) =~= start + seq![action@]);
                            lemma_client_insert(clients, primary.0, *client);
                            lemma_client_kept(kept, primary.0, client@);
                        }
                    },
                    None => {
                        assert(false);
                    },
                }
            },
        }
        Ok(())
    }

    /// A server notifies its clients of something: all of its connections are told. Progress is
    /// not passed on.
    pub fn handle_server_notification(
        &mut self,
        id: ServerId,
        not: Notification,
        out: &mut Vec<Action>,
    ) -> (r: Result<(), Error>)
        requires
            state_wf(old(self)@),
            can_broadcast(old(self)@, id.0, not@),
        ensures
            follows(
                server_notification(old(self)@, id.0, not@),
                final(self)@,
                old(out)@,
                final(out)@,
                r,
            ),
            state_wf(final(self)@),
    {
        let ghost st = self@;
        let ghost start = action_views(out@);
        assert(action_views(out@) =~= start + Seq::<ActionView>::empty());
        let server: &ServerState = match map_get(&self.server, &id.0) {
            Some(server) => server,
            None => {
                return Err(Error::ServerNotFound);
            },
        };
        assert(st.servers.contains_key(id.0) && st.servers[id.0] == server@);
        if same_text(not.method.as_str(), "$/progress") {
            if parses_as_progress(not.params.as_str()) {
                return Ok(());
            }
            return Err(Error::InvalidParams(not.method));
        }
        let ghost told = server_notification(st, id.0, not@).actions;
        assert(action_views(out@) =~= start + told.take(0));
        let mut i: usize = 0;
        while i < server.connections.len()
            invariant
                i <= server.connections.len(),
                told.len() == server.connections.len(),
                server@ == st.servers[id.0],
                st == self@,
                *self == *old(self),
                forall|j: int|
                    0 <= j < told.len() ==> #[trigger] told[j] == ActionView::ToClient(
                        st.servers[id.0].connections[j],
                        MessageView::Notification(not@),
                    ),
                action_views(out@) == start + told.take(i as int),
            decreases server.connections.len() - i,
        {
            let action = Action::ToClient(
                server.connections[i],
                Message::Notification(not.copy()),
            );
            proof {
                lemma_push(out@, action);
                assert(told[i as int] == action@);
                assert(told.take(i + 1) =~= told.take(i as int).push(action@));
            }
            out.push(action);
            assert(action_views(out@) =~= start + told.take(i + 1));
            i += 1;
        }
        assert(told.take(i as int) =~= told);
        Ok(())
    }
}

impl GlobalState {
    /// Tells the clients of a list how the initialization of their server went.
    fn announce(&self, order: &Vec<ClientId>, res: &Response, out: &mut Vec<Action>)
        requires
            forall|i: int| 0 <= i < order.len() ==> self@.clients.contains_key(#[trigger] order[i].0),
        ensures
            action_views(final(out)@) == action_views(old(out)@) + announcements(
                self@,
                numbers(order@),
                res@,
            ),
    {
        let ghost start = action_views(out@);
        let ghost told = announcements(self@, numbers(order@), res@);
        assert(action_views(out@) =~= start + told.take(0));
        let mut i: usize = 0;
        while i < order.len()
            invariant
                i <= order.len(),
                told == announcements(self@, numbers(order@), res@),
                forall|i: int|
                    0 <= i < order.len() ==> self@.clients.contains_key(#[trigger] order[i].0),
                action_views(out@) == start + told.take(i as int),
            decreases order.len() - i,
        {
            match map_get(&self.client, &order[i].0) {
                Some(client) => {
                    let answer: Response = res.readdressed(client.initialize_request_id.copy());
                    let action = Action::ToClient(order[i], Message::Response(answer));
                    proof {
                        lemma_push(out@, action);
                        assert(self@.clients[order[i as int].0] == client@);
                        assert(told[i as int] == action@);
                        assert(told.take(i + 1) =~= told.take(i as int).push(action@));
                    }
                    out.push(action);
                    assert(action_views(out@) =~= start + told.take(i + 1));
                },
                None => {
                    assert(self@.clients.contains_key(order[i as int].0));
                },
            }
            i += 1;
        }
        assert(told.take(i as int) =~= told);
    }

    /// The first response of a server says how its initialization went; `readable` is its result
    /// as far as it can be read. Every client that waits for it is told; a server that failed is
    /// dropped, and its clients with it.
    pub fn handle_initialize_response(
        &mut self,
        id: ServerId,
        res: Response,
        readable: Option<String>,
        out: &mut Vec<Action>,
    ) -> (r: Result<(), Error>)
        requires
            state_wf(old(self)@),
            awaits_initialization(old(self)@, id.0),
        ensures
            exists|roster: Seq<u32>, leavers: Seq<u32>|
                is_roster(roster, old(self)@, id.0) && is_roster(leavers, old(self)@, id.0)
                    && follows(
                    #[trigger] server_initialized(
                        old(self)@,
                        id.0,
                        res@,
                        text_view(readable),
                        roster,
                        leavers,
                    ),
                    final(self)@,
                    old(out)@,
                    final(out)@,
                    r,
                ),
            state_wf(final(self)@),
    {
        let ghost st = self@;
        let ghost start = action_views(out@);
        let clients: Vec<ClientId> = self.clients_of(id);
        let ghost roster = numbers(clients@);
        proof {
            assert forall|i: int| 0 <= i < clients.len() implies self@.clients.contains_key(
                #[trigger] clients[i].0,
            ) by {
                assert(roster[i] == clients[i].0);
                assert(roster.contains(roster[i]));
                assert(is_client_of(st, roster[i], id.0));
            }
        }
        self.announce(&clients, &res, out);
        let answer: Result<String, String> = match &res.error {
            Some(e) => Err(e.message.clone()),
            None => match copy_text(&readable) {
                Some(kept) => Ok(kept),
                None => Err("Invalid 'InitializeResult' from the server.".to_owned()),
            },
        };
        let ghost servers = self.server@;
        let ghost heard = with_server(
            st,
            id.0,
            crate::model::server_after_response(st.servers[id.0], res@.id),
        );
        match map_get_mut(&mut self.server, &id.0) {
            Some(server) => {
                assert(server@ == st.servers[id.0]);
                let _original: Option<(ClientId, RequestId)> = server.take_request_id(&res.id);
                assert(server@ == heard.servers[id.0]);
                match &answer {
                    Ok(kept) => {
                        server.initialize_result = Some(kept.clone());
                        assert(server@ == (ServerView {
                            initialize_result: Some(kept@),
                            ..heard.servers[id.0]
                        }));
                    },
                    Err(_) => {},
                }
                proof {
                    lemma_server_insert(servers, id.0, *server);
                    lemma_server_kept(st, id.0, server@);
                }
            },
            None => {
                assert(st.servers.contains_key(id.0));
            },
        }
        match answer {
            Ok(kept) => {
                proof {
                    let target = server_initialized(
                        st,
                        id.0,
                        res@,
                        text_view(readable),
                        roster,
                        roster,
                    );
                    assert(self@.servers =~= target.state.servers);
                    assert(follows(target, self@, old(out)@, out@, Ok(())));
                }
                Ok(())
            },
            Err(message) => {
                assert(self@ == heard);
                let ghost so_far = out@;
                self.drop_server(id, out);
                proof {
                    let leavers = choose|leavers: Seq<u32>| #[trigger]
                        is_roster(leavers, heard, id.0) && self@ == drop_server(
                            heard,
                            id.0,
                            leavers,
                        ).0 && action_views(out@) == action_views(so_far) + drop_server(
                            heard,
                            id.0,
                            leavers,
                        ).1;
                    assert(is_roster(leavers, st, id.0)) by {
                        assert forall|c: u32| #[trigger] leavers.contains(c) <==> is_client_of(
                            st,
                            c,
                            id.0,
                        ) by {
                            assert(is_client_of(st, c, id.0) == is_client_of(heard, c, id.0));
                        }
                    }
                    let target = server_initialized(
                        st,
                        id.0,
                        res@,
                        text_view(readable),
                        roster,
                        leavers,
                    );
                    assert(action_views(out@) =~= start + target.actions);
                }
                Err(Error::InitializationFailed(message))
            },
        }
    }

    /// A server answers a request. The first answer says how its initialization went; any other
    /// goes to the client that asked, under the id that the client gave the request.
    pub fn handle_server_response(&mut self, id: ServerId, res: Response, out: &mut Vec<Action>) -> (r:
        Result<(), Error>)
        requires
            state_wf(old(self)@),
        ensures
            awaits_initialization(old(self)@, id.0) ==> exists|
                roster: Seq<u32>,
                leavers: Seq<u32>,
            |
                is_roster(roster, old(self)@, id.0) && is_roster(leavers, old(self)@, id.0)
                    && follows(
                    #[trigger] server_initialized(
                        old(self)@,
                        id.0,
                        res@,
                        readable_result(res@),
                        roster,
                        leavers,
                    ),
                    final(self)@,
                    old(out)@,
                    final(out)@,
                    r,
                ),
            !awaits_initialization(old(self)@, id.0) ==> follows(
                server_response(old(self)@, id.0, res@),
                final(self)@,
                old(out)@,
                final(out)@,
                r,
            ),
            state_wf(final(self)@),
    {
        let ghost st = self@;
        let ghost start = action_views(out@);
        assert(action_views(out@) =~= start + Seq::<ActionView>::empty());
        let waits: bool = match map_get(&self.server, &id.0) {
            Some(server) => server.initialize_result.is_none(),
            None => {
                return Err(Error::ServerNotFound);
            },
        };
        assert(st.servers.contains_key(id.0));
        if waits {
            let readable: Option<String> = match &res.result {
                Some(result) => parse_initialize_result(result.as_str()),
                None => None,
            };
            return self.handle_initialize_response(id, res, readable, out);
        }
        let ghost servers = self.server@;
        let ghost before = st.servers[id.0];
        let ghost heard = with_server(
            st,
            id.0,
            crate::model::server_after_response(before, res@.id),
        );
        let mut asked: Option<(ClientId, RequestId)> = None;
        match map_get_mut(&mut self.server, &id.0) {
            Some(server) => {
                assert(server@ == before);
                asked = server.take_request_id(&res.id);
                proof {
                    lemma_server_insert(servers, id.0, *server);
                    lemma_server_kept(st, id.0, server@);
                    if asked is None {
                        lemma_not_asked(before, res@.id);
                        assert(st.servers.insert(id.0, before) =~= st.servers);
                    }
                }
            },
            None => {},
        }
        assert(self@ == heard);
        match asked {
            None => Err(Error::RequestNotFound),
            Some((client, original)) => {
                if map_get(&self.client, &client.0).is_none() {
                    return Err(Error::ClientGone);
                }
                let answer: Response = res.readdressed(original);
                let action = Action::ToClient(client, Message::Response(answer));
                out.push(action);
                assert(action_views(out@) =~= start + seq![action@]);
                Ok(())
            },
        }
    }
}

/// A response that belongs to no request changes nothing.
proof fn lemma_not_asked(server: ServerView, id: IdView)
    requires
        crate::model::asked(server, id) is None,
    ensures
        crate::model::server_after_response(server, id) == server,
{
    match id {
        IdView::Number(k) => {
            assert(server.request_ids.remove(k) =~= server.request_ids);
        },
        IdView::Text(_) => {},
    }
}

} // verus!
