//! What clients say.

use crate::documents::note;
use crate::error::Error;
use crate::events::{read_notification, ClientEvent};
use crate::ids::{ClientId, ServerId};
use crate::message::{IdView, Message, Notification, NotificationView, Request, RequestId, Response};
use crate::model::{
    can_be_refused, can_leave, can_notify, can_request, client_event, client_initialized,
    client_notification, client_notification_inner, client_request, client_response, hands_over,
    is_abandoned, is_client_of, is_found, is_primary, joins_safely, primary_ready, server_wf,
    state_after_leave, state_wf, with_client, ActionView, ClientEventView, ClientView, GlobalView,
    ServerView,
};
use crate::params::print_cancel;
use crate::peers::{read_grant, Grant};
use crate::server::{
    action_views, follows, lemma_client_insert, lemma_client_kept, lemma_server_insert,
    lemma_server_kept, Action, GlobalState,
};
use crate::table::{map_get, map_get_mut};
use crate::text::same_text;
use vstd::prelude::*;

verus! {

impl GlobalState {
    /// A client sends a request. It goes on to the server, except that a client that wants to shut
    /// down is answered here.
    pub fn handle_client_request(&mut self, id: ClientId, req: Request, out: &mut Vec<Action>) -> (r:
        Result<(), Error>)
        requires
            state_wf(old(self)@),
            can_request(old(self)@, id.0, req@),
        ensures
            follows(
                client_request(old(self)@, id.0, req@),
                final(self)@,
                old(out)@,
                final(out)@,
                r,
            ),
            state_wf(final(self)@),
    {
        let ghost st = self@;
        let ghost start = action_views(out@);
        let sid: ServerId = match map_get(&self.client, &id.0) {
            Some(client) => client.server_id,
            None => {
                assert(action_views(out@) =~= start + Seq::<ActionView>::empty());
                return Err(Error::ClientNotFound);
            },
        };
        assert(st.clients.contains_key(id.0) && st.clients[id.0].server_id == sid.0);
        if same_text(req.method.as_str(), "shutdown") {
            let action = Action::ToClient(id, Message::Response(Response::null(req.id)));
            out.push(action);
            assert(action_views(out@) =~= start + seq![action@]);
            return Ok(());
        }
        let ghost map = self.server@;
        match map_get_mut(&mut self.server, &sid.0) {
            Some(server) => {
                let ghost before = server@;
                assert(st.servers.contains_key(sid.0) && st.servers[sid.0] == before);
                let sent: Request = server.send_request(id, req);
                let action = Action::ToServer(sid, Message::Request(sent));
                out.push(action);
                proof {
                    lemma_server_insert(map, sid.0, *server);
                    lemma_server_kept(st, sid.0, server@);
                    assert(action_views(out@) =~= start + seq![action@]);
                }
            },
            None => {
                assert(st.servers.contains_key(sid.0));
            },
        }
        Ok(())
    }

    /// A client answers a request of its server.
    pub fn handle_client_response(
        &mut self,
        id: ClientId,
        res: Response,
        out: &mut Vec<Action>,
    ) -> (r: Result<(), Error>)
        requires
            state_wf(old(self)@),
        ensures
            follows(
                client_response(old(self)@, id.0, res@),
                final(self)@,
                old(out)@,
                final(out)@,
                r,
            ),
            state_wf(final(self)@),
    {
        let ghost st = self@;
        let ghost start = action_views(out@);
        let ghost clients = self.client@;
        let ghost servers = self.server@;
        assert(action_views(out@) =~= start + Seq::<ActionView>::empty());
        let (sid, original): (ServerId, RequestId) = match map_get_mut(&mut self.client, &id.0) {
            Some(client) => {
                let ghost before = client@;
                assert(st.clients.contains_key(id.0) && st.clients[id.0] == before);
                let found: Option<RequestId> = client.take_request_id(&res.id);
                proof {
                    lemma_client_insert(clients, id.0, *client);
                    lemma_client_kept(st, id.0, client@);
                    if found is None {
                        lemma_same_client(st, id.0, client@, res@.id);
                    }
                }
                match found {
                    Some(original) => (client.server_id, original),
                    None => {
                        return Err(Error::RequestNotFound);
                    },
                }
            },
            None => {
                assert(self@.clients =~= st.clients);
                return Err(Error::ClientNotFound);
            },
        };
        let ghost heard = self@;
        let mut r: Result<(), Error> = Ok(());
        match map_get_mut(&mut self.server, &sid.0) {
            Some(server) => {
                let ghost before = server@;
                assert(st.servers.contains_key(sid.0) && st.servers[sid.0] == before);
                match server.take_pending(&original) {
                    Some(request) => {
                        let is_ok: bool = res.error.is_none();
                        let action = Action::ToServer(
                            sid,
                            Message::Response(res.readdressed(original)),
                        );
                        out.push(action);
                        assert(action_views(out@) =~= start + seq![action@]);
                        if is_ok {
                            let grant: Grant = read_grant(&request);
                            if matches!(grant, Grant::Invalid) {
                                r = Err(Error::InvalidParams(request.method));
                            }
                            server.grant(grant);
                        }
                    },
                    None => {
                        assert(server@ == before);
                    },
                }
                proof {
                    lemma_server_insert(servers, sid.0, *server);
                    lemma_server_kept(heard, sid.0, server@);
                    assert(heard.servers.insert(sid.0, before) =~= heard.servers);
                }
            },
            None => {
                assert(st.servers.contains_key(sid.0));
            },
        }
        r
    }
}

/// A response that answers nothing leaves the client as it was.
proof fn lemma_same_client(st: GlobalView, id: u32, after: ClientView, response: IdView)
    requires
        st.clients.contains_key(id),
        crate::model::answered(st.clients[id], response) is None,
        after == crate::model::client_after_response(st.clients[id], response),
    ensures
        with_client(st, id, after) == st,
{
    let before = st.clients[id];
    assert(after.request_ids =~= before.request_ids);
    assert(after == before);
    assert(st.clients.insert(id, after) =~= st.clients);
}

impl GlobalState {
    /// A client is ready: it joins the connections of its server.
    fn join(&mut self, id: ClientId, not: Notification, out: &mut Vec<Action>)
        requires
            state_wf(old(self)@),
            old(self)@.clients.contains_key(id.0),
            ({
                let client = old(self)@.clients[id.0];
                let server = old(self)@.servers[client.server_id];
                is_primary(server, id.0) ==> client.next_request_id + server.pending.len()
                    <= i32::MAX
            }),
        ensures
            follows(
                client_initialized(old(self)@, id.0, not@),
                final(self)@,
                old(out)@,
                final(out)@,
                Ok(()),
            ),
            state_wf(final(self)@),
    {
        let ghost st = self@;
        let ghost start = action_views(out@);
        let ghost clients = self.client@;
        let ghost servers = self.server@;
        let sid: ServerId = match map_get_mut(&mut self.client, &id.0) {
            Some(client) => {
                client.is_initialized = true;
                proof {
                    assert(client@ == (ClientView { is_initialized: true, ..st.clients[id.0] }));
                    lemma_client_insert(clients, id.0, *client);
                    lemma_client_kept(st, id.0, client@);
                }
                client.server_id
            },
            None => {
                assert(false);
                return ;
            },
        };
        let ghost marked = self@;
        let ghost before = st.servers[sid.0];
        let mut primary: bool = false;
        match map_get_mut(&mut self.server, &sid.0) {
            Some(server) => {
                assert(server@ == before);
                primary = server.connections.len() == 0 || server.connections[0] == id;
                server.connections.push(id);
                assert(server@.connections =~= before.connections.push(id.0));
                if !server.is_initialized {
                    server.is_initialized = true;
                    let action = Action::ToServer(sid, Message::Notification(not));
                    out.push(action);
                    assert(action_views(out@) =~= start + seq![action@]);
                } else {
                    assert(action_views(out@) =~= start + Seq::<ActionView>::empty());
                }
                proof {
                    lemma_server_insert(servers, sid.0, *server);
                    lemma_server_kept(marked, sid.0, server@);
                }
            },
            None => {
                assert(st.servers.contains_key(sid.0));
            },
        }
        if primary {
            self.new_primary(sid, out);
            assert(action_views(out@) =~= start + client_initialized(st, id.0, not@).actions);
        }
    }

    /// A client notifies its server of something, as long as that is accepted.
    fn handle_client_notification_inner(
        &mut self,
        id: ClientId,
        not: Notification,
        event: &ClientEvent,
        out: &mut Vec<Action>,
    ) -> (r: Result<(), Error>)
        requires
            state_wf(old(self)@),
            joins_safely(old(self)@, id.0, event@),
        ensures
            exists|found: Option<i32>| #[trigger]
                is_found(old(self)@, id.0, event@, found) && follows(
                    client_notification_inner(old(self)@, id.0, not@, event@, found),
                    final(self)@,
                    old(out)@,
                    final(out)@,
                    r,
                ),
            r is Err ==> final(out)@ == old(out)@,
            state_wf(final(self)@),
    {
        let ghost st = self@;
        let ghost start = action_views(out@);
        let ghost clients = self.client@;
        let ghost servers = self.server@;
        let ghost any: Option<i32> = None;
        assert(action_views(out@) =~= start + Seq::<ActionView>::empty());
        let sid: ServerId = match map_get(&self.client, &id.0) {
            Some(client) => client.server_id,
            None => {
                assert(is_found(st, id.0, event@, any));
                return Err(Error::ClientNotFound);
            },
        };
        assert(st.clients.contains_key(id.0) && st.clients[id.0].server_id == sid.0);
        assert(st.servers.contains_key(sid.0));
        let ghost before = st.servers[sid.0];
        let mut changed: Notification = not;
        match event {
            ClientEvent::Initialized => {
                self.join(id, changed, out);
                assert(is_found(st, id.0, event@, any));
                return Ok(());
            },
            ClientEvent::Configured => {
                let is_primary: bool = match map_get(&self.server, &sid.0) {
                    Some(server) => server.connections.len() == 0 || server.connections[0] == id,
                    None => true,
                };
                if !is_primary {
                    match map_get_mut(&mut self.client, &id.0) {
                        Some(client) => {
                            client.last_change_configuration_notification = Some(changed);
                            proof {
                                let kept = ClientView {
                                    last_configuration: Some(not@),
                                    ..st.clients[id.0]
                                };
                                assert(client@ == kept);
                                lemma_client_insert(clients, id.0, *client);
                                lemma_client_kept(st, id.0, client@);
                            }
                        },
                        None => {},
                    }
                    assert(is_found(st, id.0, event@, any));
                    return Ok(());
                }
            },
            ClientEvent::Invalid => {
                assert(is_found(st, id.0, event@, any));
                return Err(Error::InvalidParams(changed.method));
            },
            ClientEvent::Cancelled(request) => {
                let found: Option<i32> = match map_get(&self.server, &sid.0) {
                    Some(server) => server.get_server_request_id_from_client_request_id(
                        id,
                        request,
                    ),
                    None => None,
                };
                assert(is_found(st, id.0, event@, found));
                match found {
                    Some(k) => {
                        changed.params = print_cancel(k);
                        let action = Action::ToServer(sid, Message::Notification(changed));
                        out.push(action);
                        assert(action_views(out@) =~= start + seq![action@]);
                    },
                    None => {},
                }
                return Ok(());
            },
            _ => {},
        }
        assert(is_found(st, id.0, event@, any));
        match map_get_mut(&mut self.server, &sid.0) {
            Some(server) => {
                assert(server@ == before);
                let noted: Result<(), Error> = note(&mut server.document, id, event);
                proof {
                    assert(server_wf(server@));
                    assert(server@ == (ServerView {
                        documents: crate::model::documents_after(
                            before.documents,
                            id.0,
                            event@,
                        ).0,
                        ..before
                    }));
                    lemma_server_insert(servers, sid.0, *server);
                    lemma_server_kept(st, sid.0, server@);
                }
                match noted {
                    Ok(_) => {},
                    Err(e) => {
                        return Err(e);
                    },
                }
            },
            None => {
                assert(st.servers.contains_key(sid.0));
            },
        }
        let action = Action::ToServer(sid, Message::Notification(changed));
        out.push(action);
        assert(action_views(out@) =~= start + seq![action@]);
        Ok(())
    }

    /// A client notifies its server of something; `event` is what the notification says. A client
    /// whose notification is refused is dropped.
    pub fn handle_client_event(
        &mut self,
        id: ClientId,
        not: Notification,
        event: &ClientEvent,
        out: &mut Vec<Action>,
    ) -> (r: Result<(), Error>)
        requires
            state_wf(old(self)@),
            joins_safely(old(self)@, id.0, event@),
            can_be_refused(old(self)@, id.0, not@, event@),
        ensures
            exists|found: Option<i32>| #[trigger]
                is_found(old(self)@, id.0, event@, found) && follows(
                    client_notification(old(self)@, id.0, not@, event@, found),
                    final(self)@,
                    old(out)@,
                    final(out)@,
                    r,
                ),
            state_wf(final(self)@),
    {
        let ghost st = self@;
        let ghost start = out@;
        let result: Result<(), Error> = self.handle_client_notification_inner(id, not, event, out);
        let ghost found = choose|found: Option<i32>| #[trigger]
            is_found(st, id.0, event@, found) && follows(
                client_notification_inner(st, id.0, not@, event@, found),
                self@,
                start,
                out@,
                result,
            );
        assert(is_found(st, id.0, event@, found));
        if result.is_err() {
            proof {
                lemma_refused_can_leave(st, id.0, not@, event@, found);
            }
            let _dropped: Result<(), Error> = self.drop_client(id, out);
        }
        result
    }

    /// A client notifies its server of something. A client whose notification is refused is
    /// dropped; where it cannot be dropped, because the connection that has to take over from it is
    /// not there, that is all that comes of it, and the result is [`Error::PrimaryLost`].
    pub fn handle_client_notification(
        &mut self,
        id: ClientId,
        not: Notification,
        out: &mut Vec<Action>,
    ) -> (r: Result<(), Error>)
        requires
            state_wf(old(self)@),
            can_notify(old(self)@, id.0, not@),
        ensures
            exists|found: Option<i32>| #[trigger]
                is_found(old(self)@, id.0, client_event(not@), found) && follows(
                    client_notification(old(self)@, id.0, not@, client_event(not@), found),
                    final(self)@,
                    old(out)@,
                    final(out)@,
                    r,
                ),
            state_wf(final(self)@),
    {
        let ghost st = self@;
        let ghost start = out@;
        let event: ClientEvent = read_notification(&not);
        if self.may_leave(id) {
            return self.handle_client_event(id, not, &event, out);
        }
        let result: Result<(), Error> = self.handle_client_notification_inner(id, not, &event, out);
        let ghost found = choose|found: Option<i32>| #[trigger]
            is_found(st, id.0, event@, found) && follows(
                client_notification_inner(st, id.0, not@, event@, found),
                self@,
                start,
                out@,
                result,
            );
        assert(is_found(st, id.0, event@, found));
        if result.is_err() {
            proof {
                lemma_refused_can_leave(st, id.0, not@, event@, found);
                assert(action_views(out@) =~= action_views(start) + Seq::<ActionView>::empty());
            }
            return Err(Error::PrimaryLost);
        }
        result
    }
}

/// A notification that is refused does not bear on whether its client can leave.
pub(crate) proof fn lemma_refused_can_leave(
    st: GlobalView,
    id: u32,
    notification: NotificationView,
    event: ClientEventView,
    found: Option<i32>,
)
    requires
        state_wf(st),
        client_notification_inner(st, id, notification, event, found).result is Err,
    ensures
        client_notification_inner(st, id, notification, event, None).result is Err,
        can_leave(client_notification_inner(st, id, notification, event, found).state, id)
            == can_leave(st, id),
{
    let after = client_notification_inner(st, id, notification, event, found).state;
    if st.clients.contains_key(id) {
        let sid = st.clients[id].server_id;
        assert(st.servers.contains_key(sid));
        let left = state_after_leave(st, id);
        let later = state_after_leave(after, id);
        assert(after.clients == st.clients);
        assert(forall|c: u32| is_client_of(left, c, sid) == is_client_of(later, c, sid));
        assert(is_abandoned(left, sid) == is_abandoned(later, sid));
        assert(hands_over(st.servers[sid], id) == hands_over(after.servers[sid], id));
        assert(primary_ready(left, sid) == primary_ready(later, sid));
    }
}

} // verus!
