//! How clients leave, and what becomes of their servers.

use crate::documents::{lemma_remove_document, OpenDocument};
use crate::error::Error;
use crate::ids::{ClientId, ServerId};
use crate::message::{Message, Notification, Request, RequestView};
use crate::model::{
    accepted, can_leave, client_after_all, client_after_send, client_wf, closings,
    distinct_documents, documents_of, documents_of_others, drop_client, drop_server, farewell,
    farewells, first_at, is_client_of, is_roster, new_primary, primary_ready, requests_to_client,
    server_drop, server_wf, state_after_leave, state_wf, without, ActionView, ClientView,
    GlobalView, OpenDocumentView, ServerView,
};
use crate::params::{close_params, closes, print_did_close};
use crate::peers::{lemma_first_at, numbers, ClientState, ServerState};
use crate::server::{
    action_views, follows, lemma_client_insert, lemma_client_remove, lemma_empty_roster, lemma_push,
    lemma_push_contains, lemma_server_insert, lemma_server_remove, Action, GlobalState,
};
use crate::table::{map_get, map_get_mut, map_insert, map_remove};
use vstd::prelude::*;

verus! {

/// Sending the pending requests one by one comes to sending them all.
proof fn lemma_one_more(client: ClientView, requests: Seq<RequestView>, n: int)
    requires
        0 <= n < requests.len(),
        client.next_request_id + requests.len() <= i32::MAX,
        client.next_request_id >= 0,
    ensures
        client_after_all(client, requests.take(n + 1)) == client_after_send(
            client_after_all(client, requests.take(n)),
            requests[n].id,
        ),
{
    let a = client_after_all(client, requests.take(n + 1));
    let b = client_after_send(client_after_all(client, requests.take(n)), requests[n].id);
    assert(a.request_ids =~= b.request_ids);
}

impl GlobalState {
    /// A server has a new primary. The configuration of the primary goes to the server, and every
    /// pending request of the server goes to the primary.
    pub(crate) fn new_primary(&mut self, id: ServerId, out: &mut Vec<Action>)
        requires
            state_wf(old(self)@),
            old(self)@.servers.contains_key(id.0),
            primary_ready(old(self)@, id.0),
        ensures
            final(self)@ == new_primary(old(self)@, id.0).0,
            action_views(final(out)@) == action_views(old(out)@) + new_primary(
                old(self)@,
                id.0,
            ).1,
            state_wf(final(self)@),
    {
        let ghost st = self@;
        let ghost start = action_views(out@);
        let server: &ServerState = map_get(&self.server, &id.0).unwrap();
        let first: ClientId = server.connections[0];
        let ghost pending = server@.pending;
        let ghost before = st.clients[first.0];
        let mut client: ClientState = map_remove(&mut self.client, &first.0).unwrap();
        proof {
            assert(client@ == before);
        }
        match client.last_change_configuration_notification.take() {
            Some(notification) => {
                let action = Action::ToServer(id, Message::Notification(notification));
                proof {
                    lemma_push(out@, action);
                }
                out.push(action);
            },
            None => {},
        }
        let ghost base = ClientView { last_configuration: None, ..before };
        let ghost told = crate::model::kept_configuration(id.0, before);
        proof {
            assert(action_views(out@) =~= start + told);
            assert(client_after_all(base, pending.take(0)).request_ids =~= base.request_ids);
            assert(client@ == base);
            assert(requests_to_client(first.0, before.next_request_id, pending.take(0)) =~= Seq::<
                ActionView,
            >::empty());
        }
        let mut i: usize = 0;
        while i < server.pending_server_requests.len()
            invariant
                i <= server.pending_server_requests.len(),
                pending == server@.pending,
                0 <= base.next_request_id,
                base.next_request_id + pending.len() <= i32::MAX,
                base.next_request_id == before.next_request_id,
                client_wf(client@),
                client@ == client_after_all(base, pending.take(i as int)),
                action_views(out@) == start + told + requests_to_client(
                    first.0,
                    before.next_request_id,
                    pending.take(i as int),
                ),
            decreases server.pending_server_requests.len() - i,
        {
            let ghost sent = requests_to_client(
                first.0,
                before.next_request_id,
                pending.take(i as int),
            );
            proof {
                assert(server.pending_server_requests@[i as int]@ == pending[i as int]);
                lemma_one_more(base, pending, i as int);
            }
            let request: Request = client.send_request(server.pending_server_requests[i].copy());
            let action = Action::ToClient(first, Message::Request(request));
            proof {
                lemma_push(out@, action);
                assert(requests_to_client(
                    first.0,
                    before.next_request_id,
                    pending.take(i + 1),
                ) =~= sent.push(action@));
            }
            out.push(action);
            assert(action_views(out@) =~= start + told + sent.push(action@));
            i += 1;
        }
        proof {
            assert(pending.take(i as int) =~= pending);
            lemma_client_remove(old(self).client@, first.0);
            lemma_client_insert(self.client@, first.0, client);
        }
        map_insert(&mut self.client, first.0, client);
        proof {
            assert(self@.clients =~= new_primary(st, id.0).0.clients);
            assert(action_views(out@) =~= start + new_primary(st, id.0).1);
        }
    }
}

impl GlobalState {
    /// Says farewell to a client and forgets it.
    fn part_with(&mut self, id: ClientId, out: &mut Vec<Action>) -> (client: Option<ClientState>)
        ensures
            final(self)@ == (GlobalView {
                clients: old(self)@.clients.remove(id.0),
                ..old(self)@
            }),
            match client {
                Some(c) => {
                    &&& old(self)@.clients.contains_key(id.0)
                    &&& c@ == old(self)@.clients[id.0]
                    &&& action_views(final(out)@) == action_views(old(out)@) + farewell(id.0)
                },
                None => {
                    &&& !old(self)@.clients.contains_key(id.0)
                    &&& final(out)@ == old(out)@
                },
            },
    {
        proof {
            lemma_client_remove(self.client@, id.0);
        }
        match map_remove(&mut self.client, &id.0) {
            Some(client) => {
                let exit = Notification {
                    method: "$/exit".to_owned(),
                    params: "null".to_owned(),
                };
                out.push(Action::ToClient(id, Message::Notification(exit)));
                out.push(Action::CloseClient(id));
                proof {
                    assert(action_views(out@) =~= action_views(old(out)@) + farewell(id.0));
                }
                Some(client)
            },
            None => None,
        }
    }

    /// Drops a server and all its clients.
    pub(crate) fn drop_server(&mut self, id: ServerId, out: &mut Vec<Action>)
        requires
            state_wf(old(self)@),
            old(self)@.servers.contains_key(id.0),
        ensures
            exists|leavers: Seq<u32>| #[trigger]
                is_roster(leavers, old(self)@, id.0) && final(self)@ == drop_server(
                    old(self)@,
                    id.0,
                    leavers,
                ).0 && action_views(final(out)@) == action_views(old(out)@) + drop_server(
                    old(self)@,
                    id.0,
                    leavers,
                ).1,
            state_wf(final(self)@),
    {
        let ghost st = self@;
        let ghost start = action_views(out@);
        let clients: Vec<ClientId> = self.clients_of(id);
        let ghost leavers = numbers(clients@);
        proof {
            lemma_server_remove(self.server@, id.0);
        }
        let server: Option<ServerState> = map_remove(&mut self.server, &id.0);
        let ghost bare = GlobalView { servers: st.servers.remove(id.0), ..st };
        proof {
            assert(self@ == bare);
            assert(bare.clients.remove_keys(leavers.take(0).to_set()) =~= bare.clients);
            assert(action_views(out@) =~= start + farewells(leavers.take(0)));
        }
        let mut i: usize = 0;
        while i < clients.len()
            invariant
                i <= clients.len(),
                leavers == numbers(clients@),
                leavers.no_duplicates(),
                bare == (GlobalView { servers: st.servers.remove(id.0), ..st }),
                self@ == (GlobalView {
                    clients: bare.clients.remove_keys(leavers.take(i as int).to_set()),
                    ..bare
                }),
                action_views(out@) == start + farewells(leavers.take(i as int)),
                forall|c: u32| #[trigger] leavers.contains(c) ==> st.clients.contains_key(c),
            decreases clients.len() - i,
        {
            let ghost gone = leavers.take(i as int);
            let ghost now = self@;
            proof {
                let c = leavers[i as int];
                assert(leavers.contains(c));
                assert(!gone.contains(c)) by {
                    if gone.contains(c) {
                        let j = choose|j: int| 0 <= j < gone.len() && gone[j] == c;
                        assert(leavers[j] == leavers[i as int]);
                    }
                }
                assert(leavers.take(i + 1).drop_last() =~= gone);
                assert(leavers.take(i + 1) =~= gone.push(c));
                assert forall|k: u32| #[trigger] leavers.take(i + 1).to_set().contains(k)
                    <==> gone.to_set().contains(k) || k == c by {
                    lemma_push_contains(gone, c, k);
                }
                assert(now.clients.contains_key(c));
            }
            let _parted: Option<ClientState> = self.part_with(clients[i], out);
            proof {
                assert(self@.clients =~= bare.clients.remove_keys(
                    leavers.take(i + 1).to_set(),
                ));
                assert(action_views(out@) =~= start + farewells(leavers.take(i + 1)));
            }
            i += 1;
        }
        proof {
            assert(leavers.take(i as int) =~= leavers);
            lemma_push(out@, Action::KillServer(id));
        }
        out.push(Action::KillServer(id));
        proof {
            let target = drop_server(st, id.0, leavers);
            assert(self@ == target.0);
            assert(action_views(out@) =~= start + target.1);
            assert(is_roster(leavers, st, id.0));
            assert forall|c: u32| #[trigger] self@.clients.contains_key(c) implies client_wf(
                self@.clients[c],
            ) && self@.servers.contains_key(self@.clients[c].server_id) by {
                assert(st.clients.contains_key(c));
                assert(!leavers.contains(c)) by {
                    if leavers.contains(c) {
                        assert(leavers.to_set().contains(c));
                    }
                }
                assert(!is_client_of(st, c, id.0));
            }
            assert forall|k: u32| #[trigger] self@.servers.contains_key(k) implies server_wf(
                self@.servers[k],
            ) by {
                assert(st.servers.contains_key(k));
            }
        }
    }
}

/// What a server is told of some documents says, when it is read, that they are closed.
pub open spec fn all_close(documents: Seq<OpenDocumentView>) -> bool {
    forall|i: int|
        0 <= i < documents.len() ==> closes(
            close_params(documents[i].uri),
            (#[trigger] documents[i]).uri,
        )
}

impl ServerState {
    /// Closes the documents that a client has open, and tells the server `sid` so.
    fn close_documents(&mut self, sid: ServerId, id: ClientId, out: &mut Vec<Action>)
        requires
            distinct_documents(old(self)@.documents),
        ensures
            final(self)@ == (ServerView {
                documents: documents_of_others(old(self)@.documents, id.0),
                ..old(self)@
            }),
            distinct_documents(final(self)@.documents),
            action_views(final(out)@) == action_views(old(out)@) + closings(
                sid.0,
                documents_of(old(self)@.documents, id.0),
            ),
            all_close(documents_of(old(self)@.documents, id.0)),
    {
        let ghost before = self@;
        let ghost start = action_views(out@);
        let ghost all = before.documents;
        let ghost mut seen: int = 0;
        let mut i: usize = 0;
        proof {
            assert(all.take(0) =~= Seq::<OpenDocumentView>::empty());
            assert(all =~= documents_of_others(all.take(0), id.0) + all.skip(0));
            assert(action_views(out@) =~= start + closings(
                sid.0,
                documents_of(all.take(0), id.0),
            ));
        }
        while i < self.document.len()
            invariant
                0 <= seen <= all.len(),
                i <= self.document.len(),
                i == documents_of_others(all.take(seen), id.0).len(),
                self@ == (ServerView {
                    documents: documents_of_others(all.take(seen), id.0) + all.skip(seen),
                    ..before
                }),
                distinct_documents(self@.documents),
                action_views(out@) == start + closings(
                    sid.0,
                    documents_of(all.take(seen), id.0),
                ),
                all_close(documents_of(all.take(seen), id.0)),
            decreases all.len() - seen,
        {
            let ghost others = documents_of_others(all.take(seen), id.0);
            let ghost own = documents_of(all.take(seen), id.0);
            proof {
                assert(self@.documents[i as int] == all[seen]);
                assert(all.take(seen + 1).drop_last() =~= all.take(seen));
            }
            if self.document[i].opened_by == id {
                let ghost list = self@.documents;
                let closed: OpenDocument = self.document.remove(i);
                proof {
                    assert(self@.documents =~= list.remove(i as int));
                    assert(list.remove(i as int) =~= others + all.skip(seen + 1));
                    lemma_remove_document(list, i as int);
                }
                let notification = Notification {
                    method: "textDocument/didClose".to_owned(),
                    params: print_did_close(closed.uri.as_str()),
                };
                let action = Action::ToServer(sid, Message::Notification(notification));
                proof {
                    lemma_push(out@, action);
                    assert(closings(sid.0, own.push(all[seen])) =~= closings(sid.0, own).push(
                        action@,
                    ));
                }
                out.push(action);
                assert(action_views(out@) =~= start + closings(sid.0, own.push(all[seen])));
            } else {
                assert(self@.documents =~= others.push(all[seen]) + all.skip(seen + 1));
                i += 1;
            }
            proof {
                seen = seen + 1;
            }
        }
        proof {
            assert(self@.documents.len() == self.document.len());
            assert(all.take(seen) =~= all);
            assert(all.skip(seen) =~= Seq::<OpenDocumentView>::empty());
            assert(self@.documents =~= documents_of_others(all, id.0));
        }
    }

    /// Takes a client off the connections.
    fn disconnect(&mut self, id: ClientId)
        ensures
            final(self)@ == (ServerView {
                connections: without(old(self)@.connections, id.0),
                ..old(self)@
            }),
    {
        let ghost list = self@.connections;
        let mut i: usize = 0;
        proof {
            assert(list.skip(0) =~= list);
        }
        while i < self.connections.len()
            invariant
                i <= self.connections.len(),
                *self == *old(self),
                list == self@.connections,
                first_at(list, id.0) == i + first_at(list.skip(i as int), id.0),
            decreases self.connections.len() - i,
        {
            proof {
                assert(list.skip(i as int)[0] == list[i as int]);
                assert(list.skip(i as int).skip(1) =~= list.skip(i + 1));
            }
            if self.connections[i] == id {
                let _gone: ClientId = self.connections.remove(i);
                assert(self@.connections =~= list.remove(i as int));
                return ;
            }
            i += 1;
        }
    }
}

impl GlobalState {
    /// Whether a client can leave: if another connection is to take over from it, that one is
    /// there and can take on all that is pending.
    pub fn may_leave(&self, id: ClientId) -> (yes: bool)
        requires
            state_wf(self@),
        ensures
            yes == can_leave(self@, id.0),
    {
        let client: &ClientState = match map_get(&self.client, &id.0) {
            Some(client) => client,
            None => {
                return true;
            },
        };
        let sid: ServerId = client.server_id;
        let server: &ServerState = match map_get(&self.server, &sid.0) {
            Some(server) => server,
            None => {
                return true;
            },
        };
        let ghost st = self@;
        let ghost after = state_after_leave(st, id.0);
        assert(st.clients.contains_key(id.0) && st.clients[id.0].server_id == sid.0);
        assert(st.servers.contains_key(sid.0) && st.servers[sid.0] == server@);
        if server.connections.len() < 2 || server.connections[0] != id {
            return true;
        }
        let clients: Vec<ClientId> = self.clients_of(sid);
        proof {
            lemma_last_client(st, sid.0, id.0, numbers(clients@));
        }
        if server.initialize_result.is_none() && clients.len() == 1 {
            return true;
        }
        proof {
            lemma_first_at(server@.connections, id.0);
            assert(first_at(server@.connections, id.0) == 0);
            assert(after.servers[sid.0].connections[0] == server@.connections[1]);
            assert(after.servers[sid.0].pending == server@.pending);
        }
        let next: ClientId = server.connections[1];
        if next == id {
            return false;
        }
        match map_get(&self.client, &next.0) {
            Some(heir) => {
                assert(st.clients.contains_key(next.0) && st.clients[next.0] == heir@);
                server.pending_server_requests.len() <= (i32::MAX - heir.next_request_id) as usize
            },
            None => false,
        }
    }

    /// Drops a client. Its connection and its documents are closed. A server that never got
    /// initialized goes with its last client; otherwise the next oldest connection takes over from
    /// a primary.
    pub fn drop_client(&mut self, id: ClientId, out: &mut Vec<Action>) -> (r: Result<(), Error>)
        requires
            state_wf(old(self)@),
            can_leave(old(self)@, id.0),
        ensures
            follows(drop_client(old(self)@, id.0), final(self)@, old(out)@, final(out)@, r),
            r is Ok ==> all_close(
                documents_of(
                    old(self)@.servers[old(self)@.clients[id.0].server_id].documents,
                    id.0,
                ),
            ),
            state_wf(final(self)@),
    {
        let ghost st = self@;
        let ghost start = action_views(out@);
        let client: ClientState = match self.part_with(id, out) {
            Some(client) => client,
            None => {
                proof {
                    assert(self@.clients =~= st.clients);
                    assert(action_views(out@) =~= start + Seq::<ActionView>::empty());
                }
                return Err(Error::ClientNotFound);
            },
        };
        let sid: ServerId = client.server_id;
        let ghost server_before = st.servers[sid.0];
        let ghost map = self.server@;
        assert(st.clients.contains_key(id.0));
        assert(st.servers.contains_key(sid.0));
        let mut hands_over: bool = false;
        let mut waits: bool = false;
        match map_get_mut(&mut self.server, &sid.0) {
            Some(server) => {
                assert(server@ == server_before);
                hands_over = server.connections.len() > 1 && server.connections[0] == id;
                waits = server.initialize_result.is_none();
                server.disconnect(id);
                server.close_documents(sid, id, out);
                proof {
                    lemma_server_insert(map, sid.0, *server);
                }
            },
            None => {
                assert(false);
            },
        }
        let ghost after = state_after_leave(st, id.0);
        let ghost actions = farewell(id.0) + closings(
            sid.0,
            documents_of(server_before.documents, id.0),
        );
        proof {
            assert(self@ == after);
            assert(action_views(out@) =~= start + actions);
            lemma_leave_keeps_wf(st, id.0, self@);
        }
        let remaining: Vec<ClientId> = self.clients_of(sid);
        proof {
            lemma_empty_roster(after, sid.0, numbers(remaining@));
        }
        if waits && remaining.len() == 0 {
            let ghost so_far = out@;
            self.drop_server(sid, out);
            proof {
                let leavers = choose|leavers: Seq<u32>| #[trigger]
                    is_roster(leavers, after, sid.0) && self@ == drop_server(
                        after,
                        sid.0,
                        leavers,
                    ).0 && action_views(out@) == action_views(so_far) + drop_server(
                        after,
                        sid.0,
                        leavers,
                    ).1;
                lemma_empty_roster(after, sid.0, leavers);
                assert(leavers =~= Seq::<u32>::empty());
                assert(after.clients.remove_keys(leavers.to_set()) =~= after.clients);
                assert(drop_server(after, sid.0, leavers).1 =~= seq![
                    ActionView::KillServer(sid.0),
                ]);
                assert(action_views(out@) =~= start + (actions + seq![
                    ActionView::KillServer(sid.0),
                ]));
            }
        } else if hands_over {
            let ghost so_far = out@;
            self.new_primary(sid, out);
            proof {
                assert(action_views(out@) =~= start + (actions + new_primary(after, sid.0).1));
            }
        }
        Ok(())
    }

    /// The process of a server has ended: the server and its clients are dropped.
    pub fn handle_server_drop(&mut self, id: ServerId, out: &mut Vec<Action>) -> (r: Result<
        (),
        Error,
    >)
        requires
            state_wf(old(self)@),
        ensures
            old(self)@.servers.contains_key(id.0) ==> exists|leavers: Seq<u32>| #[trigger]
                is_roster(leavers, old(self)@, id.0) && follows(
                    server_drop(old(self)@, id.0, leavers),
                    final(self)@,
                    old(out)@,
                    final(out)@,
                    r,
                ),
            !old(self)@.servers.contains_key(id.0) ==> follows(
                accepted(old(self)@, Seq::empty()),
                final(self)@,
                old(out)@,
                final(out)@,
                r,
            ),
            state_wf(final(self)@),
    {
        let ghost st = self@;
        let ghost start = out@;
        if map_get(&self.server, &id.0).is_some() {
            assert(st.servers.contains_key(id.0));
            self.drop_server(id, out);
            proof {
                let leavers = choose|leavers: Seq<u32>| #[trigger]
                    is_roster(leavers, st, id.0) && self@ == drop_server(st, id.0, leavers).0
                        && action_views(out@) == action_views(start) + drop_server(
                        st,
                        id.0,
                        leavers,
                    ).1;
                assert(follows(server_drop(st, id.0, leavers), self@, start, out@, Ok(())));
            }
        } else {
            assert(action_views(out@) =~= action_views(start) + Seq::<ActionView>::empty());
        }
        Ok(())
    }
}

/// A client is the only one of its server if and only if a list of all of them has one item.
proof fn lemma_last_client(st: GlobalView, sid: u32, id: u32, roster: Seq<u32>)
    requires
        is_roster(roster, st, sid),
        is_client_of(st, id, sid),
        st.servers.contains_key(sid),
    ensures
        roster.len() == 1 <==> forall|c: u32| !is_client_of(state_after_leave(st, id), c, sid),
{
    let after = state_after_leave(st, id);
    assert(roster.contains(id));
    if roster.len() == 1 {
        assert forall|c: u32| !is_client_of(after, c, sid) by {
            if is_client_of(after, c, sid) {
                assert(is_client_of(st, c, sid));
                assert(roster.contains(c));
                assert(roster[0] == c && roster[0] == id);
            }
        }
    } else {
        let other = if roster[0] == id { roster[1] } else { roster[0] };
        assert(roster.contains(other));
        assert(is_client_of(st, other, sid));
        assert(other != id);
        assert(is_client_of(after, other, sid));
    }
}

/// The state is still well formed after a client has left.
pub(crate) proof fn lemma_leave_keeps_wf(st: GlobalView, id: u32, after: GlobalView)
    requires
        state_wf(st),
        st.clients.contains_key(id),
        after == state_after_leave(st, id),
        distinct_documents(after.servers[st.clients[id].server_id].documents),
    ensures
        state_wf(after),
{
    let sid = st.clients[id].server_id;
    assert(st.servers.contains_key(sid));
    assert forall|c: u32| #[trigger] after.clients.contains_key(c) implies client_wf(
        after.clients[c],
    ) && after.servers.contains_key(after.clients[c].server_id) by {
        assert(st.clients.contains_key(c));
    }
    assert forall|s: u32| #[trigger] after.servers.contains_key(s) implies server_wf(
        after.servers[s],
    ) by {
        assert(st.servers.contains_key(s));
        let server = st.servers[sid];
        assert(server_wf(server));
    }
}

} // verus!
