//! Clients join their server in the order in which they become ready.

use crate::laws::{enabled, outcome, EventView};
use crate::laws::leaving::{
    hands_everything_over, has_been_asked, is_list_without, law_leaving, lemma_handover,
};
use crate::laws::passing::{same_daemon, same_other_clients, same_other_servers};
use crate::laws::runs::{
    after_run, fresh, is_orderly_run, is_run, law_every_state_is_settled, lemma_only_spawning_adds,
};
use crate::laws::settled::{lemma_refused_keeps_wf, orderly, settled, settled_server};
use crate::message::{MessageView, NotificationView};
use crate::model::{
    can_leave, client_notification, client_notification_inner, is_client_of, joins_safely,
    new_primary, state_wf, with_client, with_server, ActionView, ClientEventView, ClientView,
    GlobalView, ServerView,
};
use vstd::prelude::*;

verus! {

/// A client that is ready stands behind all connections of its server from before, which keep their
/// order. The server hears of it from the first client only. If it is the only connection, it takes
/// over all that has been waiting. Nothing else changes and nobody else hears of it.
pub proof fn law_ready_client_joins_last(
    st: GlobalView,
    id: u32,
    notification: NotificationView,
    found: Option<i32>,
)
    requires
        st.clients.contains_key(id),
        st.servers.contains_key(st.clients[id].server_id),
        joins_safely(st, id, ClientEventView::Initialized),
    ensures
        ({
            let client = st.clients[id];
            let sid = client.server_id;
            let server = st.servers[sid];
            let said = ClientEventView::Initialized;
            let joined = client_notification(st, id, notification, said, found);
            let after = joined.state.servers[sid];
            let told: int = if server.is_initialized { 0 } else { 1 };
            &&& joined.result is Ok
            &&& after.connections.len() == server.connections.len() + 1
            &&& forall|i: int|
                0 <= i < server.connections.len() ==> #[trigger] after.connections[i]
                    == server.connections[i]
            &&& after.connections[server.connections.len() as int] == id
            &&& after == (ServerView {
                connections: after.connections,
                is_initialized: true,
                ..server
            })
            &&& joined.state.servers.contains_key(sid)
            &&& joined.state.clients.contains_key(id)
            &&& same_other_servers(st, joined.state, sid)
            &&& same_other_clients(st, joined.state, id)
            &&& same_daemon(st, joined.state)
            &&& !server.is_initialized ==> joined.actions.len() > 0 && joined.actions[0]
                == ActionView::ToServer(sid, MessageView::Notification(notification))
            &&& server.connections.len() > 0 && server.connections[0] != id ==> {
                &&& joined.actions.len() == told
                &&& joined.state.clients[id] == (ClientView { is_initialized: true, ..client })
            }
            &&& server.connections.len() == 0 || server.connections[0] == id ==> {
                let ready = ClientView { is_initialized: true, ..client };
                &&& hands_everything_over(
                    joined.actions.skip(told),
                    sid,
                    id,
                    ready,
                    server.pending,
                )
                &&& has_been_asked(ready, joined.state.clients[id], server.pending)
            }
        }),
{
    let client = st.clients[id];
    let sid = client.server_id;
    let server = st.servers[sid];
    let said = ClientEventView::Initialized;
    let joined = client_notification(st, id, notification, said, found);
    let told: int = if server.is_initialized { 0 } else { 1 };
    let ready = with_server(
        with_client(st, id, ClientView { is_initialized: true, ..client }),
        sid,
        ServerView {
            connections: server.connections.push(id),
            is_initialized: true,
            ..server
        },
    );
    if server.connections.len() == 0 || server.connections[0] == id {
        assert(server.connections.push(id)[0] == id);
        lemma_handover(ready, sid);
        assert(joined.actions.skip(told) =~= new_primary(ready, sid).1);
    }
}

/// Two connections of the server `sid` that are there before and after something happened stand in
/// the same order, and whoever has come stands behind those that were there.
pub open spec fn keeps_order(before: Seq<u32>, after: Seq<u32>) -> bool {
    forall|i: int, j: int|
        0 <= i < j < after.len() && #[trigger] before.contains(#[trigger] after[j])
            ==> stands_before(before, #[trigger] after[i], after[j])
}

/// `a` stands before `b` in a list.
pub open spec fn stands_before(list: Seq<u32>, a: u32, b: u32) -> bool {
    exists|i: int, j: int|
        0 <= i < j < list.len() && #[trigger] list[i] == a && #[trigger] list[j] == b
}

/// Whatever happens, the connections of a server keep their order, and a client that becomes ready
/// stands behind all of them.
pub proof fn law_connections_keep_their_order(st: GlobalView, event: EventView, sid: u32)
    requires
        state_wf(st),
        settled(st),
        enabled(st, event),
        orderly(st, event),
        st.servers.contains_key(sid),
        outcome(st, event).state.servers.contains_key(sid),
    ensures
        keeps_order(
            st.servers[sid].connections,
            outcome(st, event).state.servers[sid].connections,
        ),
        forall|c: u32| #[trigger]
            outcome(st, event).state.servers[sid].connections.contains(c) ==> {
                ||| st.servers[sid].connections.contains(c)
                ||| event matches EventView::ClientNotification(id, _, said, _) && id == c
                    && said is Initialized && st.clients.contains_key(c) && st.clients[c].server_id
                    == sid
            },
{
    lemma_connections_after(st, event, sid);
    let before = st.servers[sid].connections;
    let after = outcome(st, event).state.servers[sid].connections;
    assert(settled_server(st, sid));
    if grows(before, after) {
        assert forall|i: int, j: int|
            0 <= i < j < after.len() && #[trigger] before.contains(
                #[trigger] after[j],
            ) implies stands_before(before, #[trigger] after[i], after[j]) by {
            if j < before.len() {
                assert(before[i] == after[i] && before[j] == after[j]);
            } else {
                let k = choose|k: int| 0 <= k < before.len() && before[k] == after[j];
                assert(is_client_of(st, before[k], sid));
                assert(st.clients[before[k]].is_initialized);
            }
        }
        assert forall|c: u32| #[trigger] after.contains(c) implies before.contains(c) || c
            == after[before.len() as int] by {
            let k = choose|k: int| 0 <= k < after.len() && after[k] == c;
            if k < before.len() {
                assert(before[k] == c);
            }
        }
    } else if after == before {
        assert forall|i: int, j: int|
            0 <= i < j < after.len() && #[trigger] before.contains(
                #[trigger] after[j],
            ) implies stands_before(before, #[trigger] after[i], after[j]) by {
            assert(before[i] == after[i] && before[j] == after[j]);
        }
    } else {
        let c = choose|c: u32| #[trigger] is_list_without(before, after, c);
        lemma_without_keeps_order(before, after, c);
    }
}

/// A list has got one more item, at its end.
spec fn grows(before: Seq<u32>, after: Seq<u32>) -> bool {
    &&& after.len() == before.len() + 1
    &&& forall|i: int| 0 <= i < before.len() ==> #[trigger] after[i] == before[i]
}

proof fn lemma_without_keeps_order(before: Seq<u32>, after: Seq<u32>, c: u32)
    requires
        is_list_without(before, after, c),
    ensures
        keeps_order(before, after),
        forall|x: u32| #[trigger] after.contains(x) ==> before.contains(x),
{
    if after != before {
        let at = choose|at: int|
            0 <= at < before.len() && #[trigger] before[at] == c && (forall|j: int|
                0 <= j < at ==> #[trigger] before[j] != c) && after == before.take(at)
                + before.skip(at + 1);
        assert forall|i: int| 0 <= i < after.len() implies #[trigger] after[i] == before[if i < at {
            i
        } else {
            i + 1
        }] by {}
        assert forall|i: int, j: int|
            0 <= i < j < after.len() && #[trigger] before.contains(
                #[trigger] after[j],
            ) implies stands_before(before, #[trigger] after[i], after[j]) by {
            let i2 = if i < at { i } else { i + 1 };
            let j2 = if j < at { j } else { j + 1 };
            assert(before[i2] == after[i] && before[j2] == after[j]);
        }
        assert forall|x: u32| #[trigger] after.contains(x) implies before.contains(x) by {
            let k = choose|k: int| 0 <= k < after.len() && after[k] == x;
            assert(after[k] == before[if k < at { k } else { k + 1 }]);
        }
    } else {
        assert forall|i: int, j: int|
            0 <= i < j < after.len() && #[trigger] before.contains(
                #[trigger] after[j],
            ) implies stands_before(before, #[trigger] after[i], after[j]) by {
            assert(before[i] == after[i] && before[j] == after[j]);
        }
    }
}

/// The connections of a server either get one more, a client that becomes ready, or lose at most
/// one.
proof fn lemma_connections_after(st: GlobalView, event: EventView, sid: u32)
    requires
        state_wf(st),
        settled(st),
        enabled(st, event),
        orderly(st, event),
        st.servers.contains_key(sid),
        outcome(st, event).state.servers.contains_key(sid),
    ensures
        ({
            let before = st.servers[sid].connections;
            let after = outcome(st, event).state.servers[sid].connections;
            ||| after == before
            ||| exists|c: u32| #[trigger] is_list_without(before, after, c)
            ||| {
                &&& grows(before, after)
                &&& event matches EventView::ClientNotification(id, _, said, _)
                &&& id == after[before.len() as int]
                &&& said is Initialized
                &&& st.clients.contains_key(id)
                &&& st.clients[id].server_id == sid
                &&& !st.clients[id].is_initialized
            }
        }),
{
    let before = st.servers[sid].connections;
    let after = outcome(st, event).state.servers[sid].connections;
    assert(settled_server(st, sid));
    match event {
        EventView::ClientNotification(id, notification, said, found) => {
            if st.clients.contains_key(id) {
                let own = st.clients[id].server_id;
                assert(st.servers.contains_key(own));
                let inner = client_notification_inner(st, id, notification, said, found);
                if said is Initialized {
                    law_ready_client_joins_last(st, id, notification, found);
                } else if inner.result is Err && can_leave(inner.state, id) {
                    lemma_refused_keeps_wf(st, id, notification, said, found);
                    assert(inner.state.clients == st.clients);
                    assert(inner.state.servers[own].connections
                        == st.servers[own].connections);
                    law_leaving(inner.state, id);
                    if own == sid {
                        assert(is_list_without(before, after, id));
                    }
                }
            }
        },
        EventView::ClientDropped(id) => {
            if st.clients.contains_key(id) {
                assert(st.servers.contains_key(st.clients[id].server_id));
                law_leaving(st, id);
                if st.clients[id].server_id == sid {
                    assert(is_list_without(before, after, id));
                }
            }
        },
        _ => {
            assert(after == before);
        },
    }
}

/// The event by which the client `c` last became ready, -1 where there is none.
pub open spec fn ready_at(events: Seq<EventView>, c: u32) -> int
    decreases events.len(),
{
    if events.len() == 0 {
        -1
    } else if says_ready(events.last(), c) {
        events.len() - 1
    } else {
        ready_at(events.drop_last(), c)
    }
}

/// The client `c` says that it is ready.
pub open spec fn says_ready(event: EventView, c: u32) -> bool {
    event matches EventView::ClientNotification(id, _, said, _) && id == c && said is Initialized
}

/// The connections of a server stand in the order in which their clients became ready, whatever
/// has happened since the daemon was started: of any two of them the one that stands before the
/// other became ready before it.
pub proof fn law_connections_in_order_of_readiness(
    st: GlobalView,
    events: Seq<EventView>,
    sid: u32,
    i: int,
    j: int,
)
    requires
        fresh(st),
        is_run(st, events),
        is_orderly_run(st, events),
        after_run(st, events).servers.contains_key(sid),
        0 <= i < j < after_run(st, events).servers[sid].connections.len(),
    ensures
        ({
            let connections = after_run(st, events).servers[sid].connections;
            0 <= ready_at(events, connections[i]) < ready_at(events, connections[j])
        }),
{
    lemma_in_order(st, events, sid);
}

/// All of a list have become ready, one after the other.
spec fn in_order(events: Seq<EventView>, list: Seq<u32>) -> bool {
    &&& forall|i: int| 0 <= i < list.len() ==> 0 <= ready_at(events, #[trigger] list[i])
        < events.len()
    &&& forall|i: int, j: int|
        0 <= i < j < list.len() ==> ready_at(events, #[trigger] list[i]) < ready_at(
            events,
            #[trigger] list[j],
        )
}

/// What a further event makes of a list that is in order.
proof fn lemma_order_grows(
    events: Seq<EventView>,
    event: EventView,
    old: Seq<u32>,
    new: Seq<u32>,
)
    requires
        in_order(events, old),
        forall|i: int| 0 <= i < old.len() ==> !says_ready(event, #[trigger] old[i]),
        new == old || (exists|c: u32| #[trigger] is_list_without(old, new, c)) || (grows(old, new)
            && says_ready(event, new[old.len() as int])),
    ensures
        in_order(events.push(event), new),
{
    let all = events.push(event);
    assert(all.drop_last() =~= events);
    assert forall|i: int| 0 <= i < old.len() implies ready_at(all, #[trigger] old[i]) == ready_at(
        events,
        old[i],
    ) by {
        assert(!says_ready(event, old[i]));
    }
    if new == old {
    } else if grows(old, new) && says_ready(event, new[old.len() as int]) {
        let n = old.len() as int;
        assert(ready_at(all, new[n]) == all.len() - 1);
        assert forall|i: int| 0 <= i < n implies ready_at(all, #[trigger] new[i]) == ready_at(
            events,
            old[i],
        ) by {
            assert(new[i] == old[i]);
        }
    } else {
        let c = choose|c: u32| #[trigger] is_list_without(old, new, c);
        let at = choose|at: int|
            0 <= at < old.len() && #[trigger] old[at] == c && (forall|j: int|
                0 <= j < at ==> #[trigger] old[j] != c) && new == old.take(at) + old.skip(at + 1);
        assert forall|i: int| 0 <= i < new.len() implies #[trigger] new[i] == old[if i < at {
            i
        } else {
            i + 1
        }] by {}
        assert forall|i: int, j: int| 0 <= i < j < new.len() implies ready_at(
            all,
            #[trigger] new[i],
        ) < ready_at(all, #[trigger] new[j]) by {
            let i2 = if i < at { i } else { i + 1 };
            let j2 = if j < at { j } else { j + 1 };
            assert(ready_at(events, old[i2]) < ready_at(events, old[j2]));
        }
        assert forall|i: int| 0 <= i < new.len() implies 0 <= ready_at(all, #[trigger] new[i])
            < all.len() by {
            let i2 = if i < at { i } else { i + 1 };
            assert(0 <= ready_at(events, old[i2]));
        }
    }
}

/// No connection of a server says that it is ready once more.
proof fn lemma_ready_once(st: GlobalView, event: EventView, sid: u32)
    requires
        settled(st),
        orderly(st, event),
        st.servers.contains_key(sid),
    ensures
        forall|i: int|
            0 <= i < st.servers[sid].connections.len() ==> !says_ready(
                event,
                #[trigger] st.servers[sid].connections[i],
            ),
{
    let list = st.servers[sid].connections;
    assert(settled_server(st, sid));
    assert forall|i: int| 0 <= i < list.len() implies !says_ready(event, #[trigger] list[i]) by {
        assert(is_client_of(st, list[i], sid));
        assert(st.clients[list[i]].is_initialized);
    }
}

proof fn lemma_in_order(st: GlobalView, events: Seq<EventView>, sid: u32)
    requires
        fresh(st),
        is_run(st, events),
        is_orderly_run(st, events),
        after_run(st, events).servers.contains_key(sid),
    ensures
        in_order(events, after_run(st, events).servers[sid].connections),
    decreases events.len(),
{
    if events.len() > 0 {
        let rest = events.drop_last();
        let event = events.last();
        let before = after_run(st, rest);
        law_every_state_is_settled(st, rest);
        assert(events =~= rest.push(event));
        if event matches EventView::Spawned(spawn) && spawn.server_id == sid {
            assert(after_run(st, events).servers[sid].connections.len() == 0);
        } else {
            lemma_only_spawning_adds(before, event, sid);
            lemma_in_order(st, rest, sid);
            lemma_connections_after(before, event, sid);
            lemma_ready_once(before, event, sid);
            lemma_order_grows(
                rest,
                event,
                before.servers[sid].connections,
                after_run(st, events).servers[sid].connections,
            );
        }
    }
}

} // verus!
