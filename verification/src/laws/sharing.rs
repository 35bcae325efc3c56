//! Clients share a server exactly if they need the same one.

use crate::launch::{descriptor_for, workspace_for};
use crate::laws::{enabled, outcome, EventView};
use crate::laws::connecting::{distinct_servers, law_servers_stay_apart};
use crate::laws::runs::{
    after_run, fresh, is_run, law_every_state_is_well_formed, lemma_only_spawning_adds,
};
use crate::model::{
    client_notification_inner, connect, descriptor_at, is_primary, running_server, state_wf,
    ConnectionView, ErrorView, GlobalView, SpawnRequestView,
};
use crate::params::InitializeView;
use crate::server::connecting::lemma_descriptor_at;
use crate::types::DescriptorView;
use vstd::prelude::*;

verus! {

/// The descriptor of the server that a client needs, if that can be told.
pub open spec fn needed(
    st: GlobalView,
    conn: ConnectionView,
    readable: Option<InitializeView>,
) -> Option<DescriptorView> {
    match readable {
        Some(init) => match workspace_for(conn.bootstrap, init, conn.files) {
            Some(workspace) => Some(
                descriptor_for(st.config.rust_analyzer_bin@, conn.bootstrap, workspace),
            ),
            None => None,
        },
        None => None,
    }
}

/// A server is started only where none is running for the descriptor that a client needs, and it
/// is started for that client and that descriptor. A client that is connected at once is at the
/// server that is running for the descriptor.
pub proof fn law_server_is_started_only_where_none_is_running(
    st: GlobalView,
    conn: ConnectionView,
    readable: Option<InitializeView>,
)
    ensures
        connect(st, conn, readable).result matches Ok(Some(spawn)) ==> {
            &&& needed(st, conn, readable) == Some(spawn.descriptor)
            &&& spawn.client_id == conn.id
            &&& running_server(st, spawn.descriptor) is None
        },
        connect(st, conn, readable).result matches Ok(None) ==> {
            let after = connect(st, conn, readable).state;
            &&& needed(st, conn, readable) is Some
            &&& after.clients.contains_key(conn.id)
            &&& running_server(st, needed(st, conn, readable)->0) == Some(
                after.clients[conn.id].server_id,
            )
        },
{
}

/// What the clients need that have been connected by some events: for each the descriptor of the
/// server that it asked for when it connected last.
pub open spec fn needs(st: GlobalView, events: Seq<EventView>) -> Map<u32, DescriptorView>
    decreases events.len(),
{
    if events.len() == 0 {
        Map::empty()
    } else {
        let rest = events.drop_last();
        let before = after_run(st, rest);
        match events.last() {
            EventView::Connected(conn, readable) => match (
                connect(before, conn, readable).result,
                needed(before, conn, readable),
            ) {
                (Ok(None), Some(descriptor)) => needs(st, rest).insert(conn.id, descriptor),
                _ => needs(st, rest),
            },
            EventView::Spawned(spawn) => needs(st, rest).insert(spawn.client_id, spawn.descriptor),
            _ => needs(st, rest),
        }
    }
}

/// A server is started right after a client has connected that needs it, and for no other reason.
pub open spec fn is_prompt_run(st: GlobalView, events: Seq<EventView>) -> bool
    decreases events.len(),
{
    events.len() > 0 ==> {
        let rest = events.drop_last();
        &&& is_prompt_run(st, rest)
        &&& events.last() matches EventView::Spawned(spawn) ==> {
            &&& rest.len() > 0
            &&& rest.last() matches EventView::Connected(conn, readable)
            &&& connect(after_run(st, rest.drop_last()), conn, readable).result == Ok::<
                Option<SpawnRequestView>,
                ErrorView,
            >(Some(spawn))
        }
    }
}

/// A number that stands for no descriptor.
pub open spec fn is_unused(descriptors: Seq<(DescriptorView, u32)>, sid: u32) -> bool {
    forall|i: int| 0 <= i < descriptors.len() ==> #[trigger] descriptors[i].1 != sid
}

/// Each new server gets a number that stands for no descriptor.
pub open spec fn has_new_numbers(st: GlobalView, events: Seq<EventView>) -> bool
    decreases events.len(),
{
    events.len() > 0 ==> {
        let rest = events.drop_last();
        &&& has_new_numbers(st, rest)
        &&& events.last() matches EventView::Spawned(spawn) ==> is_unused(
            after_run(st, rest).descriptors,
            spawn.server_id,
        )
    }
}

/// A descriptor stands for the server `sid`.
pub open spec fn stands_for(
    descriptors: Seq<(DescriptorView, u32)>,
    descriptor: DescriptorView,
    sid: u32,
) -> bool {
    exists|i: int| 0 <= i < descriptors.len() && #[trigger] descriptors[i] == (descriptor, sid)
}

/// Each client is at the server that the descriptor stands for that it needs.
spec fn served(st: GlobalView, need: Map<u32, DescriptorView>) -> bool {
    &&& distinct_servers(st.descriptors)
    &&& forall|c: u32| #[trigger]
        st.clients.contains_key(c) ==> need.contains_key(c) && stands_for(
            st.descriptors,
            need[c],
            st.clients[c].server_id,
        )
}

/// Events other than connecting add no client, move none to another server, and leave the
/// descriptors as they are.
proof fn lemma_clients_stay(st: GlobalView, event: EventView)
    requires
        state_wf(st),
        enabled(st, event),
        !(event is Connected),
        !(event is Spawned),
    ensures
        outcome(st, event).state.descriptors == st.descriptors,
        forall|c: u32| #[trigger]
            outcome(st, event).state.clients.contains_key(c) ==> st.clients.contains_key(c)
                && st.clients[c].server_id == outcome(st, event).state.clients[c].server_id,
{
    match event {
        EventView::ClientNotification(id, notification, said, found) => {
            let inner = client_notification_inner(st, id, notification, said, found);
            assert(inner.state.descriptors == st.descriptors);
            if st.clients.contains_key(id) {
                assert(st.servers.contains_key(st.clients[id].server_id));
                assert forall|c: u32| #[trigger] inner.state.clients.contains_key(
                    c,
                ) implies st.clients.contains_key(c) && st.clients[c].server_id
                    == inner.state.clients[c].server_id by {
                    if said is Initialized {
                        let server = st.servers[st.clients[id].server_id];
                        if is_primary(server, id) && server.connections.len() > 0 {
                            assert(server.connections.push(id)[0] == id);
                        }
                    }
                }
            }
        },
        _ => {},
    }
}

/// In the state in which a server is started, none is running for its descriptor.
proof fn lemma_none_is_running(st: GlobalView, events: Seq<EventView>)
    requires
        is_prompt_run(st, events),
        events.len() > 0,
        events.last() is Spawned,
    ensures
        ({
            let spawn = events.last()->Spawned_0;
            running_server(after_run(st, events.drop_last()), spawn.descriptor) is None
        }),
{
}

/// Each client is at the server that it needs, after any run of events.
proof fn lemma_served(st: GlobalView, events: Seq<EventView>)
    requires
        fresh(st),
        is_run(st, events),
        is_prompt_run(st, events),
        has_new_numbers(st, events),
    ensures
        state_wf(after_run(st, events)),
        served(after_run(st, events), needs(st, events)),
    decreases events.len(),
{
    law_every_state_is_well_formed(st, events);
    if events.len() > 0 {
        let rest = events.drop_last();
        let before = after_run(st, rest);
        let after = after_run(st, events);
        let need = needs(st, rest);
        lemma_served(st, rest);
        match events.last() {
            EventView::Connected(conn, readable) => {
                if connect(before, conn, readable).result == Ok::<
                    Option<SpawnRequestView>,
                    ErrorView,
                >(None) {
                    let descriptor = needed(before, conn, readable)->0;
                    lemma_descriptor_at(before.descriptors, descriptor);
                    let at = descriptor_at(before.descriptors, descriptor);
                    let sid = after.clients[conn.id].server_id;
                    assert(before.descriptors[at] == (descriptor, sid));
                    assert(stands_for(after.descriptors, descriptor, sid));
                }
                assert forall|c: u32| #[trigger] after.clients.contains_key(c) implies needs(
                    st,
                    events,
                ).contains_key(c) && stands_for(
                    after.descriptors,
                    needs(st, events)[c],
                    after.clients[c].server_id,
                ) by {
                    if c != conn.id || after.clients == before.clients {
                        assert(before.clients.contains_key(c));
                    }
                }
            },
            EventView::Spawned(spawn) => {
                lemma_none_is_running(st, events);
                law_servers_stay_apart(before, spawn);
                lemma_descriptor_at(before.descriptors, spawn.descriptor);
                let at = descriptor_at(before.descriptors, spawn.descriptor);
                assert(after.descriptors[at] == (spawn.descriptor, spawn.server_id));
                assert forall|c: u32| #[trigger] after.clients.contains_key(c) implies needs(
                    st,
                    events,
                ).contains_key(c) && stands_for(
                    after.descriptors,
                    needs(st, events)[c],
                    after.clients[c].server_id,
                ) by {
                    if c != spawn.client_id {
                        assert(before.clients.contains_key(c));
                        let sid = before.clients[c].server_id;
                        let i = choose|i: int|
                            0 <= i < before.descriptors.len() && #[trigger] before.descriptors[i]
                                == (need[c], sid);
                        assert(before.servers.contains_key(sid));
                        assert(i != at);
                        assert(after.descriptors[i] == before.descriptors[i]);
                    }
                }
            },
            _ => {
                lemma_clients_stay(before, events.last());
                assert forall|c: u32| #[trigger]
                    after.clients.contains_key(c) implies need.contains_key(c) && stands_for(
                    after.descriptors,
                    need[c],
                    after.clients[c].server_id,
                ) by {
                    assert(before.clients.contains_key(c));
                }
            },
        }
    }
}

/// Clients share a server exactly if they need the same one: whatever has happened since the daemon
/// was started, two clients that are connected are at the same server if and only if the
/// descriptors are equal that they asked for, and that server is the one that is running for the
/// descriptor.
pub proof fn law_clients_share_exactly_what_they_need(
    st: GlobalView,
    events: Seq<EventView>,
    a: u32,
    b: u32,
)
    requires
        fresh(st),
        is_run(st, events),
        is_prompt_run(st, events),
        has_new_numbers(st, events),
        after_run(st, events).clients.contains_key(a),
        after_run(st, events).clients.contains_key(b),
    ensures
        ({
            let after = after_run(st, events);
            let need = needs(st, events);
            &&& need.contains_key(a)
            &&& need.contains_key(b)
            &&& running_server(after, need[a]) == Some(after.clients[a].server_id)
            &&& after.clients[a].server_id == after.clients[b].server_id <==> need[a] == need[b]
        }),
{
    let after = after_run(st, events);
    let need = needs(st, events);
    let list = after.descriptors;
    lemma_served(st, events);
    let s = after.clients[a].server_id;
    let t = after.clients[b].server_id;
    let i = choose|i: int| 0 <= i < list.len() && #[trigger] list[i] == (need[a], s);
    let j = choose|j: int| 0 <= j < list.len() && #[trigger] list[j] == (need[b], t);
    assert(after.servers.contains_key(s));
    lemma_descriptor_at(list, need[a]);
    let at = descriptor_at(list, need[a]);
    assert(list[i].0 == need[a]);
    assert(at == i) by {
        if at < i {
            assert(list[at].0 != list[i].0);
        }
    }
    if i < j {
        assert(list[i].0 != list[j].0);
        assert(list[i].1 != list[j].1);
    } else if j < i {
        assert(list[j].0 != list[i].0);
        assert(list[j].1 != list[i].1);
    }
}

/// Each server that is there stands for some descriptor.
spec fn all_stand(st: GlobalView) -> bool {
    forall|sid: u32| #[trigger]
        st.servers.contains_key(sid) ==> exists|i: int|
            0 <= i < st.descriptors.len() && #[trigger] st.descriptors[i].1 == sid
}

/// Each server that is there stands for some descriptor, after any run of events.
proof fn lemma_all_stand(st: GlobalView, events: Seq<EventView>)
    requires
        fresh(st),
        is_run(st, events),
        is_prompt_run(st, events),
    ensures
        all_stand(after_run(st, events)),
    decreases events.len(),
{
    if events.len() > 0 {
        let rest = events.drop_last();
        let before = after_run(st, rest);
        let after = after_run(st, events);
        law_every_state_is_well_formed(st, rest);
        lemma_all_stand(st, rest);
        if events.last() is Spawned {
            lemma_none_is_running(st, events);
        } else if !(events.last() is Connected) {
            lemma_clients_stay(before, events.last());
        }
        assert forall|sid: u32| #[trigger] after.servers.contains_key(sid) implies exists|i: int|
            0 <= i < after.descriptors.len() && #[trigger] after.descriptors[i].1 == sid by {
            if let EventView::Spawned(spawn) = events.last() {
                lemma_descriptor_at(before.descriptors, spawn.descriptor);
                let at = descriptor_at(before.descriptors, spawn.descriptor);
                assert(after.descriptors[at].1 == spawn.server_id);
                if sid != spawn.server_id {
                    assert(before.servers.contains_key(sid));
                    let i = choose|i: int|
                        0 <= i < before.descriptors.len() && #[trigger] before.descriptors[i].1
                            == sid;
                    assert(after.descriptors[i].1 == sid);
                }
            } else {
                lemma_only_spawning_adds(before, events.last(), sid);
                assert(after.descriptors == before.descriptors);
            }
        }
    }
}

/// There is one server for each descriptor: whatever has happened since the daemon was started, a
/// server that is there is the one that is running for some descriptor, and for no other.
pub proof fn law_one_server_for_each_descriptor(st: GlobalView, events: Seq<EventView>, sid: u32)
    requires
        fresh(st),
        is_run(st, events),
        is_prompt_run(st, events),
        has_new_numbers(st, events),
        after_run(st, events).servers.contains_key(sid),
    ensures
        exists|d: DescriptorView| #[trigger]
            running_server(after_run(st, events), d) == Some(sid),
        forall|a: DescriptorView, b: DescriptorView|
            #[trigger] running_server(after_run(st, events), a) == Some(sid)
                && #[trigger] running_server(after_run(st, events), b) == Some(sid) ==> a == b,
{
    let after = after_run(st, events);
    let list = after.descriptors;
    lemma_served(st, events);
    lemma_all_stand(st, events);
    let i = choose|i: int| 0 <= i < list.len() && #[trigger] list[i].1 == sid;
    lemma_descriptor_at(list, list[i].0);
    let at = descriptor_at(list, list[i].0);
    assert(at == i) by {
        if at < i {
            assert(list[at].0 != list[i].0);
        }
    }
    assert(running_server(after, list[i].0) == Some(sid));
    assert forall|a: DescriptorView, b: DescriptorView|
        #[trigger] running_server(after, a) == Some(sid) && #[trigger] running_server(after, b)
            == Some(sid) implies a == b by {
        lemma_descriptor_at(list, a);
        lemma_descriptor_at(list, b);
        let x = descriptor_at(list, a);
        let y = descriptor_at(list, b);
        if x < y {
            assert(list[x].1 != list[y].1);
        } else if y < x {
            assert(list[y].1 != list[x].1);
        }
    }
}

/// A descriptor keeps its server for as long as the server is there: no other server is started
/// for it.
pub proof fn law_descriptor_keeps_its_server(
    st: GlobalView,
    events: Seq<EventView>,
    from: int,
    descriptor: DescriptorView,
    sid: u32,
)
    requires
        state_wf(st),
        is_run(st, events),
        is_prompt_run(st, events),
        0 <= from <= events.len(),
        running_server(after_run(st, events.take(from)), descriptor) == Some(sid),
        forall|j: int|
            from <= j <= events.len() ==> (#[trigger] after_run(
                st,
                events.take(j),
            )).servers.contains_key(sid),
    ensures
        running_server(after_run(st, events), descriptor) == Some(sid),
    decreases events.len(),
{
    assert(events.take(events.len() as int) =~= events);
    if from < events.len() {
        let rest = events.drop_last();
        assert forall|j: int| from <= j <= rest.len() implies (#[trigger] after_run(
            st,
            rest.take(j),
        )).servers.contains_key(sid) by {
            assert(rest.take(j) =~= events.take(j));
        }
        assert(rest.take(from) =~= events.take(from));
        law_descriptor_keeps_its_server(st, rest, from, descriptor, sid);
        let before = after_run(st, rest);
        let after = after_run(st, events);
        law_every_state_is_well_formed(st, rest);
        assert(after_run(st, events.take(events.len() as int)).servers.contains_key(sid));
        match events.last() {
            EventView::Connected(_, _) => {},
            EventView::Spawned(spawn) => {
                lemma_none_is_running(st, events);
                assert(spawn.descriptor != descriptor);
                lemma_descriptor_at(before.descriptors, descriptor);
                lemma_descriptor_at(before.descriptors, spawn.descriptor);
                lemma_descriptor_at(after.descriptors, descriptor);
                let at = descriptor_at(before.descriptors, descriptor);
                let now = descriptor_at(after.descriptors, descriptor);
                assert(after.descriptors[at] == before.descriptors[at]);
                assert(now == at) by {
                    if now < at {
                        assert(after.descriptors[now].0 == before.descriptors[now].0);
                    }
                }
            },
            _ => {
                lemma_clients_stay(before, events.last());
            },
        }
    }
}

/// All numbers that stand for descriptors have been given out before.
spec fn all_given_out(st: GlobalView) -> bool {
    forall|i: int|
        0 <= i < st.descriptors.len() ==> #[trigger] st.descriptors[i].1 < st.next_server_id
}

/// Events other than connecting leave the count of servers as it is.
proof fn lemma_count_stays(st: GlobalView, event: EventView)
    requires
        !(event is Connected),
    ensures
        outcome(st, event).state.next_server_id == st.next_server_id,
{
    match event {
        EventView::ClientNotification(id, notification, said, found) => {
            let inner = client_notification_inner(st, id, notification, said, found);
            assert(inner.state.next_server_id == st.next_server_id);
        },
        _ => {},
    }
}

/// Until the count of servers starts over, each new server gets a number that stands for no
/// descriptor.
pub proof fn law_server_numbers_are_new(st: GlobalView, events: Seq<EventView>)
    requires
        fresh(st),
        is_run(st, events),
        is_prompt_run(st, events),
        st.next_server_id + events.len() <= u32::MAX,
    ensures
        has_new_numbers(st, events),
{
    lemma_numbers(st, events);
}

/// A client that connects leaves the descriptors as they are, and a server that it asks for gets
/// the next number.
proof fn lemma_connecting_counts(
    st: GlobalView,
    conn: ConnectionView,
    readable: Option<InitializeView>,
)
    requires
        st.next_server_id < u32::MAX,
    ensures
        ({
            let step = connect(st, conn, readable);
            &&& step.state.descriptors == st.descriptors
            &&& st.next_server_id <= step.state.next_server_id <= st.next_server_id + 1
            &&& step.result matches Ok(Some(spawn)) ==> {
                &&& spawn.server_id == st.next_server_id
                &&& step.state.next_server_id == st.next_server_id + 1
            }
        }),
{
}

/// A new server whose number is below the count is one more that has been given out.
proof fn lemma_spawning_counts(st: GlobalView, spawn: SpawnRequestView)
    requires
        all_given_out(st),
        spawn.server_id < st.next_server_id,
    ensures
        all_given_out(outcome(st, EventView::Spawned(spawn)).state),
{
    let after = outcome(st, EventView::Spawned(spawn)).state;
    lemma_descriptor_at(st.descriptors, spawn.descriptor);
    let at = descriptor_at(st.descriptors, spawn.descriptor);
    assert forall|i: int| 0 <= i < after.descriptors.len() implies #[trigger] after.descriptors[i].1
        < after.next_server_id by {
        if i != at {
            assert(after.descriptors[i] == st.descriptors[i]);
        }
    }
}

proof fn lemma_numbers(st: GlobalView, events: Seq<EventView>)
    requires
        fresh(st),
        is_run(st, events),
        is_prompt_run(st, events),
        st.next_server_id + events.len() <= u32::MAX,
    ensures
        has_new_numbers(st, events),
        all_given_out(after_run(st, events)),
        after_run(st, events).next_server_id <= st.next_server_id + events.len(),
    decreases events.len(),
{
    if events.len() > 0 {
        let rest = events.drop_last();
        let before = after_run(st, rest);
        lemma_numbers(st, rest);
        match events.last() {
            EventView::Connected(conn, readable) => {
                lemma_connecting_counts(before, conn, readable);
            },
            EventView::Spawned(spawn) => {
                let earlier = rest.drop_last();
                lemma_numbers(st, earlier);
                lemma_connecting_counts(
                    after_run(st, earlier),
                    rest.last()->Connected_0,
                    rest.last()->Connected_1,
                );
                lemma_count_stays(before, events.last());
                lemma_spawning_counts(before, spawn);
            },
            _ => {
                law_every_state_is_well_formed(st, rest);
                lemma_clients_stay(before, events.last());
                lemma_count_stays(before, events.last());
            },
        }
    }
}

} // verus!
