//! Capabilities, cancellations and notifications.

use crate::laws::requests::in_flight;
use crate::message::{IdView, MessageView, NotificationView, ResponseView};
use crate::model::{
    client_notification, client_response, is_found, registered_after, server_notification, state_wf,
    without_unregistered, ActionView, ClientEventView, GlobalView, GrantView,
};
use crate::params::{cancel_params, RegistrationView};
use vstd::prelude::*;

verus! {

/// What is unregistered is registered no longer, and everything else stays registered.
pub proof fn law_unregistered_is_gone(
    registered: Seq<RegistrationView>,
    list: Seq<(Seq<char>, Seq<char>)>,
)
    ensures
        forall|r: RegistrationView| #[trigger]
            registered_after(registered, GrantView::Unregistered(list)).contains(r)
                <==> registered.contains(r) && !list.contains((r.id, r.method)),
{
    lemma_without_unregistered(registered, list);
}

proof fn lemma_without_unregistered(
    registered: Seq<RegistrationView>,
    list: Seq<(Seq<char>, Seq<char>)>,
)
    ensures
        forall|r: RegistrationView| #[trigger]
            without_unregistered(registered, list).contains(r) <==> registered.contains(r)
                && !list.contains((r.id, r.method)),
    decreases registered.len(),
{
    if registered.len() > 0 {
        let rest = registered.drop_last();
        let last = registered.last();
        lemma_without_unregistered(rest, list);
        let kept = without_unregistered(rest, list);
        assert(registered =~= rest.push(last));
        assert forall|r: RegistrationView| #[trigger] without_unregistered(
            registered,
            list,
        ).contains(r) <==> registered.contains(r) && !list.contains((r.id, r.method)) by {
            lemma_push_holds(rest, last, r);
            lemma_push_holds(kept, last, r);
        }
    }
}

proof fn lemma_push_holds(list: Seq<RegistrationView>, last: RegistrationView, r: RegistrationView)
    ensures
        list.push(last).contains(r) <==> list.contains(r) || r == last,
{
    if list.contains(r) {
        let i = choose|i: int| 0 <= i < list.len() && list[i] == r;
        assert(list.push(last)[i] == r);
    }
    if r == last {
        assert(list.push(last)[list.len() as int] == r);
    }
}

/// Registering a capability and unregistering it again leaves what was registered before, if
/// nothing was registered under the same id and method.
pub proof fn law_registering_and_unregistering_cancel_out(
    registered: Seq<RegistrationView>,
    new: RegistrationView,
)
    requires
        forall|i: int|
            0 <= i < registered.len() ==> (#[trigger] registered[i]).id != new.id
                || registered[i].method != new.method,
    ensures
        registered_after(
            registered_after(registered, GrantView::Registered(seq![new])),
            GrantView::Unregistered(seq![(new.id, new.method)]),
        ) == registered,
{
    let gone = seq![(new.id, new.method)];
    let more = registered + seq![new];
    assert(more.drop_last() =~= registered);
    assert(gone.contains((new.id, new.method))) by {
        assert(gone[0] == (new.id, new.method));
    }
    lemma_nothing_unregistered(registered, gone);
}

proof fn lemma_nothing_unregistered(
    registered: Seq<RegistrationView>,
    gone: Seq<(Seq<char>, Seq<char>)>,
)
    requires
        forall|i: int|
            0 <= i < registered.len() ==> !gone.contains(
                ((#[trigger] registered[i]).id, registered[i].method),
            ),
    ensures
        without_unregistered(registered, gone) == registered,
    decreases registered.len(),
{
    if registered.len() > 0 {
        let rest = registered.drop_last();
        assert forall|i: int| 0 <= i < rest.len() implies !gone.contains(
            ((#[trigger] rest[i]).id, rest[i].method),
        ) by {
            assert(rest[i] == registered[i]);
        }
        lemma_nothing_unregistered(rest, gone);
        assert(registered.last() == registered[registered.len() - 1]);
        assert(rest.push(registered.last()) =~= registered);
    } else {
        assert(without_unregistered(registered, gone) =~= registered);
    }
}

/// What a server asks to register counts only once a client has granted it: a refusal changes
/// nothing that is registered.
pub proof fn law_refused_registration_does_not_count(
    st: GlobalView,
    id: u32,
    response: ResponseView,
)
    requires
        state_wf(st),
        st.clients.contains_key(id),
        response.error is Some,
    ensures
        ({
            let sid = st.clients[id].server_id;
            client_response(st, id, response).state.servers[sid].registered
                == st.servers[sid].registered
        }),
{
}

/// A cancellation reaches the server under the number that the server knows the request by, and
/// nothing else comes of it; one for a request that is not in flight goes nowhere.
pub proof fn law_cancellation_names_the_servers_number(
    st: GlobalView,
    id: u32,
    notification: NotificationView,
    request: IdView,
    found: Option<i32>,
)
    requires
        state_wf(st),
        st.clients.contains_key(id),
        is_found(st, id, ClientEventView::Cancelled(request), found),
    ensures
        ({
            let sid = st.clients[id].server_id;
            let said = ClientEventView::Cancelled(request);
            let cancelled = client_notification(st, id, notification, said, found);
            &&& cancelled.result is Ok
            &&& cancelled.state == st
            &&& match found {
                Some(k) => {
                    &&& in_flight(st, sid, k, id, request)
                    &&& cancelled.actions == seq![
                        ActionView::ToServer(
                            sid,
                            MessageView::Notification(
                                NotificationView { params: cancel_params(k), ..notification },
                            ),
                        ),
                    ]
                },
                None => {
                    &&& cancelled.actions == Seq::<ActionView>::empty()
                    &&& forall|k: i32| !in_flight(st, sid, k, id, request)
                },
            }
        }),
{
    let sid = st.clients[id].server_id;
    assert(st.servers.contains_key(sid));
    if found is None {
        assert forall|k: i32| !in_flight(st, sid, k, id, request) by {
            assert(!(st.servers[sid].request_ids.contains_key(k) && st.servers[sid].request_ids[k]
                == (id, request)));
        }
    }
}

/// A notification of a server reaches every connection of the server, in their order, as the
/// server sent it, and nobody else; nothing changes by it.
pub proof fn law_notifications_reach_every_connection(
    st: GlobalView,
    sid: u32,
    notification: NotificationView,
)
    requires
        st.servers.contains_key(sid),
        notification.method != "$/progress"@,
    ensures
        ({
            let sent = server_notification(st, sid, notification);
            let connections = st.servers[sid].connections;
            &&& sent.result is Ok
            &&& sent.state == st
            &&& sent.actions.len() == connections.len()
            &&& forall|i: int|
                0 <= i < connections.len() ==> #[trigger] sent.actions[i] == ActionView::ToClient(
                    connections[i],
                    MessageView::Notification(notification),
                )
        }),
{
}

/// What a server says of progress reaches nobody and changes nothing.
pub proof fn law_progress_is_not_passed_on(
    st: GlobalView,
    sid: u32,
    notification: NotificationView,
)
    requires
        notification.method == "$/progress"@,
    ensures
        server_notification(st, sid, notification).state == st,
        server_notification(st, sid, notification).actions == Seq::<ActionView>::empty(),
{
}

} // verus!
