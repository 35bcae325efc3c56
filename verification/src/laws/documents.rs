//! A document belongs to the client that opened it.

use crate::documents::lemma_document_at;
use crate::message::{MessageView, NotificationView};
use crate::model::{
    can_leave, client_notification, client_notification_inner, closings, distinct_documents,
    document_at, document_refused, documents_after, documents_after_renames, documents_marked,
    documents_of, documents_of_others, drop_client, hands_over, is_abandoned, primary_ready,
    state_after_leave, state_wf, with_document, ActionView, ClientEventView, ErrorView, GlobalView,
    OpenDocumentView,
};
use crate::params::close_params;
use vstd::prelude::*;

verus! {

/// The documents of a client and those of the others are all documents, and stay distinct.
pub(crate) proof fn lemma_documents_apart(documents: Seq<OpenDocumentView>, id: u32)
    ensures
        forall|d: OpenDocumentView| #[trigger]
            documents_of(documents, id).contains(d) <==> documents.contains(d) && d.opened_by == id,
        forall|d: OpenDocumentView| #[trigger]
            documents_of_others(documents, id).contains(d) <==> documents.contains(d) && d.opened_by
                != id,
        distinct_documents(documents) ==> distinct_documents(documents_of_others(documents, id)),
    decreases documents.len(),
{
    if documents.len() > 0 {
        let rest = documents.drop_last();
        let last = documents.last();
        lemma_documents_apart(rest, id);
        assert(documents =~= rest.push(last));
        assert forall|d: OpenDocumentView| #[trigger] documents.contains(d) <==> rest.contains(d)
            || d == last by {
            lemma_push_has(rest, last, d);
        }
        let own = documents_of(rest, id);
        let others = documents_of_others(rest, id);
        assert forall|d: OpenDocumentView| #[trigger] own.push(last).contains(d) <==> own.contains(
            d,
        ) || d == last by {
            lemma_push_has(own, last, d);
        }
        assert forall|d: OpenDocumentView| #[trigger] others.push(last).contains(d)
            <==> others.contains(d) || d == last by {
            lemma_push_has(others, last, d);
        }
        if distinct_documents(documents) {
            assert(distinct_documents(rest)) by {
                assert forall|i: int, j: int| 0 <= i < j < rest.len() implies #[trigger] rest[i].uri
                    != #[trigger] rest[j].uri by {
                    assert(documents[i].uri != documents[j].uri);
                }
            }
            let after = documents_of_others(documents, id);
            assert forall|i: int, j: int| 0 <= i < j < after.len() implies #[trigger] after[i].uri
                != #[trigger] after[j].uri by {
                if j < others.len() {
                    assert(others[i].uri != others[j].uri);
                } else {
                    assert(others.contains(others[i]));
                    let n = choose|n: int| 0 <= n < rest.len() && rest[n] == others[i];
                    assert(documents[n].uri != documents[documents.len() - 1].uri);
                }
            }
        }
    }
}

proof fn lemma_push_has(list: Seq<OpenDocumentView>, last: OpenDocumentView, d: OpenDocumentView)
    ensures
        list.push(last).contains(d) <==> list.contains(d) || d == last,
{
    if list.contains(d) {
        let i = choose|i: int| 0 <= i < list.len() && list[i] == d;
        assert(list.push(last)[i] == d);
    }
    if d == last {
        assert(list.push(last)[list.len() as int] == d);
    }
}

/// A client that leaves leaves no document open: its server is told that each of its documents is
/// closed, and those of others stay as they are.
pub proof fn law_documents_are_closed_with_the_client(st: GlobalView, id: u32)
    requires
        state_wf(st),
        st.clients.contains_key(id),
        can_leave(st, id),
    ensures
        ({
            let sid = st.clients[id].server_id;
            let left = drop_client(st, id);
            let documents = st.servers[sid].documents;
            &&& left.state.servers.contains_key(sid) ==> forall|d: OpenDocumentView| #[trigger]
                left.state.servers[sid].documents.contains(d) <==> documents.contains(d)
                    && d.opened_by != id
            &&& forall|d: OpenDocumentView| #[trigger]
                documents.contains(d) && d.opened_by == id ==> left.actions.contains(
                    ActionView::ToServer(
                        sid,
                        MessageView::Notification(
                            NotificationView {
                                method: "textDocument/didClose"@,
                                params: close_params(d.uri),
                            },
                        ),
                    ),
                )
        }),
{
    let sid = st.clients[id].server_id;
    assert(st.servers.contains_key(sid));
    let documents = st.servers[sid].documents;
    lemma_documents_apart(documents, id);
    let left = drop_client(st, id);
    let own = documents_of(documents, id);
    assert forall|d: OpenDocumentView| #[trigger] documents.contains(d) && d.opened_by
        == id implies left.actions.contains(
        ActionView::ToServer(
            sid,
            MessageView::Notification(
                NotificationView {
                    method: "textDocument/didClose"@,
                    params: close_params(d.uri),
                },
            ),
        ),
    ) by {
        assert(own.contains(d));
        let i = choose|i: int| 0 <= i < own.len() && own[i] == d;
        assert(left.actions[2 + i] == closings(sid, own)[i]);
    }
}

/// Some documents without those of the client `id` are the same as some others without them.
pub open spec fn others_untouched(
    before: Seq<OpenDocumentView>,
    after: Seq<OpenDocumentView>,
    id: u32,
) -> bool {
    forall|d: OpenDocumentView|
        d.opened_by != id ==> (#[trigger] before.contains(d) <==> after.contains(d))
}

/// Renaming some documents gives one of them a name under which another client has a document open,
/// which is then forgotten.
pub open spec fn displaces(
    documents: Seq<OpenDocumentView>,
    id: u32,
    files: Seq<Option<(Seq<char>, Seq<char>)>>,
) -> bool
    decreases files.len(),
{
    if files.len() == 0 {
        false
    } else {
        match files[0] {
            None => false,
            Some((from, to)) => if document_refused(documents, id, from) is Some {
                false
            } else {
                let at = document_at(documents, from);
                let left = documents.remove(at);
                let other = document_at(left, to);
                let moved = OpenDocumentView { uri: to, ..documents[at] };
                (other < left.len() && left[other].opened_by != id) || displaces(
                    with_document(left, moved),
                    id,
                    files.skip(1),
                )
            },
        }
    }
}

/// What a client does to documents leaves the documents of others as they are, whether it is
/// accepted or refused, unless it gives a document a name that another client's document has.
pub proof fn law_documents_of_others_are_untouched(
    documents: Seq<OpenDocumentView>,
    id: u32,
    said: ClientEventView,
)
    requires
        distinct_documents(documents),
        said matches ClientEventView::Renamed(files) ==> !displaces(documents, id, files),
    ensures
        others_untouched(documents, documents_after(documents, id, said).0, id),
{
    let after = documents_after(documents, id, said).0;
    match said {
        ClientEventView::Opened(uri) => {
            let d0 = OpenDocumentView { uri, opened_by: id, is_modified: false };
            assert forall|d: OpenDocumentView| d.opened_by != id implies (
            #[trigger] documents.contains(d) <==> after.contains(d)) by {
                lemma_push_has(documents, d0, d);
            }
        },
        ClientEventView::Changed(uri) => {
            lemma_marking_own(documents, id, uri, true);
        },
        ClientEventView::Saved(uri) => {
            lemma_marking_own(documents, id, uri, false);
        },
        ClientEventView::Closed(uri) => {
            lemma_document_at(documents, uri);
            let at = document_at(documents, uri);
            if document_refused(documents, id, uri) is None {
                assert forall|d: OpenDocumentView| d.opened_by != id implies (
                #[trigger] documents.contains(d) <==> after.contains(d)) by {
                    if documents.contains(d) {
                        let i = choose|i: int| 0 <= i < documents.len() && documents[i] == d;
                        assert(after[if i < at { i } else { i - 1 }] == d);
                    }
                    if after.contains(d) {
                        let i = choose|i: int| 0 <= i < after.len() && after[i] == d;
                        assert(documents[if i < at { i } else { i + 1 }] == d);
                    }
                }
            }
        },
        ClientEventView::Renamed(files) => {
            lemma_renaming_own(documents, id, files);
        },
        _ => {},
    }
}

proof fn lemma_renaming_own(
    documents: Seq<OpenDocumentView>,
    id: u32,
    files: Seq<Option<(Seq<char>, Seq<char>)>>,
)
    requires
        !displaces(documents, id, files),
    ensures
        others_untouched(documents, documents_after_renames(documents, id, files).0, id),
    decreases files.len(),
{
    if files.len() > 0 && files[0] is Some {
        let (from, to) = files[0]->0;
        lemma_document_at(documents, from);
        if document_refused(documents, id, from) is None {
            let at = document_at(documents, from);
            let left = documents.remove(at);
            let moved = OpenDocumentView { uri: to, ..documents[at] };
            let next = with_document(left, moved);
            lemma_document_at(left, to);
            assert forall|d: OpenDocumentView| d.opened_by != id implies (
            #[trigger] documents.contains(d) <==> next.contains(d)) by {
                if documents.contains(d) {
                    let i = choose|i: int| 0 <= i < documents.len() && documents[i] == d;
                    let j = if i < at { i } else { i - 1 };
                    assert(left[j] == d);
                    assert(next[j] == d);
                }
                if next.contains(d) {
                    let j = choose|j: int| 0 <= j < next.len() && next[j] == d;
                    assert(left[j] == d);
                    assert(documents[if j < at { j } else { j + 1 }] == d);
                }
            }
            lemma_renaming_own(next, id, files.skip(1));
            let after = documents_after_renames(next, id, files.skip(1)).0;
            assert(documents_after_renames(documents, id, files).0 == after);
            assert forall|d: OpenDocumentView| d.opened_by != id implies (
            #[trigger] documents.contains(d) <==> after.contains(d)) by {
                assert(documents.contains(d) <==> next.contains(d));
            }
        }
    }
}

proof fn lemma_marking_own(documents: Seq<OpenDocumentView>, id: u32, uri: Seq<char>, to: bool)
    ensures
        others_untouched(documents, documents_marked(documents, id, uri, to).0, id),
{
    lemma_document_at(documents, uri);
    let after = documents_marked(documents, id, uri, to).0;
    if document_refused(documents, id, uri) is None {
        assert forall|d: OpenDocumentView| d.opened_by != id implies (
        #[trigger] documents.contains(d) <==> after.contains(d)) by {
            if documents.contains(d) {
                let i = choose|i: int| 0 <= i < documents.len() && documents[i] == d;
                assert(after[i] == d);
            }
            if after.contains(d) {
                let i = choose|i: int| 0 <= i < after.len() && after[i] == d;
                assert(documents[i] == d);
            }
        }
    }
}

/// A document that is open cannot be opened by anybody: the server does not hear of the attempt,
/// and the client that made it is dropped.
pub proof fn law_open_document_cannot_be_opened(
    st: GlobalView,
    id: u32,
    notification: NotificationView,
    document: OpenDocumentView,
    found: Option<i32>,
)
    requires
        state_wf(st),
        st.clients.contains_key(id),
        can_leave(st, id),
        st.servers[st.clients[id].server_id].documents.contains(document),
    ensures
        ({
            let said = ClientEventView::Opened(document.uri);
            let opened = client_notification(st, id, notification, said, found);
            let dropped = drop_client(st, id);
            &&& opened.result == Err::<(), ErrorView>(ErrorView::DocumentAlreadyOpen)
            &&& opened.state == dropped.state
            &&& opened.actions == dropped.actions
            &&& !opened.state.clients.contains_key(id)
        }),
{
    let sid = st.clients[id].server_id;
    let server = st.servers[sid];
    assert(st.servers.contains_key(sid));
    lemma_document_at(server.documents, document.uri);
    let i = choose|i: int| 0 <= i < server.documents.len() && server.documents[i] == document;
    assert(document_at(server.documents, document.uri) <= i);
    let said = ClientEventView::Opened(document.uri);
    let inner = client_notification_inner(st, id, notification, said, found);
    assert(inner.state.servers =~= st.servers);
    assert(inner.state == st);
    lemma_dropped_is_gone(st, id);
}

/// A client that has been dropped is gone.
proof fn lemma_dropped_is_gone(st: GlobalView, id: u32)
    requires
        state_wf(st),
        st.clients.contains_key(id),
        can_leave(st, id),
    ensures
        !drop_client(st, id).state.clients.contains_key(id),
{
    let sid = st.clients[id].server_id;
    assert(st.servers.contains_key(sid));
    let after = state_after_leave(st, id);
    if !is_abandoned(after, sid) && hands_over(st.servers[sid], id) {
        assert(primary_ready(after, sid));
        assert(after.servers[sid].connections[0] != id);
    }
}

/// A document can be changed, saved or closed by the client that opened it and by nobody else: if
/// what a client does to it is accepted, the document was open and the client's own.
pub proof fn law_only_the_owner_touches_a_document(
    documents: Seq<OpenDocumentView>,
    id: u32,
    uri: Seq<char>,
    said: ClientEventView,
)
    requires
        said == ClientEventView::Changed(uri) || said == ClientEventView::Saved(uri) || said
            == ClientEventView::Closed(uri),
        documents_after(documents, id, said).1 is Ok,
    ensures
        exists|i: int|
            0 <= i < documents.len() && #[trigger] documents[i].uri == uri && documents[i].opened_by
                == id,
{
    lemma_document_at(documents, uri);
    let at = document_at(documents, uri);
    assert(documents[at].uri == uri);
}

/// A document that a client opens and closes again leaves the documents as they were.
pub proof fn law_opening_and_closing_cancel_out(
    documents: Seq<OpenDocumentView>,
    id: u32,
    uri: Seq<char>,
)
    requires
        documents_after(documents, id, ClientEventView::Opened(uri)).1 is Ok,
    ensures
        documents_after(
            documents_after(documents, id, ClientEventView::Opened(uri)).0,
            id,
            ClientEventView::Closed(uri),
        ) == (documents, Ok::<(), ErrorView>(())),
{
    lemma_document_at(documents, uri);
    let opened = documents_after(documents, id, ClientEventView::Opened(uri)).0;
    lemma_document_at(opened, uri);
    let at = document_at(opened, uri);
    let n = documents.len() as int;
    assert(opened[n].uri == uri);
    assert(at == n) by {
        if at < n {
            assert(opened[at] == documents[at]);
        }
    }
    assert(opened.remove(n) =~= documents);
}

/// A document is marked as modified from a change until it is saved.
pub proof fn law_modified_until_saved(
    documents: Seq<OpenDocumentView>,
    id: u32,
    uri: Seq<char>,
)
    requires
        distinct_documents(documents),
        documents_after(documents, id, ClientEventView::Changed(uri)).1 is Ok,
    ensures
        ({
            let changed = documents_after(documents, id, ClientEventView::Changed(uri)).0;
            let (saved, result) = documents_after(changed, id, ClientEventView::Saved(uri));
            let at = document_at(documents, uri);
            &&& changed == documents.update(
                at,
                OpenDocumentView { uri, opened_by: id, is_modified: true },
            )
            &&& saved == documents.update(
                at,
                OpenDocumentView { uri, opened_by: id, is_modified: false },
            )
            &&& result is Ok
        }),
{
    lemma_document_at(documents, uri);
    let at = document_at(documents, uri);
    let changed = documents_after(documents, id, ClientEventView::Changed(uri)).0;
    lemma_document_at(changed, uri);
    assert(document_at(changed, uri) == at) by {
        let other = document_at(changed, uri);
        assert(changed[at].uri == uri);
        if other < at {
            assert(changed[other].uri == documents[other].uri);
        }
    }
}

} // verus!
