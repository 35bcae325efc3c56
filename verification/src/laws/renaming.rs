//! What becomes of the open documents when a client opens, changes, saves, closes or renames them.

use crate::documents::{lemma_document_at, lemma_remove_document, lemma_with_document};
use crate::model::{
    document_at, document_refused, documents_after, documents_after_renames, with_document,
    ClientEventView, ErrorView, OpenDocumentView,
};
use vstd::prelude::*;

verus! {

/// The document `d` is among the open ones.
pub open spec fn is_open(documents: Seq<OpenDocumentView>, d: OpenDocumentView) -> bool {
    exists|i: int| 0 <= i < documents.len() && #[trigger] documents[i] == d
}

/// Some document is open under a name.
pub open spec fn is_taken(documents: Seq<OpenDocumentView>, uri: Seq<char>) -> bool {
    exists|i: int| 0 <= i < documents.len() && #[trigger] documents[i].uri == uri
}

/// The client `id` has a document open under a name.
pub open spec fn is_owned(documents: Seq<OpenDocumentView>, id: u32, uri: Seq<char>) -> bool {
    exists|i: int|
        0 <= i < documents.len() && #[trigger] documents[i].uri == uri && documents[i].opened_by
            == id
}

/// No two documents are open under the same name.
pub open spec fn no_name_twice(documents: Seq<OpenDocumentView>) -> bool {
    forall|i: int, j: int|
        0 <= i < j < documents.len() ==> #[trigger] documents[i].uri != #[trigger] documents[j].uri
}

/// Where no name occurs twice, a document is found under its name.
proof fn lemma_found(documents: Seq<OpenDocumentView>, i: int)
    requires
        no_name_twice(documents),
        0 <= i < documents.len(),
    ensures
        document_at(documents, documents[i].uri) == i,
{
    let uri = documents[i].uri;
    lemma_document_at(documents, uri);
    let at = document_at(documents, uri);
    if at < i {
        assert(documents[at].uri != documents[i].uri);
    }
}

/// A name is taken if and only if it is found, and the document found is the one that is open.
proof fn lemma_taken(documents: Seq<OpenDocumentView>, id: u32, uri: Seq<char>)
    requires
        no_name_twice(documents),
    ensures
        is_taken(documents, uri) <==> document_at(documents, uri) < documents.len(),
        is_owned(documents, id, uri) <==> document_refused(documents, id, uri) is None,
        !is_taken(documents, uri) ==> document_refused(documents, id, uri) == Some(
            ErrorView::DocumentNotOpen(uri),
        ),
        is_taken(documents, uri) && !is_owned(documents, id, uri) ==> document_refused(
            documents,
            id,
            uri,
        ) == Some(ErrorView::DocumentNotOwned),
        0 <= document_at(documents, uri) <= documents.len(),
        is_taken(documents, uri) ==> documents[document_at(documents, uri)].uri == uri,
{
    lemma_document_at(documents, uri);
    let at = document_at(documents, uri);
    if at < documents.len() {
        assert(documents[at].uri == uri);
    }
    if is_taken(documents, uri) {
        let i = choose|i: int| 0 <= i < documents.len() && #[trigger] documents[i].uri == uri;
        lemma_found(documents, i);
    }
    if is_owned(documents, id, uri) {
        let i = choose|i: int|
            0 <= i < documents.len() && #[trigger] documents[i].uri == uri && documents[i].opened_by
                == id;
        lemma_found(documents, i);
    }
}

/// A document can be opened if and only if none is open under its name. Then it is open behind the
/// others, by the client that opened it and not modified, and the others stay as they are. A
/// document that cannot be opened changes nothing.
pub proof fn law_opening(documents: Seq<OpenDocumentView>, id: u32, uri: Seq<char>)
    requires
        no_name_twice(documents),
    ensures
        ({
            let (after, result) = documents_after(documents, id, ClientEventView::Opened(uri));
            &&& result is Ok <==> !is_taken(documents, uri)
            &&& result is Ok ==> {
                &&& after.len() == documents.len() + 1
                &&& forall|i: int|
                    0 <= i < documents.len() ==> #[trigger] after[i] == documents[i]
                &&& after[documents.len() as int].uri == uri
                &&& after[documents.len() as int].opened_by == id
                &&& !after[documents.len() as int].is_modified
            }
            &&& result is Err ==> after == documents && result == Err::<(), ErrorView>(
                ErrorView::DocumentAlreadyOpen,
            )
        }),
{
    lemma_taken(documents, id, uri);
}

/// What a client may do to a document under a name is decided by who has it open: the client
/// itself, somebody else, or nobody.
pub open spec fn is_decided(
    documents: Seq<OpenDocumentView>,
    id: u32,
    uri: Seq<char>,
    result: Result<(), ErrorView>,
) -> bool {
    &&& result is Ok <==> is_owned(documents, id, uri)
    &&& result == Err::<(), ErrorView>(ErrorView::DocumentNotOpen(uri)) <==> !is_taken(
        documents,
        uri,
    )
    &&& result == Err::<(), ErrorView>(ErrorView::DocumentNotOwned) <==> is_taken(documents, uri)
        && !is_owned(documents, id, uri)
}

/// A document can be changed or saved by the client that has it open and by nobody else. Then it is
/// marked as modified by a change and as not modified by saving it. Nothing else about it or about
/// any other document changes, and nothing at all where it is refused.
pub proof fn law_marking(
    documents: Seq<OpenDocumentView>,
    id: u32,
    uri: Seq<char>,
    said: ClientEventView,
)
    requires
        no_name_twice(documents),
        said == ClientEventView::Changed(uri) || said == ClientEventView::Saved(uri),
    ensures
        ({
            let (after, result) = documents_after(documents, id, said);
            &&& is_decided(documents, id, uri, result)
            &&& result is Err ==> after == documents
            &&& after.len() == documents.len()
            &&& forall|i: int|
                #![trigger after[i]]
                #![trigger documents[i]]
                0 <= i < documents.len() ==> {
                    &&& after[i].uri == documents[i].uri
                    &&& after[i].opened_by == documents[i].opened_by
                    &&& after[i].is_modified == if result is Ok && documents[i].uri == uri {
                        said is Changed
                    } else {
                        documents[i].is_modified
                    }
                }
        }),
{
    lemma_taken(documents, id, uri);
    let (after, result) = documents_after(documents, id, said);
    let at = document_at(documents, uri);
    assert forall|i: int|
        #![trigger after[i]]
        #![trigger documents[i]]
        0 <= i < documents.len() implies {
        &&& after[i].uri == documents[i].uri
        &&& after[i].opened_by == documents[i].opened_by
        &&& after[i].is_modified == if result is Ok && documents[i].uri == uri {
            said is Changed
        } else {
            documents[i].is_modified
        }
    } by {
        if documents[i].uri == uri {
            lemma_found(documents, i);
        }
    }
}

/// A document can be closed by the client that has it open and by nobody else. Then it is open no
/// longer, and the others stay as they are, in their order.
pub proof fn law_closing(documents: Seq<OpenDocumentView>, id: u32, uri: Seq<char>)
    requires
        no_name_twice(documents),
    ensures
        ({
            let (after, result) = documents_after(documents, id, ClientEventView::Closed(uri));
            &&& is_decided(documents, id, uri, result)
            &&& result is Err ==> after == documents
            &&& result is Ok ==> exists|at: int|
                0 <= at < documents.len() && (#[trigger] documents[at]).uri == uri && after
                    == documents.take(at) + documents.skip(at + 1)
        }),
{
    lemma_taken(documents, id, uri);
    let (after, result) = documents_after(documents, id, ClientEventView::Closed(uri));
    if result is Ok {
        let at = document_at(documents, uri);
        assert(documents[at].uri == uri);
        assert(after =~= documents.take(at) + documents.skip(at + 1));
    }
}

/// What a client says of anything but documents leaves the open documents as they are.
pub proof fn law_other_words_leave_documents(
    documents: Seq<OpenDocumentView>,
    id: u32,
    said: ClientEventView,
)
    requires
        !(said is Opened),
        !(said is Changed),
        !(said is Saved),
        !(said is Closed),
        !(said is Renamed),
    ensures
        documents_after(documents, id, said).0 == documents,
        documents_after(documents, id, said).1 is Ok,
{
}

/// Renaming some files and then some more is the same as renaming all of them, one after the other,
/// up to the first that is refused.
pub proof fn law_renaming_in_parts(
    documents: Seq<OpenDocumentView>,
    id: u32,
    first: Seq<Option<(Seq<char>, Seq<char>)>>,
    more: Seq<Option<(Seq<char>, Seq<char>)>>,
)
    ensures
        ({
            let (between, done) = documents_after(documents, id, ClientEventView::Renamed(first));
            documents_after(documents, id, ClientEventView::Renamed(first + more)) == if done is Ok {
                documents_after(between, id, ClientEventView::Renamed(more))
            } else {
                (between, done)
            }
        }),
    decreases first.len(),
{
    let all = first + more;
    if first.len() == 0 {
        assert(all =~= more);
    } else {
        assert(all[0] == first[0]);
        assert(all.skip(1) =~= first.skip(1) + more);
        match first[0] {
            Some((from, to)) => {
                if document_refused(documents, id, from) is None {
                    let at = document_at(documents, from);
                    let next = with_document(
                        documents.remove(at),
                        OpenDocumentView { uri: to, ..documents[at] },
                    );
                    law_renaming_in_parts(next, id, first.skip(1), more);
                }
            },
            None => {},
        }
    }
}

/// A file can be renamed by the client that has it open and by nobody else, and only if both its
/// names are URIs. Then it is open under its new name, by the same client and modified as before.
/// A document that was open under the new name is forgotten, and all others stay as they are.
pub proof fn law_renaming_one(
    documents: Seq<OpenDocumentView>,
    id: u32,
    from: Seq<char>,
    to: Seq<char>,
)
    requires
        no_name_twice(documents),
    ensures
        ({
            let files = seq![Some((from, to))];
            let (after, result) = documents_after(documents, id, ClientEventView::Renamed(files));
            &&& no_name_twice(after)
            &&& is_decided(documents, id, from, result)
            &&& result is Err ==> after == documents
            &&& result is Ok ==> forall|d: OpenDocumentView| #[trigger]
                is_open(after, d) <==> {
                    ||| is_open(documents, d) && d.uri != from && d.uri != to
                    ||| d.uri == to && is_open(documents, OpenDocumentView { uri: from, ..d })
                }
        }),
{
    let files = seq![Some((from, to))];
    let (after, result) = documents_after(documents, id, ClientEventView::Renamed(files));
    lemma_taken(documents, id, from);
    assert(files[0] == Some((from, to)));
    assert(files.skip(1).len() == 0);
    reveal_with_fuel(documents_after_renames, 2);
    if result is Ok {
        lemma_rename_step(documents, document_at(documents, from), to);
    } else {
        assert(after == documents);
    }
}

/// A name that is no URI stops a renaming where it stands.
pub proof fn law_renaming_needs_uris(documents: Seq<OpenDocumentView>, id: u32)
    ensures
        documents_after(
            documents,
            id,
            ClientEventView::Renamed(seq![None::<(Seq<char>, Seq<char>)>]),
        ) == (documents, Err::<(), ErrorView>(ErrorView::InvalidUri)),
        documents_after(
            documents,
            id,
            ClientEventView::Renamed(Seq::<Option<(Seq<char>, Seq<char>)>>::empty()),
        ) == (documents, Ok::<(), ErrorView>(())),
{
    assert(seq![None::<(Seq<char>, Seq<char>)>][0] is None);
}

proof fn lemma_rename_step(documents: Seq<OpenDocumentView>, at: int, to: Seq<char>)
    requires
        no_name_twice(documents),
        0 <= at < documents.len(),
    ensures
        ({
            let from = documents[at].uri;
            let moved = OpenDocumentView { uri: to, ..documents[at] };
            let next = with_document(documents.remove(at), moved);
            &&& no_name_twice(next)
            &&& forall|d: OpenDocumentView| #[trigger]
                is_open(next, d) <==> {
                    ||| is_open(documents, d) && d.uri != from && d.uri != to
                    ||| d.uri == to && is_open(documents, OpenDocumentView { uri: from, ..d })
                }
        }),
{
    let from = documents[at].uri;
    let moved = OpenDocumentView { uri: to, ..documents[at] };
    let left = documents.remove(at);
    let next = with_document(left, moved);
    lemma_remove_document(documents, at);
    lemma_with_document(left, moved);
    lemma_document_at(left, to);
    let place = document_at(left, to);
    assert forall|d: OpenDocumentView| #[trigger] is_open(next, d) <==> {
        ||| is_open(documents, d) && d.uri != from && d.uri != to
        ||| d.uri == to && is_open(documents, OpenDocumentView { uri: from, ..d })
    } by {
        if is_open(next, d) {
            let j = choose|j: int| 0 <= j < next.len() && #[trigger] next[j] == d;
            if j == place {
                assert(documents[at] == (OpenDocumentView { uri: from, ..d }));
            } else {
                assert(left[j] == d);
                let i = if j < at { j } else { j + 1 };
                assert(documents[i] == d);
                assert(documents[i].uri != documents[at].uri);
                assert(next[j].uri != next[place].uri);
            }
        }
        if is_open(documents, d) && d.uri != from && d.uri != to {
            let i = choose|i: int| 0 <= i < documents.len() && #[trigger] documents[i] == d;
            let j = if i < at { i } else { i - 1 };
            assert(left[j] == d);
            assert(next[j] == d);
        }
        if d.uri == to && is_open(documents, OpenDocumentView { uri: from, ..d }) {
            let old = OpenDocumentView { uri: from, ..d };
            let i = choose|i: int| 0 <= i < documents.len() && #[trigger] documents[i] == old;
            lemma_found(documents, i);
            lemma_found(documents, at);
            assert(i == at);
            assert(moved == d);
            assert(next[place] == d);
        }
    }
}

/// All files of a list are URIs, and no name occurs twice in it, neither as an old nor as a new one.
pub open spec fn are_distinct_files(files: Seq<Option<(Seq<char>, Seq<char>)>>) -> bool {
    &&& forall|k: int| 0 <= k < files.len() ==> #[trigger] files[k] is Some
    &&& forall|k: int, l: int|
        0 <= k < files.len() && 0 <= l < files.len() ==> (#[trigger] files[k]->0).0
            != (#[trigger] files[l]->0).1
    &&& forall|k: int, l: int|
        0 <= k < l < files.len() ==> (#[trigger] files[k]->0).0 != (#[trigger] files[l]->0).0
            && (files[k]->0).1 != (files[l]->0).1
}

/// A name is the old name of a file of a list.
pub open spec fn is_old_name(files: Seq<Option<(Seq<char>, Seq<char>)>>, uri: Seq<char>) -> bool {
    exists|k: int| 0 <= k < files.len() && (#[trigger] files[k]->0).0 == uri
}

/// A name is the new name of a file of a list.
pub open spec fn is_new_name(files: Seq<Option<(Seq<char>, Seq<char>)>>, uri: Seq<char>) -> bool {
    exists|k: int| 0 <= k < files.len() && (#[trigger] files[k]->0).1 == uri
}

/// The document `d` was open under the old name of a file and has its new name now.
pub open spec fn is_moved(
    documents: Seq<OpenDocumentView>,
    files: Seq<Option<(Seq<char>, Seq<char>)>>,
    d: OpenDocumentView,
) -> bool {
    exists|k: int|
        0 <= k < files.len() && d.uri == (#[trigger] files[k]->0).1 && is_open(
            documents,
            OpenDocumentView { uri: (files[k]->0).0, ..d },
        )
}

/// Renaming a list of files whose names are all distinct is accepted if and only if the client has
/// every one of them open. Then every one of them is open under its new name, by the same client
/// and modified as before, none is open under an old name, and every document whose name does not
/// occur in the list stays as it is.
pub proof fn law_renaming_all(
    documents: Seq<OpenDocumentView>,
    id: u32,
    files: Seq<Option<(Seq<char>, Seq<char>)>>,
)
    requires
        no_name_twice(documents),
        are_distinct_files(files),
    ensures
        ({
            let (after, result) = documents_after(documents, id, ClientEventView::Renamed(files));
            &&& result is Ok <==> forall|k: int|
                0 <= k < files.len() ==> is_owned(documents, id, (#[trigger] files[k]->0).0)
            &&& result is Ok ==> forall|d: OpenDocumentView| #[trigger]
                is_open(after, d) <==> {
                    ||| is_open(documents, d) && !is_old_name(files, d.uri) && !is_new_name(
                        files,
                        d.uri,
                    )
                    ||| is_moved(documents, files, d)
                }
            &&& result is Ok ==> forall|k: int|
                0 <= k < files.len() ==> !is_taken(after, (#[trigger] files[k]->0).0)
        }),
    decreases files.len(),
{
    let (after, result) = documents_after(documents, id, ClientEventView::Renamed(files));
    if files.len() > 0 {
        let (from, to) = files[0]->0;
        let rest = files.skip(1);
        assert(files[0] is Some);
        assert(are_distinct_files(rest)) by {
            assert forall|k: int| 0 <= k < rest.len() implies #[trigger] rest[k] is Some by {
                assert(rest[k] == files[k + 1]);
            }
            assert forall|k: int, l: int|
                0 <= k < rest.len() && 0 <= l < rest.len() implies (#[trigger] rest[k]->0).0 != (
            #[trigger] rest[l]->0).1 by {
                assert(rest[k] == files[k + 1] && rest[l] == files[l + 1]);
            }
            assert forall|k: int, l: int| 0 <= k < l < rest.len() implies (#[trigger] rest[k]->0).0
                != (#[trigger] rest[l]->0).0 && (rest[k]->0).1 != (rest[l]->0).1 by {
                assert(rest[k] == files[k + 1] && rest[l] == files[l + 1]);
            }
        }
        lemma_taken(documents, id, from);
        if is_owned(documents, id, from) {
            let at = document_at(documents, from);
            let moved = OpenDocumentView { uri: to, ..documents[at] };
            let next = with_document(documents.remove(at), moved);
            lemma_rename_step(documents, at, to);
            law_renaming_all(next, id, rest);
            lemma_owned_later(documents, next, id, files, from, to);
            if result is Ok {
                assert forall|d: OpenDocumentView| #[trigger] is_open(after, d) <==> {
                    ||| is_open(documents, d) && !is_old_name(files, d.uri) && !is_new_name(
                        files,
                        d.uri,
                    )
                    ||| is_moved(documents, files, d)
                } by {
                    lemma_names_split(files, d.uri);
                    lemma_moved_split(documents, next, files, d);
                    if is_moved(documents, files, d) {
                        lemma_moved_is_new(documents, files, d);
                    }
                }
            }
        } else {
            assert(!is_owned(documents, id, (files[0]->0).0));
        }
        if result is Ok {
            assert forall|k: int| 0 <= k < files.len() implies !is_taken(
                after,
                (#[trigger] files[k]->0).0,
            ) by {
                let old = (files[k]->0).0;
                if is_taken(after, old) {
                    let i = choose|i: int| 0 <= i < after.len() && #[trigger] after[i].uri == old;
                    let d = after[i];
                    assert(is_open(after, d));
                    assert(is_old_name(files, d.uri));
                    assert(is_moved(documents, files, d));
                    let l = choose|l: int|
                        0 <= l < files.len() && d.uri == (#[trigger] files[l]->0).1 && is_open(
                            documents,
                            OpenDocumentView { uri: (files[l]->0).0, ..d },
                        );
                    assert((files[k]->0).0 != (files[l]->0).1);
                }
            }
        }
    }
}

proof fn lemma_moved_is_new(
    documents: Seq<OpenDocumentView>,
    files: Seq<Option<(Seq<char>, Seq<char>)>>,
    d: OpenDocumentView,
)
    requires
        is_moved(documents, files, d),
    ensures
        is_new_name(files, d.uri),
{
    let k = choose|k: int|
        0 <= k < files.len() && d.uri == (#[trigger] files[k]->0).1 && is_open(
            documents,
            OpenDocumentView { uri: (files[k]->0).0, ..d },
        );
    assert((files[k]->0).1 == d.uri);
}

/// A name of a list is the name of its first file or of another.
proof fn lemma_names_split(files: Seq<Option<(Seq<char>, Seq<char>)>>, uri: Seq<char>)
    requires
        files.len() > 0,
    ensures
        is_old_name(files, uri) <==> (files[0]->0).0 == uri || is_old_name(files.skip(1), uri),
        is_new_name(files, uri) <==> (files[0]->0).1 == uri || is_new_name(files.skip(1), uri),
{
    let rest = files.skip(1);
    if is_old_name(files, uri) {
        let k = choose|k: int| 0 <= k < files.len() && (#[trigger] files[k]->0).0 == uri;
        if k > 0 {
            assert(rest[k - 1] == files[k]);
        }
    }
    if is_new_name(files, uri) {
        let k = choose|k: int| 0 <= k < files.len() && (#[trigger] files[k]->0).1 == uri;
        if k > 0 {
            assert(rest[k - 1] == files[k]);
        }
    }
    if is_old_name(rest, uri) {
        let k = choose|k: int| 0 <= k < rest.len() && (#[trigger] rest[k]->0).0 == uri;
        assert(files[k + 1] == rest[k]);
    }
    if is_new_name(rest, uri) {
        let k = choose|k: int| 0 <= k < rest.len() && (#[trigger] rest[k]->0).1 == uri;
        assert(files[k + 1] == rest[k]);
    }
}

/// Who has the other files open is not changed by renaming the first.
proof fn lemma_owned_later(
    documents: Seq<OpenDocumentView>,
    next: Seq<OpenDocumentView>,
    id: u32,
    files: Seq<Option<(Seq<char>, Seq<char>)>>,
    from: Seq<char>,
    to: Seq<char>,
)
    requires
        files.len() > 0,
        files[0] == Some((from, to)),
        are_distinct_files(files),
        is_owned(documents, id, from),
        forall|d: OpenDocumentView| #[trigger]
            is_open(next, d) <==> {
                ||| is_open(documents, d) && d.uri != from && d.uri != to
                ||| d.uri == to && is_open(documents, OpenDocumentView { uri: from, ..d })
            },
    ensures
        (forall|k: int|
            0 <= k < files.len() ==> is_owned(documents, id, (#[trigger] files[k]->0).0)) <==> (
        forall|k: int|
            0 <= k < files.skip(1).len() ==> is_owned(next, id, (#[trigger] files.skip(1)[k]->0).0)),
{
    let rest = files.skip(1);
    assert forall|k: int| 0 <= k < rest.len() implies is_owned(next, id, (#[trigger] rest[k]->0).0)
        == is_owned(documents, id, (files[k + 1]->0).0) by {
        let uri = (files[k + 1]->0).0;
        assert(rest[k] == files[k + 1]);
        assert(uri != from) by {
            assert((files[0]->0).0 != (files[k + 1]->0).0);
        }
        assert(uri != to) by {
            assert((files[k + 1]->0).0 != (files[0]->0).1);
        }
        if is_owned(next, id, uri) {
            let i = choose|i: int|
                0 <= i < next.len() && #[trigger] next[i].uri == uri && next[i].opened_by == id;
            assert(is_open(next, next[i]));
            assert(is_open(documents, next[i]));
            let j = choose|j: int| 0 <= j < documents.len() && #[trigger] documents[j] == next[i];
            assert(documents[j].uri == uri);
        }
        if is_owned(documents, id, uri) {
            let i = choose|i: int|
                0 <= i < documents.len() && #[trigger] documents[i].uri == uri
                    && documents[i].opened_by == id;
            assert(is_open(documents, documents[i]));
            assert(is_open(next, documents[i]));
            let j = choose|j: int| 0 <= j < next.len() && #[trigger] next[j] == documents[i];
            assert(next[j].uri == uri);
        }
    }
    if forall|k: int| 0 <= k < files.len() ==> is_owned(documents, id, (#[trigger] files[k]->0).0) {
        assert forall|k: int| 0 <= k < rest.len() implies is_owned(
            next,
            id,
            (#[trigger] rest[k]->0).0,
        ) by {
            assert(is_owned(documents, id, (files[k + 1]->0).0));
        }
    }
    if forall|k: int| 0 <= k < rest.len() ==> is_owned(next, id, (#[trigger] rest[k]->0).0) {
        assert forall|k: int| 0 <= k < files.len() implies is_owned(
            documents,
            id,
            (#[trigger] files[k]->0).0,
        ) by {
            if k > 0 {
                assert(is_owned(next, id, (rest[k - 1]->0).0));
            }
        }
    }
}

/// A document has been moved by the first file of a list, or by another of them after that.
proof fn lemma_moved_split(
    documents: Seq<OpenDocumentView>,
    next: Seq<OpenDocumentView>,
    files: Seq<Option<(Seq<char>, Seq<char>)>>,
    d: OpenDocumentView,
)
    requires
        files.len() > 0,
        are_distinct_files(files),
        forall|e: OpenDocumentView| #[trigger]
            is_open(next, e) <==> {
                ||| is_open(documents, e) && e.uri != (files[0]->0).0 && e.uri != (files[0]->0).1
                ||| e.uri == (files[0]->0).1 && is_open(
                    documents,
                    OpenDocumentView { uri: (files[0]->0).0, ..e },
                )
            },
    ensures
        is_moved(documents, files, d) <==> {
            ||| d.uri == (files[0]->0).1 && is_open(
                documents,
                OpenDocumentView { uri: (files[0]->0).0, ..d },
            )
            ||| is_moved(next, files.skip(1), d)
        },
        d.uri == (files[0]->0).1 ==> !is_old_name(files.skip(1), d.uri) && !is_new_name(
            files.skip(1),
            d.uri,
        ),
{
    let rest = files.skip(1);
    if is_moved(documents, files, d) {
        let k = choose|k: int|
            0 <= k < files.len() && d.uri == (#[trigger] files[k]->0).1 && is_open(
                documents,
                OpenDocumentView { uri: (files[k]->0).0, ..d },
            );
        if k > 0 {
            let old = OpenDocumentView { uri: (files[k]->0).0, ..d };
            assert((files[0]->0).0 != (files[k]->0).0);
            assert((files[k]->0).0 != (files[0]->0).1);
            assert(is_open(next, old));
            assert(rest[k - 1] == files[k]);
        }
    }
    if is_moved(next, rest, d) {
        let k = choose|k: int|
            0 <= k < rest.len() && d.uri == (#[trigger] rest[k]->0).1 && is_open(
                next,
                OpenDocumentView { uri: (rest[k]->0).0, ..d },
            );
        let old = OpenDocumentView { uri: (rest[k]->0).0, ..d };
        assert(rest[k] == files[k + 1]);
        assert((files[k + 1]->0).0 != (files[0]->0).1);
        assert(is_open(next, old));
        assert(is_open(documents, old));
        assert(d.uri == (files[k + 1]->0).1);
    }
    if d.uri == (files[0]->0).1 && is_open(
        documents,
        OpenDocumentView { uri: (files[0]->0).0, ..d },
    ) {
        assert(is_moved(documents, files, d));
    }
    if d.uri == (files[0]->0).1 {
        assert forall|k: int| 0 <= k < rest.len() implies (#[trigger] rest[k]->0).0 != d.uri && (
        rest[k]->0).1 != d.uri by {
            assert(rest[k] == files[k + 1]);
            assert((files[k + 1]->0).0 != (files[0]->0).1);
            assert((files[0]->0).0 != (files[k + 1]->0).0);
        }
    }
}

} // verus!
