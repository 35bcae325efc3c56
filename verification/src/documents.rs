//! The open documents of a server and who has them open.

use crate::error::{result_view, Error};
use crate::events::{rename_views, ClientEvent};
use crate::ids::ClientId;
use crate::model::{
    distinct_documents, document_at, document_refused, documents_after, documents_after_renames,
    documents_marked, with_document, OpenDocumentView,
};
use crate::text::same_text;
use vstd::prelude::*;

verus! {

/// A document that a client has open.
#[derive(Debug)]
pub struct OpenDocument {
    pub uri: String,
    /// The client that has ownership over this document.
    pub opened_by: ClientId,
    /// The content has changed without being stored on the disk.
    pub is_modified: bool,
}

impl View for OpenDocument {
    type V = OpenDocumentView;

    open spec fn view(&self) -> OpenDocumentView {
        OpenDocumentView {
            uri: self.uri@,
            opened_by: self.opened_by.0,
            is_modified: self.is_modified,
        }
    }
}

/// What each document of a list is.
pub open spec fn document_views(list: Seq<OpenDocument>) -> Seq<OpenDocumentView> {
    Seq::new(list.len(), |i: int| list[i]@)
}

/// A document is found where it first stands in a list.
pub(crate) proof fn lemma_document_at(documents: Seq<OpenDocumentView>, uri: Seq<char>)
    ensures
        0 <= document_at(documents, uri) <= documents.len(),
        document_at(documents, uri) < documents.len() ==> documents[document_at(
            documents,
            uri,
        )].uri == uri,
        forall|i: int| 0 <= i < document_at(documents, uri) ==> #[trigger] documents[i].uri != uri,
    decreases documents.len(),
{
    if documents.len() > 0 && documents[0].uri != uri {
        lemma_document_at(documents.skip(1), uri);
        assert forall|i: int| 0 <= i < document_at(documents, uri) implies #[trigger] documents[i].uri
            != uri by {
            if i > 0 {
                assert(documents.skip(1)[i - 1] == documents[i]);
            }
        }
    }
}

/// Replacing or adding a document keeps the documents of a list distinct.
pub(crate) proof fn lemma_with_document(documents: Seq<OpenDocumentView>, document: OpenDocumentView)
    requires
        distinct_documents(documents),
    ensures
        distinct_documents(with_document(documents, document)),
{
    lemma_document_at(documents, document.uri);
    let at = document_at(documents, document.uri);
    let after = with_document(documents, document);
    assert forall|i: int, j: int| 0 <= i < j < after.len() implies #[trigger] after[i].uri
        != #[trigger] after[j].uri by {
        if at < documents.len() {
            assert(after[i].uri == documents[i].uri);
            assert(after[j].uri == documents[j].uri);
        } else if j < documents.len() {
            assert(documents[i].uri != documents[j].uri);
        }
    }
}

/// Taking a document out of a list keeps the others distinct.
pub(crate) proof fn lemma_remove_document(documents: Seq<OpenDocumentView>, at: int)
    requires
        distinct_documents(documents),
        0 <= at < documents.len(),
    ensures
        distinct_documents(documents.remove(at)),
{
    let after = documents.remove(at);
    assert forall|i: int, j: int| 0 <= i < j < after.len() implies #[trigger] after[i].uri
        != #[trigger] after[j].uri by {
        let i2 = if i < at { i } else { i + 1 };
        let j2 = if j < at { j } else { j + 1 };
        assert(documents[i2].uri != documents[j2].uri);
    }
}

/// Where the document `uri` stands in a list, its length where it does not.
fn position(documents: &Vec<OpenDocument>, uri: &str) -> (at: usize)
    ensures
        at == document_at(document_views(documents@), uri@),
        at <= documents.len(),
{
    let ghost views = document_views(documents@);
    let mut i: usize = 0;
    proof {
        assert(views.skip(0) =~= views);
    }
    while i < documents.len()
        invariant
            i <= documents.len(),
            views == document_views(documents@),
            document_at(views, uri@) == i + document_at(views.skip(i as int), uri@),
        decreases documents.len() - i,
    {
        proof {
            assert(views.skip(i as int)[0] == views[i as int]);
            assert(views.skip(i as int).skip(1) =~= views.skip(i + 1));
        }
        if same_text(documents[i].uri.as_str(), uri) {
            return i;
        }
        i += 1;
    }
    i
}

/// Where the document `uri` stands in a list, if the client `id` may touch it.
fn own_position(documents: &Vec<OpenDocument>, id: ClientId, uri: &str) -> (r: Result<usize, Error>)
    ensures
        match r {
            Ok(at) => {
                &&& document_refused(document_views(documents@), id.0, uri@) is None
                &&& at == document_at(document_views(documents@), uri@)
                &&& at < documents.len()
            },
            Err(e) => document_refused(document_views(documents@), id.0, uri@) == Some(e@),
        },
{
    let at: usize = position(documents, uri);
    if at >= documents.len() {
        return Err(Error::DocumentNotOpen(uri.to_owned()));
    }
    if documents[at].opened_by != id {
        return Err(Error::DocumentNotOwned);
    }
    Ok(at)
}

/// Notes that the client `id` has changed or saved the document `uri`.
fn mark(documents: &mut Vec<OpenDocument>, id: ClientId, uri: &str, is_modified: bool) -> (r: Result<
    (),
    Error,
>)
    requires
        distinct_documents(document_views(old(documents)@)),
    ensures
        documents_marked(document_views(old(documents)@), id.0, uri@, is_modified) == (
            document_views(final(documents)@),
            result_view(r),
        ),
        distinct_documents(document_views(final(documents)@)),
{
    let ghost before = document_views(documents@);
    match own_position(documents, id, uri) {
        Ok(at) => {
            documents[at].is_modified = is_modified;
            proof {
                let changed = OpenDocumentView { is_modified, ..before[at as int] };
                assert(document_views(documents@) =~= before.update(at as int, changed));
                assert forall|i: int| 0 <= i < before.len() implies #[trigger] before[i].uri
                    == before.update(at as int, changed)[i].uri by {}
            }
            Ok(())
        },
        Err(e) => Err(e),
    }
}

/// Notes that the client `id` has renamed some files, one after the other up to the first that it
/// may not rename.
fn rename(documents: &mut Vec<OpenDocument>, id: ClientId, files: &Vec<Option<(String, String)>>) -> (r:
    Result<(), Error>)
    requires
        distinct_documents(document_views(old(documents)@)),
    ensures
        documents_after_renames(document_views(old(documents)@), id.0, rename_views(files@)) == (
            document_views(final(documents)@),
            result_view(r),
        ),
        distinct_documents(document_views(final(documents)@)),
{
    let ghost views = rename_views(files@);
    let ghost before = document_views(documents@);
    let mut i: usize = 0;
    proof {
        assert(views.skip(0) =~= views);
    }
    while i < files.len()
        invariant
            i <= files.len(),
            views == rename_views(files@),
            before == document_views(old(documents)@),
            distinct_documents(document_views(documents@)),
            documents_after_renames(document_views(documents@), id.0, views.skip(i as int))
                == documents_after_renames(before, id.0, views),
        decreases files.len() - i,
    {
        let ghost now = document_views(documents@);
        proof {
            assert(views.skip(i as int)[0] == views[i as int]);
            assert(views.skip(i as int).skip(1) =~= views.skip(i + 1));
        }
        let (from, to) = match &files[i] {
            Some((from, to)) => (from, to.clone()),
            None => {
                return Err(Error::InvalidUri);
            },
        };
        match own_position(documents, id, from.as_str()) {
            Ok(at) => {
                let mut document: OpenDocument = documents.remove(at);
                proof {
                    assert(document_views(documents@) =~= now.remove(at as int));
                    lemma_remove_document(now, at as int);
                }
                document.uri = to;
                let ghost moved = document@;
                proof {
                    assert(moved == (OpenDocumentView { uri: to@, ..now[at as int] }));
                    lemma_with_document(now.remove(at as int), moved);
                }
                put(documents, document);
            },
            Err(e) => {
                return Err(e);
            },
        }
        i += 1;
    }
    Ok(())
}

/// Adds a document to a list, in the place of one with the same URI.
fn put(documents: &mut Vec<OpenDocument>, document: OpenDocument)
    ensures
        document_views(final(documents)@) == with_document(
            document_views(old(documents)@),
            document@,
        ),
{
    let ghost before = document_views(documents@);
    let at: usize = position(documents, document.uri.as_str());
    if at < documents.len() {
        documents.set(at, document);
        assert(document_views(documents@) =~= before.update(at as int, document@));
    } else {
        documents.push(document);
        assert(document_views(documents@) =~= before.push(document@));
    }
}

/// Notes what the client `id` notifies its server of, as far as it concerns documents, and tells
/// whether that is accepted. A document belongs to the client that opened it until it closes it.
pub fn note(documents: &mut Vec<OpenDocument>, id: ClientId, event: &ClientEvent) -> (r: Result<
    (),
    Error,
>)
    requires
        distinct_documents(document_views(old(documents)@)),
    ensures
        documents_after(document_views(old(documents)@), id.0, event@) == (
            document_views(final(documents)@),
            result_view(r),
        ),
        distinct_documents(document_views(final(documents)@)),
{
    let ghost before = document_views(documents@);
    match event {
        ClientEvent::Opened(uri) => {
            if position(documents, uri.as_str()) < documents.len() {
                return Err(Error::DocumentAlreadyOpen);
            }
            let document = OpenDocument { uri: uri.clone(), opened_by: id, is_modified: false };
            proof {
                lemma_document_at(before, document@.uri);
                lemma_with_document(before, document@);
            }
            documents.push(document);
            assert(document_views(documents@) =~= before.push(document@));
            Ok(())
        },
        ClientEvent::Changed(uri) => mark(documents, id, uri.as_str(), true),
        ClientEvent::Closed(uri) => match own_position(documents, id, uri.as_str()) {
            Ok(at) => {
                let _closed: OpenDocument = documents.remove(at);
                proof {
                    assert(document_views(documents@) =~= before.remove(at as int));
                    lemma_remove_document(before, at as int);
                }
                Ok(())
            },
            Err(e) => Err(e),
        },
        ClientEvent::Saved(uri) => mark(documents, id, uri.as_str(), false),
        ClientEvent::Renamed(files) => rename(documents, id, files),
        _ => Ok(()),
    }
}

} // verus!
