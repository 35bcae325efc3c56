//! What a client notifies its server of, as far as the daemon looks into it.

use crate::message::{Notification, RequestId};
use crate::model::{client_event, rename_of, renames_of, ClientEventView};
use crate::params::{
    pair_views, parse_cancel, parse_did_change, parse_did_close, parse_did_open, parse_did_rename,
    parse_did_save, parse_uri,
};
use crate::text::same_text;
use vstd::prelude::*;

verus! {

/// What a notification of a client says. Documents are named by their URIs in normal form.
#[derive(Debug, PartialEq, Eq)]
pub enum ClientEvent {
    /// The client is ready.
    Initialized,
    /// The client wants to configure the server.
    Configured,
    /// The client has opened this document.
    Opened(String),
    /// The client has changed this document.
    Changed(String),
    /// The client has closed this document.
    Closed(String),
    /// The client has saved this document.
    Saved(String),
    /// The client has renamed some files, each from one URI to another; `None` stands for a name
    /// that is no URI.
    Renamed(Vec<Option<(String, String)>>),
    /// The client has given up this request.
    Cancelled(RequestId),
    /// The parameters cannot be read.
    Invalid,
    /// Anything else.
    Other,
}

/// What a renaming is.
pub open spec fn rename_view(rename: Option<(String, String)>) -> Option<(Seq<char>, Seq<char>)> {
    match rename {
        Some((from, to)) => Some((from@, to@)),
        None => None,
    }
}

/// What each renaming of a list is.
pub open spec fn rename_views(list: Seq<Option<(String, String)>>) -> Seq<
    Option<(Seq<char>, Seq<char>)>,
> {
    Seq::new(list.len(), |i: int| rename_view(list[i]))
}

impl View for ClientEvent {
    type V = ClientEventView;

    open spec fn view(&self) -> ClientEventView {
        match self {
            ClientEvent::Initialized => ClientEventView::Initialized,
            ClientEvent::Configured => ClientEventView::Configured,
            ClientEvent::Opened(uri) => ClientEventView::Opened(uri@),
            ClientEvent::Changed(uri) => ClientEventView::Changed(uri@),
            ClientEvent::Closed(uri) => ClientEventView::Closed(uri@),
            ClientEvent::Saved(uri) => ClientEventView::Saved(uri@),
            ClientEvent::Renamed(list) => ClientEventView::Renamed(rename_views(list@)),
            ClientEvent::Cancelled(id) => ClientEventView::Cancelled(id@),
            ClientEvent::Invalid => ClientEventView::Invalid,
            ClientEvent::Other => ClientEventView::Other,
        }
    }
}

/// A pair of names as URIs, if both are.
fn read_rename(from: &str, to: &str) -> (r: Option<(String, String)>)
    ensures
        rename_view(r) == rename_of(from@, to@),
{
    match (parse_uri(from), parse_uri(to)) {
        (Some(old_uri), Some(new_uri)) => Some((old_uri, new_uri)),
        _ => None,
    }
}

/// Some pairs of names as URIs.
fn read_renames(files: &Vec<(String, String)>) -> (list: Vec<Option<(String, String)>>)
    ensures
        rename_views(list@) == renames_of(pair_views(files@)),
{
    let ghost all = renames_of(pair_views(files@));
    let mut list: Vec<Option<(String, String)>> = Vec::new();
    let mut i: usize = 0;
    while i < files.len()
        invariant
            i <= files.len(),
            all == renames_of(pair_views(files@)),
            rename_views(list@) == all.take(i as int),
        decreases files.len() - i,
    {
        let ghost before = rename_views(list@);
        let rename: Option<(String, String)> = read_rename(
            files[i].0.as_str(),
            files[i].1.as_str(),
        );
        list.push(rename);
        proof {
            assert(rename_views(list@) =~= before.push(rename_view(rename)));
            assert(all[i as int] == rename_view(rename));
            assert(all.take(i + 1) =~= all.take(i as int).push(all[i as int]));
        }
        i += 1;
    }
    assert(all.take(i as int) =~= all);
    list
}

/// Looks into a notification of a client.
pub fn read_notification(notification: &Notification) -> (event: ClientEvent)
    ensures
        event@ == client_event(notification@),
{
    let method: &str = notification.method.as_str();
    let params: &str = notification.params.as_str();
    if same_text(method, "initialized") {
        ClientEvent::Initialized
    } else if same_text(method, "workspace/didChangeConfiguration") {
        ClientEvent::Configured
    } else if same_text(method, "textDocument/didOpen") {
        match parse_did_open(params) {
            Some(d) => ClientEvent::Opened(d.uri),
            None => ClientEvent::Invalid,
        }
    } else if same_text(method, "textDocument/didChange") {
        match parse_did_change(params) {
            Some(c) => ClientEvent::Changed(c.document.uri),
            None => ClientEvent::Invalid,
        }
    } else if same_text(method, "textDocument/didClose") {
        match parse_did_close(params) {
            Some(d) => ClientEvent::Closed(d.uri),
            None => ClientEvent::Invalid,
        }
    } else if same_text(method, "textDocument/didSave") {
        match parse_did_save(params) {
            Some(d) => ClientEvent::Saved(d.uri),
            None => ClientEvent::Invalid,
        }
    } else if same_text(method, "workspace/didRenameFiles") {
        match parse_did_rename(params) {
            Some(files) => ClientEvent::Renamed(read_renames(&files)),
            None => ClientEvent::Invalid,
        }
    } else if same_text(method, "$/cancelRequest") {
        match parse_cancel(params) {
            Some(id) => ClientEvent::Cancelled(id),
            None => ClientEvent::Invalid,
        }
    } else {
        ClientEvent::Other
    }
}

} // verus!
