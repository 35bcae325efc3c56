//! Why an event is not accepted.

use crate::model::ErrorView;
use vstd::prelude::*;

verus! {

/// Why an event was not accepted.
#[derive(Debug, PartialEq, Eq)]
pub enum Error {
    /// The first request of a client is not `initialize`.
    NotInitialize,
    /// Nothing tells which workspace the client in this directory opens.
    NoWorkspace(String),
    /// The working directory has to tell which workspace the client opens, and is not absolute.
    RelativeDirectory,
    /// The parameters of this method cannot be read.
    InvalidParams(String),
    /// The name of a renamed file is no URI.
    InvalidUri,
    /// There is no such client.
    ClientNotFound,
    /// There is no such server.
    ServerNotFound,
    /// A response belongs to no request.
    RequestNotFound,
    /// The client that a response belongs to has left.
    ClientGone,
    /// The document is open already.
    DocumentAlreadyOpen,
    /// This document is not open.
    DocumentNotOpen(String),
    /// The document belongs to another client.
    DocumentNotOwned,
    /// The server could not be initialized, for this reason.
    InitializationFailed(String),
    /// A client is to be dropped, and the connection that has to take over from it has no client.
    PrimaryLost,
}

impl View for Error {
    type V = ErrorView;

    open spec fn view(&self) -> ErrorView {
        match self {
            Error::NotInitialize => ErrorView::NotInitialize,
            Error::NoWorkspace(t) => ErrorView::NoWorkspace(t@),
            Error::RelativeDirectory => ErrorView::RelativeDirectory,
            Error::InvalidParams(t) => ErrorView::InvalidParams(t@),
            Error::InvalidUri => ErrorView::InvalidUri,
            Error::ClientNotFound => ErrorView::ClientNotFound,
            Error::ServerNotFound => ErrorView::ServerNotFound,
            Error::RequestNotFound => ErrorView::RequestNotFound,
            Error::ClientGone => ErrorView::ClientGone,
            Error::DocumentAlreadyOpen => ErrorView::DocumentAlreadyOpen,
            Error::DocumentNotOpen(t) => ErrorView::DocumentNotOpen(t@),
            Error::DocumentNotOwned => ErrorView::DocumentNotOwned,
            Error::InitializationFailed(t) => ErrorView::InitializationFailed(t@),
            Error::PrimaryLost => ErrorView::PrimaryLost,
        }
    }
}

/// What a result is.
pub open spec fn result_view(r: Result<(), Error>) -> Result<(), ErrorView> {
    match r {
        Ok(_) => Ok(()),
        Err(e) => Err(e@),
    }
}

} // verus!
