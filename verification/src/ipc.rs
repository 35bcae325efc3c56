//! What a client and a daemon that starts a server for each client say to each other.

use crate::frame::{encode_lsp_message, framed};
use crate::json::{carries, rpc_encoded};
use crate::message::Message;
use crate::types::BootstrapMessage;
use vstd::prelude::*;

verus! {

/// A message that is sent between the daemon and its client.
#[derive(Debug)]
pub enum IpcMessage {
    /// Bootstrap a language server with the provided information.
    Bootstrap(BootstrapMessage),
    /// An LSP message. Can be anything from a `Request`, `Response` or `Notification`.
    LspMessage(Message),
}

/// Why a message of a client is not accepted.
#[derive(Debug, Clone, Copy, PartialEq, Eq, Structural)]
pub enum IpcError {
    /// The connection was closed before the first message.
    Closed,
    /// The first message is no bootstrap message.
    NotBootstrap,
    /// A message behind the first is no LSP message.
    NotLspMessage,
}

/// What the first message of a client has to be: `None` stands for a connection that was closed
/// before, and `Some(None)` for a message that cannot be read.
pub fn first_message(message: Option<Option<IpcMessage>>) -> (r: Result<BootstrapMessage, IpcError>)
    ensures
        match message {
            None => r == Err::<BootstrapMessage, IpcError>(IpcError::Closed),
            Some(Some(IpcMessage::Bootstrap(bootstrap))) => r == Ok::<BootstrapMessage, IpcError>(
                bootstrap,
            ),
            Some(_) => r == Err::<BootstrapMessage, IpcError>(IpcError::NotBootstrap),
        },
{
    match message {
        None => Err(IpcError::Closed),
        Some(Some(IpcMessage::Bootstrap(bootstrap))) => Ok(bootstrap),
        Some(_) => Err(IpcError::NotBootstrap),
    }
}

/// The bytes that go to the server for a message behind the first.
pub fn next_message(message: IpcMessage) -> (r: Result<Vec<u8>, IpcError>)
    ensures
        match (message, r) {
            (IpcMessage::LspMessage(m), Ok(bytes)) => {
                &&& bytes@ == framed(rpc_encoded(m@))
                &&& carries(bytes@, m@)
            },
            (IpcMessage::Bootstrap(_), Err(e)) => e == IpcError::NotLspMessage,
            _ => false,
        },
{
    match message {
        IpcMessage::LspMessage(m) => Ok(encode_lsp_message(m)),
        IpcMessage::Bootstrap(_) => Err(IpcError::NotLspMessage),
    }
}

/// The first message of a client has to be a bootstrap message, and every message behind it an LSP
/// message, which goes to the server as it came. Anything else is refused.
pub proof fn law_bootstrap_comes_first(
    first: Option<Option<IpcMessage>>,
    r: Result<BootstrapMessage, IpcError>,
    next: IpcMessage,
    sent: Result<Vec<u8>, IpcError>,
)
    requires
        call_ensures(first_message, (first,), r),
        call_ensures(next_message, (next,), sent),
    ensures
        r matches Ok(bootstrap) <==> first matches Some(Some(IpcMessage::Bootstrap(said))),
        first matches Some(Some(IpcMessage::Bootstrap(said))) ==> r == Ok::<
            BootstrapMessage,
            IpcError,
        >(said),
        first is None ==> r == Err::<BootstrapMessage, IpcError>(IpcError::Closed),
        first matches Some(None) ==> r == Err::<BootstrapMessage, IpcError>(IpcError::NotBootstrap),
        first matches Some(Some(IpcMessage::LspMessage(_))) ==> r == Err::<
            BootstrapMessage,
            IpcError,
        >(IpcError::NotBootstrap),
        next matches IpcMessage::LspMessage(m) ==> (sent matches Ok(bytes) && bytes@ == framed(
            rpc_encoded(m@),
        )),
        next is Bootstrap ==> sent == Err::<Vec<u8>, IpcError>(IpcError::NotLspMessage),
{
}

} // verus!
