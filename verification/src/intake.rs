//! What a client sends behind its first request.

use crate::json::{decode_message, decoded};
use crate::message::{exits, is_exit, is_shutdown, shuts_down, Message, MessageView};
use vstd::prelude::*;

verus! {

/// What is to be done with something that a client has sent.
#[derive(Debug, PartialEq, Eq)]
pub enum Incoming {
    /// It is a message to handle.
    Message(Message),
    /// The client wants to leave.
    Leave,
    /// It is no message.
    Invalid,
}

/// What an [`Incoming`] is.
pub enum IncomingView {
    Message(MessageView),
    Leave,
    Invalid,
}

impl View for Incoming {
    type V = IncomingView;

    open spec fn view(&self) -> IncomingView {
        match self {
            Incoming::Message(m) => IncomingView::Message(m@),
            Incoming::Leave => IncomingView::Leave,
            Incoming::Invalid => IncomingView::Invalid,
        }
    }
}

/// What is to be done with a message, `None` where it cannot be read. A client that shuts down or
/// exits leaves.
pub open spec fn taken_in(message: Option<MessageView>) -> IncomingView {
    match message {
        Some(m) => if is_shutdown(m) || is_exit(m) {
            IncomingView::Leave
        } else {
            IncomingView::Message(m)
        },
        None => IncomingView::Invalid,
    }
}

/// What a message is, as far as it can be read.
pub open spec fn message_view(message: Option<Message>) -> Option<MessageView> {
    match message {
        Some(m) => Some(m@),
        None => None,
    }
}

/// Takes in a message of a client, `None` where it cannot be read.
pub fn take_in(message: Option<Message>) -> (incoming: Incoming)
    ensures
        incoming@ == taken_in(message_view(message)),
{
    match message {
        Some(m) => {
            if shuts_down(&m) || exits(&m) {
                Incoming::Leave
            } else {
                Incoming::Message(m)
            }
        },
        None => Incoming::Invalid,
    }
}

/// Takes in the JSON text of a message of a client.
pub fn read_incoming(bytes: &[u8]) -> (incoming: Incoming)
    ensures
        incoming@ == taken_in(decoded(bytes@)),
{
    take_in(decode_message(bytes))
}

/// A client leaves by asking to shut down or by saying that it exits, and by nothing else. Anything
/// else that it says and that can be read is a message to handle, as it came.
pub proof fn law_leaving_takes_a_word(message: MessageView)
    ensures
        message matches MessageView::Request(m) ==> taken_in(Some(message)) == if m.method
            == "shutdown"@ {
            IncomingView::Leave
        } else {
            IncomingView::Message(message)
        },
        message matches MessageView::Notification(m) ==> taken_in(Some(message)) == if m.method
            == "exit"@ {
            IncomingView::Leave
        } else {
            IncomingView::Message(message)
        },
        message is Response ==> taken_in(Some(message)) == IncomingView::Message(message),
        taken_in(None) == IncomingView::Invalid,
{
}

/// What a client sends is taken in as the message that it is: to leave where it asks to shut down or
/// says that it exits, and otherwise to be handled as it came. What is no message is none.
pub proof fn law_what_comes_in(bytes: &[u8], incoming: Incoming)
    requires
        call_ensures(read_incoming, (bytes,), incoming),
    ensures
        decoded(bytes@) is None ==> incoming is Invalid,
        decoded(bytes@) matches Some(message) ==> {
            let leaves = (message matches MessageView::Request(m) && m.method == "shutdown"@) || (
            message matches MessageView::Notification(m) && m.method == "exit"@);
            &&& leaves ==> incoming is Leave
            &&& !leaves ==> (incoming matches Incoming::Message(m) && m@ == message)
        },
{
    match decoded(bytes@) {
        Some(message) => {
            law_leaving_takes_a_word(message);
        },
        None => {},
    }
}

} // verus!
