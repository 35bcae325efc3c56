//! The messages of the language server protocol, as far as the daemon looks into them.
//!
//! Parameters, results and error data are JSON values that the daemon hands on. They are kept as
//! JSON text; a value that is absent from a request or a notification is the text `null`.

use crate::text::same_text;
use vstd::prelude::*;

verus! {

/// The id that ties a response to its request.
#[derive(Debug, PartialEq, Eq)]
pub enum RequestId {
    Number(i32),
    Text(String),
}

/// A call that expects a response.
#[derive(Debug, PartialEq, Eq)]
pub struct Request {
    pub id: RequestId,
    pub method: String,
    pub params: String,
}

/// The answer to a request.
#[derive(Debug, PartialEq, Eq)]
pub struct Response {
    pub id: RequestId,
    pub result: Option<String>,
    pub error: Option<ResponseError>,
}

/// Why a request failed.
#[derive(Debug, PartialEq, Eq)]
pub struct ResponseError {
    pub code: i32,
    pub message: String,
    pub data: Option<String>,
}

/// A call that expects no response.
#[derive(Debug, PartialEq, Eq)]
pub struct Notification {
    pub method: String,
    pub params: String,
}

/// Anything that a client and a server say to each other.
#[derive(Debug, PartialEq, Eq)]
pub enum Message {
    Request(Request),
    Response(Response),
    Notification(Notification),
}

/// What a [`RequestId`] is.
pub enum IdView {
    Number(i32),
    Text(Seq<char>),
}

/// What a [`Request`] says.
pub struct RequestView {
    pub id: IdView,
    pub method: Seq<char>,
    pub params: Seq<char>,
}

/// What a [`ResponseError`] says.
pub struct ResponseErrorView {
    pub code: i32,
    pub message: Seq<char>,
    pub data: Option<Seq<char>>,
}

/// What a [`Response`] says.
pub struct ResponseView {
    pub id: IdView,
    pub result: Option<Seq<char>>,
    pub error: Option<ResponseErrorView>,
}

/// What a [`Notification`] says.
pub struct NotificationView {
    pub method: Seq<char>,
    pub params: Seq<char>,
}

/// What a [`Message`] says.
pub enum MessageView {
    Request(RequestView),
    Response(ResponseView),
    Notification(NotificationView),
}

/// The characters of an optional text.
pub open spec fn text_view(text: Option<String>) -> Option<Seq<char>> {
    match text {
        Some(t) => Some(t@),
        None => None,
    }
}

impl View for RequestId {
    type V = IdView;

    open spec fn view(&self) -> IdView {
        match self {
            RequestId::Number(n) => IdView::Number(*n),
            RequestId::Text(t) => IdView::Text(t@),
        }
    }
}

impl View for Request {
    type V = RequestView;

    open spec fn view(&self) -> RequestView {
        RequestView { id: self.id@, method: self.method@, params: self.params@ }
    }
}

impl View for ResponseError {
    type V = ResponseErrorView;

    open spec fn view(&self) -> ResponseErrorView {
        ResponseErrorView {
            code: self.code,
            message: self.message@,
            data: text_view(self.data),
        }
    }
}

impl View for Response {
    type V = ResponseView;

    open spec fn view(&self) -> ResponseView {
        ResponseView {
            id: self.id@,
            result: text_view(self.result),
            error: match self.error {
                Some(e) => Some(e@),
                None => None,
            },
        }
    }
}

impl View for Notification {
    type V = NotificationView;

    open spec fn view(&self) -> NotificationView {
        NotificationView { method: self.method@, params: self.params@ }
    }
}

impl View for Message {
    type V = MessageView;

    open spec fn view(&self) -> MessageView {
        match self {
            Message::Request(m) => MessageView::Request(m@),
            Message::Response(m) => MessageView::Response(m@),
            Message::Notification(m) => MessageView::Notification(m@),
        }
    }
}

impl RequestId {
    /// Whether two ids are the same. A number and a text never are.
    pub fn same(&self, other: &RequestId) -> (same: bool)
        ensures
            same == (self@ == other@),
    {
        match (self, other) {
            (RequestId::Number(a), RequestId::Number(b)) => *a == *b,
            (RequestId::Text(a), RequestId::Text(b)) => same_text(a.as_str(), b.as_str()),
            _ => false,
        }
    }

    /// Another id of the same value.
    pub fn copy(&self) -> (copy: RequestId)
        ensures
            copy@ == self@,
    {
        match self {
            RequestId::Number(n) => RequestId::Number(*n),
            RequestId::Text(t) => RequestId::Text(t.clone()),
        }
    }
}

/// A copy of an optional text.
pub fn copy_text(text: &Option<String>) -> (copy: Option<String>)
    ensures
        text_view(copy) == text_view(*text),
{
    match text {
        Some(t) => Some(t.clone()),
        None => None,
    }
}

impl Request {
    /// Another request that says the same.
    pub fn copy(&self) -> (copy: Request)
        ensures
            copy@ == self@,
    {
        Request { id: self.id.copy(), method: self.method.clone(), params: self.params.clone() }
    }
}

impl ResponseError {
    /// Another error that says the same.
    pub fn copy(&self) -> (copy: ResponseError)
        ensures
            copy@ == self@,
    {
        ResponseError {
            code: self.code,
            message: self.message.clone(),
            data: copy_text(&self.data),
        }
    }
}

impl Response {
    /// The same answer, addressed to the request `id`.
    pub fn readdressed(&self, id: RequestId) -> (copy: Response)
        ensures
            copy@ == (ResponseView { id: id@, ..self@ }),
    {
        Response {
            id,
            result: copy_text(&self.result),
            error: match &self.error {
                Some(e) => Some(e.copy()),
                None => None,
            },
        }
    }

    /// The answer to the request `id` that it succeeded and has nothing to return.
    pub fn null(id: RequestId) -> (r: Response)
        ensures
            r@ == (ResponseView { id: id@, result: Some("null"@), error: None }),
    {
        Response { id, result: Some("null".to_owned()), error: None }
    }
}

impl Notification {
    /// Another notification that says the same.
    pub fn copy(&self) -> (copy: Notification)
        ensures
            copy@ == self@,
    {
        Notification { method: self.method.clone(), params: self.params.clone() }
    }
}

/// The id of a message: notifications have none.
pub open spec fn id_of(message: MessageView) -> Option<IdView> {
    match message {
        MessageView::Request(m) => Some(m.id),
        MessageView::Response(m) => Some(m.id),
        MessageView::Notification(_) => None,
    }
}

/// The id of a message, `None` for a notification.
pub fn get_id(message: &Message) -> (id: Option<&RequestId>)
    ensures
        match id {
            Some(id) => id_of(message@) == Some(id@),
            None => id_of(message@) is None,
        },
{
    match message {
        Message::Request(m) => Some(&m.id),
        Message::Response(m) => Some(&m.id),
        Message::Notification(_) => None,
    }
}

/// The client has said its last word: the notification that tells a server to exit.
pub open spec fn is_exit(message: MessageView) -> bool {
    message matches MessageView::Notification(m) && m.method == "exit"@
}

/// Whether a message is the notification that tells a server to exit.
pub fn exits(message: &Message) -> (yes: bool)
    ensures
        yes == is_exit(message@),
{
    match message {
        Message::Notification(m) => same_text(m.method.as_str(), "exit"),
        _ => false,
    }
}

/// The request by which a client announces that it is about to leave.
pub open spec fn is_shutdown(message: MessageView) -> bool {
    message matches MessageView::Request(m) && m.method == "shutdown"@
}

/// Whether a message is the request by which a client announces that it is about to leave.
pub fn shuts_down(message: &Message) -> (yes: bool)
    ensures
        yes == is_shutdown(message@),
{
    match message {
        Message::Request(m) => same_text(m.method.as_str(), "shutdown"),
        _ => false,
    }
}

/// A message is known by the id of its request, which requests and responses have and notifications
/// have not.
pub proof fn law_requests_and_responses_have_ids(message: MessageView)
    ensures
        message matches MessageView::Request(m) ==> id_of(message) == Some(m.id),
        message matches MessageView::Response(m) ==> id_of(message) == Some(m.id),
        message is Notification ==> id_of(message) is None,
{
}

} // verus!
