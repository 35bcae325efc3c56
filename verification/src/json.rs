//! Messages as JSON: what `lsp_server` and `serde_json` make of them.

use crate::frame::framed;
use crate::message::RequestId::{Number, Text};
use crate::message::{
    text_view, IdView, Message, MessageView, Notification, NotificationView, Request, RequestId,
    RequestView, Response, ResponseError, ResponseErrorView, ResponseView,
};
use crate::text::same_text;
use lsp_server::{
    Message as Rpc, Notification as RpcNotification, Request as RpcRequest, RequestId as RpcId,
    Response as RpcResponse, ResponseError as RpcError,
};
use serde_json::{from_slice, from_str, to_value, to_vec, Value};
use vstd::prelude::*;
use vstd::utf8::valid_utf8;

verus! {

/// What there is in a message, by the names of its fields. Values inside it are given by the JSON
/// text that `serde_json` prints them as.
#[derive(Debug, PartialEq, Eq)]
pub struct Parts {
    /// The id, where it is a number.
    pub number: Option<i64>,
    /// The id, where it is a text.
    pub name: Option<String>,
    pub method: Option<String>,
    pub params: Option<String>,
    pub result: Option<String>,
    /// The code of the error.
    pub code: Option<i64>,
    /// The message of the error.
    pub reason: Option<String>,
    /// What else there is to the error.
    pub data: Option<String>,
}

/// What [`Parts`] are.
pub struct PartsView {
    pub number: Option<i64>,
    pub name: Option<Seq<char>>,
    pub method: Option<Seq<char>>,
    pub params: Option<Seq<char>>,
    pub result: Option<Seq<char>>,
    pub code: Option<i64>,
    pub reason: Option<Seq<char>>,
    pub data: Option<Seq<char>>,
}

impl View for Parts {
    type V = PartsView;

    open spec fn view(&self) -> PartsView {
        PartsView {
            number: self.number,
            name: text_view(self.name),
            method: text_view(self.method),
            params: text_view(self.params),
            result: text_view(self.result),
            code: self.code,
            reason: text_view(self.reason),
            data: text_view(self.data),
        }
    }
}

/// What there is in the message that `serde_json::from_slice` reads from some bytes as an
/// `lsp_server::Message`, `None` where it reports an error.
pub uninterp spec fn decoded_parts(bytes: Seq<u8>) -> Option<PartsView>;

/// A number that an id or an error code can be.
pub open spec fn small(n: i64) -> bool {
    i32::MIN <= n <= i32::MAX
}

/// The id of a message.
pub open spec fn id_in(parts: PartsView) -> Option<IdView> {
    match (parts.number, parts.name) {
        (Some(n), _) if small(n) => Some(IdView::Number(n as i32)),
        (_, Some(t)) => Some(IdView::Text(t)),
        _ => None,
    }
}

/// The error in a message.
pub open spec fn error_in(parts: PartsView) -> Option<ResponseErrorView> {
    match (parts.code, parts.reason) {
        (Some(n), Some(message)) if small(n) => Some(
            ResponseErrorView { code: n as i32, message, data: parts.data },
        ),
        _ => None,
    }
}

/// The parameters in a message: absent ones are `null`.
pub open spec fn params_in(parts: PartsView) -> Seq<char> {
    match parts.params {
        Some(t) => t,
        None => "null"@,
    }
}

/// The message that there is: a request has an id and a method, a response has no method, and a
/// notification no id.
pub open spec fn message_in(parts: PartsView) -> Option<MessageView> {
    match (id_in(parts), parts.method) {
        (Some(id), Some(method)) => Some(
            MessageView::Request(RequestView { id, method, params: params_in(parts) }),
        ),
        (Some(id), None) => Some(
            MessageView::Response(
                ResponseView { id, result: parts.result, error: error_in(parts) },
            ),
        ),
        (None, Some(method)) => Some(
            MessageView::Notification(NotificationView { method, params: params_in(parts) }),
        ),
        (None, None) => None,
    }
}

/// The message that is read from some bytes.
pub open spec fn decoded(bytes: Seq<u8>) -> Option<MessageView> {
    match decoded_parts(bytes) {
        Some(parts) => message_in(parts),
        None => None,
    }
}

/// The JSON text, in UTF-8, that `serde_json::to_vec` writes for an `lsp_server::Message`.
pub uninterp spec fn encoded(message: MessageView) -> Seq<u8>;

/// The JSON text, in UTF-8, that `lsp_server::Message::write` puts behind the header: the message
/// with the version of the protocol added.
pub uninterp spec fn rpc_encoded(message: MessageView) -> Seq<u8>;

/// Two messages of the same kind that agree on everything by which a message is routed: the id,
/// the method, and whether and how a request failed.
pub open spec fn same_envelope(a: MessageView, b: MessageView) -> bool {
    match (a, b) {
        (MessageView::Request(a), MessageView::Request(b)) => a.id == b.id && a.method == b.method,
        (MessageView::Response(a), MessageView::Response(b)) => {
            &&& a.id == b.id
            &&& a.error is Some == b.error is Some
            &&& a.error is Some ==> a.error->0.code == b.error->0.code && a.error->0.message
                == b.error->0.message
        },
        (MessageView::Notification(a), MessageView::Notification(b)) => a.method == b.method,
        _ => false,
    }
}

/// Two messages of the same kind that carry the same values.
pub open spec fn same_values(a: MessageView, b: MessageView) -> bool {
    match (a, b) {
        (MessageView::Request(a), MessageView::Request(b)) => a.params == b.params,
        (MessageView::Response(a), MessageView::Response(b)) => a.result == b.result && a.error
            == b.error,
        (MessageView::Notification(a), MessageView::Notification(b)) => a.params == b.params,
        _ => false,
    }
}

/// The JSON text that `serde_json` prints for the value that a JSON text stands for, `None` where
/// `serde_json::from_str` reports an error.
pub uninterp spec fn printed_value(text: Seq<char>) -> Option<Seq<char>>;

/// The JSON text that a value goes by: as `serde_json` prints it. A text that is not JSON stands
/// for `null`.
pub open spec fn normal_value(text: Seq<char>) -> Seq<char> {
    if text == "null"@ {
        text
    } else {
        match printed_value(text) {
            Some(printed) => printed,
            None => "null"@,
        }
    }
}

/// How far the brackets of a JSON text are open: how many of them, how many at most up to here, and
/// whether a string is open and its next character escaped.
pub struct Nesting {
    pub open: int,
    pub deepest: int,
    pub quoted: bool,
    pub escaped: bool,
}

/// How far the brackets are open at the end of a JSON text.
pub open spec fn nesting(text: Seq<char>) -> Nesting
    decreases text.len(),
{
    if text.len() == 0 {
        Nesting { open: 0, deepest: 0, quoted: false, escaped: false }
    } else {
        let before = nesting(text.drop_last());
        let c = text.last();
        if before.escaped {
            Nesting { escaped: false, ..before }
        } else if before.quoted {
            Nesting { quoted: c != '"', escaped: c == '\\', ..before }
        } else if c == '"' {
            Nesting { quoted: true, ..before }
        } else if c == '[' || c == '{' {
            Nesting {
                open: before.open + 1,
                deepest: if before.open >= before.deepest {
                    before.open + 1
                } else {
                    before.deepest
                },
                ..before
            }
        } else if c == ']' || c == '}' {
            Nesting { open: before.open - 1, ..before }
        } else {
            before
        }
    }
}

/// A value that is not nested too deep to be read as part of a message.
pub open spec fn is_shallow(text: Seq<char>) -> bool {
    nesting(text).deepest <= 100
}

/// A message that is read back from its encoding: no value is nested too deep.
pub open spec fn is_portable(message: MessageView) -> bool {
    match message {
        MessageView::Request(m) => is_shallow(m.params),
        MessageView::Response(m) => {
            &&& m.result matches Some(t) ==> is_shallow(t)
            &&& m.error matches Some(e) ==> (e.data matches Some(t) ==> is_shallow(t))
        },
        MessageView::Notification(m) => is_shallow(m.params),
    }
}

/// A value that may be absent, as `serde_json` prints it. Where it is `null` it is absent.
pub open spec fn normal_option(text: Option<Seq<char>>) -> Option<Seq<char>> {
    match text {
        Some(t) => if normal_value(t) == "null"@ {
            None
        } else {
            Some(normal_value(t))
        },
        None => None,
    }
}

/// A message with its values as `serde_json` prints them, and without a result or data that is
/// `null`.
pub open spec fn normalized(message: MessageView) -> MessageView {
    match message {
        MessageView::Request(m) => MessageView::Request(
            RequestView { params: normal_value(m.params), ..m },
        ),
        MessageView::Response(m) => MessageView::Response(
            ResponseView {
                result: normal_option(m.result),
                error: match m.error {
                    Some(e) => Some(ResponseErrorView { data: normal_option(e.data), ..e }),
                    None => None,
                },
                ..m
            },
        ),
        MessageView::Notification(m) => MessageView::Notification(
            NotificationView { params: normal_value(m.params), ..m },
        ),
    }
}

/// A message whose values are all as `serde_json` prints them, and whose result and data are not
/// `null`.
pub open spec fn has_normal_values(message: MessageView) -> bool {
    match message {
        MessageView::Request(m) => normal_value(m.params) == m.params,
        MessageView::Response(m) => {
            &&& normal_option(m.result) == m.result
            &&& m.error matches Some(e) ==> normal_option(e.data) == e.data
        },
        MessageView::Notification(m) => normal_value(m.params) == m.params,
    }
}

/// What reading a message back from `text` gives, where `message` was written as `text`: the same
/// envelope; the very same message where the values it carries have been read before; and the
/// message with its values as `serde_json` prints them where it is portable.
pub open spec fn reads_back(text: Seq<u8>, message: MessageView) -> bool {
    &&& decoded(text) matches Some(m) ==> same_envelope(m, message)
    &&& forall|source: Seq<u8>|
        (#[trigger] decoded(source) matches Some(m) && same_values(m, message)) ==> decoded(text)
            == Some(message)
    &&& is_portable(message) ==> decoded(text) == Some(normalized(message))
}

/// A frame around a text, in UTF-8, from which `message` is read back.
pub open spec fn carries(frame: Seq<u8>, message: MessageView) -> bool {
    exists|body: Seq<u8>|
        #![trigger framed(body)]
        frame == framed(body) && body == rpc_encoded(message) && valid_utf8(body) && reads_back(
            body,
            message,
        )
}

/// Calls `serde_json::from_slice` for an `lsp_server::Message`, and `serde_json::to_value` for what
/// it gives. Claims that the parts are a function of the bytes.
#[verifier::external_body]
pub(crate) fn from_json(bytes: &[u8]) -> (r: Option<Parts>)
    ensures
        match r {
            Some(p) => decoded_parts(bytes@) == Some(p@),
            None => decoded_parts(bytes@) is None,
        },
{
    let v = to_value(from_slice::<Rpc>(bytes).ok()?).unwrap();
    let e = &v["error"];
    Some(Parts {
        number: v["id"].as_i64(),
        name: v["id"].as_str().map(String::from),
        method: v["method"].as_str().map(String::from),
        params: v.get("params").map(Value::to_string),
        result: v.get("result").map(Value::to_string),
        code: e["code"].as_i64(),
        reason: e["message"].as_str().map(String::from),
        data: e.get("data").map(Value::to_string),
    })
}

/// Calls `serde_json::to_vec` for an `lsp_server::Message`. A text that is not JSON stands for
/// `null`. Claims that the bytes are a function of the message, that they are text, and that the
/// message can be read back from them as far as [`reads_back`] says.
#[verifier::external_body]
pub(crate) fn to_json(message: Message) -> (r: Vec<u8>)
    ensures
        r@ == encoded(message@),
        valid_utf8(r@),
        reads_back(r@, message@),
{
    let value = |t: String| from_str(&t).unwrap_or_default();
    let id = |id| match id {
        Number(n) => RpcId::from(n),
        Text(t) => t.into(),
    };
    to_vec(&match message {
        Message::Request(m) => Rpc::from(RpcRequest::new(id(m.id), m.method, value(m.params))),
        Message::Response(m) => RpcResponse {
            id: id(m.id), result: m.result.map(value),
            error: m.error.map(|ResponseError { code, message, data }|
                RpcError { code, message, data: data.map(value) }) }.into(),
        Message::Notification(m) => RpcNotification::new(m.method, value(m.params)).into(),
    }).unwrap()
}

/// Calls `serde_json::from_str` for a `serde_json::Value`, and prints what it gives. Claims that
/// the result is a function of the text.
#[verifier::external_body]
fn print_value(text: &str) -> (r: Option<String>)
    ensures
        match r {
            Some(printed) => printed_value(text@) == Some(printed@),
            None => printed_value(text@) is None,
        },
{
    Some(from_str::<Value>(text).ok()?.to_string())
}

/// The JSON text that a value goes by.
pub fn normalize(text: &str) -> (normal: String)
    ensures
        normal@ == normal_value(text@),
{
    if same_text(text, "null") {
        return text.to_owned();
    }
    match print_value(text) {
        Some(printed) => printed,
        None => "null".to_owned(),
    }
}

/// Reads a message from its JSON text.
pub fn decode_message(bytes: &[u8]) -> (message: Option<Message>)
    ensures
        match message {
            Some(m) => decoded(bytes@) == Some(m@),
            None => decoded(bytes@) is None,
        },
{
    match from_json(bytes) {
        Some(parts) => assemble(parts),
        None => None,
    }
}

/// The message that there is in some parts.
pub fn assemble(parts: Parts) -> (message: Option<Message>)
    ensures
        match message {
            Some(m) => message_in(parts@) == Some(m@),
            None => message_in(parts@) is None,
        },
{
    let id: Option<RequestId> = match (parts.number, parts.name) {
        (Some(n), _) if n >= -0x8000_0000 && n <= 0x7fff_ffff => Some(Number(n as i32)),
        (_, Some(t)) => Some(Text(t)),
        _ => None,
    };
    let error: Option<ResponseError> = match (parts.code, parts.reason) {
        (Some(n), Some(message)) if n >= -0x8000_0000 && n <= 0x7fff_ffff => Some(
            ResponseError { code: n as i32, message, data: parts.data },
        ),
        _ => None,
    };
    let params: String = match parts.params {
        Some(t) => t,
        None => "null".to_owned(),
    };
    match (id, parts.method) {
        (Some(id), Some(method)) => Some(Message::Request(Request { id, method, params })),
        (Some(id), None) => Some(
            Message::Response(Response { id, result: parts.result, error }),
        ),
        (None, Some(method)) => Some(Message::Notification(Notification { method, params })),
        (None, None) => None,
    }
}

/// The request that a message is, `None` where it is something else.
pub open spec fn request_in(message: Option<MessageView>) -> Option<RequestView> {
    match message {
        Some(MessageView::Request(request)) => Some(request),
        _ => None,
    }
}

/// Reads a request from its JSON text; any other message is none.
pub fn decode_request(bytes: &[u8]) -> (request: Option<Request>)
    ensures
        match request {
            Some(r) => request_in(decoded(bytes@)) == Some(r@),
            None => request_in(decoded(bytes@)) is None,
        },
{
    match decode_message(bytes) {
        Some(Message::Request(request)) => Some(request),
        _ => None,
    }
}

/// Writes the JSON text of a message.
pub fn encode_message(message: Message) -> (bytes: Vec<u8>)
    ensures
        bytes@ == encoded(message@),
        valid_utf8(bytes@),
        reads_back(bytes@, message@),
{
    to_json(message)
}

/// Calls `lsp_server::Message::write`. A text that is not JSON stands for `null`. Claims that what
/// is written to an empty buffer is a text, a function of the message, behind the header that
/// announces its length, and that the message can be read back from that text as far as
/// [`reads_back`] says.
#[verifier::external_body]
pub(crate) fn to_rpc(message: Message, r: &mut Vec<u8>)
    requires
        old(r)@.len() == 0,
    ensures
        final(r)@ == framed(rpc_encoded(message@)),
        carries(final(r)@, message@),
{
    let value = |t: String| from_str(&t).unwrap_or_default();
    let id = |id| match id {
        Number(n) => RpcId::from(n),
        Text(t) => t.into(),
    };
    (match message {
        Message::Request(m) => Rpc::from(RpcRequest::new(id(m.id), m.method, value(m.params))),
        Message::Response(m) => RpcResponse {
            id: id(m.id), result: m.result.map(value),
            error: m.error.map(|ResponseError { code, message, data }|
                RpcError { code, message, data: data.map(value) }) }.into(),
        Message::Notification(m) => RpcNotification::new(m.method, value(m.params)).into(),
    }).write(r).unwrap()
}

/// A message is told by its parts: a request has an id and a method, a response has an id and no
/// method, and a notification has a method and no id. An id is a number that fits, or else a text.
/// Parameters that are absent are `null`, and an error takes a code that fits and a message.
/// Everything else is as the parts say.
pub proof fn law_message_by_its_parts(parts: PartsView, id: IdView)
    requires
        match id {
            IdView::Number(n) => parts.number == Some(n as i64),
            IdView::Text(t) => parts.name == Some(t) && (parts.number matches Some(n) ==> !(
            -0x8000_0000 <= n <= 0x7fff_ffff)),
        },
    ensures
        parts.method matches Some(method) ==> message_in(parts) == Some(
            MessageView::Request(
                RequestView {
                    id,
                    method,
                    params: match parts.params {
                        Some(t) => t,
                        None => "null"@,
                    },
                },
            ),
        ),
        parts.method is None ==> {
            &&& message_in(parts) matches Some(MessageView::Response(m))
            &&& m.id == id
            &&& m.result == parts.result
            &&& parts.code matches Some(n) ==> (parts.reason matches Some(reason) ==> (-0x8000_0000
                <= n <= 0x7fff_ffff ==> m.error == Some(
                ResponseErrorView { code: n as i32, message: reason, data: parts.data },
            )))
            &&& parts.code is None || parts.reason is None ==> m.error is None
        },
{
}

/// Without an id, a message with a method is a notification, and anything else is no message.
pub proof fn law_message_without_id(parts: PartsView)
    requires
        parts.name is None,
        parts.number matches Some(n) ==> !(-0x8000_0000 <= n <= 0x7fff_ffff),
    ensures
        parts.method matches Some(method) ==> message_in(parts) == Some(
            MessageView::Notification(
                NotificationView {
                    method,
                    params: match parts.params {
                        Some(t) => t,
                        None => "null"@,
                    },
                },
            ),
        ),
        parts.method is None ==> message_in(parts) is None,
{
}

/// Only a request is read as one, and it is read as it is.
pub proof fn law_only_requests_are_requests(bytes: &[u8], request: Option<Request>)
    requires
        call_ensures(decode_request, (bytes,), request),
    ensures
        decoded(bytes@) matches Some(MessageView::Request(said)) ==> (request matches Some(r) && r@
            == said),
        decoded(bytes@) is None ==> request is None,
        decoded(bytes@) matches Some(MessageView::Response(_)) ==> request is None,
        decoded(bytes@) matches Some(MessageView::Notification(_)) ==> request is None,
{
}

} // verus!
