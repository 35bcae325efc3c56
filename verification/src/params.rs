//! The parameters of the messages that the daemon looks into, as `lsp_types` reads them.

use crate::message::{text_view, IdView, RequestId};
use crate::text::integer_text;
use lsp_types::{NumberOrString, Url};
use serde_json::{from_str, from_value, to_value, Value};
use vstd::prelude::*;

verus! {

/// A text document: its URI in normal form, and the path part of it.
#[derive(Debug, PartialEq, Eq)]
pub struct Document {
    pub uri: String,
    pub path: String,
}

/// A change of a text document: for each piece of it the line where it begins, if it has a range.
#[derive(Debug, PartialEq, Eq)]
pub struct DocumentChange {
    pub document: Document,
    pub lines: Vec<Option<u32>>,
}

/// A capability that a server has registered.
#[derive(Debug, PartialEq, Eq)]
pub struct Registration {
    pub id: String,
    pub method: String,
    pub options: Option<String>,
}

/// What the daemon needs of the parameters of an `initialize` request, and the parameters as they
/// go on to the server.
#[derive(Debug, PartialEq, Eq)]
pub struct InitializeParams {
    pub root_uri: Option<String>,
    pub root_path: Option<String>,
    /// Whether the client can show progress: `None` where it says nothing of windows at all.
    pub work_done_progress: Option<Option<bool>>,
    pub params: String,
}

/// What a [`Document`] is.
pub struct DocumentView {
    pub uri: Seq<char>,
    pub path: Seq<char>,
}

/// What a [`DocumentChange`] is.
pub struct ChangeView {
    pub document: DocumentView,
    pub lines: Seq<Option<u32>>,
}

/// What a [`Registration`] is.
pub struct RegistrationView {
    pub id: Seq<char>,
    pub method: Seq<char>,
    pub options: Option<Seq<char>>,
}

/// What [`InitializeParams`] are.
pub struct InitializeView {
    pub root_uri: Option<Seq<char>>,
    pub root_path: Option<Seq<char>>,
    pub work_done_progress: Option<Option<bool>>,
    pub params: Seq<char>,
}

impl View for Document {
    type V = DocumentView;

    open spec fn view(&self) -> DocumentView {
        DocumentView { uri: self.uri@, path: self.path@ }
    }
}

impl View for DocumentChange {
    type V = ChangeView;

    open spec fn view(&self) -> ChangeView {
        ChangeView { document: self.document@, lines: self.lines@ }
    }
}

impl View for Registration {
    type V = RegistrationView;

    open spec fn view(&self) -> RegistrationView {
        RegistrationView { id: self.id@, method: self.method@, options: text_view(self.options) }
    }
}

impl View for InitializeParams {
    type V = InitializeView;

    open spec fn view(&self) -> InitializeView {
        InitializeView {
            root_uri: text_view(self.root_uri),
            root_path: text_view(self.root_path),
            work_done_progress: self.work_done_progress,
            params: self.params@,
        }
    }
}

/// What each item of a list of registrations is.
pub open spec fn registration_views(list: Seq<Registration>) -> Seq<RegistrationView> {
    Seq::new(list.len(), |i: int| list[i]@)
}

/// What each pair of a list of pairs of texts is.
pub open spec fn pair_views(list: Seq<(String, String)>) -> Seq<(Seq<char>, Seq<char>)> {
    Seq::new(list.len(), |i: int| (list[i].0@, list[i].1@))
}

/// The document that a JSON text names as `lsp_types::DidOpenTextDocumentParams`, `None` where it
/// cannot be read as such.
pub uninterp spec fn opened_document(params: Seq<char>) -> Option<DocumentView>;

/// The change that a JSON text describes as `lsp_types::DidChangeTextDocumentParams`.
pub uninterp spec fn changed_document(params: Seq<char>) -> Option<ChangeView>;

/// The document that a JSON text names as `lsp_types::DidCloseTextDocumentParams`.
pub uninterp spec fn closed_document(params: Seq<char>) -> Option<DocumentView>;

/// The document that a JSON text names as `lsp_types::DidSaveTextDocumentParams`.
pub uninterp spec fn saved_document(params: Seq<char>) -> Option<DocumentView>;

/// The old and new names that a JSON text lists as `lsp_types::RenameFilesParams`.
pub uninterp spec fn renamed_files(params: Seq<char>) -> Option<Seq<(Seq<char>, Seq<char>)>>;

/// The URI that a text is, in normal form, `None` where `lsp_types::Url::parse` reports an error.
pub uninterp spec fn normal_uri(text: Seq<char>) -> Option<Seq<char>>;

/// The JSON text of `lsp_types::DidCloseTextDocumentParams` for a URI.
pub uninterp spec fn close_params(uri: Seq<char>) -> Seq<char>;

/// The id that a JSON text names as `lsp_types::CancelParams`.
pub uninterp spec fn cancelled_id(params: Seq<char>) -> Option<IdView>;

/// The registrations that a JSON text lists as `lsp_types::RegistrationParams`.
pub uninterp spec fn registrations(params: Seq<char>) -> Option<Seq<RegistrationView>>;

/// The ids and methods that a JSON text lists as `lsp_types::UnregistrationParams`.
pub uninterp spec fn unregistrations(params: Seq<char>) -> Option<Seq<(Seq<char>, Seq<char>)>>;

/// What a JSON text says as `lsp_types::InitializeParams`, and the JSON text of those parameters.
pub uninterp spec fn initialize_params(params: Seq<char>) -> Option<InitializeView>;

/// The JSON text of the `lsp_types::InitializeResult` that a JSON text can be read as.
pub uninterp spec fn initialize_result(result: Seq<char>) -> Option<Seq<char>>;

/// A JSON text that can be read as `lsp_types::ProgressParams`.
pub uninterp spec fn is_progress(params: Seq<char>) -> bool;

/// Calls `serde_json::from_value` for `lsp_types::DidOpenTextDocumentParams`. Claims that the
/// result is a function of the text.
#[verifier::external_body]
pub(crate) fn parse_did_open(params: &str) -> (r: Option<Document>)
    ensures
        match r {
            Some(d) => opened_document(params@) == Some(d@),
            None => opened_document(params@) is None,
        },
{
    let value: Value = from_str(params).ok()?;
    let parsed: lsp_types::DidOpenTextDocumentParams = from_value(value).ok()?;
    let uri = parsed.text_document.uri;
    Some(Document { uri: uri.to_string(), path: uri.path().to_string() })
}

/// Calls `serde_json::from_value` for `lsp_types::DidChangeTextDocumentParams`. Claims that the
/// result is a function of the text.
#[verifier::external_body]
pub(crate) fn parse_did_change(params: &str) -> (r: Option<DocumentChange>)
    ensures
        match r {
            Some(c) => changed_document(params@) == Some(c@),
            None => changed_document(params@) is None,
        },
{
    let value: Value = from_str(params).ok()?;
    let parsed: lsp_types::DidChangeTextDocumentParams = from_value(value).ok()?;
    let uri = parsed.text_document.uri;
    Some(DocumentChange {
        document: Document { uri: uri.to_string(), path: uri.path().to_string() },
        lines: parsed.content_changes.iter().map(|c| c.range.map(|r| r.start.line)).collect(),
    })
}

/// Calls `serde_json::from_value` for `lsp_types::DidCloseTextDocumentParams`. Claims that the
/// result is a function of the text.
#[verifier::external_body]
pub(crate) fn parse_did_close(params: &str) -> (r: Option<Document>)
    ensures
        match r {
            Some(d) => closed_document(params@) == Some(d@),
            None => closed_document(params@) is None,
        },
{
    let value: Value = from_str(params).ok()?;
    let parsed: lsp_types::DidCloseTextDocumentParams = from_value(value).ok()?;
    let uri = parsed.text_document.uri;
    Some(Document { uri: uri.to_string(), path: uri.path().to_string() })
}

/// Calls `serde_json::from_value` for `lsp_types::DidSaveTextDocumentParams`. Claims that the
/// result is a function of the text.
#[verifier::external_body]
pub(crate) fn parse_did_save(params: &str) -> (r: Option<Document>)
    ensures
        match r {
            Some(d) => saved_document(params@) == Some(d@),
            None => saved_document(params@) is None,
        },
{
    let value: Value = from_str(params).ok()?;
    let parsed: lsp_types::DidSaveTextDocumentParams = from_value(value).ok()?;
    let uri = parsed.text_document.uri;
    Some(Document { uri: uri.to_string(), path: uri.path().to_string() })
}

/// Calls `serde_json::from_value` for `lsp_types::RenameFilesParams`. Claims that the result is a
/// function of the text.
#[verifier::external_body]
pub(crate) fn parse_did_rename(params: &str) -> (r: Option<Vec<(String, String)>>)
    ensures
        match r {
            Some(files) => renamed_files(params@) == Some(pair_views(files@)),
            None => renamed_files(params@) is None,
        },
{
    let value: Value = from_str(params).ok()?;
    let parsed: lsp_types::RenameFilesParams = from_value(value).ok()?;
    Some(parsed.files.into_iter().map(|f| (f.old_uri, f.new_uri)).collect())
}

/// Calls `lsp_types::Url::parse`. Claims that the result is a function of the text.
#[verifier::external_body]
pub(crate) fn parse_uri(text: &str) -> (r: Option<String>)
    ensures
        match r {
            Some(uri) => normal_uri(text@) == Some(uri@),
            None => normal_uri(text@) is None,
        },
{
    Some(Url::parse(text).ok()?.to_string())
}

/// Parameters that say, when they are read, that the document `uri` is closed, if its name is a URI
/// in normal form.
pub open spec fn closes(params: Seq<char>, uri: Seq<char>) -> bool {
    normal_uri(uri) == Some(uri) ==> (closed_document(params) matches Some(d) && d.uri == uri)
}

/// Calls `serde_json::to_value` for the `lsp_types::DidCloseTextDocumentParams` of a URI; `null`
/// stands for a text that is no URI. Claims that the result is a function of the text, and that a
/// URI in normal form is read back from it.
#[verifier::external_body]
pub(crate) fn print_did_close(uri: &str) -> (r: String)
    ensures
        r@ == close_params(uri@),
        closes(r@, uri@),
{
    match Url::parse(uri) {
        Ok(uri) => to_value(lsp_types::DidCloseTextDocumentParams {
            text_document: lsp_types::TextDocumentIdentifier { uri },
        }).unwrap().to_string(),
        Err(_) => Value::Null.to_string(),
    }
}

/// Calls `serde_json::from_value` for `lsp_types::CancelParams`. Claims that the result is a
/// function of the text.
#[verifier::external_body]
pub(crate) fn parse_cancel(params: &str) -> (r: Option<RequestId>)
    ensures
        match r {
            Some(id) => cancelled_id(params@) == Some(id@),
            None => cancelled_id(params@) is None,
        },
{
    let value: Value = from_str(params).ok()?;
    let parsed: lsp_types::CancelParams = from_value(value).ok()?;
    Some(match parsed.id {
        NumberOrString::Number(n) => RequestId::Number(n),
        NumberOrString::String(t) => RequestId::Text(t),
    })
}

/// The JSON text that asks to cancel the request `id`.
pub open spec fn cancel_params(id: i32) -> Seq<char> {
    "{\"id\":"@ + integer_text(id as int) + "}"@
}

/// Calls `serde_json::to_value` for `lsp_types::CancelParams`. Claims what the text is.
#[verifier::external_body]
pub(crate) fn print_cancel(id: i32) -> (r: String)
    ensures
        r@ == cancel_params(id),
{
    to_value(lsp_types::CancelParams { id: NumberOrString::Number(id) }).unwrap().to_string()
}

/// Calls `serde_json::from_value` for `lsp_types::RegistrationParams`. Claims that the result is
/// a function of the text.
#[verifier::external_body]
pub(crate) fn parse_registrations(params: &str) -> (r: Option<Vec<Registration>>)
    ensures
        match r {
            Some(list) => registrations(params@) == Some(registration_views(list@)),
            None => registrations(params@) is None,
        },
{
    let value: Value = from_str(params).ok()?;
    let parsed: lsp_types::RegistrationParams = from_value(value).ok()?;
    Some(parsed.registrations.into_iter().map(|r| Registration {
        id: r.id,
        method: r.method,
        options: r.register_options.map(|v| v.to_string()),
    }).collect())
}

/// Calls `serde_json::from_value` for `lsp_types::UnregistrationParams`. Claims that the result
/// is a function of the text.
#[verifier::external_body]
pub(crate) fn parse_unregistrations(params: &str) -> (r: Option<Vec<(String, String)>>)
    ensures
        match r {
            Some(list) => unregistrations(params@) == Some(pair_views(list@)),
            None => unregistrations(params@) is None,
        },
{
    let value: Value = from_str(params).ok()?;
    let parsed: lsp_types::UnregistrationParams = from_value(value).ok()?;
    Some(parsed.unregisterations.into_iter().map(|u| (u.id, u.method)).collect())
}

/// Calls `serde_json::from_value` for `lsp_types::InitializeParams`, and `serde_json::to_value` for
/// what it gives. Claims that the result is a function of the text.
#[allow(deprecated)]
#[verifier::external_body]
pub(crate) fn parse_initialize(params: &str) -> (r: Option<InitializeParams>)
    ensures
        match r {
            Some(p) => initialize_params(params@) == Some(p@),
            None => initialize_params(params@) is None,
        },
{
    let value: Value = from_str(params).ok()?;
    let parsed: lsp_types::InitializeParams = from_value(value).ok()?;
    Some(InitializeParams {
        root_uri: parsed.root_uri.as_ref().map(|uri| uri.to_string()),
        root_path: parsed.root_path.clone(),
        work_done_progress: parsed.capabilities.window.as_ref().map(|w| w.work_done_progress),
        params: to_value(parsed).unwrap().to_string(),
    })
}

/// Calls `serde_json::from_value` for `lsp_types::InitializeResult`, and `serde_json::to_value` for
/// what it gives. Claims that the result is a function of the text.
#[verifier::external_body]
pub(crate) fn parse_initialize_result(result: &str) -> (r: Option<String>)
    ensures
        match r {
            Some(t) => initialize_result(result@) == Some(t@),
            None => initialize_result(result@) is None,
        },
{
    let value: Value = from_str(result).ok()?;
    let parsed: lsp_types::InitializeResult = from_value(value).ok()?;
    Some(to_value(parsed).unwrap().to_string())
}

/// Calls `serde_json::from_value` for `lsp_types::ProgressParams`. Claims that whether it succeeds
/// is a function of the text.
#[verifier::external_body]
pub(crate) fn parses_as_progress(params: &str) -> (r: bool)
    ensures
        r == is_progress(params@),
{
    let value: Option<Value> = from_str(params).ok();
    value.map(from_value::<lsp_types::ProgressParams>).map_or(false, |r| r.is_ok())
}

/// A cancellation holds the id of the request and nothing else.
pub proof fn law_cancellation_holds_the_id(id: i32)
    ensures
        cancel_params(id) == "{\"id\":"@ + integer_text(id as int) + "}"@,
{
}

} // verus!
