use rad::error::Error;
use rad::events::{read_notification, ClientEvent};
use rad::ids::{ClientId, ServerId};
use rad::intake::{read_incoming, take_in, Incoming};
use rad::message::{Message, Notification, Request, RequestId, Response, ResponseError};
use rad::params::{InitializeParams, Registration};
use rad::peers::{read_grant, Grant, ServerState};
use rad::server::{Action, GlobalState, NewConnection, SpawnRequest, Task};
use rad::types::{BootstrapMessage, Config};
use std::path::PathBuf;

const RESULT: &str = "{\"capabilities\":{}}";
const FILE: &str = "file:///w/a.rs";

fn number(n: i32) -> RequestId {
    RequestId::Number(n)
}

fn text(t: &str) -> RequestId {
    RequestId::Text(t.to_string())
}

fn request(id: RequestId, method: &str, params: &str) -> Request {
    Request { id, method: method.to_string(), params: params.to_string() }
}

fn response(id: RequestId, result: &str) -> Response {
    Response { id, result: Some(result.to_string()), error: None }
}

fn refusal(id: RequestId) -> Response {
    let error = ResponseError { code: 1, message: "refused".to_string(), data: None };
    Response { id, result: None, error: Some(error) }
}

fn notification(method: &str, params: &str) -> Notification {
    Notification { method: method.to_string(), params: params.to_string() }
}

fn open(uri: &str) -> Notification {
    let params = format!(
        "{{\"textDocument\":{{\"uri\":\"{uri}\",\"languageId\":\"rust\",\"version\":1,\"text\":\"\"}}}}"
    );
    notification("textDocument/didOpen", &params)
}

fn change(uri: &str) -> Notification {
    let params = format!(
        "{{\"textDocument\":{{\"uri\":\"{uri}\",\"version\":2}},\"contentChanges\":[{{\"text\":\"x\"}}]}}"
    );
    notification("textDocument/didChange", &params)
}

fn close(uri: &str) -> Notification {
    notification("textDocument/didClose", &format!("{{\"textDocument\":{{\"uri\":\"{uri}\"}}}}"))
}

fn save(uri: &str) -> Notification {
    notification("textDocument/didSave", &format!("{{\"textDocument\":{{\"uri\":\"{uri}\"}}}}"))
}

fn rename(from: &str, to: &str) -> Notification {
    let params = format!("{{\"files\":[{{\"oldUri\":\"{from}\",\"newUri\":\"{to}\"}}]}}");
    notification("workspace/didRenameFiles", &params)
}

fn to_client(id: u32, message: Message) -> Action {
    Action::ToClient(ClientId(id), message)
}

fn to_server(id: u32, message: Message) -> Action {
    Action::ToServer(ServerId(id), message)
}

fn farewell(id: u32) -> Vec<Action> {
    vec![
        to_client(id, Message::Notification(notification("$/exit", "null"))),
        Action::CloseClient(ClientId(id)),
    ]
}

fn away(id: u32) -> Vec<Action> {
    vec![Action::CloseClient(ClientId(id))]
}

fn state() -> GlobalState {
    GlobalState::new(Config::new(PathBuf::from("/s"), Some("ra".to_string()), None))
}

fn connection(id: u32, root: &str) -> NewConnection {
    NewConnection {
        id: ClientId(id),
        bootstrap: BootstrapMessage { cwd: "/w".to_string(), args: vec![], envs: vec![] },
        request: request(
            text("init"),
            "initialize",
            &format!("{{\"processId\":5,\"rootPath\":\"{root}\",\"capabilities\":{{}}}}"),
        ),
        files: vec![],
    }
}

fn handle(state: &mut GlobalState, task: Task) -> (Result<Option<SpawnRequest>, Error>, Vec<Action>) {
    assert!(state.admits(&task));
    let mut out = Vec::new();
    let result = state.handle_task(task, &mut out);
    (result, out)
}

/// The actions of an event that is accepted.
fn accepted(state: &mut GlobalState, task: Task) -> Vec<Action> {
    let (result, out) = handle(state, task);
    assert!(matches!(result, Ok(None)));
    out
}

/// The error and the actions of an event that is refused.
fn refused(state: &mut GlobalState, task: Task) -> (Error, Vec<Action>) {
    let (result, out) = handle(state, task);
    (result.err().unwrap(), out)
}

fn says(id: u32, n: Notification) -> Task {
    Task::ClientMessage(ClientId(id), Message::Notification(n))
}

fn asks(id: u32, r: Request) -> Task {
    Task::ClientMessage(ClientId(id), Message::Request(r))
}

fn answers(id: u32, r: Response) -> Task {
    Task::ClientMessage(ClientId(id), Message::Response(r))
}

fn server_asks(id: u32, r: Request) -> Task {
    Task::ServerMessage(ServerId(id), Message::Request(r))
}

fn server_answers(id: u32, r: Response) -> Task {
    Task::ServerMessage(ServerId(id), Message::Response(r))
}

fn server_says(id: u32, n: Notification) -> Task {
    Task::ServerMessage(ServerId(id), Message::Notification(n))
}

/// Starts a server for the client `id`, which waits for its initialization.
fn start(state: &mut GlobalState, id: u32, root: &str) -> Vec<Action> {
    let (result, out) = handle(state, Task::NewConnection(connection(id, root)));
    assert_eq!(out, vec![]);
    let spawn = result.unwrap().unwrap();
    let mut out = Vec::new();
    state.server_spawned(spawn, &mut out);
    out
}

/// A daemon with one initialized server and the client 0, which is its primary.
fn running() -> GlobalState {
    let mut st = state();
    start(&mut st, 0, "/w");
    accepted(&mut st, server_answers(0, response(number(0), RESULT)));
    accepted(&mut st, says(0, notification("initialized", "{}")));
    st
}

/// The same with a second client, 1.
fn shared() -> GlobalState {
    let mut st = running();
    accepted(&mut st, Task::NewConnection(connection(1, "/w")));
    accepted(&mut st, says(1, notification("initialized", "{}")));
    st
}

#[test]
fn first_client_starts_a_server() {
    let mut st = state();
    let (result, out) = handle(&mut st, Task::NewConnection(connection(7, "/w")));
    assert_eq!(out, vec![]);
    let spawn = result.unwrap().unwrap();
    assert_eq!(spawn.client_id, ClientId(7));
    assert_eq!(spawn.server_id, ServerId(0));
    assert_eq!(spawn.descriptor.bin, "ra");
    assert_eq!(spawn.descriptor.workspace, "/w");
    assert_eq!(spawn.command.bin, "ra");
    assert_eq!(spawn.command.cwd, "/w");
    let params = "{\"capabilities\":{},\"processId\":5,\"rootPath\":\"/w\",\"rootUri\":null}";
    assert_eq!(spawn.params, params);
    let mut out = Vec::new();
    st.server_spawned(spawn, &mut out);
    let sent = request(number(0), "initialize", params);
    assert_eq!(out, vec![to_server(0, Message::Request(sent))]);
}

#[test]
fn sender_is_kept() {
    let mut st = state();
    let (tx, _rx) = tokio::sync::mpsc::channel::<Task>(1);
    st.set_sender(tx);
    assert_eq!(st.sender().max_capacity(), 1);
}

#[test]
fn every_waiting_client_is_told_of_the_initialization() {
    let mut st = state();
    start(&mut st, 0, "/w");
    let mut second = connection(1, "/w");
    second.request.id = number(9);
    assert_eq!(accepted(&mut st, Task::NewConnection(second)), vec![]);
    let mut out = accepted(&mut st, server_answers(0, response(number(0), RESULT)));
    out.sort_by_key(|a| format!("{a:?}"));
    assert_eq!(
        out,
        vec![
            to_client(0, Message::Response(response(text("init"), RESULT))),
            to_client(1, Message::Response(response(number(9), RESULT))),
        ]
    );
}

#[test]
fn late_client_is_told_at_once() {
    let mut st = running();
    let out = accepted(&mut st, Task::NewConnection(connection(1, "/w")));
    assert_eq!(out, vec![to_client(1, Message::Response(response(text("init"), RESULT)))]);
}

#[test]
fn other_workspace_gets_another_server() {
    let mut st = running();
    let (result, _) = handle(&mut st, Task::NewConnection(connection(1, "/v")));
    assert_eq!(result.unwrap().unwrap().server_id, ServerId(1));
}

#[test]
fn server_that_could_not_be_started_leaves_no_trace() {
    let mut st = state();
    let (result, _) = handle(&mut st, Task::NewConnection(connection(0, "/w")));
    let mut out = Vec::new();
    st.spawn_failed(result.unwrap().unwrap(), &mut out);
    assert_eq!(out, away(0));
    let (error, out) = refused(&mut st, asks(0, request(number(1), "m", "null")));
    assert_eq!((error, out), (Error::ClientNotFound, vec![]));
    let (result, _) = handle(&mut st, Task::NewConnection(connection(0, "/w")));
    assert_eq!(result.unwrap().unwrap().server_id, ServerId(1));
}

#[test]
fn client_has_to_begin_with_initialize() {
    let mut st = state();
    let mut conn = connection(0, "/w");
    conn.request.method = "shutdown".to_string();
    assert_eq!(refused(&mut st, Task::NewConnection(conn)), (Error::NotInitialize, away(0)));
    let mut conn = connection(0, "/w");
    conn.request.params = "{}".to_string();
    let invalid = Error::InvalidParams("initialize".to_string());
    assert_eq!(refused(&mut st, Task::NewConnection(conn)), (invalid, away(0)));
}

#[test]
fn workspace_of_a_client_has_to_be_known() {
    let mut st = state();
    let mut conn = connection(0, "/w");
    conn.request.params = "{\"processId\":null,\"rootUri\":null,\"capabilities\":{}}".to_string();
    let unknown = Error::NoWorkspace("/w".to_string());
    assert_eq!(refused(&mut st, Task::NewConnection(conn)), (unknown, away(0)));
    let mut conn = connection(0, "/w");
    conn.request.params = "{\"processId\":null,\"rootUri\":null,\"capabilities\":{}}".to_string();
    conn.bootstrap.cwd = "w".to_string();
    assert_eq!(refused(&mut st, Task::NewConnection(conn)), (Error::RelativeDirectory, away(0)));
    let mut conn = connection(0, "/w");
    conn.request.params = "{\"processId\":null,\"rootUri\":null,\"capabilities\":{}}".to_string();
    conn.files = vec!["/Cargo.toml".to_string()];
    let (result, _) = handle(&mut st, Task::NewConnection(conn));
    assert_eq!(result.unwrap().unwrap().descriptor.workspace, "/");
}

#[test]
fn root_uri_is_normal() {
    let mut st = state();
    let mut conn = connection(0, "/w");
    conn.request.params =
        "{\"processId\":null,\"rootUri\":\"FILE:///v/../w\",\"capabilities\":{\"window\":{\"workDoneProgress\":true}}}"
            .to_string();
    let (result, _) = handle(&mut st, Task::NewConnection(conn));
    let spawn = result.unwrap().unwrap();
    assert_eq!(spawn.descriptor.workspace, "file:///w");
    assert!(spawn.info.work_done_progress);
}

#[test]
fn parameters_given_as_values() {
    let mut st = state();
    let init = InitializeParams {
        root_uri: None,
        root_path: Some("/x".to_string()),
        work_done_progress: Some(Some(true)),
        params: "{\"p\":1}".to_string(),
    };
    let mut out = Vec::new();
    let spawn = st.connect_client(connection(3, "/w"), Some(init), &mut out).unwrap().unwrap();
    assert_eq!(out, vec![]);
    assert_eq!(spawn.descriptor.workspace, "/x");
    assert_eq!(spawn.params, "{\"p\":1}");
    assert!(spawn.info.work_done_progress);
    let error = st.connect_client(connection(3, "/w"), None, &mut out).err();
    assert_eq!(error, Some(Error::InvalidParams("initialize".to_string())));
    assert_eq!(out, away(3));
}

#[test]
fn failed_initialization_drops_the_server_and_its_clients() {
    let mut st = state();
    start(&mut st, 0, "/w");
    let (error, out) = refused(&mut st, server_answers(0, refusal(number(0))));
    assert_eq!(error, Error::InitializationFailed("refused".to_string()));
    let mut expected = vec![to_client(0, Message::Response(refusal(text("init"))))];
    expected.extend(farewell(0));
    expected.push(Action::KillServer(ServerId(0)));
    assert_eq!(out, expected);
    let gone = refused(&mut st, server_says(0, notification("m", "null")));
    assert_eq!(gone, (Error::ServerNotFound, vec![]));
    let (result, _) = handle(&mut st, Task::NewConnection(connection(1, "/w")));
    assert_eq!(result.unwrap().unwrap().server_id, ServerId(1));
}

#[test]
fn initialization_result_has_to_be_readable() {
    for bad in ["{}", "null", "3"] {
        let mut st = state();
        start(&mut st, 0, "/w");
        let (error, _) = refused(&mut st, server_answers(0, response(number(0), bad)));
        let why = "Invalid 'InitializeResult' from the server.".to_string();
        assert_eq!(error, Error::InitializationFailed(why));
    }
    let mut st = state();
    start(&mut st, 0, "/w");
    let nothing = Response { id: number(0), result: None, error: None };
    let (error, _) = refused(&mut st, server_answers(0, nothing));
    assert!(matches!(error, Error::InitializationFailed(_)));
}

#[test]
fn initialization_result_given_as_a_value() {
    let mut st = state();
    start(&mut st, 0, "/w");
    let mut out = Vec::new();
    let told = response(number(0), "7");
    let r = st.handle_initialize_response(ServerId(0), told, Some("8".to_string()), &mut out);
    assert_eq!(r, Ok(()));
    assert_eq!(out, vec![to_client(0, Message::Response(response(text("init"), "7")))]);
    let out = accepted(&mut st, Task::NewConnection(connection(1, "/w")));
    assert_eq!(out, vec![to_client(1, Message::Response(response(text("init"), "8")))]);
}

#[test]
fn server_hears_once_that_clients_are_ready() {
    let mut st = state();
    start(&mut st, 0, "/w");
    accepted(&mut st, server_answers(0, response(number(0), RESULT)));
    let ready = notification("initialized", "{}");
    let out = accepted(&mut st, says(0, ready));
    assert_eq!(out, vec![to_server(0, Message::Notification(notification("initialized", "{}")))]);
    accepted(&mut st, Task::NewConnection(connection(1, "/w")));
    assert_eq!(accepted(&mut st, says(1, notification("initialized", "{}"))), vec![]);
}

#[test]
fn request_is_answered_under_the_id_of_the_client() {
    let mut st = shared();
    let out = accepted(&mut st, asks(0, request(text("x"), "hover", "{\"a\":1}")));
    assert_eq!(out, vec![to_server(0, Message::Request(request(number(1), "hover", "{\"a\":1}")))]);
    let out = accepted(&mut st, asks(1, request(text("x"), "hover", "{\"a\":2}")));
    assert_eq!(out, vec![to_server(0, Message::Request(request(number(2), "hover", "{\"a\":2}")))]);
    let out = accepted(&mut st, server_answers(0, response(number(2), "\"two\"")));
    assert_eq!(out, vec![to_client(1, Message::Response(response(text("x"), "\"two\"")))]);
    let out = accepted(&mut st, server_answers(0, refusal(number(1))));
    assert_eq!(out, vec![to_client(0, Message::Response(refusal(text("x"))))]);
}

#[test]
fn request_is_answered_only_once() {
    let mut st = running();
    accepted(&mut st, asks(0, request(number(5), "hover", "null")));
    accepted(&mut st, server_answers(0, response(number(1), "1")));
    let again = refused(&mut st, server_answers(0, response(number(1), "2")));
    assert_eq!(again, (Error::RequestNotFound, vec![]));
    let other = refused(&mut st, server_answers(0, response(text("1"), "2")));
    assert_eq!(other, (Error::RequestNotFound, vec![]));
}

#[test]
fn answer_to_a_client_that_has_left_is_dropped() {
    let mut st = shared();
    accepted(&mut st, asks(1, request(number(5), "hover", "null")));
    accepted(&mut st, Task::ClientDropped(ClientId(1)));
    let late = refused(&mut st, server_answers(0, response(number(1), "1")));
    assert_eq!(late, (Error::ClientGone, vec![]));
}

#[test]
fn shutdown_leaves_the_server_running() {
    let mut st = running();
    let out = accepted(&mut st, asks(0, request(number(5), "shutdown", "null")));
    assert_eq!(out, vec![to_client(0, Message::Response(response(number(5), "null")))]);
    let out = accepted(&mut st, asks(0, request(number(6), "hover", "null")));
    assert_eq!(out, vec![to_server(0, Message::Request(request(number(1), "hover", "null")))]);
}

#[test]
fn unknown_clients_and_servers() {
    let mut st = state();
    let ask = refused(&mut st, asks(3, request(number(1), "m", "null")));
    assert_eq!(ask, (Error::ClientNotFound, vec![]));
    let answer = refused(&mut st, answers(3, response(number(1), "1")));
    assert_eq!(answer, (Error::ClientNotFound, vec![]));
    let say = refused(&mut st, says(3, notification("m", "null")));
    assert_eq!(say, (Error::ClientNotFound, vec![]));
    let leave = refused(&mut st, Task::ClientDropped(ClientId(3)));
    assert_eq!(leave, (Error::ClientNotFound, vec![]));
    let ask = refused(&mut st, server_asks(3, request(number(1), "m", "null")));
    assert_eq!(ask, (Error::ServerNotFound, vec![]));
    let answer = refused(&mut st, server_answers(3, response(number(1), "1")));
    assert_eq!(answer, (Error::ServerNotFound, vec![]));
    assert_eq!(accepted(&mut st, Task::ServerShutdown(ServerId(3))), vec![]);
}

#[test]
fn server_request_goes_to_the_primary_and_back() {
    let mut st = shared();
    let ask = request(text("s"), "workspace/configuration", "[2]");
    let out = accepted(&mut st, server_asks(0, ask));
    let sent = request(number(0), "workspace/configuration", "[2]");
    assert_eq!(out, vec![to_client(0, Message::Request(sent))]);
    let out = accepted(&mut st, answers(0, response(number(0), "[null]")));
    assert_eq!(out, vec![to_server(0, Message::Response(response(text("s"), "[null]")))]);
    let again = refused(&mut st, answers(0, response(number(0), "[]")));
    assert_eq!(again, (Error::RequestNotFound, vec![]));
    let other = refused(&mut st, answers(1, response(number(0), "[]")));
    assert_eq!(other, (Error::RequestNotFound, vec![]));
}

#[test]
fn requests_wait_for_a_primary() {
    let mut st = state();
    start(&mut st, 0, "/w");
    accepted(&mut st, server_answers(0, response(number(0), RESULT)));
    let out = accepted(&mut st, server_asks(0, request(number(7), "a", "1")));
    assert_eq!(out, vec![]);
    accepted(&mut st, server_asks(0, request(number(8), "b", "2")));
    let out = accepted(&mut st, says(0, notification("initialized", "{}")));
    assert_eq!(
        out,
        vec![
            to_server(0, Message::Notification(notification("initialized", "{}"))),
            to_client(0, Message::Request(request(number(0), "a", "1"))),
            to_client(0, Message::Request(request(number(1), "b", "2"))),
        ]
    );
    let out = accepted(&mut st, answers(0, response(number(1), "3")));
    assert_eq!(out, vec![to_server(0, Message::Response(response(number(8), "3")))]);
}

#[test]
fn next_oldest_connection_takes_over() {
    let mut st = shared();
    let kept = notification("workspace/didChangeConfiguration", "{\"settings\":1}");
    assert_eq!(accepted(&mut st, says(1, kept)), vec![]);
    accepted(&mut st, server_asks(0, request(text("s"), "ask", "1")));
    let mut expected = farewell(0);
    let told = notification("workspace/didChangeConfiguration", "{\"settings\":1}");
    expected.push(to_server(0, Message::Notification(told)));
    expected.push(to_client(1, Message::Request(request(number(0), "ask", "1"))));
    assert_eq!(accepted(&mut st, Task::ClientDropped(ClientId(0))), expected);
    let out = accepted(&mut st, answers(1, response(number(0), "2")));
    assert_eq!(out, vec![to_server(0, Message::Response(response(text("s"), "2")))]);
    let now = notification("workspace/didChangeConfiguration", "{\"settings\":2}");
    let out = accepted(&mut st, says(1, now));
    let now = notification("workspace/didChangeConfiguration", "{\"settings\":2}");
    assert_eq!(out, vec![to_server(0, Message::Notification(now))]);
}

#[test]
fn late_answer_to_a_request_is_dropped() {
    let mut st = running();
    accepted(&mut st, server_asks(0, request(text("s"), "ask", "1")));
    accepted(&mut st, server_asks(0, request(text("s"), "ask", "2")));
    let out = accepted(&mut st, answers(0, response(number(1), "b")));
    assert_eq!(out, vec![to_server(0, Message::Response(response(text("s"), "b")))]);
    assert_eq!(accepted(&mut st, answers(0, response(number(0), "a"))), vec![]);
}

#[test]
fn progress_is_answered_here() {
    let mut st = running();
    let ask = request(text("p"), "window/workDoneProgress/create", "{}");
    let out = accepted(&mut st, server_asks(0, ask));
    assert_eq!(out, vec![to_server(0, Message::Response(response(text("p"), "null")))]);
    let begin = "{\"token\":\"t\",\"value\":{\"kind\":\"begin\",\"title\":\"x\"}}";
    assert_eq!(accepted(&mut st, server_says(0, notification("$/progress", begin))), vec![]);
    let bad = refused(&mut st, server_says(0, notification("$/progress", "{}")));
    assert_eq!(bad, (Error::InvalidParams("$/progress".to_string()), vec![]));
}

#[test]
fn notification_reaches_every_connection() {
    let mut st = shared();
    accepted(&mut st, Task::NewConnection(connection(2, "/w")));
    let out = accepted(&mut st, server_says(0, notification("experimental/serverStatus", "{}")));
    let status = || Message::Notification(notification("experimental/serverStatus", "{}"));
    assert_eq!(out, vec![to_client(0, status()), to_client(1, status())]);
}

#[test]
fn document_belongs_to_the_client_that_opened_it() {
    let mut st = shared();
    let out = accepted(&mut st, says(0, open(FILE)));
    assert_eq!(out, vec![to_server(0, Message::Notification(open(FILE)))]);
    let out = accepted(&mut st, says(0, change(FILE)));
    assert_eq!(out, vec![to_server(0, Message::Notification(change(FILE)))]);
    let out = accepted(&mut st, says(0, save(FILE)));
    assert_eq!(out, vec![to_server(0, Message::Notification(save(FILE)))]);
    let out = accepted(&mut st, says(0, close(FILE)));
    assert_eq!(out, vec![to_server(0, Message::Notification(close(FILE)))]);
    accepted(&mut st, says(1, open(FILE)));
}

#[test]
fn open_document_cannot_be_opened_by_another_client() {
    let mut st = shared();
    accepted(&mut st, says(0, open(FILE)));
    let (error, out) = refused(&mut st, says(1, open("file:///w/./a.rs")));
    assert_eq!(error, Error::DocumentAlreadyOpen);
    assert_eq!(out, farewell(1));
    let gone = refused(&mut st, Task::ClientDropped(ClientId(1)));
    assert_eq!(gone, (Error::ClientNotFound, vec![]));
    accepted(&mut st, says(0, change(FILE)));
}

#[test]
fn other_clients_documents_are_out_of_reach() {
    for bad in [change(FILE), save(FILE), close(FILE), rename(FILE, "file:///w/b.rs")] {
        let mut st = shared();
        accepted(&mut st, says(0, open(FILE)));
        let (error, out) = refused(&mut st, says(1, bad));
        assert_eq!(error, Error::DocumentNotOwned);
        assert_eq!(out, farewell(1));
    }
}

#[test]
fn document_has_to_be_open() {
    for bad in [change(FILE), save(FILE), close(FILE), rename(FILE, "file:///w/b.rs")] {
        let mut st = shared();
        let (error, out) = refused(&mut st, says(1, bad));
        assert_eq!(error, Error::DocumentNotOpen(FILE.to_string()));
        assert_eq!(out, farewell(1));
    }
}

#[test]
fn renamed_document_is_open_under_its_new_name() {
    let mut st = shared();
    accepted(&mut st, says(0, open(FILE)));
    accepted(&mut st, says(0, rename(FILE, "file:///w/b.rs")));
    accepted(&mut st, says(0, close("file:///w/b.rs")));
    accepted(&mut st, says(0, open(FILE)));
    let (error, _) = refused(&mut st, says(0, rename(FILE, "no uri")));
    assert_eq!(error, Error::InvalidUri);
}

#[test]
fn documents_are_closed_with_the_client() {
    let mut st = shared();
    accepted(&mut st, says(0, open(FILE)));
    accepted(&mut st, says(1, open("file:///w/b.rs")));
    let mut expected = farewell(1);
    expected.push(to_server(0, Message::Notification(close("file:///w/b.rs"))));
    assert_eq!(accepted(&mut st, Task::ClientDropped(ClientId(1))), expected);
    accepted(&mut st, says(0, change(FILE)));
    accepted(&mut st, says(0, open("file:///w/b.rs")));
}

#[test]
fn unreadable_notification_drops_the_client() {
    for method in [
        "textDocument/didOpen",
        "textDocument/didChange",
        "textDocument/didClose",
        "textDocument/didSave",
        "workspace/didRenameFiles",
        "$/cancelRequest",
    ] {
        let mut st = shared();
        let (error, out) = refused(&mut st, says(1, notification(method, "{\"x\":1}")));
        assert_eq!(error, Error::InvalidParams(method.to_string()));
        assert_eq!(out, farewell(1));
    }
}

#[test]
fn other_notifications_pass() {
    let mut st = shared();
    let out = accepted(&mut st, says(1, notification("$/setTrace", "{\"value\":\"off\"}")));
    let same = notification("$/setTrace", "{\"value\":\"off\"}");
    assert_eq!(out, vec![to_server(0, Message::Notification(same))]);
}

#[test]
fn cancellation_names_the_number_of_the_server() {
    let mut st = shared();
    accepted(&mut st, asks(0, request(number(1), "hover", "null")));
    accepted(&mut st, asks(1, request(number(1), "hover", "null")));
    let out = accepted(&mut st, says(1, notification("$/cancelRequest", "{\"id\":1}")));
    let sent = notification("$/cancelRequest", "{\"id\":2}");
    assert_eq!(out, vec![to_server(0, Message::Notification(sent))]);
    let unknown = notification("$/cancelRequest", "{\"id\":\"1\"}");
    assert_eq!(accepted(&mut st, says(1, unknown)), vec![]);
}

#[test]
fn what_notifications_say() {
    assert_eq!(read_notification(&notification("initialized", "{}")), ClientEvent::Initialized);
    let configured = notification("workspace/didChangeConfiguration", "{}");
    assert_eq!(read_notification(&configured), ClientEvent::Configured);
    let opened = read_notification(&open("FILE:///w/../w/a.rs"));
    assert_eq!(opened, ClientEvent::Opened(FILE.to_string()));
    assert_eq!(read_notification(&change(FILE)), ClientEvent::Changed(FILE.to_string()));
    assert_eq!(read_notification(&close(FILE)), ClientEvent::Closed(FILE.to_string()));
    assert_eq!(read_notification(&save(FILE)), ClientEvent::Saved(FILE.to_string()));
    let renamed = vec![Some((FILE.to_string(), "file:///w/b.rs".to_string()))];
    assert_eq!(
        read_notification(&rename("file:///w/./a.rs", "file:///w/b.rs")),
        ClientEvent::Renamed(renamed)
    );
    assert_eq!(read_notification(&rename(FILE, "b.rs")), ClientEvent::Renamed(vec![None]));
    let cancelled = notification("$/cancelRequest", "{\"id\":\"x\"}");
    assert_eq!(read_notification(&cancelled), ClientEvent::Cancelled(text("x")));
    assert_eq!(read_notification(&notification("$/cancelRequest", "{}")), ClientEvent::Invalid);
    assert_eq!(read_notification(&notification("other", "{}")), ClientEvent::Other);
}

#[test]
fn event_given_as_a_value() {
    let mut st = shared();
    let mut out = Vec::new();
    let opened = ClientEvent::Opened("some:name".to_string());
    let r = st.handle_client_event(ClientId(0), notification("n", "1"), &opened, &mut out);
    assert_eq!(r, Ok(()));
    assert_eq!(out, vec![to_server(0, Message::Notification(notification("n", "1")))]);
    let mut out = Vec::new();
    let r = st.handle_client_event(ClientId(1), notification("n", "1"), &opened, &mut out);
    assert_eq!(r, Err(Error::DocumentAlreadyOpen));
    assert_eq!(out, farewell(1));
}

#[test]
fn capabilities_count_from_when_they_are_granted() {
    let params = "{\"registrations\":[{\"id\":\"a\",\"method\":\"m\",\"registerOptions\":{\"x\":1}},{\"id\":\"b\",\"method\":\"m\"}]}";
    let grant = read_grant(&request(number(1), "client/registerCapability", params));
    let a = || Registration {
        id: "a".to_string(),
        method: "m".to_string(),
        options: Some("{\"x\":1}".to_string()),
    };
    let b = || Registration { id: "b".to_string(), method: "m".to_string(), options: None };
    assert_eq!(grant, Grant::Registered(vec![a(), b()]));
    let mut server = ServerState::new();
    server.grant(grant);
    assert_eq!(server.registered_capabilities, vec![a(), b()]);
    let params = "{\"unregisterations\":[{\"id\":\"a\",\"method\":\"m\"},{\"id\":\"b\",\"method\":\"n\"}]}";
    let grant = read_grant(&request(number(2), "client/unregisterCapability", params));
    let pair = |x: &str, y: &str| (x.to_string(), y.to_string());
    assert_eq!(grant, Grant::Unregistered(vec![pair("a", "m"), pair("b", "n")]));
    server.grant(grant);
    assert_eq!(server.registered_capabilities, vec![b()]);
    assert_eq!(read_grant(&request(number(3), "other", "{}")), Grant::Nothing);
}

#[test]
fn unreadable_registration_is_reported() {
    for method in ["client/registerCapability", "client/unregisterCapability"] {
        let mut st = running();
        accepted(&mut st, server_asks(0, request(text("s"), method, "{}")));
        let (error, out) = refused(&mut st, answers(0, response(number(0), "null")));
        assert_eq!(error, Error::InvalidParams(method.to_string()));
        assert_eq!(out, vec![to_server(0, Message::Response(response(text("s"), "null")))]);
        accepted(&mut st, server_asks(0, request(text("t"), method, "{}")));
        let out = accepted(&mut st, answers(0, refusal(number(1))));
        assert_eq!(out, vec![to_server(0, Message::Response(refusal(text("t"))))]);
    }
}

#[test]
fn server_that_never_got_initialized_goes_with_its_last_client() {
    let mut st = state();
    start(&mut st, 0, "/w");
    accepted(&mut st, Task::NewConnection(connection(1, "/w")));
    assert_eq!(accepted(&mut st, Task::ClientDropped(ClientId(0))), farewell(0));
    let mut expected = farewell(1);
    expected.push(Action::KillServer(ServerId(0)));
    assert_eq!(accepted(&mut st, Task::ClientDropped(ClientId(1))), expected);
    let (result, _) = handle(&mut st, Task::NewConnection(connection(2, "/w")));
    assert_eq!(result.unwrap().unwrap().server_id, ServerId(1));
}

#[test]
fn initialized_server_outlives_its_clients() {
    let mut st = running();
    assert_eq!(accepted(&mut st, Task::ClientDropped(ClientId(0))), farewell(0));
    let out = accepted(&mut st, Task::NewConnection(connection(1, "/w")));
    assert_eq!(out, vec![to_client(1, Message::Response(response(text("init"), RESULT)))]);
}

#[test]
fn clients_go_with_their_server() {
    let mut st = shared();
    start(&mut st, 5, "/v");
    let mut out = accepted(&mut st, Task::ServerShutdown(ServerId(0)));
    assert_eq!(out.pop(), Some(Action::KillServer(ServerId(0))));
    out.sort_by_key(|a| format!("{a:?}"));
    let mut expected = farewell(0);
    expected.extend(farewell(1));
    expected.sort_by_key(|a| format!("{a:?}"));
    assert_eq!(out, expected);
    let gone = refused(&mut st, asks(0, request(number(1), "m", "null")));
    assert_eq!(gone.0, Error::ClientNotFound);
    let out = accepted(&mut st, asks(5, request(number(1), "m", "null")));
    assert_eq!(out, vec![to_server(1, Message::Request(request(number(1), "m", "null")))]);
}

#[test]
fn servers_are_kept_apart() {
    let mut st = running();
    start(&mut st, 5, "/v");
    accepted(&mut st, server_answers(1, response(number(0), RESULT)));
    accepted(&mut st, says(5, notification("initialized", "{}")));
    accepted(&mut st, says(0, open(FILE)));
    accepted(&mut st, says(5, open(FILE)));
    let out = accepted(&mut st, server_says(1, notification("n", "1")));
    assert_eq!(out, vec![to_client(5, Message::Notification(notification("n", "1")))]);
}

#[test]
fn events_that_are_out_of_place() {
    let st = running();
    assert!(!st.admits(&says(0, notification("exit", "null"))));
    assert!(st.admits(&says(0, notification("other", "null"))));
}

#[test]
fn lost_primary() {
    let mut st = running();
    accepted(&mut st, says(0, notification("initialized", "{}")));
    assert!(!st.may_leave(ClientId(0)));
    assert!(!st.admits(&Task::ClientDropped(ClientId(0))));
    let (error, out) = refused(&mut st, says(0, close(FILE)));
    assert_eq!((error, out), (Error::PrimaryLost, vec![]));
}

#[test]
fn client_that_shuts_down_or_exits_leaves() {
    let exit = Message::Notification(notification("exit", "null"));
    assert_eq!(take_in(Some(exit)), Incoming::Leave);
    let shutdown = Message::Request(request(number(1), "shutdown", "null"));
    assert_eq!(take_in(Some(shutdown)), Incoming::Leave);
    let other = || Message::Notification(notification("shutdown", "null"));
    assert_eq!(take_in(Some(other())), Incoming::Message(other()));
    assert_eq!(take_in(None), Incoming::Invalid);
    assert_eq!(read_incoming(b"{\"method\":\"exit\"}"), Incoming::Leave);
    assert_eq!(read_incoming(b"{\"method\":\"shutdown\"}"), Incoming::Message(other()));
    assert_eq!(read_incoming(b"{}"), Incoming::Invalid);
}

#[test]
fn renaming_over_another_clients_document_displaces_it() {
    let mut st = shared();
    accepted(&mut st, says(0, open(FILE)));
    accepted(&mut st, says(1, open("file:///w/b.rs")));
    accepted(&mut st, says(0, rename(FILE, "file:///w/b.rs")));
    let (error, _) = refused(&mut st, says(1, change("file:///w/b.rs")));
    assert_eq!(error, Error::DocumentNotOwned);
}

#[test]
fn answer_comes_after_much_has_happened() {
    let mut st = shared();
    accepted(&mut st, asks(1, request(text("slow"), "hover", "null")));
    accepted(&mut st, asks(0, request(text("slow"), "hover", "null")));
    accepted(&mut st, says(0, open(FILE)));
    accepted(&mut st, server_asks(0, request(number(1), "ask", "null")));
    start(&mut st, 5, "/v");
    accepted(&mut st, server_answers(0, response(number(2), "0")));
    accepted(&mut st, Task::ClientDropped(ClientId(0)));
    accepted(&mut st, answers(1, response(number(0), "null")));
    let out = accepted(&mut st, server_answers(0, response(number(1), "\"late\"")));
    assert_eq!(out, vec![to_client(1, Message::Response(response(text("slow"), "\"late\"")))]);
}

#[test]
fn client_can_leave_before_it_is_ready() {
    let mut st = running();
    accepted(&mut st, Task::NewConnection(connection(1, "/w")));
    assert!(st.may_leave(ClientId(1)));
    assert_eq!(accepted(&mut st, Task::ClientDropped(ClientId(1))), farewell(1));
    accepted(&mut st, asks(0, request(number(1), "hover", "null")));
}

/// Connects a client, and starts a server for it if none is running. Gives the number of the server
/// that was started.
fn connect(state: &mut GlobalState, id: u32, root: &str) -> Option<u32> {
    let (result, _) = handle(state, Task::NewConnection(connection(id, root)));
    let spawn = result.unwrap()?;
    assert_eq!(spawn.client_id, ClientId(id));
    let sid = spawn.server_id.0;
    let mut out = Vec::new();
    state.server_spawned(spawn, &mut out);
    Some(sid)
}

#[test]
fn clients_share_a_server_exactly_if_they_need_the_same() {
    let mut st = state();
    assert_eq!(connect(&mut st, 0, "/w"), Some(0));
    assert_eq!(connect(&mut st, 1, "/v"), Some(1));
    assert_eq!(connect(&mut st, 2, "/w"), None);
    assert_eq!(connect(&mut st, 3, "/v"), None);
    assert_eq!(connect(&mut st, 4, "/u"), Some(2));
    let servers = [0, 1, 0, 1, 2];
    for id in 0..5 {
        let n = notification("m", "[]");
        let out = accepted(&mut st, says(id, n));
        assert_eq!(
            out,
            vec![to_server(servers[id as usize], Message::Notification(notification("m", "[]")))]
        );
    }
}

#[test]
fn descriptor_keeps_its_server_until_the_server_is_gone() {
    let mut st = state();
    assert_eq!(connect(&mut st, 0, "/w"), Some(0));
    accepted(&mut st, server_answers(0, response(number(0), RESULT)));
    accepted(&mut st, Task::ClientDropped(ClientId(0)));
    assert_eq!(connect(&mut st, 1, "/w"), None);
    accepted(&mut st, Task::ServerShutdown(ServerId(0)));
    assert_eq!(connect(&mut st, 2, "/w"), Some(1));
    assert_eq!(connect(&mut st, 3, "/w"), None);
}
