use rad::frame::encode_lsp_message;
use rad::ids::{ClientId, ServerId};
use rad::ipc::{first_message, next_message, IpcError, IpcMessage};
use rad::launch::{build_command, extract_server_info, needs_directory, SpawnCommand};
use rad::message::{Message, Notification, Request, RequestId};
use rad::params::InitializeParams;
use rad::path::DirPath;
use rad::root::RootNotFound;
use rad::session::{Attachment, Daemon, Session, SessionHandle};
use rad::types::{BootstrapMessage, Config, ServerDescriptor};
use std::path::PathBuf;

fn bootstrap(envs: &[(&str, &str)]) -> BootstrapMessage {
    BootstrapMessage {
        cwd: "/w/a".to_string(),
        args: vec!["--quiet".to_string()],
        envs: envs.iter().map(|(k, v)| (k.to_string(), v.to_string())).collect(),
    }
}

fn init(root_uri: Option<&str>, root_path: Option<&str>) -> InitializeParams {
    InitializeParams {
        root_uri: root_uri.map(|s| s.to_string()),
        root_path: root_path.map(|s| s.to_string()),
        work_done_progress: None,
        params: "{}".to_string(),
    }
}

fn locked() -> Vec<String> {
    vec!["/w/a/Cargo.lock".to_string()]
}

#[test]
fn socket_setting_has_a_default() {
    assert_eq!(Config::socket_setting(None), "~/.rad/ipc.sock");
    assert_eq!(Config::socket_setting(Some("/tmp/s".to_string())), "/tmp/s");
}

#[test]
fn configuration_defaults() {
    let config = Config::new(PathBuf::from("/s"), None, None);
    assert_eq!(config.socket_path, PathBuf::from("/s"));
    assert_eq!(config.rust_analyzer_bin, "rust-analyzer");
    assert_eq!(config.wakatime_cli, None);
}

#[test]
fn configuration_from_settings() {
    let config = Config::new(PathBuf::from("/s"), Some("ra".to_string()), Some(String::new()));
    assert_eq!(config.rust_analyzer_bin, "ra");
    assert_eq!(config.wakatime_cli, Some("wakatime-cli".to_string()));
    let config = Config::new(PathBuf::from("/s"), None, Some("w".to_string()));
    assert_eq!(config.wakatime_cli, Some("w".to_string()));
}

#[test]
fn environment_of_a_client() {
    let b = bootstrap(&[("A", "1"), ("B", "2")]);
    assert_eq!(b.env("B"), Some("2".to_string()));
    assert_eq!(b.env("C"), None);
}

#[test]
fn workspace_from_the_environment_comes_first() {
    let b = bootstrap(&[("RAD_ROOT", "/env"), ("RAD_RA", "my-ra")]);
    let i = init(Some("file:///uri"), Some("/path"));
    assert!(!needs_directory(&b, &i));
    let (descriptor, command) = extract_server_info("ra", b, &i, &locked()).unwrap();
    let expected = ServerDescriptor {
        bin: "my-ra".to_string(),
        args: vec!["--quiet".to_string()],
        workspace: "/env".to_string(),
    };
    assert_eq!(descriptor, expected);
    let expected = SpawnCommand {
        bin: "my-ra".to_string(),
        args: vec!["--quiet".to_string()],
        envs: vec![
            ("RAD_ROOT".to_string(), "/env".to_string()),
            ("RAD_RA".to_string(), "my-ra".to_string()),
        ],
        cwd: "/w/a".to_string(),
    };
    assert_eq!(command, expected);
}

#[test]
fn workspace_from_the_request_comes_next() {
    let workspace = |i: InitializeParams| {
        extract_server_info("ra", bootstrap(&[]), &i, &locked()).unwrap().0.workspace
    };
    assert_eq!(workspace(init(Some("file:///uri"), Some("/path"))), "file:///uri");
    assert_eq!(workspace(init(None, Some("/path"))), "/path");
    assert_eq!(workspace(init(None, None)), "/w/a");
}

#[test]
fn workspace_that_nothing_tells() {
    let i = init(None, None);
    assert!(needs_directory(&bootstrap(&[]), &i));
    assert_eq!(
        extract_server_info("ra", bootstrap(&[]), &i, &Vec::new()),
        Err(RootNotFound { path: "/w/a".to_string() })
    );
}

#[test]
fn command_for_a_project() {
    let (identifier, command) = build_command("ra", bootstrap(&[("X", "y")]), &locked()).unwrap();
    assert_eq!(identifier.project_root, DirPath::new("/w/a"));
    assert_eq!(identifier.rust_analyzer_bin, "ra");
    assert_eq!(command.bin, "ra");
    assert_eq!(command.envs, vec![("X".to_string(), "y".to_string())]);
    assert!(build_command("ra", bootstrap(&[]), &Vec::new()).is_err());
}

#[test]
fn session_key_of_a_client() {
    let (key, command) = bootstrap(&[("RAD_RA", "b")]).parse("ra", &locked()).unwrap();
    assert_eq!(key.data.bin, "b");
    assert_eq!(key.data.args, vec!["--quiet".to_string()]);
    assert_eq!(key.data.workspace, DirPath::new("/w/a"));
    assert_eq!(command.cwd, "/w/a");
    let (same, _) = bootstrap(&[("RAD_RA", "b")]).parse("ra", &locked()).unwrap();
    let (other, _) = bootstrap(&[]).parse("ra", &locked()).unwrap();
    assert!(key.same(&same));
    assert!(!key.same(&other));
}

#[test]
fn same_key_same_session() {
    let mut daemon = Daemon::new("ra".to_string());
    let Ok(Attachment::Spawn(key, command)) = daemon.attach_client(bootstrap(&[]), &locked()) else {
        panic!("a server has to be started");
    };
    assert_eq!(command.bin, "ra");
    assert_eq!(daemon.session_spawned(key), SessionHandle(0));
    let again = daemon.attach_client(bootstrap(&[("X", "y")]), &locked());
    assert!(matches!(again, Ok(Attachment::Running(SessionHandle(0)))));
    let Ok(Attachment::Spawn(key, _)) =
        daemon.attach_client(bootstrap(&[("RAD_RA", "b")]), &locked())
    else {
        panic!("another server has to be started");
    };
    assert_eq!(daemon.session_spawned(key), SessionHandle(1));
    let first = daemon.attach_client(bootstrap(&[]), &locked());
    assert!(matches!(first, Ok(Attachment::Running(SessionHandle(0)))));
    assert!(daemon.attach_client(bootstrap(&[]), &Vec::new()).is_err());
}

#[test]
fn session_numbers_its_requests() {
    let mut session = Session::new();
    let request = |id: RequestId| {
        Message::Request(Request { id, method: "m".to_string(), params: "null".to_string() })
    };
    let (bytes, id) = session.send(request(RequestId::Text("x".to_string())));
    assert_eq!(id, Some(RequestId::Number(1)));
    assert_eq!(bytes, encode_lsp_message(request(RequestId::Number(1))));
    let note = Message::Notification(Notification {
        method: "n".to_string(),
        params: "[1]".to_string(),
    });
    let (bytes, id) = session.send(note);
    assert_eq!(id, None);
    let text = "{\"jsonrpc\":\"2.0\",\"method\":\"n\",\"params\":[1]}";
    assert_eq!(bytes, format!("Content-Length: {}\r\n\r\n{}", text.len(), text).into_bytes());
    let (_, id) = session.send(request(RequestId::Number(1)));
    assert_eq!(id, Some(RequestId::Number(2)));
}

#[test]
fn ids_count_up_and_start_over() {
    let mut count = 41;
    assert_eq!(ClientId::new(&mut count), ClientId(41));
    assert_eq!(ClientId::new(&mut count), ClientId(42));
    let mut last = u32::MAX;
    assert_eq!(ServerId::new(&mut last), ServerId(u32::MAX));
    assert_eq!(ServerId::new(&mut last), ServerId(0));
}

#[test]
fn first_message_is_the_bootstrap_message() {
    assert_eq!(first_message(None).err(), Some(IpcError::Closed));
    assert_eq!(first_message(Some(None)).err(), Some(IpcError::NotBootstrap));
    let message = Message::Notification(Notification {
        method: "n".to_string(),
        params: "null".to_string(),
    });
    let lsp = IpcMessage::LspMessage(message);
    assert_eq!(first_message(Some(Some(lsp))).err(), Some(IpcError::NotBootstrap));
    let b = first_message(Some(Some(IpcMessage::Bootstrap(bootstrap(&[]))))).unwrap();
    assert_eq!(b.cwd, "/w/a");
}

#[test]
fn messages_behind_the_first_go_to_the_server() {
    let message = Notification { method: "n".to_string(), params: "null".to_string() };
    let text = "{\"jsonrpc\":\"2.0\",\"method\":\"n\"}";
    let bytes = next_message(IpcMessage::LspMessage(Message::Notification(message)));
    assert_eq!(
        bytes,
        Ok(format!("Content-Length: {}\r\n\r\n{}", text.len(), text).into_bytes())
    );
    assert_eq!(next_message(IpcMessage::Bootstrap(bootstrap(&[]))), Err(IpcError::NotLspMessage));
}

fn in_directory(cwd: &str) -> BootstrapMessage {
    BootstrapMessage { cwd: cwd.to_string(), args: vec![], envs: vec![] }
}

fn lock_in(dir: &str) -> Vec<String> {
    vec![format!("{dir}/Cargo.lock")]
}

#[test]
fn paths_are_equal_by_their_components() {
    assert_eq!(DirPath::new("/w//c"), DirPath::new("/w/c"));
    assert_eq!(DirPath::new("/w/./c/"), DirPath::new("/w/c"));
    assert_eq!(DirPath::new("//"), DirPath::new("/"));
    assert!(DirPath::new("/w//c/.").same(&DirPath::new("/w/c")));
    for other in ["/w/../w/c", "w/c", "/w", "/w/c/d", "/w/cc", ""] {
        assert_ne!(DirPath::new(other), DirPath::new("/w/c"));
        assert!(!DirPath::new(other).same(&DirPath::new("/w/c")));
    }
    assert_ne!(DirPath::new("./a"), DirPath::new("a"));
    assert_eq!(DirPath::new("./a"), DirPath::new(".//a/."));
}

#[test]
fn paths_compare_as_those_of_std() {
    let paths = ["", "/", "/a", "/a/b", "/a.b", "/a/../b", "/-", "/..", "a", "./a", "..", "/a//b/."];
    for a in paths {
        for b in paths {
            let (p, q) = (std::path::Path::new(a), std::path::Path::new(b));
            assert_eq!(DirPath::new(a) == DirPath::new(b), p == q, "{a} {b}");
            assert_eq!(DirPath::new(a).cmp(&DirPath::new(b)), p.cmp(q), "{a} {b}");
        }
    }
}

#[test]
fn separators_make_no_other_session() {
    let mut daemon = Daemon::new("ra".to_string());
    let first = daemon.attach_client(in_directory("/w//c"), &lock_in("/w//c"));
    let Ok(Attachment::Spawn(key, _)) = first else {
        panic!("a server has to be started");
    };
    let (other, _) = in_directory("/w/./c/").parse("ra", &lock_in("/w/./c")).unwrap();
    assert!(key.same(&other));
    assert_eq!(key, other);
    daemon.session_spawned(key);
    let again = daemon.attach_client(in_directory("/w/c"), &lock_in("/w/c"));
    assert!(matches!(again, Ok(Attachment::Running(SessionHandle(0)))));
}

#[test]
fn separators_make_no_other_identifier() {
    let (a, _) = build_command("ra", in_directory("/w//c"), &lock_in("/w//c")).unwrap();
    let (b, _) = build_command("ra", in_directory("/w/c"), &lock_in("/w/c")).unwrap();
    assert_eq!(a, b);
}
