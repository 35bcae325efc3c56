use rad::message::Notification;
use rad::params::{Document, DocumentChange};
use rad::wakatime::{report_notification, WakaTimeReport};

fn document() -> Document {
    Document { uri: "file:///w/a.rs".to_string(), path: "/w/a.rs".to_string() }
}

fn common() -> Vec<String> {
    [
        "--plugin", "editor", "--alternate-project", "/w", "--project-folder", "/w", "--language",
        "rust", "--category", "coding",
    ]
    .iter()
    .map(|s| s.to_string())
    .collect()
}

fn expected(rest: &[&str]) -> Vec<String> {
    let mut args = common();
    args.extend(rest.iter().map(|s| s.to_string()));
    args
}

#[test]
fn opened_document_is_reported() {
    let command = document().report_wakatime("waka", "editor", "/w");
    assert_eq!(command.cli, "waka");
    assert_eq!(command.args, expected(&["--entity", "/w/a.rs"]));
}

#[test]
fn nothing_is_reported_without_a_tool() {
    assert_eq!(document().maybe_report_wakatime(&None, "editor", "/w"), None);
    let cli = Some("waka".to_string());
    let command = document().maybe_report_wakatime(&cli, "editor", "/w").unwrap();
    assert_eq!(command.args, expected(&["--entity", "/w/a.rs"]));
}

#[test]
fn changed_document_is_reported_with_its_first_line() {
    let change = DocumentChange {
        document: document(),
        lines: vec![None, Some(4294967295), Some(3)],
    };
    let command = change.report_wakatime("waka", "editor", "/w");
    assert_eq!(
        command.args,
        expected(&["--entity", "/w/a.rs", "--lineno", "4294967295", "--write"])
    );
}

#[test]
fn change_of_the_whole_document_has_no_line() {
    let change = DocumentChange { document: document(), lines: vec![None] };
    let command = change.report_wakatime("waka", "editor", "/w");
    assert_eq!(command.args, expected(&["--entity", "/w/a.rs", "--write"]));
}

fn report(method: &str, params: &str) -> Option<Vec<String>> {
    let notification = Notification { method: method.to_string(), params: params.to_string() };
    let cli = Some("waka".to_string());
    report_notification(&notification, &cli, "editor", "/w").map(|c| c.args)
}

#[test]
fn notifications_are_reported() {
    let open = "{\"textDocument\":{\"uri\":\"file:///w/x/../a%20b.rs\",\"languageId\":\"rust\",\"version\":1,\"text\":\"\"}}";
    assert_eq!(
        report("textDocument/didOpen", open),
        Some(expected(&["--entity", "/w/a%20b.rs"]))
    );
    let change = "{\"textDocument\":{\"uri\":\"file:///w/a.rs\",\"version\":2},\"contentChanges\":[{\"text\":\"\"},{\"range\":{\"start\":{\"line\":12,\"character\":0},\"end\":{\"line\":12,\"character\":1}},\"text\":\"x\"}]}";
    assert_eq!(
        report("textDocument/didChange", change),
        Some(expected(&["--entity", "/w/a.rs", "--lineno", "12", "--write"]))
    );
    let close = "{\"textDocument\":{\"uri\":\"file:///w/a.rs\"}}";
    assert_eq!(
        report("textDocument/didClose", close),
        Some(expected(&["--entity", "/w/a.rs"]))
    );
}

#[test]
fn other_notifications_are_not_reported() {
    assert_eq!(report("textDocument/didSave", "{}"), None);
    assert_eq!(report("textDocument/didOpen", "{}"), None);
    assert_eq!(report("textDocument/didChange", "{}"), None);
    assert_eq!(report("textDocument/didClose", "null"), None);
}
