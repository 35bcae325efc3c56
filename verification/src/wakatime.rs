//! Reports of what a client works on, for the command line tool of WakaTime.

use crate::message::{Notification, NotificationView};
use crate::params::{
    changed_document, closed_document, opened_document, parse_did_change, parse_did_close,
    parse_did_open, ChangeView, Document, DocumentChange, DocumentView,
};
use crate::text::{number_text, same_text, texts};
use vstd::prelude::*;

verus! {

/// A call of the command line tool.
#[derive(Debug, PartialEq, Eq)]
pub struct WakaTimeCommand {
    pub cli: String,
    pub args: Vec<String>,
}

/// The arguments of every report.
pub open spec fn common_args(user_agent: Seq<char>, project_root: Seq<char>) -> Seq<Seq<char>> {
    seq![
        "--plugin"@,
        user_agent,
        "--alternate-project"@,
        project_root,
        "--project-folder"@,
        project_root,
        "--language"@,
        "rust"@,
        "--category"@,
        "coding"@,
    ]
}

/// The line of the first piece of a change that has one.
pub open spec fn first_line(lines: Seq<Option<u32>>) -> Option<u32>
    decreases lines.len(),
{
    if lines.len() == 0 {
        None
    } else if lines[0] is Some {
        lines[0]
    } else {
        first_line(lines.skip(1))
    }
}

/// The arguments that say that a document has been opened or closed.
pub open spec fn document_args(document: DocumentView) -> Seq<Seq<char>> {
    seq!["--entity"@, document.path]
}

/// The arguments that say that a document has been changed.
pub open spec fn change_args(change: ChangeView) -> Seq<Seq<char>> {
    document_args(change.document) + (match first_line(change.lines) {
        Some(line) => seq!["--lineno"@, number_text(line as nat)],
        None => Seq::empty(),
    }) + seq!["--write"@]
}

/// Implemented over anything that can be reported to WakaTime.
pub trait WakaTimeReport {
    /// The arguments that say what is reported.
    spec fn report_args(&self) -> Seq<Seq<char>>;

    /// Adds the arguments that say what is reported.
    fn build_command(&self, args: &mut Vec<String>)
        ensures
            texts(final(args)@) == texts(old(args)@) + self.report_args(),
    ;

    /// The call that reports this.
    fn report_wakatime(&self, cli: &str, user_agent: &str, project_root: &str) -> (command:
        WakaTimeCommand)
        ensures
            command.cli@ == cli@,
            texts(command.args@) == common_args(user_agent@, project_root@) + self.report_args(),
    {
        let mut args: Vec<String> = Vec::new();
        args.push("--plugin".to_owned());
        args.push(user_agent.to_owned());
        args.push("--alternate-project".to_owned());
        args.push(project_root.to_owned());
        args.push("--project-folder".to_owned());
        args.push(project_root.to_owned());
        args.push("--language".to_owned());
        args.push("rust".to_owned());
        args.push("--category".to_owned());
        args.push("coding".to_owned());
        assert(texts(args@) =~= common_args(user_agent@, project_root@));
        self.build_command(&mut args);
        WakaTimeCommand { cli: cli.to_owned(), args }
    }

    /// The call that reports this, if there is a tool to report it with.
    fn maybe_report_wakatime(
        &self,
        maybe_cli: &Option<String>,
        user_agent: &str,
        project_root: &str,
    ) -> (command: Option<WakaTimeCommand>)
        ensures
            match (command, *maybe_cli) {
                (Some(c), Some(cli)) => {
                    &&& c.cli@ == cli@
                    &&& texts(c.args@) == common_args(user_agent@, project_root@)
                        + self.report_args()
                },
                (None, None) => true,
                _ => false,
            },
    {
        match maybe_cli {
            Some(cli) => Some(self.report_wakatime(cli.as_str(), user_agent, project_root)),
            None => None,
        }
    }
}

/// Adds a text to a list.
fn put(args: &mut Vec<String>, text: &str)
    ensures
        texts(final(args)@) == texts(old(args)@).push(text@),
{
    args.push(text.to_owned());
    assert(texts(args@) =~= texts(old(args)@).push(text@));
}

/// A document that has been opened or closed.
impl WakaTimeReport for Document {
    open spec fn report_args(&self) -> Seq<Seq<char>> {
        document_args(self@)
    }

    fn build_command(&self, args: &mut Vec<String>) {
        put(args, "--entity");
        put(args, self.path.as_str());
        assert(texts(args@) =~= texts(old(args)@) + self.report_args());
    }
}

impl WakaTimeReport for DocumentChange {
    open spec fn report_args(&self) -> Seq<Seq<char>> {
        change_args(self@)
    }

    fn build_command(&self, args: &mut Vec<String>) {
        self.document.build_command(args);
        match self.first_line() {
            Some(line) => {
                put(args, "--lineno");
                put(args, print_number(line).as_str());
            },
            None => {},
        }
        put(args, "--write");
        assert(texts(args@) =~= texts(old(args)@) + self.report_args());
    }
}

impl DocumentChange {
    /// The line where the first piece of the change that has a range begins.
    fn first_line(&self) -> (line: Option<u32>)
        ensures
            line == first_line(self@.lines),
    {
        let mut i: usize = 0;
        assert(self@.lines.skip(0) =~= self@.lines);
        while i < self.lines.len()
            invariant
                i <= self.lines.len(),
                first_line(self@.lines.skip(i as int)) == first_line(self@.lines),
            decreases self.lines.len() - i,
        {
            proof {
                assert(self@.lines.skip(i as int)[0] == self@.lines[i as int]);
                assert(self@.lines.skip(i as int).skip(1) =~= self@.lines.skip(i + 1));
            }
            if self.lines[i].is_some() {
                return self.lines[i];
            }
            i += 1;
        }
        None
    }
}

/// The arguments that say what is reported of a notification, `None` where nothing is.
pub open spec fn notification_args(notification: NotificationView) -> Option<Seq<Seq<char>>> {
    if notification.method == "textDocument/didOpen"@ {
        match opened_document(notification.params) {
            Some(d) => Some(document_args(d)),
            None => None,
        }
    } else if notification.method == "textDocument/didChange"@ {
        match changed_document(notification.params) {
            Some(c) => Some(change_args(c)),
            None => None,
        }
    } else if notification.method == "textDocument/didClose"@ {
        match closed_document(notification.params) {
            Some(d) => Some(document_args(d)),
            None => None,
        }
    } else {
        None
    }
}

/// The line that is reported is where the first piece of a change begins that has a range: that
/// piece has this line, and no piece before it has a range. Only where no piece has a range there
/// is no line.
pub proof fn law_first_range_is_reported(lines: Seq<Option<u32>>)
    ensures
        match first_line(lines) {
            Some(line) => exists|i: int|
                0 <= i < lines.len() && #[trigger] lines[i] == Some(line) && forall|j: int|
                    0 <= j < i ==> #[trigger] lines[j] is None,
            None => forall|i: int| 0 <= i < lines.len() ==> #[trigger] lines[i] is None,
        },
    decreases lines.len(),
{
    if lines.len() > 0 && lines[0] is None {
        let rest = lines.skip(1);
        law_first_range_is_reported(rest);
        match first_line(rest) {
            Some(line) => {
                let i = choose|i: int|
                    0 <= i < rest.len() && #[trigger] rest[i] == Some(line) && forall|j: int|
                        0 <= j < i ==> #[trigger] rest[j] is None;
                assert(lines[i + 1] == Some(line));
                assert forall|j: int| 0 <= j < i + 1 implies #[trigger] lines[j] is None by {
                    if j > 0 {
                        assert(rest[j - 1] == lines[j]);
                    }
                }
            },
            None => {
                assert forall|j: int| 0 <= j < lines.len() implies #[trigger] lines[j] is None by {
                    if j > 0 {
                        assert(rest[j - 1] == lines[j]);
                    }
                }
            },
        }
    } else if lines.len() > 0 {
        assert(lines[0] == Some(lines[0]->0));
    }
}

/// A change is reported with the path of its document and as something that was written, and with
/// the line where its first piece `i` with a range begins.
pub proof fn law_change_is_reported_with_its_line(change: DocumentChange, i: int, line: u32)
    requires
        0 <= i < change.lines@.len(),
        change.lines@[i] == Some(line),
        forall|j: int| 0 <= j < i ==> #[trigger] change.lines@[j] is None,
    ensures
        change.report_args() == seq![
            "--entity"@,
            change.document.path@,
            "--lineno"@,
            number_text(line as nat),
            "--write"@,
        ],
{
    let lines = change.lines@;
    law_first_range_is_reported(lines);
    match first_line(lines) {
        Some(other) => {
            let k = choose|k: int|
                0 <= k < lines.len() && #[trigger] lines[k] == Some(other) && forall|j: int|
                    0 <= j < k ==> #[trigger] lines[j] is None;
            assert(lines[i] is Some);
            assert(k == i);
        },
        None => {
            assert(lines[i] is None);
        },
    }
    assert(change.report_args() =~= seq![
        "--entity"@,
        change.document.path@,
        "--lineno"@,
        number_text(line as nat),
        "--write"@,
    ]);
}

/// A change no piece of which has a range is reported with the path of its document and as
/// something that was written, and without a line.
pub proof fn law_change_without_ranges_is_reported(change: DocumentChange)
    requires
        forall|j: int| 0 <= j < change.lines@.len() ==> #[trigger] change.lines@[j] is None,
    ensures
        change.report_args() == seq!["--entity"@, change.document.path@, "--write"@],
{
    law_first_range_is_reported(change.lines@);
    assert(change.report_args() =~= seq!["--entity"@, change.document.path@, "--write"@]);
}

/// A document that has been opened or closed is reported with its path and nothing else.
pub proof fn law_document_is_reported_with_its_path(document: Document)
    ensures
        document.report_args() == seq!["--entity"@, document.path@],
{
}

/// Every report says who reports, for which project, and that it is about writing Rust code.
pub proof fn law_every_report_names_the_project(user_agent: Seq<char>, project_root: Seq<char>)
    ensures
        ({
            let args = common_args(user_agent, project_root);
            &&& args.len() == 10
            &&& args[0] == "--plugin"@ && args[1] == user_agent
            &&& args[2] == "--alternate-project"@ && args[3] == project_root
            &&& args[4] == "--project-folder"@ && args[5] == project_root
            &&& args[6] == "--language"@ && args[7] == "rust"@
            &&& args[8] == "--category"@ && args[9] == "coding"@
        }),
{
}

/// What is reported of a notification is the document that it opens, changes or closes; nothing
/// else is reported, nor what cannot be read.
pub proof fn law_only_documents_are_reported(
    notification: NotificationView,
    document: Document,
    change: DocumentChange,
)
    ensures
        notification.method == "textDocument/didOpen"@ && opened_document(notification.params)
            == Some(document@) ==> notification_args(notification) == Some(document.report_args()),
        notification.method == "textDocument/didClose"@ && closed_document(notification.params)
            == Some(document@) ==> notification_args(notification) == Some(document.report_args()),
        notification.method == "textDocument/didChange"@ && changed_document(notification.params)
            == Some(change@) ==> notification_args(notification) == Some(change.report_args()),
        notification_args(notification) is Some ==> {
            ||| notification.method == "textDocument/didOpen"@ && opened_document(
                notification.params,
            ) is Some
            ||| notification.method == "textDocument/didClose"@ && closed_document(
                notification.params,
            ) is Some
            ||| notification.method == "textDocument/didChange"@ && changed_document(
                notification.params,
            ) is Some
        },
{
    lemma_methods_differ();
}

pub(crate) proof fn lemma_methods_differ()
    ensures
        "textDocument/didOpen"@ != "textDocument/didChange"@,
        "textDocument/didOpen"@ != "textDocument/didClose"@,
        "textDocument/didChange"@ != "textDocument/didClose"@,
{
    reveal_strlit("textDocument/didOpen");
    reveal_strlit("textDocument/didChange");
    reveal_strlit("textDocument/didClose");
    assert("textDocument/didOpen"@.len() == 20);
    assert("textDocument/didChange"@.len() == 22);
    assert("textDocument/didClose"@.len() == 21);
}

/// The call that reports a notification of a client, if it can be reported and there is a tool to
/// report it with.
pub fn report_notification(
    notification: &Notification,
    maybe_cli: &Option<String>,
    user_agent: &str,
    project_root: &str,
) -> (command: Option<WakaTimeCommand>)
    ensures
        match (*maybe_cli, notification_args(notification@)) {
            (Some(cli), Some(report)) => {
                &&& command matches Some(c)
                &&& c.cli@ == cli@
                &&& texts(c.args@) == common_args(user_agent@, project_root@) + report
            },
            _ => command is None,
        },
{
    let method: &str = notification.method.as_str();
    let params: &str = notification.params.as_str();
    if same_text(method, "textDocument/didOpen") {
        match parse_did_open(params) {
            Some(d) => d.maybe_report_wakatime(maybe_cli, user_agent, project_root),
            None => None,
        }
    } else if same_text(method, "textDocument/didChange") {
        match parse_did_change(params) {
            Some(c) => c.maybe_report_wakatime(maybe_cli, user_agent, project_root),
            None => None,
        }
    } else if same_text(method, "textDocument/didClose") {
        match parse_did_close(params) {
            Some(d) => d.maybe_report_wakatime(maybe_cli, user_agent, project_root),
            None => None,
        }
    } else {
        None
    }
}

/// An edit is reported with the tool, if there is one, with the path of the document and the line
/// where the first piece `i` of the edit with a range begins.
pub proof fn law_edit_is_reported(
    notification: &Notification,
    maybe_cli: &Option<String>,
    user_agent: &str,
    project_root: &str,
    command: Option<WakaTimeCommand>,
    change: DocumentChange,
    i: int,
    line: u32,
)
    requires
        call_ensures(
            report_notification,
            (notification, maybe_cli, user_agent, project_root),
            command,
        ),
        notification.method@ == "textDocument/didChange"@,
        changed_document(notification.params@) == Some(change@),
        0 <= i < change.lines@.len(),
        change.lines@[i] == Some(line),
        forall|j: int| 0 <= j < i ==> #[trigger] change.lines@[j] is None,
    ensures
        *maybe_cli is None ==> command is None,
        *maybe_cli matches Some(cli) ==> {
            &&& command matches Some(c)
            &&& c.cli@ == cli@
            &&& texts(c.args@) == seq![
                "--plugin"@,
                user_agent@,
                "--alternate-project"@,
                project_root@,
                "--project-folder"@,
                project_root@,
                "--language"@,
                "rust"@,
                "--category"@,
                "coding"@,
                "--entity"@,
                change.document.path@,
                "--lineno"@,
                number_text(line as nat),
                "--write"@,
            ]
        },
{
    lemma_methods_differ();
    law_change_is_reported_with_its_line(change, i, line);
    if *maybe_cli is Some {
        let report = change.report_args();
        assert(notification_args(notification@) == Some(report));
        assert(texts(command->0.args@) =~= common_args(user_agent@, project_root@) + report);
    }
}

/// Calls `u32::to_string`. Claims that it gives the decimal digits of the number.
#[verifier::external_body]
fn print_number(n: u32) -> (text: String)
    ensures
        text@ == number_text(n as nat),
{
    n.to_string()
}

} // verus!
