//! Sessions: one running server for each session key, and the numbers under which requests go to
//! it.

use crate::frame::{encode_lsp_message, framed};
use crate::json::{carries, rpc_encoded};
use crate::launch::{binary_for, command_for, key_for, law_binary_by_precedence, SpawnCommand};
use crate::message::{IdView, Message, MessageView, Request, RequestId};
use crate::model::renumbered;
use crate::path::components;
use crate::root::{is_absolute, project_root, text_set, RootNotFound};
use crate::types::{is_set, is_unset, BootstrapMessage, SessionKey, SessionKeyView};
use vstd::prelude::*;

verus! {

/// A session, by its number in the order in which the sessions were started.
#[derive(Debug, Clone, Copy, PartialEq, Eq, Structural)]
pub struct SessionHandle(pub usize);

/// The sessions of a daemon.
#[derive(Debug)]
pub struct Daemon {
    default_ra: String,
    /// The keys of the sessions, in the order in which the sessions were started.
    sessions: Vec<SessionKey>,
}

/// What a [`Daemon`] is.
pub struct DaemonView {
    pub default_ra: Seq<char>,
    pub sessions: Seq<SessionKeyView>,
}

/// What each key of a list is.
pub open spec fn key_views(list: Seq<SessionKey>) -> Seq<SessionKeyView> {
    Seq::new(list.len(), |i: int| list[i]@)
}

impl View for Daemon {
    type V = DaemonView;

    closed spec fn view(&self) -> DaemonView {
        DaemonView { default_ra: self.default_ra@, sessions: key_views(self.sessions@) }
    }
}

/// The session that a client is attached to.
#[derive(Debug)]
pub enum Attachment {
    /// This one is running.
    Running(SessionHandle),
    /// A server for this key has to be started, with this command.
    Spawn(SessionKey, SpawnCommand),
}

/// No two sessions have the same key.
pub open spec fn distinct_sessions(sessions: Seq<SessionKeyView>) -> bool {
    forall|i: int, j: int|
        0 <= i < j < sessions.len() ==> #[trigger] sessions[i] != #[trigger] sessions[j]
}

/// Where the session with a key stands in a list, its length where it does not.
pub open spec fn session_at(sessions: Seq<SessionKeyView>, key: SessionKeyView) -> int
    decreases sessions.len(),
{
    if sessions.len() == 0 || sessions[0] == key {
        0
    } else {
        1 + session_at(sessions.skip(1), key)
    }
}

/// A session is found where it first stands in a list.
proof fn lemma_session_at(sessions: Seq<SessionKeyView>, key: SessionKeyView)
    ensures
        0 <= session_at(sessions, key) <= sessions.len(),
        session_at(sessions, key) < sessions.len() ==> sessions[session_at(sessions, key)] == key,
        forall|i: int| 0 <= i < session_at(sessions, key) ==> #[trigger] sessions[i] != key,
    decreases sessions.len(),
{
    if sessions.len() > 0 && sessions[0] != key {
        lemma_session_at(sessions.skip(1), key);
        assert forall|i: int| 0 <= i < session_at(sessions, key) implies #[trigger] sessions[i]
            != key by {
            if i > 0 {
                assert(sessions.skip(1)[i - 1] == sessions[i]);
            }
        }
    }
}

impl Daemon {
    /// A daemon without sessions; `default_ra` is the binary for clients that ask for none.
    pub fn new(default_ra: String) -> (daemon: Daemon)
        ensures
            daemon@ == (DaemonView { default_ra: default_ra@, sessions: Seq::empty() }),
    {
        let daemon = Daemon { default_ra, sessions: Vec::new() };
        assert(daemon@.sessions =~= Seq::<SessionKeyView>::empty());
        daemon
    }

    /// Where the session with a key stands, the number of sessions where it does not.
    fn position(&self, key: &SessionKey) -> (at: usize)
        ensures
            at == session_at(self@.sessions, key@),
            at <= self.sessions.len(),
    {
        let ghost list = self@.sessions;
        let mut i: usize = 0;
        assert(list.skip(0) =~= list);
        while i < self.sessions.len()
            invariant
                i <= self.sessions.len(),
                list == self@.sessions,
                session_at(list, key@) == i + session_at(list.skip(i as int), key@),
            decreases self.sessions.len() - i,
        {
            proof {
                assert(list.skip(i as int)[0] == list[i as int]);
                assert(list.skip(i as int).skip(1) =~= list.skip(i + 1));
            }
            if self.sessions[i].same(key) {
                return i;
            }
            i += 1;
        }
        i
    }

    /// Attaches a new client to the session that it wishes to connect to. `files` are the marker
    /// files that exist on the way up from its working directory.
    pub fn attach_client(&self, bootstrap: BootstrapMessage, files: &Vec<String>) -> (r: Result<
        Attachment,
        RootNotFound,
    >)
        requires
            is_absolute(bootstrap@.cwd),
        ensures
            match (r, project_root(bootstrap@.cwd, text_set(files@))) {
                (Ok(attachment), Some(root)) => {
                    let key = key_for(self@.default_ra, bootstrap@, root);
                    let at = session_at(self@.sessions, key);
                    match attachment {
                        Attachment::Running(handle) => {
                            &&& at < self@.sessions.len()
                            &&& handle.0 == at
                        },
                        Attachment::Spawn(k, command) => {
                            &&& at >= self@.sessions.len()
                            &&& k@ == key
                            &&& command@ == command_for(
                                binary_for(self@.default_ra, bootstrap@),
                                bootstrap@,
                            )
                        },
                    }
                },
                (Err(e), None) => e.path@ == bootstrap@.cwd,
                _ => false,
            },
    {
        let (key, command) = match bootstrap.parse(self.default_ra.as_str(), files) {
            Ok(parsed) => parsed,
            Err(e) => {
                return Err(e);
            },
        };
        let at: usize = self.position(&key);
        if at < self.sessions.len() {
            return Ok(Attachment::Running(SessionHandle(at)));
        }
        Ok(Attachment::Spawn(key, command))
    }

    /// Adds a session, for which a server has been started.
    pub fn session_spawned(&mut self, key: SessionKey) -> (handle: SessionHandle)
        requires
            distinct_sessions(old(self)@.sessions),
            session_at(old(self)@.sessions, key@) >= old(self)@.sessions.len(),
        ensures
            handle.0 == old(self)@.sessions.len(),
            final(self)@ == (DaemonView {
                sessions: old(self)@.sessions.push(key@),
                ..old(self)@
            }),
            distinct_sessions(final(self)@.sessions),
    {
        let ghost before = self@.sessions;
        let handle = SessionHandle(self.sessions.len());
        self.sessions.push(key);
        proof {
            assert(self@.sessions =~= before.push(key@));
            lemma_session_at(before, key@);
        }
        handle
    }
}

/// A key whose session is running leads to that session and no other, and once a session is
/// running it keeps its handle, whatever other sessions are started.
pub proof fn law_same_key_same_session(
    sessions: Seq<SessionKeyView>,
    key: SessionKeyView,
    more: Seq<SessionKeyView>,
    i: int,
)
    requires
        0 <= i < sessions.len(),
        distinct_sessions(sessions),
    ensures
        session_at(sessions + more, key) == i <==> sessions[i] == key,
{
    let all = sessions + more;
    lemma_session_at(all, key);
    let at = session_at(all, key);
    if sessions[i] == key {
        assert(all[i] == key);
        assert(at <= i);
        if at < i {
            assert(all[at] == sessions[at]);
        }
    } else if at == i {
        assert(all[i] == sessions[i]);
    }
}

/// A client is attached to a running session if and only if there is one with its key, and then to
/// the first of them.
pub proof fn law_key_leads_to_its_session(sessions: Seq<SessionKeyView>, key: SessionKeyView)
    ensures
        session_at(sessions, key) < sessions.len() <==> exists|i: int|
            0 <= i < sessions.len() && #[trigger] sessions[i] == key,
        session_at(sessions, key) < sessions.len() ==> 0 <= session_at(sessions, key)
            && sessions[session_at(sessions, key)] == key,
        forall|i: int| 0 <= i < session_at(sessions, key) ==> #[trigger] sessions[i] != key,
{
    lemma_session_at(sessions, key);
    let at = session_at(sessions, key);
    if at < sessions.len() {
        assert(sessions[at] == key);
    }
}

/// A client is attached to the session with its binary, its arguments and its project, if one is
/// running. Otherwise a server is to be started for that session, with the arguments, the
/// environment and the working directory of the client.
pub proof fn law_client_is_attached(
    daemon: &Daemon,
    bootstrap: BootstrapMessage,
    files: &Vec<String>,
    r: Result<Attachment, RootNotFound>,
    root: Seq<char>,
    bin: Seq<char>,
    i: int,
)
    requires
        call_ensures(Daemon::attach_client, (daemon, bootstrap, files), r),
        project_root(bootstrap@.cwd, text_set(files@)) == Some(root),
        is_set(bootstrap@.envs, "RAD_RA"@, bin) || (is_unset(bootstrap@.envs, "RAD_RA"@) && bin
            == daemon@.default_ra),
    ensures
        ({
            let key = SessionKeyView {
                bin,
                args: bootstrap@.args,
                workspace: components(root),
            };
            let sessions = daemon@.sessions;
            &&& 0 <= i < sessions.len() && sessions[i] == key && distinct_sessions(sessions) ==> (
            r matches Ok(Attachment::Running(handle)) && handle.0 == i)
            &&& (forall|j: int| 0 <= j < sessions.len() ==> #[trigger] sessions[j] != key) ==> {
                &&& r matches Ok(Attachment::Spawn(k, command))
                &&& k@ == key
                &&& command@.bin == bin
                &&& command@.args == bootstrap@.args
                &&& command@.envs == bootstrap@.envs
                &&& command@.cwd == bootstrap@.cwd
            }
        }),
{
    let key = SessionKeyView { bin, args: bootstrap@.args, workspace: components(root) };
    let sessions = daemon@.sessions;
    law_binary_by_precedence(daemon@.default_ra, bootstrap@, bin);
    law_key_leads_to_its_session(sessions, key);
    let at = session_at(sessions, key);
    if 0 <= i < sessions.len() && sessions[i] == key && distinct_sessions(sessions) {
        if at < i {
            assert(sessions[at] != sessions[i]);
        }
    }
}

/// What writes messages to a server: it gives the requests their numbers.
#[derive(Debug)]
pub struct Session {
    /// On each send of a request this number is given to it and incremented.
    pub next_request_id: i32,
}

/// A message as it goes to a server whose next request gets the number `next`.
pub open spec fn outgoing(message: MessageView, next: i32) -> MessageView {
    match message {
        MessageView::Request(request) => MessageView::Request(renumbered(request, next)),
        _ => message,
    }
}

impl Session {
    /// The session of a server that has just been started.
    pub fn new() -> (session: Session)
        ensures
            session.next_request_id == 1,
    {
        Session { next_request_id: 1 }
    }

    /// The bytes that send a message to the server process. If the message is a request, also the
    /// request id that was assigned to it.
    pub fn send(&mut self, message: Message) -> (r: (Vec<u8>, Option<RequestId>))
        requires
            message@ is Request ==> old(self).next_request_id < i32::MAX,
        ensures
            r.0@ == framed(rpc_encoded(outgoing(message@, old(self).next_request_id))),
            carries(r.0@, outgoing(message@, old(self).next_request_id)),
            match message@ {
                MessageView::Request(_) => {
                    &&& r.1 matches Some(id) && id@ == IdView::Number(old(self).next_request_id)
                    &&& final(self).next_request_id == old(self).next_request_id + 1
                },
                _ => r.1 is None && final(self).next_request_id == old(self).next_request_id,
            },
    {
        match message {
            Message::Request(mut request) => {
                let id: i32 = self.next_request_id;
                self.next_request_id = id + 1;
                request.id = RequestId::Number(id);
                let sent = Message::Request(request);
                (encode_lsp_message(sent), Some(RequestId::Number(id)))
            },
            other => (encode_lsp_message(other), None),
        }
    }
}

/// A request goes to the server under the next number and with everything else as it came, and any
/// other message just as it came.
pub proof fn law_only_requests_are_numbered(message: MessageView, next: i32)
    ensures
        match message {
            MessageView::Request(m) => {
                &&& outgoing(message, next) matches MessageView::Request(sent)
                &&& sent.id == IdView::Number(next)
                &&& sent.method == m.method
                &&& sent.params == m.params
            },
            _ => outgoing(message, next) == message,
        },
{
}

} // verus!
